//! The layer manager: it attaches layers, traverses them once per iteration,
//! and detaches those that ask for it.

use crate::dependency::{LayerDependencyDeclaration, LayerInfo};
use crate::layer::{Layer, LayerError, LayerKind, LayerSwapType, PlutoLayerWalker};
use crate::sequences::{
    ascending, lemma_select_ascending, lemma_select_contains, lemma_select_push, lemma_take_one_more, lemma_without,
    lemma_without_none, lemma_without_one_more, negate, select, without,
};
use crate::system::PlutoLayerSystemProxy;
use crate::traversal::{LayerTraversal, TraversalStep};
use crate::traversal_chain::{LayerId, TraversalChain};
use vstd::prelude::*;

verus! {

/// The identifiers in a list of layers that are being swapped.
pub open spec fn ids_of<L>(entries: Seq<(LayerSwapType, LayerInfo<L>)>) -> Seq<LayerId> {
    Seq::new(entries.len(), |i: int| entries[i].1.id)
}

/// The strategies in a list of layers that are being swapped.
pub open spec fn strategies_of<L>(entries: Seq<(LayerSwapType, LayerInfo<L>)>) -> Seq<
    LayerSwapType,
> {
    Seq::new(entries.len(), |i: int| entries[i].0)
}

/// The identifiers in a list of detach requests.
pub open spec fn requested_ids(requests: Seq<(LayerId, LayerSwapType)>) -> Seq<LayerId> {
    Seq::new(requests.len(), |i: int| requests[i].0)
}

/// The strategies in a list of detach requests.
pub open spec fn requested_strategies(requests: Seq<(LayerId, LayerSwapType)>) -> Seq<
    LayerSwapType,
> {
    Seq::new(requests.len(), |i: int| requests[i].1)
}

/// The layers of `order` that want to be detached, each with the strategy
/// that it asks for, in traversal order.
pub open spec fn detach_requests<L: Layer>(
    order: Seq<LayerId>,
    layers: Map<LayerId, LayerInfo<L>>,
) -> Seq<(LayerId, LayerSwapType)>
    decreases order.len(),
{
    if order.len() == 0 {
        Seq::empty()
    } else {
        let rest = detach_requests(order.drop_last(), layers);
        match layers[order.last()].layer.detach_intent() {
            Some(strategy) => rest.push((order.last(), strategy)),
            None => rest,
        }
    }
}

/// Two tables hold the same layers under the same identifiers and kinds;
/// the states of the layers may differ.
pub open spec fn same_layers<L>(
    a: Map<LayerId, LayerInfo<L>>,
    b: Map<LayerId, LayerInfo<L>>,
) -> bool {
    &&& a.dom() == b.dom()
    &&& forall|id: LayerId| #[trigger]
        a.contains_key(id) ==> a[id].id == b[id].id && a[id].kind == b[id].kind
}

/// What one round of polling makes of a list of layers that are being
/// swapped, given by their strategies and their identifiers, where `ready`
/// holds for each layer whether it was done: the layers that were not done
/// stay, in their order. A layer under the synchronous strategy is always
/// done.
pub open spec fn polled<L>(
    before: Seq<(LayerSwapType, LayerInfo<L>)>,
    after: Seq<(LayerSwapType, LayerInfo<L>)>,
    ready: Seq<bool>,
) -> bool {
    &&& ready.len() == before.len()
    &&& forall|i: int|
        0 <= i < before.len() && (#[trigger] before[i]).0 == LayerSwapType::Synchronous
            ==> ready[i]
    &&& strategies_of(after) == select(strategies_of(before), negate(ready))
    &&& ids_of(after) == select(ids_of(before), negate(ready))
}

/// The identifiers `held` are set aside: each has been given out, each is
/// held once, and none is the identifier of an attached layer.
pub open spec fn set_aside<L>(
    held: Seq<LayerId>,
    layers: Map<LayerId, LayerInfo<L>>,
    next_id: LayerId,
) -> bool {
    &&& held.no_duplicates()
    &&& forall|i: int|
        0 <= i < held.len() ==> (#[trigger] held[i]) < next_id && !layers.contains_key(held[i])
}

/// Identifiers stay set aside when one of them is let go, be it to become
/// the identifier of an attached layer.
proof fn lemma_set_aside_without<L>(
    held: Seq<LayerId>,
    layers: Map<LayerId, LayerInfo<L>>,
    next_id: LayerId,
    i: int,
    now: Map<LayerId, LayerInfo<L>>,
)
    requires
        set_aside(held, layers, next_id),
        0 <= i < held.len(),
        forall|id: LayerId| #[trigger]
            now.contains_key(id) ==> layers.contains_key(id) || id == held[i],
    ensures
        set_aside(held.remove(i), now, next_id),
{
    let rest = held.remove(i);
    assert forall|a: int, b: int| 0 <= a < rest.len() && 0 <= b < rest.len() && a != b implies rest[a]
        != rest[b] by {
        let fa = if a < i {
            a
        } else {
            a + 1
        };
        let fb = if b < i {
            b
        } else {
            b + 1
        };
        assert(rest[a] == held[fa]);
        assert(rest[b] == held[fb]);
    }
    assert forall|a: int| 0 <= a < rest.len() implies (#[trigger] rest[a]) < next_id
        && !now.contains_key(rest[a]) by {
        let fa = if a < i {
            a
        } else {
            a + 1
        };
        assert(rest[a] == held[fa]);
        assert(held[fa] != held[i]);
    }
}

/// Identifiers stay set aside when the identifier of a layer that is
/// detached joins them.
proof fn lemma_set_aside_with<L>(
    held: Seq<LayerId>,
    layers: Map<LayerId, LayerInfo<L>>,
    next_id: LayerId,
    p: int,
    id: LayerId,
    now: Map<LayerId, LayerInfo<L>>,
)
    requires
        set_aside(held, layers, next_id),
        0 <= p <= held.len(),
        layers.contains_key(id),
        id < next_id,
        forall|x: LayerId| #[trigger] now.contains_key(x) ==> layers.contains_key(x) && x != id,
    ensures
        set_aside(held.insert(p, id), now, next_id),
{
    let more = held.insert(p, id);
    assert forall|a: int| 0 <= a < more.len() implies (#[trigger] more[a]) < next_id
        && !now.contains_key(more[a]) by {
        if a < p {
            assert(more[a] == held[a]);
        } else if a > p {
            assert(more[a] == held[a - 1]);
        }
    }
    assert forall|a: int, b: int| 0 <= a < more.len() && 0 <= b < more.len() && a != b implies more[a]
        != more[b] by {
        let fa = if a < p {
            a
        } else {
            a - 1
        };
        let fb = if b < p {
            b
        } else {
            b - 1
        };
        if a == p {
            assert(more[b] == held[fb]);
        } else if b == p {
            assert(more[a] == held[fa]);
        } else {
            assert(more[a] == held[fa]);
            assert(more[b] == held[fb]);
        }
    }
}

/// Identifiers stay set aside when layers are attached under identifiers
/// that had not been given out.
proof fn lemma_set_aside_grown<L>(
    held: Seq<LayerId>,
    layers: Map<LayerId, LayerInfo<L>>,
    next_id: LayerId,
    now: Map<LayerId, LayerInfo<L>>,
    now_next_id: LayerId,
)
    requires
        set_aside(held, layers, next_id),
        next_id <= now_next_id,
        forall|x: LayerId| #[trigger]
            now.contains_key(x) ==> layers.contains_key(x) || next_id <= x,
    ensures
        set_aside(held, now, now_next_id),
{
}

/// The next identifier can be set aside.
proof fn lemma_set_aside_next<L>(
    held: Seq<LayerId>,
    layers: Map<LayerId, LayerInfo<L>>,
    next_id: LayerId,
)
    requires
        set_aside(held, layers, next_id),
        next_id < u64::MAX,
        !layers.contains_key(next_id),
    ensures
        set_aside(held.push(next_id), layers, (next_id + 1) as LayerId),
{
    let more = held.push(next_id);
    assert forall|a: int, b: int| 0 <= a < more.len() && 0 <= b < more.len() && a != b implies more[a]
        != more[b] by {
        if a < held.len() && b < held.len() {
            assert(held[a] != held[b]);
        } else if a < held.len() {
            assert(held[a] < next_id);
        } else {
            assert(held[b] < next_id);
        }
    }
}

/// The detach requests name attached layers, each once, with the strategy
/// that the layer asks for; and every layer that asks is named.
pub proof fn lemma_detach_requests<L: Layer>(
    order: Seq<LayerId>,
    layers: Map<LayerId, LayerInfo<L>>,
)
    requires
        order.no_duplicates(),
    ensures
        requested_ids(detach_requests(order, layers)).no_duplicates(),
        detach_requests(order, layers).len() <= order.len(),
        forall|k: int|
            0 <= k < detach_requests(order, layers).len() ==> order.contains(
                (#[trigger] detach_requests(order, layers)[k]).0,
            ) && layers[detach_requests(order, layers)[k].0].layer.detach_intent() == Some(
                detach_requests(order, layers)[k].1,
            ),
        forall|i: int|
            0 <= i < order.len() && layers[#[trigger] order[i]].layer.detach_intent().is_some()
                ==> requested_ids(detach_requests(order, layers)).contains(order[i]),
    decreases order.len(),
{
    if order.len() > 0 {
        let front = order.drop_last();
        let last = order.last();
        let rest = detach_requests(front, layers);
        let all = detach_requests(order, layers);
        lemma_detach_requests(front, layers);
        assert forall|k: int| 0 <= k < all.len() implies order.contains((#[trigger] all[k]).0)
            && layers[all[k].0].layer.detach_intent() == Some(all[k].1) by {
            if k < rest.len() {
                assert(all[k] == rest[k]);
                assert(front.contains(rest[k].0));
                let j = choose|j: int| 0 <= j < front.len() && front[j] == rest[k].0;
                assert(order[j] == rest[k].0);
            } else {
                assert(order[order.len() - 1] == last);
            }
        }
        assert forall|i: int|
            0 <= i < order.len() && layers[(
            #[trigger] order[i])].layer.detach_intent().is_some() implies requested_ids(
            all,
        ).contains(order[i]) by {
            if i < front.len() {
                assert(front[i] == order[i]);
                assert(requested_ids(rest).contains(front[i]));
                let k = choose|k: int|
                    0 <= k < requested_ids(rest).len() && requested_ids(rest)[k] == front[i];
                assert(requested_ids(all)[k] == front[i]);
            } else {
                assert(requested_ids(all)[all.len() - 1] == order[i]);
            }
        }
        assert forall|a: int, b: int|
            0 <= a < all.len() && 0 <= b < all.len() && a != b implies requested_ids(all)[a]
            != requested_ids(all)[b] by {
            if a < rest.len() && b < rest.len() {
                assert(requested_ids(rest)[a] != requested_ids(rest)[b]);
            } else {
                let c = if a < rest.len() {
                    a
                } else {
                    b
                };
                assert(front.contains(rest[c].0));
                let j = choose|j: int| 0 <= j < front.len() && front[j] == rest[c].0;
                assert(order[j] != order[order.len() - 1]);
            }
        }
    }
}

/// Every layer below the place `i` of the traversal order passes on: a
/// traversal that has reached such a layer goes on to the layer above it.
pub open spec fn all_pass_below<L: Layer>(
    order: Seq<LayerId>,
    layers: Map<LayerId, LayerInfo<L>>,
    i: int,
) -> bool {
    forall|j: int| 0 <= j < i ==> layers[#[trigger] order[j]].layer.passes_on()
}

/// A base for layer managers: structures that attach layers and traverse
/// them.
///
/// A manager is first given its layers. Then `run` is called again and again
/// until it returns `true`.
pub trait LayerManager<L> {
    /// The invariant of the manager.
    spec fn wf(&self) -> bool;

    /// Whether no layer is attached and none waits to be attached.
    spec fn finished(&self) -> bool;

    /// Adds a layer on top of the attached layers. The layer is attached when
    /// this returns, unless it fails.
    fn add_layer(&mut self, layer: L) -> (outcome: Result<(), LayerError>)
        requires
            old(self).wf(),
        ensures
            final(self).wf(),
            outcome.is_ok() ==> !final(self).finished(),
    ;

    /// Runs one iteration: the layers are traversed from the bottom to the
    /// top and back, then layers are detached and attached as they ask.
    ///
    /// Returns `true` if the manager has finished: no layer is attached and
    /// none waits to be attached.
    fn run(&mut self) -> (finished: bool)
        requires
            old(self).wf(),
        ensures
            final(self).wf(),
            finished == final(self).finished(),
    ;
}

/// The layer manager.
///
/// It owns the attached layers with their traversal order, the layers that
/// have left the traversal and are polled until they can be dropped, and the
/// layers that have been added with the deferred strategy and are polled
/// until they can be attached.
pub struct PlutoLayerManager<L> {
    dependencies: LayerDependencyDeclaration<L>,
    detaching_layers: Vec<(LayerSwapType, LayerInfo<L>)>,
    // A vector and no queue: the layers that wait are polled where they
    // stand and taken out of the middle, and none is taken from the front.
    new_layers: Vec<(LayerSwapType, LayerInfo<L>)>,
}

impl<L> PlutoLayerManager<L> {
    /// The attached layers and their traversal order.
    pub closed spec fn attached(&self) -> &LayerDependencyDeclaration<L> {
        &self.dependencies
    }

    /// The identifiers of the attached layers in traversal order.
    pub open spec fn order(&self) -> Seq<LayerId> {
        self.attached().order()
    }

    /// The attached layers by identifier.
    pub open spec fn layers(&self) -> Map<LayerId, LayerInfo<L>> {
        self.attached().layers()
    }

    /// The identifier that the next added layer gets.
    pub open spec fn next_id(&self) -> LayerId {
        self.attached().next_id()
    }

    /// The layers that have left the traversal and are not yet dropped, each
    /// with the strategy by which it is polled and with the identifier and
    /// kind that it had.
    pub closed spec fn detaching(&self) -> Seq<(LayerSwapType, LayerInfo<L>)> {
        self.detaching_layers@
    }

    /// The layers that wait to be attached, each with the strategy by which
    /// it is polled and with the identifier and kind that it will have.
    pub closed spec fn pending(&self) -> Seq<(LayerSwapType, LayerInfo<L>)> {
        self.new_layers@
    }

    /// The identifiers of the layers that are neither attached nor dropped:
    /// of those that are being detached, and of those that wait.
    pub open spec fn held_ids(&self) -> Seq<LayerId> {
        ids_of(self.detaching()) + ids_of(self.pending())
    }

    /// The invariant of the manager: the attached layers are in order, no
    /// layer is being attached, the layers that are being detached or wait
    /// to be attached have identifiers of their own, and the layers that
    /// wait stand in the order of their identifiers.
    pub open spec fn inv(&self) -> bool {
        &&& self.attached().wf()
        &&& self.attached().attaching().len() == 0
        &&& set_aside(self.held_ids(), self.layers(), self.next_id())
        &&& ascending(ids_of(self.pending()))
    }

    /// A manager without layers. The first layer gets the identifier zero.
    pub fn new() -> (manager: Self)
        ensures
            manager.inv(),
            manager.order() == Seq::<LayerId>::empty(),
            manager.layers() == Map::<LayerId, LayerInfo<L>>::empty(),
            manager.next_id() == 0,
            manager.detaching() == Seq::<(LayerSwapType, LayerInfo<L>)>::empty(),
            manager.pending() == Seq::<(LayerSwapType, LayerInfo<L>)>::empty(),
    {
        Self::with_first_id(0)
    }

    /// A manager without layers, whose first layer gets the identifier
    /// `first_id`.
    pub fn with_first_id(first_id: LayerId) -> (manager: Self)
        ensures
            manager.inv(),
            manager.order() == Seq::<LayerId>::empty(),
            manager.layers() == Map::<LayerId, LayerInfo<L>>::empty(),
            manager.next_id() == first_id,
            manager.detaching() == Seq::<(LayerSwapType, LayerInfo<L>)>::empty(),
            manager.pending() == Seq::<(LayerSwapType, LayerInfo<L>)>::empty(),
    {
        Self {
            dependencies: LayerDependencyDeclaration::with_first_id(first_id),
            detaching_layers: Vec::new(),
            new_layers: Vec::new(),
        }
    }

    /// The attached layers and their traversal order.
    pub fn dependencies(&self) -> (attached: &LayerDependencyDeclaration<L>)
        ensures
            attached == self.attached(),
    {
        &self.dependencies
    }

    /// The traversal order of the attached layers.
    pub fn traversal_chain(&self) -> (chain: &TraversalChain)
        ensures
            chain == self.attached().chain(),
    {
        self.dependencies.traversal_chain()
    }

    /// How many layers are attached.
    pub fn len(&self) -> (n: usize)
        requires
            self.inv(),
        ensures
            n == self.order().len(),
    {
        self.dependencies.len()
    }

    /// Whether no layer is attached.
    pub fn is_empty(&self) -> (empty: bool)
        requires
            self.inv(),
        ensures
            empty == (self.order().len() == 0),
    {
        self.dependencies.is_empty()
    }

    /// The attached layer with the identifier `id`, if there is one.
    pub fn get(&self, id: LayerId) -> (found: Option<&LayerInfo<L>>)
        ensures
            found == match self.layers().get(id) {
                Some(info) => Some(&info),
                None => None,
            },
    {
        self.dependencies.get(id)
    }

    /// How many layers have left the traversal and are not yet dropped.
    pub fn detaching_len(&self) -> (n: usize)
        ensures
            n == self.detaching().len(),
    {
        self.detaching_layers.len()
    }

    /// How many layers wait to be attached.
    pub fn pending_len(&self) -> (n: usize)
        ensures
            n == self.pending().len(),
    {
        self.new_layers.len()
    }

    /// The invariant still holds when layers have been attached and nothing
    /// else has changed.
    proof fn lemma_inv_after_attaching(&self, before: &Self)
        requires
            before.inv(),
            self.attached().wf(),
            self.attached().extends(before.attached()),
            self.held_ids() == before.held_ids(),
            self.pending() == before.pending(),
        ensures
            self.inv(),
    {
        self.attached().lemma_wf();
        before.attached().lemma_wf();
        assert forall|x: LayerId| #[trigger]
            self.layers().contains_key(x) implies before.layers().contains_key(x)
            || before.next_id() <= x by {
            assert(self.order().contains(x));
            let j = choose|j: int| 0 <= j < self.order().len() && self.order()[j] == x;
            if j < before.order().len() {
                assert(before.order()[j] == x);
                assert(before.order().contains(x));
            } else {
                assert(before.next_id() <= self.order()[j]);
            }
        }
        lemma_set_aside_grown(
            before.held_ids(),
            before.layers(),
            before.next_id(),
            self.layers(),
            self.next_id(),
        );
    }

    /// The invariant still holds when only the states of layers have changed.
    proof fn lemma_inv_after_callbacks(&self, before: &Self)
        requires
            before.inv(),
            self.attached().wf(),
            self.attached().attaching() == before.attached().attaching(),
            self.next_id() == before.next_id(),
            self.held_ids() == before.held_ids(),
            self.pending() == before.pending(),
            same_layers(self.layers(), before.layers()),
        ensures
            self.inv(),
    {
    }
}

/// The layer `id` is in `after` as it was in `before`.
pub open spec fn same_layer_at<L>(
    after: Map<LayerId, LayerInfo<L>>,
    before: Map<LayerId, LayerInfo<L>>,
    id: LayerId,
) -> bool {
    after[id] == before[id]
}

impl<L: Layer> PlutoLayerManager<L> {
    /// `self` is what a traversal makes of `before`: the same layers in the
    /// same order; only their states may differ.
    pub open spec fn traversed(&self, before: &Self) -> bool {
        &&& self.order() == before.order()
        &&& self.next_id() == before.next_id()
        &&& same_layers(self.layers(), before.layers())
        &&& self.detaching() == before.detaching()
        &&& self.pending() == before.pending()
    }

    /// `self` is `before` with the layers detached that `requests` names,
    /// each with the strategy by which it is to be polled: those layers have
    /// left the attached layers and the traversal order, and are kept, under
    /// their identifiers, behind the layers that were being detached
    /// already.
    pub open spec fn detached_by(
        &self,
        before: &Self,
        requests: Seq<(LayerId, LayerSwapType)>,
    ) -> bool {
        &&& self.order() == without(before.order(), requested_ids(requests).to_set())
        &&& self.layers() == before.layers().remove_keys(requested_ids(requests).to_set())
        &&& self.next_id() == before.next_id()
        &&& self.pending() == before.pending()
        &&& ids_of(self.detaching()) == ids_of(before.detaching()) + requested_ids(requests)
        &&& strategies_of(self.detaching()) == strategies_of(before.detaching())
            + requested_strategies(requests)
    }

    /// `self` is `before` with every layer detached that wanted to be.
    pub open spec fn detached(&self, before: &Self) -> bool {
        self.detached_by(before, detach_requests(before.order(), before.layers()))
    }

    /// `self` is `before` after the layers that are being detached were
    /// polled, where `ready` holds for each of them whether it was done:
    /// those that were done are dropped, and the others stay, each closer to
    /// being done than it was.
    pub open spec fn detach_polled_by(&self, before: &Self, ready: Seq<bool>) -> bool {
        &&& self.attached() == before.attached()
        &&& self.pending() == before.pending()
        &&& polled(before.detaching(), self.detaching(), ready)
        &&& forall|k: int, j: int|
            0 <= k < self.detaching().len() && 0 <= j < before.detaching().len() && (
            #[trigger] self.detaching()[k]).1.id == (#[trigger] before.detaching()[j]).1.id
                ==> self.detaching()[k].1.kind == before.detaching()[j].1.kind
                && self.detaching()[k].1.layer.detach_effort()
                < before.detaching()[j].1.layer.detach_effort()
    }

    /// `self` is `before` after the layers that are being detached were
    /// polled: those that were done are dropped.
    pub open spec fn detach_polled(&self, before: &Self) -> bool {
        exists|ready: Seq<bool>| #[trigger] self.detach_polled_by(before, ready)
    }

    /// `self` is `before` after the layers that wait were polled, where
    /// `ready` holds for each of them whether it was done: those that were
    /// done are attached at the end of the traversal order, under the
    /// identifiers and kinds with which they waited, and the others wait on,
    /// each closer to being done than it was.
    pub open spec fn attach_polled_by(&self, before: &Self, ready: Seq<bool>) -> bool {
        &&& self.next_id() == before.next_id()
        &&& self.detaching() == before.detaching()
        &&& polled(before.pending(), self.pending(), ready)
        &&& forall|k: int, j: int|
            0 <= k < self.pending().len() && 0 <= j < before.pending().len() && (
            #[trigger] self.pending()[k]).1.id == (#[trigger] before.pending()[j]).1.id
                ==> self.pending()[k].1.kind == before.pending()[j].1.kind
                && self.pending()[k].1.layer.attach_effort()
                < before.pending()[j].1.layer.attach_effort()
        &&& self.order() == before.order() + select(ids_of(before.pending()), ready)
        &&& forall|id: LayerId| #[trigger]
            before.layers().contains_key(id) ==> self.layers().contains_key(id)
                && self.layers()[id] == before.layers()[id]
        &&& forall|i: int|
            0 <= i < before.pending().len() && self.layers().contains_key(
                (#[trigger] before.pending()[i]).1.id,
            ) ==> self.layers()[before.pending()[i].1.id].kind == before.pending()[i].1.kind
    }

    /// `self` is `before` after the layers that wait were polled: those that
    /// were done are attached, and the others wait on.
    pub open spec fn attach_polled(&self, before: &Self) -> bool {
        exists|ready: Seq<bool>| #[trigger] self.attach_polled_by(before, ready)
    }

    /// `after` is what one iteration makes of `before`, by way of the states
    /// `entered`, `cleared` and `swept`: a traversal, the detaching of the
    /// layers that ask for it, a round of polling those that are being
    /// detached, and a round of polling those that wait to be attached.
    pub open spec fn iteration(
        before: &Self,
        entered: &Self,
        cleared: &Self,
        swept: &Self,
        after: &Self,
    ) -> bool {
        &&& entered.traversed(before)
        &&& cleared.detached(entered)
        &&& swept.detach_polled(cleared)
        &&& after.attach_polled(swept)
    }

    /// `self` is `before` with one layer more that waits to be attached,
    /// behind those that waited already: it is polled by `swap_type` and will
    /// be the layer `id`, of `kind`.
    pub open spec fn waits_last(
        &self,
        before: &Self,
        id: LayerId,
        kind: LayerKind,
        swap_type: LayerSwapType,
    ) -> bool {
        &&& self.pending().len() == before.pending().len() + 1
        &&& self.pending().drop_last() == before.pending()
        &&& self.pending().last().0 == swap_type
        &&& self.pending().last().1.id == id
        &&& self.pending().last().1.kind == kind
        &&& !self.layers().contains_key(id)
        &&& before.next_id() <= id
        &&& self.next_id() == id + 1
    }

    /// The layers that become attached in one round of polling are attached
    /// in the order in which they were added, which is the order of their
    /// identifiers; and so do the layers wait that wait on.
    pub proof fn lemma_attached_in_order(&self, before: &Self, ready: Seq<bool>)
        requires
            before.inv(),
            self.attach_polled_by(before, ready),
        ensures
            self.order() == before.order() + select(ids_of(before.pending()), ready),
            ascending(select(ids_of(before.pending()), ready)),
            ascending(ids_of(self.pending())),
    {
        lemma_select_ascending(ids_of(before.pending()), ready);
        lemma_select_ascending(ids_of(before.pending()), negate(ready));
    }

    /// `self` and `outcome` are what comes of adding a layer of `kind` that
    /// declares nothing to `before`, by `swap_type`. Under the synchronous
    /// strategy the layer is attached on top under the next identifier; under
    /// the deferred one it gets the next identifier and waits, behind the
    /// layers that wait already. Where no identifier is left, the layer is
    /// dropped and nothing changes.
    pub open spec fn plainly_added(
        &self,
        before: &Self,
        kind: LayerKind,
        swap_type: LayerSwapType,
        outcome: Result<LayerId, LayerError>,
    ) -> bool {
        match outcome {
            Ok(id) => if swap_type == LayerSwapType::Synchronous {
                &&& self.pending() == before.pending()
                &&& self.attached().attached_on_top(before.attached(), id, kind)
            } else {
                &&& id == before.next_id()
                &&& self.waits_last(before, id, kind, swap_type)
                &&& self.order() == before.order()
                &&& self.layers() == before.layers()
            },
            Err(error) => error == LayerError::IdsExhausted && before.next_id() == u64::MAX
                && self.attached().unchanged(before.attached()) && self.pending()
                == before.pending(),
        }
    }

    /// A layer that wants to be detached has left the attached layers and the
    /// traversal order once the layers are detached that ask for it, and is
    /// among the layers that are being detached; a layer that does not want
    /// to be detached stays as it is.
    pub proof fn lemma_detached_when_asked(&self, before: &Self, id: LayerId)
        requires
            before.inv(),
            self.detached(before),
            before.layers().contains_key(id),
        ensures
            before.layers()[id].layer.detach_intent().is_some() ==> !self.order().contains(id)
                && !self.layers().contains_key(id) && ids_of(self.detaching()).contains(id),
            before.layers()[id].layer.detach_intent().is_none() ==> self.order().contains(id)
                && self.layers().contains_key(id) && self.layers()[id] == before.layers()[id],
    {
        let requests = detach_requests(before.order(), before.layers());
        let gone = requested_ids(requests).to_set();
        before.attached().lemma_wf();
        lemma_detach_requests(before.order(), before.layers());
        lemma_without(before.order(), gone);
        assert(before.order().contains(id));
        let i = choose|i: int| 0 <= i < before.order().len() && before.order()[i] == id;
        if before.layers()[id].layer.detach_intent().is_some() {
            assert(before.layers()[before.order()[i]].layer.detach_intent().is_some());
            assert(requested_ids(requests).contains(id));
            let k = choose|k: int|
                0 <= k < requested_ids(requests).len() && requested_ids(requests)[k] == id;
            assert(ids_of(self.detaching())[ids_of(before.detaching()).len() + k] == id);
        } else {
            if gone.contains(id) {
                let k = choose|k: int|
                    0 <= k < requested_ids(requests).len() && requested_ids(requests)[k] == id;
                assert(requests[k].0 == id);
            }
        }
    }

    /// In a round of polling, a layer that is being detached and is ready is
    /// dropped; one that is not ready stays among the layers that are being
    /// detached, and is closer to being ready than it was.
    ///
    /// So a layer that answers its polls with `false` in `n` rounds and with
    /// `true` in the next is dropped by round `n + 1` and by none before; and
    /// no layer stays for more rounds than its `detach_effort` allows.
    pub proof fn lemma_dropped_when_ready(&self, before: &Self, ready: Seq<bool>, i: int)
        requires
            before.inv(),
            self.detach_polled_by(before, ready),
            0 <= i < before.detaching().len(),
        ensures
            ids_of(self.detaching()).contains(before.detaching()[i].1.id) <==> !ready[i],
            forall|k: int|
                0 <= k < self.detaching().len() && (#[trigger] self.detaching()[k]).1.id
                    == before.detaching()[i].1.id
                    ==> self.detaching()[k].1.layer.detach_effort()
                    < before.detaching()[i].1.layer.detach_effort(),
    {
        let ids = ids_of(before.detaching());
        let id = before.detaching()[i].1.id;
        lemma_select_contains(ids, negate(ready), id);
        assert(ids[i] == id);
        assert forall|j: int| 0 <= j < ids.len() && #[trigger] ids[j] == id implies j == i by {
            assert(before.held_ids()[j] == ids[j]);
            assert(before.held_ids()[i] == ids[i]);
        }
        if !ready[i] {
            assert(negate(ready)[i]);
        }
    }

    /// In a round of polling, a layer that waits and is ready becomes
    /// attached, under the identifier and kind with which it waited, and
    /// waits no more; one that is not ready waits on, is not attached, and is
    /// closer to being ready than it was.
    ///
    /// So a layer that answers its polls with `false` in `n` rounds and with
    /// `true` in the next is attached by round `n + 1` and by none before;
    /// and no layer waits for more rounds than its `attach_effort` allows.
    pub proof fn lemma_attached_when_ready(&self, before: &Self, ready: Seq<bool>, i: int)
        requires
            before.inv(),
            self.inv(),
            self.attach_polled_by(before, ready),
            0 <= i < before.pending().len(),
        ensures
            ready[i] ==> self.order().contains(before.pending()[i].1.id) && !ids_of(
                self.pending(),
            ).contains(before.pending()[i].1.id) && self.layers()[before.pending()[i].1.id].kind
                == before.pending()[i].1.kind,
            !ready[i] ==> !self.order().contains(before.pending()[i].1.id) && ids_of(
                self.pending(),
            ).contains(before.pending()[i].1.id),
            forall|k: int|
                0 <= k < self.pending().len() && (#[trigger] self.pending()[k]).1.id
                    == before.pending()[i].1.id ==> self.pending()[k].1.layer.attach_effort()
                    < before.pending()[i].1.layer.attach_effort(),
    {
        let ids = ids_of(before.pending());
        let id = before.pending()[i].1.id;
        let base = ids_of(before.detaching()).len();
        before.attached().lemma_wf();
        self.attached().lemma_wf();
        lemma_select_contains(ids, ready, id);
        lemma_select_contains(ids, negate(ready), id);
        assert(ids[i] == id);
        assert(before.held_ids()[base + i] == id);
        assert(!before.order().contains(id));
        assert forall|j: int| 0 <= j < ids.len() && #[trigger] ids[j] == id implies j == i by {
            assert(before.held_ids()[base + j] == ids[j]);
        }
        let attached = select(ids, ready);
        if ready[i] {
            assert(attached.contains(id));
            let k = choose|k: int| 0 <= k < attached.len() && attached[k] == id;
            assert(self.order()[before.order().len() + k] == id);
            assert(self.layers().contains_key(id));
        } else {
            assert(negate(ready)[i]);
            if self.order().contains(id) {
                let k = choose|k: int| 0 <= k < self.order().len() && self.order()[k] == id;
                if k < before.order().len() {
                    assert(before.order()[k] == id);
                } else {
                    assert(attached[k - before.order().len()] == id);
                    assert(attached.contains(id));
                }
            }
        }
    }

    /// Adds a layer with the given strategy.
    ///
    /// The layer declares its dependencies first. Under the synchronous
    /// strategy it is then polled until it is ready and is attached when this
    /// returns. Under the deferred strategy it waits, and is polled once in
    /// every iteration until it is ready. On failure the layer is dropped,
    /// and so is every dependency that was attached for it: the layers that
    /// were attached before are attached as before, and so are those that
    /// wait. A layer that declares nothing is added unless no identifier is
    /// left.
    pub fn add_layer_with(&mut self, layer: L, swap_type: LayerSwapType) -> (outcome: Result<
        LayerId,
        LayerError,
    >)
        requires
            old(self).inv(),
        ensures
            final(self).inv(),
            final(self).attached().extends(old(self).attached()),
            final(self).detaching() == old(self).detaching(),
            match outcome {
                Ok(id) => if swap_type == LayerSwapType::Synchronous {
                    &&& final(self).pending() == old(self).pending()
                    &&& final(self).attached().top_is_new(
                        old(self).attached(),
                        id,
                        layer.layer_kind(),
                    )
                    &&& final(self).attached().none_of_kind_since(
                        old(self).attached(),
                        layer.layer_kind(),
                        1,
                    )
                } else {
                    &&& final(self).waits_last(old(self), id, layer.layer_kind(), swap_type)
                    &&& final(self).attached().none_of_kind_since(
                        old(self).attached(),
                        layer.layer_kind(),
                        0,
                    )
                },
                Err(_) => final(self).pending() == old(self).pending() && final(
                    self).attached().restored(old(self).attached()),
            },
            layer.declares_nothing() ==> final(self).plainly_added(
                old(self),
                layer.layer_kind(),
                swap_type,
                outcome,
            ),
    {
        match swap_type {
            LayerSwapType::Synchronous => {
                let outcome = self.dependencies.attach(layer);
                proof {
                    self.lemma_inv_after_attaching(old(self));
                }
                outcome
            },
            LayerSwapType::Deferred => {
                proof {
                    old(self).attached().lemma_wf();
                }
                let mark = self.dependencies.len();
                let mut layer = layer;
                let kind = layer.kind();
                let declared = self.dependencies.declare(&mut layer);
                proof {
                    self.lemma_inv_after_attaching(old(self));
                }
                let outcome = self.enqueue(layer, kind, swap_type, declared);
                if outcome.is_err() {
                    let ghost failed = *self;
                    self.dependencies.roll_back(mark);
                    proof {
                        failed.attached().lemma_wf();
                        self.attached().lemma_wf();
                        assert(self.order() =~= old(self).order());
                        assert(self.layers().dom() =~= old(self).layers().dom());
                        if failed.layers() == old(self).layers() {
                            assert(self.layers() =~= old(self).layers());
                        }
                        lemma_set_aside_grown(
                            failed.held_ids(),
                            failed.layers(),
                            failed.next_id(),
                            self.layers(),
                            self.next_id(),
                        );
                    }
                }
                outcome
            },
        }
    }

    /// What follows when `layer`, which is of `kind` and is to be attached by
    /// `swap_type`, has declared its dependencies with the outcome
    /// `declared`. After a failure the layer is dropped, with that error, and
    /// nothing changes. After a success the layer gets the next identifier
    /// and waits, behind the layers that wait already; where no identifier
    /// is left, the layer is dropped and nothing changes.
    fn enqueue(
        &mut self,
        layer: L,
        kind: LayerKind,
        swap_type: LayerSwapType,
        declared: Result<(), LayerError>,
    ) -> (outcome: Result<LayerId, LayerError>)
        requires
            old(self).inv(),
        ensures
            final(self).inv(),
            final(self).order() == old(self).order(),
            final(self).layers() == old(self).layers(),
            final(self).attached().attaching() == old(self).attached().attaching(),
            final(self).attached().failure() == old(self).attached().failure(),
            final(self).detaching() == old(self).detaching(),
            match declared {
                Err(error) => outcome == Err::<LayerId, LayerError>(error) && final(self).pending()
                    == old(self).pending() && final(self).next_id() == old(self).next_id(),
                Ok(_) => match outcome {
                    Ok(id) => id == old(self).next_id() && final(self).pending() == old(
                        self).pending().push((swap_type, LayerInfo { id, kind, layer })) && final(
                        self).waits_last(old(self), id, kind, swap_type),
                    Err(error) => error == LayerError::IdsExhausted && old(self).next_id()
                        == u64::MAX && final(self).pending() == old(self).pending() && final(
                        self).next_id() == old(self).next_id(),
                },
            },
    {
        match declared {
            Err(error) => Err(error),
            Ok(()) => {
                match self.dependencies.create_id() {
                    Err(error) => Err(error),
                    Ok(id) => {
                        self.new_layers.push((swap_type, LayerInfo { id, kind, layer }));
                        proof {
                            old(self).attached().lemma_wf();
                            assert(self.pending().drop_last() =~= old(self).pending());
                            assert(self.held_ids() =~= old(self).held_ids().push(id));
                            assert forall|i: int, j: int|
                                0 <= i < j < self.pending().len() implies ids_of(
                                self.pending(),
                            )[i] < ids_of(self.pending())[j] by {
                                let base = ids_of(old(self).detaching()).len();
                                assert(old(self).held_ids()[base + i] == ids_of(
                                    self.pending(),
                                )[i]);
                                if j < old(self).pending().len() {
                                    assert(ids_of(old(self).pending())[i] < ids_of(
                                        old(self).pending(),
                                    )[j]);
                                }
                            }
                            lemma_set_aside_next(
                                old(self).held_ids(),
                                old(self).layers(),
                                old(self).next_id(),
                            );
                        }
                        Ok(id)
                    },
                }
            },
        }
    }

    /// Traverses the attached layers: enters them from the bottom up, for as
    /// long as each lets the traversal go on, and leaves those that it has
    /// entered from the top down. Returns how many layers were entered.
    ///
    /// The layers share a fresh stack of systems, which the traversal holds
    /// and hands to each layer that it enters or leaves. What a layer has
    /// provided is taken off when the traversal has left that layer.
    ///
    /// No layer is attached or detached by this; the states of the layers
    /// that were entered are what their callbacks made of them, and a layer
    /// that was not entered is as it was. The lowest layer is entered in any
    /// case, and so is every layer below which all layers pass on.
    pub fn traverse(&mut self) -> (entered: usize)
        requires
            old(self).inv(),
        ensures
            final(self).inv(),
            final(self).traversed(old(self)),
            entered <= old(self).order().len(),
            forall|i: int|
                0 <= i < old(self).order().len() && #[trigger] all_pass_below(
                    old(self).order(),
                    old(self).layers(),
                    i,
                ) ==> i < entered,
            forall|j: int|
                entered <= j < old(self).order().len() ==> same_layer_at(
                    final(self).layers(),
                    old(self).layers(),
                    #[trigger] old(self).order()[j],
                ),
    {
        proof {
            self.attached().lemma_wf();
        }
        let order = self.dependencies.traversal_chain().ids();
        let mut course: LayerTraversal<L::System> = LayerTraversal::new(order);
        self.traverse_with(&mut course)
    }

    /// Takes `course`, a traversal of the attached layers that has not begun,
    /// to its end, and returns how many layers were entered.
    ///
    /// Whatever the layers do with the stack of systems, the traversal ends
    /// with every layer left that was entered and with a stack that holds no
    /// system: nothing that a layer provides outlasts the traversal.
    pub fn traverse_with(&mut self, course: &mut LayerTraversal<L::System>) -> (entered: usize)
        requires
            old(self).inv(),
            old(course).fresh(),
            old(course).order() == old(self).order(),
        ensures
            final(self).inv(),
            final(self).traversed(old(self)),
            final(course).order() == old(course).order(),
            final(course).finished(),
            entered <= old(self).order().len(),
            forall|i: int|
                0 <= i < old(self).order().len() && #[trigger] all_pass_below(
                    old(self).order(),
                    old(self).layers(),
                    i,
                ) ==> i < entered,
            forall|j: int|
                entered <= j < old(self).order().len() ==> same_layer_at(
                    final(self).layers(),
                    old(self).layers(),
                    #[trigger] old(self).order()[j],
                ),
    {
        proof {
            self.attached().lemma_wf();
        }
        let count = course.layers_above();
        let mut proceed = false;
        let mut entered: usize = 0;
        let ghost lowest = old(self).order();
        let ghost lowest_layers = old(self).layers();

        loop
            invariant
                self.inv(),
                old(self).inv(),
                course.wf(),
                course.grounded(),
                self.traversed(old(self)),
                lowest == old(self).order(),
                lowest_layers == old(self).layers(),
                course.order() == lowest,
                lowest.len() == count,
                entered <= lowest.len(),
                course.ascending() ==> entered == course.marks().len(),
                course.marks().len() <= entered,
                forall|j: int|
                    entered <= j < lowest.len() ==> self.layers()[#[trigger] lowest[j]]
                        == lowest_layers[lowest[j]],
                course.ascending() && entered > 0 && lowest_layers[lowest[entered
                    - 1]].layer.passes_on() ==> proceed,
                !course.ascending() ==> forall|i: int|
                    0 <= i < lowest.len() && #[trigger] all_pass_below(lowest, lowest_layers, i)
                        ==> i < entered,
            ensures
                self.inv(),
                self.traversed(old(self)),
                entered <= lowest.len(),
                course.order() == lowest,
                course.finished(),
                forall|i: int|
                    0 <= i < lowest.len() && #[trigger] all_pass_below(lowest, lowest_layers, i)
                        ==> i < entered,
                forall|j: int|
                    entered <= j < lowest.len() ==> self.layers()[#[trigger] lowest[j]]
                        == lowest_layers[lowest[j]],
            decreases course.steps_left(),
        {
            let ghost before = *self;
            let ghost turning = course.ascending() && !course.enters_next(proceed);
            let ghost entering = course.enters_next(proceed);
            proof {
                old(self).attached().lemma_wf();
                before.attached().lemma_wf();
                if turning {
                    // The traversal turns back: it has entered every layer,
                    // or the layer that it entered last did not ask to go on
                    // and so is none that passes on.
                    assert forall|i: int|
                        0 <= i < lowest.len() && #[trigger] all_pass_below(
                            lowest,
                            lowest_layers,
                            i,
                        ) implies i < entered by {
                        if i >= entered {
                            assert(lowest_layers[lowest[entered - 1]].layer.passes_on());
                        }
                    }
                }
            }
            match course.advance(proceed) {
                TraversalStep::Enter(id) => {
                    let mut walker = PlutoLayerWalker::new(course.layers_above());
                    proof {
                        assert(entering);
                        assert(entered < lowest.len());
                        assert(lowest[entered as int] == id);
                        assert(before.layers().contains_key(lowest[entered as int]));
                    }
                    match self.dependencies.get_mut(id) {
                        Some(layer) => {
                            layer.on_enter(course.systems_mut(), &mut walker);
                        },
                        None => {},
                    }
                    proceed = walker.should_proceed();
                    entered = entered + 1;
                    proof {
                        assert forall|j: int| entered <= j < lowest.len() implies self.layers()[(
                        #[trigger] lowest[j])] == lowest_layers[lowest[j]] by {
                            assert(lowest[j] != lowest[entered - 1]);
                            assert(before.layers()[lowest[j]] == lowest_layers[lowest[j]]);
                        }
                    }
                },
                TraversalStep::Leave(id, _) => {
                    match self.dependencies.get_mut(id) {
                        Some(layer) => {
                            layer.on_leave(course.systems());
                        },
                        None => {},
                    }
                },
                TraversalStep::Done => {
                    break;
                },
            }
            proof {
                assert(self.layers().dom() =~= before.layers().dom());
                self.lemma_inv_after_callbacks(&before);
            }
        }
        entered
    }

    /// The attached layers that want to be detached, each with the strategy
    /// that it asks for, in traversal order. Every layer is asked before any
    /// is detached.
    pub fn layers_to_detach(&self) -> (requests: Vec<(LayerId, LayerSwapType)>)
        requires
            self.inv(),
        ensures
            requests@ == detach_requests(self.order(), self.layers()),
    {
        proof {
            self.attached().lemma_wf();
        }
        let order = self.dependencies.traversal_chain().ids();
        let mut requests: Vec<(LayerId, LayerSwapType)> = Vec::new();
        let mut i: usize = 0;
        while i < order.len()
            invariant
                self.inv(),
                order@ == self.order(),
                i <= order.len(),
                requests@ == detach_requests(order@.take(i as int), self.layers()),
            decreases order.len() - i,
        {
            let id = order[i];
            proof {
                self.attached().lemma_wf();
                assert(self.layers().contains_key(self.order()[i as int]));
                assert(order@.take(i + 1).drop_last() =~= order@.take(i as int));
            }
            match self.dependencies.get(id) {
                Some(info) => {
                    match info.layer.should_detach() {
                        Some(swap_type) => {
                            requests.push((id, swap_type));
                        },
                        None => {},
                    }
                },
                None => {},
            }
            i = i + 1;
        }
        proof {
            assert(order@.take(order.len() as int) =~= order@);
        }
        requests
    }

    /// Detaches the layers that `requests` names: each is taken out of the
    /// attached layers and of the traversal order, told so by `on_detach`,
    /// and kept, with the requested strategy, to be polled until it can be
    /// dropped.
    pub fn detach_layers(&mut self, requests: Vec<(LayerId, LayerSwapType)>)
        requires
            old(self).inv(),
            requested_ids(requests@).no_duplicates(),
            forall|k: int|
                0 <= k < requests.len() ==> old(self).layers().contains_key(
                    (#[trigger] requests@[k]).0,
                ),
        ensures
            final(self).inv(),
            final(self).detached_by(old(self), requests@),
    {
        let ghost ids = requested_ids(requests@);
        let ghost strategies = requested_strategies(requests@);
        let mut k: usize = 0;
        proof {
            old(self).attached().lemma_wf();
            lemma_without_none(old(self).order());
            assert(ids.take(0).to_set() =~= Set::<LayerId>::empty());
            assert(old(self).layers().remove_keys(Set::<LayerId>::empty()) =~= old(self).layers());
            assert(ids_of(old(self).detaching()) + ids.take(0) =~= ids_of(old(self).detaching()));
            assert(strategies_of(old(self).detaching()) + strategies.take(0) =~= strategies_of(
                old(self).detaching(),
            ));
        }
        while k < requests.len()
            invariant
                self.inv(),
                old(self).inv(),
                ids == requested_ids(requests@),
                strategies == requested_strategies(requests@),
                ids.no_duplicates(),
                forall|j: int|
                    0 <= j < requests.len() ==> old(self).layers().contains_key(
                        (#[trigger] requests@[j]).0,
                    ),
                k <= requests.len(),
                self.order() == without(old(self).order(), ids.take(k as int).to_set()),
                self.layers() == old(self).layers().remove_keys(ids.take(k as int).to_set()),
                self.next_id() == old(self).next_id(),
                self.pending() == old(self).pending(),
                ids_of(self.detaching()) == ids_of(old(self).detaching()) + ids.take(k as int),
                strategies_of(self.detaching()) == strategies_of(old(self).detaching())
                    + strategies.take(k as int),
            decreases requests.len() - k,
        {
            let (id, swap_type) = requests[k];
            let ghost before = *self;
            let ghost gone = ids.take(k as int).to_set();
            proof {
                old(self).attached().lemma_wf();
                before.attached().lemma_wf();
                assert(ids[k as int] == id);
                assert(!gone.contains(id)) by {
                    let done = ids.take(k as int);
                    if gone.contains(id) {
                        let j = choose|j: int| 0 <= j < done.len() && done[j] == id;
                        assert(ids[j] == ids[k as int]);
                    }
                }
                assert(old(self).layers().contains_key(requests@[k as int].0));
                lemma_without_one_more(old(self).order(), gone, id);
                lemma_take_one_more(ids, k as int);
                assert(before.layers().contains_key(id));
            }
            match self.dependencies.remove(id) {
                Some(info) => {
                    let mut info = info;
                    info.layer.on_detach();
                    self.detaching_layers.push((swap_type, info));
                },
                None => {},
            }
            proof {
                assert(self.layers() =~= old(self).layers().remove_keys(gone.insert(id)));
                assert(self.detaching().drop_last() =~= before.detaching());
                assert(self.detaching().last().1.id == id);
                assert(ids_of(self.detaching()) =~= ids_of(before.detaching()).push(id));
                assert(strategies_of(self.detaching()) =~= strategies_of(before.detaching()).push(
                    swap_type,
                ));
                assert(ids.take(k + 1) =~= ids.take(k as int).push(id));
                assert(strategies.take(k + 1) =~= strategies.take(k as int).push(swap_type));
                assert(ids_of(self.detaching()) =~= ids_of(old(self).detaching()) + ids.take(
                    k + 1,
                ));
                assert(strategies_of(self.detaching()) =~= strategies_of(old(self).detaching())
                    + strategies.take(k + 1));
                assert(self.held_ids() =~= before.held_ids().insert(
                    ids_of(before.detaching()).len() as int,
                    id,
                ));
                lemma_set_aside_with(
                    before.held_ids(),
                    before.layers(),
                    before.next_id(),
                    ids_of(before.detaching()).len() as int,
                    id,
                    self.layers(),
                );
            }
            k = k + 1;
        }
        proof {
            assert(ids.take(requests.len() as int) =~= ids);
            assert(strategies.take(requests.len() as int) =~= strategies);
        }
    }

    /// What follows when the layer at the place `i` of those that are being
    /// detached has been polled with the result `completed`: a layer that is
    /// done is dropped, and one that is not stays where it is. Returns the
    /// place of the layer that is to be polled next.
    fn let_go(&mut self, i: usize, completed: bool) -> (next: usize)
        requires
            old(self).inv(),
            i < old(self).detaching().len(),
        ensures
            final(self).inv(),
            final(self).attached() == old(self).attached(),
            final(self).pending() == old(self).pending(),
            final(self).detaching() == if completed {
                old(self).detaching().remove(i as int)
            } else {
                old(self).detaching()
            },
            next == if completed {
                i
            } else {
                (i + 1) as usize
            },
    {
        if completed {
            self.detaching_layers.remove(i);
            proof {
                assert(ids_of(self.detaching()) =~= ids_of(old(self).detaching()).remove(i as int));
                assert(self.held_ids() =~= old(self).held_ids().remove(i as int));
                lemma_set_aside_without(
                    old(self).held_ids(),
                    old(self).layers(),
                    old(self).next_id(),
                    i as int,
                    self.layers(),
                );
            }
            i
        } else {
            assert(i < self.detaching_layers.len());
            i + 1
        }
    }

    /// What follows when the layer at the place `i` of those that wait has
    /// been polled with the result `completed`: a layer that is done is
    /// attached on top of the attached layers, under the identifier and the
    /// kind with which it waited, and one that is not waits on where it is.
    /// Returns the place of the layer that is to be polled next.
    fn take_in(&mut self, i: usize, completed: bool) -> (next: usize)
        requires
            old(self).inv(),
            i < old(self).pending().len(),
        ensures
            final(self).inv(),
            final(self).next_id() == old(self).next_id(),
            final(self).detaching() == old(self).detaching(),
            if completed {
                &&& next == i
                &&& final(self).pending() == old(self).pending().remove(i as int)
                &&& final(self).order() == old(self).order().push(old(self).pending()[i as int].1.id)
                &&& final(self).layers() == old(self).layers().insert(
                    old(self).pending()[i as int].1.id,
                    old(self).pending()[i as int].1,
                )
            } else {
                &&& next == i + 1
                &&& final(self).pending() == old(self).pending()
                &&& final(self).attached() == old(self).attached()
            },
    {
        if completed {
            let ghost base = ids_of(self.detaching()).len() as int;
            proof {
                assert(self.held_ids()[base + i] == self.pending()[i as int].1.id);
            }
            let (_, info) = self.new_layers.remove(i);
            self.dependencies.insert_layer(info);
            proof {
                assert(ids_of(self.pending()) =~= ids_of(old(self).pending()).remove(i as int));
                assert(self.held_ids() =~= old(self).held_ids().remove(base + i));
                lemma_set_aside_without(
                    old(self).held_ids(),
                    old(self).layers(),
                    old(self).next_id(),
                    base + i,
                    self.layers(),
                );
                assert forall|a: int, b: int|
                    0 <= a < b < self.pending().len() implies ids_of(self.pending())[a] < ids_of(
                    self.pending(),
                )[b] by {
                    let fa = if a < i {
                        a
                    } else {
                        a + 1
                    };
                    let fb = if b < i {
                        b
                    } else {
                        b + 1
                    };
                    assert(ids_of(old(self).pending())[fa] < ids_of(old(self).pending())[fb]);
                }
            }
            i
        } else {
            assert(i < self.new_layers.len());
            i + 1
        }
    }

    /// Polls the layers that have left the traversal, each by its strategy,
    /// and drops those that are done. The others stay, in their order, for
    /// the next iteration.
    pub fn detach_poll(&mut self)
        requires
            old(self).inv(),
        ensures
            final(self).inv(),
            final(self).detach_polled(old(self)),
    {
        let ghost was = self.detaching_layers@;
        let ghost mut ready: Seq<bool> = Seq::empty();
        let mut i: usize = 0;
        proof {
            assert(strategies_of(self.detaching_layers@.take(0)) =~= select(
                strategies_of(was.take(0)),
                negate(ready),
            ));
            assert(ids_of(self.detaching_layers@.take(0)) =~= select(
                ids_of(was.take(0)),
                negate(ready),
            ));
        }
        while i < self.detaching_layers.len()
            invariant
                self.inv(),
                old(self).inv(),
                self.attached() == old(self).attached(),
                self.pending() == old(self).pending(),
                was == old(self).detaching(),
                i <= self.detaching_layers.len(),
                ready.len() + (self.detaching_layers.len() - i) == was.len(),
                forall|j: int|
                    i <= j < self.detaching_layers.len() ==> #[trigger] self.detaching_layers@[j]
                        == was[ready.len() + j - i],
                strategies_of(self.detaching_layers@.take(i as int)) == select(
                    strategies_of(was.take(ready.len() as int)),
                    negate(ready),
                ),
                ids_of(self.detaching_layers@.take(i as int)) == select(
                    ids_of(was.take(ready.len() as int)),
                    negate(ready),
                ),
                forall|j: int|
                    0 <= j < ready.len() && (#[trigger] was[j]).0 == LayerSwapType::Synchronous
                        ==> ready[j],
                forall|k: int, j: int|
                    0 <= k < i && 0 <= j < was.len() && (#[trigger] self.detaching_layers@[k]).1.id
                        == (#[trigger] was[j]).1.id ==> self.detaching_layers@[k].1.kind
                        == was[j].1.kind && self.detaching_layers@[k].1.layer.detach_effort()
                        < was[j].1.layer.detach_effort(),
            decreases self.detaching_layers.len() - i,
        {
            let ghost done = ready.len() as int;
            let ghost before = *self;
            let ghost kept = self.detaching_layers@.take(i as int);
            let swap_type = self.detaching_layers[i].0;
            assert(self.detaching_layers@[i as int] == was[done]);
            let ghost id = was[done].1.id;
            let entry = &mut self.detaching_layers[i];
            let completed = swap_type.poll_detach(&mut entry.1.layer);
            proof {
                assert forall|j: int| 0 <= j < was.len() && (#[trigger] was[j]).1.id
                    == id implies j == done by {
                    assert(old(self).held_ids()[j] == was[j].1.id);
                    assert(old(self).held_ids()[done] == was[done].1.id);
                }
                assert forall|k: int| 0 <= k < i implies #[trigger] self.detaching_layers@[k]
                    == before.detaching_layers@[k] by {}
                lemma_select_push(strategies_of(was.take(done)), ready, swap_type, completed);
                lemma_select_push(strategies_of(was.take(done)), negate(ready), swap_type, !completed);
                lemma_select_push(ids_of(was.take(done)), negate(ready), id, !completed);
                assert(strategies_of(was.take(done + 1)) =~= strategies_of(was.take(done)).push(
                    swap_type,
                ));
                assert(ids_of(was.take(done + 1)) =~= ids_of(was.take(done)).push(id));
                assert(self.detaching_layers@.take(i as int) =~= kept);
                assert(ids_of(self.detaching()) =~= ids_of(before.detaching()));
                assert(self.held_ids() =~= before.held_ids());
            }
            let ghost polled_entries = self.detaching_layers@;
            let ghost place = i;
            i = self.let_go(i, completed);
            proof {
                ready = ready.push(completed);
                if completed {
                    assert(self.detaching_layers@.take(i as int) =~= kept);
                } else {
                    assert(strategies_of(self.detaching_layers@.take(place + 1))
                        =~= strategies_of(kept).push(swap_type));
                    assert(ids_of(self.detaching_layers@.take(place + 1)) =~= ids_of(kept).push(
                        id,
                    ));
                }
            }
        }
        proof {
            assert(self.detaching_layers@.take(i as int) =~= self.detaching_layers@);
            assert(was.take(ready.len() as int) =~= was);
            assert(self.detach_polled_by(old(self), ready));
        }
    }

    /// Polls the layers that wait to be attached, each by its strategy, and
    /// attaches those that are done at the end of the traversal order, in the
    /// order in which they were added. The others stay for the next
    /// iteration.
    pub fn attach_poll(&mut self)
        requires
            old(self).inv(),
        ensures
            final(self).inv(),
            final(self).attach_polled(old(self)),
    {
        let ghost was = self.new_layers@;
        let ghost mut ready: Seq<bool> = Seq::empty();
        let mut i: usize = 0;
        proof {
            assert(strategies_of(self.new_layers@.take(0)) =~= select(
                strategies_of(was.take(0)),
                negate(ready),
            ));
            assert(ids_of(self.new_layers@.take(0)) =~= select(
                ids_of(was.take(0)),
                negate(ready),
            ));
            assert(self.order() =~= old(self).order() + select(ids_of(was.take(0)), ready));
            assert forall|j: int| 0 <= j < was.len() implies !self.layers().contains_key(
                (#[trigger] was[j]).1.id,
            ) by {
                assert(self.held_ids()[ids_of(self.detaching()).len() + j] == was[j].1.id);
            }
        }
        while i < self.new_layers.len()
            invariant
                self.inv(),
                old(self).inv(),
                self.next_id() == old(self).next_id(),
                self.detaching() == old(self).detaching(),
                was == old(self).pending(),
                i <= self.new_layers.len(),
                ready.len() + (self.new_layers.len() - i) == was.len(),
                forall|j: int|
                    i <= j < self.new_layers.len() ==> #[trigger] self.new_layers@[j]
                        == was[ready.len() + j - i],
                strategies_of(self.new_layers@.take(i as int)) == select(
                    strategies_of(was.take(ready.len() as int)),
                    negate(ready),
                ),
                ids_of(self.new_layers@.take(i as int)) == select(
                    ids_of(was.take(ready.len() as int)),
                    negate(ready),
                ),
                self.order() == old(self).order() + select(
                    ids_of(was.take(ready.len() as int)),
                    ready,
                ),
                forall|j: int|
                    0 <= j < ready.len() && (#[trigger] was[j]).0 == LayerSwapType::Synchronous
                        ==> ready[j],
                forall|id: LayerId| #[trigger]
                    old(self).layers().contains_key(id) ==> self.layers().contains_key(id)
                        && self.layers()[id] == old(self).layers()[id],
                forall|j: int|
                    0 <= j < ready.len() && self.layers().contains_key((#[trigger] was[j]).1.id)
                        ==> self.layers()[was[j].1.id].kind == was[j].1.kind,
                forall|j: int|
                    ready.len() <= j < was.len() ==> !self.layers().contains_key(
                        (#[trigger] was[j]).1.id,
                    ),
                forall|k: int, j: int|
                    0 <= k < i && 0 <= j < was.len() && (#[trigger] self.new_layers@[k]).1.id == (
                    #[trigger] was[j]).1.id ==> self.new_layers@[k].1.kind == was[j].1.kind
                        && self.new_layers@[k].1.layer.attach_effort()
                        < was[j].1.layer.attach_effort(),
            decreases self.new_layers.len() - i,
        {
            let ghost done = ready.len() as int;
            let ghost before = *self;
            let ghost base = ids_of(self.detaching()).len() as int;
            let ghost kept = self.new_layers@.take(i as int);
            let swap_type = self.new_layers[i].0;
            assert(self.new_layers@[i as int] == was[done]);
            let ghost id = was[done].1.id;
            let entry = &mut self.new_layers[i];
            let completed = swap_type.poll_attach(&mut entry.1.layer);
            proof {
                assert forall|j: int| 0 <= j < was.len() && (#[trigger] was[j]).1.id
                    == id implies j == done by {
                    assert(old(self).held_ids()[base + j] == was[j].1.id);
                    assert(old(self).held_ids()[base + done] == was[done].1.id);
                }
                assert forall|k: int| 0 <= k < i implies #[trigger] self.new_layers@[k]
                    == before.new_layers@[k] by {}
                lemma_select_push(strategies_of(was.take(done)), ready, swap_type, completed);
                lemma_select_push(strategies_of(was.take(done)), negate(ready), swap_type, !completed);
                lemma_select_push(ids_of(was.take(done)), ready, id, completed);
                lemma_select_push(ids_of(was.take(done)), negate(ready), id, !completed);
                assert(strategies_of(was.take(done + 1)) =~= strategies_of(was.take(done)).push(
                    swap_type,
                ));
                assert(ids_of(was.take(done + 1)) =~= ids_of(was.take(done)).push(id));
                assert(self.new_layers@.take(i as int) =~= kept);
                assert(ids_of(self.pending()) =~= ids_of(before.pending()));
                assert(self.held_ids() =~= before.held_ids());
                assert(before.held_ids()[base + i] == id);
            }
            let ghost polled_entries = self.new_layers@;
            let ghost place = i;
            i = self.take_in(i, completed);
            if completed {
                proof {
                    ready = ready.push(true);
                    assert(polled_entries[place as int].1.id == id);
                    assert(polled_entries[place as int].1.kind == was[done].1.kind);
                    assert(ids_of(self.new_layers@) =~= ids_of(polled_entries).remove(i as int));
                    assert(self.new_layers@.take(i as int) =~= kept);
                    assert(self.order() =~= old(self).order() + select(
                        ids_of(was.take(done + 1)),
                        ready,
                    ));
                    assert(self.held_ids() =~= before.held_ids().remove(base + i));
                    assert forall|j: int| ready.len() <= j < was.len() implies !self.layers().contains_key(
                        (#[trigger] was[j]).1.id,
                    ) by {
                        assert(self.new_layers@[i + (j - ready.len())] == was[j]);
                        assert(self.held_ids()[base + i + (j - ready.len())] == was[j].1.id);
                    }
                    assert forall|j: int|
                        0 <= j < ready.len() && self.layers().contains_key(
                            (#[trigger] was[j]).1.id,
                        ) implies self.layers()[was[j].1.id].kind == was[j].1.kind by {
                        if j < done {
                            assert(old(self).held_ids()[base + j] == was[j].1.id);
                            assert(old(self).held_ids()[base + done] == was[done].1.id);
                        }
                    }
                }
            } else {
                proof {
                    ready = ready.push(false);
                    assert(strategies_of(self.new_layers@.take(place + 1)) =~= strategies_of(
                        kept,
                    ).push(swap_type));
                    assert(ids_of(self.new_layers@.take(place + 1)) =~= ids_of(kept).push(id));
                }
            }
        }
        proof {
            assert(self.new_layers@.take(i as int) =~= self.new_layers@);
            assert(was.take(ready.len() as int) =~= was);
            assert(self.attach_polled_by(old(self), ready));
        }
    }
}

impl<L: Layer> LayerManager<L> for PlutoLayerManager<L> {
    open spec fn wf(&self) -> bool {
        self.inv()
    }

    open spec fn finished(&self) -> bool {
        self.order().len() == 0 && self.pending().len() == 0
    }

    /// Adds a layer with the synchronous strategy: it declares its
    /// dependencies, is polled until it is ready, and is attached on top of
    /// the attached layers when this returns. On failure the layer is
    /// dropped, and so is every dependency that was attached for it: the
    /// layers that were attached before are attached as before. A layer that
    /// declares nothing is attached unless no identifier is left.
    fn add_layer(&mut self, layer: L) -> (outcome: Result<(), LayerError>)
        ensures
            final(self).attached().extends(old(self).attached()),
            final(self).detaching() == old(self).detaching(),
            final(self).pending() == old(self).pending(),
            match outcome {
                Ok(_) => final(self).attached().top_is_new(
                    old(self).attached(),
                    final(self).order().last(),
                    layer.layer_kind(),
                ) && final(self).attached().none_of_kind_since(
                    old(self).attached(),
                    layer.layer_kind(),
                    1,
                ),
                Err(_) => final(self).attached().restored(old(self).attached()),
            },
            layer.declares_nothing() ==> match outcome {
                Ok(_) => final(self).attached().attached_on_top(
                    old(self).attached(),
                    old(self).next_id(),
                    layer.layer_kind(),
                ),
                Err(error) => error == LayerError::IdsExhausted && old(self).next_id() == u64::MAX
                    && final(self).attached().unchanged(old(self).attached()),
            },
    {
        match self.add_layer_with(layer, LayerSwapType::Synchronous) {
            Ok(_) => Ok(()),
            Err(error) => Err(error),
        }
    }

    /// Runs one iteration. In this order: the attached layers are traversed;
    /// every layer is asked whether it wants to be detached, and those that
    /// do are detached; the layers that are being detached are polled; the
    /// layers that wait to be attached are polled.
    fn run(&mut self) -> (finished: bool)
        ensures
            final(self).next_id() == old(self).next_id(),
            exists|entered: Self, cleared: Self, swept: Self| #[trigger]
                Self::iteration(old(self), &entered, &cleared, &swept, final(self)),
    {
        self.traverse();
        let ghost entered = *self;
        let requests = self.layers_to_detach();
        proof {
            self.attached().lemma_wf();
            lemma_detach_requests(self.order(), self.layers());
            assert forall|k: int| 0 <= k < requests.len() implies self.layers().contains_key(
                (#[trigger] requests@[k]).0,
            ) by {
                assert(self.order().contains(requests@[k].0));
            }
        }
        self.detach_layers(requests);
        let ghost cleared = *self;
        self.detach_poll();
        let ghost swept = *self;
        self.attach_poll();
        proof {
            assert(Self::iteration(old(self), &entered, &cleared, &swept, self));
        }
        self.dependencies.is_empty() && self.new_layers.len() == 0
    }
}

} // verus!
