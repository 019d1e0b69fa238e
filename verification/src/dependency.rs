//! The attached layers, and the dependencies that a layer declares on them
//! while it is being attached.

use crate::layer::{Layer, LayerError, LayerKind, LayerSwapType, MAX_ATTACH_DEPTH};
use crate::traversal_chain::{LayerId, TraversalChain, TraversalChainNode};
use std::collections::hash_map::Entry;
use std::collections::HashMap;
use vstd::prelude::*;

verus! {

broadcast use vstd::std_specs::hash::group_hash_axioms;

/// An attached layer with what the manager knows of it.
#[derive(Debug)]
pub struct LayerInfo<L> {
    /// The identifier under which the layer is attached.
    pub id: LayerId,
    /// The kind that the layer had when it was attached.
    pub kind: LayerKind,
    /// The layer itself.
    pub layer: L,
}

/// The first layer of `kind` in the traversal order `order`.
pub open spec fn first_with_kind<L>(
    order: Seq<LayerId>,
    layers: Map<LayerId, LayerInfo<L>>,
    kind: LayerKind,
) -> Option<LayerId>
    decreases order.len(),
{
    if order.len() == 0 {
        None
    } else if layers[order[0]].kind == kind {
        Some(order[0])
    } else {
        first_with_kind(order.drop_first(), layers, kind)
    }
}

/// The layer that `first_with_kind` finds is the first of its kind, and where
/// it finds none there is none.
pub proof fn lemma_first_with_kind<L>(
    order: Seq<LayerId>,
    layers: Map<LayerId, LayerInfo<L>>,
    kind: LayerKind,
)
    ensures
        match first_with_kind(order, layers, kind) {
            Some(id) => exists|i: int|
                0 <= i < order.len() && #[trigger] order[i] == id && layers[id].kind == kind
                    && forall|j: int| 0 <= j < i ==> layers[#[trigger] order[j]].kind != kind,
            None => forall|j: int| 0 <= j < order.len() ==> layers[#[trigger] order[j]].kind != kind,
        },
    decreases order.len(),
{
    if order.len() > 0 && layers[order[0]].kind != kind {
        let rest = order.drop_first();
        lemma_first_with_kind(rest, layers, kind);
        match first_with_kind(rest, layers, kind) {
            Some(id) => {
                let i = choose|i: int|
                    0 <= i < rest.len() && #[trigger] rest[i] == id && layers[id].kind == kind
                        && forall|j: int| 0 <= j < i ==> layers[#[trigger] rest[j]].kind != kind;
                assert(order[i + 1] == id);
                assert forall|j: int| 0 <= j < i + 1 implies layers[#[trigger] order[j]].kind
                    != kind by {
                    if j > 0 {
                        assert(rest[j - 1] == order[j]);
                    }
                }
            },
            None => {
                assert forall|j: int| 0 <= j < order.len() implies layers[#[trigger] order[j]].kind
                    != kind by {
                    if j > 0 {
                        assert(rest[j - 1] == order[j]);
                    }
                }
            },
        }
    } else if order.len() > 0 {
        assert(order[0] == order[0]);
    }
}

/// A layer of `kind` that stands in `order` before any other of that kind is
/// the one that `first_with_kind` finds.
pub proof fn lemma_first_with_kind_at<L>(
    order: Seq<LayerId>,
    layers: Map<LayerId, LayerInfo<L>>,
    kind: LayerKind,
    i: int,
)
    requires
        0 <= i < order.len(),
        layers[order[i]].kind == kind,
        forall|j: int| 0 <= j < i ==> layers[#[trigger] order[j]].kind != kind,
    ensures
        first_with_kind(order, layers, kind) == Some(order[i]),
    decreases order.len(),
{
    if i > 0 {
        let rest = order.drop_first();
        assert(layers[order[0]].kind != kind);
        assert forall|j: int| 0 <= j < i - 1 implies layers[#[trigger] rest[j]].kind != kind by {
            assert(rest[j] == order[j + 1]);
        }
        assert(rest[i - 1] == order[i]);
        lemma_first_with_kind_at(rest, layers, kind, i - 1);
    }
}

/// Which layer is the first of a kind depends on the kinds of the layers
/// alone.
pub proof fn lemma_first_with_kind_by_kinds<L>(
    order: Seq<LayerId>,
    a: Map<LayerId, LayerInfo<L>>,
    b: Map<LayerId, LayerInfo<L>>,
    kind: LayerKind,
)
    requires
        forall|i: int| 0 <= i < order.len() ==> a[#[trigger] order[i]].kind == b[order[i]].kind,
    ensures
        first_with_kind(order, a, kind) == first_with_kind(order, b, kind),
    decreases order.len(),
{
    if order.len() > 0 {
        let rest = order.drop_first();
        assert(a[order[0]].kind == b[order[0]].kind);
        assert forall|i: int| 0 <= i < rest.len() implies a[#[trigger] rest[i]].kind
            == b[rest[i]].kind by {
            assert(rest[i] == order[i + 1]);
        }
        lemma_first_with_kind_by_kinds(rest, a, b, kind);
    }
}

/// What a layer manager offers to the layers that declare dependencies:
/// it finds attached layers by their kind, and attaches a layer at once.
pub trait LayerDependencyManager<L> {
    /// The invariant of the manager.
    spec fn ready(&self) -> bool;

    /// The first layer of `kind` in traversal order, if one is attached.
    fn find_by_type(&self, kind: LayerKind) -> (found: Option<&L>)
        requires
            self.ready(),
    ;

    /// Mutable access to the first layer of `kind` in traversal order, if one
    /// is attached.
    fn find_by_type_mut(&mut self, kind: LayerKind) -> (found: Option<&mut L>)
        requires
            old(self).ready(),
        ensures
            final(self).ready(),
    ;

    /// Attaches `layer` synchronously, on top of the attached layers, and
    /// returns its identifier.
    fn add_layer(&mut self, layer: L) -> (outcome: Result<LayerId, LayerError>)
        requires
            old(self).ready(),
        ensures
            final(self).ready(),
    ;
}

/// The layers that are attached, in their traversal order, and the means by
/// which a layer that is being attached declares what it depends on.
///
/// A layer gets this in `Layer::on_attach`. It can look other layers up by
/// their kind, and have one created that is missing. A layer that is created
/// so is attached at once, below the layer that asked for it.
pub struct LayerDependencyDeclaration<L> {
    traversal_chain: TraversalChain,
    layers: HashMap<LayerId, LayerInfo<L>>,
    id_counter: LayerId,
    attaching: Vec<LayerKind>,
    failure: Option<LayerError>,
}

impl<L> LayerDependencyDeclaration<L> {
    /// The identifiers of the attached layers in traversal order.
    pub closed spec fn order(&self) -> Seq<LayerId> {
        self.traversal_chain@
    }

    /// The attached layers by identifier.
    pub closed spec fn layers(&self) -> Map<LayerId, LayerInfo<L>> {
        self.layers@
    }

    /// The identifier that the next attached layer gets.
    pub closed spec fn next_id(&self) -> LayerId {
        self.id_counter
    }

    /// The kinds of the layers whose `on_attach` is running, the outermost
    /// first.
    pub closed spec fn attaching(&self) -> Seq<LayerKind> {
        self.attaching@
    }

    /// The first error with which a declaration has failed since the layer
    /// that is being attached began to declare its dependencies.
    pub closed spec fn failure(&self) -> Option<LayerError> {
        self.failure
    }

    /// The traversal order.
    pub closed spec fn chain(&self) -> &TraversalChain {
        &self.traversal_chain
    }

    /// The invariant: the traversal order holds exactly the attached layers,
    /// each once and under its own identifier, and every identifier in use
    /// has been given out.
    pub closed spec fn wf(&self) -> bool {
        &&& self.traversal_chain.wf()
        &&& forall|id: LayerId| #[trigger]
            self.layers@.contains_key(id) <==> self.traversal_chain@.contains(id)
        &&& forall|id: LayerId| #[trigger]
            self.layers@.contains_key(id) ==> self.layers@[id].id == id && id < self.id_counter
        &&& self.attaching@.len() <= MAX_ATTACH_DEPTH
    }

    /// The first layer of `kind` in traversal order.
    pub open spec fn first_of_kind(&self, kind: LayerKind) -> Option<LayerId> {
        first_with_kind(self.order(), self.layers(), kind)
    }

    /// Nothing that was attached in `before` has left or changed its place or
    /// kind, no identifier of `before` has been given to another layer, and
    /// a declaration that had failed in `before` has not been forgotten.
    pub open spec fn extends(&self, before: &Self) -> bool {
        &&& before.order().is_prefix_of(self.order())
        &&& before.next_id() <= self.next_id()
        &&& before.attaching() == self.attaching()
        &&& before.failure() is Some ==> self.failure() == before.failure()
        &&& forall|id: LayerId| #[trigger]
            before.layers().contains_key(id) ==> self.layers().contains_key(id)
                && self.layers()[id].kind == before.layers()[id].kind
        &&& forall|i: int|
            before.order().len() <= i < self.order().len() ==> before.next_id()
                <= #[trigger] self.order()[i] && !before.attaching().contains(
                self.layers()[self.order()[i]].kind,
            )
    }

    /// The same layers are attached as in `before`, in the same states and
    /// the same order, and the same identifiers have been given out.
    pub open spec fn same_attached(&self, before: &Self) -> bool {
        &&& self.order() == before.order()
        &&& self.layers() == before.layers()
        &&& self.next_id() == before.next_id()
        &&& self.attaching() == before.attaching()
    }

    /// Nothing differs from `before`.
    pub open spec fn unchanged(&self, before: &Self) -> bool {
        &&& self.same_attached(before)
        &&& self.failure() == before.failure()
    }

    /// The layers that are attached are those of `before`, under the same
    /// identifiers and kinds and in the same order: what was attached since
    /// has been taken out again. Identifiers may have been given out since,
    /// and the states of the layers are what was made of them through
    /// mutable references.
    pub open spec fn restored(&self, before: &Self) -> bool {
        &&& self.order() == before.order()
        &&& self.layers().dom() == before.layers().dom()
        &&& forall|id: LayerId| #[trigger]
            before.layers().contains_key(id) ==> self.layers()[id].id == before.layers()[id].id
                && self.layers()[id].kind == before.layers()[id].kind
        &&& before.next_id() <= self.next_id()
        &&& self.attaching() == before.attaching()
    }

    /// Nothing differs from `before` but that a declaration has failed with
    /// `error`, which is kept in mind unless an earlier failure is.
    pub open spec fn failed(&self, before: &Self, error: LayerError) -> bool {
        &&& self.order() == before.order()
        &&& self.layers() == before.layers()
        &&& self.next_id() == before.next_id()
        &&& self.attaching() == before.attaching()
        &&& self.failure() == match before.failure() {
            Some(earlier) => Some(earlier),
            None => Some(error),
        }
    }

    /// The same layers are attached as in `before`, in the same order; only
    /// the state of the layer `id` may differ, which is `layer` now.
    pub open spec fn changed_at(&self, before: &Self, id: LayerId, layer: L) -> bool {
        &&& self.order() == before.order()
        &&& self.layers() == before.layers().insert(
            id,
            LayerInfo { id, kind: before.layers()[id].kind, layer },
        )
        &&& self.next_id() == before.next_id()
        &&& self.attaching() == before.attaching()
        &&& self.failure() == before.failure()
    }

    /// `self` is `before` with one layer more: the layer `id`, which is of
    /// `kind`, is attached under the next identifier on top of the others.
    pub open spec fn attached_on_top(&self, before: &Self, id: LayerId, kind: LayerKind) -> bool {
        &&& id == before.next_id()
        &&& self.next_id() == id + 1
        &&& self.order() == before.order().push(id)
        &&& self.layers().contains_key(id)
        &&& self.layers().remove(id) == before.layers()
        &&& self.layers()[id].id == id
        &&& self.layers()[id].kind == kind
        &&& self.attaching() == before.attaching()
    }

    /// The topmost layer is the layer `id`, which is of `kind` and was not
    /// attached in `before`.
    pub open spec fn top_is_new(&self, before: &Self, id: LayerId, kind: LayerKind) -> bool {
        &&& self.order().len() > before.order().len()
        &&& self.order().last() == id
        &&& self.layers().contains_key(id)
        &&& self.layers()[id].id == id
        &&& self.layers()[id].kind == kind
        &&& before.next_id() <= id
        &&& self.next_id() == id + 1
    }

    /// No layer of `kind` is among the layers that were attached after
    /// `before`, the topmost `above` of them left aside.
    pub open spec fn none_of_kind_since(&self, before: &Self, kind: LayerKind, above: int) -> bool {
        forall|i: int|
            before.order().len() <= i < self.order().len() - above ==> self.layers()[(
            #[trigger] self.order()[i])].kind != kind
    }

    /// `self` and `outcome` are what comes of adding a layer of `kind` that
    /// declares nothing to `before`: the layer is attached on top under the
    /// next identifier, and where no identifier is left, the layer is dropped
    /// and nothing changes.
    pub open spec fn plainly_attached(
        &self,
        before: &Self,
        kind: LayerKind,
        outcome: Result<LayerId, LayerError>,
    ) -> bool {
        match outcome {
            Ok(id) => self.attached_on_top(before, id, kind),
            Err(error) => error == LayerError::IdsExhausted && before.next_id() == u64::MAX
                && self.same_attached(before),
        }
    }

    /// Why a layer of `kind` cannot be attached as things stand, if it
    /// cannot: because dependencies are nested too deep, or because a layer
    /// of that kind is being attached.
    pub open spec fn refusal(&self, kind: LayerKind) -> Option<LayerError> {
        if self.attaching().len() >= MAX_ATTACH_DEPTH {
            Some(LayerError::DependencyTooDeep)
        } else if self.attaching().contains(kind) {
            Some(LayerError::CyclicDependency(kind))
        } else {
            None
        }
    }

    /// What the invariant says of the order and the attached layers.
    pub proof fn lemma_wf(&self)
        requires
            self.wf(),
        ensures
            self.chain().wf(),
            self.chain()@ == self.order(),
            self.order().no_duplicates(),
            self.attaching().len() <= MAX_ATTACH_DEPTH,
            forall|id: LayerId| #[trigger]
                self.layers().contains_key(id) <==> self.order().contains(id),
            forall|id: LayerId| #[trigger]
                self.layers().contains_key(id) ==> self.layers()[id].id == id && id
                    < self.next_id(),
            forall|i: int|
                0 <= i < self.order().len() ==> self.layers().contains_key(
                    #[trigger] self.order()[i],
                ),
    {
        self.traversal_chain.lemma_order_facts();
        assert forall|i: int| 0 <= i < self.order().len() implies self.layers().contains_key(
            #[trigger] self.order()[i],
        ) by {
            assert(self.order().contains(self.order()[i]));
        }
    }

    /// A dependency is created once: when a layer of `kind` is attached in
    /// `before`, as it is after `or_create` has succeeded, then whatever is
    /// attached or declared afterwards, a lookup of `kind` finds that same
    /// layer, and so a later `or_create` of `kind` returns it and attaches
    /// nothing.
    pub proof fn lemma_created_once(&self, before: &Self, kind: LayerKind)
        requires
            before.wf(),
            self.wf(),
            self.extends(before),
            before.first_of_kind(kind).is_some(),
        ensures
            self.first_of_kind(kind) == before.first_of_kind(kind),
    {
        before.lemma_wf();
        self.lemma_wf();
        lemma_first_with_kind(before.order(), before.layers(), kind);
        let id = before.first_of_kind(kind).unwrap();
        let i = choose|i: int|
            0 <= i < before.order().len() && #[trigger] before.order()[i] == id
                && before.layers()[id].kind == kind && forall|j: int|
                0 <= j < i ==> before.layers()[#[trigger] before.order()[j]].kind != kind;
        assert(self.order()[i] == before.order()[i]);
        assert(before.layers().contains_key(id));
        assert forall|j: int| 0 <= j < i implies self.layers()[#[trigger] self.order()[j]].kind
            != kind by {
            assert(self.order()[j] == before.order()[j]);
            assert(before.layers().contains_key(before.order()[j]));
        }
        lemma_first_with_kind_at(self.order(), self.layers(), kind, i);
    }

    /// A declaration over no layer at all. The first layer gets the
    /// identifier zero.
    pub fn new() -> (declaration: Self)
        ensures
            declaration.wf(),
            declaration.order() == Seq::<LayerId>::empty(),
            declaration.layers() == Map::<LayerId, LayerInfo<L>>::empty(),
            declaration.next_id() == 0,
            declaration.attaching() == Seq::<LayerKind>::empty(),
            declaration.failure() is None,
    {
        Self::with_first_id(0)
    }

    /// A declaration over no layer at all, whose first layer gets the
    /// identifier `first_id`.
    pub fn with_first_id(first_id: LayerId) -> (declaration: Self)
        ensures
            declaration.wf(),
            declaration.order() == Seq::<LayerId>::empty(),
            declaration.layers() == Map::<LayerId, LayerInfo<L>>::empty(),
            declaration.next_id() == first_id,
            declaration.attaching() == Seq::<LayerKind>::empty(),
            declaration.failure() is None,
    {
        Self {
            traversal_chain: TraversalChain::new(),
            layers: HashMap::new(),
            id_counter: first_id,
            attaching: Vec::new(),
            failure: None,
        }
    }

    /// The traversal order of the attached layers.
    pub fn traversal_chain(&self) -> (chain: &TraversalChain)
        ensures
            chain == self.chain(),
    {
        &self.traversal_chain
    }

    /// How many layers are attached.
    pub fn len(&self) -> (n: usize)
        requires
            self.wf(),
        ensures
            n == self.order().len(),
            n == self.layers().len(),
    {
        proof {
            self.lemma_wf();
            self.order().unique_seq_to_set();
            assert(self.order().to_set() =~= self.layers().dom());
        }
        self.layers.len()
    }

    /// Whether no layer is attached.
    pub fn is_empty(&self) -> (empty: bool)
        requires
            self.wf(),
        ensures
            empty == (self.order().len() == 0),
    {
        self.len() == 0
    }

    /// The attached layer with the identifier `id`, if there is one.
    pub fn get(&self, id: LayerId) -> (found: Option<&LayerInfo<L>>)
        ensures
            found == match self.layers().get(id) {
                Some(info) => Some(&info),
                None => None,
            },
    {
        self.layers.get(&id)
    }

    /// The identifier of the first layer of `kind` in traversal order.
    pub fn find_id_by_type(&self, kind: LayerKind) -> (found: Option<LayerId>)
        requires
            self.wf(),
        ensures
            found == self.first_of_kind(kind),
            found matches Some(id) ==> self.layers().contains_key(id) && self.layers()[id].kind
                == kind,
    {
        let mut walker = self.traversal_chain.iter();
        loop
            invariant
                self.wf(),
                walker.wf(),
                walker.chain() == &self.traversal_chain,
                first_with_kind(walker.remaining(), self.layers@, kind) == self.first_of_kind(
                    kind,
                ),
                forall|i: int|
                    0 <= i < walker.remaining().len() ==> self.traversal_chain@.contains(
                        #[trigger] walker.remaining()[i],
                    ),
            decreases walker.remaining().len(),
        {
            let ghost before = walker.remaining();
            match walker.next() {
                None => {
                    return None;
                },
                Some(id) => {
                    assert(self.traversal_chain@.contains(before[0]));
                    let info = self.layers.get(&id).unwrap();
                    if info.kind == kind {
                        return Some(id);
                    }
                    assert forall|i: int| 0 <= i < walker.remaining().len() implies
                        self.traversal_chain@.contains(#[trigger] walker.remaining()[i]) by {
                        assert(walker.remaining()[i] == before[i + 1]);
                    }
                },
            }
        }
    }

    /// The first layer of `kind` in traversal order, if one is attached.
    fn lookup(&self, kind: LayerKind) -> (found: Option<&L>)
        requires
            self.wf(),
        ensures
            found == match self.first_of_kind(kind) {
                Some(id) => Some(&self.layers()[id].layer),
                None => None,
            },
    {
        match self.find_id_by_type(kind) {
            Some(id) => Some(&self.layers.get(&id).unwrap().layer),
            None => None,
        }
    }

    /// Mutable access to the attached layer with the identifier `id`, if
    /// there is one. Nothing but the state of that layer can change.
    pub fn get_mut(&mut self, id: LayerId) -> (found: Option<&mut L>)
        requires
            old(self).wf(),
        ensures
            final(self).wf(),
            final(self).extends(old(self)),
            match old(self).layers().get(id) {
                Some(info) => found.is_some() && *found.unwrap() == info.layer && final(
                    self).changed_at(old(self), id, *final(found.unwrap())),
                None => found.is_none() && final(self).unchanged(old(self)),
            },
    {
        match self.layers.entry(id) {
            Entry::Occupied(entry) => {
                let info = entry.into_mut();
                Some(&mut info.layer)
            },
            Entry::Vacant(_) => {
                assert(old(self).layers@.remove(id) =~= old(self).layers@);
                None
            },
        }
    }

    /// Mutable access to the first layer of `kind` in traversal order, if one
    /// is attached. Nothing but the state of that layer can change.
    fn lookup_mut(&mut self, kind: LayerKind) -> (found: Option<&mut L>)
        requires
            old(self).wf(),
        ensures
            final(self).wf(),
            final(self).extends(old(self)),
            match old(self).first_of_kind(kind) {
                Some(id) => found.is_some() && *found.unwrap() == old(self).layers()[id].layer
                    && final(self).changed_at(old(self), id, *final(found.unwrap())),
                None => found.is_none() && final(self).unchanged(old(self)),
            },
    {
        match self.find_id_by_type(kind) {
            None => None,
            Some(id) => self.get_mut(id),
        }
    }

    /// Keeps in mind that a declaration has failed with `error`, unless an
    /// earlier failure is kept in mind already.
    fn fail(&mut self, error: LayerError)
        requires
            old(self).wf(),
        ensures
            final(self).wf(),
            final(self).extends(old(self)),
            final(self).failed(old(self), error),
    {
        if self.failure.is_none() {
            self.failure = Some(error);
        }
    }

    /// Declares a dependency on a layer of `kind` and returns a reference to
    /// the first such layer.
    ///
    /// Fails if none is attached. The failure is kept in mind: the layer that
    /// is declaring its dependencies is not attached then, whatever it makes
    /// of the error.
    pub fn required(&mut self, kind: LayerKind) -> (outcome: Result<&L, LayerError>)
        requires
            old(self).wf(),
        ensures
            final(self).wf(),
            final(self).extends(old(self)),
            match old(self).first_of_kind(kind) {
                Some(id) => outcome == Ok::<&L, LayerError>(&old(self).layers()[id].layer)
                    && final(self).unchanged(old(self)),
                None => outcome == Err::<&L, LayerError>(LayerError::MissingDependency(kind))
                    && final(self).failed(old(self), LayerError::MissingDependency(kind)),
            },
    {
        match self.find_id_by_type(kind) {
            Some(id) => Ok(&self.layers.get(&id).unwrap().layer),
            None => {
                self.fail(LayerError::MissingDependency(kind));
                Err(LayerError::MissingDependency(kind))
            },
        }
    }

    /// Declares a dependency on a layer of `kind` and returns a reference to
    /// the first such layer, or `None` if none is attached.
    pub fn optional(&self, kind: LayerKind) -> (found: Option<&L>)
        requires
            self.wf(),
        ensures
            found == match self.first_of_kind(kind) {
                Some(id) => Some(&self.layers()[id].layer),
                None => None,
            },
    {
        self.lookup(kind)
    }

    /// Declares a dependency on a layer of `kind` and returns a mutable
    /// reference to the first such layer.
    ///
    /// Fails if none is attached, and keeps the failure in mind, as
    /// [`Self::required`] does.
    pub fn required_mut(&mut self, kind: LayerKind) -> (outcome: Result<&mut L, LayerError>)
        requires
            old(self).wf(),
        ensures
            final(self).wf(),
            final(self).extends(old(self)),
            match old(self).first_of_kind(kind) {
                Some(id) => outcome.is_ok() && *outcome.unwrap() == old(self).layers()[id].layer
                    && final(self).changed_at(old(self), id, *final(outcome.unwrap())),
                None => outcome == Err::<&mut L, LayerError>(LayerError::MissingDependency(kind))
                    && final(self).failed(old(self), LayerError::MissingDependency(kind)),
            },
    {
        match self.find_id_by_type(kind) {
            Some(id) => {
                match self.get_mut(id) {
                    Some(layer) => Ok(layer),
                    None => Err(LayerError::MissingDependency(kind)),
                }
            },
            None => {
                self.fail(LayerError::MissingDependency(kind));
                Err(LayerError::MissingDependency(kind))
            },
        }
    }

    /// Declares a dependency on a layer of `kind` and returns a mutable
    /// reference to the first such layer, or `None` if none is attached.
    pub fn optional_mut(&mut self, kind: LayerKind) -> (found: Option<&mut L>)
        requires
            old(self).wf(),
        ensures
            final(self).wf(),
            final(self).extends(old(self)),
            match old(self).first_of_kind(kind) {
                Some(id) => found.is_some() && *found.unwrap() == old(self).layers()[id].layer
                    && final(self).changed_at(old(self), id, *final(found.unwrap())),
                None => found.is_none() && final(self).unchanged(old(self)),
            },
    {
        self.lookup_mut(kind)
    }

    /// Gives out the next identifier. Identifiers grow and are never given
    /// out twice; when none is left, this fails and changes nothing.
    pub fn create_id(&mut self) -> (outcome: Result<LayerId, LayerError>)
        requires
            old(self).wf(),
        ensures
            final(self).wf(),
            final(self).order() == old(self).order(),
            final(self).layers() == old(self).layers(),
            final(self).attaching() == old(self).attaching(),
            final(self).failure() == old(self).failure(),
            match outcome {
                Ok(id) => id == old(self).next_id() && final(self).next_id() == id + 1,
                Err(error) => error == LayerError::IdsExhausted && old(self).next_id() == u64::MAX
                    && final(self).next_id() == old(self).next_id(),
            },
    {
        let id = self.id_counter;
        if id == u64::MAX {
            return Err(LayerError::IdsExhausted);
        }
        self.id_counter = id + 1;
        Ok(id)
    }

    /// Attaches `info.layer` under the identifier `info.id`, which has been
    /// given out and is not in use, at the end of the traversal order.
    pub(crate) fn insert_layer(&mut self, info: LayerInfo<L>)
        requires
            old(self).wf(),
            !old(self).layers().contains_key(info.id),
            info.id < old(self).next_id(),
        ensures
            final(self).wf(),
            final(self).order() == old(self).order().push(info.id),
            final(self).layers() == old(self).layers().insert(info.id, info),
            final(self).next_id() == old(self).next_id(),
            final(self).attaching() == old(self).attaching(),
            final(self).failure() == old(self).failure(),
    {
        let id = info.id;
        self.layers.insert(id, info);
        self.traversal_chain.insert_last(id);
        proof {
            let now = self.traversal_chain@;
            let was = old(self).traversal_chain@;
            assert forall|x: LayerId| #[trigger]
                self.layers@.contains_key(x) <==> now.contains(x) by {
                if now.contains(x) {
                    let i = choose|i: int| 0 <= i < now.len() && now[i] == x;
                    if i < was.len() {
                        assert(was[i] == x);
                        assert(was.contains(x));
                    }
                }
                if x == id {
                    assert(now[was.len() as int] == id);
                } else if was.contains(x) {
                    let i = choose|i: int| 0 <= i < was.len() && was[i] == x;
                    assert(now[i] == x);
                }
            }
        }
    }

    /// Detaches the layer with the identifier `id`, if there is one, and
    /// hands it out. The other layers keep their order.
    pub(crate) fn remove(&mut self, id: LayerId) -> (removed: Option<LayerInfo<L>>)
        requires
            old(self).wf(),
        ensures
            final(self).wf(),
            final(self).next_id() == old(self).next_id(),
            final(self).attaching() == old(self).attaching(),
            final(self).failure() == old(self).failure(),
            match old(self).layers().get(id) {
                Some(info) => removed == Some(info) && final(self).order() == old(
                    self).order().remove(old(self).order().index_of(id)) && final(self).layers()
                    == old(self).layers().remove(id),
                None => removed.is_none() && final(self).unchanged(old(self)),
            },
    {
        proof {
            self.lemma_wf();
        }
        let removed = self.layers.remove(&id);
        if removed.is_some() {
            self.traversal_chain.remove(id);
            proof {
                let was = old(self).traversal_chain@;
                let now = self.traversal_chain@;
                let p = was.index_of(id);
                assert(was[p] == id);
                assert forall|x: LayerId| #[trigger]
                    self.layers@.contains_key(x) <==> now.contains(x) by {
                    if now.contains(x) {
                        let i = choose|i: int| 0 <= i < now.len() && now[i] == x;
                        if i < p {
                            assert(was[i] == x);
                        } else {
                            assert(was[i + 1] == x);
                        }
                        assert(was.contains(x));
                    }
                    if x != id && was.contains(x) {
                        let i = choose|i: int| 0 <= i < was.len() && was[i] == x;
                        if i < p {
                            assert(now[i] == x);
                        } else {
                            assert(now[i - 1] == x);
                        }
                    }
                }
            }
        } else {
            assert(self.layers@ =~= old(self).layers@);
        }
        removed
    }

    /// Takes out and drops the layers that stand above the lowest `mark`
    /// layers, the topmost first. The layers below stay as they are.
    pub(crate) fn roll_back(&mut self, mark: usize)
        requires
            old(self).wf(),
            mark <= old(self).order().len(),
        ensures
            final(self).wf(),
            final(self).order() == old(self).order().take(mark as int),
            forall|id: LayerId| #[trigger]
                final(self).layers().contains_key(id) ==> old(self).layers().contains_key(id)
                    && final(self).layers()[id] == old(self).layers()[id],
            final(self).next_id() == old(self).next_id(),
            final(self).attaching() == old(self).attaching(),
            final(self).failure() == old(self).failure(),
    {
        proof {
            assert(self.order().take(self.order().len() as int) =~= self.order());
        }
        while self.len() > mark
            invariant
                self.wf(),
                mark <= self.order().len() <= old(self).order().len(),
                self.order() == old(self).order().take(self.order().len() as int),
                forall|id: LayerId| #[trigger]
                    self.layers().contains_key(id) ==> old(self).layers().contains_key(id)
                        && self.layers()[id] == old(self).layers()[id],
                self.next_id() == old(self).next_id(),
                self.attaching() == old(self).attaching(),
                self.failure() == old(self).failure(),
            decreases self.order().len(),
        {
            proof {
                self.lemma_wf();
                self.traversal_chain.lemma_order_facts();
                let top = self.order().len() - 1;
                assert(self.order().contains(self.order()[top]));
                assert(self.order().remove(top) =~= old(self).order().take(top));
            }
            match self.traversal_chain.get_prev(&TraversalChainNode::End) {
                TraversalChainNode::Link(id) => {
                    self.remove(id);
                },
                _ => {},
            }
        }
    }

    /// Attaches `layer` under the next identifier and the given kind, at the
    /// end of the traversal order. When no identifier is left, this fails and
    /// changes nothing.
    pub(crate) fn register(&mut self, layer: L, kind: LayerKind) -> (outcome: Result<
        LayerId,
        LayerError,
    >)
        requires
            old(self).wf(),
            !old(self).attaching().contains(kind),
        ensures
            final(self).wf(),
            final(self).extends(old(self)),
            final(self).failure() == old(self).failure(),
            match outcome {
                Ok(id) => final(self).attached_on_top(old(self), id, kind) && final(
                    self).layers()[id].layer == layer,
                Err(error) => error == LayerError::IdsExhausted && old(self).next_id() == u64::MAX
                    && final(self).unchanged(old(self)),
            },
    {
        proof {
            self.lemma_wf();
        }
        match self.create_id() {
            Err(error) => Err(error),
            Ok(id) => {
                self.insert_layer(LayerInfo { id, kind, layer });
                proof {
                    assert(self.layers().remove(id) =~= old(self).layers());
                }
                Ok(id)
            },
        }
    }
}

impl<L: Layer> LayerDependencyDeclaration<L> {
    /// What comes of the declarations of a layer whose `on_attach` has
    /// returned `declared`, where `failure` is the first error with which one
    /// of its declarations has failed: a failed declaration keeps the layer
    /// from being attached, whatever `on_attach` has made of it.
    pub fn verdict(declared: Result<(), LayerError>, failure: Option<LayerError>) -> (outcome:
        Result<(), LayerError>)
        ensures
            outcome == match failure {
                Some(error) => Err::<(), LayerError>(error),
                None => declared,
            },
    {
        match failure {
            Some(error) => Err(error),
            None => declared,
        }
    }

    /// Lets `layer` declare its dependencies: runs its `on_attach`, unless
    /// dependencies are nested too deep or a layer of the same kind is being
    /// attached already. It fails if `on_attach` does or if one of the
    /// declarations has failed.
    ///
    /// Layers that were attached before stay attached. `on_attach` may have
    /// attached dependencies, none of them of the kind of `layer`.
    pub(crate) fn declare(&mut self, layer: &mut L) -> (outcome: Result<(), LayerError>)
        requires
            old(self).wf(),
        ensures
            final(self).wf(),
            final(self).extends(old(self)),
            final(self).failure() == old(self).failure(),
            final(self).none_of_kind_since(old(self), old(layer).layer_kind(), 0),
            old(self).refusal(old(layer).layer_kind()) matches Some(error) ==> outcome == Err::<
                (),
                LayerError,
            >(error) && final(self).unchanged(old(self)),
            old(self).refusal(old(layer).layer_kind()) is None && old(layer).declares_nothing()
                ==> outcome is Ok && final(self).unchanged(old(self)),
    {
        let kind = layer.kind();
        if self.attaching.len() >= MAX_ATTACH_DEPTH {
            return Err(LayerError::DependencyTooDeep);
        }
        if Self::holds(&self.attaching, kind) {
            return Err(LayerError::CyclicDependency(kind));
        }
        self.attaching.push(kind);
        let outer = self.failure.take();
        let ghost pushed = *self;
        let declared = layer.on_attach(self);
        self.attaching.pop();
        let failure = self.failure.take();
        self.failure = outer;
        let outcome = Self::verdict(declared, failure);
        proof {
            assert(self.attaching@ =~= old(self).attaching@);
            assert(pushed.attaching()[old(self).attaching().len() as int] == kind);
            assert(pushed.layers() == old(self).layers());
            assert forall|id: LayerId| #[trigger]
                old(self).layers().contains_key(id) implies self.layers().contains_key(id)
                && self.layers()[id].kind == old(self).layers()[id].kind by {
                assert(pushed.layers().contains_key(id));
            }
            assert forall|i: int| old(self).order().len() <= i < self.order().len() implies {
                let k = self.layers()[#[trigger] self.order()[i]].kind;
                k != kind && !old(self).attaching().contains(k)
            } by {
                let k = self.layers()[self.order()[i]].kind;
                assert(!pushed.attaching().contains(k));
                if old(self).attaching().contains(k) {
                    let j = choose|j: int|
                        0 <= j < old(self).attaching().len() && old(self).attaching()[j] == k;
                    assert(pushed.attaching()[j] == k);
                }
            }
        }
        outcome
    }

    /// Whether `kind` occurs in `kinds`.
    fn holds(kinds: &Vec<LayerKind>, kind: LayerKind) -> (found: bool)
        ensures
            found == kinds@.contains(kind),
    {
        let mut i: usize = 0;
        while i < kinds.len()
            invariant
                i <= kinds.len(),
                forall|j: int| 0 <= j < i ==> kinds@[j] != kind,
            decreases kinds.len() - i,
        {
            if kinds[i] == kind {
                return true;
            }
            i = i + 1;
        }
        false
    }

    /// What follows when `layer`, which is of `kind`, has declared its
    /// dependencies with the outcome `declared`. After a failure the layer is
    /// dropped, with that error, and nothing changes. After a success the
    /// layer is polled until it is ready and is attached under the next
    /// identifier at the end of the traversal order; where no identifier is
    /// left, the layer is dropped and nothing changes.
    fn settle(&mut self, layer: L, kind: LayerKind, declared: Result<(), LayerError>) -> (outcome:
        Result<LayerId, LayerError>)
        requires
            old(self).wf(),
            declared.is_ok() ==> !old(self).attaching().contains(kind),
        ensures
            final(self).wf(),
            final(self).extends(old(self)),
            final(self).failure() == old(self).failure(),
            match declared {
                Err(error) => outcome == Err::<LayerId, LayerError>(error) && final(
                    self).unchanged(old(self)),
                Ok(_) => match outcome {
                    Ok(id) => final(self).attached_on_top(old(self), id, kind),
                    Err(error) => error == LayerError::IdsExhausted && old(self).next_id()
                        == u64::MAX && final(self).unchanged(old(self)),
                },
            },
    {
        match declared {
            Err(error) => Err(error),
            Ok(()) => {
                let mut layer = layer;
                LayerSwapType::Synchronous.poll_attach(&mut layer);
                self.register(layer, kind)
            },
        }
    }

    /// Attaches `layer` synchronously: lets it declare its dependencies,
    /// polls it until it is ready, and attaches it at the end of the
    /// traversal order, on top of every dependency that it had created.
    ///
    /// On success the layer is attached when this returns. On failure the
    /// layer is dropped, and so is every dependency that was attached for
    /// it: the layers that were attached before are attached as before. A
    /// layer that declares nothing is attached unless it is refused for the
    /// layers that are being attached or no identifier is left.
    pub(crate) fn attach(&mut self, layer: L) -> (outcome: Result<LayerId, LayerError>)
        requires
            old(self).wf(),
        ensures
            final(self).wf(),
            final(self).extends(old(self)),
            final(self).failure() == old(self).failure(),
            match outcome {
                Ok(id) => final(self).top_is_new(old(self), id, layer.layer_kind()) && final(
                    self).none_of_kind_since(old(self), layer.layer_kind(), 1) && old(
                    self).refusal(layer.layer_kind()) is None,
                Err(error) => final(self).restored(old(self)) && (old(self).refusal(
                    layer.layer_kind(),
                ) matches Some(refusal) ==> error == refusal && final(self).unchanged(old(self))),
            },
            old(self).refusal(layer.layer_kind()) is None && layer.declares_nothing() ==> final(
                self).plainly_attached(old(self), layer.layer_kind(), outcome),
    {
        proof {
            self.lemma_wf();
        }
        let mark = self.len();
        let mut layer = layer;
        let kind = layer.kind();
        let declared = self.declare(&mut layer);
        let ghost before = *self;
        let outcome = self.settle(layer, kind, declared);
        proof {
            before.lemma_wf();
            assert forall|i: int|
                old(self).order().len() <= i < before.order().len() implies self.layers()[(
            #[trigger] self.order()[i])].kind != kind && !old(self).attaching().contains(
                self.layers()[self.order()[i]].kind,
            ) && old(self).next_id() <= self.order()[i] by {
                assert(self.order()[i] == before.order()[i]);
                assert(before.layers().contains_key(before.order()[i]));
            }
        }
        if outcome.is_err() {
            let ghost failed = *self;
            self.roll_back(mark);
            proof {
                failed.lemma_wf();
                self.lemma_wf();
                assert(self.order() =~= old(self).order());
                assert(self.layers().dom() =~= old(self).layers().dom());
                if failed.layers() == old(self).layers() {
                    assert(self.layers() =~= old(self).layers());
                }
            }
        }
        outcome
    }

    /// `self` and `outcome` are what comes of attaching `made`, which was made
    /// to be the first layer of `kind`, to `before`.
    ///
    /// A layer of another kind is refused, and so is one that cannot be
    /// attached for the layers that are being attached; nothing changes
    /// then. Otherwise the layer is attached as a layer is that is added: on
    /// success it is the topmost layer and the first of its kind, on failure
    /// the layers of `before` are attached as before, and it does not fail if
    /// it declares nothing and an identifier is left.
    pub open spec fn created(
        &self,
        before: &Self,
        kind: LayerKind,
        made: L,
        outcome: Result<LayerId, LayerError>,
    ) -> bool {
        if made.layer_kind() != kind {
            outcome == Err::<LayerId, LayerError>(
                LayerError::KindMismatch { expected: kind, found: made.layer_kind() },
            ) && self.same_attached(before)
        } else if before.refusal(kind) is Some {
            outcome == Err::<LayerId, LayerError>(before.refusal(kind).unwrap())
                && self.same_attached(before)
        } else {
            &&& match outcome {
                Ok(id) => self.top_is_new(before, id, kind) && self.first_of_kind(kind) == Some(
                    id,
                ),
                Err(_) => self.restored(before),
            }
            &&& made.declares_nothing() ==> self.plainly_attached(before, kind, outcome)
        }
    }

    /// Attaches `layer`, which was made to be the first layer of `kind`. A
    /// layer of another kind is refused, and nothing changes.
    fn attach_as(&mut self, kind: LayerKind, layer: L) -> (outcome: Result<LayerId, LayerError>)
        requires
            old(self).wf(),
            old(self).first_of_kind(kind) is None,
        ensures
            final(self).wf(),
            final(self).extends(old(self)),
            final(self).failure() == old(self).failure(),
            final(self).created(old(self), kind, layer, outcome),
            outcome is Err ==> final(self).first_of_kind(kind) is None,
    {
        let found = layer.kind();
        if found != kind {
            return Err(LayerError::KindMismatch { expected: kind, found });
        }
        let outcome = self.attach(layer);
        proof {
            old(self).lemma_wf();
            self.lemma_wf();
            lemma_first_with_kind(old(self).order(), old(self).layers(), kind);
            assert forall|j: int| 0 <= j < old(self).order().len() implies self.layers()[(
            #[trigger] self.order()[j])].kind != kind by {
                assert(self.order()[j] == old(self).order()[j]);
                assert(old(self).layers().contains_key(old(self).order()[j]));
            }
            match outcome {
                Ok(id) => {
                    let last = self.order().len() - 1;
                    lemma_first_with_kind_at(self.order(), self.layers(), kind, last);
                },
                Err(_) => {
                    lemma_first_with_kind(self.order(), self.layers(), kind);
                    if let Some(id) = self.first_of_kind(kind) {
                        let i = choose|i: int|
                            0 <= i < self.order().len() && #[trigger] self.order()[i] == id
                                && self.layers()[id].kind == kind;
                        assert(self.layers()[self.order()[i]].kind != kind);
                    }
                },
            }
        }
        outcome
    }

    /// The first layer of `kind`, which `supplier` makes and which is attached
    /// at once if none is attached yet.
    fn find_or_create<F: FnOnce() -> L>(&mut self, kind: LayerKind, supplier: F) -> (outcome:
        Result<LayerId, LayerError>)
        requires
            old(self).wf(),
            call_requires(supplier, ()),
        ensures
            final(self).wf(),
            final(self).extends(old(self)),
            final(self).failure() == old(self).failure(),
            match old(self).first_of_kind(kind) {
                Some(id) => outcome == Ok::<LayerId, LayerError>(id) && final(self).unchanged(
                    old(self),
                ),
                None => exists|made: L| #[trigger]
                    call_ensures(supplier, (), made) && final(self).created(
                        old(self),
                        kind,
                        made,
                        outcome,
                    ),
            },
            match outcome {
                Ok(id) => final(self).layers().contains_key(id) && final(self).layers()[id].kind
                    == kind && final(self).first_of_kind(kind) == Some(id),
                Err(_) => final(self).first_of_kind(kind) is None,
            },
    {
        proof {
            self.lemma_wf();
        }
        match self.find_id_by_type(kind) {
            Some(id) => Ok(id),
            None => {
                let layer = supplier();
                let ghost made = layer;
                let outcome = self.attach_as(kind, layer);
                assert(call_ensures(supplier, (), made) && self.created(
                    old(self),
                    kind,
                    made,
                    outcome,
                ));
                outcome
            },
        }
    }

    /// Declares a dependency on a layer of `kind` and returns a reference to
    /// the first such layer. If none is attached, `supplier` makes one, which
    /// is attached at once, on top of the attached layers, and returned.
    ///
    /// This applies recursively: the new layer declares its own dependencies
    /// before this returns. It fails if the new layer cannot be attached, if
    /// it is of another kind than `kind`, or if a layer of `kind` is itself
    /// being attached; the layers that were attached before are attached as
    /// before then, and the failure is kept in mind, as [`Self::required`]
    /// does. It does not fail where the supplier makes a layer of `kind`
    /// that declares nothing, no layer of that kind is being attached, and an
    /// identifier is left.
    pub fn or_create<F: FnOnce() -> L>(&mut self, kind: LayerKind, supplier: F) -> (outcome: Result<
        &L,
        LayerError,
    >)
        requires
            old(self).wf(),
            call_requires(supplier, ()),
        ensures
            final(self).wf(),
            final(self).extends(old(self)),
            match old(self).first_of_kind(kind) {
                Some(id) => outcome == Ok::<&L, LayerError>(&old(self).layers()[id].layer)
                    && final(self).unchanged(old(self)),
                None => exists|made: L| #[trigger]
                    call_ensures(supplier, (), made) && final(self).created(
                        old(self),
                        kind,
                        made,
                        match outcome {
                            Ok(_) => Ok::<LayerId, LayerError>(final(self).order().last()),
                            Err(error) => Err::<LayerId, LayerError>(error),
                        },
                    ),
            },
            match outcome {
                Ok(layer) => final(self).first_of_kind(kind) matches Some(id) && *layer == final(
                    self).layers()[id].layer && final(self).failure() == old(self).failure(),
                Err(error) => final(self).first_of_kind(kind) is None && final(self).failure()
                    == match old(self).failure() {
                    Some(earlier) => Some(earlier),
                    None => Some(error),
                },
            },
            old(self).first_of_kind(kind) is None && old(self).refusal(kind) is None && old(
                self).next_id() < u64::MAX && (forall|made: L| #[trigger]
                call_ensures(supplier, (), made) ==> made.layer_kind() == kind
                    && made.declares_nothing()) ==> outcome is Ok && final(self).attached_on_top(
                old(self),
                old(self).next_id(),
                kind,
            ),
    {
        match self.find_or_create(kind, supplier) {
            Ok(id) => Ok(&self.layers.get(&id).unwrap().layer),
            Err(error) => {
                self.fail(error);
                Err(error)
            },
        }
    }

    /// Declares a dependency on a layer of `kind` and returns a mutable
    /// reference to the first such layer. If none is attached, `supplier`
    /// makes one, which is attached at once, on top of the attached layers,
    /// and returned.
    ///
    /// This applies recursively, and fails or does not fail, as
    /// [`Self::or_create`] does.
    pub fn or_create_mut<F: FnOnce() -> L>(&mut self, kind: LayerKind, supplier: F) -> (outcome:
        Result<&mut L, LayerError>)
        requires
            old(self).wf(),
            call_requires(supplier, ()),
        ensures
            final(self).wf(),
            final(self).extends(old(self)),
            match old(self).first_of_kind(kind) {
                Some(id) => outcome.is_ok() && *outcome.unwrap() == old(self).layers()[id].layer
                    && final(self).changed_at(old(self), id, *final(outcome.unwrap())),
                None => exists|made: L| #[trigger]
                    call_ensures(supplier, (), made) && final(self).created(
                        old(self),
                        kind,
                        made,
                        if outcome is Ok {
                            Ok::<LayerId, LayerError>(final(self).order().last())
                        } else {
                            Err::<LayerId, LayerError>(outcome->Err_0)
                        },
                    ),
            },
            if outcome.is_ok() {
                final(self).first_of_kind(kind) matches Some(id) && final(self).layers()[id].layer
                    == *final(outcome.unwrap()) && final(self).failure() == old(self).failure()
            } else {
                final(self).first_of_kind(kind) is None && final(self).failure() == match old(
                    self).failure() {
                    Some(earlier) => Some(earlier),
                    None => Some(outcome->Err_0),
                }
            },
            old(self).first_of_kind(kind) is None && old(self).refusal(kind) is None && old(
                self).next_id() < u64::MAX && (forall|made: L| #[trigger]
                call_ensures(supplier, (), made) ==> made.layer_kind() == kind
                    && made.declares_nothing()) ==> outcome is Ok && final(self).attached_on_top(
                old(self),
                old(self).next_id(),
                kind,
            ),
    {
        match self.find_or_create(kind, supplier) {
            Err(error) => {
                self.fail(error);
                Err(error)
            },
            Ok(id) => {
                let ghost found = *self;
                proof {
                    found.lemma_wf();
                    assert forall|layer: L|
                        first_with_kind(
                            found.order(),
                            #[trigger] found.layers().insert(id, LayerInfo { id, kind, layer }),
                            kind,
                        ) == Some(id) by {
                        let updated = found.layers().insert(id, LayerInfo { id, kind, layer });
                        lemma_first_with_kind_by_kinds(
                            found.order(),
                            found.layers(),
                            updated,
                            kind,
                        );
                    }
                    assert forall|layer: L|
                        (#[trigger] found.layers().insert(id, LayerInfo { id, kind, layer })).remove(
                            id,
                        ) == found.layers().remove(id) by {
                        assert(found.layers().insert(id, LayerInfo { id, kind, layer }).remove(id)
                            =~= found.layers().remove(id));
                    }
                }
                match self.layers.entry(id) {
                    Entry::Occupied(entry) => {
                        let info = entry.into_mut();
                        Ok(&mut info.layer)
                    },
                    Entry::Vacant(_) => Err(LayerError::MissingDependency(kind)),
                }
            },
        }
    }
}

impl<L: Layer> LayerDependencyManager<L> for LayerDependencyDeclaration<L> {
    open spec fn ready(&self) -> bool {
        self.wf()
    }

    fn find_by_type(&self, kind: LayerKind) -> (found: Option<&L>)
        ensures
            found == match self.first_of_kind(kind) {
                Some(id) => Some(&self.layers()[id].layer),
                None => None,
            },
    {
        self.lookup(kind)
    }

    fn find_by_type_mut(&mut self, kind: LayerKind) -> (found: Option<&mut L>)
        ensures
            final(self).extends(old(self)),
            match old(self).first_of_kind(kind) {
                Some(id) => found.is_some() && *found.unwrap() == old(self).layers()[id].layer
                    && final(self).changed_at(old(self), id, *final(found.unwrap())),
                None => found.is_none() && final(self).unchanged(old(self)),
            },
    {
        self.lookup_mut(kind)
    }

    /// Attaches `layer` synchronously: lets it declare its dependencies,
    /// polls it until it is ready, and attaches it on top of the attached
    /// layers and of every dependency that it had created.
    ///
    /// On success the layer is attached when this returns. On failure the
    /// layer is dropped, and so is every dependency that was attached for
    /// it. A layer that declares nothing is attached unless it is refused
    /// for the layers that are being attached or no identifier is left.
    fn add_layer(&mut self, layer: L) -> (outcome: Result<LayerId, LayerError>)
        ensures
            final(self).extends(old(self)),
            match outcome {
                Ok(id) => final(self).top_is_new(old(self), id, layer.layer_kind()) && final(
                    self).none_of_kind_since(old(self), layer.layer_kind(), 1) && old(
                    self).refusal(layer.layer_kind()) is None,
                Err(error) => final(self).restored(old(self)) && (old(self).refusal(
                    layer.layer_kind(),
                ) matches Some(refusal) ==> error == refusal && final(self).unchanged(old(self))),
            },
            old(self).refusal(layer.layer_kind()) is None && layer.declares_nothing() ==> final(
                self).plainly_attached(old(self), layer.layer_kind(), outcome),
    {
        self.attach(layer)
    }
}

} // verus!
