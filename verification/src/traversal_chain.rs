//! The traversal order of the attached layers.
//!
//! A [`TraversalChain`] is a doubly linked list over layer identifiers whose
//! links live in two hash maps, one per direction. Insertion and removal by
//! identifier take constant time, and the order is independent of wherever the
//! layers themselves are stored.

use std::collections::HashMap;
use vstd::prelude::*;

verus! {

broadcast use vstd::std_specs::hash::group_hash_axioms;

/// Identifies one layer for as long as the layer exists.
pub type LayerId = u64;

/// A position in the chain: one of the two sentinels, or a linked layer.
#[derive(Copy, Clone, Debug, Hash, PartialEq, Eq, Structural)]
pub enum TraversalChainNode {
    Start,
    End,
    Link(LayerId),
}

/// The integer under which a node is stored in the link maps.
pub open spec fn node_key(node: TraversalChainNode) -> u128 {
    match node {
        TraversalChainNode::Start => 0,
        TraversalChainNode::End => 1,
        TraversalChainNode::Link(id) => (id + 2) as u128,
    }
}

/// The node at position `i` of the order `s`, where the start sentinel sits
/// before the first layer and the end sentinel after the last.
pub open spec fn node_at(s: Seq<LayerId>, i: int) -> TraversalChainNode {
    if i < 0 {
        TraversalChainNode::Start
    } else if i >= s.len() {
        TraversalChainNode::End
    } else {
        TraversalChainNode::Link(s[i])
    }
}

/// The position of `node` in the order `s`: `-1` for the start sentinel,
/// `s.len()` for the end sentinel, the index of the layer otherwise.
pub open spec fn position_of(s: Seq<LayerId>, node: TraversalChainNode) -> int {
    match node {
        TraversalChainNode::Start => -1,
        TraversalChainNode::End => s.len() as int,
        TraversalChainNode::Link(id) => s.index_of(id),
    }
}

/// Whether `k` is the key of a layer that occurs in `s`.
pub open spec fn is_link_key(s: Seq<LayerId>, k: u128) -> bool {
    k >= 2 && k - 2 <= u64::MAX && s.contains((k - 2) as u64)
}

/// The identifiers met when following `links` from `from`, the node `from`
/// itself left out, until a sentinel is reached or `fuel` steps were taken.
pub open spec fn walk(
    links: Map<u128, TraversalChainNode>,
    from: TraversalChainNode,
    fuel: nat,
) -> Seq<LayerId>
    decreases fuel,
{
    if fuel == 0 || !links.contains_key(node_key(from)) {
        Seq::empty()
    } else {
        match links[node_key(from)] {
            TraversalChainNode::Link(id) => seq![id] + walk(
                links,
                TraversalChainNode::Link(id),
                (fuel - 1) as nat,
            ),
            _ => Seq::empty(),
        }
    }
}

fn key_of(node: TraversalChainNode) -> (k: u128)
    ensures
        k == node_key(node),
{
    match node {
        TraversalChainNode::Start => 0,
        TraversalChainNode::End => 1,
        TraversalChainNode::Link(id) => id as u128 + 2,
    }
}

/// A doubly linked order over layer identifiers.
///
/// Its view is the sequence of linked identifiers from the start sentinel to
/// the end sentinel.
pub struct TraversalChain {
    fwd_chain: HashMap<u128, TraversalChainNode>,
    bwd_chain: HashMap<u128, TraversalChainNode>,
    order: Ghost<Seq<LayerId>>,
}

impl View for TraversalChain {
    type V = Seq<LayerId>;

    closed spec fn view(&self) -> Seq<LayerId> {
        self.order@
    }
}

/// The successor links hold the edge that leaves position `i` of `s`.
spec fn fwd_ok(fwd: Map<u128, TraversalChainNode>, s: Seq<LayerId>, i: int) -> bool {
    fwd.contains_key(node_key(node_at(s, i))) && fwd[node_key(node_at(s, i))] == node_at(s, i + 1)
}

/// The predecessor links hold the edge that enters position `i` of `s`.
spec fn bwd_ok(bwd: Map<u128, TraversalChainNode>, s: Seq<LayerId>, i: int) -> bool {
    bwd.contains_key(node_key(node_at(s, i))) && bwd[node_key(node_at(s, i))] == node_at(s, i - 1)
}

/// The successor links are exactly the edges of the order `s`.
spec fn fwd_wf(fwd: Map<u128, TraversalChainNode>, s: Seq<LayerId>) -> bool {
    &&& forall|i: int| -1 <= i < s.len() ==> #[trigger] fwd_ok(fwd, s, i)
    &&& forall|k: u128| #[trigger] fwd.contains_key(k) ==> k == 0 || is_link_key(s, k)
}

/// The predecessor links are exactly the edges of the order `s`.
spec fn bwd_wf(bwd: Map<u128, TraversalChainNode>, s: Seq<LayerId>) -> bool {
    &&& forall|i: int| 0 <= i <= s.len() ==> #[trigger] bwd_ok(bwd, s, i)
    &&& forall|k: u128| #[trigger] bwd.contains_key(k) ==> k == 1 || is_link_key(s, k)
}

/// Distinct positions of a duplicate-free order have distinct keys.
proof fn lemma_key_injective(s: Seq<LayerId>, i: int, j: int)
    requires
        s.no_duplicates(),
        -1 <= i <= s.len(),
        -1 <= j <= s.len(),
        i != j,
    ensures
        node_key(node_at(s, i)) != node_key(node_at(s, j)),
{
}

/// The key of a layer that is not in the order differs from every key of the order.
proof fn lemma_key_fresh(s: Seq<LayerId>, id: LayerId, i: int)
    requires
        !s.contains(id),
        -1 <= i <= s.len(),
    ensures
        node_key(node_at(s, i)) != node_key(TraversalChainNode::Link(id)),
{
    if 0 <= i < s.len() {
        assert(s.contains(s[i]));
    }
}

/// The key of a position inside the order is the key of a linked layer.
proof fn lemma_key_is_link(s: Seq<LayerId>, i: int)
    requires
        0 <= i < s.len(),
    ensures
        is_link_key(s, node_key(node_at(s, i))),
{
    assert(s.contains(s[i]));
}

/// How the positions of `s.insert(p, id)` relate to those of `s`.
proof fn lemma_node_at_insert(s: Seq<LayerId>, p: int, id: LayerId, j: int)
    requires
        0 <= p <= s.len(),
    ensures
        node_at(s.insert(p, id), j) == if j < p {
            node_at(s, j)
        } else if j == p {
            TraversalChainNode::Link(id)
        } else {
            node_at(s, j - 1)
        },
{
}

/// How the positions of `s.remove(p)` relate to those of `s`.
proof fn lemma_node_at_remove(s: Seq<LayerId>, p: int, j: int)
    requires
        0 <= p < s.len(),
    ensures
        node_at(s.remove(p), j) == if j < p {
            node_at(s, j)
        } else {
            node_at(s, j + 1)
        },
{
}

/// What `s.insert(p, id)` holds, and that it stays free of duplicates.
proof fn lemma_insert_contents(s: Seq<LayerId>, p: int, id: LayerId)
    requires
        0 <= p <= s.len(),
        s.no_duplicates(),
        !s.contains(id),
    ensures
        s.insert(p, id).no_duplicates(),
        forall|x: LayerId| #[trigger] s.insert(p, id).contains(x) <==> (x == id || s.contains(x)),
{
    let t = s.insert(p, id);
    assert forall|x: LayerId| #[trigger] t.contains(x) <==> (x == id || s.contains(x)) by {
        if t.contains(x) {
            let j = choose|j: int| 0 <= j < t.len() && t[j] == x;
            if j < p {
                assert(s[j] == x);
            } else if j > p {
                assert(s[j - 1] == x);
            }
        }
        if s.contains(x) {
            let j = choose|j: int| 0 <= j < s.len() && s[j] == x;
            if j < p {
                assert(t[j] == x);
            } else {
                assert(t[j + 1] == x);
            }
        }
        if x == id {
            assert(t[p] == x);
        }
    }
    assert forall|i: int, j: int| 0 <= i < t.len() && 0 <= j < t.len() && i != j implies t[i]
        != t[j] by {
        lemma_node_at_insert(s, p, id, i);
        lemma_node_at_insert(s, p, id, j);
        let a = if i < p {
            i
        } else {
            i - 1
        };
        let b = if j < p {
            j
        } else {
            j - 1
        };
        if i == p {
            assert(s.contains(s[b]));
        } else if j == p {
            assert(s.contains(s[a]));
        } else {
            assert(a != b);
        }
    }
}

/// What `s.remove(p)` holds, and that it stays free of duplicates.
proof fn lemma_remove_contents(s: Seq<LayerId>, p: int)
    requires
        0 <= p < s.len(),
        s.no_duplicates(),
    ensures
        s.remove(p).no_duplicates(),
        forall|x: LayerId| #[trigger] s.remove(p).contains(x) <==> (x != s[p] && s.contains(x)),
{
    let t = s.remove(p);
    assert forall|x: LayerId| #[trigger] t.contains(x) <==> (x != s[p] && s.contains(x)) by {
        if t.contains(x) {
            let j = choose|j: int| 0 <= j < t.len() && t[j] == x;
            if j < p {
                assert(s[j] == x);
            } else {
                assert(s[j + 1] == x);
            }
        }
        if x != s[p] && s.contains(x) {
            let j = choose|j: int| 0 <= j < s.len() && s[j] == x;
            if j < p {
                assert(t[j] == x);
            } else {
                assert(t[j - 1] == x);
            }
        }
    }
    assert forall|i: int, j: int| 0 <= i < t.len() && 0 <= j < t.len() && i != j implies t[i]
        != t[j] by {
        let a = if i < p {
            i
        } else {
            i + 1
        };
        let b = if j < p {
            j
        } else {
            j + 1
        };
        assert(t[i] == s[a]);
        assert(t[j] == s[b]);
    }
}

/// Linking `id` at position `p` keeps the successor links those of the order.
proof fn lemma_fwd_insert(fwd: Map<u128, TraversalChainNode>, s: Seq<LayerId>, p: int, id: LayerId)
    requires
        fwd_wf(fwd, s),
        s.no_duplicates(),
        !s.contains(id),
        0 <= p <= s.len(),
    ensures
        fwd_wf(
            fwd.insert(node_key(node_at(s, p - 1)), TraversalChainNode::Link(id)).insert(
                node_key(TraversalChainNode::Link(id)),
                node_at(s, p),
            ),
            s.insert(p, id),
        ),
{
    let link = TraversalChainNode::Link(id);
    let t = s.insert(p, id);
    let out = fwd.insert(node_key(node_at(s, p - 1)), link).insert(node_key(link), node_at(s, p));
    lemma_insert_contents(s, p, id);
    assert forall|i: int| -1 <= i < t.len() implies #[trigger] fwd_ok(out, t, i) by {
        lemma_node_at_insert(s, p, id, i);
        lemma_node_at_insert(s, p, id, i + 1);
        if i < p - 1 {
            assert(fwd_ok(fwd, s, i));
            lemma_key_injective(s, i, p - 1);
            lemma_key_fresh(s, id, i);
        } else if i == p - 1 {
            lemma_key_fresh(s, id, i);
        } else if i > p {
            assert(fwd_ok(fwd, s, i - 1));
            lemma_key_injective(s, i - 1, p - 1);
            lemma_key_fresh(s, id, i - 1);
        }
    }
    assert forall|k: u128| #[trigger] out.contains_key(k) implies k == 0 || is_link_key(t, k) by {
        if k == node_key(link) {
            assert(t.contains(id));
        } else if k == node_key(node_at(s, p - 1)) {
            if p > 0 {
                lemma_key_is_link(s, p - 1);
            }
        } else {
            assert(fwd.contains_key(k));
        }
    }
}

/// Linking `id` at position `p` keeps the predecessor links those of the order.
proof fn lemma_bwd_insert(bwd: Map<u128, TraversalChainNode>, s: Seq<LayerId>, p: int, id: LayerId)
    requires
        bwd_wf(bwd, s),
        s.no_duplicates(),
        !s.contains(id),
        0 <= p <= s.len(),
    ensures
        bwd_wf(
            bwd.insert(node_key(node_at(s, p)), TraversalChainNode::Link(id)).insert(
                node_key(TraversalChainNode::Link(id)),
                node_at(s, p - 1),
            ),
            s.insert(p, id),
        ),
{
    let link = TraversalChainNode::Link(id);
    let t = s.insert(p, id);
    let out = bwd.insert(node_key(node_at(s, p)), link).insert(node_key(link), node_at(s, p - 1));
    lemma_insert_contents(s, p, id);
    assert forall|i: int| 0 <= i <= t.len() implies #[trigger] bwd_ok(out, t, i) by {
        lemma_node_at_insert(s, p, id, i);
        lemma_node_at_insert(s, p, id, i - 1);
        if i < p {
            assert(bwd_ok(bwd, s, i));
            lemma_key_injective(s, i, p);
            lemma_key_fresh(s, id, i);
        } else if i == p + 1 {
            lemma_key_fresh(s, id, p);
        } else if i > p + 1 {
            assert(bwd_ok(bwd, s, i - 1));
            lemma_key_injective(s, i - 1, p);
            lemma_key_fresh(s, id, i - 1);
        }
    }
    assert forall|k: u128| #[trigger] out.contains_key(k) implies k == 1 || is_link_key(t, k) by {
        if k == node_key(link) {
            assert(t.contains(id));
        } else if k == node_key(node_at(s, p)) {
            if p < s.len() {
                lemma_key_is_link(s, p);
            }
        } else {
            assert(bwd.contains_key(k));
        }
    }
}

/// Unlinking position `p` keeps the successor links those of the order.
proof fn lemma_fwd_remove(fwd: Map<u128, TraversalChainNode>, s: Seq<LayerId>, p: int)
    requires
        fwd_wf(fwd, s),
        s.no_duplicates(),
        0 <= p < s.len(),
    ensures
        fwd_wf(
            fwd.insert(node_key(node_at(s, p - 1)), node_at(s, p + 1)).remove(
                node_key(node_at(s, p)),
            ),
            s.remove(p),
        ),
{
    let t = s.remove(p);
    let out = fwd.insert(node_key(node_at(s, p - 1)), node_at(s, p + 1)).remove(
        node_key(node_at(s, p)),
    );
    lemma_remove_contents(s, p);
    assert forall|i: int| -1 <= i < t.len() implies #[trigger] fwd_ok(out, t, i) by {
        lemma_node_at_remove(s, p, i);
        lemma_node_at_remove(s, p, i + 1);
        if i < p - 1 {
            assert(fwd_ok(fwd, s, i));
            lemma_key_injective(s, i, p - 1);
            lemma_key_injective(s, i, p);
        } else if i == p - 1 {
            lemma_key_injective(s, p - 1, p);
        } else {
            assert(fwd_ok(fwd, s, i + 1));
            lemma_key_injective(s, i + 1, p - 1);
            lemma_key_injective(s, i + 1, p);
        }
    }
    assert forall|k: u128| #[trigger] out.contains_key(k) implies k == 0 || is_link_key(t, k) by {
        if k == node_key(node_at(s, p - 1)) {
            if p > 0 {
                lemma_key_is_link(s, p - 1);
                assert(s[p - 1] != s[p]);
            }
        } else {
            assert(fwd.contains_key(k));
        }
    }
}

/// Unlinking position `p` keeps the predecessor links those of the order.
proof fn lemma_bwd_remove(bwd: Map<u128, TraversalChainNode>, s: Seq<LayerId>, p: int)
    requires
        bwd_wf(bwd, s),
        s.no_duplicates(),
        0 <= p < s.len(),
    ensures
        bwd_wf(
            bwd.insert(node_key(node_at(s, p + 1)), node_at(s, p - 1)).remove(
                node_key(node_at(s, p)),
            ),
            s.remove(p),
        ),
{
    let t = s.remove(p);
    let out = bwd.insert(node_key(node_at(s, p + 1)), node_at(s, p - 1)).remove(
        node_key(node_at(s, p)),
    );
    lemma_remove_contents(s, p);
    assert forall|i: int| 0 <= i <= t.len() implies #[trigger] bwd_ok(out, t, i) by {
        lemma_node_at_remove(s, p, i);
        lemma_node_at_remove(s, p, i - 1);
        if i < p {
            assert(bwd_ok(bwd, s, i));
            lemma_key_injective(s, i, p + 1);
            lemma_key_injective(s, i, p);
        } else if i == p {
            lemma_key_injective(s, p + 1, p);
        } else {
            assert(bwd_ok(bwd, s, i + 1));
            lemma_key_injective(s, i + 1, p + 1);
            lemma_key_injective(s, i + 1, p);
        }
    }
    assert forall|k: u128| #[trigger] out.contains_key(k) implies k == 1 || is_link_key(t, k) by {
        if k == node_key(node_at(s, p + 1)) {
            if p + 1 < s.len() {
                lemma_key_is_link(s, p + 1);
                assert(s[p + 1] != s[p]);
            }
        } else {
            assert(bwd.contains_key(k));
        }
    }
}

impl TraversalChain {
    /// The representation invariant: the two maps hold exactly the links of
    /// the order, each in its direction, and no layer is linked twice.
    pub closed spec fn wf(&self) -> bool {
        &&& self.order@.no_duplicates()
        &&& fwd_wf(self.fwd_chain@, self.order@)
        &&& bwd_wf(self.bwd_chain@, self.order@)
    }

    /// Whether `node` has a successor: the start sentinel and every linked
    /// layer do.
    pub open spec fn has_next(&self, node: TraversalChainNode) -> bool {
        match node {
            TraversalChainNode::Start => true,
            TraversalChainNode::End => false,
            TraversalChainNode::Link(id) => self@.contains(id),
        }
    }

    /// Whether `node` has a predecessor: the end sentinel and every linked
    /// layer do.
    pub open spec fn has_prev(&self, node: TraversalChainNode) -> bool {
        match node {
            TraversalChainNode::Start => false,
            TraversalChainNode::End => true,
            TraversalChainNode::Link(id) => self@.contains(id),
        }
    }

    /// The node that follows `node` in the order.
    pub open spec fn next_of(&self, node: TraversalChainNode) -> TraversalChainNode {
        node_at(self@, position_of(self@, node) + 1)
    }

    /// The node that precedes `node` in the order.
    pub open spec fn prev_of(&self, node: TraversalChainNode) -> TraversalChainNode {
        node_at(self@, position_of(self@, node) - 1)
    }

    /// What following the successor links from the start sentinel yields.
    pub closed spec fn forward_walk(&self) -> Seq<LayerId> {
        walk(self.fwd_chain@, TraversalChainNode::Start, self.fwd_chain@.len())
    }

    /// What following the predecessor links from the end sentinel yields.
    pub closed spec fn backward_walk(&self) -> Seq<LayerId> {
        walk(self.bwd_chain@, TraversalChainNode::End, self.bwd_chain@.len())
    }

    /// The stored links of a node agree with the order.
    proof fn lemma_links(&self, node: TraversalChainNode)
        requires
            self.wf(),
        ensures
            self.has_next(node) ==> self.fwd_chain@.contains_key(node_key(node))
                && self.fwd_chain@[node_key(node)] == self.next_of(node),
            self.has_prev(node) ==> self.bwd_chain@.contains_key(node_key(node))
                && self.bwd_chain@[node_key(node)] == self.prev_of(node),
            !self.has_next(node) ==> !self.fwd_chain@.contains_key(node_key(node)),
            !self.has_prev(node) ==> !self.bwd_chain@.contains_key(node_key(node)),
            node == node_at(self@, position_of(self@, node)) || (node matches TraversalChainNode::Link(id)
                && !self@.contains(id)),
            -1 <= position_of(self@, node) <= self@.len() || (node matches TraversalChainNode::Link(id)
                && !self@.contains(id)),
    {
        let s = self.order@;
        let i = position_of(s, node);
        match node {
            TraversalChainNode::Link(id) => {
                if s.contains(id) {
                    assert(s[i] == id);
                    assert(fwd_ok(self.fwd_chain@, s, i));
                    assert(bwd_ok(self.bwd_chain@, s, i));
                } else {
                    assert(!is_link_key(s, node_key(node)));
                }
            },
            TraversalChainNode::Start => {
                assert(fwd_ok(self.fwd_chain@, s, -1));
                assert(!is_link_key(s, 0));
            },
            TraversalChainNode::End => {
                assert(bwd_ok(self.bwd_chain@, s, s.len() as int));
                assert(!is_link_key(s, 1));
            },
        }
    }

    /// No layer is linked twice, and a linked layer stands at its position.
    pub proof fn lemma_order_facts(&self)
        requires
            self.wf(),
        ensures
            self@.no_duplicates(),
            forall|id: LayerId| #[trigger]
                self@.contains(id) ==> 0 <= self@.index_of(id) < self@.len() && self@[self@.index_of(
                    id,
                )] == id,
            forall|i: int| 0 <= i < self@.len() ==> self@.index_of(#[trigger] self@[i]) == i,
    {
        let s = self.order@;
        assert forall|i: int| 0 <= i < s.len() implies s.index_of(#[trigger] s[i]) == i by {
            assert(s.contains(s[i]));
            let j = s.index_of(s[i]);
            assert(s[j] == s[i]);
        }
    }

    /// An empty chain: the start sentinel is linked to the end sentinel.
    pub fn new() -> (chain: Self)
        ensures
            chain.wf(),
            chain@ == Seq::<LayerId>::empty(),
    {
        let mut fwd_chain = HashMap::new();
        fwd_chain.insert(key_of(TraversalChainNode::Start), TraversalChainNode::End);

        let mut bwd_chain = HashMap::new();
        bwd_chain.insert(key_of(TraversalChainNode::End), TraversalChainNode::Start);

        let chain = Self { fwd_chain, bwd_chain, order: Ghost(Seq::empty()) };
        proof {
            let s = Seq::<LayerId>::empty();
            assert forall|i: int| -1 <= i < s.len() implies #[trigger] fwd_ok(
                chain.fwd_chain@,
                s,
                i,
            ) by {}
            assert forall|i: int| 0 <= i <= s.len() implies #[trigger] bwd_ok(
                chain.bwd_chain@,
                s,
                i,
            ) by {}
        }
        chain
    }

    /// Links `id` between the neighbours `prev` and `next`, which stand at the
    /// positions `p - 1` and `p`.
    fn link_between(
        &mut self,
        id: LayerId,
        prev: TraversalChainNode,
        next: TraversalChainNode,
        Ghost(p): Ghost<int>,
    )
        requires
            old(self).wf(),
            !old(self)@.contains(id),
            0 <= p <= old(self)@.len(),
            prev == node_at(old(self)@, p - 1),
            next == node_at(old(self)@, p),
        ensures
            final(self).wf(),
            final(self)@ == old(self)@.insert(p, id),
    {
        let link = TraversalChainNode::Link(id);
        proof {
            lemma_fwd_insert(self.fwd_chain@, self.order@, p, id);
            lemma_bwd_insert(self.bwd_chain@, self.order@, p, id);
            lemma_insert_contents(self.order@, p, id);
        }

        self.fwd_chain.insert(key_of(prev), link);
        self.fwd_chain.insert(key_of(link), next);

        self.bwd_chain.insert(key_of(next), link);
        self.bwd_chain.insert(key_of(link), prev);

        self.order = Ghost(self.order@.insert(p, id));
    }

    /// Unlinks `id`; its neighbours become each other's.
    pub fn remove(&mut self, id: LayerId)
        requires
            old(self).wf(),
            old(self)@.contains(id),
        ensures
            final(self).wf(),
            final(self)@ == old(self)@.remove(old(self)@.index_of(id)),
    {
        let link = TraversalChainNode::Link(id);
        let ghost p = self.order@.index_of(id);
        proof {
            self.lemma_links(link);
            lemma_fwd_remove(self.fwd_chain@, self.order@, p);
            lemma_bwd_remove(self.bwd_chain@, self.order@, p);
            lemma_remove_contents(self.order@, p);
        }

        let next = *self.fwd_chain.get(&key_of(link)).unwrap();
        let prev = *self.bwd_chain.get(&key_of(link)).unwrap();

        self.fwd_chain.insert(key_of(prev), next);
        self.bwd_chain.insert(key_of(next), prev);

        self.fwd_chain.remove(&key_of(link));
        self.bwd_chain.remove(&key_of(link));

        self.order = Ghost(self.order@.remove(p));
    }

    /// Links `id` directly behind `after`.
    pub fn insert_after(&mut self, id: LayerId, after: LayerId)
        requires
            old(self).wf(),
            old(self)@.contains(after),
            !old(self)@.contains(id),
        ensures
            final(self).wf(),
            final(self)@ == old(self)@.insert(old(self)@.index_of(after) + 1, id),
    {
        let after_link = TraversalChainNode::Link(after);
        proof {
            self.lemma_links(after_link);
        }

        let next = *self.fwd_chain.get(&key_of(after_link)).unwrap();
        let prev = after_link;

        self.link_between(id, prev, next, Ghost(self@.index_of(after) + 1));
    }

    /// Links `id` directly in front of `before`.
    pub fn insert_before(&mut self, id: LayerId, before: LayerId)
        requires
            old(self).wf(),
            old(self)@.contains(before),
            !old(self)@.contains(id),
        ensures
            final(self).wf(),
            final(self)@ == old(self)@.insert(old(self)@.index_of(before), id),
    {
        let before_link = TraversalChainNode::Link(before);
        proof {
            self.lemma_links(before_link);
        }

        let next = before_link;
        let prev = *self.bwd_chain.get(&key_of(before_link)).unwrap();

        self.link_between(id, prev, next, Ghost(self@.index_of(before)));
    }

    /// Links `id` directly behind the start sentinel.
    pub fn insert_first(&mut self, id: LayerId)
        requires
            old(self).wf(),
            !old(self)@.contains(id),
        ensures
            final(self).wf(),
            final(self)@ == seq![id] + old(self)@,
    {
        proof {
            self.lemma_links(TraversalChainNode::Start);
        }
        let next = *self.fwd_chain.get(&key_of(TraversalChainNode::Start)).unwrap();
        let prev = TraversalChainNode::Start;

        self.link_between(id, prev, next, Ghost(0));
        assert(self@ =~= seq![id] + old(self)@);
    }

    /// Links `id` directly in front of the end sentinel.
    pub fn insert_last(&mut self, id: LayerId)
        requires
            old(self).wf(),
            !old(self)@.contains(id),
        ensures
            final(self).wf(),
            final(self)@ == old(self)@.push(id),
    {
        proof {
            self.lemma_links(TraversalChainNode::End);
        }
        let next = TraversalChainNode::End;
        let prev = *self.bwd_chain.get(&key_of(TraversalChainNode::End)).unwrap();

        self.link_between(id, prev, next, Ghost(self@.len() as int));
        assert(self@ =~= old(self)@.push(id));
    }

    /// The successor of `node`.
    pub fn get_next(&self, node: &TraversalChainNode) -> (next: TraversalChainNode)
        requires
            self.wf(),
            self.has_next(*node),
        ensures
            next == self.next_of(*node),
    {
        proof {
            self.lemma_links(*node);
        }
        *self.fwd_chain.get(&key_of(*node)).unwrap()
    }

    /// The predecessor of `node`.
    pub fn get_prev(&self, node: &TraversalChainNode) -> (prev: TraversalChainNode)
        requires
            self.wf(),
            self.has_prev(*node),
        ensures
            prev == self.prev_of(*node),
    {
        proof {
            self.lemma_links(*node);
        }
        *self.bwd_chain.get(&key_of(*node)).unwrap()
    }

    /// Whether `id` is linked.
    pub fn contains(&self, id: LayerId) -> (found: bool)
        requires
            self.wf(),
        ensures
            found == self@.contains(id),
    {
        proof {
            self.lemma_links(TraversalChainNode::Link(id));
        }
        self.fwd_chain.contains_key(&key_of(TraversalChainNode::Link(id)))
    }

    /// The number of successor links: one for the start sentinel and one for
    /// every linked layer.
    pub fn fwd_len(&self) -> (n: usize)
        requires
            self.wf(),
        ensures
            n == self@.len() + 1,
    {
        proof {
            self.lemma_link_counts();
        }
        self.fwd_chain.len()
    }

    /// The number of predecessor links: one for the end sentinel and one for
    /// every linked layer.
    pub fn bwd_len(&self) -> (n: usize)
        requires
            self.wf(),
        ensures
            n == self@.len() + 1,
    {
        proof {
            self.lemma_link_counts();
        }
        self.bwd_chain.len()
    }

    /// Whether no layer is linked.
    pub fn is_empty(&self) -> (empty: bool)
        requires
            self.wf(),
        ensures
            empty == (self@.len() == 0),
    {
        proof {
            self.lemma_links(TraversalChainNode::Start);
        }
        match self.get_next(&TraversalChainNode::Start) {
            TraversalChainNode::Link(_) => false,
            _ => true,
        }
    }

    /// A walker that stands on the start sentinel and has the whole order
    /// before it.
    pub fn iter(&self) -> (walker: TraversalChainWalker<'_>)
        requires
            self.wf(),
        ensures
            walker.wf(),
            walker.chain() == self,
            walker.remaining() == self@,
    {
        let walker = TraversalChainWalker(TraversalChainNode::Start, self);
        assert(walker.remaining() =~= self@);
        walker
    }

    /// A walker that stands on the end sentinel and has the whole order, from
    /// its last layer to its first, before it.
    pub fn iter_back(&self) -> (walker: TraversalChainBackWalker<'_>)
        requires
            self.wf(),
        ensures
            walker.wf(),
            walker.chain() == self,
            walker.remaining() == self@.reverse(),
    {
        let walker = TraversalChainBackWalker(TraversalChainNode::End, self);
        proof {
            assert(self@.take(self@.len() as int) =~= self@);
        }
        walker
    }

    /// The linked identifiers from the first to the last.
    pub fn ids(&self) -> (ids: Vec<LayerId>)
        requires
            self.wf(),
        ensures
            ids@ == self@,
    {
        let mut ids: Vec<LayerId> = Vec::new();
        let mut walker = self.iter();
        loop
            invariant
                walker.wf(),
                walker.chain() == self,
                ids@ + walker.remaining() == self@,
            ensures
                ids@ == self@,
            decreases walker.remaining().len(),
        {
            let ghost before = walker.remaining();
            match walker.next() {
                Some(id) => {
                    ids.push(id);
                    assert(ids@ + walker.remaining() =~= (ids@.drop_last() + before));
                },
                None => {
                    assert(ids@ + walker.remaining() =~= ids@);
                    break;
                },
            }
        }
        ids
    }

    /// The linked identifiers from the last to the first.
    pub fn ids_back(&self) -> (ids: Vec<LayerId>)
        requires
            self.wf(),
        ensures
            ids@ == self@.reverse(),
    {
        let mut ids: Vec<LayerId> = Vec::new();
        let mut walker = self.iter_back();
        loop
            invariant
                walker.wf(),
                walker.chain() == self,
                ids@ + walker.remaining() == self@.reverse(),
            ensures
                ids@ == self@.reverse(),
            decreases walker.remaining().len(),
        {
            let ghost before = walker.remaining();
            match walker.next() {
                Some(id) => {
                    ids.push(id);
                    assert(ids@ + walker.remaining() =~= (ids@.drop_last() + before));
                },
                None => {
                    assert(ids@ + walker.remaining() =~= ids@);
                    break;
                },
            }
        }
        ids
    }

    /// Each map holds one link per linked layer and one for its sentinel.
    proof fn lemma_link_counts(&self)
        requires
            self.wf(),
        ensures
            self.fwd_chain@.len() == self@.len() + 1,
            self.bwd_chain@.len() == self@.len() + 1,
    {
        let s = self.order@;
        let keys = s.map_values(|id: LayerId| node_key(TraversalChainNode::Link(id)));
        assert forall|i: int, j: int| 0 <= i < keys.len() && 0 <= j < keys.len() && i
            != j implies keys[i] != keys[j] by {
            assert(s[i] != s[j]);
        }
        keys.unique_seq_to_set();
        let link_keys = keys.to_set();
        assert forall|k: u128| #[trigger] link_keys.contains(k) <==> is_link_key(s, k) by {
            if link_keys.contains(k) {
                let i = choose|i: int| 0 <= i < keys.len() && keys[i] == k;
                assert(s.contains(s[i]));
            }
            if is_link_key(s, k) {
                let i = s.index_of((k - 2) as u64);
                assert(keys[i] == k);
            }
        }
        assert forall|k: u128| is_link_key(s, k) implies self.fwd_chain@.contains_key(k)
            && self.bwd_chain@.contains_key(k) by {
            let i = s.index_of((k - 2) as u64);
            assert(fwd_ok(self.fwd_chain@, s, i));
            assert(bwd_ok(self.bwd_chain@, s, i));
        }
        assert(fwd_ok(self.fwd_chain@, s, -1));
        assert(bwd_ok(self.bwd_chain@, s, s.len() as int));
        assert(self.fwd_chain@.dom() =~= link_keys.insert(0));
        assert(self.bwd_chain@.dom() =~= link_keys.insert(1));
    }

    /// Following the successor links from position `p - 1` yields the order
    /// from position `p` on.
    proof fn lemma_walk_forward(&self, p: int, fuel: nat)
        requires
            self.wf(),
            0 <= p <= self@.len(),
            fuel > self@.len() - p,
        ensures
            walk(self.fwd_chain@, node_at(self@, p - 1), fuel) == self@.skip(p),
        decreases self@.len() - p,
    {
        let s = self.order@;
        assert(fwd_ok(self.fwd_chain@, s, p - 1));
        if p < s.len() {
            self.lemma_walk_forward(p + 1, (fuel - 1) as nat);
            assert(s.skip(p) =~= seq![s[p]] + s.skip(p + 1));
        } else {
            assert(s.skip(p) =~= Seq::<LayerId>::empty());
        }
    }

    /// Following the predecessor links from position `p` yields the order
    /// before position `p`, from its end to its start.
    proof fn lemma_walk_backward(&self, p: int, fuel: nat)
        requires
            self.wf(),
            0 <= p <= self@.len(),
            fuel > p,
        ensures
            walk(self.bwd_chain@, node_at(self@, p), fuel) == self@.take(p).reverse(),
        decreases p,
    {
        let s = self.order@;
        assert(bwd_ok(self.bwd_chain@, s, p));
        if p > 0 {
            self.lemma_walk_backward(p - 1, (fuel - 1) as nat);
            assert(s.take(p).reverse() =~= seq![s[p - 1]] + s.take(p - 1).reverse());
        } else {
            assert(s.take(p).reverse() =~= Seq::<LayerId>::empty());
        }
    }

    /// In every well-formed chain, and so after every sequence of insertions
    /// and removals: following the successor links from the start sentinel
    /// yields every linked layer exactly once and ends at the end sentinel,
    /// and following the predecessor links from the end sentinel yields the
    /// same layers in the opposite order.
    pub proof fn lemma_forward_reverses_backward(&self)
        requires
            self.wf(),
        ensures
            self.forward_walk() == self@,
            self.backward_walk() == self@.reverse(),
            self.forward_walk() == self.backward_walk().reverse(),
            self.forward_walk().no_duplicates(),
            forall|id: LayerId| self@.contains(id) <==> self.forward_walk().contains(id),
    {
        self.lemma_link_counts();
        self.lemma_walk_forward(0, self.fwd_chain@.len());
        self.lemma_walk_backward(self@.len() as int, self.bwd_chain@.len());
        assert(self@.skip(0) =~= self@);
        assert(self@.take(self@.len() as int) =~= self@);
        assert(self@.reverse().reverse() =~= self@);
    }
}

/// A position in a chain from which the rest of the order is walked, one
/// layer at a time.
pub struct TraversalChainWalker<'a>(TraversalChainNode, &'a TraversalChain);

impl<'a> TraversalChainWalker<'a> {
    /// The chain that is walked.
    pub closed spec fn chain(&self) -> &'a TraversalChain {
        self.1
    }

    /// The walker stands on a node of a well-formed chain.
    pub closed spec fn wf(&self) -> bool {
        &&& self.1.wf()
        &&& match self.0 {
            TraversalChainNode::Link(id) => self.1@.contains(id),
            _ => true,
        }
    }

    /// The layers that the walker has yet to yield, the next one first.
    pub closed spec fn remaining(&self) -> Seq<LayerId> {
        match self.0 {
            TraversalChainNode::End => Seq::empty(),
            _ => self.1@.skip(position_of(self.1@, self.0) + 1),
        }
    }

    /// Steps to the next layer and yields it; at the end of the order it
    /// yields nothing and stays.
    pub fn next(&mut self) -> (item: Option<LayerId>)
        requires
            old(self).wf(),
        ensures
            final(self).wf(),
            final(self).chain() == old(self).chain(),
            match item {
                Some(id) => old(self).remaining().len() > 0 && id == old(self).remaining()[0]
                    && final(self).remaining() == old(self).remaining().drop_first(),
                None => old(self).remaining().len() == 0 && final(self).remaining().len() == 0,
            },
    {
        let ghost s = self.1@;
        let ghost p = position_of(s, self.0);
        proof {
            self.1.lemma_links(self.0);
            self.1.lemma_order_facts();
        }
        match self.0 {
            TraversalChainNode::End => None,
            _ => {
                self.0 = self.1.get_next(&self.0);
                proof {
                    self.1.lemma_links(self.0);
                }
                match self.0 {
                    TraversalChainNode::Link(layer_id) => {
                        proof {
                            assert(s[p + 1] == layer_id);
                            assert(s.contains(layer_id));
                            assert(s.skip(p + 1).drop_first() =~= s.skip(p + 2));
                        }
                        Some(layer_id)
                    },
                    _ => None,
                }
            },
        }
    }
}

/// A position in a chain from which the order is walked towards its start,
/// one layer at a time.
pub struct TraversalChainBackWalker<'a>(TraversalChainNode, &'a TraversalChain);

impl<'a> TraversalChainBackWalker<'a> {
    /// The chain that is walked.
    pub closed spec fn chain(&self) -> &'a TraversalChain {
        self.1
    }

    /// The walker stands on a node of a well-formed chain.
    pub closed spec fn wf(&self) -> bool {
        &&& self.1.wf()
        &&& match self.0 {
            TraversalChainNode::Link(id) => self.1@.contains(id),
            _ => true,
        }
    }

    /// The layers that the walker has yet to yield, the next one first.
    pub closed spec fn remaining(&self) -> Seq<LayerId> {
        match self.0 {
            TraversalChainNode::Start => Seq::empty(),
            _ => self.1@.take(position_of(self.1@, self.0)).reverse(),
        }
    }

    /// Steps to the preceding layer and yields it; at the start of the order
    /// it yields nothing and stays.
    pub fn next(&mut self) -> (item: Option<LayerId>)
        requires
            old(self).wf(),
        ensures
            final(self).wf(),
            final(self).chain() == old(self).chain(),
            match item {
                Some(id) => old(self).remaining().len() > 0 && id == old(self).remaining()[0]
                    && final(self).remaining() == old(self).remaining().drop_first(),
                None => old(self).remaining().len() == 0 && final(self).remaining().len() == 0,
            },
    {
        let ghost s = self.1@;
        let ghost p = position_of(s, self.0);
        proof {
            self.1.lemma_links(self.0);
            self.1.lemma_order_facts();
        }
        match self.0 {
            TraversalChainNode::Start => None,
            _ => {
                self.0 = self.1.get_prev(&self.0);
                proof {
                    self.1.lemma_links(self.0);
                }
                match self.0 {
                    TraversalChainNode::Link(layer_id) => {
                        proof {
                            assert(s[p - 1] == layer_id);
                            assert(s.contains(layer_id));
                            assert(s.take(p).reverse().drop_first() =~= s.take(p - 1).reverse());
                        }
                        Some(layer_id)
                    },
                    _ => None,
                }
            },
        }
    }
}

} // verus!
