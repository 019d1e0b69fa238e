//! Systems: the facilities that layers offer each other during one traversal.
//!
//! While the layers are entered from the bottom up, each may provide systems
//! to the layers above it. The systems are kept on a stack: a lookup finds the
//! system of the wanted kind that was provided last, and when the traversal
//! leaves a layer again, everything that was provided since that layer was
//! entered is taken off.

use vstd::prelude::*;

verus! {

/// Identifies a kind of system.
pub type SystemId = u64;

/// The position of the system that a lookup of `kind` finds among `entries`:
/// the one provided last.
pub open spec fn visible_index<S>(entries: Seq<(SystemId, S)>, kind: SystemId) -> Option<int>
    decreases entries.len(),
{
    if entries.len() == 0 {
        None
    } else if entries.last().0 == kind {
        Some(entries.len() - 1)
    } else {
        visible_index(entries.drop_last(), kind)
    }
}

/// The system that a lookup of `kind` finds among `entries`.
pub open spec fn visible<S>(entries: Seq<(SystemId, S)>, kind: SystemId) -> Option<S> {
    match visible_index(entries, kind) {
        Some(i) => Some(entries[i].1),
        None => None,
    }
}

/// A lookup finds the last entry of the wanted kind, and nothing where there
/// is no entry of that kind.
pub proof fn lemma_visible_index<S>(entries: Seq<(SystemId, S)>, kind: SystemId)
    ensures
        match visible_index(entries, kind) {
            Some(i) => 0 <= i < entries.len() && entries[i].0 == kind && forall|j: int|
                i < j < entries.len() ==> (#[trigger] entries[j]).0 != kind,
            None => forall|j: int| 0 <= j < entries.len() ==> (#[trigger] entries[j]).0 != kind,
        },
    decreases entries.len(),
{
    if entries.len() > 0 && entries.last().0 != kind {
        let rest = entries.drop_last();
        lemma_visible_index(rest, kind);
        match visible_index(rest, kind) {
            Some(i) => {
                assert forall|j: int| i < j < entries.len() implies (#[trigger] entries[j]).0
                    != kind by {
                    if j < rest.len() {
                        assert(rest[j] == entries[j]);
                    }
                }
            },
            None => {
                assert forall|j: int| 0 <= j < entries.len() implies (#[trigger] entries[j]).0
                    != kind by {
                    if j < rest.len() {
                        assert(rest[j] == entries[j]);
                    }
                }
            },
        }
    }
}

/// A lookup does not see what lies above an entry of the wanted kind, nor
/// entries of other kinds.
pub proof fn lemma_visible_above<S>(
    below: Seq<(SystemId, S)>,
    above: Seq<(SystemId, S)>,
    kind: SystemId,
)
    requires
        forall|i: int| 0 <= i < above.len() ==> (#[trigger] above[i]).0 != kind,
    ensures
        visible(below + above, kind) == visible(below, kind),
    decreases above.len(),
{
    if above.len() == 0 {
        assert(below + above =~= below);
    } else {
        let all = below + above;
        assert(all.last() == above.last());
        assert(above[above.len() - 1].0 != kind);
        assert(all.drop_last() =~= below + above.drop_last());
        assert forall|i: int| 0 <= i < above.drop_last().len() implies (#[trigger] above.drop_last()[i]).0
            != kind by {
            assert(above[i].0 != kind);
        }
        lemma_visible_above(below, above.drop_last(), kind);
        lemma_visible_index(all.drop_last(), kind);
    }
}

/// A system that a layer provides is what a lookup of its kind finds in every
/// layer above, whatever those layers provide, until one of them provides a
/// system of the same kind. And once the traversal has left the layer that
/// provided it, that is, once the stack is back at the depth that it had when
/// that layer was entered, every lookup finds what it found before the layer
/// was entered: nothing, where nothing of that kind had been provided.
pub proof fn lemma_provided_until_left<S>(
    below: Seq<(SystemId, S)>,
    kind: SystemId,
    system: S,
    above: Seq<(SystemId, S)>,
)
    requires
        forall|i: int| 0 <= i < above.len() ==> (#[trigger] above[i]).0 != kind,
    ensures
        visible(below.push((kind, system)) + above, kind) == Some(system),
        (below.push((kind, system)) + above).take(below.len() as int) == below,
        forall|any: SystemId|
            visible(
                #[trigger] (below.push((kind, system)) + above).take(below.len() as int),
                any,
            ) == visible(below, any),
{
    let provided = below.push((kind, system));
    lemma_visible_above(provided, above, kind);
    assert(provided.last() == (kind, system));
    assert((provided + above).take(below.len() as int) =~= below);
}

/// Read access to the systems that the layers below have provided.
pub trait LayerSystemProvider<S> {
    /// The provided systems with their kinds, the oldest first.
    spec fn entries(&self) -> Seq<(SystemId, S)>;

    /// The system of the given kind that was provided last, if there is one.
    fn query(&self, kind: SystemId) -> (found: Option<&S>)
        ensures
            found == match visible(self.entries(), kind) {
                Some(system) => Some(&system),
                None => None,
            },
    ;

    /// Mutable access to the system of the given kind that was provided last,
    /// if there is one. Nothing but that system can change.
    fn query_mut(&mut self, kind: SystemId) -> (found: Option<&mut S>)
        ensures
            match visible_index(old(self).entries(), kind) {
                Some(i) => found.is_some() && *found.unwrap() == old(self).entries()[i].1
                    && final(self).entries() == old(self).entries().update(
                    i,
                    (kind, *final(found.unwrap())),
                ),
                None => found.is_none() && final(self).entries() == old(self).entries(),
            },
    ;
}

/// The right to provide systems to the layers above.
pub trait LayerSystemManager<S>: LayerSystemProvider<S> {
    /// Provides `system` under `kind` to every layer that is entered from now
    /// on. It hides an older system of the same kind for as long as it stays.
    fn provide_system(&mut self, kind: SystemId, system: S)
        ensures
            final(self).entries() == old(self).entries().push((kind, system)),
    ;
}

/// The stack of systems of one traversal.
///
/// Its view is the sequence of the provided systems with their kinds, the
/// oldest first.
pub struct PlutoLayerSystemProxy<S> {
    systems: Vec<(SystemId, S)>,
}

impl<S> View for PlutoLayerSystemProxy<S> {
    type V = Seq<(SystemId, S)>;

    closed spec fn view(&self) -> Seq<(SystemId, S)> {
        self.systems@
    }
}

impl<S> PlutoLayerSystemProxy<S> {
    /// A stack that holds no system. A traversal makes the stack that its
    /// layers share; a layer cannot put another in its place.
    pub(crate) fn new() -> (proxy: Self)
        ensures
            proxy@ == Seq::<(SystemId, S)>::empty(),
    {
        Self { systems: Vec::new() }
    }

    /// How many systems are provided at the moment.
    pub fn depth(&self) -> (depth: usize)
        ensures
            depth == self@.len(),
    {
        self.systems.len()
    }

    /// Takes off every system that was provided after the stack had the depth
    /// `mark`. A stack that is not deeper than `mark` stays as it is.
    ///
    /// Only a traversal unwinds its stack; a layer cannot take off what the
    /// layers below it have provided.
    pub(crate) fn unwind_to(&mut self, mark: usize)
        ensures
            final(self)@ == if mark <= old(self)@.len() {
                old(self)@.take(mark as int)
            } else {
                old(self)@
            },
    {
        if mark <= self.systems.len() {
            self.systems.truncate(mark);
        }
    }

    /// The position of the system that a lookup of `kind` finds.
    fn find_visible(&self, kind: SystemId) -> (found: Option<usize>)
        ensures
            match found {
                Some(i) => i < self@.len() && visible_index(self@, kind) == Some(i as int),
                None => visible_index(self@, kind).is_none(),
            },
    {
        let mut i: usize = self.systems.len();
        while i > 0
            invariant
                i <= self.systems.len(),
                forall|j: int| i <= j < self@.len() ==> (#[trigger] self@[j]).0 != kind,
            decreases i,
        {
            i = i - 1;
            if self.systems[i].0 == kind {
                proof {
                    lemma_visible_index(self@, kind);
                }
                return Some(i);
            }
        }
        proof {
            lemma_visible_index(self@, kind);
        }
        None
    }
}

impl<S> LayerSystemProvider<S> for PlutoLayerSystemProxy<S> {
    open spec fn entries(&self) -> Seq<(SystemId, S)> {
        self@
    }

    fn query(&self, kind: SystemId) -> (found: Option<&S>) {
        match self.find_visible(kind) {
            Some(i) => Some(&self.systems[i].1),
            None => None,
        }
    }

    fn query_mut(&mut self, kind: SystemId) -> (found: Option<&mut S>) {
        proof {
            lemma_visible_index(self@, kind);
        }
        match self.find_visible(kind) {
            Some(i) => {
                let entry = &mut self.systems[i];
                Some(&mut entry.1)
            },
            None => None,
        }
    }
}

impl<S> LayerSystemManager<S> for PlutoLayerSystemProxy<S> {
    fn provide_system(&mut self, kind: SystemId, system: S) {
        self.systems.push((kind, system));
    }
}

} // verus!
