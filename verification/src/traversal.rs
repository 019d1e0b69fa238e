//! The course of one traversal of the attached layers.
//!
//! The layers are entered from the bottom up, for as long as each entered
//! layer lets the traversal go on, and those that were entered are left
//! again from the top down. When a layer is entered, the depth of the stack
//! of systems is noted; when it is left, the stack is unwound to that depth.

use crate::system::{PlutoLayerSystemProxy, SystemId};
use crate::traversal_chain::LayerId;
use vstd::prelude::*;

verus! {

/// What a traversal does next.
#[derive(Copy, Clone, Debug, PartialEq, Eq, Structural)]
pub enum TraversalStep {
    /// The layer with this identifier is entered.
    Enter(LayerId),
    /// The layer with this identifier is left. Once it is, the stack of
    /// systems is unwound to the given depth, which it had when the layer was
    /// entered.
    Leave(LayerId, usize),
    /// Every layer that was entered has been left.
    Done,
}

/// The entered layers of `order` that are left once the traversal has turned
/// back, each with the depth from `marks` that was noted for it: the layer
/// that was entered last is left first.
pub open spec fn leaves(order: Seq<LayerId>, marks: Seq<usize>) -> Seq<TraversalStep>
    decreases marks.len(),
{
    if marks.len() == 0 || marks.len() > order.len() {
        Seq::empty()
    } else {
        seq![TraversalStep::Leave(order[marks.len() - 1], marks.last())] + leaves(
            order,
            marks.drop_last(),
        )
    }
}

/// The state of a traversal: the order of the layers, the stack of systems
/// that the entered layers share, the depths of that stack that were noted
/// for the layers that are entered and not yet left, and the direction.
pub struct LayerTraversal<S> {
    order: Vec<LayerId>,
    marks: Vec<usize>,
    ascending: bool,
    leaving: Option<usize>,
    systems: PlutoLayerSystemProxy<S>,
}

impl<S> LayerTraversal<S> {
    /// The order in which the layers are entered.
    pub closed spec fn order(&self) -> Seq<LayerId> {
        self.order@
    }

    /// The depths of the stack of systems that were noted when the layers
    /// were entered that have not been left yet, the lowest layer first.
    pub closed spec fn marks(&self) -> Seq<usize> {
        self.marks@
    }

    /// Whether the traversal is on its way up.
    pub closed spec fn ascending(&self) -> bool {
        self.ascending
    }

    /// The depth that was noted for the layer that is being left, where one
    /// is: the stack is unwound to it before the next step is taken.
    pub closed spec fn leaving(&self) -> Option<usize> {
        self.leaving
    }

    /// The systems that the stack holds, the oldest first.
    pub closed spec fn stack(&self) -> Seq<(SystemId, S)> {
        self.systems@
    }

    /// The stack of systems as the next step finds it: unwound to the depth
    /// that was noted for the layer that is being left, where one is.
    pub open spec fn unwound(&self) -> Seq<(SystemId, S)> {
        match self.leaving() {
            Some(mark) if mark <= self.stack().len() => self.stack().take(mark as int),
            _ => self.stack(),
        }
    }

    /// No more layers are entered than there are.
    pub open spec fn wf(&self) -> bool {
        self.marks().len() <= self.order().len()
    }

    /// The traversal began on an empty stack: the depth that was noted for
    /// the lowest layer is zero, and where no layer is entered, the stack is
    /// empty or is unwound to nothing by the next step.
    pub open spec fn grounded(&self) -> bool {
        if self.marks().len() > 0 {
            self.marks()[0] == 0
        } else {
            match self.leaving() {
                Some(mark) => mark == 0,
                None => self.stack().len() == 0,
            }
        }
    }

    /// The traversal has not begun: no layer is entered, and the stack holds
    /// no system.
    pub open spec fn fresh(&self) -> bool {
        &&& self.ascending()
        &&& self.marks().len() == 0
        &&& self.leaving() is None
        &&& self.stack().len() == 0
    }

    /// The traversal is over: it has turned back, every layer that was
    /// entered has been left, and the stack holds no system.
    pub open spec fn finished(&self) -> bool {
        &&& !self.ascending()
        &&& self.marks().len() == 0
        &&& self.leaving() is None
        &&& self.stack().len() == 0
    }

    /// Whether the next step enters a layer, given whether the layer that was
    /// entered last asked for the traversal to go on: on the way up the
    /// lowest layer is entered in any case, and each further one if the one
    /// below it asked for it.
    pub open spec fn enters_next(&self, proceed: bool) -> bool {
        self.ascending() && self.marks().len() < self.order().len() && (self.marks().len() == 0
            || proceed)
    }

    /// A bound on the number of steps that the traversal has yet to take.
    pub open spec fn steps_left(&self) -> nat {
        if self.ascending() {
            (2 * self.order().len() - self.marks().len() + 1) as nat
        } else {
            self.marks().len()
        }
    }

    /// A traversal of `order` that has not entered any layer yet, with a
    /// stack that holds no system.
    pub fn new(order: Vec<LayerId>) -> (traversal: Self)
        ensures
            traversal.wf(),
            traversal.order() == order@,
            traversal.marks() == Seq::<usize>::empty(),
            traversal.ascending(),
            traversal.leaving() is None,
            traversal.stack() == Seq::<(SystemId, S)>::empty(),
            traversal.fresh(),
            traversal.grounded(),
    {
        Self {
            order,
            marks: Vec::new(),
            ascending: true,
            leaving: None,
            systems: PlutoLayerSystemProxy::new(),
        }
    }

    /// The stack of systems, as the layer that is left is handed it.
    pub fn systems(&self) -> (systems: &PlutoLayerSystemProxy<S>)
        ensures
            systems@ == self.stack(),
    {
        &self.systems
    }

    /// The stack of systems, as the layer that is entered is handed it.
    /// Nothing of the traversal but its stack changes by what is done with
    /// it.
    pub fn systems_mut(&mut self) -> (systems: &mut PlutoLayerSystemProxy<S>)
        ensures
            systems@ == old(self).stack(),
            final(self).stack() == final(systems)@,
            final(self).order() == old(self).order(),
            final(self).marks() == old(self).marks(),
            final(self).ascending() == old(self).ascending(),
            final(self).leaving() == old(self).leaving(),
            old(self).grounded() && (old(self).marks().len() > 0 || old(self).leaving() is Some)
                ==> final(self).grounded(),
    {
        &mut self.systems
    }

    /// How many layers stand above the one that was entered last.
    pub fn layers_above(&self) -> (above: usize)
        requires
            self.wf(),
        ensures
            above == self.order().len() - self.marks().len(),
    {
        self.order.len() - self.marks.len()
    }

    /// Takes the next step of the traversal.
    ///
    /// `proceed` says whether the layer that was entered last asked for the
    /// traversal to go on. First the stack of systems is unwound to the depth
    /// that was noted for the layer that was left by the last step, if one
    /// was, so that all is taken off that was provided since that layer was
    /// entered. Then, on the way up, the next layer is entered, and the depth
    /// of the stack is noted for it. When no layer is left to enter, or the
    /// last one did not ask to go on, the traversal turns back for good: from
    /// then on the layer that was entered last and is not yet left is left,
    /// until none remains. A traversal that began on an empty stack is done
    /// on an empty stack.
    pub fn advance(&mut self, proceed: bool) -> (step: TraversalStep)
        requires
            old(self).wf(),
        ensures
            final(self).wf(),
            final(self).order() == old(self).order(),
            final(self).stack() == old(self).unwound(),
            if old(self).enters_next(proceed) {
                &&& step == TraversalStep::Enter(old(self).order()[old(self).marks().len() as int])
                &&& final(self).marks() == old(self).marks().push(
                    old(self).unwound().len() as usize,
                )
                &&& final(self).ascending()
                &&& final(self).leaving() is None
            } else if old(self).marks().len() > 0 {
                &&& step == TraversalStep::Leave(
                    old(self).order()[old(self).marks().len() - 1],
                    old(self).marks().last(),
                )
                &&& final(self).marks() == old(self).marks().drop_last()
                &&& !final(self).ascending()
                &&& final(self).leaving() == Some(old(self).marks().last())
            } else {
                &&& step == TraversalStep::Done
                &&& final(self).marks() == old(self).marks()
                &&& !final(self).ascending()
                &&& final(self).leaving() is None
            },
            !old(self).enters_next(proceed) && old(self).marks().len() > 0 ==> leaves(
                old(self).order(),
                old(self).marks(),
            ) == seq![step] + leaves(final(self).order(), final(self).marks()),
            step != TraversalStep::Done ==> final(self).steps_left() < old(self).steps_left(),
            old(self).grounded() ==> final(self).grounded(),
            old(self).grounded() && step == TraversalStep::Done ==> final(self).finished(),
    {
        match self.leaving.take() {
            Some(mark) => {
                self.systems.unwind_to(mark);
            },
            None => {},
        }
        let entered = self.marks.len();
        if self.ascending && entered < self.order.len() && (entered == 0 || proceed) {
            let depth = self.systems.depth();
            self.marks.push(depth);
            return TraversalStep::Enter(self.order[entered]);
        }
        self.ascending = false;
        match self.marks.pop() {
            Some(mark) => {
                self.leaving = Some(mark);
                TraversalStep::Leave(self.order[entered - 1], mark)
            },
            None => TraversalStep::Done,
        }
    }
}

/// Once a traversal has turned back, the layers that were entered are left
/// in the reverse of the order in which they were entered, each with the
/// depth that was noted when it was entered.
pub proof fn lemma_leaves(order: Seq<LayerId>, marks: Seq<usize>)
    requires
        marks.len() <= order.len(),
    ensures
        leaves(order, marks).len() == marks.len(),
        forall|i: int|
            0 <= i < marks.len() ==> #[trigger] leaves(order, marks)[i] == TraversalStep::Leave(
                order[marks.len() - 1 - i],
                marks[marks.len() - 1 - i],
            ),
    decreases marks.len(),
{
    if marks.len() > 0 {
        let rest = marks.drop_last();
        lemma_leaves(order, rest);
        assert forall|i: int| 0 <= i < marks.len() implies #[trigger] leaves(order, marks)[i]
            == TraversalStep::Leave(order[marks.len() - 1 - i], marks[marks.len() - 1 - i]) by {
            if i > 0 {
                assert(leaves(order, marks)[i] == leaves(order, rest)[i - 1]);
                assert(rest[rest.len() - 1 - (i - 1)] == marks[marks.len() - 1 - i]);
            }
        }
    }
}

} // verus!
