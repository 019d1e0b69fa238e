//! Layers: the units that a layer manager attaches, traverses and detaches.

use crate::dependency::LayerDependencyDeclaration;
use crate::system::PlutoLayerSystemProxy;
use vstd::prelude::*;

verus! {

/// Identifies the concrete type of a layer. Dependencies between layers are
/// declared by kind.
pub type LayerKind = u64;

/// How deep layers may create each other as dependencies while one of them
/// is being attached.
pub const MAX_ATTACH_DEPTH: usize = 64;

/// A strategy for swapping layers: how a layer is polled until it has been
/// attached or detached.
#[derive(Copy, Clone, Debug, PartialEq, Eq, Structural)]
pub enum LayerSwapType {
    /// The swap is polled to completion at once, in one iteration.
    ///
    /// This is the default strategy.
    Synchronous,
    /// The swap is polled once per iteration; the layer decides when it is
    /// done.
    Deferred,
}

impl Default for LayerSwapType {
    fn default() -> (strategy: Self)
        ensures
            strategy == LayerSwapType::Synchronous,
    {
        LayerSwapType::Synchronous
    }
}

/// Why a layer could not be attached.
#[derive(Copy, Clone, Debug, PartialEq, Eq, Structural)]
pub enum LayerError {
    /// A layer of this kind was required and none is attached.
    MissingDependency(LayerKind),
    /// A layer of this kind was to be created while one of that kind is
    /// itself being attached.
    CyclicDependency(LayerKind),
    /// The supplier of a dependency made a layer of another kind than the one
    /// it was asked for.
    KindMismatch { expected: LayerKind, found: LayerKind },
    /// Dependencies created each other deeper than [`MAX_ATTACH_DEPTH`].
    DependencyTooDeep,
    /// Every layer identifier has been given out.
    IdsExhausted,
}

/// What to do with a layer that has just been polled.
#[derive(Copy, Clone, Debug, PartialEq, Eq, Structural)]
pub enum PollStep {
    /// The swap is complete.
    Completed,
    /// Poll again at once.
    Retry,
    /// Leave the layer where it is and poll it again in the next iteration.
    Wait,
}

/// The handle with which a layer that is being entered lets the traversal go
/// on to the layer above it.
pub trait LayerWalker {
    /// Whether the traversal goes on.
    spec fn proceeds(&self) -> bool;

    /// Lets the traversal go on to the next layer once the layer that is being
    /// entered returns.
    fn next(&mut self)
        ensures
            final(self).proceeds(),
    ;
}

/// The walker of a [`crate::manager::PlutoLayerManager`]. A layer that never
/// calls [`LayerWalker::next`] on it ends the upward pass of this iteration:
/// the layers above it are not entered.
pub struct PlutoLayerWalker {
    proceed: bool,
    remaining: usize,
}

impl PlutoLayerWalker {
    /// A walker for a layer above which `remaining` layers wait; it does not
    /// proceed until asked to.
    pub fn new(remaining: usize) -> (walker: Self)
        ensures
            !walker.proceeds(),
            walker.layers_above() == remaining,
    {
        Self { proceed: false, remaining }
    }

    /// How many layers stand above the one that is being entered.
    pub closed spec fn layers_above(&self) -> usize {
        self.remaining
    }

    /// Whether the walker was asked to proceed.
    pub closed spec fn asked_to_proceed(&self) -> bool {
        self.proceed
    }

    /// How many layers stand above the one that is being entered.
    pub fn remaining(&self) -> (remaining: usize)
        ensures
            remaining == self.layers_above(),
    {
        self.remaining
    }

    /// Whether the layer that was entered asked for the traversal to go on.
    pub fn should_proceed(&self) -> (proceed: bool)
        ensures
            proceed == self.proceeds(),
    {
        self.proceed
    }
}

impl LayerWalker for PlutoLayerWalker {
    open spec fn proceeds(&self) -> bool {
        self.asked_to_proceed()
    }

    fn next(&mut self)
        ensures
            final(self).layers_above() == old(self).layers_above(),
    {
        self.proceed = true;
        assert(self.proceeds());
    }
}

/// A unit of behaviour that a layer manager attaches, traverses once per
/// iteration, and detaches when the layer asks for it.
///
/// An implementation owes the manager three things, stated in the contracts
/// below: `kind` and `should_detach` answer from the layer's state alone; a
/// poll that is not ready brings the layer closer to being ready; and
/// `on_attach` leaves every layer in place that was attached before it ran.
/// Nothing else is taken for granted of a layer: what the manager
/// guarantees, it guarantees whatever the callbacks do.
///
/// A layer may say more of itself: that it declares nothing when it is
/// attached, and that it lets every traversal pass, as the callbacks do that
/// are given here. The manager then says more in turn: such a layer is
/// attached whenever an identifier is left for it, and a traversal that
/// reaches it goes on to the layer above.
///
/// The specification functions say what `kind` and `should_detach` answer,
/// how far the layer is from being ready, and what the layer says of itself.
/// A layer that is verified defines them; they have bodies here so that a
/// layer that is not need not name them.
pub trait Layer: Sized {
    /// What the layers of this family provide to each other as systems.
    type System;

    /// The kind of this layer.
    open spec fn layer_kind(&self) -> LayerKind {
        arbitrary()
    }

    /// The strategy with which this layer wants to be detached, if it wants
    /// to be.
    open spec fn detach_intent(&self) -> Option<LayerSwapType> {
        arbitrary()
    }

    /// A bound on how often `poll_attach` can still answer that the layer is
    /// not ready.
    open spec fn attach_effort(&self) -> nat {
        0
    }

    /// A bound on how often `poll_detach` can still answer that the layer is
    /// not ready.
    open spec fn detach_effort(&self) -> nat {
        0
    }

    /// Whether this layer declares no dependencies: its `on_attach` succeeds
    /// and leaves the attached layers as they are, as the one that is given
    /// here does. Such a layer is attached whenever it is added and an
    /// identifier is left for it.
    open spec fn declares_nothing(&self) -> bool {
        false
    }

    /// Whether this layer lets every traversal pass: its `on_enter` asks the
    /// walker to go on, as the one that is given here does.
    open spec fn passes_on(&self) -> bool {
        false
    }

    /// The kind of this layer, by which other layers name it as a dependency.
    fn kind(&self) -> (kind: LayerKind)
        ensures
            kind == self.layer_kind(),
    ;

    /// Returns a swap strategy if the layer should be detached, and `None` if
    /// it should stay.
    fn should_detach(&self) -> (intent: Option<LayerSwapType>)
        ensures
            intent == self.detach_intent(),
    ;

    /// Called once, before the layer is attached. The layer declares here
    /// which other layers it depends on. An error keeps the layer from being
    /// attached.
    ///
    /// Unless a layer says otherwise, it declares nothing and succeeds.
    ///
    /// The layer is handed the declaration as it stands when the layer is
    /// added, but that the kind of the layer is noted as the innermost that
    /// is being attached and that no declaration has failed.
    fn on_attach(&mut self, dependencies: &mut LayerDependencyDeclaration<Self>) -> (outcome:
        Result<(), LayerError>)
        requires
            old(dependencies).wf(),
            old(dependencies).attaching().len() > 0,
            old(dependencies).attaching().last() == old(self).layer_kind(),
            old(dependencies).failure() is None,
        ensures
            final(dependencies).wf(),
            final(dependencies).extends(old(dependencies)),
            old(self).declares_nothing() ==> outcome is Ok && final(dependencies).unchanged(
                old(dependencies),
            ),
    {
        Ok(())
    }

    /// Called once, when the layer has been taken out of the traversal and
    /// before it is polled for its detachment.
    fn on_detach(&mut self) {
    }

    /// Polls the layer until it is ready to be attached.
    ///
    /// Returns `true` if the layer is ready. After `false` the layer is polled
    /// again, at once or in the next iteration, as its swap strategy says.
    fn poll_attach(&mut self) -> (ready: bool)
        ensures
            !ready ==> final(self).attach_effort() < old(self).attach_effort(),
    {
        true
    }

    /// Polls the layer until it is ready to be dropped.
    ///
    /// Returns `true` if the layer is ready. After `false` the layer is polled
    /// again, at once or in the next iteration, as its swap strategy says.
    fn poll_detach(&mut self) -> (ready: bool)
        ensures
            !ready ==> final(self).detach_effort() < old(self).detach_effort(),
    {
        true
    }

    /// Called when the traversal reaches the layer on its way up.
    ///
    /// `systems` holds what the layers below have provided, and takes what
    /// this layer provides to the layers above; all that this layer provides
    /// is taken off again when the traversal has left it. The traversal goes
    /// on to the layer above only if `next` is told so.
    ///
    /// Unless a layer says otherwise, it lets the traversal pass.
    fn on_enter(
        &mut self,
        systems: &mut PlutoLayerSystemProxy<Self::System>,
        next: &mut PlutoLayerWalker,
    )
        ensures
            old(self).passes_on() ==> final(next).proceeds(),
    {
        next.next();
    }

    /// Called when the traversal passes the layer on its way down.
    ///
    /// `systems` holds what the layers below and this layer have provided.
    fn on_leave(&mut self, systems: &PlutoLayerSystemProxy<Self::System>) {
    }
}

/// The kind of [`ZombieLayer`].
pub const ZOMBIE_LAYER_KIND: LayerKind = 0;

/// A layer that does nothing: it is attached at once, lets every traversal
/// pass, and never asks to be detached.
pub struct ZombieLayer;

impl Layer for ZombieLayer {
    type System = ();

    open spec fn layer_kind(&self) -> LayerKind {
        ZOMBIE_LAYER_KIND
    }

    open spec fn detach_intent(&self) -> Option<LayerSwapType> {
        None
    }

    open spec fn declares_nothing(&self) -> bool {
        true
    }

    open spec fn passes_on(&self) -> bool {
        true
    }

    fn kind(&self) -> (kind: LayerKind) {
        ZOMBIE_LAYER_KIND
    }

    fn should_detach(&self) -> (intent: Option<LayerSwapType>) {
        None
    }
}

/// The iteration, counted from one, in which a swap under `strategy` is
/// complete when the layer answers its polls with `answers`, the first poll
/// first; `None` where the answers end before the swap is complete.
pub open spec fn completes_in(strategy: LayerSwapType, answers: Seq<bool>) -> Option<nat>
    decreases answers.len(),
{
    if answers.len() == 0 {
        None
    } else {
        match strategy.step_after(answers[0]) {
            PollStep::Completed => Some(1),
            PollStep::Retry => completes_in(strategy, answers.drop_first()),
            PollStep::Wait => match completes_in(strategy, answers.drop_first()) {
                Some(n) => Some(n + 1),
                None => None,
            },
        }
    }
}

/// A layer that answers `n` polls with `false` and the next one with `true`
/// has completed its swap in iteration `n + 1` under the deferred strategy,
/// and not before; under the synchronous strategy it has in the first
/// iteration.
pub proof fn lemma_completes_in(answers: Seq<bool>, n: nat)
    requires
        n < answers.len(),
        forall|i: int| 0 <= i < n ==> !answers[i],
        answers[n as int],
    ensures
        completes_in(LayerSwapType::Deferred, answers) == Some(n + 1),
        completes_in(LayerSwapType::Synchronous, answers) == Some(1nat),
    decreases n,
{
    if n > 0 {
        let rest = answers.drop_first();
        assert(!answers[0]);
        assert forall|i: int| 0 <= i < n - 1 implies !rest[i] by {
            assert(rest[i] == answers[i + 1]);
        }
        assert(rest[n - 1] == answers[n as int]);
        lemma_completes_in(rest, (n - 1) as nat);
    }
}

impl LayerSwapType {
    /// What follows a poll that answered `ready`: a ready layer is done, and
    /// one that is not is polled again, at once under the synchronous
    /// strategy and in the next iteration under the deferred one.
    pub fn after_poll(&self, ready: bool) -> (step: PollStep)
        ensures
            step == self.step_after(ready),
    {
        if ready {
            PollStep::Completed
        } else {
            match self {
                LayerSwapType::Synchronous => PollStep::Retry,
                LayerSwapType::Deferred => PollStep::Wait,
            }
        }
    }

    /// What follows a poll that answered `ready`.
    pub open spec fn step_after(&self, ready: bool) -> PollStep {
        if ready {
            PollStep::Completed
        } else if *self == LayerSwapType::Synchronous {
            PollStep::Retry
        } else {
            PollStep::Wait
        }
    }

    /// Runs the strategy to attach a layer: polls it once, and again for as
    /// long as the strategy asks for it.
    ///
    /// Returns `true` if the layer is attached now. The synchronous strategy
    /// always returns `true`; the deferred one polls once and returns what the
    /// layer answered.
    pub fn poll_attach<L: Layer>(&self, layer: &mut L) -> (completed: bool)
        ensures
            *self == LayerSwapType::Synchronous ==> completed,
            !completed ==> final(layer).attach_effort() < old(layer).attach_effort(),
    {
        loop
            invariant
                layer.attach_effort() <= old(layer).attach_effort(),
            decreases layer.attach_effort(),
        {
            let ready = layer.poll_attach();
            match self.after_poll(ready) {
                PollStep::Completed => {
                    return true;
                },
                PollStep::Retry => {},
                PollStep::Wait => {
                    return false;
                },
            }
        }
    }

    /// Runs the strategy to detach a layer: polls it once, and again for as
    /// long as the strategy asks for it.
    ///
    /// Returns `true` if the layer can be dropped now. The synchronous
    /// strategy always returns `true`; the deferred one polls once and returns
    /// what the layer answered.
    pub fn poll_detach<L: Layer>(&self, layer: &mut L) -> (completed: bool)
        ensures
            *self == LayerSwapType::Synchronous ==> completed,
            !completed ==> final(layer).detach_effort() < old(layer).detach_effort(),
    {
        loop
            invariant
                layer.detach_effort() <= old(layer).detach_effort(),
            decreases layer.detach_effort(),
        {
            let ready = layer.poll_detach();
            match self.after_poll(ready) {
                PollStep::Completed => {
                    return true;
                },
                PollStep::Retry => {},
                PollStep::Wait => {
                    return false;
                },
            }
        }
    }
}

} // verus!
