use pluto_layers::dependency::{LayerDependencyDeclaration, LayerDependencyManager};
use pluto_layers::layer::{
    Layer, LayerError, LayerKind, LayerSwapType, LayerWalker, PlutoLayerWalker, PollStep,
    ZombieLayer, MAX_ATTACH_DEPTH, ZOMBIE_LAYER_KIND,
};
use pluto_layers::manager::{LayerManager, PlutoLayerManager};
use pluto_layers::system::{
    LayerSystemManager, LayerSystemProvider, PlutoLayerSystemProxy, SystemId,
};
use pluto_layers::traversal::{LayerTraversal, TraversalStep};
use std::cell::RefCell;
use std::rc::Rc;

type Log = Rc<RefCell<Vec<String>>>;

/// A layer that records what happens to it and behaves as it is told.
struct Probe {
    kind: LayerKind,
    log: Log,
    proceed: bool,
    attach_refusals: u32,
    detach_refusals: u32,
    detach_after: Option<u32>,
    detach_with: LayerSwapType,
    enter_count: u32,
    provides: Vec<(SystemId, u32)>,
    queries: Vec<SystemId>,
    requires: Vec<LayerKind>,
    creates: Vec<LayerKind>,
    created_kind_offset: u64,
    created_detach_after: Option<u32>,
    swallows_errors: bool,
    requires_last: Vec<LayerKind>,
}

impl Probe {
    fn new(kind: LayerKind, log: &Log) -> Self {
        Probe {
            kind,
            log: log.clone(),
            proceed: true,
            attach_refusals: 0,
            detach_refusals: 0,
            detach_after: None,
            detach_with: LayerSwapType::Synchronous,
            enter_count: 0,
            provides: Vec::new(),
            queries: Vec::new(),
            requires: Vec::new(),
            creates: Vec::new(),
            created_kind_offset: 0,
            created_detach_after: None,
            swallows_errors: false,
            requires_last: Vec::new(),
        }
    }

    fn note(&self, what: String) {
        self.log.borrow_mut().push(what);
    }
}

impl Layer for Probe {
    type System = u32;

    fn kind(&self) -> LayerKind {
        self.kind
    }

    fn should_detach(&self) -> Option<LayerSwapType> {
        match self.detach_after {
            Some(visits) if self.enter_count >= visits => Some(self.detach_with),
            _ => None,
        }
    }

    fn on_attach(
        &mut self,
        dependencies: &mut LayerDependencyDeclaration<Self>,
    ) -> Result<(), LayerError> {
        self.note(format!("attach {}", self.kind));
        if self.swallows_errors {
            for kind in self.requires.clone() {
                let _ = dependencies.required(kind);
            }
            for kind in self.creates.clone() {
                let log = self.log.clone();
                let made = kind + self.created_kind_offset;
                let _ = dependencies.or_create_mut(kind, move || Probe::new(made, &log));
            }
            return Ok(());
        }
        for kind in self.requires.clone() {
            dependencies.required(kind)?;
        }
        for kind in self.creates.clone() {
            let log = self.log.clone();
            let made = kind + self.created_kind_offset;
            let chained = self.chain_from(kind);
            let detach_after = self.created_detach_after;
            dependencies.or_create(kind, move || {
                let mut layer = Probe::new(made, &log);
                layer.creates = chained;
                layer.detach_after = detach_after;
                layer
            })?;
        }
        for kind in self.requires_last.clone() {
            dependencies.required(kind)?;
        }
        Ok(())
    }

    fn on_detach(&mut self) {
        self.note(format!("detach {}", self.kind));
    }

    fn poll_attach(&mut self) -> bool {
        self.note(format!("poll attach {}", self.kind));
        if self.attach_refusals == 0 {
            true
        } else {
            self.attach_refusals -= 1;
            false
        }
    }

    fn poll_detach(&mut self) -> bool {
        self.note(format!("poll detach {}", self.kind));
        if self.detach_refusals == 0 {
            true
        } else {
            self.detach_refusals -= 1;
            false
        }
    }

    fn on_enter(&mut self, systems: &mut PlutoLayerSystemProxy<u32>, next: &mut PlutoLayerWalker) {
        self.enter_count += 1;
        self.note(format!("enter {}", self.kind));
        for kind in self.queries.clone() {
            let seen = systems.query(kind).copied();
            self.note(format!("{} sees {:?} as {}", self.kind, seen, kind));
        }
        for (kind, value) in self.provides.clone() {
            systems.provide_system(kind, value);
        }
        if self.proceed {
            next.next();
        }
    }

    fn on_leave(&mut self, systems: &PlutoLayerSystemProxy<u32>) {
        self.note(format!("leave {}", self.kind));
        for kind in self.queries.clone() {
            let seen = systems.query(kind).copied();
            self.note(format!("{} leaves with {:?} as {}", self.kind, seen, kind));
        }
    }
}

impl Probe {
    /// The kinds that a layer created for `kind` creates in turn: layers of a
    /// kind above 1000 form a chain that ends at 2000.
    fn chain_from(&self, kind: LayerKind) -> Vec<LayerKind> {
        if kind >= 1000 && kind < 2000 && self.kind >= 1000 {
            vec![kind + 1]
        } else {
            Vec::new()
        }
    }
}

fn log() -> Log {
    Rc::new(RefCell::new(Vec::new()))
}

fn entries(log: &Log) -> Vec<String> {
    log.borrow().clone()
}

fn kinds_in_order(manager: &PlutoLayerManager<Probe>) -> Vec<LayerKind> {
    manager
        .traversal_chain()
        .ids()
        .into_iter()
        .map(|id| manager.get(id).unwrap().kind)
        .collect()
}

#[test]
fn new_manager_is_empty_and_finished() {
    let mut manager: PlutoLayerManager<Probe> = PlutoLayerManager::new();
    assert!(manager.is_empty());
    assert_eq!(manager.len(), 0);
    assert_eq!(manager.pending_len(), 0);
    assert_eq!(manager.detaching_len(), 0);
    assert!(manager.run());
}

#[test]
fn synchronous_layer_is_attached_when_add_returns() {
    let log = log();
    let mut manager = PlutoLayerManager::new();
    let mut layer = Probe::new(7, &log);
    layer.attach_refusals = 3;
    assert_eq!(manager.add_layer(layer), Ok(()));

    assert_eq!(manager.len(), 1);
    assert_eq!(manager.pending_len(), 0);
    assert!(manager.traversal_chain().contains(0));
    assert_eq!(manager.get(0).unwrap().id, 0);
    assert_eq!(manager.get(0).unwrap().kind, 7);
    assert_eq!(
        entries(&log),
        vec![
            "attach 7",
            "poll attach 7",
            "poll attach 7",
            "poll attach 7",
            "poll attach 7"
        ]
    );
}

#[test]
fn identifiers_grow_and_layers_stack_in_order_of_adding() {
    let log = log();
    let mut manager = PlutoLayerManager::new();
    assert_eq!(
        manager.add_layer_with(Probe::new(5, &log), LayerSwapType::Synchronous),
        Ok(0)
    );
    assert_eq!(
        manager.add_layer_with(Probe::new(3, &log), LayerSwapType::Synchronous),
        Ok(1)
    );
    assert_eq!(
        manager.add_layer_with(Probe::new(9, &log), LayerSwapType::Synchronous),
        Ok(2)
    );
    assert_eq!(manager.traversal_chain().ids(), vec![0, 1, 2]);
    assert_eq!(kinds_in_order(&manager), vec![5, 3, 9]);
}

#[test]
fn deferred_layer_is_attached_after_its_polls() {
    let log = log();
    let mut manager = PlutoLayerManager::new();
    let mut layer = Probe::new(4, &log);
    layer.attach_refusals = 2;
    assert_eq!(manager.add_layer_with(layer, LayerSwapType::Deferred), Ok(0));

    // The attach callback has run, but the layer has not been polled.
    assert_eq!(entries(&log), vec!["attach 4"]);
    assert_eq!(manager.len(), 0);
    assert_eq!(manager.pending_len(), 1);

    assert!(!manager.run());
    assert_eq!(manager.len(), 0);
    assert_eq!(manager.pending_len(), 1);

    assert!(!manager.run());
    assert_eq!(manager.len(), 0);
    assert_eq!(manager.pending_len(), 1);

    // The third poll is the first that answers `true`.
    assert!(!manager.run());
    assert_eq!(manager.len(), 1);
    assert_eq!(manager.pending_len(), 0);
    assert_eq!(manager.get(0).unwrap().kind, 4);
    assert_eq!(manager.traversal_chain().ids(), vec![0]);

    // The layer was not traversed while it waited.
    assert_eq!(
        entries(&log),
        vec!["attach 4", "poll attach 4", "poll attach 4", "poll attach 4"]
    );

    assert!(!manager.run());
    assert_eq!(
        entries(&log)[4..],
        vec!["enter 4".to_string(), "leave 4".to_string()]
    );
}

#[test]
fn deferred_layer_that_is_ready_is_attached_in_the_first_iteration() {
    let log = log();
    let mut manager = PlutoLayerManager::new();
    assert_eq!(
        manager.add_layer_with(Probe::new(4, &log), LayerSwapType::Deferred),
        Ok(0)
    );
    assert_eq!(manager.len(), 0);
    assert!(!manager.run());
    assert_eq!(manager.len(), 1);
    assert_eq!(manager.pending_len(), 0);
}

#[test]
fn deferred_layers_are_attached_in_the_order_of_adding() {
    let log = log();
    let mut manager = PlutoLayerManager::new();
    let mut slow = Probe::new(1, &log);
    slow.attach_refusals = 1;
    manager.add_layer_with(slow, LayerSwapType::Deferred).unwrap();
    manager
        .add_layer_with(Probe::new(2, &log), LayerSwapType::Deferred)
        .unwrap();
    manager
        .add_layer_with(Probe::new(3, &log), LayerSwapType::Deferred)
        .unwrap();

    assert!(!manager.run());
    assert_eq!(manager.traversal_chain().ids(), vec![1, 2]);
    assert_eq!(manager.pending_len(), 1);

    assert!(!manager.run());
    assert_eq!(manager.traversal_chain().ids(), vec![1, 2, 0]);
    assert_eq!(kinds_in_order(&manager), vec![2, 3, 1]);
    assert_eq!(manager.pending_len(), 0);
}

#[test]
fn detaching_layer_leaves_the_chain_at_once_and_is_dropped_after_its_polls() {
    let log = log();
    let mut manager = PlutoLayerManager::new();
    let mut layer = Probe::new(6, &log);
    layer.detach_after = Some(1);
    layer.detach_with = LayerSwapType::Deferred;
    layer.detach_refusals = 2;
    manager.add_layer(layer).unwrap();
    manager.add_layer(Probe::new(8, &log)).unwrap();

    assert!(!manager.run());
    // Decided and removed in the same iteration, and polled once.
    assert_eq!(manager.traversal_chain().ids(), vec![1]);
    assert!(manager.get(0).is_none());
    assert_eq!(manager.detaching_len(), 1);

    assert!(!manager.run());
    assert_eq!(manager.detaching_len(), 1);

    assert!(!manager.run());
    assert_eq!(manager.detaching_len(), 0);

    let polls = entries(&log)
        .iter()
        .filter(|entry| entry.as_str() == "poll detach 6")
        .count();
    assert_eq!(polls, 3);
    let detaches = entries(&log)
        .iter()
        .filter(|entry| entry.as_str() == "detach 6")
        .count();
    assert_eq!(detaches, 1);
}

#[test]
fn synchronous_detach_is_polled_to_completion_in_one_iteration() {
    let log = log();
    let mut manager = PlutoLayerManager::new();
    let mut layer = Probe::new(6, &log);
    layer.detach_after = Some(2);
    layer.detach_refusals = 2;
    manager.add_layer(layer).unwrap();

    assert!(!manager.run());
    assert_eq!(manager.len(), 1);
    assert!(manager.run());
    assert_eq!(manager.len(), 0);
    assert_eq!(manager.detaching_len(), 0);
    assert_eq!(
        entries(&log),
        vec![
            "attach 6",
            "poll attach 6",
            "enter 6",
            "leave 6",
            "enter 6",
            "leave 6",
            "detach 6",
            "poll detach 6",
            "poll detach 6",
            "poll detach 6"
        ]
    );
}

#[test]
fn layers_are_entered_upwards_and_left_downwards() {
    let log = log();
    let mut manager = PlutoLayerManager::new();
    for kind in [1, 2, 3] {
        manager.add_layer(Probe::new(kind, &log)).unwrap();
    }
    log.borrow_mut().clear();

    assert!(!manager.run());
    assert_eq!(
        entries(&log),
        vec!["enter 1", "enter 2", "enter 3", "leave 3", "leave 2", "leave 1"]
    );
}

#[test]
fn layer_that_does_not_proceed_ends_the_upward_pass() {
    let log = log();
    let mut manager = PlutoLayerManager::new();
    manager.add_layer(Probe::new(1, &log)).unwrap();
    let mut stop = Probe::new(2, &log);
    stop.proceed = false;
    manager.add_layer(stop).unwrap();
    manager.add_layer(Probe::new(3, &log)).unwrap();
    log.borrow_mut().clear();

    assert!(!manager.run());
    assert_eq!(
        entries(&log),
        vec!["enter 1", "enter 2", "leave 2", "leave 1"]
    );
    // The layer that was not entered is still attached.
    assert_eq!(manager.len(), 3);
}

#[test]
fn provided_system_is_seen_above_and_gone_after_the_pass() {
    let log = log();
    let mut manager = PlutoLayerManager::new();
    let mut below = Probe::new(1, &log);
    below.queries = vec![40];
    let mut provider = Probe::new(2, &log);
    provider.queries = vec![40];
    provider.provides = vec![(40, 1234)];
    let mut above = Probe::new(3, &log);
    above.queries = vec![40];
    manager.add_layer(below).unwrap();
    manager.add_layer(provider).unwrap();
    manager.add_layer(above).unwrap();
    log.borrow_mut().clear();

    assert!(!manager.run());
    assert_eq!(
        entries(&log),
        vec![
            "enter 1",
            "1 sees None as 40",
            "enter 2",
            "2 sees None as 40",
            "enter 3",
            "3 sees Some(1234) as 40",
            "leave 3",
            "3 leaves with Some(1234) as 40",
            "leave 2",
            "2 leaves with Some(1234) as 40",
            "leave 1",
            "1 leaves with None as 40"
        ]
    );

    // The next pass starts without any system.
    log.borrow_mut().clear();
    assert!(!manager.run());
    assert_eq!(entries(&log)[1], "1 sees None as 40");
}

#[test]
fn later_system_of_a_kind_hides_the_earlier_one_until_its_layer_is_left() {
    let log = log();
    let mut manager = PlutoLayerManager::new();
    let mut first = Probe::new(1, &log);
    first.provides = vec![(40, 1)];
    first.queries = vec![40];
    let mut second = Probe::new(2, &log);
    second.provides = vec![(40, 2)];
    second.queries = vec![40];
    let mut third = Probe::new(3, &log);
    third.queries = vec![40];
    manager.add_layer(first).unwrap();
    manager.add_layer(second).unwrap();
    manager.add_layer(third).unwrap();
    log.borrow_mut().clear();

    assert!(!manager.run());
    assert_eq!(
        entries(&log),
        vec![
            "enter 1",
            "1 sees None as 40",
            "enter 2",
            "2 sees Some(1) as 40",
            "enter 3",
            "3 sees Some(2) as 40",
            "leave 3",
            "3 leaves with Some(2) as 40",
            "leave 2",
            "2 leaves with Some(2) as 40",
            "leave 1",
            "1 leaves with Some(1) as 40"
        ]
    );
}

#[test]
fn dependency_is_created_in_front_of_the_layer_that_asks() {
    let log = log();
    let mut manager = PlutoLayerManager::new();
    let mut layer = Probe::new(10, &log);
    layer.creates = vec![20];
    manager.add_layer(layer).unwrap();

    assert_eq!(manager.len(), 2);
    assert_eq!(kinds_in_order(&manager), vec![20, 10]);
    assert_eq!(manager.traversal_chain().ids(), vec![0, 1]);
    // The dependency was attached before the attach callback returned.
    assert_eq!(
        entries(&log),
        vec!["attach 10", "attach 20", "poll attach 20", "poll attach 10"]
    );
}

#[test]
fn dependency_is_created_once_for_two_layers() {
    let log = log();
    let mut manager = PlutoLayerManager::new();
    let mut first = Probe::new(10, &log);
    first.creates = vec![20];
    let mut second = Probe::new(30, &log);
    second.creates = vec![20];
    manager.add_layer(first).unwrap();
    manager.add_layer(second).unwrap();

    assert_eq!(manager.len(), 3);
    assert_eq!(kinds_in_order(&manager), vec![20, 10, 30]);
    let attaches = entries(&log)
        .iter()
        .filter(|entry| entry.as_str() == "attach 20")
        .count();
    assert_eq!(attaches, 1);
    assert_eq!(manager.dependencies().find_id_by_type(20), Some(0));
}

#[test]
fn required_dependency_that_is_attached_is_found() {
    let log = log();
    let mut manager = PlutoLayerManager::new();
    manager.add_layer(Probe::new(20, &log)).unwrap();
    let mut layer = Probe::new(10, &log);
    layer.requires = vec![20];
    assert_eq!(manager.add_layer(layer), Ok(()));
    assert_eq!(kinds_in_order(&manager), vec![20, 10]);
}

#[test]
fn missing_required_dependency_keeps_the_layer_out() {
    let log = log();
    let mut manager = PlutoLayerManager::new();
    manager.add_layer(Probe::new(1, &log)).unwrap();
    let mut layer = Probe::new(10, &log);
    layer.requires = vec![20];
    assert_eq!(
        manager.add_layer(layer),
        Err(LayerError::MissingDependency(20))
    );
    assert_eq!(manager.len(), 1);
    assert_eq!(kinds_in_order(&manager), vec![1]);
    assert_eq!(manager.pending_len(), 0);

    let mut deferred = Probe::new(11, &log);
    deferred.requires = vec![20];
    assert_eq!(
        manager.add_layer_with(deferred, LayerSwapType::Deferred),
        Err(LayerError::MissingDependency(20))
    );
    assert_eq!(manager.pending_len(), 0);
}

#[test]
fn supplier_of_another_kind_is_refused() {
    let log = log();
    let mut manager = PlutoLayerManager::new();
    let mut layer = Probe::new(10, &log);
    layer.creates = vec![20];
    layer.created_kind_offset = 1;
    assert_eq!(
        manager.add_layer(layer),
        Err(LayerError::KindMismatch {
            expected: 20,
            found: 21
        })
    );
    assert_eq!(manager.len(), 0);
}

#[test]
fn dependency_on_a_kind_that_is_being_attached_is_refused() {
    let log = log();
    let mut manager: PlutoLayerManager<Cycle> = PlutoLayerManager::new();
    assert_eq!(
        manager.add_layer(Cycle { kind: 1, log: log.clone() }),
        Err(LayerError::CyclicDependency(1))
    );
    assert_eq!(manager.len(), 0);
    assert_eq!(entries(&log), vec!["attach 1", "attach 2"]);
}

/// Two kinds of layers that each create the other.
struct Cycle {
    kind: LayerKind,
    log: Log,
}

impl Layer for Cycle {
    type System = ();

    fn kind(&self) -> LayerKind {
        self.kind
    }

    fn should_detach(&self) -> Option<LayerSwapType> {
        None
    }

    fn on_attach(
        &mut self,
        dependencies: &mut LayerDependencyDeclaration<Self>,
    ) -> Result<(), LayerError> {
        self.log.borrow_mut().push(format!("attach {}", self.kind));
        let other = 3 - self.kind;
        let log = self.log.clone();
        dependencies.or_create(other, move || Cycle { kind: other, log })?;
        Ok(())
    }
}

#[test]
fn dependencies_nest_as_deep_as_allowed() {
    let log = log();
    let mut manager = PlutoLayerManager::new();
    // The kinds 2000 - 63 ..= 2000 form a chain of 64 layers.
    let first = 2000 - (MAX_ATTACH_DEPTH as u64 - 1);
    let mut layer = Probe::new(first, &log);
    layer.creates = vec![first + 1];
    assert_eq!(manager.add_layer(layer), Ok(()));
    assert_eq!(manager.len(), MAX_ATTACH_DEPTH);
    // The innermost dependency is the lowest layer.
    assert_eq!(manager.get(0).unwrap().kind, 2000);
    assert_eq!(
        manager.get(MAX_ATTACH_DEPTH as u64 - 1).unwrap().kind,
        first
    );
}

#[test]
fn dependencies_that_nest_too_deep_are_refused() {
    let log = log();
    let mut manager = PlutoLayerManager::new();
    let first = 2000 - MAX_ATTACH_DEPTH as u64;
    let mut layer = Probe::new(first, &log);
    layer.creates = vec![first + 1];
    assert_eq!(manager.add_layer(layer), Err(LayerError::DependencyTooDeep));
    assert_eq!(manager.len(), 0);
}

#[test]
fn exhausted_identifiers_are_reported() {
    let log = log();
    let mut manager = PlutoLayerManager::with_first_id(u64::MAX - 1);
    assert_eq!(
        manager.add_layer_with(Probe::new(1, &log), LayerSwapType::Synchronous),
        Ok(u64::MAX - 1)
    );
    assert_eq!(
        manager.add_layer(Probe::new(2, &log)),
        Err(LayerError::IdsExhausted)
    );
    assert_eq!(
        manager.add_layer_with(Probe::new(3, &log), LayerSwapType::Deferred),
        Err(LayerError::IdsExhausted)
    );
    assert_eq!(manager.len(), 1);
    assert_eq!(manager.pending_len(), 0);
}

#[test]
fn detach_requests_are_collected_in_traversal_order() {
    let log = log();
    let mut manager = PlutoLayerManager::new();
    let mut first = Probe::new(1, &log);
    first.detach_after = Some(0);
    first.detach_with = LayerSwapType::Deferred;
    let second = Probe::new(2, &log);
    let mut third = Probe::new(3, &log);
    third.detach_after = Some(0);
    manager.add_layer(first).unwrap();
    manager.add_layer(second).unwrap();
    manager.add_layer(third).unwrap();

    let requests = manager.layers_to_detach();
    assert_eq!(
        requests,
        vec![(0, LayerSwapType::Deferred), (2, LayerSwapType::Synchronous)]
    );
    // Asking does not detach.
    assert_eq!(manager.len(), 3);

    manager.detach_layers(requests);
    assert_eq!(manager.traversal_chain().ids(), vec![1]);
    assert_eq!(manager.detaching_len(), 2);
    assert_eq!(
        entries(&log)[6..],
        vec!["detach 1".to_string(), "detach 3".to_string()]
    );

    manager.detach_poll();
    assert_eq!(manager.detaching_len(), 0);
}

#[test]
fn phases_of_an_iteration_can_be_run_one_by_one() {
    let log = log();
    let mut manager = PlutoLayerManager::new();
    manager.add_layer(Probe::new(1, &log)).unwrap();
    let mut waiting = Probe::new(2, &log);
    waiting.attach_refusals = 1;
    manager
        .add_layer_with(waiting, LayerSwapType::Deferred)
        .unwrap();
    log.borrow_mut().clear();

    assert_eq!(manager.traverse(), 1);
    assert_eq!(entries(&log), vec!["enter 1", "leave 1"]);
    manager.attach_poll();
    assert_eq!(manager.pending_len(), 1);
    assert_eq!(manager.len(), 1);
    manager.attach_poll();
    assert_eq!(manager.pending_len(), 0);
    assert_eq!(manager.traversal_chain().ids(), vec![0, 1]);
}

#[test]
fn swap_strategy_decides_what_follows_a_poll() {
    assert_eq!(LayerSwapType::default(), LayerSwapType::Synchronous);
    assert_eq!(
        LayerSwapType::Synchronous.after_poll(true),
        PollStep::Completed
    );
    assert_eq!(LayerSwapType::Synchronous.after_poll(false), PollStep::Retry);
    assert_eq!(LayerSwapType::Deferred.after_poll(true), PollStep::Completed);
    assert_eq!(LayerSwapType::Deferred.after_poll(false), PollStep::Wait);
}

#[test]
fn swap_strategy_polls_once_or_to_completion() {
    let log = log();
    let mut layer = Probe::new(1, &log);
    layer.attach_refusals = 2;
    layer.detach_refusals = 1;
    assert!(!LayerSwapType::Deferred.poll_attach(&mut layer));
    assert_eq!(layer.attach_refusals, 1);
    assert!(LayerSwapType::Synchronous.poll_attach(&mut layer));
    assert_eq!(layer.attach_refusals, 0);
    assert!(!LayerSwapType::Deferred.poll_detach(&mut layer));
    assert!(LayerSwapType::Deferred.poll_detach(&mut layer));
    assert!(LayerSwapType::Synchronous.poll_detach(&mut layer));
}

#[test]
fn walker_proceeds_only_when_asked() {
    let mut walker = PlutoLayerWalker::new(3);
    assert!(!walker.should_proceed());
    assert_eq!(walker.remaining(), 3);
    walker.next();
    assert!(walker.should_proceed());
    assert_eq!(walker.remaining(), 3);
}

#[test]
fn declaration_finds_layers_by_kind() {
    let log = log();
    let mut declaration: LayerDependencyDeclaration<Probe> = LayerDependencyDeclaration::new();
    assert_eq!(declaration.add_layer(Probe::new(5, &log)), Ok(0));
    assert_eq!(declaration.add_layer(Probe::new(6, &log)), Ok(1));
    assert_eq!(declaration.add_layer(Probe::new(5, &log)), Ok(2));
    assert_eq!(declaration.len(), 3);
    assert!(!declaration.is_empty());

    // The first layer of a kind in traversal order is found.
    assert_eq!(declaration.find_id_by_type(5), Some(0));
    assert_eq!(declaration.find_id_by_type(6), Some(1));
    assert_eq!(declaration.find_id_by_type(7), None);
    assert_eq!(declaration.find_by_type(6).unwrap().kind, 6);
    assert!(declaration.find_by_type(7).is_none());
    assert!(declaration.optional(7).is_none());
    assert_eq!(declaration.optional(5).unwrap().kind, 5);
    assert_eq!(declaration.required(6).map(|layer| layer.kind), Ok(6));
    assert_eq!(
        declaration.required(7).map(|layer| layer.kind),
        Err(LayerError::MissingDependency(7))
    );

    declaration.find_by_type_mut(5).unwrap().enter_count = 11;
    assert_eq!(declaration.get(0).unwrap().layer.enter_count, 11);
    assert_eq!(declaration.get(2).unwrap().layer.enter_count, 0);
    declaration.required_mut(6).unwrap().enter_count = 12;
    assert_eq!(declaration.get(1).unwrap().layer.enter_count, 12);
    assert_eq!(
        declaration.required_mut(7).map(|layer| layer.kind),
        Err(LayerError::MissingDependency(7))
    );
    declaration.optional_mut(5).unwrap().enter_count = 13;
    assert_eq!(declaration.get(0).unwrap().layer.enter_count, 13);
    assert!(declaration.optional_mut(7).is_none());
    declaration.get_mut(2).unwrap().enter_count = 14;
    assert_eq!(declaration.get(2).unwrap().layer.enter_count, 14);
    assert!(declaration.get_mut(3).is_none());
}

#[test]
fn or_create_returns_the_attached_layer_or_a_new_one() {
    let log = log();
    let mut declaration: LayerDependencyDeclaration<Probe> = LayerDependencyDeclaration::new();
    declaration.add_layer(Probe::new(5, &log)).unwrap();
    declaration.get_mut(0).unwrap().enter_count = 3;

    let found = declaration.or_create(5, || Probe::new(5, &log)).unwrap();
    assert_eq!(found.enter_count, 3);
    assert_eq!(declaration.len(), 1);

    let made = declaration.or_create(6, || Probe::new(6, &log)).unwrap();
    assert_eq!(made.kind, 6);
    assert_eq!(declaration.len(), 2);
    assert_eq!(declaration.traversal_chain().ids(), vec![0, 1]);

    declaration
        .or_create_mut(6, || Probe::new(6, &log))
        .unwrap()
        .enter_count = 9;
    assert_eq!(declaration.len(), 2);
    assert_eq!(declaration.get(1).unwrap().layer.enter_count, 9);

    declaration
        .or_create_mut(7, || Probe::new(7, &log))
        .unwrap()
        .enter_count = 8;
    assert_eq!(declaration.len(), 3);
    assert_eq!(declaration.get(2).unwrap().kind, 7);
    assert_eq!(declaration.get(2).unwrap().layer.enter_count, 8);

    assert_eq!(
        declaration
            .or_create_mut(8, || Probe::new(9, &log))
            .map(|layer| layer.kind),
        Err(LayerError::KindMismatch {
            expected: 8,
            found: 9
        })
    );
    assert_eq!(declaration.len(), 3);
}

#[test]
fn identifiers_are_given_out_once() {
    let mut declaration: LayerDependencyDeclaration<Probe> =
        LayerDependencyDeclaration::with_first_id(u64::MAX - 2);
    assert_eq!(declaration.create_id(), Ok(u64::MAX - 2));
    assert_eq!(declaration.create_id(), Ok(u64::MAX - 1));
    assert_eq!(declaration.create_id(), Err(LayerError::IdsExhausted));
    assert_eq!(declaration.create_id(), Err(LayerError::IdsExhausted));
}

/// One layer whose attach callback creates a dependency: two layers are
/// attached, the dependency first. The dependency leaves after its first
/// visit and the layer after its third; then the manager has finished.
#[test]
fn layer_with_dependency_runs_until_both_are_gone() {
    let log = log();
    let mut manager = PlutoLayerManager::new();
    let mut layer = Probe::new(1, &log);
    layer.creates = vec![2];
    layer.created_detach_after = Some(1);
    layer.detach_after = Some(3);
    manager.add_layer(layer).unwrap();

    assert_eq!(manager.len(), 2);
    assert_eq!(kinds_in_order(&manager), vec![2, 1]);
    assert_eq!(manager.traversal_chain().ids(), vec![0, 1]);

    let mut ticks = 0;
    loop {
        ticks += 1;
        if manager.run() {
            break;
        }
        assert!(ticks < 3);
        assert_eq!(kinds_in_order(&manager), vec![1]);
        assert_eq!(manager.get(1).unwrap().layer.enter_count, ticks);
    }
    assert_eq!(ticks, 3);
    assert!(manager.is_empty());
    assert_eq!(manager.len(), 0);
    assert_eq!(manager.detaching_len(), 0);
    assert_eq!(manager.traversal_chain().fwd_len(), 1);
    assert_eq!(
        entries(&log),
        vec![
            "attach 1",
            "attach 2",
            "poll attach 2",
            "poll attach 1",
            "enter 2",
            "enter 1",
            "leave 1",
            "leave 2",
            "detach 2",
            "poll detach 2",
            "enter 1",
            "leave 1",
            "enter 1",
            "leave 1",
            "detach 1",
            "poll detach 1"
        ]
    );
}

#[test]
fn zombie_layer_stays_attached() {
    let mut manager = PlutoLayerManager::new();
    assert_eq!(manager.add_layer(ZombieLayer), Ok(()));
    assert_eq!(manager.get(0).unwrap().kind, ZOMBIE_LAYER_KIND);
    for _ in 0..5 {
        assert!(!manager.run());
        assert_eq!(manager.len(), 1);
        assert_eq!(manager.detaching_len(), 0);
    }
}

#[test]
fn failed_declaration_keeps_the_layer_out_even_if_it_is_ignored() {
    let log = log();
    let mut manager = PlutoLayerManager::new();
    let mut layer = Probe::new(10, &log);
    layer.requires = vec![20, 30];
    layer.swallows_errors = true;
    // The first failure is the one that is reported.
    assert_eq!(
        manager.add_layer(layer),
        Err(LayerError::MissingDependency(20))
    );
    assert_eq!(manager.len(), 0);

    let mut layer = Probe::new(10, &log);
    layer.creates = vec![20];
    layer.created_kind_offset = 5;
    layer.swallows_errors = true;
    assert_eq!(
        manager.add_layer_with(layer, LayerSwapType::Deferred),
        Err(LayerError::KindMismatch {
            expected: 20,
            found: 25
        })
    );
    assert_eq!(manager.len(), 0);
    assert_eq!(manager.pending_len(), 0);

    // A failure of one layer does not stick to the next.
    assert_eq!(manager.add_layer(Probe::new(11, &log)), Ok(()));
    assert_eq!(manager.len(), 1);
}

#[test]
fn failure_of_a_dependency_fails_the_layer_that_asked_for_it() {
    let mut manager: PlutoLayerManager<Needy> = PlutoLayerManager::new();
    assert_eq!(
        manager.add_layer(Needy { kind: 1, asks: true }),
        Err(LayerError::MissingDependency(77))
    );
    assert_eq!(manager.len(), 0);
    assert!(manager.run());
}

/// A layer that creates a dependency which requires a layer that is missing,
/// and that ignores the failure of its dependency.
struct Needy {
    kind: LayerKind,
    asks: bool,
}

impl Layer for Needy {
    type System = ();

    fn kind(&self) -> LayerKind {
        self.kind
    }

    fn should_detach(&self) -> Option<LayerSwapType> {
        None
    }

    fn on_attach(
        &mut self,
        dependencies: &mut LayerDependencyDeclaration<Self>,
    ) -> Result<(), LayerError> {
        if self.asks {
            let _ = dependencies.or_create(2, || Needy { kind: 2, asks: false });
            Ok(())
        } else {
            dependencies.required(77).map(|_| ())
        }
    }
}

#[test]
fn traverse_counts_the_layers_that_it_enters() {
    let log = log();
    let mut manager: PlutoLayerManager<Probe> = PlutoLayerManager::new();
    assert_eq!(manager.traverse(), 0);

    manager.add_layer(Probe::new(1, &log)).unwrap();
    manager.add_layer(Probe::new(2, &log)).unwrap();
    let mut stop = Probe::new(3, &log);
    stop.proceed = false;
    manager.add_layer(stop).unwrap();
    manager.add_layer(Probe::new(4, &log)).unwrap();
    log.borrow_mut().clear();

    // The layer that does not proceed is the last that is entered.
    assert_eq!(manager.traverse(), 3);
    assert_eq!(
        entries(&log),
        vec!["enter 1", "enter 2", "enter 3", "leave 3", "leave 2", "leave 1"]
    );

    let mut zombies = PlutoLayerManager::new();
    for _ in 0..4 {
        zombies.add_layer(ZombieLayer).unwrap();
    }
    assert_eq!(zombies.traverse(), 4);
}

#[test]
fn lowest_layer_is_entered_even_if_it_does_not_proceed() {
    let log = log();
    let mut manager = PlutoLayerManager::new();
    let mut stop = Probe::new(1, &log);
    stop.proceed = false;
    manager.add_layer(stop).unwrap();
    manager.add_layer(Probe::new(2, &log)).unwrap();
    log.borrow_mut().clear();

    assert_eq!(manager.traverse(), 1);
    assert_eq!(entries(&log), vec!["enter 1", "leave 1"]);
}

#[test]
fn layer_that_declares_nothing_is_added_while_identifiers_last() {
    let mut manager = PlutoLayerManager::with_first_id(u64::MAX - 2);
    assert_eq!(
        manager.add_layer_with(ZombieLayer, LayerSwapType::Synchronous),
        Ok(u64::MAX - 2)
    );
    assert_eq!(
        manager.add_layer_with(ZombieLayer, LayerSwapType::Deferred),
        Ok(u64::MAX - 1)
    );
    assert_eq!(manager.add_layer(ZombieLayer), Err(LayerError::IdsExhausted));
    assert_eq!(
        manager.add_layer_with(ZombieLayer, LayerSwapType::Deferred),
        Err(LayerError::IdsExhausted)
    );
    assert_eq!(manager.len(), 1);
    assert_eq!(manager.pending_len(), 1);
    assert_eq!(manager.traversal_chain().ids(), vec![u64::MAX - 2]);
}

#[test]
fn failed_add_takes_out_the_dependencies_that_it_attached() {
    let log = log();
    let mut manager = PlutoLayerManager::new();
    manager.add_layer(Probe::new(1, &log)).unwrap();

    let mut layer = Probe::new(10, &log);
    layer.creates = vec![20, 21];
    layer.requires_last = vec![30];
    assert_eq!(
        manager.add_layer(layer),
        Err(LayerError::MissingDependency(30))
    );
    // The dependencies were attached and are gone again.
    assert_eq!(
        entries(&log)[2..],
        vec![
            "attach 10".to_string(),
            "attach 20".to_string(),
            "poll attach 20".to_string(),
            "attach 21".to_string(),
            "poll attach 21".to_string()
        ]
    );
    assert_eq!(manager.len(), 1);
    assert_eq!(manager.traversal_chain().ids(), vec![0]);
    assert_eq!(kinds_in_order(&manager), vec![1]);
    assert_eq!(manager.traversal_chain().fwd_len(), 2);
    assert!(manager.get(1).is_none());
    assert!(manager.get(2).is_none());
    assert_eq!(manager.dependencies().find_id_by_type(20), None);

    let mut deferred = Probe::new(11, &log);
    deferred.creates = vec![20];
    deferred.requires_last = vec![30];
    assert_eq!(
        manager.add_layer_with(deferred, LayerSwapType::Deferred),
        Err(LayerError::MissingDependency(30))
    );
    assert_eq!(manager.traversal_chain().ids(), vec![0]);
    assert_eq!(manager.pending_len(), 0);

    // The identifiers of the layers that are gone are not given out again.
    assert_eq!(
        manager.add_layer_with(Probe::new(2, &log), LayerSwapType::Synchronous),
        Ok(4)
    );
    assert_eq!(manager.traversal_chain().ids(), vec![0, 4]);
}

#[test]
fn failed_dependency_takes_out_what_it_attached_and_leaves_the_rest() {
    let log = log();
    let mut declaration: LayerDependencyDeclaration<Probe> = LayerDependencyDeclaration::new();
    declaration.add_layer(Probe::new(1, &log)).unwrap();
    let failing = || {
        let mut layer = Probe::new(10, &log);
        layer.creates = vec![20];
        layer.requires_last = vec![30];
        layer
    };
    assert_eq!(
        declaration.or_create(10, failing).map(|layer| layer.kind),
        Err(LayerError::MissingDependency(30))
    );
    assert_eq!(declaration.traversal_chain().ids(), vec![0]);
    assert_eq!(declaration.len(), 1);
    assert_eq!(
        declaration.or_create(12, || Probe::new(12, &log)).map(|layer| layer.kind),
        Ok(12)
    );
    assert_eq!(declaration.traversal_chain().ids(), vec![0, 2]);
}

#[test]
fn chain_of_dependencies_is_attached_from_the_innermost_up() {
    let log = log();
    let mut manager = PlutoLayerManager::new();
    // 1998 creates 1999, which creates 2000, which declares nothing.
    let mut layer = Probe::new(1998, &log);
    layer.creates = vec![1999];
    assert_eq!(manager.add_layer(layer), Ok(()));
    assert_eq!(manager.len(), 3);
    assert_eq!(kinds_in_order(&manager), vec![2000, 1999, 1998]);
    assert_eq!(manager.traversal_chain().ids(), vec![0, 1, 2]);
    assert_eq!(manager.pending_len(), 0);
    let attaches: Vec<String> = entries(&log)
        .into_iter()
        .filter(|entry| entry.starts_with("attach"))
        .collect();
    assert_eq!(attaches, vec!["attach 1998", "attach 1999", "attach 2000"]);
}

#[test]
fn traversal_ends_on_an_empty_stack_whatever_was_provided() {
    let log = log();
    let mut manager = PlutoLayerManager::new();
    let mut first = Probe::new(1, &log);
    first.provides = vec![(40, 1), (41, 2)];
    let mut second = Probe::new(2, &log);
    second.provides = vec![(40, 3)];
    second.proceed = false;
    let mut third = Probe::new(3, &log);
    third.provides = vec![(42, 4)];
    manager.add_layer(first).unwrap();
    manager.add_layer(second).unwrap();
    manager.add_layer(third).unwrap();
    log.borrow_mut().clear();

    let mut course = LayerTraversal::new(manager.traversal_chain().ids());
    assert_eq!(manager.traverse_with(&mut course), 2);
    assert_eq!(course.systems().depth(), 0);
    assert_eq!(course.systems().query(40), None);
    assert_eq!(course.advance(true), TraversalStep::Done);
    assert_eq!(
        entries(&log),
        vec!["enter 1", "enter 2", "leave 2", "leave 1"]
    );
}
