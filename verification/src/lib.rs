//! A layer manager.
//!
//! An application is a stack of layers. A [`manager::PlutoLayerManager`]
//! attaches layers, resolves the dependencies that they declare on each
//! other by kind, and runs them in iterations: in each, the attached layers
//! are traversed from the bottom up and back, sharing what they provide to
//! the layers above as systems, and then layers are detached and attached as
//! they ask for it, at once or over several iterations.
//!
//! The order of the traversal is a [`traversal_chain::TraversalChain`], a
//! doubly linked list over layer identifiers that is kept apart from the
//! layers themselves.
//!
//! The modules [`window`], [`device`], [`surface`] and [`mesh`] say what the
//! layers of an application ask of the platform that shows it: each platform
//! implements their traits for its own windows and devices.

pub mod dependency;
pub mod device;
pub mod layer;
pub mod manager;
pub mod mesh;
pub mod sequences;
pub mod surface;
pub mod system;
pub mod traversal;
pub mod traversal_chain;
pub mod window;
