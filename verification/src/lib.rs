//! A standalone implementation of the central coordination service of a
//! ROS 1 publish/subscribe system: a name registry for nodes, topics and
//! services together with a hierarchical parameter server.
//!
//! The crate holds the verified core: name resolution, the parameter tree,
//! the registry state machine, and the computation of the callback
//! notifications (`publisherUpdate`, `paramUpdate`, `shutdown`) that a
//! transport layer dispatches to registered nodes.

pub mod alist;
pub mod endpoints;
pub mod laws;
pub mod names;
pub mod param_laws;
pub mod param_tree;
pub mod registry;
pub mod run_id;
pub mod strutil;
