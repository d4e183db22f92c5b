//! Discovery-and-routing core for dynamically registered model-serving
//! backends.
//!
//! A coordination store (external to this crate) delivers an initial
//! snapshot plus an ordered stream of put/delete events for each watched
//! key prefix.  The watcher turns those events into updates of an
//! in-memory model registry; a routing policy picks one live backend per
//! request.  This crate holds the registry, the event decoding, the
//! watcher state machine, the routing policy and the supervisor's restart
//! policy; the store client and the task plumbing live with the caller.

pub mod decode;
pub mod entry;
pub mod policy;
pub mod registry;
pub mod supervisor;
pub mod watcher;
