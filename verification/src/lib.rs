//! Task capture for a remote task manager: a shorthand parser, a cache that
//! resolves list and label names to remote identifiers, and a durable retry
//! queue for inputs whose submission failed.

pub mod cache;
pub mod notify;
pub mod number;
pub mod paths;
pub mod pipeline;
pub mod queue;
pub mod queue_laws;
pub mod shorthand;
pub mod text;
