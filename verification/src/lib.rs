//! A real-time relay library: a connection registry that tracks at most one
//! live connection per account address, a dispatcher that pushes addressed
//! commands through a registered sink, and a flattener that projects a nested
//! tagged-value tree (a blockchain script-execution result) into a flat record.

pub mod codec;
pub mod dispatch;
pub mod model;
pub mod registry;
pub mod remote;

pub use dispatch::DispatchError;
