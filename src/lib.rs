//! Cooperative tasks that hand control to one another by name, and a FIFO
//! channel for buffered exchange between them.

/// FIFO channels.
pub mod channel;

/// Totally ordered task names.
pub mod name;

/// The task registry and the scheduler.
pub mod task;
