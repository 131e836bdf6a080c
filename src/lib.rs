//! Decision core of a newline-text broadcast relay driven by a completion queue.
//!
//! The library holds the connection registry and the table of operations in flight,
//! and turns each completion reported by the asynchronous I/O facility into the
//! next state and the list of operations to submit. Performing those operations is
//! left to the caller.
//!
//! - [`reactor`]: registry, operation table, completion dispatch and broadcast.
//! - [`lane`]: write continuation for one recipient.
//! - [`message`]: a text addressed to one client.

pub mod lane;
pub mod message;
pub mod reactor;
