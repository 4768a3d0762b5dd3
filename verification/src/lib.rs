//! Core of a single-host GPU arbitration daemon: device registry, job queue,
//! admission policy, enforcement and reap decisions, and the JSON control
//! protocol, all with verified contracts. The I/O edges (socket, hardware
//! monitor, container runtime, notifications) live outside the library and
//! exchange plain values with it.

pub mod clobberd;
pub mod codec;
pub mod comms;
pub mod gpu;
pub mod monitor;
pub mod pings;
