pub mod catalog;
pub mod poll;
pub mod pool;
pub mod record;
pub mod report;

use vstd::prelude::*;

verus! {

/// Baud rate at which every serial handle is opened.
pub const MIN_BAUD_RATE: u32 = 115200;

/// How often, in milliseconds, the ports are enumerated and the pool reconciled.
pub const MAINTENANCE_INTERVAL_MS: u64 = 500;

/// The short pause, in milliseconds, after a pass that read nothing, and of an
/// idle reporter.
pub const MINIMAL_PAUSE_MS: u64 = 5;

/// The largest number of bytes taken from one port in one read.
pub const MAX_SERIAL_BUF_READ: usize = 2048;

} // verus!
