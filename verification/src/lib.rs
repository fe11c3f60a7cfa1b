//! A per-host telemetry agent's core: process-snapshot records, top-N
//! ranking by CPU usage, report construction, the wire encoding of a
//! report, and the cancellable scheduling loop's state machine.

pub mod clock;
pub mod codec;
pub mod rank;
pub mod record;
pub mod sched;
pub mod tick;
