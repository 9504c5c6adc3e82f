//! Reading and writing the binary messages of the PSAS rocket telemetry
//! framework: message headers, whole log files, statistics over a log, and the
//! truncation of a log to a range of sequence numbers.

pub mod wire;
pub mod messages;
pub mod raw;
pub mod log;
pub mod stats;
pub mod trunc;
pub mod extract;
