//! Log-tailing and correlation engine for mail-server log streams.
//!
//! Two families of log lines are scanned — delivery confirmations and raw
//! mail-content dumps — and the records they yield are correlated by a
//! shared message identifier in an in-memory table keyed by recipient
//! address.  The tail cursor tracks byte offsets of a live log file across
//! rotation and truncation.  The surrounding process (file watching,
//! channels, the query endpoint) hands this library plain values and takes
//! plain values back.

pub mod config;
pub mod mail;
pub mod parse;
pub mod query;
pub mod tail;
pub mod text;
