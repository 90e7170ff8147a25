//! The recognized configuration, as plain values.
//!
//! The surrounding process reads and deserializes its configuration file
//! and hands the result over in this shape; nothing here is consulted at
//! parse time, so the types carry no invariant.

use vstd::prelude::*;

verus! {

/// Where the delivery logs live: their directory, the historical files the
/// bootstrap pass reads, and the live file to tail.
pub struct ConfigLogs {
    pub dir: String,
    pub files: Vec<String>,
    pub tail: String,
}

/// Where the raw mail-content dumps live, laid out as [`ConfigLogs`].
pub struct ConfigMails {
    pub dir: String,
    pub files: Vec<String>,
    pub tail: String,
}

/// The address the query interface listens on.
pub struct ConfigListen {
    pub ip: String,
    pub port: String,
}

/// Certificate and key paths for a TLS listener.
pub struct ConfigTls {
    pub cert: String,
    pub key: String,
}

/// The whole configuration.  `mail_parsing_delay` is the number of seconds
/// a live subject-update batch is held back to let the delivery-log
/// pipeline populate the matching bucket first.
pub struct Config {
    pub tls: Option<ConfigTls>,
    pub log: ConfigLogs,
    pub mail: ConfigMails,
    pub listen: ConfigListen,
    pub mail_parsing_delay: u64,
}

} // verus!
