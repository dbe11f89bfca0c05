//! Core configuration settings.

use vstd::prelude::*;

verus! {

/// How much the core logs.
#[derive(Debug, Clone, Copy, PartialEq, Eq, Structural)]
pub enum LogLevel {
    Debug,
    Info,
    Warning,
    Error,
}

/// Core configuration settings: the number of workers, the port of the web
/// interface and the log level.
#[derive(Debug, Clone, Copy)]
pub struct CoreConfig {
    pub max_workers: usize,
    pub web_port: u16,
    pub log_level: LogLevel,
}

impl CoreConfig {
    /// The configuration the core starts with when none is given: four
    /// workers, the web interface on port 3030, informational logging.
    pub fn standard() -> (r: Self)
        ensures
            r.max_workers == 4,
            r.web_port == 3030,
            r.log_level == LogLevel::Info,
    {
        CoreConfig { max_workers: 4, web_port: 3030, log_level: LogLevel::Info }
    }
}

} // verus!
