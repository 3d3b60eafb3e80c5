//! The optional configuration file's contents, as plain values. The
//! front-end loads the file; the library only consumes the settings.

use vstd::prelude::*;

verus! {

/// How much the daemon and front-ends log.
#[derive(Debug, Clone, Copy, PartialEq, Eq, Structural)]
pub enum LogLevel {
    Off,
    Error,
    Warn,
    Info,
    Debug,
    Trace,
}

/// The recognized settings.
#[derive(Debug)]
pub struct Config {
    /// When true, commands that start with a space are not recorded.
    pub ignore_space: bool,
    /// The log level to run under.
    pub log_level: LogLevel,
    /// The hostname to write entries under; unset means ask the system.
    pub hostname: Option<String>,
}

impl Default for Config {
    /// Space-prefixed commands ignored, warnings logged, the system's
    /// own hostname.
    fn default() -> (r: Config)
        ensures
            r.ignore_space,
            r.log_level == LogLevel::Warn,
            r.hostname is None,
    {
        Config { ignore_space: true, log_level: LogLevel::Warn, hostname: None }
    }
}

} // verus!
