//! Settings of a gateway process and what they mean for the log.

use vstd::prelude::*;

verus! {

/// The settings of a gateway process.
#[derive(Debug)]
pub struct Options {
    /// How often more detail was asked for.
    pub verbose: u8,
    /// Address on which the publisher listens.
    pub zmq_addr: String,
    /// The serial devices, one per anchor.
    pub serial_ports: Vec<String>,
}

/// How much the process logs.
#[derive(Debug, PartialEq, Eq, Clone, Copy, Structural)]
pub enum LogLevel {
    Info,
    Debug,
    Trace,
}

/// The level that corresponds to asking `verbose` times for more detail.
pub open spec fn level_of(verbose: u8) -> LogLevel {
    if verbose == 0 {
        LogLevel::Info
    } else if verbose == 1 {
        LogLevel::Debug
    } else {
        LogLevel::Trace
    }
}

impl Options {
    /// The log level that these settings ask for.
    pub fn log_level(&self) -> (level: LogLevel)
        ensures
            level == level_of(self.verbose),
    {
        if self.verbose == 0 {
            LogLevel::Info
        } else if self.verbose == 1 {
            LogLevel::Debug
        } else {
            LogLevel::Trace
        }
    }
}

} // verus!
