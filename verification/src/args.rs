//! What can be asked for on the command line.

use vstd::prelude::*;

use crate::cache::predicate::filter_at;
use crate::protocol::{WireLevel, WireLevelFilter};

verus! {

/// The host to connect to unless another is named.
pub const DEFAULT_HOST: &'static str = "127.0.0.1:7777";

/// How many spans the window holds unless told otherwise.
pub const DEFAULT_HISTORY_BUDGET: usize = 4096;

/// How many messages may wait for the console unless told otherwise.
pub const DEFAULT_STREAM_BUFFER: usize = 4096;

/// A recording level on the command line.
#[derive(Debug, Clone, Copy, PartialEq, Eq, Structural)]
pub enum LevelArg {
    Off,
    Error,
    Warn,
    Info,
    Debug,
    Trace,
}

impl LevelArg {
    pub open spec fn spec_to_wire(self) -> WireLevelFilter {
        match self {
            LevelArg::Off => WireLevelFilter::Off,
            LevelArg::Error => WireLevelFilter::Error,
            LevelArg::Warn => WireLevelFilter::Warn,
            LevelArg::Info => WireLevelFilter::Info,
            LevelArg::Debug => WireLevelFilter::Debug,
            LevelArg::Trace => WireLevelFilter::Trace,
        }
    }

    pub fn to_wire(self) -> (r: WireLevelFilter)
        ensures
            r == self.spec_to_wire(),
    {
        match self {
            LevelArg::Off => WireLevelFilter::Off,
            LevelArg::Error => WireLevelFilter::Error,
            LevelArg::Warn => WireLevelFilter::Warn,
            LevelArg::Info => WireLevelFilter::Info,
            LevelArg::Debug => WireLevelFilter::Debug,
            LevelArg::Trace => WireLevelFilter::Trace,
        }
    }
}

/// What the program does with what it receives.
#[derive(Debug, Clone, Copy, PartialEq, Eq, Structural)]
pub enum ModeFlag {
    /// Shows it.
    Tui,
    /// Prints every message.
    States,
    /// Prints statistics now and then.
    Stats,
}

/// A level on the command line is the filter that lets through what is at
/// least as severe, and nothing where it is off.
pub proof fn levels_mean_what_they_say(level: LevelArg)
    ensures
        ({
            let filter = level.spec_to_wire();
            &&& level is Off ==> filter is Off
            &&& level is Error ==> filter == filter_at(WireLevel::Error)
            &&& level is Warn ==> filter == filter_at(WireLevel::Warn)
            &&& level is Info ==> filter == filter_at(WireLevel::Info)
            &&& level is Debug ==> filter == filter_at(WireLevel::Debug)
            &&& level is Trace ==> filter == filter_at(WireLevel::Trace)
        }),
{
}

} // verus!
