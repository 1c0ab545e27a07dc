//! Logger utilities: the levels of verbosity and their labels.
use vstd::prelude::*;

verus! {

/// The most verbose level of logging allowed.
#[derive(Debug, Clone, Copy, PartialEq, Eq, Structural)]
pub enum LevelFilter {
    Off,
    Error,
    Warn,
    Info,
    Debug,
    Trace,
}

/// The level of a log record.
#[derive(Debug, Clone, Copy, PartialEq, Eq, Structural)]
pub enum Level {
    Error,
    Warn,
    Info,
    Debug,
    Trace,
}

/// The level filter a verbosity number selects.
pub open spec fn level_filter_of(verbosity: u8) -> LevelFilter {
    if verbosity == 0 {
        LevelFilter::Off
    } else if verbosity == 1 {
        LevelFilter::Warn
    } else if verbosity == 2 {
        LevelFilter::Info
    } else if verbosity == 3 {
        LevelFilter::Debug
    } else {
        LevelFilter::Trace
    }
}

/// Converts a verbosity number to a [LevelFilter]: 0 is off, 1 warnings, 2 information,
/// 3 debugging, and anything higher tracing.
pub fn verbosity_to_level_filter(verbosity: u8) -> (res: LevelFilter)
    ensures
        res == level_filter_of(verbosity),
{
    match verbosity {
        0 => LevelFilter::Off,
        1 => LevelFilter::Warn,
        2 => LevelFilter::Info,
        3 => LevelFilter::Debug,
        _ => LevelFilter::Trace,
    }
}

/// The label of a level, five characters wide.
pub open spec fn level_label(level: Level) -> Seq<char> {
    match level {
        Level::Error => "ERROR"@,
        Level::Warn => " WARN"@,
        Level::Info => " INFO"@,
        Level::Debug => "DEBUG"@,
        Level::Trace => "TRACE"@,
    }
}

/// The text shown before a message on the standard output.
pub fn get_level_text(level: &Level) -> (res: &'static str)
    ensures
        res@ == level_label(*level),
{
    match level {
        Level::Error => "ERROR",
        Level::Warn => " WARN",
        Level::Info => " INFO",
        Level::Debug => "DEBUG",
        Level::Trace => "TRACE",
    }
}

/// More verbosity never logs less: the level selected grows with the verbosity.
pub proof fn lemma_verbosity_monotone(a: u8, b: u8)
    requires
        a <= b,
    ensures
        filter_rank(level_filter_of(a)) <= filter_rank(level_filter_of(b)),
{
}

/// The position of a filter from the least to the most verbose.
pub open spec fn filter_rank(f: LevelFilter) -> nat {
    match f {
        LevelFilter::Off => 0,
        LevelFilter::Error => 1,
        LevelFilter::Warn => 2,
        LevelFilter::Info => 3,
        LevelFilter::Debug => 4,
        LevelFilter::Trace => 5,
    }
}

} // verus!
