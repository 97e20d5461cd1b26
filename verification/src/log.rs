//! Log levels and which messages get printed.
use vstd::prelude::*;

verus! {

#[derive(PartialEq, Eq, Structural, Copy, Clone, Debug)]
pub enum Level {
    Off,
    Error,
    Warning,
    Info,
    Debug,
    Verbose,
}

/// The number of a level: `Off` is 0, `Verbose` is 5.
pub open spec fn level_number(level: Level) -> u8 {
    match level {
        Level::Off => 0,
        Level::Error => 1,
        Level::Warning => 2,
        Level::Info => 3,
        Level::Debug => 4,
        Level::Verbose => 5,
    }
}

impl Level {
    /// The level numbered `val`; there are six.
    pub fn from(val: u8) -> (level: Level)
        requires
            val <= 5,
        ensures
            level_number(level) == val,
    {
        match val {
            0 => Level::Off,
            1 => Level::Error,
            2 => Level::Warning,
            3 => Level::Info,
            4 => Level::Debug,
            _ => Level::Verbose,
        }
    }

    pub fn number(&self) -> (n: u8)
        ensures
            n == level_number(*self),
    {
        match self {
            Level::Off => 0,
            Level::Error => 1,
            Level::Warning => 2,
            Level::Info => 3,
            Level::Debug => 4,
            Level::Verbose => 5,
        }
    }
}

/// The level that messages are printed up to.
pub const LEVEL: u8 = 4;

/// Whether a message of `level` is printed when the log runs at `current`.
pub fn is_enabled(level: Level, current: Level) -> (enabled: bool)
    ensures
        enabled == (level_number(level) <= level_number(current)),
{
    level.number() <= current.number()
}

/// Whether a message of `level` is printed at the kernel's log level.
pub fn should_print(level: Level) -> (print: bool)
    ensures
        print == (level_number(level) <= LEVEL),
{
    is_enabled(level, Level::from(LEVEL))
}

} // verus!
