use vstd::prelude::*;

verus! {

/// Severity of a log record, most severe first.
#[derive(Clone, Copy, Debug, PartialEq, Eq, Structural)]
pub enum Level {
    Error,
    Warn,
    Info,
    Debug,
    Trace,
}

/// Console colour of a log line's prefix.
#[derive(Clone, Copy, Debug, PartialEq, Eq, Structural)]
pub enum Color {
    Red,
    Yellow,
    Green,
    Cyan,
    Purple,
}

impl Level {
    /// The colour that a console line of this level is prefixed in.
    pub fn color(&self) -> (r: Color)
        ensures
            r == match self {
                Level::Error => Color::Red,
                Level::Warn => Color::Yellow,
                Level::Info => Color::Green,
                Level::Debug => Color::Cyan,
                Level::Trace => Color::Purple,
            },
    {
        match self {
            Level::Error => Color::Red,
            Level::Warn => Color::Yellow,
            Level::Info => Color::Green,
            Level::Debug => Color::Cyan,
            Level::Trace => Color::Purple,
        }
    }

    /// Position in the severity order: `Error` is 1, `Trace` is 5.
    pub open spec fn rank(self) -> nat {
        match self {
            Level::Error => 1,
            Level::Warn => 2,
            Level::Info => 3,
            Level::Debug => 4,
            Level::Trace => 5,
        }
    }

    pub fn rank_of(&self) -> (r: u8)
        ensures
            r as nat == self.rank(),
    {
        match self {
            Level::Error => 1,
            Level::Warn => 2,
            Level::Info => 3,
            Level::Debug => 4,
            Level::Trace => 5,
        }
    }

    /// The three-letter tag that prefixes a console line of this level.
    pub fn tag(&self) -> (r: &'static str)
        ensures
            r@ == self.tag_spec(),
    {
        match self {
            Level::Error => {
                proof { reveal_strlit("ERR"); }
                "ERR"
            },
            Level::Warn => {
                proof { reveal_strlit("WAR"); }
                "WAR"
            },
            Level::Info => {
                proof { reveal_strlit("INF"); }
                "INF"
            },
            Level::Debug => {
                proof { reveal_strlit("DBG"); }
                "DBG"
            },
            Level::Trace => {
                proof { reveal_strlit("TRC"); }
                "TRC"
            },
        }
    }

    pub open spec fn tag_spec(self) -> Seq<char> {
        match self {
            Level::Error => seq!['E', 'R', 'R'],
            Level::Warn => seq!['W', 'A', 'R'],
            Level::Info => seq!['I', 'N', 'F'],
            Level::Debug => seq!['D', 'B', 'G'],
            Level::Trace => seq!['T', 'R', 'C'],
        }
    }
}

/// A console logger that lets through every record at most as verbose as
/// its own level.
pub struct Logger {
    pub level: Level,
}

impl Logger {
    pub fn new(level: Level) -> (r: Logger)
        ensures
            r.level == level,
    {
        Logger { level }
    }

    /// Whether a record of `level` is printed.
    pub fn enabled(&self, level: Level) -> (r: bool)
        ensures
            r == (level.rank() <= self.level.rank()),
    {
        level.rank_of() <= self.level.rank_of()
    }
}

} // verus!
