//! The settings of the service that its logic reads.

use vstd::prelude::*;

verus! {

/// How severe a log record is, from the most severe down.
#[derive(Clone, Copy, Debug, PartialEq, Eq, Structural)]
pub enum Level {
    /// Something failed.
    Error,
    /// Something looks wrong.
    Warn,
    /// Something worth telling.
    Info,
    /// Something for whoever debugs.
    Debug,
    /// Everything.
    Trace,
}

impl Level {
    /// The rank of the level: 1 for the most severe, 5 for the least.
    pub open spec fn rank(self) -> int {
        match self {
            Level::Error => 1,
            Level::Warn => 2,
            Level::Info => 3,
            Level::Debug => 4,
            Level::Trace => 5,
        }
    }

    /// The name under which the level appears in a log line.
    pub open spec fn name(self) -> Seq<char> {
        match self {
            Level::Error => "ERROR"@,
            Level::Warn => "WARN"@,
            Level::Info => "INFO"@,
            Level::Debug => "DEBUG"@,
            Level::Trace => "TRACE"@,
        }
    }

    /// The name under which the level appears in a log line.
    pub fn as_str(&self) -> (name: &'static str)
        ensures
            name@ == self.name(),
    {
        match self {
            Level::Error => "ERROR",
            Level::Warn => "WARN",
            Level::Info => "INFO",
            Level::Debug => "DEBUG",
            Level::Trace => "TRACE",
        }
    }

    /// Whether records of this level go to the error stream: those that are
    /// at least as severe as [`Level::Error`].
    pub fn is_error(&self) -> (res: bool)
        ensures
            res == (self.rank() <= Level::Error.rank()),
    {
        match self {
            Level::Error => true,
            _ => false,
        }
    }
}

/// The settings of the logger.
#[derive(Clone, Copy, Debug, PartialEq, Eq, Structural)]
pub struct LoggerConfig {
    /// Records less severe than this are dropped.
    pub level: Level,
    /// Whether records go to the standard streams.
    pub use_stdio: bool,
    /// Whether records go to the log file.
    pub use_file: bool,
    /// How many rotated files are kept; with 0 the file is never rotated.
    pub rotate_file_num_limit: usize,
    /// The length from which on the log file is rotated.
    pub rotate_file_len_threshold: usize,
}

/// The default of [`LoggerConfig::rotate_file_num_limit`].
pub const DEFAULT_ROTATE_FILE_NUM_LIMIT: usize = 3;

/// The default of [`LoggerConfig::rotate_file_len_threshold`]: 128 MiB.
pub const DEFAULT_ROTATE_FILE_LEN_THRESHOLD: usize = 134217728;

impl LoggerConfig {
    /// The settings that hold where the configuration names none. A build
    /// with debug assertions logs from [`Level::Debug`] on, any other from
    /// [`Level::Info`] on.
    pub fn for_build(debug_assertions: bool) -> (config: Self)
        ensures
            config == (LoggerConfig {
                level: if debug_assertions {
                    Level::Debug
                } else {
                    Level::Info
                },
                use_stdio: true,
                use_file: true,
                rotate_file_num_limit: 3,
                rotate_file_len_threshold: 134217728,
            }),
            config.rotate_file_len_threshold == 128 * 1024 * 1024,
    {
        let level = if debug_assertions {
            Level::Debug
        } else {
            Level::Info
        };
        LoggerConfig {
            level,
            use_stdio: true,
            use_file: true,
            rotate_file_num_limit: DEFAULT_ROTATE_FILE_NUM_LIMIT,
            rotate_file_len_threshold: DEFAULT_ROTATE_FILE_LEN_THRESHOLD,
        }
    }
}

impl Default for LoggerConfig {
    /// The settings of a build without debug assertions.
    fn default() -> (config: Self)
        ensures
            config == (LoggerConfig {
                level: Level::Info,
                use_stdio: true,
                use_file: true,
                rotate_file_num_limit: 3,
                rotate_file_len_threshold: 134217728,
            }),
    {
        LoggerConfig::for_build(false)
    }
}

} // verus!
