//! The logger, as far as it decides anything: what a log line looks like,
//! which stream it goes to, when the log file is rotated and to which names,
//! and what the backend does with what it receives until it stops.
//!
//! Writing, renaming and the channel between the two halves are the
//! caller's.

use crate::config::{Level, LoggerConfig};
use crate::util::context::{Cancellation, Context, ContextTree};
use vstd::prelude::*;
use vstd::string::StringExecFns;

verus! {

/// The pattern of the time stamp of a log line.
pub const DATETIME_FORMAT: &'static str = "%F %T%.3f";

/// The name of the log file; rotated files append a dot and their number.
pub const LOG_FILE_BASE_NAME: &'static str = "portal.log";

/// The decimal digit of a number below ten.
pub open spec fn digit(d: nat) -> char {
    if d == 0 {
        '0'
    } else if d == 1 {
        '1'
    } else if d == 2 {
        '2'
    } else if d == 3 {
        '3'
    } else if d == 4 {
        '4'
    } else if d == 5 {
        '5'
    } else if d == 6 {
        '6'
    } else if d == 7 {
        '7'
    } else if d == 8 {
        '8'
    } else {
        '9'
    }
}

/// A number in decimal, without leading zeros.
pub open spec fn decimal(n: nat) -> Seq<char>
    decreases n,
{
    if n < 10 {
        seq![digit(n)]
    } else {
        decimal(n / 10).push(digit(n % 10))
    }
}

/// The digit of `d` as a string.
fn digit_str(d: u64) -> (s: &'static str)
    requires
        d < 10,
    ensures
        s@ == seq![digit(d as nat)],
{
    proof {
        reveal_strlit("0");
        reveal_strlit("1");
        reveal_strlit("2");
        reveal_strlit("3");
        reveal_strlit("4");
        reveal_strlit("5");
        reveal_strlit("6");
        reveal_strlit("7");
        reveal_strlit("8");
        reveal_strlit("9");
    }
    let s = if d == 0 {
        "0"
    } else if d == 1 {
        "1"
    } else if d == 2 {
        "2"
    } else if d == 3 {
        "3"
    } else if d == 4 {
        "4"
    } else if d == 5 {
        "5"
    } else if d == 6 {
        "6"
    } else if d == 7 {
        "7"
    } else if d == 8 {
        "8"
    } else {
        "9"
    };
    assert(s@ =~= seq![digit(d as nat)]);
    s
}

/// Appends `n` in decimal to `out`.
pub fn push_decimal(out: &mut String, n: u64)
    ensures
        final(out)@ == old(out)@ + decimal(n as nat),
    decreases n,
{
    if n >= 10 {
        push_decimal(out, n / 10);
    }
    out.append(digit_str(n % 10));
    assert(out@ =~= old(out)@ + decimal(n as nat));
}

/// The length of a text in bytes, as it is written and as `str::len` gives
/// it.
pub open spec fn byte_len(text: Seq<char>) -> usize {
    vstd::utf8::encode_utf8(text).len() as usize
}

/// What the logger needs of a log record.
#[derive(Clone, Debug)]
pub struct LogRecord {
    /// How severe the record is.
    pub level: Level,
    /// The source file that it comes from, if known.
    pub file: Option<String>,
    /// The line in that file, if known.
    pub line: Option<u32>,
    /// The subsystem that it comes from; may be empty.
    pub target: String,
    /// The message.
    pub args: String,
}

impl LogRecord {
    /// The file as a log line names it.
    pub open spec fn file_text(&self) -> Seq<char> {
        match self.file {
            Some(file) => file@,
            None => "null"@,
        }
    }

    /// The line as a log line names it.
    pub open spec fn line_number(&self) -> nat {
        match self.line {
            Some(line) => line as nat,
            None => 0,
        }
    }
}

/// The log line of `record`, stamped with `timestamp`: time, level and place
/// in square brackets, then the target, if there is one, and the message.
pub open spec fn log_line(timestamp: Seq<char>, record: LogRecord) -> Seq<char> {
    let head = "["@ + timestamp + "]["@ + record.level.name() + "]["@ + record.file_text() + ":"@
        + decimal(record.line_number()) + "] "@;
    if record.target@.len() == 0 {
        head + record.args@
    } else {
        head + record.target@ + ": "@ + record.args@
    }
}

/// What the front half of the logger sends to the back half.
#[derive(Clone, Debug)]
pub enum LoggerCommand {
    /// Write a line.
    Log {
        /// The line.
        content: String,
        /// Whether it goes to the error stream.
        is_error: bool,
    },
    /// Flush what was written.
    Flush,
}

/// The local time in the pattern [`DATETIME_FORMAT`].
///
/// Calls `chrono::Local::now` and prints what it returns with
/// `DateTime::format`. Nothing is claimed of the text: it depends on the
/// clock and on the time zone of the machine. `chrono` panics in two states
/// of the machine, which no caller can rule out: where the clock stands
/// before 1970, and where the zone data of the machine give an offset from
/// universal time of a day or more.
#[verifier::external_body]
fn local_timestamp() -> String {
    chrono::Local::now().format(DATETIME_FORMAT).to_string()
}

/// Builds the log line of `record`, stamped with `timestamp`.
pub fn format_record(timestamp: &str, record: &LogRecord) -> (content: String)
    ensures
        content@ == log_line(timestamp@, *record),
{
    let mut content = String::from_str("[");
    content.append(timestamp);
    content.append("][");
    content.append(record.level.as_str());
    content.append("][");
    match &record.file {
        Some(file) => content.append(file.as_str()),
        None => content.append("null"),
    }
    content.append(":");
    let line: u32 = match record.line {
        Some(line) => line,
        None => 0,
    };
    push_decimal(&mut content, line as u64);
    content.append("] ");
    if !record.target.as_str().is_empty() {
        content.append(record.target.as_str());
        content.append(": ");
    }
    content.append(record.args.as_str());
    content
}

/// The command that logs `record` with the time stamp `timestamp`.
pub fn log_command(timestamp: &str, record: &LogRecord) -> (cmd: LoggerCommand)
    ensures
        cmd matches LoggerCommand::Log { content, is_error } && content@ == log_line(
            timestamp@,
            *record,
        ) && is_error == (record.level.rank() <= Level::Error.rank()),
{
    let content = format_record(timestamp, record);
    let is_error = record.level.is_error();
    LoggerCommand::Log { is_error, content }
}

/// The front half of the logger: turns records into commands.
#[derive(Clone, Copy, Debug)]
pub struct LoggerFrontend {}

impl LoggerFrontend {
    /// Every record is taken; the level is filtered before the logger is
    /// asked.
    pub fn enabled(&self) -> (res: bool)
        ensures
            res,
    {
        true
    }

    /// The command that logs `record`, stamped with the local time of the
    /// call. Panics where the clock or the zone data of the machine are out
    /// of the range that `chrono` takes.
    pub fn log(&self, record: &LogRecord) -> (cmd: LoggerCommand)
        ensures
            cmd matches LoggerCommand::Log { content, is_error } && is_error == (
            record.level.rank() <= Level::Error.rank()) && exists|timestamp: Seq<char>|
                content@ == #[trigger] log_line(timestamp, *record),
    {
        let timestamp = local_timestamp();
        log_command(timestamp.as_str(), record)
    }

    /// The command that flushes.
    pub fn flush(&self) -> (cmd: LoggerCommand)
        ensures
            cmd is Flush,
    {
        LoggerCommand::Flush
    }
}

/// Where a line of the standard streams goes.
#[derive(Clone, Copy, Debug, PartialEq, Eq, Structural)]
pub enum LogStream {
    /// The output stream.
    Stdout,
    /// The error stream.
    Stderr,
}

/// One thing that the backend asks its caller to do with the command at
/// hand.
#[derive(Clone, Copy, Debug, PartialEq, Eq, Structural)]
pub enum LoggerOp {
    /// Write the line to a standard stream.
    WriteStdio(LogStream),
    /// Write the line to the log file.
    WriteFile,
    /// Rotate the log file: do the renames of [`rotation_renames`], then
    /// start the log file anew.
    RotateFile,
    /// Flush both standard streams.
    FlushStdio,
    /// Flush the log file.
    FlushFile,
}

/// What the backend knows of the log file.
#[derive(Clone, Copy, Debug, PartialEq, Eq, Structural)]
pub struct LoggerFileStatus {
    /// The length of the log file in bytes.
    pub file_len: usize,
}

/// Where the backend stands.
#[derive(Clone, Copy, Debug, PartialEq, Eq, Structural)]
pub enum BackendState {
    /// Taking commands, and watching the root context.
    Running,
    /// The root context was cancelled: the input is closed, and what was
    /// queued before is still worked off.
    Draining,
    /// Done; the permit goes back.
    Stopped,
}

/// What the backend sees happen while it waits.
#[derive(Clone, Debug)]
pub enum BackendEvent {
    /// A command arrived.
    Command(LoggerCommand),
    /// The channel is closed and empty.
    Closed,
    /// The root context was cancelled.
    Cancelled,
}

/// What the backend does next.
#[derive(Clone, Debug)]
pub enum BackendAction {
    /// Work off the command (see [`LoggerBackend::handle_cmd`]) and wait on.
    Handle(LoggerCommand),
    /// Close the input, so that nothing new is queued, and wait on.
    CloseInput,
    /// Wait on.
    Wait,
    /// Stop.
    Stop,
}

/// The back half of the logger.
#[derive(Clone, Copy, Debug)]
pub struct LoggerBackend {
    /// Where the backend stands.
    pub state: BackendState,
    /// Whether lines go to the standard streams.
    pub use_stdio: bool,
    /// The log file, if lines go to one.
    pub file_status: Option<LoggerFileStatus>,
}

/// The state that follows `state` on `event`.
pub open spec fn next_state(state: BackendState, event: BackendEvent) -> BackendState {
    match state {
        BackendState::Running => match event {
            BackendEvent::Command(_) => BackendState::Running,
            BackendEvent::Closed => BackendState::Stopped,
            BackendEvent::Cancelled => BackendState::Draining,
        },
        BackendState::Draining => match event {
            BackendEvent::Command(_) => BackendState::Draining,
            BackendEvent::Closed => BackendState::Stopped,
            BackendEvent::Cancelled => BackendState::Draining,
        },
        BackendState::Stopped => BackendState::Stopped,
    }
}

/// Whether the backend rotates the log file after a write that brought it to
/// `file_len` bytes.
pub open spec fn rotates(config: LoggerConfig, file_len: int) -> bool {
    config.rotate_file_num_limit > 0 && file_len >= config.rotate_file_len_threshold
}

/// What the backend asks for when it writes a line of `len` bytes.
pub open spec fn log_ops(
    use_stdio: bool,
    file_status: Option<LoggerFileStatus>,
    config: LoggerConfig,
    is_error: bool,
    len: int,
) -> Seq<LoggerOp> {
    let stdio = if use_stdio {
        seq![LoggerOp::WriteStdio(if is_error { LogStream::Stderr } else { LogStream::Stdout })]
    } else {
        Seq::<LoggerOp>::empty()
    };
    match file_status {
        None => stdio,
        Some(status) => if rotates(config, status.file_len + len) {
            stdio.push(LoggerOp::WriteFile).push(LoggerOp::RotateFile)
        } else {
            stdio.push(LoggerOp::WriteFile)
        },
    }
}

/// What the backend asks for when it flushes.
pub open spec fn flush_ops(use_stdio: bool, file_status: Option<LoggerFileStatus>) -> Seq<
    LoggerOp,
> {
    let stdio = if use_stdio {
        seq![LoggerOp::FlushStdio]
    } else {
        Seq::<LoggerOp>::empty()
    };
    match file_status {
        None => stdio,
        Some(_) => stdio.push(LoggerOp::FlushFile),
    }
}

/// What the backend knows of the log file after it wrote a line of `len`
/// bytes.
pub open spec fn file_status_after(
    file_status: Option<LoggerFileStatus>,
    config: LoggerConfig,
    len: int,
) -> Option<LoggerFileStatus> {
    match file_status {
        None => None,
        Some(status) => if rotates(config, status.file_len + len) {
            Some(LoggerFileStatus { file_len: 0 })
        } else {
            Some(LoggerFileStatus { file_len: (status.file_len + len) as usize })
        },
    }
}

/// Starts the logger once its log file is open, or gives up on the whole
/// process when the file is wanted and could not be opened: then the root
/// context is cancelled, and whoever holds the permit of the logger lets it
/// go.
///
/// `opened` is the length of the log file as it was opened, or nothing where
/// it was not opened. Returns the backend, if the logger starts, and what
/// the cancellation did.
pub fn init<W>(
    contexts: &mut ContextTree<W>,
    root: Context,
    config: &LoggerConfig,
    opened: Option<usize>,
) -> (res: (Option<LoggerBackend>, Cancellation<W>))
    requires
        old(contexts).wf(),
        old(contexts)@.contains(root.id()),
    ensures
        final(contexts).wf(),
        res.0 is None <==> (config.use_file && opened is None),
        res.0 matches Some(backend) ==> {
            &&& backend.state == BackendState::Running
            &&& backend.use_stdio == config.use_stdio
            &&& backend.file_status == if config.use_file {
                Some(LoggerFileStatus { file_len: opened->0 })
            } else {
                None::<LoggerFileStatus>
            }
            &&& final(contexts)@ == old(contexts)@
            &&& res.1.is_nothing()
        },
        res.0 is None ==> {
            &&& final(contexts)@ == old(contexts)@.cancel(root.id())
            &&& res.1.is_of(old(contexts)@, root.id())
        },
{
    if config.use_file {
        match opened {
            Some(file_len) => (Some(LoggerBackend::new(config, file_len)), Cancellation::nothing()),
            None => {
                let done = contexts.cancel(root);
                (None, done)
            },
        }
    } else {
        (Some(LoggerBackend::new(config, 0)), Cancellation::nothing())
    }
}

impl LoggerBackend {
    /// A backend that is about to run. `file_len` is the length that the log
    /// file has when it is opened, if there is to be one.
    pub fn new(config: &LoggerConfig, file_len: usize) -> (backend: Self)
        ensures
            backend.state == BackendState::Running,
            backend.use_stdio == config.use_stdio,
            backend.file_status == if config.use_file {
                Some(LoggerFileStatus { file_len })
            } else {
                None::<LoggerFileStatus>
            },
    {
        LoggerBackend {
            state: BackendState::Running,
            use_stdio: config.use_stdio,
            file_status: if config.use_file {
                Some(LoggerFileStatus { file_len })
            } else {
                None
            },
        }
    }

    /// One turn of the backend. While it runs, commands are worked off; the
    /// cancellation of the root context closes the input and leaves what is
    /// queued to be worked off; the end of the channel stops the backend.
    pub fn run(&mut self, event: BackendEvent) -> (action: BackendAction)
        ensures
            final(self).state == next_state(old(self).state, event),
            final(self).use_stdio == old(self).use_stdio,
            final(self).file_status == old(self).file_status,
            match (old(self).state, event) {
                (BackendState::Stopped, _) => action is Stop,
                (_, BackendEvent::Command(cmd)) => action == BackendAction::Handle(cmd),
                (_, BackendEvent::Closed) => action is Stop,
                (BackendState::Running, BackendEvent::Cancelled) => action is CloseInput,
                (BackendState::Draining, BackendEvent::Cancelled) => action is Wait,
            },
    {
        match self.state {
            BackendState::Stopped => BackendAction::Stop,
            BackendState::Running => match event {
                BackendEvent::Command(cmd) => BackendAction::Handle(cmd),
                BackendEvent::Closed => {
                    self.state = BackendState::Stopped;
                    BackendAction::Stop
                },
                BackendEvent::Cancelled => {
                    self.state = BackendState::Draining;
                    BackendAction::CloseInput
                },
            },
            BackendState::Draining => match event {
                BackendEvent::Command(cmd) => BackendAction::Handle(cmd),
                BackendEvent::Closed => {
                    self.state = BackendState::Stopped;
                    BackendAction::Stop
                },
                BackendEvent::Cancelled => BackendAction::Wait,
            },
        }
    }

    /// What is to be done for `cmd`, in this order.
    pub fn handle_cmd(&mut self, cmd: &LoggerCommand, config: &LoggerConfig) -> (ops: Vec<LoggerOp>)
        requires
            match (*cmd, old(self).file_status) {
                (LoggerCommand::Log { content, .. }, Some(status)) => status.file_len + byte_len(
                    content@,
                ) <= usize::MAX,
                _ => true,
            },
        ensures
            final(self).state == old(self).state,
            final(self).use_stdio == old(self).use_stdio,
            match *cmd {
                LoggerCommand::Log { content, is_error } => {
                    &&& ops@ == log_ops(
                        old(self).use_stdio,
                        old(self).file_status,
                        *config,
                        is_error,
                        byte_len(content@) as int,
                    )
                    &&& final(self).file_status == file_status_after(
                        old(self).file_status,
                        *config,
                        byte_len(content@) as int,
                    )
                },
                LoggerCommand::Flush => {
                    &&& ops@ == flush_ops(old(self).use_stdio, old(self).file_status)
                    &&& final(self).file_status == old(self).file_status
                },
            },
    {
        match cmd {
            LoggerCommand::Log { content, is_error } => self.log(content.as_str(), *is_error, config),
            LoggerCommand::Flush => self.flush(),
        }
    }

    /// What is to be done to write the line `content`: it goes to the error
    /// stream or to the output stream, then to the log file, which is
    /// rotated once the write has brought it to the threshold.
    pub fn log(&mut self, content: &str, is_error: bool, config: &LoggerConfig) -> (ops: Vec<
        LoggerOp,
    >)
        requires
            old(self).file_status matches Some(status) ==> status.file_len + byte_len(content@)
                <= usize::MAX,
        ensures
            final(self).state == old(self).state,
            final(self).use_stdio == old(self).use_stdio,
            ops@ == log_ops(
                old(self).use_stdio,
                old(self).file_status,
                *config,
                is_error,
                byte_len(content@) as int,
            ),
            final(self).file_status == file_status_after(
                old(self).file_status,
                *config,
                byte_len(content@) as int,
            ),
    {
        let mut ops: Vec<LoggerOp> = Vec::new();
        if self.use_stdio {
            if is_error {
                ops.push(LoggerOp::WriteStdio(LogStream::Stderr));
            } else {
                ops.push(LoggerOp::WriteStdio(LogStream::Stdout));
            }
        }
        match self.file_status {
            Some(status) => {
                let file_len: usize = status.file_len + content.len();
                ops.push(LoggerOp::WriteFile);
                if config.rotate_file_num_limit > 0 && file_len >= config.rotate_file_len_threshold {
                    ops.push(LoggerOp::RotateFile);
                    self.file_status = Some(LoggerFileStatus { file_len: 0 });
                } else {
                    self.file_status = Some(LoggerFileStatus { file_len });
                }
            },
            None => {},
        }
        proof {
            assert(ops@ =~= log_ops(
                old(self).use_stdio,
                old(self).file_status,
                *config,
                is_error,
                byte_len(content@) as int,
            ));
        }
        ops
    }

    /// What is to be done to flush: the standard streams, then the log file.
    pub fn flush(&mut self) -> (ops: Vec<LoggerOp>)
        ensures
            *final(self) == *old(self),
            ops@ == flush_ops(old(self).use_stdio, old(self).file_status),
    {
        let mut ops: Vec<LoggerOp> = Vec::new();
        if self.use_stdio {
            ops.push(LoggerOp::FlushStdio);
        }
        if self.file_status.is_some() {
            ops.push(LoggerOp::FlushFile);
        }
        proof {
            assert(ops@ =~= flush_ops(old(self).use_stdio, old(self).file_status));
        }
        ops
    }
}

/// The renames of a rotation that keeps `limit` files, in the order in which
/// they are done: each pair is the number of a file and the number that it
/// gets, the log file itself being number 0. The oldest file goes first, so
/// that no rename hits a name that is still needed.
pub open spec fn renames(limit: nat) -> Seq<(usize, usize)> {
    Seq::new(limit, |k: int| ((limit - 1 - k) as usize, (limit - k) as usize))
}

/// The renames of a rotation that keeps `limit` files.
pub fn rotation_renames(limit: usize) -> (plan: Vec<(usize, usize)>)
    ensures
        plan@ == renames(limit as nat),
{
    let mut plan: Vec<(usize, usize)> = Vec::new();
    let mut i: usize = limit;
    while i > 0
        invariant
            i <= limit,
            plan@.len() == limit - i,
            forall|k: int|
                0 <= k < plan@.len() ==> plan@[k] == ((limit - 1 - k) as usize, (limit - k) as usize),
        decreases i,
    {
        plan.push((i - 1, i));
        i = i - 1;
    }
    proof {
        assert(plan@ =~= renames(limit as nat));
    }
    plan
}

/// The name of the file with the number `index`.
pub open spec fn file_name(index: nat) -> Seq<char> {
    if index == 0 {
        LOG_FILE_BASE_NAME@
    } else {
        LOG_FILE_BASE_NAME@ + "."@ + decimal(index)
    }
}

/// The name of the log file, for 0, or of the rotated file with the number
/// `index`.
pub fn log_file_name(index: usize) -> (name: String)
    ensures
        name@ == file_name(index as nat),
{
    let mut name = String::from_str(LOG_FILE_BASE_NAME);
    if index > 0 {
        name.append(".");
        push_decimal(&mut name, index as u64);
    }
    name
}

} // verus!
