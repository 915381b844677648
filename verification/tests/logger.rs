use portal::config::{Level, LoggerConfig};
use portal::util::context::ContextTree;
use portal::util::logger::{
    format_record, init, log_command, log_file_name, push_decimal, rotation_renames, BackendAction,
    BackendEvent, BackendState, LogRecord, LogStream, LoggerBackend, LoggerCommand,
    LoggerFileStatus, LoggerFrontend, LoggerOp, DATETIME_FORMAT, LOG_FILE_BASE_NAME,
};

fn record(level: Level, target: &str) -> LogRecord {
    LogRecord {
        level,
        file: Some(String::from("src/service/control.rs")),
        line: Some(17),
        target: String::from(target),
        args: String::from("failed to bind socket"),
    }
}

fn decimal(n: u64) -> String {
    let mut out = String::new();
    push_decimal(&mut out, n);
    out
}

#[test]
fn the_constants_of_the_logger() {
    assert_eq!(DATETIME_FORMAT, "%F %T%.3f");
    assert_eq!(LOG_FILE_BASE_NAME, "portal.log");
}

#[test]
fn numbers_in_decimal() {
    assert_eq!(decimal(0), "0");
    assert_eq!(decimal(7), "7");
    assert_eq!(decimal(10), "10");
    assert_eq!(decimal(1234567890), "1234567890");
    assert_eq!(decimal(u64::MAX), "18446744073709551615");
    let mut out = String::from("line ");
    push_decimal(&mut out, 405);
    assert_eq!(out, "line 405");
}

#[test]
fn a_log_line_with_a_target() {
    let line = format_record("2022-03-04 05:06:07.089", &record(Level::Error, "control"));
    assert_eq!(
        line,
        "[2022-03-04 05:06:07.089][ERROR][src/service/control.rs:17] control: failed to bind socket"
    );
}

#[test]
fn a_log_line_without_a_target() {
    let line = format_record("2022-03-04 05:06:07.089", &record(Level::Info, ""));
    assert_eq!(
        line,
        "[2022-03-04 05:06:07.089][INFO][src/service/control.rs:17] failed to bind socket"
    );
}

#[test]
fn a_log_line_of_a_record_without_a_place() {
    let record = LogRecord {
        level: Level::Debug,
        file: None,
        line: None,
        target: String::new(),
        args: String::from("context 3 created"),
    };
    assert_eq!(format_record("t", &record), "[t][DEBUG][null:0] context 3 created");
}

#[test]
fn the_command_of_a_record() {
    match log_command("now", &record(Level::Error, "control")) {
        LoggerCommand::Log { content, is_error } => {
            assert!(is_error);
            assert_eq!(
                content,
                "[now][ERROR][src/service/control.rs:17] control: failed to bind socket"
            );
        }
        LoggerCommand::Flush => panic!("a record is logged, not flushed"),
    }
    match log_command("now", &record(Level::Warn, "control")) {
        LoggerCommand::Log { content, is_error } => {
            assert!(!is_error);
            assert_eq!(
                content,
                "[now][WARN][src/service/control.rs:17] control: failed to bind socket"
            );
        }
        LoggerCommand::Flush => panic!("a record is logged, not flushed"),
    }
}

#[test]
fn the_frontend_stamps_its_lines_with_the_local_time() {
    let frontend = LoggerFrontend {};
    assert!(frontend.enabled());
    match frontend.log(&record(Level::Trace, "")) {
        LoggerCommand::Log { content, is_error } => {
            assert!(!is_error);
            let tail = "][TRACE][src/service/control.rs:17] failed to bind socket";
            assert!(content.starts_with('['));
            assert!(content.ends_with(tail));
            let stamp = &content[1..content.len() - tail.len()];
            // four digits of the year, then -MM-DD HH:MM:SS.mmm
            assert_eq!(stamp.len(), 23);
            let bytes = stamp.as_bytes();
            for (i, b) in bytes.iter().enumerate() {
                match i {
                    4 | 7 => assert_eq!(*b, b'-'),
                    10 => assert_eq!(*b, b' '),
                    13 | 16 => assert_eq!(*b, b':'),
                    19 => assert_eq!(*b, b'.'),
                    _ => assert!(b.is_ascii_digit()),
                }
            }
        }
        LoggerCommand::Flush => panic!("a record is logged, not flushed"),
    }
    assert!(matches!(frontend.flush(), LoggerCommand::Flush));
}

#[test]
fn the_renames_of_a_rotation() {
    assert_eq!(rotation_renames(3), vec![(2, 3), (1, 2), (0, 1)]);
    assert_eq!(rotation_renames(1), vec![(0, 1)]);
    assert_eq!(rotation_renames(2), vec![(1, 2), (0, 1)]);
    assert_eq!(rotation_renames(0), Vec::<(usize, usize)>::new());
}

#[test]
fn the_names_of_the_log_files() {
    assert_eq!(log_file_name(0), "portal.log");
    assert_eq!(log_file_name(1), "portal.log.1");
    assert_eq!(log_file_name(3), "portal.log.3");
    assert_eq!(log_file_name(12), "portal.log.12");
}

#[test]
fn a_backend_is_set_up_from_the_config() {
    let config = LoggerConfig::default();
    let backend = LoggerBackend::new(&config, 42);
    assert_eq!(backend.state, BackendState::Running);
    assert!(backend.use_stdio);
    assert_eq!(backend.file_status, Some(LoggerFileStatus { file_len: 42 }));
    let quiet = LoggerConfig { use_stdio: false, use_file: false, ..config };
    let backend = LoggerBackend::new(&quiet, 42);
    assert!(!backend.use_stdio);
    assert_eq!(backend.file_status, None);
}

#[test]
fn lines_go_to_the_streams_and_to_the_file() {
    let config = LoggerConfig::default();
    let mut backend = LoggerBackend::new(&config, 0);
    assert_eq!(
        backend.log("hello", false, &config),
        vec![LoggerOp::WriteStdio(LogStream::Stdout), LoggerOp::WriteFile]
    );
    assert_eq!(backend.file_status, Some(LoggerFileStatus { file_len: 5 }));
    assert_eq!(
        backend.log("oops!", true, &config),
        vec![LoggerOp::WriteStdio(LogStream::Stderr), LoggerOp::WriteFile]
    );
    assert_eq!(backend.file_status, Some(LoggerFileStatus { file_len: 10 }));
}

#[test]
fn the_length_of_a_line_is_counted_in_bytes() {
    let config = LoggerConfig::default();
    let mut backend = LoggerBackend::new(&config, 0);
    backend.log("h\u{e9}llo \u{4e16}\u{754c}", false, &config);
    assert_eq!(backend.file_status, Some(LoggerFileStatus { file_len: 13 }));
}

#[test]
fn the_file_is_rotated_at_the_threshold() {
    let config = LoggerConfig {
        level: Level::Info,
        use_stdio: false,
        use_file: true,
        rotate_file_num_limit: 3,
        rotate_file_len_threshold: 10,
    };
    let mut backend = LoggerBackend::new(&config, 0);
    assert_eq!(backend.log("123456789", false, &config), vec![LoggerOp::WriteFile]);
    assert_eq!(backend.file_status, Some(LoggerFileStatus { file_len: 9 }));
    assert_eq!(
        backend.log("0", false, &config),
        vec![LoggerOp::WriteFile, LoggerOp::RotateFile]
    );
    assert_eq!(backend.file_status, Some(LoggerFileStatus { file_len: 0 }));
    assert_eq!(
        backend.log("12345678901234567890", true, &config),
        vec![LoggerOp::WriteFile, LoggerOp::RotateFile]
    );
    assert_eq!(backend.file_status, Some(LoggerFileStatus { file_len: 0 }));
}

#[test]
fn without_a_limit_the_file_is_never_rotated() {
    let config = LoggerConfig {
        level: Level::Info,
        use_stdio: true,
        use_file: true,
        rotate_file_num_limit: 0,
        rotate_file_len_threshold: 10,
    };
    let mut backend = LoggerBackend::new(&config, 8);
    assert_eq!(
        backend.log("12345", false, &config),
        vec![LoggerOp::WriteStdio(LogStream::Stdout), LoggerOp::WriteFile]
    );
    assert_eq!(backend.file_status, Some(LoggerFileStatus { file_len: 13 }));
}

#[test]
fn without_a_file_nothing_is_counted() {
    let config = LoggerConfig { use_file: false, ..LoggerConfig::default() };
    let mut backend = LoggerBackend::new(&config, 0);
    assert_eq!(
        backend.log("hello", true, &config),
        vec![LoggerOp::WriteStdio(LogStream::Stderr)]
    );
    assert_eq!(backend.file_status, None);
    let silent = LoggerConfig { use_stdio: false, use_file: false, ..LoggerConfig::default() };
    let mut backend = LoggerBackend::new(&silent, 0);
    assert_eq!(backend.log("hello", true, &silent), Vec::<LoggerOp>::new());
}

#[test]
fn what_is_flushed() {
    let config = LoggerConfig::default();
    let mut backend = LoggerBackend::new(&config, 7);
    assert_eq!(backend.flush(), vec![LoggerOp::FlushStdio, LoggerOp::FlushFile]);
    assert_eq!(backend.file_status, Some(LoggerFileStatus { file_len: 7 }));
    let no_file = LoggerConfig { use_file: false, ..config };
    assert_eq!(LoggerBackend::new(&no_file, 7).flush(), vec![LoggerOp::FlushStdio]);
    let no_stdio = LoggerConfig { use_stdio: false, ..config };
    assert_eq!(LoggerBackend::new(&no_stdio, 7).flush(), vec![LoggerOp::FlushFile]);
}

#[test]
fn a_command_is_logged_or_flushed() {
    let config = LoggerConfig::default();
    let mut backend = LoggerBackend::new(&config, 0);
    let log = LoggerCommand::Log { content: String::from("abc"), is_error: true };
    assert_eq!(
        backend.handle_cmd(&log, &config),
        vec![LoggerOp::WriteStdio(LogStream::Stderr), LoggerOp::WriteFile]
    );
    assert_eq!(backend.file_status, Some(LoggerFileStatus { file_len: 3 }));
    assert_eq!(
        backend.handle_cmd(&LoggerCommand::Flush, &config),
        vec![LoggerOp::FlushStdio, LoggerOp::FlushFile]
    );
    assert_eq!(backend.file_status, Some(LoggerFileStatus { file_len: 3 }));
}

#[test]
fn the_backend_drains_its_queue_after_cancellation() {
    let config = LoggerConfig::default();
    let mut backend = LoggerBackend::new(&config, 0);
    let log = LoggerCommand::Log { content: String::from("abc"), is_error: false };
    assert!(matches!(
        backend.run(BackendEvent::Command(log.clone())),
        BackendAction::Handle(LoggerCommand::Log { .. })
    ));
    assert_eq!(backend.state, BackendState::Running);
    assert!(matches!(backend.run(BackendEvent::Cancelled), BackendAction::CloseInput));
    assert_eq!(backend.state, BackendState::Draining);
    assert!(matches!(
        backend.run(BackendEvent::Command(LoggerCommand::Flush)),
        BackendAction::Handle(LoggerCommand::Flush)
    ));
    assert_eq!(backend.state, BackendState::Draining);
    assert!(matches!(backend.run(BackendEvent::Cancelled), BackendAction::Wait));
    assert_eq!(backend.state, BackendState::Draining);
    assert!(matches!(backend.run(BackendEvent::Closed), BackendAction::Stop));
    assert_eq!(backend.state, BackendState::Stopped);
    assert!(matches!(backend.run(BackendEvent::Command(log)), BackendAction::Stop));
    assert_eq!(backend.state, BackendState::Stopped);
}

#[test]
fn the_backend_stops_when_its_channel_ends() {
    let config = LoggerConfig::default();
    let mut backend = LoggerBackend::new(&config, 0);
    assert!(matches!(backend.run(BackendEvent::Closed), BackendAction::Stop));
    assert_eq!(backend.state, BackendState::Stopped);
    assert!(matches!(backend.run(BackendEvent::Cancelled), BackendAction::Stop));
    assert_eq!(backend.state, BackendState::Stopped);
}

#[test]
fn a_log_file_that_is_open_starts_the_logger() {
    let mut contexts: ContextTree<u32> = ContextTree::new();
    let root = contexts.new_context();
    let config = LoggerConfig::default();
    let (backend, done) = init(&mut contexts, root, &config, Some(42));
    let backend = backend.unwrap();
    assert_eq!(backend.state, BackendState::Running);
    assert!(backend.use_stdio);
    assert_eq!(backend.file_status, Some(LoggerFileStatus { file_len: 42 }));
    assert!(done.woken.is_empty());
    assert!(done.cancelled.is_empty());
    assert!(!contexts.is_cancelled(root));
}

#[test]
fn a_log_file_that_cannot_be_opened_stops_the_process() {
    let mut contexts: ContextTree<u32> = ContextTree::new();
    let root = contexts.new_context();
    let child = contexts.new_child(root);
    let wait = contexts.cancelled(child);
    contexts.poll(&wait, 3);
    let config = LoggerConfig::default();
    let (backend, done) = init(&mut contexts, root, &config, None);
    assert!(backend.is_none());
    assert_eq!(done.woken, vec![3]);
    assert_eq!(done.cancelled, vec![root.id(), child.id()]);
    assert!(contexts.is_cancelled(root));
    assert!(contexts.is_cancelled(child));
}

#[test]
fn a_logger_without_a_file_needs_none() {
    let mut contexts: ContextTree<u32> = ContextTree::new();
    let root = contexts.new_context();
    let config = LoggerConfig { use_file: false, ..LoggerConfig::default() };
    let (backend, done) = init(&mut contexts, root, &config, None);
    let backend = backend.unwrap();
    assert_eq!(backend.file_status, None);
    assert!(done.cancelled.is_empty());
    assert!(!contexts.is_cancelled(root));
}
