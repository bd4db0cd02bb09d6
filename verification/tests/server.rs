use statika::error::{ErrorKind, IoError};
use statika::exchange::{contains_denied_dotfile, request_path_for_log, RequestOutcome};
use statika::fs::{
    br_path, check_regular, check_root, gzip_path, is_not_found, walk_step, OpenMode, WalkStep,
};
use statika::log::{
    escape_json, log_accept_error, log_queue_discarded, log_request, log_started, log_stopped,
};
use statika::net::{
    duration_ms_ceil, poll_step, sendfile_can_fallback, timeout_ms, PollEvent, PollStep, Sending,
    TransferEvent, TransferStep, Writing,
};
use statika::queue::{discard_expired, Entered, QueueState, Taken, WorkItem};
use statika::response::Status;
use statika::server::{
    accept_failed, deadline_after, end_result, is_accept_resource_exhaustion,
    is_transient_accept_error, is_version_request, sleep_step, version_text, wait_failed,
    AcceptStep, JoinStep, Joining, ServerError,
};
use statika::config::{Config, EnvVar, Environment, ListenAddr};
use std::collections::VecDeque;

fn os_error(code: i32) -> IoError {
    IoError {
        kind: ErrorKind::Other,
        code: Some(code),
        message: format!("os error {code}"),
    }
}

fn own_error(kind: ErrorKind) -> IoError {
    IoError::new(kind, "failed")
}

#[test]
fn log_path_omits_query_string() {
    assert_eq!(
        request_path_for_log(b"/assets/app.js?token=secret"),
        "/assets/app.js"
    );
}

#[test]
fn descriptor_exhaustion_is_recoverable() {
    assert!(is_accept_resource_exhaustion(&os_error(libc::EMFILE)));
    assert!(is_accept_resource_exhaustion(&os_error(libc::ENFILE)));
}

#[test]
fn queue_discards_expired_connections() {
    let now = 5_000_000_000;
    let mut streams = VecDeque::new();
    streams.push_back(WorkItem {
        stream: "connection",
        accepted_at: now - 2_000_000_000,
        deadline: now - 1_000_000_000,
    });
    let mut state = QueueState {
        streams,
        closed: false,
    };

    assert_eq!(discard_expired(&mut state, now), 1);
    assert!(state.streams.is_empty());
}

#[test]
fn dotfile_denial_allows_well_known_only() {
    assert!(contains_denied_dotfile(&[b".env".to_vec()]));
    assert!(contains_denied_dotfile(&[
        b".well-known".to_vec(),
        b".secret".to_vec()
    ]));
    assert!(!contains_denied_dotfile(&[
        b".well-known".to_vec(),
        b"acme-challenge".to_vec(),
        b"token".to_vec()
    ]));
}

#[test]
fn prints_version_without_configuration() {
    assert!(is_version_request(Some("--version"), false));
    assert!(is_version_request(Some("-V"), false));
    assert!(!is_version_request(Some("--version"), true));
    assert!(!is_version_request(Some("-v"), false));
    assert!(!is_version_request(None, false));
    assert_eq!(version_text(), "statika 0.3.4");
}

fn item(stream: u32, deadline: u64) -> WorkItem<u32> {
    WorkItem {
        stream,
        accepted_at: 0,
        deadline,
    }
}

#[test]
fn queue_is_first_in_first_out_and_bounded() {
    let mut state: QueueState<u32> = QueueState::new(2);
    assert_eq!(state.make_room(2, false, 0), (0, true));
    assert_eq!(state.enter(item(1, 10), false, 0), Entered::Queued);
    assert_eq!(state.enter(item(2, 20), false, 0), Entered::Queued);
    assert_eq!(state.make_room(2, false, 0), (0, false));
    assert_eq!(state.make_room(2, true, 0), (0, true));
    assert_eq!(state.enter(item(3, 30), true, 0), Entered::Refused);
    assert_eq!(state.enter(item(3, 30), false, 30), Entered::Expired);
    let (discarded, taken) = state.take(5);
    assert_eq!(discarded, 0);
    assert!(matches!(taken, Taken::Work(work) if work.stream == 1));
    assert_eq!(state.enter(item(3, 30), false, 5), Entered::Queued);
    let (discarded, taken) = state.take(20);
    assert_eq!(discarded, 1);
    assert!(matches!(taken, Taken::Work(work) if work.stream == 3));
    assert!(matches!(state.take(20), (0, Taken::Wait)));
    assert_eq!(state.enter(item(4, 40), false, 5), Entered::Queued);
    state.close();
    assert!(state.streams.is_empty());
    assert!(matches!(state.take(20), (0, Taken::Finished)));
    assert_eq!(state.enter(item(5, 50), false, 5), Entered::Refused);
}

#[test]
fn accept_errors_are_told_apart() {
    for code in [
        libc::ENETDOWN,
        libc::EPROTO,
        libc::ENOPROTOOPT,
        libc::EHOSTDOWN,
        libc::ENONET,
        libc::EHOSTUNREACH,
        libc::EOPNOTSUPP,
        libc::ENETUNREACH,
        libc::ECONNABORTED,
    ] {
        assert!(is_transient_accept_error(&os_error(code)));
        assert!(!is_accept_resource_exhaustion(&os_error(code)));
        assert!(matches!(
            accept_failed(os_error(code)),
            AcceptStep::Pause(10_000_000)
        ));
    }
    assert!(!is_transient_accept_error(&os_error(libc::EMFILE)));
    assert!(!is_transient_accept_error(&own_error(ErrorKind::Other)));
    assert!(matches!(
        accept_failed(os_error(libc::EMFILE)),
        AcceptStep::Report(error, 100_000_000) if error.code == Some(libc::EMFILE)
    ));
    assert!(matches!(
        accept_failed(own_error(ErrorKind::Interrupted)),
        AcceptStep::Again
    ));
    assert!(matches!(
        accept_failed(own_error(ErrorKind::WouldBlock)),
        AcceptStep::Wait(100_000_000)
    ));
    assert!(matches!(
        accept_failed(os_error(libc::EBADF)),
        AcceptStep::Stop(ServerError::Io(error)) if error.code == Some(libc::EBADF)
    ));
    assert!(matches!(
        wait_failed(own_error(ErrorKind::TimedOut)),
        AcceptStep::Again
    ));
    assert!(matches!(
        wait_failed(own_error(ErrorKind::BrokenPipe)),
        AcceptStep::Stop(ServerError::Io(_))
    ));
}

#[test]
fn server_errors_have_words() {
    assert_eq!(
        ServerError::from(own_error(ErrorKind::Other)).message(),
        "failed"
    );
    assert_eq!(
        ServerError::ShutdownTimeout.message(),
        "workers did not stop before shutdown timeout"
    );
    assert_eq!(ServerError::WorkerPanic.message(), "worker thread panicked");
    assert!(matches!(
        end_result(
            Err(ServerError::WorkerPanic),
            Err(ServerError::ShutdownTimeout)
        ),
        Err(ServerError::WorkerPanic)
    ));
    assert!(matches!(
        end_result(Ok(()), Err(ServerError::ShutdownTimeout)),
        Err(ServerError::ShutdownTimeout)
    ));
    assert!(end_result(Ok(()), Ok(())).is_ok());
}

#[test]
fn pauses_look_for_the_shutdown() {
    assert_eq!(sleep_step(1_000_000_000, 0, false), Some(100_000_000));
    assert_eq!(
        sleep_step(1_000_000_000, 950_000_000, false),
        Some(50_000_000)
    );
    assert_eq!(sleep_step(1_000_000_000, 1_000_000_000, false), None);
    assert_eq!(sleep_step(1_000_000_000, 0, true), None);
    assert_eq!(deadline_after(7, 5), 5_000_000_007);
    assert_eq!(deadline_after(7, u64::MAX), u64::MAX);
    assert_eq!(deadline_after(u64::MAX - 1, 1), u64::MAX);
}

#[test]
fn workers_are_awaited_until_the_deadline() {
    let joining = Joining::new(2);
    assert_eq!(joining.next(10, 4), JoinStep::Wait(6));
    assert_eq!(joining.next(10, 10), JoinStep::Expired);
    let joining = joining.completed(1).completed(1).completed(7);
    assert_eq!(joining.next(10, 4), JoinStep::Wait(6));
    let joining = joining.completed(0);
    assert_eq!(joining.next(10, 10), JoinStep::Join);
    assert_eq!(Joining::new(0).next(0, 1), JoinStep::Join);
}

#[test]
fn missing_files_are_recognised() {
    assert!(is_not_found(&own_error(ErrorKind::NotFound)));
    assert!(is_not_found(&own_error(ErrorKind::PermissionDenied)));
    assert!(is_not_found(&own_error(ErrorKind::NotADirectory)));
    assert!(is_not_found(&os_error(libc::ELOOP)));
    assert!(!is_not_found(&os_error(libc::EIO)));
    assert!(!is_not_found(&own_error(ErrorKind::Other)));
}

#[test]
fn sidecars_lie_beside_the_file() {
    let path = [b"assets".to_vec(), b"app.js".to_vec()];
    assert_eq!(
        gzip_path(&path),
        vec![b"assets".to_vec(), b"app.js.gz".to_vec()]
    );
    assert_eq!(
        br_path(&path),
        vec![b"assets".to_vec(), b"app.js.br".to_vec()]
    );
    assert!(gzip_path(&[]).is_empty());
}

#[test]
fn files_are_opened_component_by_component() {
    let path = [b"a".to_vec(), b"b".to_vec()];
    assert!(matches!(
        walk_step(&path, 0),
        WalkStep::Open(0, mode) if mode == OpenMode::for_directory() && mode.directory
    ));
    assert!(matches!(
        walk_step(&path, 1),
        WalkStep::Open(1, mode) if mode == OpenMode::for_file() && mode.nonblocking && !mode.follow
    ));
    assert!(matches!(walk_step(&path, 2), WalkStep::Inspect));
    assert!(matches!(
        walk_step(&[], 0),
        WalkStep::Fail(error) if error.kind == ErrorKind::NotFound && error.message == "empty path"
    ));
    assert!(matches!(
        walk_step(&[b"a\0".to_vec()], 0),
        WalkStep::Fail(error) if error.kind == ErrorKind::InvalidInput
    ));
    assert!(check_regular(true).is_none());
    assert_eq!(
        check_regular(false).unwrap().message,
        "not a regular file"
    );
    assert!(check_root(b"/srv").is_none());
    assert_eq!(
        check_root(b"/s\0").unwrap().message,
        "document root contains NUL"
    );
}

#[test]
fn waits_are_rounded_up() {
    assert_eq!(duration_ms_ceil(0), 0);
    assert_eq!(duration_ms_ceil(1), 1);
    assert_eq!(duration_ms_ceil(1_000_000), 1);
    assert_eq!(duration_ms_ceil(1_000_001), 2);
    assert_eq!(timeout_ms(5_000_001, 0).unwrap(), 6);
    assert_eq!(timeout_ms(u64::MAX, 0).unwrap(), i32::MAX);
    assert_eq!(timeout_ms(5, 5).unwrap_err().kind, ErrorKind::TimedOut);
}

#[test]
fn waits_end_with_what_happened() {
    let woken = |revents| poll_step(PollEvent::Woken { revents }, libc::POLLIN);
    assert!(matches!(woken(libc::POLLIN | libc::POLLHUP), PollStep::Ready));
    for fault in [libc::POLLERR, libc::POLLHUP, libc::POLLNVAL] {
        assert!(matches!(
            woken(fault),
            PollStep::Fail(error) if error.kind == ErrorKind::BrokenPipe
        ));
    }
    assert!(matches!(woken(libc::POLLOUT), PollStep::Again));
    assert!(matches!(
        poll_step(PollEvent::Expired, libc::POLLIN),
        PollStep::Fail(error) if error.message == "operation timed out"
    ));
    assert!(matches!(
        poll_step(PollEvent::Failed(own_error(ErrorKind::Interrupted)), 1),
        PollStep::Again
    ));
    assert!(matches!(
        poll_step(PollEvent::Failed(os_error(libc::EBADF)), 1),
        PollStep::Fail(_)
    ));
}

#[test]
fn everything_is_written() {
    let mut writing = Writing::new(10);
    assert!(matches!(
        writing.step(TransferEvent::Moved(4)),
        TransferStep::Continue
    ));
    assert!(matches!(
        writing.step(TransferEvent::Failed(own_error(ErrorKind::Interrupted))),
        TransferStep::Continue
    ));
    assert!(matches!(
        writing.step(TransferEvent::Failed(own_error(ErrorKind::WouldBlock))),
        TransferStep::Wait
    ));
    assert_eq!(writing.written, 4);
    assert!(!writing.is_done());
    assert!(matches!(
        writing.step(TransferEvent::Moved(0)),
        TransferStep::Fail(error) if error.kind == ErrorKind::WriteZero
    ));
    assert!(matches!(
        writing.step(TransferEvent::Moved(6)),
        TransferStep::Continue
    ));
    assert!(writing.is_done());
}

#[test]
fn files_are_sent_in_chunks() {
    let mut sending = Sending::new((1 << 30) + 5);
    assert_eq!(sending.chunk(), 1 << 30);
    assert_eq!(sending.read_chunk(), 65_536);
    assert!(matches!(
        sending.step(TransferEvent::Moved(1 << 30)),
        TransferStep::Continue
    ));
    assert_eq!(sending.chunk(), 5);
    assert_eq!(sending.read_chunk(), 5);
    assert!(matches!(
        sending.step(TransferEvent::Failed(os_error(libc::EINVAL))),
        TransferStep::Copy
    ));
    assert!(sendfile_can_fallback(&os_error(libc::ENOSYS)));
    assert!(!sendfile_can_fallback(&os_error(libc::EPIPE)));
    assert!(matches!(
        sending.step(TransferEvent::Failed(os_error(libc::EPIPE))),
        TransferStep::Fail(_)
    ));
    assert!(matches!(
        sending.step(TransferEvent::Moved(0)),
        TransferStep::Fail(error) if error.message == "file changed while being sent"
    ));
    assert!(sending.copied(3).is_none());
    assert_eq!(
        sending.copied(0).unwrap().kind,
        ErrorKind::UnexpectedEof
    );
    assert!(!sending.is_done());
    assert!(sending.copied(2).is_none());
    assert!(sending.is_done());
    assert_eq!(sending.sent, (1 << 30) + 5);
}

#[test]
fn log_texts_are_escaped() {
    assert_eq!(escape_json("plain \u{e9}"), "plain \u{e9}");
    assert_eq!(
        escape_json("\"\\\n\r\t\u{0}\u{1f}\u{7f}\u{9f}"),
        "\\\"\\\\\\n\\r\\t\\u0000\\u001f\\u007f\\u009f"
    );
}

#[test]
fn log_lines_are_json() {
    assert_eq!(
        log_stopped(true),
        "{\"event\":\"stopped\",\"clean\":true}"
    );
    assert_eq!(
        log_queue_discarded(12),
        "{\"event\":\"queue_discarded\",\"count\":12}"
    );
    assert_eq!(
        log_accept_error("too \"many\""),
        "{\"event\":\"accept_error\",\"error\":\"too \\\"many\\\"\"}"
    );
    let outcome = RequestOutcome::new("GET".to_owned(), "/a\nb".to_owned(), Status::Okay, 7);
    assert_eq!(
        log_request(Some("127.0.0.1:5"), &outcome, 3),
        concat_text(&[
            "{\"event\":\"request\",\"remote\":\"127.0.0.1:5\",",
            "\"method\":\"GET\",\"path\":\"/a\\nb\",\"status\":200,",
            "\"bytes\":7,\"duration_ms\":3}",
        ])
    );
    let outcome = RequestOutcome::error(
        "UNKNOWN".to_owned(),
        String::new(),
        Status::RequestTimeout,
        "timeout",
    );
    assert_eq!(
        log_request(None, &outcome, 0),
        concat_text(&[
            "{\"event\":\"request\",\"remote\":\"\",",
            "\"method\":\"UNKNOWN\",\"path\":\"\",\"status\":408,",
            "\"bytes\":0,\"duration_ms\":0,\"error\":\"timeout\"}",
        ])
    );
}

fn concat_text(parts: &[&str]) -> String {
    parts.concat()
}

#[test]
fn the_start_is_logged() {
    let env = Environment {
        listen_addr: EnvVar::Absent,
        root: Some(b"/srv/\xff\"".to_vec()),
        index: None,
        assets_path: None,
        threads: EnvVar::Absent,
        queue_size: EnvVar::Absent,
        gzip: EnvVar::Absent,
        brotli: EnvVar::Text("off".to_owned()),
        deny_dotfiles: EnvVar::Absent,
        request_timeout_secs: EnvVar::Absent,
        shutdown_timeout_secs: EnvVar::Absent,
        extra_headers: EnvVar::Absent,
    };
    let listen = ListenAddr::V4 {
        octets: [0, 0, 0, 0],
        port: 8080,
    };
    let config = Config::from_env(&env, Some(listen), Some(2)).unwrap();
    assert_eq!(
        log_started(&config, "0.0.0.0:8080"),
        concat_text(&[
            "{\"event\":\"started\",\"listen\":\"0.0.0.0:8080\",",
            "\"root\":\"/srv/\u{fffd}\\\"\",\"threads\":2,\"queue_size\":128,",
            "\"gzip\":true,\"brotli\":false,\"deny_dotfiles\":true}",
        ])
    );
}
