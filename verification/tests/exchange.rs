use statika::cache::{cache_control, etag, is_not_modified, FileMeta};
use statika::config::{Config, EnvVar, Environment, ListenAddr};
use statika::date::http_date;
use statika::error::{ErrorKind, IoError};
use statika::exchange::{Body, Clock, Exchange, RequestOutcome};
use statika::reader::{find_header_end, ReadEvent, ReadStep, RequestReader};
use statika::response::Status;

const SECOND: u64 = 1_000_000_000;

fn text(value: &str) -> EnvVar {
    EnvVar::Text(value.to_owned())
}

fn settings(index: &[u8], deny_dotfiles: &str, extra: EnvVar) -> Config {
    let env = Environment {
        listen_addr: EnvVar::Absent,
        root: Some(b"/srv/www".to_vec()),
        index: Some(index.to_vec()),
        assets_path: None,
        threads: text("2"),
        queue_size: text("4"),
        gzip: text("1"),
        brotli: text("1"),
        deny_dotfiles: text(deny_dotfiles),
        request_timeout_secs: text("1"),
        shutdown_timeout_secs: text("3"),
        extra_headers: extra,
    };
    let listen = ListenAddr::V4 {
        octets: [127, 0, 0, 1],
        port: 80,
    };
    Config::from_env(&env, Some(listen), Some(1)).unwrap()
}

fn fixture() -> Vec<(&'static str, &'static [u8])> {
    vec![
        ("index.html", b"INDEX"),
        ("assets/app.js", b"plain-app"),
        ("assets/app.js.gz", b"gzip-app"),
        ("assets/app.js.br", b"br-app"),
        ("assets/app.0123abcd.js", b"hashed-app"),
        (".env", b"secret"),
        (".well-known/acme-challenge/token", b"token"),
    ]
}

fn meta_of(index: usize, content: &[u8]) -> FileMeta {
    FileMeta {
        ino: 100 + index as u64,
        len: content.len() as u64,
        mtime: 1_700_000_000 + index as i64,
        mtime_nsec: 5,
    }
}

fn clock() -> Clock {
    Clock {
        nanos: 10 * SECOND,
        unix_seconds: 784_111_777,
    }
}

struct Answer {
    head: String,
    body: Vec<u8>,
    outcome: RequestOutcome,
}

fn joined(path: &[Vec<u8>]) -> String {
    let names: Vec<String> = path
        .iter()
        .map(|name| String::from_utf8_lossy(name).into_owned())
        .collect();
    names.join("/")
}

fn run(config: &Config, files: &[(&str, &[u8])], request: &str) -> Answer {
    let mut head = Vec::new();
    let mut body = Vec::new();
    let mut opened = usize::MAX;
    let mut next = Exchange::begin(config, 11 * SECOND, clock());
    loop {
        next = match next {
            Exchange::Read(pending) => {
                let (reader, step) = RequestReader::new().step(ReadEvent::Data(request.as_bytes()));
                let result = match step {
                    ReadStep::Done(result) => result,
                    _ => match reader.step(ReadEvent::Data(b"")).1 {
                        ReadStep::Done(result) => result,
                        _ => unreachable!(),
                    },
                };
                pending.received(config, result, clock())
            }
            Exchange::Open(search) => {
                let wanted = joined(&search.path());
                let error = match files.iter().position(|(name, _)| *name == wanted) {
                    Some(index) => {
                        opened = index;
                        None
                    }
                    None if wanted.contains("escape") => Some(IoError {
                        kind: ErrorKind::Other,
                        code: Some(libc::ELOOP),
                        message: String::new(),
                    }),
                    None if wanted.contains("linked-dir") => {
                        Some(IoError::new(ErrorKind::NotADirectory, ""))
                    }
                    None if wanted.contains("broken") => Some(IoError::new(ErrorKind::Other, "")),
                    None => Some(IoError::new(ErrorKind::NotFound, "")),
                };
                search.opened(config, error.as_ref(), clock())
            }
            Exchange::Inspect(file) => {
                file.inspected(config, Some(meta_of(opened, files[opened].1)), clock())
            }
            Exchange::WriteHead(reply) => {
                head = reply.head.clone();
                reply.head_written(true)
            }
            Exchange::WriteBody(reply) => {
                if let Body::Bytes(bytes) = &reply.body {
                    body = bytes.clone();
                }
                Exchange::Done(reply.body_written(true))
            }
            Exchange::SendFile(reply) => {
                body = files[opened].1.to_vec();
                Exchange::Done(reply.file_sent(Some(body.len() as u64)))
            }
            Exchange::Done(outcome) => {
                return Answer {
                    head: String::from_utf8(head).unwrap(),
                    body,
                    outcome,
                }
            }
        };
    }
}

fn header<'a>(head: &'a str, name: &str) -> Option<&'a str> {
    let prefix = format!("{name}: ");
    head.lines()
        .find_map(|line| line.strip_prefix(prefix.as_str()))
}

#[test]
fn serves_health_spa_assets_head_encodings_and_conditionals() {
    let config = settings(b"index.html", "1", EnvVar::Absent);
    let files = fixture();
    let request = |text: &str| {
        let answer = run(&config, &files, text);
        (answer.head, answer.body)
    };

    let (head, body) = request("GET /health?probe=1 HTTP/1.1\r\nHost: localhost\r\n\r\n");
    assert!(head.starts_with("HTTP/1.1 200 OK"));
    assert_eq!(body, b"ok\n");

    let (head, body) = request(
        "GET /assets/app.js HTTP/1.1\r\nHost: localhost\r\nAccept-Encoding: br, gzip;q=1.0\r\n\r\n",
    );
    assert!(head.starts_with("HTTP/1.1 200 OK"));
    assert!(head.contains("Content-Encoding: br"));
    assert!(head.contains("Vary: Accept-Encoding"));
    assert!(head.contains("Cache-Control: public, max-age=3600"));
    assert!(head.contains("Last-Modified: "));
    assert_eq!(body, b"br-app");
    let etag = header(&head, "ETag").unwrap().to_owned();
    let last_modified = header(&head, "Last-Modified").unwrap().to_owned();

    let (head, body) = request(
        "GET /assets/app.js HTTP/1.1\r\nHost: localhost\r\nAccept-Encoding: gzip;q=1.0, br;q=0\r\n\r\n",
    );
    assert!(head.starts_with("HTTP/1.1 200 OK"));
    assert!(head.contains("Content-Encoding: gzip"));
    assert_eq!(body, b"gzip-app");

    let (head, body) = request(
        "GET /assets/app.js HTTP/1.1\r\nHost: localhost\r\nAccept-Encoding: gzip;q=0, br;q=0\r\n\r\n",
    );
    assert!(head.starts_with("HTTP/1.1 200 OK"));
    assert!(!head.contains("Content-Encoding:"));
    assert_eq!(body, b"plain-app");

    let (head, body) = request(&format!(
        "GET /assets/app.js HTTP/1.1\r\nHost: localhost\r\nAccept-Encoding: br\r\nIf-None-Match: {etag}\r\n\r\n",
    ));
    assert!(head.starts_with("HTTP/1.1 304 Not Modified"));
    assert!(body.is_empty());

    let (head, body) = request(&format!(
        "GET /assets/app.js HTTP/1.1\r\nHost: localhost\r\nAccept-Encoding: br\r\nIf-Modified-Since: {last_modified}\r\n\r\n",
    ));
    assert!(head.starts_with("HTTP/1.1 304 Not Modified"));
    assert!(body.is_empty());

    let (head, body) = request("HEAD /assets/app.js HTTP/1.1\r\nHost: localhost\r\n\r\n");
    assert!(head.starts_with("HTTP/1.1 200 OK"));
    assert_eq!(header(&head, "Content-Length"), Some("9"));
    assert!(body.is_empty());

    let (head, body) = request("GET /assets/app.0123abcd.js HTTP/1.1\r\nHost: localhost\r\n\r\n");
    assert!(head.contains("Cache-Control: public, max-age=31536000, immutable"));
    assert_eq!(body, b"hashed-app");

    let (head, body) = request("GET /application/route HTTP/1.1\r\nHost: localhost\r\n\r\n");
    assert!(head.starts_with("HTTP/1.1 200 OK"));
    assert!(head.contains("Cache-Control: no-cache"));
    assert_eq!(body, b"INDEX");
}

#[test]
fn rejects_asset_fallback_symlinks_dotfiles_bad_targets_and_unsupported_methods() {
    let config = settings(b"index.html", "1", EnvVar::Absent);
    let files = fixture();
    let request = |text: &str| {
        let answer = run(&config, &files, text);
        (answer.head, answer.body)
    };

    let (head, body) = request("GET /assets/missing.js HTTP/1.1\r\nHost: localhost\r\n\r\n");
    assert!(head.starts_with("HTTP/1.1 404 Not Found"));
    assert_eq!(body, b"not found\n");

    let (head, body) = request("GET /assets/escape.txt HTTP/1.1\r\nHost: localhost\r\n\r\n");
    assert!(head.starts_with("HTTP/1.1 404 Not Found"));
    assert_eq!(body, b"not found\n");

    let (head, body) =
        request("GET /assets/linked-dir/secret.txt HTTP/1.1\r\nHost: localhost\r\n\r\n");
    assert!(head.starts_with("HTTP/1.1 404 Not Found"));
    assert_eq!(body, b"not found\n");

    for target in [
        "/%2e%2e/secret",
        "/assets/%2e%2e/secret",
        "/assets%2f..%2fsecret",
        "/assets/%00.js",
    ] {
        let (head, _) = request(&format!(
            "GET {target} HTTP/1.1\r\nHost: localhost\r\n\r\n"
        ));
        assert!(
            head.starts_with("HTTP/1.1 400 Bad Request"),
            "{target}: {head}"
        );
    }

    let (head, body) = request("GET /.env HTTP/1.1\r\nHost: localhost\r\n\r\n");
    assert!(head.starts_with("HTTP/1.1 404 Not Found"));
    assert_eq!(body, b"not found\n");

    let (head, body) =
        request("GET /.well-known/acme-challenge/token HTTP/1.1\r\nHost: localhost\r\n\r\n");
    assert!(head.starts_with("HTTP/1.1 200 OK"));
    assert_eq!(body, b"token");

    let (head, _) = request("GET /health HTTP/1.1\r\n\r\n");
    assert!(head.starts_with("HTTP/1.1 400 Bad Request"));

    let (head, _) = request("POST /health HTTP/1.1\r\nHost: localhost\r\n\r\n");
    assert!(head.starts_with("HTTP/1.1 405 Method Not Allowed"));
    assert!(head.contains("Allow: GET, HEAD"));

    let (head, body) = request("HEAD /assets/missing.js HTTP/1.1\r\nHost: localhost\r\n\r\n");
    assert!(head.starts_with("HTTP/1.1 404 Not Found"));
    assert!(body.is_empty());
}

#[test]
fn files_are_answered_exactly() {
    let config = settings(b"index.html", "1", text("X-Frame-Options: DENY"));
    let answer = run(
        &config,
        &fixture(),
        "GET /assets/app.js?v=1 HTTP/1.1\r\nHost: a\r\nAccept-Encoding: gzip\r\n\r\n",
    );
    let lines = [
        "HTTP/1.1 200 OK",
        "Server: statika",
        "Connection: close",
        "X-Content-Type-Options: nosniff",
        "Date: Sun, 06 Nov 1994 08:49:37 GMT",
        "Content-Length: 8",
        "Content-Type: text/javascript; charset=utf-8",
        "Cache-Control: public, max-age=3600",
        "ETag: \"66-8-6553f102-5\"",
        "Last-Modified: Tue, 14 Nov 2023 22:13:22 GMT",
        "Vary: Accept-Encoding",
        "Content-Encoding: gzip",
        "X-Frame-Options: DENY",
        "",
        "",
    ];
    assert_eq!(answer.head, lines.join("\r\n"));
    assert_eq!(
        find_header_end(answer.head.as_bytes()),
        Some(answer.head.len())
    );
    assert_eq!(answer.outcome.method, "GET");
    assert_eq!(answer.outcome.path, "/assets/app.js");
    assert_eq!(answer.outcome.status, Status::Okay);
    assert_eq!(answer.outcome.bytes, 8);
    assert_eq!(answer.outcome.error, None);
}

#[test]
fn errors_are_answered_exactly() {
    let config = settings(b"index.html", "1", text("X-Frame-Options: DENY"));
    let answer = run(&config, &fixture(), "PUT / HTTP/1.1\r\nHost: a\r\n\r\n");
    let lines = [
        "HTTP/1.1 405 Method Not Allowed",
        "Server: statika",
        "Connection: close",
        "X-Content-Type-Options: nosniff",
        "Date: Sun, 06 Nov 1994 08:49:37 GMT",
        "Content-Length: 19",
        "Content-Type: text/plain; charset=utf-8",
        "Cache-Control: no-store",
        "Allow: GET, HEAD",
        "X-Frame-Options: DENY",
        "",
        "",
    ];
    assert_eq!(answer.head, lines.join("\r\n"));
    assert_eq!(answer.body, b"method not allowed\n");
    assert_eq!(answer.outcome.method, "PUT");
    assert_eq!(answer.outcome.error, Some("method_not_allowed"));
    assert_eq!(answer.outcome.bytes, 19);
}

fn error_of(config: &Config, files: &[(&str, &[u8])], request: &str) -> (u16, &'static str) {
    let outcome = run(config, files, request).outcome;
    (outcome.status.code(), outcome.error.unwrap_or(""))
}

#[test]
fn every_refusal_has_its_name() {
    let config = settings(b"index.html", "1", EnvVar::Absent);
    let files = fixture();
    let get = |target: &str| format!("GET {target} HTTP/1.0\r\n\r\n");
    assert_eq!(error_of(&config, &files, "GET"), (400, "bad_request"));
    assert_eq!(
        error_of(&config, &files, &"x".repeat(16_385)),
        (431, "header_too_large")
    );
    assert_eq!(error_of(&config, &files, &get("/%zz")), (400, "bad_target"));
    assert_eq!(
        error_of(&config, &files, &get("/a/.git/x")),
        (404, "dotfile_denied")
    );
    assert_eq!(
        error_of(&config, &files, &get("/assets/none")),
        (404, "not_found")
    );
    assert_eq!(
        error_of(&config, &files, &get("/broken")),
        (500, "open_file")
    );
    assert_eq!(error_of(&config, &[], &get("/none")), (404, "not_found"));
    let broken = settings(b"broken.html", "1", EnvVar::Absent);
    assert_eq!(
        error_of(&broken, &files, &get("/none")),
        (500, "open_index")
    );
    let hidden = settings(b".hidden.html", "1", EnvVar::Absent);
    assert_eq!(
        error_of(&hidden, &files, &get("/none")),
        (404, "dotfile_denied")
    );
    let open = settings(b"index.html", "0", EnvVar::Absent);
    assert_eq!(error_of(&open, &files, &get("/.env")), (200, ""));
}

#[test]
fn denied_dotfiles_are_not_revealed() {
    let config = settings(b"index.html", "1", EnvVar::Absent);
    let hidden = settings(b"sub/.hidden.html", "1", EnvVar::Absent);
    let files: Vec<(&str, &[u8])> = vec![
        ("index.html", b"INDEX"),
        (".env", b"secret"),
        ("docs/sub/.hidden.html", b"secret"),
        ("sub/.hidden.html", b"secret"),
    ];
    for (config, target) in [
        (&config, "/.env"),
        (&config, "/a/.env/b"),
        (&hidden, "/"),
        (&hidden, "/docs/"),
    ] {
        let request = format!("GET {target} HTTP/1.0\r\n\r\n");
        let present = run(config, &files, &request);
        let absent = run(config, &[], &request);
        assert_eq!(present.outcome.status, Status::NotFound);
        assert_eq!(present.outcome.error, Some("dotfile_denied"));
        assert_eq!(present.body, b"not found\n");
        assert_eq!(present.head, absent.head);
        assert_eq!(present.body, absent.body);
        assert_eq!(absent.outcome.error, Some("dotfile_denied"));
    }
    let answer = run(&hidden, &files, "GET /health/ HTTP/1.0\r\n\r\n");
    assert_eq!(answer.outcome.status, Status::Okay);
    assert_eq!(answer.body, b"ok\n");
}

#[test]
fn connections_that_waited_too_long_are_told() {
    let config = settings(b"index.html", "1", EnvVar::Absent);
    let next = Exchange::begin(&config, 10 * SECOND, clock());
    assert!(matches!(
        &next,
        Exchange::WriteHead(reply)
            if reply.status == Status::RequestTimeout
                && reply.error == Some("queue_timeout")
                && reply.deadline == 10 * SECOND + 250_000_000
    ));
    if let Exchange::WriteHead(reply) = next {
        let done = reply.head_written(false);
        assert!(matches!(
            done,
            Exchange::Done(outcome) if outcome.error == Some("write_header") && outcome.bytes == 0
        ));
    }
    assert!(matches!(
        Exchange::begin(&config, 10 * SECOND + 1, clock()),
        Exchange::Read(pending) if pending.deadline == 10 * SECOND + 1
    ));
}

#[test]
fn broken_connections_are_not_answered() {
    let config = settings(b"index.html", "1", EnvVar::Absent);
    let fail = |kind| match Exchange::begin(&config, 11 * SECOND, clock()) {
        Exchange::Read(pending) => {
            let event = ReadEvent::Failed(IoError::new(kind, ""));
            match RequestReader::new().step(event).1 {
                ReadStep::Done(result) => pending.received(&config, result, clock()),
                _ => unreachable!(),
            }
        }
        other => other,
    };
    assert!(matches!(
        fail(ErrorKind::Other),
        Exchange::Done(outcome)
            if outcome.error == Some("read_io") && outcome.status == Status::InternalServerError
    ));
    assert!(matches!(
        fail(ErrorKind::TimedOut),
        Exchange::WriteHead(reply)
            if reply.error == Some("timeout") && reply.status == Status::RequestTimeout
    ));
}

#[test]
fn directories_are_served_by_their_index() {
    let config = settings(b"index.html", "1", EnvVar::Absent);
    let files: Vec<(&str, &[u8])> = vec![("index.html", b"ROOT"), ("docs/index.html", b"DOCS")];
    assert_eq!(
        run(&config, &files, "GET / HTTP/1.0\r\n\r\n").body,
        b"ROOT"
    );
    assert_eq!(
        run(&config, &files, "GET /docs/ HTTP/1.0\r\n\r\n").body,
        b"DOCS"
    );
    assert_eq!(
        run(&config, &files, "GET /docs HTTP/1.0\r\n\r\n").body,
        b"ROOT"
    );
}

#[test]
fn undelivered_responses_are_logged() {
    let config = settings(b"index.html", "1", EnvVar::Absent);
    let files = fixture();
    let mut next = Exchange::begin(&config, 11 * SECOND, clock());
    loop {
        next = match next {
            Exchange::Read(pending) => {
                let request = b"GET / HTTP/1.0\r\n\r\n";
                match RequestReader::new().step(ReadEvent::Data(request)).1 {
                    ReadStep::Done(result) => pending.received(&config, result, clock()),
                    _ => unreachable!(),
                }
            }
            Exchange::Open(search) => search.opened(&config, None, clock()),
            Exchange::Inspect(file) => {
                file.inspected(&config, Some(meta_of(0, files[0].1)), clock())
            }
            Exchange::WriteHead(reply) => reply.head_written(true),
            Exchange::SendFile(reply) => Exchange::Done(reply.file_sent(None)),
            Exchange::WriteBody(reply) => Exchange::Done(reply.body_written(false)),
            Exchange::Done(outcome) => {
                assert_eq!(outcome.error, Some("send_file"));
                assert_eq!(outcome.status, Status::Okay);
                assert_eq!(outcome.bytes, 0);
                break;
            }
        };
    }
    match Exchange::begin(&config, 11 * SECOND, clock()) {
        Exchange::Read(pending) => {
            let result = Err(statika::http::RequestError::BadRequest);
            match pending.received(&config, result, clock()) {
                Exchange::WriteHead(reply) => match reply.head_written(true) {
                    Exchange::WriteBody(reply) => {
                        assert_eq!(reply.body_written(false).error, Some("write_body"));
                    }
                    _ => unreachable!(),
                },
                _ => unreachable!(),
            }
        }
        _ => unreachable!(),
    }
}

#[test]
fn files_that_cannot_be_inspected_are_errors() {
    let config = settings(b"index.html", "1", EnvVar::Absent);
    match Exchange::begin(&config, 11 * SECOND, clock()) {
        Exchange::Read(pending) => {
            let request = b"GET / HTTP/1.0\r\n\r\n";
            let result = match RequestReader::new().step(ReadEvent::Data(request)).1 {
                ReadStep::Done(result) => result,
                _ => unreachable!(),
            };
            match pending.received(&config, result, clock()) {
                Exchange::Open(search) => match search.opened(&config, None, clock()) {
                    Exchange::Inspect(file) => assert!(matches!(
                        file.inspected(&config, None, clock()),
                        Exchange::WriteHead(reply)
                            if reply.error == Some("metadata")
                                && reply.status == Status::InternalServerError
                    )),
                    _ => unreachable!(),
                },
                _ => unreachable!(),
            }
        }
        _ => unreachable!(),
    }
}

#[test]
fn tags_identify_files() {
    let meta = FileMeta {
        ino: 255,
        len: 0,
        mtime: -1,
        mtime_nsec: 16,
    };
    assert_eq!(etag(&meta), "\"ff-0-ffffffffffffffff-10\"");
    let other = FileMeta { len: 1, ..meta };
    assert_ne!(etag(&meta), etag(&other));
}

#[test]
fn conditions_have_their_precedence() {
    let header = |text: &str| {
        let text = format!("GET / HTTP/1.0\r\n{text}\r\n\r\n");
        statika::http::parse_request(text.as_bytes()).unwrap()
    };
    let tag = "\"a-b\"";
    let date = http_date(1000);
    let since = header(&format!("If-Modified-Since: {date}"));
    assert!(is_not_modified(&since, tag, 1000));
    assert!(is_not_modified(&since, tag, 0));
    assert!(!is_not_modified(&since, tag, 1001));
    assert!(!is_not_modified(&since, tag, -1));
    let both = header(&format!(
        "If-Modified-Since: {date}\r\nIf-None-Match: \"x\", W/\"y\""
    ));
    assert!(!is_not_modified(&both, tag, 0));
    let listed = header("If-None-Match: \"x\" , W/\"a-b\" ,\"z\"");
    assert!(is_not_modified(&listed, tag, 5000));
    assert!(!is_not_modified(&header("X: y"), tag, 0));
}

#[test]
fn cache_lifetimes_follow_the_path() {
    let config = settings(b"assets/index.html", "1", EnvVar::Absent);
    let path = |text: &str| -> Vec<Vec<u8>> {
        text.split('/').map(|part| part.as_bytes().to_vec()).collect()
    };
    let hashed = path("assets/app.0123abcd.js");
    assert_eq!(
        cache_control(&hashed, false, &config),
        "public, max-age=31536000, immutable"
    );
    assert_eq!(
        cache_control(&path("assets/app.js"), false, &config),
        "public, max-age=3600"
    );
    assert_eq!(cache_control(&hashed, true, &config), "no-cache");
    assert_eq!(
        cache_control(&path("assets/index.html"), false, &config),
        "no-cache"
    );
    assert_eq!(
        cache_control(&path("app.0123abcd.js"), false, &config),
        "no-cache"
    );
}
