use statika::cache::if_none_match_matches;
use statika::date::{http_date, parse_http_date};
use statika::encoding::{accepted_encodings, parse_quality, AcceptedEncodings};
use statika::http::{parse_request, Method, Request, RequestError};
use statika::mime::{content_type, has_fingerprint};
use statika::reader::{
    find_header_end, map_io, ReadEvent, ReadStep, RequestReader, MAX_HEADER_BYTES,
};
use statika::error::{ErrorKind, IoError};
use statika::response::{response_head, response_head_at, unix_seconds, Status};
use statika::target::decode_target;

fn request(text: &str) -> Request {
    parse_request(text.as_bytes()).unwrap()
}

fn refused(text: &str) -> bool {
    matches!(
        parse_request(text.as_bytes()),
        Err(RequestError::BadRequest)
    )
}

#[test]
fn encoding_quality_is_respected() {
    assert_eq!(
        accepted_encodings(b"br, gzip;q=1.0"),
        AcceptedEncodings {
            br_q: 1000,
            gzip_q: 1000,
        }
    );
    assert_eq!(
        accepted_encodings(b"gzip;q=0, br;q=1"),
        AcceptedEncodings {
            br_q: 1000,
            gzip_q: 0,
        }
    );
    assert_eq!(
        accepted_encodings(b"gzip;q=0, *;q=1"),
        AcceptedEncodings {
            br_q: 1000,
            gzip_q: 0,
        }
    );
}

#[test]
fn target_decode_rejects_escapes() {
    assert!(decode_target(b"/%2e%2e/secret").is_err());
    assert!(decode_target(b"/assets/%00.js").is_err());
    assert!(decode_target(b"/assets%2f..%2fsecret").is_err());
    assert_eq!(
        decode_target(b"/route?q=1").unwrap().components,
        vec![b"route".to_vec()]
    );
}

#[test]
fn fingerprint_detection_is_conservative() {
    assert!(has_fingerprint(&[
        b"assets".to_vec(),
        b"app.0123abcd.js".to_vec()
    ]));
    assert!(!has_fingerprint(&[b"assets".to_vec(), b"app.js".to_vec()]));
}

#[test]
fn weak_etag_matches() {
    assert!(if_none_match_matches(Some("W/\"abc\""), "\"abc\""));
    assert!(if_none_match_matches(Some("*"), "\"abc\""));
    assert!(!if_none_match_matches(Some("\"def\""), "\"abc\""));
}

#[test]
fn http_dates_round_trip_unix_epoch_and_known_value() {
    assert_eq!(http_date(0), "Thu, 01 Jan 1970 00:00:00 GMT");
    assert_eq!(
        parse_http_date("Sun, 06 Nov 1994 08:49:37 GMT"),
        Some(784_111_777)
    );
    assert_eq!(http_date(784_111_777), "Sun, 06 Nov 1994 08:49:37 GMT");
    assert!(parse_http_date("Sun, 31 Feb 1994 08:49:37 GMT").is_none());
}

#[test]
fn dates_round_trip() {
    for seconds in [0, 59, 86_399, 951_782_400, 4_102_444_799, 253_402_300_799] {
        assert_eq!(parse_http_date(&http_date(seconds)), Some(seconds));
    }
    assert_eq!(http_date(253_402_300_799), "Fri, 31 Dec 9999 23:59:59 GMT");
    assert_eq!(http_date(951_782_400), "Tue, 29 Feb 2000 00:00:00 GMT");
    assert_eq!(http_date(-5), http_date(0));
    assert_eq!(
        parse_http_date("Sun, 06 Nov 1994 08:49:60 GMT"),
        Some(784_111_799)
    );
    assert!(parse_http_date("Sun, 06 Nov 1994 08:49:61 GMT").is_none());
    assert!(parse_http_date("Sun, 06 Nov 1994 08:49:37 UTC").is_none());
    assert!(parse_http_date("Sun, 06 Xyz 1994 08:49:37 GMT").is_none());
}

#[test]
fn qualities_are_thousandths() {
    assert_eq!(parse_quality(b"0.5"), Some(500));
    assert_eq!(parse_quality(b"0.123"), Some(123));
    assert_eq!(parse_quality(b"1.000"), Some(1000));
    assert_eq!(parse_quality(b"1.001"), None);
    assert_eq!(parse_quality(b"0.1234"), None);
    assert_eq!(parse_quality(b".5"), None);
    let accepted = accepted_encodings(b"br;q=0.2, gzip;q=0.8");
    assert!(accepted.accepts_br() && accepted.accepts_gzip() && !accepted.prefer_br());
    let tied = accepted_encodings(b"gzip, br");
    assert!(tied.prefer_br());
    let none = accepted_encodings(b"");
    assert!(!none.accepts_br() && !none.accepts_gzip());
}

#[test]
fn targets_are_decoded() {
    let decoded = decode_target(b"/a%20b//c/?x=/../").unwrap();
    assert_eq!(decoded.components, vec![b"a b".to_vec(), b"c".to_vec()]);
    assert!(decoded.trailing_slash);
    assert!(decode_target(b"/").unwrap().components.is_empty());
    for target in [
        &b"relative"[..],
        b"",
        b"/%",
        b"/%4",
        b"/%zz",
        b"/a%5cb",
        b"/a%0ab",
        b"/./a",
        b"/a/..",
    ] {
        assert!(decode_target(target).is_err(), "{target:?}");
    }
}

#[test]
fn paths_are_the_same_however_they_are_encoded() {
    let path = vec![b"a b".to_vec(), b"c%.js".to_vec()];
    for target in [&b"/a%20b/c%25.js"[..], b"/%61%20%62/%63%25%2E%6a%73", b"/a%20b/c%25%2ejs?d"] {
        let decoded = decode_target(target).unwrap();
        assert_eq!(decoded.components, path);
        assert!(!decoded.trailing_slash);
    }
}

#[test]
fn fingerprints_are_whole_pieces() {
    assert!(has_fingerprint(&[b"0123ABCD".to_vec()]));
    assert!(has_fingerprint(&[b"app-deadbeef01_x.css".to_vec()]));
    assert!(!has_fingerprint(&[b"app.0123abc.js".to_vec()]));
    assert!(!has_fingerprint(&[b"app.0123abcdx.js".to_vec()]));
    assert!(!has_fingerprint(&[b"0123abcd".to_vec(), b"app.js".to_vec()]));
    assert!(!has_fingerprint(&[]));
}

#[test]
fn media_types_follow_the_extension() {
    let kind = |name: &[u8]| content_type(&[b"dir.html".to_vec(), name.to_vec()]);
    assert_eq!(kind(b"index.HTML"), "text/html; charset=utf-8");
    assert_eq!(kind(b"a.htm"), "text/html; charset=utf-8");
    assert_eq!(kind(b"a.css"), "text/css; charset=utf-8");
    assert_eq!(kind(b"app.min.js"), "text/javascript; charset=utf-8");
    assert_eq!(kind(b"a.mjs"), "text/javascript; charset=utf-8");
    assert_eq!(kind(b"a.js.map"), "application/json; charset=utf-8");
    assert_eq!(kind(b"a.json"), "application/json; charset=utf-8");
    assert_eq!(
        kind(b"site.webmanifest"),
        "application/manifest+json; charset=utf-8"
    );
    assert_eq!(kind(b"a.svg"), "image/svg+xml");
    assert_eq!(kind(b"a.png"), "image/png");
    assert_eq!(kind(b"a.jpg"), "image/jpeg");
    assert_eq!(kind(b"a.jpeg"), "image/jpeg");
    assert_eq!(kind(b"a.gif"), "image/gif");
    assert_eq!(kind(b"a.webp"), "image/webp");
    assert_eq!(kind(b"a.avif"), "image/avif");
    assert_eq!(kind(b"a.ico"), "image/x-icon");
    assert_eq!(kind(b"a.woff"), "font/woff");
    assert_eq!(kind(b"a.woff2"), "font/woff2");
    assert_eq!(kind(b"a.txt"), "text/plain; charset=utf-8");
    assert_eq!(kind(b"a.csv"), "text/csv; charset=utf-8");
    assert_eq!(kind(b"a.xml"), "application/xml; charset=utf-8");
    assert_eq!(kind(b"a.wasm"), "application/wasm");
    assert_eq!(kind(b"a.pdf"), "application/pdf");
    assert_eq!(kind(b"a.mp4"), "video/mp4");
    assert_eq!(kind(b"a.js.gz"), "application/octet-stream");
    assert_eq!(kind(b"html"), "text/html; charset=utf-8");
    assert_eq!(kind(b"a."), "application/octet-stream");
    assert_eq!(content_type(&[]), "application/octet-stream");
}

#[test]
fn requests_are_parsed() {
    let parsed = request(concat_lines(&[
        "GET /a?b HTTP/1.1",
        "host: localhost",
        "ACCEPT-ENCODING: gzip;q=0.5",
        "Accept-Encoding: br",
        "If-None-Match: \"x\"",
        "If-None-Match:  W/\"y\" ",
        "If-Modified-Since: Sun, 06 Nov 1994 08:49:37 GMT",
    ]).as_str());
    assert_eq!(parsed.method, Method::Get);
    assert_eq!(parsed.target, b"/a?b");
    assert_eq!(parsed.accepted_encodings.br_q, 1000);
    assert_eq!(parsed.accepted_encodings.gzip_q, 500);
    assert_eq!(parsed.if_none_match.as_deref(), Some("W/\"y\""));
    assert_eq!(parsed.if_modified_since, Some(784_111_777));

    let parsed = request(concat_lines(&["HEAD / HTTP/1.0"]).as_str());
    assert_eq!(parsed.method, Method::Head);
    assert_eq!(parsed.method.as_str(), "HEAD");
    assert!(parsed.if_none_match.is_none());
    assert!(parsed.if_modified_since.is_none());
}

#[test]
fn dates_that_are_no_text_are_ignored() {
    let header = b"GET / HTTP/1.0\r\nIf-Modified-Since: Sun, 06 Nov 1994 08:49:37 GM\xff\r\n\r\n";
    assert!(parse_request(header).unwrap().if_modified_since.is_none());
    let header = b"GET / HTTP/1.0\r\nIf-None-Match: \"\xff\"\r\n\r\n";
    assert_eq!(
        parse_request(header).unwrap().if_none_match.as_deref(),
        Some("\"\u{fffd}\"")
    );
}

fn concat_lines(lines: &[&str]) -> String {
    let mut text = String::new();
    for line in lines {
        text.push_str(line);
        text.push_str("\r\n");
    }
    text.push_str("\r\n");
    text
}

#[test]
fn malformed_requests_are_refused() {
    for lines in [
        &["GET / HTTP/1.1"][..],
        &["GET / HTTP/1.1", "Host: a", "Host: b"],
        &["GET / HTTP/1.1", "Host:"],
        &["GET / HTTP/2.0", "Host: a"],
        &["GET  / HTTP/1.1", "Host: a"],
        &["GET /", "Host: a"],
        &["GET /a#b HTTP/1.1", "Host: a"],
        &["GET a HTTP/1.1", "Host: a"],
        &["GET / HTTP/1.1", "Host: a", " folded: x"],
        &["GET / HTTP/1.1", "Host: a", "no colon"],
        &["GET / HTTP/1.1", "Host: a", ": x"],
        &["GET / HTTP/1.1", "Host: a", "na me: x"],
        &["GET / HTTP/1.1", "Host: a", "x: \u{1}"],
    ] {
        assert!(refused(&concat_lines(lines)), "{lines:?}");
    }
    assert!(refused("GET / HTTP/1.1\nHost: a\r\n\r\n"));
    assert!(refused(""));
    assert!(matches!(
        parse_request(b"P\xffST / HTTP/1.1\r\nHost: a\r\n\r\n"),
        Err(RequestError::MethodNotAllowed(method)) if method == "P\u{fffd}ST"
    ));
}

#[test]
fn requests_are_read_in_pieces() {
    let whole = b"GET / HTTP/1.0\r\nX: y\r\n\r\nrest";
    assert_eq!(find_header_end(whole), Some(24));
    assert_eq!(find_header_end(&whole[..23]), None);
    let mut reader = RequestReader::new();
    for byte in &whole[..23] {
        let (next, step) = reader.step(ReadEvent::Data(&[*byte]));
        assert!(matches!(step, ReadStep::Read));
        reader = next;
    }
    let (_, step) = reader.step(ReadEvent::Data(&whole[23..]));
    assert!(matches!(step, ReadStep::Done(Ok(request)) if request.target == b"/"));
}

#[test]
fn reading_ends_with_an_error() {
    let fail = |kind| {
        let event = ReadEvent::Failed(IoError::new(kind, "failed"));
        RequestReader::new().step(event).1
    };
    assert!(matches!(fail(ErrorKind::Interrupted), ReadStep::Read));
    assert!(matches!(fail(ErrorKind::WouldBlock), ReadStep::Wait));
    assert!(matches!(
        fail(ErrorKind::TimedOut),
        ReadStep::Done(Err(RequestError::Timeout))
    ));
    assert!(matches!(
        fail(ErrorKind::Other),
        ReadStep::Done(Err(RequestError::Io))
    ));
    assert!(matches!(
        map_io(&IoError::new(ErrorKind::BrokenPipe, "")),
        RequestError::Io
    ));
    let (_, step) = RequestReader::new().step(ReadEvent::Data(b""));
    assert!(matches!(step, ReadStep::Done(Err(RequestError::BadRequest))));
}

#[test]
fn long_headers_are_refused() {
    let filler = vec![b'x'; MAX_HEADER_BYTES - 1];
    let (reader, step) = RequestReader::new().step(ReadEvent::Data(&filler));
    assert!(matches!(step, ReadStep::Read));
    let (_, step) = reader.step(ReadEvent::Data(b"xx"));
    assert!(matches!(
        step,
        ReadStep::Done(Err(RequestError::HeaderTooLarge))
    ));
    let (reader, _) = RequestReader::new().step(ReadEvent::Data(&filler));
    let (_, step) = reader.step(ReadEvent::Data(b"x"));
    assert!(matches!(
        step,
        ReadStep::Done(Err(RequestError::HeaderTooLarge))
    ));
}

#[test]
fn heads_are_exact() {
    let head = response_head_at(
        Status::NotFound,
        10,
        Some("text/plain"),
        &[("Cache-Control", "no-store"), ("X", "y")],
        784_111_777,
    );
    assert_eq!(
        String::from_utf8(head).unwrap(),
        concat_lines(&[
            "HTTP/1.1 404 Not Found",
            "Server: statika",
            "Connection: close",
            "X-Content-Type-Options: nosniff",
            "Date: Sun, 06 Nov 1994 08:49:37 GMT",
            "Content-Length: 10",
            "Content-Type: text/plain",
            "Cache-Control: no-store",
            "X: y",
        ])
    );
    let bare = response_head_at(Status::NotModified, 0, None, &[], 0);
    assert_eq!(find_header_end(&bare), Some(bare.len()));
    assert!(!String::from_utf8(bare).unwrap().contains("Content-Type:"));
}

#[test]
fn heads_carry_the_present_date() {
    let head = String::from_utf8(response_head(Status::Okay, 1, None, &[])).unwrap();
    let date = head
        .lines()
        .find_map(|line| line.strip_prefix("Date: "))
        .unwrap();
    assert!(parse_http_date(date).unwrap() > 1_600_000_000);
    assert_eq!(unix_seconds(Some(5)), 5);
    assert_eq!(unix_seconds(Some(u64::MAX)), i64::MAX);
    assert_eq!(unix_seconds(None), 0);
}

#[test]
fn statuses_have_numbers_and_words() {
    let all = [
        (Status::Okay, 200, "OK"),
        (Status::NotModified, 304, "Not Modified"),
        (Status::BadRequest, 400, "Bad Request"),
        (Status::NotFound, 404, "Not Found"),
        (Status::MethodNotAllowed, 405, "Method Not Allowed"),
        (Status::RequestTimeout, 408, "Request Timeout"),
        (Status::HeaderTooLarge, 431, "Request Header Fields Too Large"),
        (Status::InternalServerError, 500, "Internal Server Error"),
    ];
    for (status, code, reason) in all {
        assert_eq!(status.code(), code);
        assert_eq!(status.reason(), reason);
    }
}
