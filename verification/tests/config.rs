use statika::config::{
    default_threads, listen_addr_text, parse_bool, parse_components, parse_extra_headers,
    parse_relative_path, parse_u64, parse_url_prefix, parse_usize, Config, ConfigError, EnvVar,
    Environment, ListenAddr, MAX_EXTRA_HEADERS, MAX_HEADER_NAME_BYTES, MAX_HEADER_VALUE_BYTES,
};

fn text(value: &str) -> EnvVar {
    EnvVar::Text(value.to_owned())
}

fn environment() -> Environment {
    Environment {
        listen_addr: EnvVar::Absent,
        root: Some(b"/srv/www".to_vec()),
        index: None,
        assets_path: None,
        threads: EnvVar::Absent,
        queue_size: EnvVar::Absent,
        gzip: EnvVar::Absent,
        brotli: EnvVar::Absent,
        deny_dotfiles: EnvVar::Absent,
        request_timeout_secs: EnvVar::Absent,
        shutdown_timeout_secs: EnvVar::Absent,
        extra_headers: EnvVar::Absent,
    }
}

fn everywhere() -> Option<ListenAddr> {
    Some(ListenAddr::V4 {
        octets: [0, 0, 0, 0],
        port: 8080,
    })
}

fn refusal(env: &Environment, listen: Option<ListenAddr>) -> String {
    match Config::from_env(env, listen, Some(2)) {
        Ok(_) => String::new(),
        Err(error) => error.message(),
    }
}

#[test]
fn path_components_reject_escape_and_empty_segments() {
    assert!(parse_components("X", b"../secret").is_err());
    assert!(parse_components("X", b"assets//app.js").is_err());
    assert!(parse_components("X", b"assets\\app.js").is_err());
    assert!(parse_components("X", b"assets/app.js").is_ok());
}

#[test]
fn asset_prefix_requires_absolute_url_path() {
    assert!(parse_url_prefix("X", b"/assets/").is_ok());
    assert!(parse_url_prefix("X", b"assets").is_err());
}

#[test]
fn extra_headers_are_validated() {
    let headers = parse_extra_headers(
        "STATIKA_EXTRA_HEADERS",
        &text("Strict-Transport-Security: max-age=31536000\nReferrer-Policy: no-referrer"),
    )
    .unwrap();
    assert_eq!(headers.len(), 2);
    assert_eq!(headers[0].name(), "Strict-Transport-Security");
    assert_eq!(headers[0].value(), "max-age=31536000");
    assert_eq!(headers[1].name(), "Referrer-Policy");
    assert_eq!(headers[1].value(), "no-referrer");

    assert!(parse_extra_headers("STATIKA_EXTRA_HEADERS", &text("Content-Length: 7")).is_err());
}

#[test]
fn rejects_invalid_configuration() {
    let mut env = environment();
    env.gzip = text("flase");
    assert_eq!(
        refusal(&env, everywhere()),
        "invalid value for STATIKA_GZIP: flase"
    );

    let mut env = environment();
    env.extra_headers = text("Content-Length: 7");
    assert_eq!(
        refusal(&env, everywhere()),
        "invalid value for STATIKA_EXTRA_HEADERS: Content-Length: 7"
    );
}

#[test]
fn only_the_root_is_required() {
    let config = Config::from_env(&environment(), everywhere(), Some(4)).unwrap();
    assert!(matches!(
        config.listen_addr(),
        ListenAddr::V4 {
            octets: [0, 0, 0, 0],
            port: 8080
        }
    ));
    assert_eq!(config.root(), b"/srv/www");
    assert_eq!(config.index(), &[b"index.html".to_vec()]);
    assert_eq!(config.assets_prefix(), &[b"assets".to_vec()]);
    assert_eq!(config.threads(), 4);
    assert_eq!(config.queue_size(), 256);
    assert!(config.gzip_enabled());
    assert!(config.brotli_enabled());
    assert!(config.deny_dotfiles());
    assert_eq!(config.request_timeout(), 5);
    assert_eq!(config.shutdown_timeout(), 10);
    assert!(config.extra_headers().is_empty());
}

#[test]
fn every_variable_is_read() {
    let env = Environment {
        listen_addr: text("[::1]:9000"),
        root: Some(b"/data".to_vec()),
        index: Some(b"app/start.html".to_vec()),
        assets_path: Some(b"/static/files/".to_vec()),
        threads: text("+8"),
        queue_size: text("00100"),
        gzip: text("Off"),
        brotli: text(" no "),
        deny_dotfiles: text("0"),
        request_timeout_secs: text("300"),
        shutdown_timeout_secs: text("1"),
        extra_headers: text("X-Frame-Options: DENY\r\n\r\n  Referrer-Policy :  no-referrer  "),
    };
    let mut address = [0; 16];
    address[15] = 1;
    let listen = ListenAddr::V6 {
        address,
        port: 9000,
        flow_info: 0,
        scope_id: 0,
    };
    let config = Config::from_env(&env, Some(listen), None).unwrap().clone();
    assert!(matches!(
        config.listen_addr(),
        ListenAddr::V6 { port: 9000, .. }
    ));
    assert_eq!(config.root(), b"/data");
    assert_eq!(
        config.index(),
        &[b"app".to_vec(), b"start.html".to_vec()]
    );
    assert_eq!(
        config.assets_prefix(),
        &[b"static".to_vec(), b"files".to_vec()]
    );
    assert_eq!(config.threads(), 8);
    assert_eq!(config.queue_size(), 100);
    assert!(!config.gzip_enabled());
    assert!(!config.brotli_enabled());
    assert!(!config.deny_dotfiles());
    assert_eq!(config.request_timeout(), 300);
    assert_eq!(config.shutdown_timeout(), 1);
    assert_eq!(config.extra_headers().len(), 2);
    assert_eq!(config.extra_headers()[1].name(), "Referrer-Policy");
    assert_eq!(config.extra_headers()[1].value(), "no-referrer");
}

#[test]
fn the_first_problem_is_reported() {
    let mut env = environment();
    env.root = None;
    env.listen_addr = text("nonsense");
    env.threads = text("0");
    assert_eq!(
        refusal(&env, None),
        "invalid value for STATIKA_LISTEN_ADDR: nonsense"
    );
    assert_eq!(
        refusal(&env, everywhere()),
        "missing required environment variable STATIKA_ROOT"
    );
    env.root = Some(b"srv/\xff".to_vec());
    assert_eq!(
        refusal(&env, everywhere()),
        "invalid value for STATIKA_ROOT: srv/\u{fffd}"
    );
    env.root = Some(b"/srv".to_vec());
    env.index = Some(b"/index.html".to_vec());
    assert_eq!(
        refusal(&env, everywhere()),
        "invalid value for STATIKA_INDEX: /index.html"
    );
    env.index = None;
    env.assets_path = Some(b"/".to_vec());
    assert_eq!(
        refusal(&env, everywhere()),
        "invalid value for STATIKA_ASSETS_PATH: "
    );
    env.assets_path = None;
    assert_eq!(
        refusal(&env, everywhere()),
        "invalid value for STATIKA_THREADS: 0"
    );
    env.threads = EnvVar::NotUnicode;
    assert_eq!(
        refusal(&env, everywhere()),
        "invalid value for STATIKA_THREADS: <non-UTF-8>"
    );
}

#[test]
fn listen_address_defaults_to_every_interface() {
    assert_eq!(listen_addr_text(&EnvVar::Absent), "0.0.0.0:8080");
    assert_eq!(listen_addr_text(&EnvVar::NotUnicode), "0.0.0.0:8080");
    assert_eq!(listen_addr_text(&text("127.0.0.1:1")), "127.0.0.1:1");
    let mut env = environment();
    env.listen_addr = EnvVar::NotUnicode;
    assert_eq!(
        refusal(&env, None),
        "invalid value for STATIKA_LISTEN_ADDR: <non-UTF-8>"
    );
}

#[test]
fn thread_count_follows_the_processors() {
    assert_eq!(default_threads(None), 1);
    assert_eq!(default_threads(Some(0)), 1);
    assert_eq!(default_threads(Some(7)), 7);
    assert_eq!(default_threads(Some(128)), 32);
}

#[test]
fn numbers_are_bounded() {
    assert_eq!(parse_u64("N", &EnvVar::Absent, 5, 1, 300).unwrap(), 5);
    assert_eq!(parse_u64("N", &text("300"), 5, 1, 300).unwrap(), 300);
    assert_eq!(parse_usize("N", &text("1"), 5, 1, 300).unwrap(), 1);
    for raw in ["301", "0", "", "+", "-1", " 7", "7 ", "0x7", "99999999999999999999999"] {
        assert!(parse_u64("N", &text(raw), 5, 1, 300).is_err(), "{raw}");
    }
}

#[test]
fn booleans_have_four_spellings_each() {
    for raw in ["1", "true", "yes", "on", "TRUE", " On "] {
        assert!(parse_bool("B", &text(raw), false).unwrap(), "{raw}");
    }
    for raw in ["0", "false", "no", "off", "oFF"] {
        assert!(!parse_bool("B", &text(raw), true).unwrap(), "{raw}");
    }
    assert!(matches!(
        parse_bool("B", &text(" maybe "), true),
        Err(ConfigError::Invalid("B", raw)) if raw == " maybe "
    ));
}

#[test]
fn relative_paths_stay_below_the_root() {
    assert_eq!(
        parse_relative_path("P", b"a/b").unwrap(),
        vec![b"a".to_vec(), b"b".to_vec()]
    );
    for raw in [&b""[..], b"/a", b"a/", b"a/./b", b"a/..", b"a\0b"] {
        assert!(parse_relative_path("P", raw).is_err(), "{raw:?}");
    }
}

#[test]
fn extra_headers_are_limited() {
    let many = |count: usize| {
        let lines: Vec<String> = (0..count).map(|i| format!("X-{i}: v")).collect();
        text(&lines.join("\n"))
    };
    assert_eq!(
        parse_extra_headers("H", &many(MAX_EXTRA_HEADERS)).unwrap().len(),
        32
    );
    assert!(parse_extra_headers("H", &many(MAX_EXTRA_HEADERS + 1)).is_err());
    let long_name = "n".repeat(MAX_HEADER_NAME_BYTES);
    assert!(parse_extra_headers("H", &text(&format!("{long_name}: v"))).is_ok());
    assert!(parse_extra_headers("H", &text(&format!("{long_name}n: v"))).is_err());
    let long_value = "v".repeat(MAX_HEADER_VALUE_BYTES);
    assert!(parse_extra_headers("H", &text(&format!("n: {long_value}"))).is_ok());
    assert!(parse_extra_headers("H", &text(&format!("n: {long_value}v"))).is_err());
    for line in ["no colon", ": v", "na me: v", "n: a\u{1}b", "ETAG: x", "n\u{e9}: v"] {
        assert!(parse_extra_headers("H", &text(line)).is_err(), "{line}");
    }
}
