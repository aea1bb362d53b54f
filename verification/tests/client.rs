use tnnl::client::{
    after_session, Reconnect, SessionEnd, basic_auth_header, capture_request, forward_headers, head_split, next_backoff, plan_body,
    replay_payload, request_authorized, BodyPlan, INITIAL_BACKOFF_SECS, MAX_BACKOFF_SECS,
};
use tnnl::config::{resolve_settings, CliSettings, Config, DEFAULT_CONTROL_PORT};
use tnnl::update::newer_release;

#[test]
fn backoff_doubles_up_to_the_cap() {
    let mut secs = INITIAL_BACKOFF_SECS;
    let mut seen = vec![secs];
    for _ in 0..6 {
        secs = next_backoff(secs);
        seen.push(secs);
    }
    assert_eq!(seen, vec![1, 2, 4, 8, 16, 30, 30]);
    assert_eq!(next_backoff(u64::MAX), MAX_BACKOFF_SECS);
    assert_eq!(next_backoff(0), 0);
}

#[test]
fn basic_auth_value() {
    assert_eq!(basic_auth_header("user:pass"), "Basic dXNlcjpwYXNz");
}

#[test]
fn basic_auth_gate() {
    let expected = basic_auth_header("user:pass");
    let good = b"GET / HTTP/1.1\r\nAuthorization: Basic dXNlcjpwYXNz\r\n\r\n";
    let bad = b"GET / HTTP/1.1\r\nAuthorization: Basic d3Jvbmc6cGFzcw==\r\n\r\n";
    let none = b"GET / HTTP/1.1\r\nHost: x\r\n\r\n";
    assert!(request_authorized(Some(&expected), good));
    assert!(!request_authorized(Some(&expected), bad));
    assert!(!request_authorized(Some(&expected), none));
    assert!(request_authorized(None, none));
}

#[test]
fn head_split_points() {
    assert_eq!(head_split(b"GET / HTTP/1.1\r\n\r\nbody"), 18);
    assert_eq!(head_split(b"GET / HTTP/1.1\r\n"), 16);
}

#[test]
fn body_plans() {
    assert!(matches!(plan_body(b"HTTP/1.1 200 OK\r\nContent-Length: 5\r\n\r\n"), BodyPlan::Exact(5)));
    assert!(matches!(
        plan_body(b"HTTP/1.1 200 OK\r\nContent-Length: 0\r\nTransfer-Encoding: chunked\r\n\r\n"),
        BodyPlan::Chunked
    ));
    assert!(matches!(plan_body(b"HTTP/1.1 204 No Content\r\n\r\n"), BodyPlan::AsIs));
}

#[test]
fn forwarded_headers() {
    let chunked = b"HTTP/1.1 200 OK\r\nTransfer-Encoding: chunked\r\n\r\n";
    assert_eq!(forward_headers(chunked, 12), b"HTTP/1.1 200 OK\r\nContent-Length: 12\r\n\r\n".to_vec());
    let plain = b"HTTP/1.1 200 OK\r\nContent-Length: 2\r\n\r\n";
    assert_eq!(forward_headers(plain, 2), plain.to_vec());
}

#[test]
fn capture_then_replay_gives_back_the_request() {
    let headers = b"POST /hook HTTP/1.1\r\nContent-Length: 4\r\n\r\n";
    let body = [0u8, 255, 10, 13];
    let rec = capture_request(7, 3000, "POST".into(), "/hook".into(), headers, &body);
    assert_eq!(rec.id, 7);
    assert_eq!(rec.port, 3000);
    assert_eq!(rec.raw_headers.as_bytes(), headers);
    assert_eq!(rec.body_b64, "AP8KDQ==");
    let mut expected = headers.to_vec();
    expected.extend_from_slice(&body);
    assert_eq!(replay_payload(&rec), expected);
}

#[test]
fn replay_without_decodable_body() {
    let mut rec = capture_request(1, 80, "GET".into(), "/".into(), b"GET / HTTP/1.1\r\n\r\n", b"");
    rec.body_b64 = "%%%".into();
    assert_eq!(replay_payload(&rec), b"GET / HTTP/1.1\r\n\r\n".to_vec());
}

#[test]
fn capture_reads_headers_lossily() {
    let rec = capture_request(1, 80, "GET".into(), "/".into(), b"GET /\xff HTTP/1.1\r\n\r\n", b"");
    assert_eq!(rec.raw_headers, "GET /\u{fffd} HTTP/1.1\r\n\r\n");
}

fn cli(server: Option<&str>, inspect: bool) -> CliSettings {
    CliSettings {
        server: server.map(String::from),
        token: None,
        subdomain: None,
        control_port: None,
        auth: None,
        inspect,
    }
}

#[test]
fn settings_defaults() {
    let s = resolve_settings(cli(None, false), Config::default());
    assert_eq!(s.server_addr, "tnnl.run");
    assert_eq!(s.token, "");
    assert_eq!(s.control_port, DEFAULT_CONTROL_PORT);
    assert_eq!(s.subdomain, None);
    assert_eq!(s.auth, None);
    assert!(!s.inspect);
}

#[test]
fn settings_cli_wins_over_config() {
    let cfg = Config {
        server: Some("file.example".into()),
        token: Some("file-token".into()),
        control_port: Some(7000),
        subdomain: Some("filesub".into()),
        inspect: Some(true),
        auth: Some("a:b".into()),
    };
    let mut c = cli(Some("cli.example"), false);
    c.control_port = Some(9000);
    let s = resolve_settings(c, cfg);
    assert_eq!(s.server_addr, "cli.example");
    assert_eq!(s.token, "file-token");
    assert_eq!(s.control_port, 9000);
    assert_eq!(s.subdomain.as_deref(), Some("filesub"));
    assert_eq!(s.auth.as_deref(), Some("a:b"));
    assert!(s.inspect);
}

#[test]
fn release_versions() {
    assert_eq!(newer_release("v0.1.0", "0.1.0"), None);
    assert_eq!(newer_release("v0.2.0", "0.1.0"), Some("0.2.0".to_string()));
    assert_eq!(newer_release("vv1.0", "0.1.0"), Some("1.0".to_string()));
    assert_eq!(newer_release("0.1.0", "0.1.0"), None);
}

#[test]
fn reconnect_after_a_drop_but_not_after_shutdown() {
    assert!(matches!(after_session(SessionEnd::Shutdown, 4), Reconnect::Stop));
    assert!(matches!(after_session(SessionEnd::Dropped, 4), Reconnect::Retry { wait: 4, next: 8 }));
    assert!(matches!(after_session(SessionEnd::Failed, 16), Reconnect::Retry { wait: 16, next: 30 }));
}
