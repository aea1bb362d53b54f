use tnnl::protocol::{compute_hmac, ControlMsg};
use tnnl::server::{
    admission, decide_auth, tunnel_reply, AuthOutcome, assign_subdomain, choose_subdomain, hex8_string, install_response,
    redirect_response, refusal_message, requested_subdomain_ok, route, subdomain_in_use_message,
    tunnel_url, IpState, Refusal, Route, MAX_CONNECTS_PER_MINUTE, MAX_TUNNELS_PER_IP,
    MAX_TUNNELS_TOTAL, RATE_WINDOW_MS,
};

#[test]
fn rate_limit_admits_fifteen_per_window() {
    let mut ip = IpState::new();
    for k in 0..MAX_CONNECTS_PER_MINUTE as u64 {
        assert!(ip.admit_connect(1_000 + k));
    }
    assert!(!ip.admit_connect(2_000));
    assert!(!ip.admit_connect(1_000 + RATE_WINDOW_MS));
}

#[test]
fn rate_limit_forgets_old_connections() {
    let mut ip = IpState::new();
    for _ in 0..MAX_CONNECTS_PER_MINUTE {
        assert!(ip.admit_connect(5_000));
    }
    assert!(!ip.admit_connect(5_000 + RATE_WINDOW_MS));
    assert!(ip.admit_connect(5_001 + RATE_WINDOW_MS));
}

#[test]
fn tunnel_counting() {
    let mut ip = IpState::new();
    assert_eq!(ip.active_tunnels(), 0);
    ip.open_tunnel();
    ip.open_tunnel();
    assert_eq!(ip.active_tunnels(), 2);
    ip.close_tunnel();
    assert_eq!(ip.active_tunnels(), 1);
    ip.close_tunnel();
    ip.close_tunnel();
    assert_eq!(ip.active_tunnels(), 0);
}

#[test]
fn open_then_close_restores_count() {
    let mut ip = IpState::new();
    ip.open_tunnel();
    let before = ip.active_tunnels();
    ip.open_tunnel();
    ip.close_tunnel();
    assert_eq!(ip.active_tunnels(), before);
}

#[test]
fn admission_order() {
    assert!(matches!(admission(false, 9, 999), Some(Refusal::InvalidSecret)));
    assert!(matches!(admission(true, MAX_TUNNELS_PER_IP, 999), Some(Refusal::PerIpLimit)));
    assert!(matches!(admission(true, 0, MAX_TUNNELS_TOTAL), Some(Refusal::AtCapacity)));
    assert!(admission(true, MAX_TUNNELS_PER_IP - 1, MAX_TUNNELS_TOTAL - 1).is_none());
}

#[test]
fn refusal_messages() {
    assert_eq!(refusal_message(&Refusal::InvalidSecret), "invalid secret");
    assert_eq!(refusal_message(&Refusal::PerIpLimit), "max 5 tunnels per IP");
    assert_eq!(refusal_message(&Refusal::AtCapacity), "server at capacity, try again later");
    assert_eq!(subdomain_in_use_message("myapp"), "subdomain 'myapp' already in use");
}

#[test]
fn subdomain_rules() {
    assert!(requested_subdomain_ok("my-app1"));
    assert!(requested_subdomain_ok("café"));
    assert!(!requested_subdomain_ok(""));
    assert!(!requested_subdomain_ok("my_app"));
    assert!(!requested_subdomain_ok("a.b"));
    assert!(requested_subdomain_ok(&"a".repeat(63)));
    assert!(!requested_subdomain_ok(&"a".repeat(64)));
}

#[test]
fn hex_subdomains() {
    assert_eq!(hex8_string(0), "00000000");
    assert_eq!(hex8_string(0xdeadbeef), "deadbeef");
    assert_eq!(hex8_string(0x1a), "0000001a");
    assert_eq!(choose_subdomain(Some("myapp"), 7), "myapp");
    assert_eq!(choose_subdomain(Some("bad name"), 0xabc), "00000abc");
    assert_eq!(choose_subdomain(None, 0xffffffff), "ffffffff");
}

#[test]
fn assigned_subdomain_is_requested_or_random_hex() {
    assert_eq!(assign_subdomain(Some("pinned")), "pinned");
    let s = assign_subdomain(None);
    assert_eq!(s.len(), 8);
    assert!(s.chars().all(|c| c.is_ascii_hexdigit() && !c.is_ascii_uppercase()));
}

#[test]
fn urls_and_routes() {
    assert_eq!(tunnel_url("abc", "tnnl.run"), "abc.tnnl.run");
    assert!(matches!(route("tnnl.run", "/install.sh", "tnnl.run"), Route::Install));
    assert!(matches!(route("tnnl.run", "/", "tnnl.run"), Route::Redirect));
    assert!(matches!(route("abc.tnnl.run", "/", "tnnl.run"), Route::Tunnel(s) if s == "abc"));
    assert!(matches!(route("a.b.tnnl.run", "/x", "tnnl.run"), Route::Tunnel(s) if s == "a.b"));
    assert!(matches!(route("evil.com", "/", "tnnl.run"), Route::Foreign));
    assert!(matches!(route("xtnnl.run", "/", "tnnl.run"), Route::Foreign));
    assert!(matches!(route(".tnnl.run", "/", "tnnl.run"), Route::Tunnel(s) if s.is_empty()));
}

#[test]
fn bare_domain_answers() {
    assert_eq!(
        redirect_response(),
        b"HTTP/1.1 301 Moved Permanently\r\nLocation: https://github.com/jbingen/tnnl\r\nContent-Length: 0\r\nConnection: close\r\n\r\n".to_vec()
    );
    assert_eq!(
        install_response("echo hi\n"),
        b"HTTP/1.1 200 OK\r\nContent-Type: text/plain; charset=utf-8\r\nContent-Length: 8\r\nConnection: close\r\n\r\necho hi\n".to_vec()
    );
}

fn auth_msg(hmac: Option<String>, sub: Option<&str>) -> ControlMsg {
    ControlMsg::Auth { subdomain: sub.map(String::from), nonce: "n1".into(), hmac }
}

#[test]
fn handshake_decisions() {
    let good = Some(compute_hmac("s3cret", "n1"));
    assert!(matches!(
        decide_auth(auth_msg(good, Some("myapp")), Some("s3cret"), 0, 0),
        AuthOutcome::Admitted(s) if s == "myapp"
    ));
    assert!(matches!(
        decide_auth(auth_msg(Some("bad".into()), Some("myapp")), Some("s3cret"), 0, 0),
        AuthOutcome::Refused(Refusal::InvalidSecret)
    ));
    assert!(matches!(
        decide_auth(auth_msg(None, None), None, MAX_TUNNELS_PER_IP, 0),
        AuthOutcome::Refused(Refusal::PerIpLimit)
    ));
    assert!(matches!(
        decide_auth(auth_msg(None, None), None, 0, MAX_TUNNELS_TOTAL),
        AuthOutcome::Refused(Refusal::AtCapacity)
    ));
    match decide_auth(auth_msg(None, Some("no_good")), None, 0, 0) {
        AuthOutcome::Admitted(s) => assert_eq!(s.len(), 8),
        _ => panic!("an open server admits this client"),
    }
    let not_auth = ControlMsg::Error { message: "x".into() };
    assert!(matches!(decide_auth(not_auth, None, 0, 0), AuthOutcome::NotAuth));
}

#[test]
fn ascii_subdomains_follow_the_ascii_rule() {
    assert!(requested_subdomain_ok("MyApp-2"));
    assert!(!requested_subdomain_ok("my app"));
}

#[test]
fn replies_to_an_admitted_tunnel() {
    match tunnel_reply("myapp", "tnnl.run", false) {
        ControlMsg::AuthOk { subdomain, url } => {
            assert_eq!(subdomain, "myapp");
            assert_eq!(url, "myapp.tnnl.run");
        }
        other => panic!("unexpected reply {other:?}"),
    }
    match tunnel_reply("myapp", "tnnl.run", true) {
        ControlMsg::Error { message } => assert_eq!(message, "subdomain 'myapp' already in use"),
        other => panic!("unexpected reply {other:?}"),
    }
}
