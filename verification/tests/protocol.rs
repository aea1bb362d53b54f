use tnnl::codec::{decode_b64, encode_b64, new_nonce, str_eq};
use tnnl::protocol::{
    absorb_control_byte, auth_reply, auth_request, compute_hmac, frame_line, hmac_matches,
    secret_accepted, AuthReply, ControlMsg, LineStep, MAX_CONTROL_MSG,
};

#[test]
fn hmac_known_vector() {
    assert_eq!(
        compute_hmac("key", "The quick brown fox jumps over the lazy dog"),
        "97yD9DBThCSxMpjmqm+xQ+9NWaFJRhdZl0edvC0aPNg="
    );
    assert_eq!(compute_hmac("secret", "nonce123"), "IA0lOCQwQxdRhE+VDKPNNMaWwseRcFoG6hd7KNcbto8=");
    assert_eq!(compute_hmac("", ""), "thNnmggU2ex3L5XXeMNfxf8Wl8STcVZTxscSFEKSxa0=");
}

#[test]
fn hmac_depends_on_secret_and_nonce() {
    let a = compute_hmac("secret", "n1");
    assert_ne!(a, compute_hmac("secret", "n2"));
    assert_ne!(a, compute_hmac("other", "n1"));
    assert_ne!(a, "n1");
}

#[test]
fn base64_encode_and_decode() {
    assert_eq!(encode_b64(b"user:pass"), "dXNlcjpwYXNz");
    assert_eq!(encode_b64(b""), "");
    assert_eq!(encode_b64(b"a"), "YQ==");
    assert_eq!(encode_b64(b"ab"), "YWI=");
    assert_eq!(encode_b64(&[0xff, 0xfe, 0x00]), "//4A");
    assert_eq!(decode_b64("dXNlcjpwYXNz"), Some(b"user:pass".to_vec()));
    assert_eq!(decode_b64("YQ"), None);
    assert_eq!(decode_b64("YR=="), None);
    assert_eq!(decode_b64("not base64!"), None);
}

#[test]
fn base64_roundtrip() {
    let data: Vec<u8> = (0u8..=255).collect();
    assert_eq!(decode_b64(&encode_b64(&data)), Some(data));
}

#[test]
fn nonce_is_base64_of_32_bytes() {
    let n = new_nonce();
    assert_eq!(n.len(), 44);
    assert_eq!(decode_b64(&n).map(|v| v.len()), Some(32));
}

#[test]
fn framing_appends_newline() {
    assert_eq!(frame_line(b"{\"type\":\"Error\"}"), b"{\"type\":\"Error\"}\n".to_vec());
}

#[test]
fn control_line_collects_until_newline() {
    let mut buf = Vec::new();
    assert!(matches!(absorb_control_byte(&mut buf, b'{'), LineStep::Continue));
    assert!(matches!(absorb_control_byte(&mut buf, b'}'), LineStep::Continue));
    assert!(matches!(absorb_control_byte(&mut buf, b'\n'), LineStep::Complete));
    assert_eq!(buf, b"{}".to_vec());
}

#[test]
fn control_line_too_large() {
    let mut buf = vec![b'a'; MAX_CONTROL_MSG];
    assert!(matches!(absorb_control_byte(&mut buf, b'a'), LineStep::TooLarge));
    assert_eq!(buf.len(), MAX_CONTROL_MSG + 1);
}

#[test]
fn auth_request_with_and_without_token() {
    match auth_request("secret", Some("myapp"), "nonce123".to_string()) {
        ControlMsg::Auth { subdomain, nonce, hmac } => {
            assert_eq!(subdomain.as_deref(), Some("myapp"));
            assert_eq!(nonce, "nonce123");
            assert_eq!(hmac.as_deref(), Some("IA0lOCQwQxdRhE+VDKPNNMaWwseRcFoG6hd7KNcbto8="));
        }
        other => panic!("unexpected message {other:?}"),
    }
    match auth_request("", None, "n".to_string()) {
        ControlMsg::Auth { subdomain, hmac, .. } => {
            assert_eq!(subdomain, None);
            assert_eq!(hmac, None);
        }
        other => panic!("unexpected message {other:?}"),
    }
}

#[test]
fn auth_replies() {
    let ok = ControlMsg::AuthOk { subdomain: "a".into(), url: "a.example.com".into() };
    assert!(matches!(auth_reply(ok), AuthReply::Live(u) if u == "a.example.com"));
    let err = ControlMsg::Error { message: "invalid secret".into() };
    assert!(matches!(auth_reply(err), AuthReply::Refused(m) if m == "invalid secret"));
    let auth = ControlMsg::Auth { subdomain: None, nonce: "n".into(), hmac: None };
    assert!(matches!(auth_reply(auth), AuthReply::Unexpected));
}

#[test]
fn shared_secret_is_accepted() {
    let nonce = "abc";
    let proof = compute_hmac("supersecret", nonce);
    assert!(secret_accepted(Some("supersecret"), nonce, Some(&proof)));
}

#[test]
fn wrong_or_missing_proof_is_refused() {
    let proof = compute_hmac("wrong-secret", "abc");
    assert!(!secret_accepted(Some("supersecret"), "abc", Some(&proof)));
    assert!(!secret_accepted(Some("supersecret"), "abc", None));
    assert!(!hmac_matches("x", None));
    assert!(hmac_matches("x", Some("x")));
}

#[test]
fn open_server_accepts_anyone() {
    assert!(secret_accepted(None, "abc", None));
    assert!(secret_accepted(None, "abc", Some("garbage")));
}

#[test]
fn string_equality() {
    assert!(str_eq("abc", "abc"));
    assert!(!str_eq("abc", "abd"));
    assert!(!str_eq("abc", "ab"));
}

#[test]
fn hmac_rfc4231_case_2() {
    let tag = compute_hmac("Jefe", "what do ya want for nothing?");
    assert_eq!(tag, "W9zBRr9gdU5qBCQmCJV1x1oAPwidJzmDnexYuWTsOEM=");
    assert_eq!(tag.len(), 44);
    assert_eq!(compute_hmac(&"k".repeat(200), "").len(), 44);
}
