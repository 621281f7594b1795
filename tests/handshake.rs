use ws_core::handshake::{self, generate_accept_key, negotiate, UpgradeError};

#[test]
fn rfc_sample_key() {
    assert_eq!(generate_accept_key(b"dGhlIHNhbXBsZSBub25jZQ=="), "s3pPLMBiTxaQ9kYGzzhZRbK+xOo=");
}

#[test]
fn negotiate_accepts_version_13() {
    let token = negotiate(Some(b"dGhlIHNhbXBsZSBub25jZQ=="), Some("13")).unwrap();
    assert_eq!(token, "s3pPLMBiTxaQ9kYGzzhZRbK+xOo=");
}

#[test]
fn negotiate_accepts_signed_version() {
    let token = negotiate(Some(b"dGhlIHNhbXBsZSBub25jZQ=="), Some("+13")).unwrap();
    assert_eq!(token, "s3pPLMBiTxaQ9kYGzzhZRbK+xOo=");
}

#[test]
fn accept_token_differs_per_key() {
    let a = generate_accept_key(b"AQIDBAUGBwgJCgsMDQ4PEA==");
    let b = generate_accept_key(b"dGhlIHNhbXBsZSBub25jZQ==");
    assert_eq!(a.len(), 28);
    assert!(a.ends_with('='));
    assert_ne!(a, b);
}

#[test]
fn negotiate_rejects_other_versions() {
    let key: &[u8] = b"dGhlIHNhbXBsZSBub25jZQ==";
    for v in ["12", "", "abc", "13 ", "-13", "99999999999"] {
        assert!(matches!(negotiate(Some(key), Some(v)), Err(UpgradeError::InvalidVersion)), "{v}");
    }
}

#[test]
fn negotiate_reports_missing_key() {
    match negotiate(None, Some("13")) {
        Err(UpgradeError::HeaderNotFound(name)) => assert_eq!(name, "Sec-WebSocket-Key"),
        other => panic!("unexpected {:?}", other),
    }
}

#[test]
fn negotiate_reports_missing_version() {
    match negotiate(Some(b"x"), None) {
        Err(UpgradeError::HeaderNotFound(name)) => assert_eq!(name, "Sec-WebSocket-Version"),
        other => panic!("unexpected {:?}", other),
    }
}

#[test]
fn missing_key_is_reported_before_version() {
    match negotiate(None, None) {
        Err(UpgradeError::HeaderNotFound(name)) => assert_eq!(name, "Sec-WebSocket-Key"),
        other => panic!("unexpected {:?}", other),
    }
}

#[test]
fn concat_joins_in_order() {
    assert_eq!(handshake::concat(&[1u8, 2], &[3, 4, 5]), vec![1, 2, 3, 4, 5]);
    assert_eq!(handshake::concat::<u32>(&[], &[]), Vec::<u32>::new());
}
