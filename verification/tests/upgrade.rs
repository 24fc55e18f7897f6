use wsroom::handshake::{
    compute_accept, handshake, parse_header_line, request_path, HandshakeError, Headers,
};

fn headers_from(lines: &[&str]) -> Headers {
    let mut h = Headers::new();
    for line in lines {
        if let Some((name, value)) = parse_header_line(line.as_bytes()) {
            h.insert(name, value);
        }
    }
    h
}

#[test]
fn handshake_vector_produces_expected_accept() {
    let accept = compute_accept(b"dGhlIHNhbXBsZSBub25jZQ==");
    assert_eq!(accept, b"s3pPLMBiTxaQ9kYGzzhZRbK+xOo=".to_vec());
}

#[test]
fn full_handshake_succeeds_on_a_valid_request() {
    let h = headers_from(&[
        "Host: example.com\r\n",
        "Connection: keep-alive, Upgrade\r\n",
        "Upgrade: WebSocket\r\n",
        "Sec-WebSocket-Key: dGhlIHNhbXBsZSBub25jZQ==\r\n",
    ]);
    let accept = handshake(&h).unwrap();
    assert_eq!(accept, b"s3pPLMBiTxaQ9kYGzzhZRbK+xOo=".to_vec());
}

#[test]
fn missing_connection_header_is_reported() {
    let h = headers_from(&[
        "Upgrade: WebSocket\r\n",
        "Sec-WebSocket-Key: dGhlIHNhbXBsZSBub25jZQ==\r\n",
    ]);
    assert_eq!(handshake(&h), Err(HandshakeError::BadConnectionHeader));
}

#[test]
fn connection_without_upgrade_token_is_reported() {
    let h = headers_from(&[
        "Connection: keep-alive\r\n",
        "Upgrade: WebSocket\r\n",
        "Sec-WebSocket-Key: dGhlIHNhbXBsZSBub25jZQ==\r\n",
    ]);
    assert_eq!(handshake(&h), Err(HandshakeError::BadConnectionHeader));
}

#[test]
fn upgrade_without_websocket_token_is_reported() {
    let h = headers_from(&[
        "Connection: Upgrade\r\n",
        "Upgrade: h2c\r\n",
        "Sec-WebSocket-Key: dGhlIHNhbXBsZSBub25jZQ==\r\n",
    ]);
    assert_eq!(handshake(&h), Err(HandshakeError::BadUpgradeHeader));
}

#[test]
fn missing_key_header_is_reported() {
    let h = headers_from(&["Connection: Upgrade\r\n", "Upgrade: WebSocket\r\n"]);
    assert_eq!(handshake(&h), Err(HandshakeError::BadKeyHeader));
}

#[test]
fn token_check_is_a_genuine_substring_check() {
    // The token is matched against the expected literal, so an arbitrary
    // value does not pass just by being equal to itself.
    let h = headers_from(&[
        "Connection: upgrade\r\n", // wrong case: no "Upgrade" token
        "Upgrade: WebSocket\r\n",
        "Sec-WebSocket-Key: dGhlIHNhbXBsZSBub25jZQ==\r\n",
    ]);
    assert_eq!(handshake(&h), Err(HandshakeError::BadConnectionHeader));
}

#[test]
fn header_names_are_case_normalized_and_values_trimmed() {
    let parsed = parse_header_line(b"SEC-WebSocket-KEY:   spaced out  \r\n").unwrap();
    assert_eq!(parsed.0, b"sec-websocket-key".to_vec());
    assert_eq!(parsed.1, b"spaced out".to_vec());
    assert!(parse_header_line(b"no colon here\r\n").is_none());
}

#[test]
fn repeated_headers_keep_all_values_but_first_is_consulted() {
    let mut h = Headers::new();
    h.insert(b"connection".to_vec(), b"Upgrade".to_vec());
    h.insert(b"connection".to_vec(), b"close".to_vec());
    h.insert(b"upgrade".to_vec(), b"WebSocket".to_vec());
    h.insert(b"sec-websocket-key".to_vec(), b"dGhlIHNhbXBsZSBub25jZQ==".to_vec());
    // The second, conflicting value does not shadow the first.
    assert!(handshake(&h).is_ok());

    let mut h2 = Headers::new();
    h2.insert(b"connection".to_vec(), b"close".to_vec());
    h2.insert(b"connection".to_vec(), b"Upgrade".to_vec());
    h2.insert(b"upgrade".to_vec(), b"WebSocket".to_vec());
    h2.insert(b"sec-websocket-key".to_vec(), b"dGhlIHNhbXBsZSBub25jZQ==".to_vec());
    // Only the first value counts, and it lacks the token.
    assert_eq!(handshake(&h2), Err(HandshakeError::BadConnectionHeader));
}

#[test]
fn request_path_is_the_second_token() {
    assert_eq!(request_path(b"GET /chat HTTP/1.1"), Some(b"/chat".to_vec()));
    assert_eq!(request_path(b"GET / HTTP/1.1"), Some(b"/".to_vec()));
    assert_eq!(request_path(b"GET /only-two"), Some(b"/only-two".to_vec()));
    assert_eq!(request_path(b"lonesome"), None);
}
