use rlb::http;

#[test]
fn http_parse_message_test() {
    let request_bytes = b"GET /hello HTTP/1.1\r\nHost: localhost\r\n\r\n";
    let message = http::parse_message(request_bytes).unwrap();
    assert_eq!(
        message.method(),
        Some(&http::HttpMethod::Get("/hello".to_string()))
    );
    assert_eq!(message.http_version(), Some(&http::HttpVersion::V11));
    assert_eq!(message.headers.contains_key("Host"), true);
    assert_eq!(message.route(), Some(&"/hello".to_string()));
}

#[test]
fn http_request_to_string_test() {
    let request_str = "GET /hello HTTP/1.1\r\nHost: localhost\r\n\r\n\r\n";
    let mut headers = http::HeaderMap::new();
    headers.insert("Host".to_string(), "localhost".to_string());
    let message = http::HttpMessage {
        header: http::HttpHeader::Method(
            http::HttpVersion::V11,
            http::HttpMethod::Get("/hello".to_string()),
        ),
        headers,
        body: None,
    };
    assert_eq!(message.to_string(), request_str);
}

#[test]
fn parse_then_render_round_trip() {
    let request_bytes = b"POST /submit HTTP/1.0\r\nHost: localhost\r\nAccept: text/html\r\n\r\n";
    let message = rlb::http::parse_message(request_bytes).unwrap();
    let rendered = message.to_string();
    let again = rlb::http::parse_message(rendered.as_bytes()).unwrap();
    assert_eq!(again.method(), Some(&http::HttpMethod::Post("/submit".to_string())));
    assert_eq!(again.http_version(), Some(&http::HttpVersion::V10));
    assert_eq!(again.headers.get("Host"), Some(&"localhost".to_string()));
    assert_eq!(again.headers.get("Accept"), Some(&"text/html".to_string()));
    assert_eq!(again.body, None);
    assert_eq!(again.to_string(), rendered);
}

#[test]
fn parse_response_message() {
    let bytes = b"HTTP/1.1 200 OK\r\nTransfer-Encoding: chunked\r\n\r\n";
    let message = http::parse_message(bytes).unwrap();
    assert_eq!(message.method(), None);
    assert_eq!(message.route(), None);
    assert_eq!(message.http_version(), Some(&http::HttpVersion::V11));
    assert_eq!(message.status_code(), Some(http::StatusCode::new(200)));
    assert_eq!(message.transfer_encoding(), Some(&"chunked".to_string()));
}

#[test]
fn parse_unknown_method_fails() {
    let bytes = b"FETCH /hello HTTP/1.1\r\nHost: localhost\r\n\r\n";
    assert_eq!(http::parse_message(bytes), Err(http::HttpError::ParsingError));
}

#[test]
fn parse_unterminated_header_block_fails() {
    let bytes = b"GET /hello HTTP/1.1";
    assert_eq!(http::parse_message(bytes), Err(http::HttpError::ParsingError));
}

#[test]
fn parse_bad_version_fails() {
    let bytes = b"GET /hello SPDY/9.9\r\n\r\n";
    assert_eq!(http::parse_message(bytes), Err(http::HttpError::ParsingError));
}

#[test]
fn parse_route_defaults() {
    let bytes = b"GET HTTP/1.1\r\n\r\n";
    let message = http::parse_message(bytes).unwrap();
    assert_eq!(message.route(), Some(&"/".to_string()));
}

#[test]
fn parse_head_request() {
    let bytes = b"HEAD /x HTTP/1.1\r\n\r\n";
    let message = http::parse_message(bytes).unwrap();
    assert_eq!(message.method(), Some(&http::HttpMethod::Head));
    assert_eq!(message.route(), None);
}

#[test]
fn parse_trims_header_value_whitespace() {
    let bytes = b"GET / HTTP/1.1\r\nHost:   spaced.example.com \r\n\r\n";
    let message = http::parse_message(bytes).unwrap();
    assert_eq!(message.headers.get("Host"), Some(&"spaced.example.com".to_string()));
}

#[test]
fn parse_keeps_nul_padding_out_of_body() {
    let mut buffer = vec![0u8; 64];
    let bytes = b"GET / HTTP/1.1\r\nHost: a\r\n\r\n";
    buffer[..bytes.len()].copy_from_slice(bytes);
    let message = http::parse_message(&buffer).unwrap();
    assert_eq!(message.body, None);
}

#[test]
fn status_code_from_str() {
    assert_eq!(
        http::StatusCode::from_str(&"200 OK".to_string()),
        Ok(http::StatusCode::new(200))
    );
    assert_eq!(
        http::StatusCode::from_str(&"503 Service Unavailable".to_string()),
        Ok(http::StatusCode::new(503))
    );
    assert_eq!(
        http::StatusCode::from_str(&"099".to_string()),
        Err(http::HttpError::InvalidStatusCode)
    );
    assert_eq!(
        http::StatusCode::from_str(&"612".to_string()),
        Err(http::HttpError::InvalidStatusCode)
    );
    assert_eq!(
        http::StatusCode::from_str(&"ok".to_string()),
        Err(http::HttpError::InvalidStatusCode)
    );
}

#[test]
fn version_from_str() {
    assert_eq!(http::HttpVersion::from_str("HTTP/1.0"), http::HttpVersion::V10);
    assert_eq!(http::HttpVersion::from_str("HTTP/1.1"), http::HttpVersion::V11);
}

#[test]
fn header_map_lookup_and_insert() {
    let mut headers = http::HeaderMap::new();
    assert!(!headers.contains_key("Host"));
    headers.insert("Host".to_string(), "a".to_string());
    headers.insert("Accept".to_string(), "b".to_string());
    assert_eq!(headers.get("Host"), Some(&"a".to_string()));
    headers.insert("Host".to_string(), "c".to_string());
    assert_eq!(headers.get("Host"), Some(&"c".to_string()));
    assert_eq!(headers.len(), 2);
    assert_eq!(headers.get("Accept"), Some(&"b".to_string()));
    assert_eq!(headers.get("Missing"), None);
}

#[test]
fn response_to_string() {
    let message = http::HttpMessage {
        header: http::HttpHeader::Status(http::HttpVersion::V11, "200 OK".to_string()),
        headers: http::HeaderMap::new(),
        body: None,
    };
    assert_eq!(message.to_string(), "HTTP/1.1 200 OK\r\n\r\n\r\n");
}
