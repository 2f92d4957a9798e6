use rlb::backend::Backend;
use rlb::server::{
    apply_probe_result, chunked_complete, health_response, is_chunked, is_proxy_health_request,
    prepare_forward, probe_decision, probe_request, AcceptBackoff, BUFSIZE, PROBE_INTERVAL_MS,
};

#[test]
fn backoff_doubles_and_caps() {
    let mut backoff = AcceptBackoff::new();
    let mut waits = Vec::new();
    loop {
        match backoff.on_failure() {
            Some(w) => waits.push(w),
            None => break,
        }
    }
    assert_eq!(waits, vec![1, 2, 4, 8, 16, 32, 64]);
    backoff.on_success();
    assert_eq!(backoff.on_failure(), Some(1));
}

#[test]
fn chunked_terminator_detection() {
    let done = b"4\r\nWiki\r\n0\r\n\r\n";
    assert!(chunked_complete(done, done.len()));
    let partial = b"4\r\nWiki\r\n";
    assert!(!chunked_complete(partial, partial.len()));
    assert!(!chunked_complete(done, 4));
    assert!(!chunked_complete(b"0\r\n", 3));
}

#[test]
fn chunked_header_detection() {
    let chunked = rlb::http::parse_message(b"HTTP/1.1 200 OK\r\nTransfer-Encoding: chunked\r\n\r\n")
        .unwrap();
    assert!(is_chunked(&chunked));
    let plain = rlb::http::parse_message(b"HTTP/1.1 200 OK\r\n\r\n").unwrap();
    assert!(!is_chunked(&plain));
}

#[test]
fn probe_success_marks_online() {
    let mut backend = Backend::new(String::from(":5000"), Some(String::from("/health")));
    let reply = b"HTTP/1.1 200 OK\r\n\r\n".to_vec();
    apply_probe_result(&mut backend, true, Some(&reply));
    assert!(backend.alive);
    let bad = b"HTTP/1.1 503 Service Unavailable\r\n\r\n".to_vec();
    apply_probe_result(&mut backend, true, Some(&bad));
    assert!(!backend.alive);
}

#[test]
fn probe_connect_failure_marks_offline() {
    let mut backend = Backend::new(String::from(":5000"), Some(String::from("/health")));
    backend.set_online();
    apply_probe_result(&mut backend, false, None);
    assert!(!backend.alive);
}

#[test]
fn probe_without_health_path_marks_online() {
    let mut backend = Backend::new(String::from(":5000"), None);
    apply_probe_result(&mut backend, true, None);
    assert!(backend.alive);
}

#[test]
fn probe_decision_reads_status() {
    assert!(probe_decision(b"HTTP/1.1 200 OK\r\n\r\n"));
    assert!(!probe_decision(b"HTTP/1.1 503 Service Unavailable\r\n\r\n"));
    assert!(!probe_decision(b"not http at all"));
}

#[test]
fn probe_request_wire_format() {
    let request = probe_request(&"/health".to_string(), &"127.0.0.1:5000".to_string());
    assert_eq!(
        request,
        "GET /health HTTP/1.1\r\nHost: 127.0.0.1:5000\r\n\r\n\r\n"
    );
}

#[test]
fn forward_rewrites_host() {
    let bytes = b"GET /hello HTTP/1.1\r\nHost: localhost\r\n\r\n";
    let out = prepare_forward(bytes, &"10.0.0.7:8080".to_string()).unwrap();
    assert_eq!(out, "GET /hello HTTP/1.1\r\nHost: 10.0.0.7:8080\r\n\r\n\r\n");
}

#[test]
fn forward_adds_missing_host() {
    let bytes = b"GET /hello HTTP/1.1\r\nAccept: text/html\r\n\r\n";
    let out = prepare_forward(bytes, &"10.0.0.7:8080".to_string()).unwrap();
    assert_eq!(
        out,
        "GET /hello HTTP/1.1\r\nAccept: text/html\r\nHost: 10.0.0.7:8080\r\n\r\n\r\n"
    );
}

#[test]
fn forward_refuses_garbage() {
    let out = prepare_forward(b"no header block here", &"10.0.0.7:8080".to_string());
    assert_eq!(out, Err(rlb::http::HttpError::ParsingError));
}

#[test]
fn proxy_health_endpoint() {
    assert!(is_proxy_health_request(b"GET /health HTTP/1.1\r\nHost: x\r\n\r\n"));
    assert!(!is_proxy_health_request(b"GET /hello HTTP/1.1\r\nHost: x\r\n\r\n"));
    assert!(!is_proxy_health_request(b"GET"));
    assert_eq!(health_response(), b"HTTP/1.1 200 OK\r\n\r\n".to_vec());
}

#[test]
fn server_constants() {
    assert_eq!(BUFSIZE, 2048);
    assert_eq!(PROBE_INTERVAL_MS, 5000);
}
