//! The per-connection and prober decisions of the proxy.
//!
//! Everything here computes: the surrounding binary reads and writes
//! the sockets, and hands buffers in and takes buffers and verdicts
//! out. The accept loop's backoff, the probe verdict, the Host
//! rewrite of a forwarded request and the chunked-body termination
//! test all live here with exact contracts.

use vstd::prelude::*;

verus! {

use crate::backend::Backend;
use crate::http::{
    decoded, lookup, parse_message, render_msg, spec_parse_msg, spec_status_value, str_eq, upsert,
    HeaderMap, HttpError, HttpMessage, HttpMethod, HttpVersion, MessageModel, StartModel,
};

/// The fixed size of the per-connection read buffers, in bytes.
pub const BUFSIZE: usize = 2048;

/// The prober's pause between two cycles, in milliseconds.
pub const PROBE_INTERVAL_MS: u64 = 5000;

/// The accept loop's exponential backoff, in seconds: wait one second
/// after the first failure, double after each further one, and give
/// up past the cap of 64 seconds. A success resets the wait.
pub struct AcceptBackoff {
    pub wait: u64,
}

impl AcceptBackoff {
    pub fn new() -> (r: AcceptBackoff)
        ensures
            r.wait == 1,
    {
        AcceptBackoff { wait: 1 }
    }

    /// After a failed accept: how long to wait before retrying, or
    /// `None` once the cap has been passed and the failure is fatal.
    pub fn on_failure(&mut self) -> (r: Option<u64>)
        requires
            old(self).wait <= 128,
        ensures
            old(self).wait > 64 ==> r is None && final(self).wait == old(self).wait,
            old(self).wait <= 64 ==> r == Some(old(self).wait) && final(self).wait == 2 * old(
                self,
            ).wait,
            final(self).wait <= 128,
    {
        if self.wait > 64 {
            None
        } else {
            let w = self.wait;
            self.wait = w * 2;
            Some(w)
        }
    }

    /// A successful accept resets the wait to one second.
    pub fn on_success(&mut self)
        ensures
            final(self).wait == 1,
    {
        self.wait = 1;
    }
}

/// The five bytes that close a chunked body: the zero-length chunk
/// and its final line break.
pub open spec fn chunk_terminator() -> Seq<u8> {
    seq![48u8, 13u8, 10u8, 13u8, 10u8]
}

/// True when the first `n` bytes read so far end with the zero-length
/// chunk that closes a chunked body; the handler stops reading a
/// chunked response exactly when this holds.
pub fn chunked_complete(buffer: &[u8], n: usize) -> (r: bool)
    requires
        n <= buffer@.len(),
    ensures
        r == (n >= 5 && buffer@.subrange(n - 5, n as int) == chunk_terminator()),
{
    if n < 5 {
        return false;
    }
    let tail_ok = buffer[n - 5] == 48 && buffer[n - 4] == 13 && buffer[n - 3] == 10 && buffer[n
        - 2] == 13 && buffer[n - 1] == 10;
    proof {
        let t = buffer@.subrange(n - 5, n as int);
        if tail_ok {
            assert(t =~= chunk_terminator());
        } else {
            if t == chunk_terminator() {
                assert(t[0] == buffer@[n - 5] && t[1] == buffer@[n - 4] && t[2] == buffer@[n - 3]
                    && t[3] == buffer@[n - 2] && t[4] == buffer@[n - 1]);
            }
        }
    }
    tail_ok
}

/// True when the message's `Transfer-Encoding` value is exactly
/// `chunked`, so its body runs until the closing zero-length chunk.
pub fn is_chunked(msg: &HttpMessage) -> (r: bool)
    ensures
        r == (lookup(msg@.headers, "Transfer-Encoding"@) == Some("chunked"@)),
{
    match msg.transfer_encoding() {
        Some(v) => str_eq(v.as_str(), "chunked"),
        None => false,
    }
}

/// A probe response marks its backend online exactly when it parses
/// as a message whose status text carries the code 200.
pub open spec fn healthy_response(text: Seq<char>) -> bool {
    match spec_parse_msg(text) {
        None => false,
        Some(m) => match m.start {
            StartModel::Response(_, st) => spec_status_value(st) == Some(200int),
            StartModel::Request(_, _) => false,
        },
    }
}

/// Decide one health probe from the backend's reply.
pub fn probe_decision(buffer: &[u8]) -> (r: bool)
    ensures
        r == healthy_response(decoded(buffer@)),
{
    match parse_message(buffer) {
        Err(_) => false,
        Ok(msg) => match msg.status_code() {
            Some(code) => code.0 == 200,
            None => false,
        },
    }
}

/// Apply one probe outcome to a backend: offline when the connect
/// failed, online when the backend has no health path to ask, and
/// otherwise online exactly when the health reply is a 200 response.
/// Only the liveness flag moves.
pub fn apply_probe_result(backend: &mut Backend, connected: bool, response: Option<&Vec<u8>>)
    ensures
        final(backend).addr == old(backend).addr,
        final(backend).byte_traffic == old(backend).byte_traffic,
        final(backend).health_endpoint == old(backend).health_endpoint,
        final(backend).alive == (connected && match response {
            Some(buf) => healthy_response(decoded(buf@)),
            None => true,
        }),
{
    if !connected {
        backend.set_offline();
        return ;
    }
    match response {
        None => backend.set_online(),
        Some(buf) => {
            if probe_decision(buf.as_slice()) {
                backend.set_online();
            } else {
                backend.set_offline();
            }
        },
    }
}

/// The request the prober sends to a backend's health path: a GET for
/// that path naming the backend itself as host.
pub fn probe_request(health_path: &String, addr: &String) -> (r: String)
    ensures
        r@ == render_msg(
            MessageModel {
                start: StartModel::Request(
                    HttpVersion::V11,
                    crate::http::MethodModel::Get(health_path@),
                ),
                headers: seq![("Host"@, addr@)],
                body: None,
            },
        ),
{
    let mut headers = HeaderMap::new();
    headers.insert(String::from_str("Host"), addr.clone());
    proof {
        assert(headers@ =~= seq![("Host"@, addr@)]);
    }
    let msg = HttpMessage::new(HttpMethod::Get(health_path.clone()), headers);
    msg.to_string()
}

/// Turn one received client buffer into the bytes to send upstream:
/// parse it as a request, bind its `Host` header to the chosen
/// backend's address — replacing the value if the header is there,
/// adding it if not — and render the result. A buffer that does not
/// parse is refused with the parser's error, and nothing else of the
/// message changes.
pub fn prepare_forward(buffer: &[u8], backend_addr: &String) -> (r: Result<String, HttpError>)
    ensures
        match spec_parse_msg(decoded(buffer@)) {
            None => r == Err::<String, HttpError>(HttpError::ParsingError),
            Some(m) => r matches Ok(out) && out@ == render_msg(
                MessageModel {
                    start: m.start,
                    headers: upsert(m.headers, "Host"@, backend_addr@),
                    body: m.body,
                },
            ),
        },
{
    match parse_message(buffer) {
        Err(e) => Err(e),
        Ok(msg) => {
            let mut msg = msg;
            msg.headers.insert(String::from_str("Host"), backend_addr.clone());
            Ok(msg.to_string())
        },
    }
}

/// The proxy's own liveness line: a request whose bytes begin with
/// `GET /health HTTP/1.1` and its line break.
pub open spec fn health_line() -> Seq<u8> {
    seq![
        71u8, 69u8, 84u8, 32u8, 47u8, 104u8, 101u8, 97u8, 108u8, 116u8, 104u8, 32u8, 72u8, 84u8,
        84u8, 80u8, 47u8, 49u8, 46u8, 49u8, 13u8, 10u8,
    ]
}

/// True when the received buffer starts with the proxy's own
/// liveness line; the handler may then answer directly without
/// touching any backend.
pub fn is_proxy_health_request(buffer: &[u8]) -> (r: bool)
    ensures
        r == (buffer@.len() >= health_line().len() && buffer@.subrange(
            0,
            health_line().len() as int,
        ) == health_line()),
{
    let expected: Vec<u8> = vec![
        71u8, 69u8, 84u8, 32u8, 47u8, 104u8, 101u8, 97u8, 108u8, 116u8, 104u8, 32u8, 72u8, 84u8,
        84u8, 80u8, 47u8, 49u8, 46u8, 49u8, 13u8, 10u8,
    ];
    proof {
        assert(expected@ =~= health_line());
    }
    let m = expected.len();
    if buffer.len() < m {
        return false;
    }
    let mut i: usize = 0;
    while i < m
        invariant
            i <= m,
            m == health_line().len(),
            expected@ == health_line(),
            m <= buffer@.len(),
            forall|j: int| 0 <= j < i ==> buffer@[j] == health_line()[j],
        decreases m - i,
    {
        if buffer[i] != expected[i] {
            proof {
                if buffer@.subrange(0, m as int) == health_line() {
                    assert(buffer@.subrange(0, m as int)[i as int] == buffer@[i as int]);
                }
            }
            return false;
        }
        i = i + 1;
    }
    proof {
        assert(buffer@.subrange(0, m as int) =~= health_line());
    }
    true
}

/// The proxy's own answer to its liveness line: a bare 200 response.
pub open spec fn ok_response() -> Seq<u8> {
    seq![
        72u8, 84u8, 84u8, 80u8, 47u8, 49u8, 46u8, 49u8, 32u8, 50u8, 48u8, 48u8, 32u8, 79u8, 75u8,
        13u8, 10u8, 13u8, 10u8,
    ]
}

/// The bytes of the proxy's own 200 reply, `HTTP/1.1 200 OK` and the
/// empty header block.
pub fn health_response() -> (r: Vec<u8>)
    ensures
        r@ == ok_response(),
{
    let out: Vec<u8> = vec![
        72u8, 84u8, 84u8, 80u8, 47u8, 49u8, 46u8, 49u8, 32u8, 50u8, 48u8, 48u8, 32u8, 79u8, 75u8,
        13u8, 10u8, 13u8, 10u8,
    ];
    proof {
        assert(out@ =~= ok_response());
    }
    out
}

} // verus!
