//! A small layer-7 reverse proxy and load balancer for HTTP/1.x traffic.
//!
//! The crate holds the proxy runtime's core: the backend pool and its
//! liveness and traffic state, the balancing policies, the HTTP/1.x
//! message codec, and the per-connection forwarding and health-probing
//! decisions. Listening, connecting and all other socket work live in the
//! surrounding binary, which feeds this library plain byte buffers and
//! applies the decisions it returns.

pub mod backend;
pub mod balancing;
pub mod http;
pub mod http_laws;
pub mod server;

use vstd::prelude::*;

verus! {

use crate::balancing::BalancingAlgorithm;

/// Startup configuration, already parsed: the upstream addresses, the
/// per-operation I/O timeout in seconds, and the balancing policy tag.
pub struct Config {
    backends: Vec<String>,
    timeout: i64,
    balancing: BalancingAlgorithm,
}

impl Config {
    /// Spec view of the configured backend addresses.
    pub closed spec fn spec_backends(&self) -> Seq<String> {
        self.backends@
    }

    /// Spec view of the configured timeout.
    pub closed spec fn spec_timeout(&self) -> i64 {
        self.timeout
    }

    /// Spec view of the configured balancing tag.
    pub closed spec fn spec_balancing(&self) -> BalancingAlgorithm {
        self.balancing
    }

    pub fn new(backends: Vec<String>, timeout: i64, balancing: BalancingAlgorithm) -> (r: Config)
        ensures
            r.spec_backends() == backends@,
            r.spec_timeout() == timeout,
            r.spec_balancing() == balancing,
    {
        Config { backends, timeout, balancing }
    }

    pub fn backends(&self) -> (r: &Vec<String>)
        ensures
            r@ == self.spec_backends(),
    {
        &self.backends
    }

    pub fn timeout(&self) -> (r: i64)
        ensures
            r == self.spec_timeout(),
    {
        self.timeout
    }

    pub fn balancing_algorithm(&self) -> (r: &BalancingAlgorithm)
        ensures
            *r == self.spec_balancing(),
    {
        &self.balancing
    }
}

} // verus!
