//! Upstream backends and the pool that selects among them.
//!
//! A [`Backend`] is one upstream endpoint with a liveness flag, a
//! cumulative byte-traffic counter and an optional health-probe path.
//! A [`BackendPool`] owns an ordered sequence of backends together with
//! the balancing policy bound at construction, and exposes selection
//! with a liveness guard.

use vstd::prelude::*;

verus! {

use crate::balancing::{
    any_alive, first_alive_from, lemma_min_traffic_index, min_alive_index, min_traffic_index,
    random_alive_index,
    rr_advance, Balancer, LoadBalancing,
};

/// Selection failure: every backend in the pool is offline.
#[derive(Debug, PartialEq, Eq, Structural)]
pub enum BackendError {
    NoBackendAlive,
}

/// One upstream endpoint. The liveness flag is written by the prober and
/// read by the policies; the traffic counter is only ever increased.
#[derive(Debug)]
pub struct Backend {
    pub addr: String,
    pub alive: bool,
    pub byte_traffic: usize,
    pub health_endpoint: Option<String>,
}

impl Backend {
    /// Create a backend for the endpoint `addr`, initially offline and
    /// with an empty traffic counter.
    pub fn new(addr: String, health_endpoint: Option<String>) -> (r: Backend)
        ensures
            r.addr == addr,
            r.alive == false,
            r.byte_traffic == 0,
            r.health_endpoint == health_endpoint,
    {
        Backend { addr, alive: false, byte_traffic: 0, health_endpoint }
    }

    pub fn set_online(&mut self)
        ensures
            final(self).alive == true,
            final(self).addr == old(self).addr,
            final(self).byte_traffic == old(self).byte_traffic,
            final(self).health_endpoint == old(self).health_endpoint,
    {
        self.alive = true;
    }

    pub fn set_offline(&mut self)
        ensures
            final(self).alive == false,
            final(self).addr == old(self).addr,
            final(self).byte_traffic == old(self).byte_traffic,
            final(self).health_endpoint == old(self).health_endpoint,
    {
        self.alive = false;
    }

    /// Add `bytes` to the traffic counter, saturating at the counter's
    /// maximum. The counter never decreases.
    pub fn increase_byte_traffic(&mut self, bytes: usize)
        ensures
            final(self).byte_traffic == if old(self).byte_traffic + bytes <= usize::MAX {
                old(self).byte_traffic + bytes
            } else {
                usize::MAX as int
            },
            final(self).byte_traffic >= old(self).byte_traffic,
            final(self).alive == old(self).alive,
            final(self).addr == old(self).addr,
            final(self).health_endpoint == old(self).health_endpoint,
    {
        self.byte_traffic = self.byte_traffic.saturating_add(bytes);
    }

    pub fn byte_traffic(&self) -> (r: usize)
        ensures
            r == self.byte_traffic,
    {
        self.byte_traffic
    }

    pub fn health_endpoint(&self) -> (r: &Option<String>)
        ensures
            *r == self.health_endpoint,
    {
        &self.health_endpoint
    }
}

/// The ordered set of backends and the balancing policy chosen at
/// startup. Indices into the pool are stable: backends are only ever
/// appended.
pub struct BackendPool {
    backends: Vec<Backend>,
    balancing_algo: Balancer,
}

impl BackendPool {
    /// Spec view of the backend sequence.
    pub closed spec fn backends(&self) -> Seq<Backend> {
        self.backends@
    }

    /// Spec view of the bound balancing policy and its state.
    pub closed spec fn policy(&self) -> Balancer {
        self.balancing_algo
    }

    /// Create an empty pool bound to the given policy.
    pub fn new(balancing_algo: Balancer) -> (r: BackendPool)
        ensures
            r.backends().len() == 0,
            r.policy() == balancing_algo,
    {
        BackendPool { backends: Vec::new(), balancing_algo }
    }

    pub fn len(&self) -> (r: usize)
        ensures
            r == self.backends().len(),
    {
        self.backends.len()
    }

    /// Create a pool holding `backends`, bound to the given policy.
    pub fn from_backends_list(backends: Vec<Backend>, balancing_algo: Balancer) -> (r: BackendPool)
        ensures
            r.backends() == backends@,
            r.policy() == balancing_algo,
    {
        BackendPool { backends, balancing_algo }
    }

    /// Append one backend; all existing indices stay valid.
    pub fn push(&mut self, backend: Backend)
        ensures
            final(self).backends() == old(self).backends().push(backend),
            final(self).policy() == old(self).policy(),
    {
        self.backends.push(backend);
    }

    /// Shared access to the backend at `index`.
    pub fn get(&self, index: usize) -> (r: &Backend)
        requires
            index < self.backends().len(),
        ensures
            *r == self.backends()[index as int],
    {
        &self.backends[index]
    }

    /// Exclusive access to the backend at `index`, for the prober and
    /// the traffic accounting of the handler.
    pub fn get_mut(&mut self, index: usize) -> (r: &mut Backend)
        requires
            index < old(self).backends().len(),
        ensures
            *r == old(self).backends()[index as int],
            final(self).backends() == old(self).backends().update(index as int, *final(r)),
            final(self).policy() == old(self).policy(),
    {
        &mut self.backends[index]
    }

    /// Select an alive backend's index, or fail when none is alive.
    ///
    /// The liveness guard comes first: an all-offline pool fails with
    /// `NoBackendAlive` at once instead of spinning. Otherwise the
    /// bound policy picks the slot, falling back to a direct scan of
    /// the alive slots where the policy's own pick is offline, so that
    /// selection terminates after at most one pass over the pool. The
    /// backends themselves are left untouched; only the policy's
    /// cursor moves. Under round-robin the selected slot is exactly
    /// the first alive slot in cyclic order after the cursor; under
    /// least-traffic it is exactly the least-indexed alive slot with
    /// minimal traffic among the alive ones.
    pub fn next_backend(&mut self) -> (r: Result<usize, BackendError>)
        ensures
            final(self).backends() == old(self).backends(),
            r is Ok <==> any_alive(old(self).backends()),
            r matches Err(e) ==> e == BackendError::NoBackendAlive,
            r matches Ok(i) ==> i < old(self).backends().len()
                && old(self).backends()[i as int].alive,
            old(self).policy() is Random ==> final(self).policy() == old(self).policy(),
            old(self).policy() is LeastTraffic ==> final(self).policy() == old(self).policy(),
            old(self).policy() is LeastTraffic ==> (r matches Ok(i) ==> (forall|j: int|
                0 <= j < old(self).backends().len() && old(self).backends()[j].alive
                    ==> old(self).backends()[i as int].byte_traffic
                    <= #[trigger] old(self).backends()[j].byte_traffic) && (forall|j: int|
                0 <= j < old(self).backends().len() && old(self).backends()[j].alive
                    && #[trigger] old(self).backends()[j].byte_traffic
                    == old(self).backends()[i as int].byte_traffic ==> i <= j)),
            old(self).policy() matches Balancer::RoundRobin(rr0) ==> (r matches Ok(i)
                ==> Some(i as int) == first_alive_from(
                old(self).backends(),
                rr_advance(rr0.cursor() as int, old(self).backends().len() as int),
                old(self).backends().len() as nat,
            ) && (final(self).policy() matches Balancer::RoundRobin(rr2) && rr2.cursor() == i)),
            old(self).policy() is RoundRobin ==> final(self).policy() is RoundRobin,
    {
        if !self.has_backends_available() {
            return Err(BackendError::NoBackendAlive);
        }
        let index = self.balancing_algo.select(&self.backends);
        Ok(index)
    }

    /// True when at least one backend is currently marked alive.
    pub fn has_backends_available(&self) -> (r: bool)
        ensures
            r == any_alive(self.backends()),
    {
        let mut i: usize = 0;
        while i < self.backends.len()
            invariant
                i <= self.backends().len(),
                forall|j: int| 0 <= j < i ==> !self.backends()[j].alive,
            decreases self.backends().len() - i,
        {
            if self.backends[i].alive {
                return true;
            }
            i = i + 1;
        }
        false
    }
}

} // verus!
