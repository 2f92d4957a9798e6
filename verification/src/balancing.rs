//! Balancing policies over a vector of backends.
//!
//! Every policy answers one question: given the pool's backends, which
//! index should the next request go to, or none if the picked slot is
//! offline. The retry-until-alive loop is the pool's job, not the
//! policies'; each policy call is independent and never blocks.

use vstd::prelude::*;

verus! {

use crate::backend::Backend;
use crate::http::{method_route, HttpHeader, HttpMessage, HttpMethod, MethodModel, StartModel};

/// Failure of the policy factory: the requested tag has no pool-bound
/// policy.
#[derive(Debug, PartialEq, Eq, Structural)]
pub enum BalancingError {
    UnknownAlgorithm,
}

/// The supported balancing policy tags, as they appear in the
/// configuration.
#[derive(Debug, Clone, Copy, PartialEq, Eq, Structural)]
pub enum BalancingAlgorithm {
    RoundRobin,
    Random,
    LeastTraffic,
    Hashing,
}

impl BalancingAlgorithm {
    pub fn round_robin() -> (r: Self)
        ensures
            r == BalancingAlgorithm::RoundRobin,
    {
        BalancingAlgorithm::RoundRobin
    }

    pub fn random() -> (r: Self)
        ensures
            r == BalancingAlgorithm::Random,
    {
        BalancingAlgorithm::Random
    }

    pub fn least_traffic() -> (r: Self)
        ensures
            r == BalancingAlgorithm::LeastTraffic,
    {
        BalancingAlgorithm::LeastTraffic
    }

    pub fn hashing() -> (r: Self)
        ensures
            r == BalancingAlgorithm::Hashing,
    {
        BalancingAlgorithm::Hashing
    }
}

/// True when at least one backend in the sequence is alive.
pub open spec fn any_alive(bs: Seq<Backend>) -> bool {
    exists|i: int| 0 <= i < bs.len() && bs[i].alive
}

/// The cursor value after one round-robin step over `n` slots.
pub open spec fn rr_advance(cursor: int, n: int) -> int
    recommends
        n > 0,
{
    ((cursor % n) + 1) % n
}

/// The slot after `s` in cyclic order over `n` slots.
pub open spec fn cyc_step(s: int, n: int) -> int {
    if s + 1 == n {
        0
    } else {
        s + 1
    }
}

/// The first alive slot at or after `start` in cyclic order, visiting
/// at most `steps` slots.
pub open spec fn first_alive_from(bs: Seq<Backend>, start: int, steps: nat) -> Option<int>
    decreases steps,
{
    if steps == 0 || !(0 <= start < bs.len()) {
        None
    } else if bs[start].alive {
        Some(start)
    } else {
        first_alive_from(bs, cyc_step(start, bs.len() as int), (steps - 1) as nat)
    }
}

/// The slot `d` places after `start` in cyclic order over `n` slots,
/// for `start` and `d` below `n`.
pub open spec fn cyc_index(start: int, d: int, n: int) -> int {
    if start + d < n {
        start + d
    } else {
        start + d - n
    }
}

/// When `first_alive_from` gives up after `steps` slots, each of the
/// `steps` slots it visited was dead.
proof fn lemma_first_alive_none(bs: Seq<Backend>, start: int, steps: nat)
    requires
        0 <= start < bs.len(),
        steps <= bs.len(),
        first_alive_from(bs, start, steps) is None,
    ensures
        forall|d: int| 0 <= d < steps ==> !bs[#[trigger] cyc_index(start, d, bs.len() as int)].alive,
    decreases steps,
{
    let n = bs.len() as int;
    if steps > 0 {
        assert(!bs[start].alive);
        let start2 = cyc_step(start, n);
        lemma_first_alive_none(bs, start2, (steps - 1) as nat);
        assert forall|d: int| 0 <= d < steps implies !bs[#[trigger] cyc_index(start, d, n)].alive by {
            if d > 0 {
                let d2 = d - 1;
                assert(!bs[cyc_index(start2, d2, n)].alive);
                assert(cyc_index(start2, d2, n) == cyc_index(start, d, n));
            } else {
                assert(cyc_index(start, 0, n) == start);
            }
        }
    }
}

/// While some backend is alive, a cyclic scan of all slots finds one.
pub proof fn lemma_first_alive_exists(bs: Seq<Backend>, start: int)
    requires
        0 <= start < bs.len(),
        any_alive(bs),
    ensures
        first_alive_from(bs, start, bs.len() as nat) is Some,
{
    let n = bs.len() as int;
    if first_alive_from(bs, start, bs.len() as nat) is None {
        lemma_first_alive_none(bs, start, bs.len() as nat);
        let j = choose|j: int| 0 <= j < n && bs[j].alive;
        let d = if j >= start {
            j - start
        } else {
            n - start + j
        };
        assert(0 <= d < n);
        assert(cyc_index(start, d, n) == j);
        assert(!bs[cyc_index(start, d, n)].alive);
    }
}

/// Over an all-alive pool the cyclic scan stops at its very first
/// slot, so each pool selection under round-robin is exactly the
/// advanced cursor.
pub proof fn lemma_first_alive_all_alive(bs: Seq<Backend>, start: int)
    requires
        0 <= start < bs.len(),
        forall|i: int| 0 <= i < bs.len() ==> bs[i].alive,
    ensures
        first_alive_from(bs, start, bs.len() as nat) == Some(start),
{
    assert(bs[start].alive);
}

/// The slot the round-robin cursor lands on after `t + 1` picks from
/// cursor `c0`: the first pick advances once, each further pick one
/// more slot in cyclic order.
pub open spec fn rr_visit(c0: int, n: int, t: nat) -> int
    decreases t,
{
    if t == 0 {
        rr_advance(c0, n)
    } else {
        cyc_step(rr_visit(c0, n, (t - 1) as nat), n)
    }
}

/// Every visited slot lies in range.
proof fn lemma_rr_visit_bounds(c0: int, n: int, t: nat)
    requires
        n > 0,
    ensures
        0 <= rr_visit(c0, n, t) < n,
    decreases t,
{
    if t > 0 {
        lemma_rr_visit_bounds(c0, n, (t - 1) as nat);
    }
}

/// The visit sequence is what successive round-robin picks return:
/// the first pick advances the cursor once, and each later pick
/// advances the previous pick's slot by one.
pub proof fn lemma_rr_visit_matches_advance(c0: int, n: int, t: nat)
    requires
        n > 0,
    ensures
        rr_visit(c0, n, 0) == rr_advance(c0, n),
        rr_visit(c0, n, (t + 1) as nat) == rr_advance(rr_visit(c0, n, t), n),
{
    lemma_rr_visit_bounds(c0, n, t);
    let x = rr_visit(c0, n, t);
    vstd::arithmetic::div_mod::lemma_small_mod(x as nat, n as nat);
    if x + 1 == n {
        broadcast use vstd::arithmetic::div_mod::lemma_mod_self_0;

        assert((x + 1) % n == 0int);
    } else {
        vstd::arithmetic::div_mod::lemma_small_mod((x + 1) as nat, n as nat);
    }
    assert(rr_advance(x, n) == cyc_step(x, n));
}

/// The closed form of a visit within the first cycle.
proof fn lemma_rr_visit_closed(c0: int, n: int, d: nat)
    requires
        n > 0,
        d <= n,
    ensures
        rr_visit(c0, n, d) == cyc_index(rr_advance(c0, n), d as int, n),
    decreases d,
{
    if d > 0 {
        lemma_rr_visit_closed(c0, n, (d - 1) as nat);
    }
}

/// Visits repeat with period `n`.
proof fn lemma_rr_visit_period(c0: int, n: int, t: nat)
    requires
        n > 0,
    ensures
        rr_visit(c0, n, (t + n) as nat) == rr_visit(c0, n, t),
    decreases t,
{
    if t == 0 {
        lemma_rr_visit_closed(c0, n, n as nat);
        assert(cyc_index(rr_advance(c0, n), n, n) == rr_advance(c0, n));
    } else {
        lemma_rr_visit_period(c0, n, (t - 1) as nat);
        assert((t + n) as nat == ((t - 1) as nat + n) as nat + 1);
    }
}

/// How many of the picks numbered `a` to `a + b - 1` return slot `i`.
pub open spec fn rr_window_hits(c0: int, n: int, a: nat, b: nat, i: int) -> int
    decreases b,
{
    if b == 0 {
        0
    } else {
        rr_window_hits(c0, n, a, (b - 1) as nat, i) + if rr_visit(c0, n, (a + b - 1) as nat)
            == i {
            1int
        } else {
            0int
        }
    }
}

/// How many of the first `k` picks return slot `i`.
pub open spec fn rr_hits(c0: int, n: int, k: nat, i: int) -> int {
    rr_window_hits(c0, n, 0, k, i)
}

/// Counting over a window splits at any point.
proof fn lemma_window_split(c0: int, n: int, a: nat, b1: nat, b2: nat, i: int)
    ensures
        rr_window_hits(c0, n, a, (b1 + b2) as nat, i) == rr_window_hits(c0, n, a, b1, i)
            + rr_window_hits(c0, n, (a + b1) as nat, b2, i),
    decreases b2,
{
    if b2 > 0 {
        lemma_window_split(c0, n, a, b1, (b2 - 1) as nat, i);
        assert((a + (b1 + b2) - 1) as nat == ((a + b1) + b2 - 1) as nat);
    }
}

/// Window counts repeat with period `n`.
proof fn lemma_window_period(c0: int, n: int, a: nat, b: nat, i: int)
    requires
        n > 0,
    ensures
        rr_window_hits(c0, n, (a + n) as nat, b, i) == rr_window_hits(c0, n, a, b, i),
    decreases b,
{
    if b > 0 {
        lemma_window_period(c0, n, a, (b - 1) as nat, i);
        lemma_rr_visit_period(c0, n, (a + b - 1) as nat);
        assert(((a + n) + b - 1) as nat == ((a + b - 1) as nat + n) as nat);
    }
}

/// Within the first cycle, slot `i` has been returned once as soon as
/// the cycle has reached it, and not before.
proof fn lemma_first_cycle_prefix(c0: int, n: int, w: nat, i: int)
    requires
        n > 0,
        0 <= i < n,
        w <= n,
    ensures
        rr_window_hits(c0, n, 0, w, i) == if (i >= rr_advance(c0, n) && i - rr_advance(c0, n) < w)
            || (i < rr_advance(c0, n) && i - rr_advance(c0, n) + n < w) {
            1int
        } else {
            0int
        },
    decreases w,
{
    if w > 0 {
        lemma_first_cycle_prefix(c0, n, (w - 1) as nat, i);
        lemma_rr_visit_closed(c0, n, (w - 1) as nat);
    }
}

/// One full cycle returns each slot exactly once.
proof fn lemma_one_cycle(c0: int, n: int, i: int)
    requires
        n > 0,
        0 <= i < n,
    ensures
        rr_window_hits(c0, n, 0, n as nat, i) == 1,
{
    lemma_first_cycle_prefix(c0, n, n as nat, i);
}

/// Round-robin fairness: from any starting cursor, over any whole
/// number of cycles, every slot in range is returned exactly once per
/// cycle — over an all-alive pool the picks succeed, so each backend
/// serves exactly one request in `n` and `cycles` requests in
/// `cycles * n`.
pub proof fn lemma_round_robin_fairness(c0: int, n: int, cycles: nat, i: int)
    requires
        n > 0,
        0 <= i < n,
    ensures
        rr_hits(c0, n, (cycles * (n as nat)) as nat, i) == cycles,
    decreases cycles,
{
    let nn = n as nat;
    if cycles == 0 {
        assert(cycles * nn == 0) by (nonlinear_arith)
            requires
                cycles == 0,
        ;
    } else {
        let prev = (cycles - 1) as nat;
        lemma_round_robin_fairness(c0, n, prev, i);
        assert(cycles * nn == prev * nn + nn) by (nonlinear_arith)
            requires
                cycles >= 1,
                prev == (cycles - 1) as nat,
        ;
        lemma_window_split(c0, n, 0, (prev * nn) as nat, nn, i);
        lemma_cycle_window_shift(c0, n, prev, i);
        lemma_one_cycle(c0, n, i);
        assert(rr_hits(c0, n, (cycles * nn) as nat, i) == rr_window_hits(
            c0,
            n,
            0,
            (prev * nn) as nat,
            i,
        ) + rr_window_hits(c0, n, (prev * nn) as nat, nn, i));
    }
}

/// The cycle starting after any whole number of cycles counts like
/// the first one.
proof fn lemma_cycle_window_shift(c0: int, n: int, cycles: nat, i: int)
    requires
        n > 0,
    ensures
        rr_window_hits(c0, n, (cycles * (n as nat)) as nat, n as nat, i) == rr_window_hits(
            c0,
            n,
            0,
            n as nat,
            i,
        ),
    decreases cycles,
{
    let nn = n as nat;
    if cycles == 0 {
        assert(cycles * nn == 0) by (nonlinear_arith)
            requires
                cycles == 0,
        ;
    } else {
        let prev = (cycles - 1) as nat;
        lemma_cycle_window_shift(c0, n, prev, i);
        assert(cycles * nn == prev * nn + nn) by (nonlinear_arith)
            requires
                cycles >= 1,
                prev == (cycles - 1) as nat,
        ;
        lemma_window_period(c0, n, (prev * nn) as nat, nn, i);
        assert((cycles * nn) as nat == ((prev * nn) as nat + n) as nat);
    }
}

/// The index of the backend with the least traffic; ties go to the
/// lowest index.
pub open spec fn min_traffic_index(bs: Seq<Backend>) -> int
    recommends
        bs.len() > 0,
    decreases bs.len(),
{
    if bs.len() <= 1 {
        0
    } else {
        let m = min_traffic_index(bs.drop_last());
        if bs.last().byte_traffic < bs[m].byte_traffic {
            bs.len() - 1
        } else {
            m
        }
    }
}

/// `min_traffic_index` really is the least-indexed minimum of the
/// traffic counters.
pub proof fn lemma_min_traffic_index(bs: Seq<Backend>)
    requires
        bs.len() > 0,
    ensures
        0 <= min_traffic_index(bs) < bs.len(),
        forall|j: int|
            0 <= j < bs.len() ==> bs[min_traffic_index(bs)].byte_traffic <= #[trigger] bs[j].byte_traffic,
        forall|j: int|
            0 <= j < bs.len() && #[trigger] bs[j].byte_traffic == bs[min_traffic_index(bs)].byte_traffic
                ==> min_traffic_index(bs) <= j,
    decreases bs.len(),
{
    if bs.len() > 1 {
        lemma_min_traffic_index(bs.drop_last());
        assert(forall|j: int| 0 <= j < bs.len() - 1 ==> bs.drop_last()[j] == bs[j]);
    }
}

/// A policy's one capability: pick a backend index from the pool's
/// backends, or none when the picked slot is offline or the pool is
/// empty. Policies that keep state (the round-robin cursor) update it
/// on every call; each implementation states exactly what it returns.
pub trait LoadBalancing {
    fn next_backend(&mut self, backends: &Vec<Backend>) -> Option<usize>;
}

/// Round-robin: a cursor that advances by one slot on every call, so
/// that consecutive calls visit the slots in cyclic order.
pub struct RoundRobinBalancing {
    next_index: usize,
}

impl RoundRobinBalancing {
    /// Spec view of the cursor.
    pub closed spec fn cursor(&self) -> usize {
        self.next_index
    }

    /// Create a round-robin policy with the cursor at zero.
    pub fn new() -> (r: RoundRobinBalancing)
        ensures
            r.cursor() == 0,
    {
        RoundRobinBalancing { next_index: 0 }
    }

    /// The pool's bounded retry of the round-robin policy: advance the
    /// cursor slot by slot until it lands on an alive backend. Since
    /// one is alive, at most one full cycle is needed, and the result
    /// is exactly the first alive slot in cyclic order after the
    /// cursor.
    pub fn select_alive(&mut self, backends: &Vec<Backend>) -> (r: usize)
        requires
            any_alive(backends@),
        ensures
            r < backends@.len(),
            backends@[r as int].alive,
            Some(r as int) == first_alive_from(
                backends@,
                rr_advance(old(self).cursor() as int, backends@.len() as int),
                backends@.len() as nat,
            ),
            final(self).cursor() == r,
    {
        let n = backends.len();
        let ghost s0 = rr_advance(old(self).cursor() as int, n as int);
        proof {
            assert(0 <= s0 < n);
        }
        let mut k: usize = 0;
        while k < n
            invariant
                n == backends@.len(),
                n > 0,
                k <= n,
                any_alive(backends@),
                s0 == rr_advance(old(self).cursor() as int, n as int),
                first_alive_from(backends@, rr_advance(self.cursor() as int, n as int), (n
                    - k) as nat) == first_alive_from(backends@, s0, n as nat),
            decreases n - k,
        {
            let index = ((self.next_index % n) + 1) % n;
            proof {
                assert(rr_advance(self.cursor() as int, n as int) == index as int);
            }
            self.next_index = index;
            if backends[index].alive {
                proof {
                    assert(first_alive_from(backends@, index as int, (n - k) as nat)
                        == Some(index as int));
                }
                return index;
            }
            proof {
                assert(first_alive_from(backends@, index as int, (n - k) as nat)
                    == first_alive_from(
                    backends@,
                    cyc_step(index as int, n as int),
                    (n - k - 1) as nat,
                ));
                vstd::arithmetic::div_mod::lemma_small_mod(index as nat, n as nat);
                if index + 1 == n {
                    broadcast use vstd::arithmetic::div_mod::lemma_mod_self_0;

                    assert((index + 1) % (n as int) == 0int);
                } else {
                    vstd::arithmetic::div_mod::lemma_small_mod((index + 1) as nat, n as nat);
                }
                assert(rr_advance(index as int, n as int) == cyc_step(index as int, n as int));
            }
            k = k + 1;
        }
        proof {
            lemma_first_alive_exists(backends@, s0);
            assert(false);
        }
        0
    }

    /// Return the slot under the cursor iff that backend is alive,
    /// and advance the cursor past it either way.
    pub fn pick(&mut self, backends: &Vec<Backend>) -> (r: Option<usize>)
        ensures
            backends@.len() == 0 ==> r is None && final(self).cursor() == old(self).cursor(),
            backends@.len() > 0 ==> {
                &&& final(self).cursor() == (old(self).cursor() as int % backends@.len() as int)
                    + 1
                &&& r == if backends@[old(self).cursor() as int % backends@.len() as int].alive {
                    Some(((old(self).cursor() as int % backends@.len() as int)) as usize)
                } else {
                    None::<usize>
                }
            },
    {
        let n = backends.len();
        if n == 0 {
            return None;
        }
        let index = self.next_index % n;
        self.next_index = index + 1;
        if backends[index].alive {
            Some(index)
        } else {
            None
        }
    }
}

/// The least-indexed alive backend with the smallest traffic counter
/// among the alive ones; the pool's fallback when the overall
/// minimum-traffic slot is offline.
pub fn min_alive_index(backends: &Vec<Backend>) -> (r: usize)
    requires
        any_alive(backends@),
    ensures
        r < backends@.len(),
        backends@[r as int].alive,
        forall|j: int|
            0 <= j < backends@.len() && backends@[j].alive
                ==> backends@[r as int].byte_traffic <= #[trigger] backends@[j].byte_traffic,
        forall|j: int|
            0 <= j < backends@.len() && backends@[j].alive
                && #[trigger] backends@[j].byte_traffic == backends@[r as int].byte_traffic
                ==> r <= j,
{
    let n = backends.len();
    let mut best: Option<usize> = None;
    let mut i: usize = 0;
    while i < n
        invariant
            n == backends@.len(),
            i <= n,
            best is None ==> forall|j: int| 0 <= j < i ==> !backends@[j].alive,
            best matches Some(b) ==> b < i && backends@[b as int].alive && (forall|j: int|
                0 <= j < i && backends@[j].alive
                    ==> backends@[b as int].byte_traffic <= #[trigger] backends@[j].byte_traffic)
                && (forall|j: int|
                0 <= j < i && backends@[j].alive
                    && #[trigger] backends@[j].byte_traffic == backends@[b as int].byte_traffic
                    ==> b <= j),
        decreases n - i,
    {
        if backends[i].alive {
            match best {
                None => {
                    best = Some(i);
                },
                Some(b) => {
                    if backends[i].byte_traffic() < backends[b].byte_traffic() {
                        best = Some(i);
                    }
                },
            }
        }
        i = i + 1;
    }
    match best {
        Some(b) => b,
        None => {
            proof {
                assert(false);
            }
            0
        },
    }
}

/// A uniformly random alive backend; the pool's fallback when the
/// random policy's blind draw lands on an offline slot.
pub fn random_alive_index(backends: &Vec<Backend>) -> (r: usize)
    requires
        any_alive(backends@),
    ensures
        r < backends@.len(),
        backends@[r as int].alive,
{
    let n = backends.len();
    let mut alive: Vec<usize> = Vec::new();
    let mut i: usize = 0;
    while i < n
        invariant
            n == backends@.len(),
            i <= n,
            forall|k: int|
                0 <= k < alive@.len()
                    ==> #[trigger] alive@[k] < n && backends@[alive@[k] as int].alive,
            (exists|j: int| 0 <= j < i && backends@[j].alive) ==> alive@.len() > 0,
        decreases n - i,
    {
        if backends[i].alive {
            alive.push(i);
        }
        i = i + 1;
    }
    let pick = random_below(alive.len());
    alive[pick]
}

impl LoadBalancing for RoundRobinBalancing {
    fn next_backend(&mut self, backends: &Vec<Backend>) -> Option<usize> {
        self.pick(backends)
    }
}

/// Relies on rand::random_range: the result lies inside the given
/// range; the call panics only on an empty range, which the
/// precondition rules out.
#[verifier::external_body]
fn random_below(n: usize) -> (r: usize)
    requires
        n > 0,
    ensures
        r < n,
{
    rand::random_range(0..n)
}

/// Random: draw a uniformly random slot and return it iff it is alive.
pub struct RandomBalancing;

impl RandomBalancing {
    pub fn new() -> (r: RandomBalancing) {
        RandomBalancing {}
    }

    /// Draw a random slot. Whatever the draw, the returned index is in
    /// range and alive; when every backend is alive a draw always
    /// succeeds, and when none is it never does.
    pub fn pick(&mut self, backends: &Vec<Backend>) -> (r: Option<usize>)
        ensures
            r matches Some(i) ==> i < backends@.len() && backends@[i as int].alive,
            (backends@.len() > 0 && forall|i: int|
                0 <= i < backends@.len() ==> backends@[i].alive) ==> r is Some,
            !any_alive(backends@) ==> r is None,
    {
        if backends.len() == 0 {
            return None;
        }
        let index = random_below(backends.len());
        if backends[index].alive {
            assert(any_alive(backends@));
            Some(index)
        } else {
            None
        }
    }
}

impl LoadBalancing for RandomBalancing {
    fn next_backend(&mut self, backends: &Vec<Backend>) -> Option<usize> {
        self.pick(backends)
    }
}

/// Least-traffic: pick the backend with the smallest traffic counter,
/// ties to the lowest index, and return it iff it is alive.
pub struct LeastTrafficBalancing;

impl LeastTrafficBalancing {
    pub fn new() -> (r: LeastTrafficBalancing) {
        LeastTrafficBalancing {}
    }

    /// Return the least-indexed minimum-traffic slot iff it is alive.
    pub fn pick(&mut self, backends: &Vec<Backend>) -> (r: Option<usize>)
        ensures
            backends@.len() == 0 ==> r is None,
            backends@.len() > 0 ==> r == if backends@[min_traffic_index(backends@)].alive {
                Some(min_traffic_index(backends@) as usize)
            } else {
                None::<usize>
            },
    {
        if backends.len() == 0 {
            return None;
        }
        proof {
            lemma_min_traffic_index(backends@);
        }
        let mut best: usize = 0;
        let mut i: usize = 1;
        assert(backends@.take(1).drop_last() =~= Seq::<Backend>::empty());
        while i < backends.len()
            invariant
                1 <= i <= backends@.len(),
                0 <= best < i,
                best == min_traffic_index(backends@.take(i as int)),
            decreases backends@.len() - i,
        {
            proof {
                assert(backends@.take(i + 1).drop_last() =~= backends@.take(i as int));
                assert(backends@.take(i + 1).last() == backends@[i as int]);
            }
            if backends[i].byte_traffic() < backends[best].byte_traffic() {
                best = i;
            }
            i = i + 1;
        }
        proof {
            assert(backends@.take(backends@.len() as int) =~= backends@);
        }
        if backends[best].alive {
            Some(best)
        } else {
            None
        }
    }
}

impl LoadBalancing for LeastTrafficBalancing {
    fn next_backend(&mut self, backends: &Vec<Backend>) -> Option<usize> {
        self.pick(backends)
    }
}

/// The 64-bit digest of a request method: its variant, told apart by
/// this tag, together with its route.
pub uninterp spec fn method_hash(tag: int, route: Seq<char>) -> u64;

/// The tag telling a method variant apart in the digest.
pub open spec fn method_tag(m: MethodModel) -> int {
    match m {
        MethodModel::Get(_) => 0,
        MethodModel::Post(_) => 1,
        MethodModel::Put(_) => 2,
        MethodModel::Delete(_) => 3,
        MethodModel::Connect(_) => 4,
        MethodModel::Head => 5,
    }
}

/// The route the digest covers; a method without one hashes an empty
/// route.
pub open spec fn method_hash_route(m: MethodModel) -> Seq<char> {
    match method_route(m) {
        Some(r) => r,
        None => Seq::empty(),
    }
}

/// Relies on std's DefaultHasher, a hash with fixed keys: the digest
/// of a method is a function of its variant and its route alone.
#[verifier::external_body]
fn hash_method(m: &HttpMethod) -> (r: u64)
    ensures
        r == method_hash(method_tag(m@), method_hash_route(m@)),
{
    let mut state = std::collections::hash_map::DefaultHasher::new();
    std::hash::Hash::hash(m, &mut state);
    std::hash::Hasher::finish(&state)
}

/// The slot a hashing policy picks: the digest reduced by the pool
/// size, returned iff that backend is alive.
pub open spec fn hashing_choice(hash: Option<u64>, bs: Seq<Backend>) -> Option<usize> {
    if bs.len() == 0 {
        None
    } else {
        match hash {
            None => None,
            Some(h) => {
                let i = (h as int) % (bs.len() as int);
                if bs[i].alive {
                    Some(i as usize)
                } else {
                    None
                }
            },
        }
    }
}

/// Hashing: the request's method and route fix a digest when the
/// policy is created, and every call reduces that same digest by the
/// pool size.
pub struct HashingBalancing {
    hash: Option<u64>,
}

impl HashingBalancing {
    /// Spec view of the digest fixed at creation; a response has no
    /// method and fixes none.
    pub closed spec fn request_hash(&self) -> Option<u64> {
        self.hash
    }

    /// Create a hashing policy for one request.
    pub fn new(request: &HttpMessage) -> (r: HashingBalancing)
        ensures
            r.request_hash() == match request.header@ {
                StartModel::Request(_, mm) => Some(method_hash(method_tag(mm), method_hash_route(mm))),
                StartModel::Response(_, _) => None::<u64>,
            },
    {
        match &request.header {
            HttpHeader::Method(_, m) => HashingBalancing { hash: Some(hash_method(m)) },
            HttpHeader::Status(_, _) => HashingBalancing { hash: None },
        }
    }

    /// Reduce the fixed digest by the pool size and return that slot
    /// iff it is alive.
    pub fn pick(&mut self, backends: &Vec<Backend>) -> (r: Option<usize>)
        ensures
            r == hashing_choice(old(self).request_hash(), backends@),
            final(self).request_hash() == old(self).request_hash(),
    {
        let n = backends.len();
        if n == 0 {
            return None;
        }
        match self.hash {
            None => None,
            Some(h) => {
                let index = (h % (n as u64)) as usize;
                if backends[index].alive {
                    Some(index)
                } else {
                    None
                }
            },
        }
    }
}

impl LoadBalancing for HashingBalancing {
    fn next_backend(&mut self, backends: &Vec<Backend>) -> Option<usize> {
        self.pick(backends)
    }
}

/// Hashing determinism: two hashing policies that fixed the same
/// digest make the same choice on pools of equal size whose slots
/// agree on liveness, however often they are asked.
pub proof fn lemma_hashing_deterministic(
    p1: HashingBalancing,
    p2: HashingBalancing,
    bs1: Seq<Backend>,
    bs2: Seq<Backend>,
)
    requires
        p1.request_hash() == p2.request_hash(),
        bs1.len() == bs2.len(),
        forall|i: int| 0 <= i < bs1.len() ==> bs1[i].alive == #[trigger] bs2[i].alive,
    ensures
        hashing_choice(p1.request_hash(), bs1) == hashing_choice(p2.request_hash(), bs2),
{
    if bs1.len() > 0 {
        match p1.request_hash() {
            None => {},
            Some(h) => {
                let i = (h as int) % (bs1.len() as int);
                assert(0 <= i < bs1.len());
                assert(bs1[i].alive == bs2[i].alive);
            },
        }
    }
}

/// The closed set of policies a pool can be bound to. The hashing
/// policy needs the current request and so is created per call rather
/// than bound to the pool.
pub enum Balancer {
    RoundRobin(RoundRobinBalancing),
    Random(RandomBalancing),
    LeastTraffic(LeastTrafficBalancing),
}

impl Balancer {
    /// One pool-level selection: run the bound policy, falling back to
    /// a direct scan of the alive slots where the policy's own pick
    /// lands on an offline one. Requires an alive backend; the pool's
    /// liveness guard checks that first.
    pub fn select(&mut self, backends: &Vec<Backend>) -> (r: usize)
        requires
            any_alive(backends@),
        ensures
            r < backends@.len(),
            backends@[r as int].alive,
            *old(self) is Random ==> *final(self) == *old(self),
            *old(self) is LeastTraffic ==> *final(self) == *old(self),
            *old(self) is LeastTraffic ==> (forall|j: int|
                0 <= j < backends@.len() && backends@[j].alive
                    ==> backends@[r as int].byte_traffic
                    <= #[trigger] backends@[j].byte_traffic) && (forall|j: int|
                0 <= j < backends@.len() && backends@[j].alive
                    && #[trigger] backends@[j].byte_traffic == backends@[r as int].byte_traffic
                    ==> r <= j),
            *old(self) matches Balancer::RoundRobin(rr0) ==> Some(r as int) == first_alive_from(
                backends@,
                rr_advance(rr0.cursor() as int, backends@.len() as int),
                backends@.len() as nat,
            ) && (*final(self) matches Balancer::RoundRobin(rr2) && rr2.cursor() == r),
    {
        proof {
            // a vector's length fits in usize, so in-range slots cast losslessly
            assert(backends.len() == backends@.len());
        }
        let r = match self {
            Balancer::RoundRobin(rr) => rr.select_alive(backends),
            Balancer::Random(rb) => {
                match rb.pick(backends) {
                    Some(i) => i,
                    None => random_alive_index(backends),
                }
            },
            Balancer::LeastTraffic(lt) => {
                let picked = lt.pick(backends);
                match picked {
                    Some(i) => {
                        proof {
                            lemma_min_traffic_index(backends@);
                        }
                        i
                    },
                    None => min_alive_index(backends),
                }
            },
        };
        r
    }
}

/// Policy factory: build the pool-bound policy for a configuration
/// tag. The hashing tag has no pool-bound policy and is refused.
pub fn get_balancer(balancing_algo: &BalancingAlgorithm) -> (r: Result<Balancer, BalancingError>)
    ensures
        match balancing_algo {
            BalancingAlgorithm::RoundRobin => r matches Ok(b)
                && (b matches Balancer::RoundRobin(rr) && rr.cursor() == 0),
            BalancingAlgorithm::Random => r matches Ok(b) && b is Random,
            BalancingAlgorithm::LeastTraffic => r matches Ok(b) && b is LeastTraffic,
            BalancingAlgorithm::Hashing => r == Err::<Balancer, _>(
                BalancingError::UnknownAlgorithm,
            ),
        },
{
    match balancing_algo {
        BalancingAlgorithm::RoundRobin => Ok(Balancer::RoundRobin(RoundRobinBalancing::new())),
        BalancingAlgorithm::Random => Ok(Balancer::Random(RandomBalancing::new())),
        BalancingAlgorithm::LeastTraffic => Ok(Balancer::LeastTraffic(LeastTrafficBalancing::new())),
        BalancingAlgorithm::Hashing => Err(BalancingError::UnknownAlgorithm),
    }
}

} // verus!
