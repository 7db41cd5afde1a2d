//! The worker registry: the configured backends, their health, their in-flight
//! loads, the round-robin cursor and the active selection policy.
use vstd::prelude::*;
use crate::endpoint::{Endpoint, endpoint_of};
use crate::policy::{LoadBalancerAlgorithm, algorithm_for_loads, algorithm_for_spread, load_spread};

verus! {

/// Positions, in configured order, of the healthy entries among the first `n`.
pub open spec fn healthy_prefix(health: Seq<bool>, n: int) -> Seq<int>
    decreases n,
{
    if n <= 0 {
        Seq::empty()
    } else {
        let init = healthy_prefix(health, n - 1);
        if health[n - 1] {
            init.push(n - 1)
        } else {
            init
        }
    }
}

/// Positions, in configured order, of the healthy backends.
pub open spec fn healthy_positions(health: Seq<bool>) -> Seq<int> {
    healthy_prefix(health, health.len() as int)
}

/// The healthy positions are healthy, in range, increasing and complete.
pub proof fn lemma_healthy_prefix(health: Seq<bool>, n: int)
    requires
        0 <= n <= health.len(),
    ensures
        healthy_prefix(health, n).len() <= n,
        forall|k: int|
            0 <= k < healthy_prefix(health, n).len() ==> 0 <= #[trigger] healthy_prefix(
                health,
                n,
            )[k] < n && health[healthy_prefix(health, n)[k]],
        forall|k: int, l: int|
            0 <= k < l < healthy_prefix(health, n).len() ==> healthy_prefix(health, n)[k]
                < healthy_prefix(health, n)[l],
        forall|i: int| 0 <= i < n && health[i] ==> #[trigger] healthy_prefix(health, n).contains(i),
    decreases n,
{
    if n > 0 {
        lemma_healthy_prefix(health, n - 1);
        let init = healthy_prefix(health, n - 1);
        assert forall|i: int| 0 <= i < n && health[i] implies #[trigger] healthy_prefix(
            health,
            n,
        ).contains(i) by {
            if i < n - 1 {
                assert(init.contains(i));
                let k = choose|k: int| 0 <= k < init.len() && init[k] == i;
                assert(healthy_prefix(health, n)[k] == i);
            } else {
                assert(healthy_prefix(health, n)[healthy_prefix(health, n).len() - 1] == i);
            }
        }
    }
}

/// The position in `h` of the first entry whose load is smallest.
pub open spec fn least_loaded(loads: Seq<usize>, h: Seq<int>) -> int
    decreases h.len(),
{
    if h.len() <= 1 {
        0
    } else {
        let k = least_loaded(loads, h.drop_last());
        if loads[h.last()] < loads[h[k]] {
            h.len() - 1
        } else {
            k
        }
    }
}

/// `least_loaded` is a first position of smallest load.
pub proof fn lemma_least_loaded(loads: Seq<usize>, h: Seq<int>)
    requires
        h.len() > 0,
    ensures
        0 <= least_loaded(loads, h) < h.len(),
        forall|j: int|
            0 <= j < h.len() ==> loads[h[least_loaded(loads, h)]] <= #[trigger] loads[h[j]],
        forall|j: int|
            0 <= j < least_loaded(loads, h) ==> loads[h[least_loaded(loads, h)]] < #[trigger] loads[h[j]],
    decreases h.len(),
{
    if h.len() > 1 {
        let init = h.drop_last();
        lemma_least_loaded(loads, init);
        let k = least_loaded(loads, init);
        let r = least_loaded(loads, h);
        assert forall|j: int| 0 <= j < h.len() implies loads[h[r]] <= #[trigger] loads[h[j]] by {
            if j < h.len() - 1 {
                assert(init[j] == h[j]);
                assert(loads[init[k]] <= loads[init[j]]);
            }
        }
        assert forall|j: int| 0 <= j < r implies loads[h[r]] < #[trigger] loads[h[j]] by {
            assert(init[j] == h[j]);
            if r == k {
                assert(loads[init[k]] < loads[init[j]]);
            } else {
                assert(loads[init[k]] <= loads[init[j]]);
            }
        }
    }
}

/// A load after one more assignment; it stays put at the top of its range.
pub open spec fn bump(n: usize) -> usize {
    if n < usize::MAX {
        (n + 1) as usize
    } else {
        n
    }
}

/// A load after one assignment has ended; it never goes below zero.
pub open spec fn drop_one(n: usize) -> usize {
    if n > 0 {
        (n - 1) as usize
    } else {
        0
    }
}

/// `2^64`: a 64-bit draw `d` stands for the fraction `d / 2^64` in `[0, 1)`.
pub const DRAW_SCALE: u128 = 0x1_0000_0000_0000_0000;

/// The index `floor(U * n)` for the fraction `U = draw / 2^64`.
pub open spec fn random_position(draw: int, n: nat) -> int {
    (draw * n) / (DRAW_SCALE as int)
}

/// The registry as a mathematical value. `addresses` is the configured list as
/// given, repeats included; `endpoints` holds each of its endpoints once, in the
/// order of first occurrence, and keys health and loads: entry `i` of `health`
/// and of `loads` belongs to the backend `endpoints[i]`.
pub struct WorkersView {
    pub addresses: Seq<Endpoint>,
    pub endpoints: Seq<Endpoint>,
    pub health: Seq<bool>,
    pub loads: Seq<usize>,
    pub cursor: usize,
    pub algorithm: LoadBalancerAlgorithm,
}

impl WorkersView {
    pub open spec fn wf(self) -> bool {
        &&& self.endpoints == distinct_in_order(self.addresses)
        &&& 0 < self.endpoints.len() <= usize::MAX
        &&& self.health.len() == self.endpoints.len()
        &&& self.loads.len() == self.endpoints.len()
        &&& self.endpoints.no_duplicates()
        &&& self.cursor < self.endpoints.len()
    }

    /// Positions in `endpoints` of the healthy backends, in configured order.
    pub open spec fn healthy(self) -> Seq<int> {
        healthy_positions(self.health)
    }

    pub open spec fn registered(self, e: Endpoint) -> bool {
        self.endpoints.contains(e)
    }

    /// The position of a registered endpoint.
    pub open spec fn slot(self, e: Endpoint) -> int {
        choose|i: int| 0 <= i < self.endpoints.len() && self.endpoints[i] == e
    }

    pub open spec fn load_of(self, e: Endpoint) -> usize {
        self.loads[self.slot(e)]
    }

    pub open spec fn is_healthy(self, e: Endpoint) -> bool {
        self.registered(e) && self.health[self.slot(e)]
    }

    /// The health of each backend as a map.
    pub open spec fn health_map(self) -> Map<Endpoint, bool> {
        Map::new(|e: Endpoint| self.registered(e), |e: Endpoint| self.health[self.slot(e)])
    }

    /// The load of each backend as a map.
    pub open spec fn load_map(self) -> Map<Endpoint, usize> {
        Map::new(|e: Endpoint| self.registered(e), |e: Endpoint| self.loads[self.slot(e)])
    }

    /// The position in `healthy()` that `policy` picks, given `draw` for the random policy.
    pub open spec fn choice(self, policy: LoadBalancerAlgorithm, draw: int) -> int {
        let h = self.healthy();
        match policy {
            LoadBalancerAlgorithm::RoundRobin => if self.cursor < h.len() {
                self.cursor as int
            } else {
                0
            },
            LoadBalancerAlgorithm::Random => if 0 <= random_position(draw, h.len()) < h.len() {
                random_position(draw, h.len())
            } else {
                0
            },
            LoadBalancerAlgorithm::LeastConnections => least_loaded(self.loads, h),
        }
    }

    /// Selection under a given policy: `None` when no backend is healthy, else the
    /// picked backend, whose load goes up by one.
    pub open spec fn select(self, policy: LoadBalancerAlgorithm, draw: int) -> (WorkersView, Option<Endpoint>) {
        let h = self.healthy();
        if h.len() == 0 {
            (self, None)
        } else {
            let k = self.choice(policy, draw);
            let i = h[k];
            let cursor = if policy is RoundRobin {
                ((k + 1) % (h.len() as int)) as usize
            } else {
                self.cursor
            };
            (
                WorkersView {
                    addresses: self.addresses,
                    endpoints: self.endpoints,
                    health: self.health,
                    loads: self.loads.update(i, bump(self.loads[i])),
                    cursor: cursor,
                    algorithm: self.algorithm,
                },
                Some(self.endpoints[i]),
            )
        }
    }

    /// The registry with the policy that its current loads call for.
    pub open spec fn adapted(self) -> WorkersView {
        WorkersView { algorithm: algorithm_for_spread(load_spread(self.loads)), ..self }
    }

    /// One `select()`: adapt the policy, then select under it.
    pub open spec fn next(self, draw: int) -> (WorkersView, Option<Endpoint>) {
        let w = self.adapted();
        w.select(w.algorithm, draw)
    }

    /// One `release(e)`: the load of `e` goes down by one unless it is zero or
    /// `e` is not registered.
    pub open spec fn release(self, e: Endpoint) -> WorkersView {
        if self.registered(e) {
            WorkersView {
                loads: self.loads.update(self.slot(e), drop_one(self.loads[self.slot(e)])),
                ..self
            }
        } else {
            self
        }
    }

    /// One more assignment to `e`, if it is registered.
    pub open spec fn claim(self, e: Endpoint) -> WorkersView {
        if self.registered(e) {
            WorkersView {
                loads: self.loads.update(self.slot(e), bump(self.loads[self.slot(e)])),
                ..self
            }
        } else {
            self
        }
    }

    /// One `set_health(h)`: `h` replaces the health of every backend when it has
    /// one entry per backend.
    pub open spec fn with_health(self, h: Seq<bool>) -> WorkersView {
        if h.len() == self.endpoints.len() {
            WorkersView { health: h, ..self }
        } else {
            self
        }
    }
}

/// The endpoints of `s` without repeats, each where it first occurs.
pub open spec fn distinct_in_order(s: Seq<Endpoint>) -> Seq<Endpoint>
    decreases s.len(),
{
    if s.len() == 0 {
        Seq::empty()
    } else {
        let d = distinct_in_order(s.drop_last());
        if d.contains(s.last()) {
            d
        } else {
            d.push(s.last())
        }
    }
}

pub proof fn lemma_distinct_in_order(s: Seq<Endpoint>)
    ensures
        distinct_in_order(s).no_duplicates(),
        forall|e: Endpoint| #[trigger] distinct_in_order(s).contains(e) <==> s.contains(e),
        distinct_in_order(s).len() <= s.len(),
        s.len() > 0 ==> distinct_in_order(s).len() > 0,
    decreases s.len(),
{
    if s.len() > 0 {
        let init = s.drop_last();
        lemma_distinct_in_order(init);
        let d = distinct_in_order(init);
        let x = s.last();
        assert forall|e: Endpoint| #[trigger] distinct_in_order(s).contains(e) <==> s.contains(e) by {
            if s.contains(e) {
                if e == x {
                    if !d.contains(x) {
                        assert(d.push(x)[d.len() as int] == x);
                    }
                } else {
                    let i = choose|i: int| 0 <= i < s.len() && s[i] == e;
                    assert(init[i] == e);
                    assert(init.contains(e));
                    assert(d.contains(e));
                    let k = choose|k: int| 0 <= k < d.len() && d[k] == e;
                    assert(d.push(x)[k] == e);
                }
            }
            if distinct_in_order(s).contains(e) {
                if e == x {
                    assert(s[s.len() - 1] == e);
                } else {
                    let k = choose|k: int|
                        0 <= k < distinct_in_order(s).len() && distinct_in_order(s)[k] == e;
                    assert(d[k] == e);
                    assert(d.contains(e));
                    let i = choose|i: int| 0 <= i < init.len() && init[i] == e;
                    assert(s[i] == e);
                }
            }
        }
    }
}

/// The registry that `new` builds from a non-empty list of endpoints.
pub open spec fn initial_view(configured: Seq<Endpoint>) -> WorkersView {
    let addrs = distinct_in_order(configured);
    WorkersView {
        addresses: configured,
        endpoints: addrs,
        health: Seq::new(addrs.len(), |i: int| true),
        loads: Seq::new(addrs.len(), |i: int| 0usize),
        cursor: 0,
        algorithm: LoadBalancerAlgorithm::Random,
    }
}

/// Why a registry could not be built.
#[derive(Clone, Copy, Debug, PartialEq, Eq, Structural)]
pub enum WorkersError {
    /// The list of backends is empty.
    NoWorkers,
    /// The entry at `index` is not of the form `a.b.c.d:port`.
    InvalidAddress { index: usize },
}

/// Every entry of `raw` denotes an endpoint.
pub open spec fn all_valid(raw: Seq<String>) -> bool {
    forall|i: int| 0 <= i < raw.len() ==> (#[trigger] endpoint_of(raw[i]@)) is Some
}

/// The endpoints that the entries of `raw` denote.
pub open spec fn endpoints_of(raw: Seq<String>) -> Seq<Endpoint> {
    Seq::new(
        raw.len(),
        |i: int|
            match endpoint_of(raw[i]@) {
                Some(e) => e,
                None => Endpoint { a: 0, b: 0, c: 0, d: 0, port: 0 },
            },
    )
}

pub open spec fn as_ints(s: Seq<usize>) -> Seq<int> {
    s.map_values(|x: usize| x as int)
}

#[derive(Debug)]
pub struct Workers {
    worker_addrs: Vec<Endpoint>,
    endpoints: Vec<Endpoint>,
    workers_health: Vec<bool>,
    current_worker: usize,
    current_worker_loads: Vec<usize>,
    algorithm: LoadBalancerAlgorithm,
}

impl View for Workers {
    type V = WorkersView;

    closed spec fn view(&self) -> WorkersView {
        WorkersView {
            addresses: self.worker_addrs@,
            endpoints: self.endpoints@,
            health: self.workers_health@,
            loads: self.current_worker_loads@,
            cursor: self.current_worker,
            algorithm: self.algorithm,
        }
    }
}

/// Relies on rand's `random::<u64>()`: a uniformly drawn 64-bit value, of
/// which nothing more is known.
#[verifier::external_body]
pub(crate) fn random_draw() -> u64 {
    rand::random::<u64>()
}

/// The position of `e` in `v`, if it is there.
fn position_of(v: &Vec<Endpoint>, e: &Endpoint) -> (r: Option<usize>)
    ensures
        match r {
            Some(i) => i < v@.len() && v@[i as int] == *e && forall|j: int|
                0 <= j < i ==> v@[j] != *e,
            None => !v@.contains(*e),
        },
{
    let mut i: usize = 0;
    while i < v.len()
        invariant
            i <= v@.len(),
            forall|j: int| 0 <= j < i ==> v@[j] != *e,
        decreases v.len() - i,
    {
        if v[i] == *e {
            return Some(i);
        }
        i = i + 1;
    }
    None
}

impl Workers {
    #[verifier::type_invariant]
    spec fn inv(self) -> bool {
        self@.wf()
    }

    /// Positions of the healthy backends, in configured order.
    fn healthy_workers(&self) -> (h: Vec<usize>)
        ensures
            as_ints(h@) == self@.healthy(),
            forall|k: int| 0 <= k < h@.len() ==> h@[k] < self@.endpoints.len(),
    {
        proof {
            use_type_invariant(self);
        }
        let n = self.workers_health.len();
        let mut h: Vec<usize> = Vec::new();
        let mut i: usize = 0;
        while i < n
            invariant
                n == self.workers_health@.len(),
                n == self@.endpoints.len(),
                i <= n,
                as_ints(h@) == healthy_prefix(self@.health, i as int),
                forall|k: int| 0 <= k < h@.len() ==> h@[k] < i,
            decreases n - i,
        {
            if self.workers_health[i] {
                h.push(i);
            }
            assert(as_ints(h@) =~= healthy_prefix(self@.health, i + 1));
            i = i + 1;
        }
        h
    }

    /// The position in `h` of the first healthy backend with the smallest load.
    fn least_loaded_position(&self, h: &Vec<usize>) -> (k: usize)
        requires
            h@.len() > 0,
            forall|j: int| 0 <= j < h@.len() ==> h@[j] < self@.loads.len(),
        ensures
            k == least_loaded(self@.loads, as_ints(h@)),
    {
        let ghost hs = as_ints(h@);
        let mut best: usize = 0;
        let mut k: usize = 1;
        assert(hs.subrange(0, 1).len() == 1);
        while k < h.len()
            invariant
                1 <= k <= h@.len(),
                hs == as_ints(h@),
                forall|j: int| 0 <= j < h@.len() ==> h@[j] < self@.loads.len(),
                best == least_loaded(self@.loads, hs.subrange(0, k as int)),
                best < k,
            decreases h.len() - k,
        {
            assert(hs.subrange(0, k + 1).drop_last() =~= hs.subrange(0, k as int));
            if self.current_worker_loads[h[k]] < self.current_worker_loads[h[best]] {
                best = k;
            }
            k = k + 1;
        }
        assert(hs.subrange(0, k as int) =~= hs);
        best
    }

    /// Sets the active policy from the spread of the current loads.
    pub fn optimal_algorithm(&mut self)
        ensures
            final(self)@ == old(self)@.adapted(),
    {
        proof {
            use_type_invariant(&*self);
        }
        let candidate = algorithm_for_loads(&self.current_worker_loads);
        self.algorithm = candidate;
    }

    /// Picks a healthy backend under `policy` and counts one more assignment to
    /// it; the random policy takes the index `floor(draw / 2^64 * n)` among the
    /// `n` healthy backends.
    pub fn get_next_using(&mut self, policy: LoadBalancerAlgorithm, draw: u64) -> (r: Option<Endpoint>)
        ensures
            (final(self)@, r) == old(self)@.select(policy, draw as int),
    {
        proof {
            use_type_invariant(&*self);
        }
        let h = self.healthy_workers();
        if h.len() == 0 {
            return None;
        }
        proof {
            lemma_healthy_prefix(self@.health, self@.health.len() as int);
        }
        let k: usize = match policy {
            LoadBalancerAlgorithm::RoundRobin => {
                if self.current_worker < h.len() {
                    self.current_worker
                } else {
                    0
                }
            },
            LoadBalancerAlgorithm::Random => {
                let n = h.len();
                assert((draw as u128) * (n as u128) <= 0xFFFF_FFFF_FFFF_FFFFu128 * 0xFFFF_FFFF_FFFF_FFFFu128)
                    by (nonlinear_arith)
                    requires
                        draw <= 0xFFFF_FFFF_FFFF_FFFFu64,
                        n <= 0xFFFF_FFFF_FFFF_FFFFu64,
                ;
                let pos = (draw as u128) * (n as u128) / DRAW_SCALE;
                if pos < n as u128 {
                    pos as usize
                } else {
                    0
                }
            },
            LoadBalancerAlgorithm::LeastConnections => {
                proof {
                    lemma_least_loaded(self@.loads, as_ints(h@));
                }
                self.least_loaded_position(&h)
            },
        };
        assert(k == old(self)@.choice(policy, draw as int));
        assert(as_ints(h@)[k as int] == h@[k as int] as int);
        let i = h[k];
        if policy == LoadBalancerAlgorithm::RoundRobin {
            self.current_worker = (k + 1) % h.len();
        }
        let worker = self.endpoints[i];
        let load = self.current_worker_loads[i];
        if load < usize::MAX {
            let mut loads = self.current_worker_loads.clone();
            assert(loads@ =~= self.current_worker_loads@);
            loads.set(i, load + 1);
            self.current_worker_loads = loads;
        }
        assert(self.current_worker_loads@ =~= old(self)@.loads.update(i as int, bump(load)));
        Some(worker)
    }

    /// The central operation: adapts the policy to the current loads, picks a
    /// healthy backend under it and counts one more assignment to it; `None`
    /// when no backend is healthy. The random policy takes the index
    /// `floor(draw / 2^64 * n)` among the `n` healthy backends.
    pub fn get_next_with(&mut self, draw: u64) -> (r: Option<Endpoint>)
        ensures
            (final(self)@, r) == old(self)@.next(draw as int),
    {
        self.optimal_algorithm();
        let policy = self.algorithm;
        self.get_next_using(policy, draw)
    }

    /// Like `get_next_with`, with a uniformly random draw.
    pub fn get_next(&mut self) -> (r: Option<Endpoint>)
        ensures
            exists|d: u64| (final(self)@, r) == #[trigger] old(self)@.next(d as int),
    {
        let draw = random_draw();
        let r = self.get_next_with(draw);
        assert((final(self)@, r) == old(self)@.next(draw as int));
        r
    }

    /// Builds the registry from a non-empty list of endpoints: the list is kept
    /// as given; health and load are kept once per endpoint, in the order of
    /// first occurrence, all healthy with no load; cursor 0, random policy.
    /// `None` for an empty list.
    pub fn from_endpoints(endpoints: &Vec<Endpoint>) -> (r: Option<Workers>)
        ensures
            match r {
                Some(w) => endpoints@.len() > 0 && w@ == initial_view(endpoints@),
                None => endpoints@.len() == 0,
            },
    {
        if endpoints.len() == 0 {
            return None;
        }
        let mut configured: Vec<Endpoint> = Vec::new();
        let mut addrs: Vec<Endpoint> = Vec::new();
        let mut health: Vec<bool> = Vec::new();
        let mut loads: Vec<usize> = Vec::new();
        let mut i: usize = 0;
        while i < endpoints.len()
            invariant
                i <= endpoints@.len(),
                configured@ == endpoints@.subrange(0, i as int),
                addrs@ == distinct_in_order(endpoints@.subrange(0, i as int)),
                health@ == Seq::new(addrs@.len(), |j: int| true),
                loads@ == Seq::new(addrs@.len(), |j: int| 0usize),
            decreases endpoints.len() - i,
        {
            let e = endpoints[i];
            assert(endpoints@.subrange(0, i + 1).drop_last() =~= endpoints@.subrange(0, i as int));
            configured.push(e);
            match position_of(&addrs, &e) {
                Some(_) => {},
                None => {
                    addrs.push(e);
                    health.push(true);
                    loads.push(0);
                },
            }
            assert(health@ =~= Seq::new(addrs@.len(), |j: int| true));
            assert(loads@ =~= Seq::new(addrs@.len(), |j: int| 0usize));
            i = i + 1;
        }
        assert(endpoints@.subrange(0, i as int) =~= endpoints@);
        proof {
            lemma_distinct_in_order(endpoints@);
        }
        Some(
            Workers {
                worker_addrs: configured,
                endpoints: addrs,
                workers_health: health,
                current_worker: 0,
                current_worker_loads: loads,
                algorithm: LoadBalancerAlgorithm::Random,
            },
        )
    }

    /// Builds the registry from the configured backend addresses. Fails with
    /// `NoWorkers` on an empty list and with `InvalidAddress` at the first entry
    /// that is not `a.b.c.d:port`; otherwise the parsed list is kept as given,
    /// each endpoint in it healthy with no load, cursor 0 and the random policy.
    pub fn new(raw_workers: Vec<String>) -> (r: Result<Workers, WorkersError>)
        ensures
            match r {
                Ok(w) => raw_workers@.len() > 0 && all_valid(raw_workers@) && w@ == initial_view(
                    endpoints_of(raw_workers@),
                ),
                Err(WorkersError::NoWorkers) => raw_workers@.len() == 0,
                Err(WorkersError::InvalidAddress { index }) => {
                    &&& index < raw_workers@.len()
                    &&& endpoint_of(raw_workers@[index as int]@) is None
                    &&& forall|j: int|
                        0 <= j < index ==> (#[trigger] endpoint_of(raw_workers@[j]@)) is Some
                },
            },
    {
        if raw_workers.len() == 0 {
            return Err(WorkersError::NoWorkers);
        }
        let mut endpoints: Vec<Endpoint> = Vec::new();
        let mut i: usize = 0;
        while i < raw_workers.len()
            invariant
                i <= raw_workers@.len(),
                endpoints@ == endpoints_of(raw_workers@).subrange(0, i as int),
                forall|j: int| 0 <= j < i ==> (#[trigger] endpoint_of(raw_workers@[j]@)) is Some,
            decreases raw_workers.len() - i,
        {
            match Endpoint::parse(raw_workers[i].as_str()) {
                Ok(e) => {
                    endpoints.push(e);
                },
                Err(_) => {
                    return Err(WorkersError::InvalidAddress { index: i });
                },
            }
            assert(endpoints@ =~= endpoints_of(raw_workers@).subrange(0, i + 1));
            i = i + 1;
        }
        assert(endpoints@ =~= endpoints_of(raw_workers@));
        match Workers::from_endpoints(&endpoints) {
            Some(w) => Ok(w),
            None => Err(WorkersError::NoWorkers),
        }
    }

    /// Ends one assignment to `addr`: its load goes down by one unless it is
    /// already zero. Returns whether `addr` is registered; nothing changes when
    /// it is not.
    pub fn decrease_worker_count(&mut self, addr: Endpoint) -> (known: bool)
        ensures
            final(self)@ == old(self)@.release(addr),
            known == old(self)@.registered(addr),
    {
        proof {
            use_type_invariant(&*self);
        }
        match position_of(&self.endpoints, &addr) {
            Some(i) => {
                proof {
                    let j = self@.slot(addr);
                    assert(self@.endpoints[i as int] == addr);
                    assert(self@.registered(addr));
                    assert(self@.endpoints[j] == addr);
                    assert(j == i);
                }
                let load = self.current_worker_loads[i];
                if load > 0 {
                    let mut loads = self.current_worker_loads.clone();
                    assert(loads@ =~= self.current_worker_loads@);
                    loads.set(i, load - 1);
                    self.current_worker_loads = loads;
                }
                assert(self@.loads =~= old(self)@.loads.update(i as int, drop_one(load)));
                true
            },
            None => false,
        }
    }

    /// Counts one more assignment to `addr`, if it is registered.
    pub fn increase_worker_count(&mut self, addr: &Endpoint)
        ensures
            final(self)@ == old(self)@.claim(*addr),
    {
        proof {
            use_type_invariant(&*self);
        }
        match position_of(&self.endpoints, addr) {
            Some(i) => {
                proof {
                    let j = self@.slot(*addr);
                    assert(self@.endpoints[i as int] == *addr);
                    assert(self@.registered(*addr));
                    assert(self@.endpoints[j] == *addr);
                    assert(j == i);
                }
                let load = self.current_worker_loads[i];
                if load < usize::MAX {
                    let mut loads = self.current_worker_loads.clone();
                    assert(loads@ =~= self.current_worker_loads@);
                    loads.set(i, load + 1);
                    self.current_worker_loads = loads;
                }
                assert(self@.loads =~= old(self)@.loads.update(i as int, bump(load)));
            },
            None => {},
        }
    }

    /// Replaces the health of every backend with a probe result that holds one
    /// entry per backend, in the order of `endpoints`. Returns whether the result had
    /// that shape; nothing changes when it did not.
    pub fn update_healthy_workers(&mut self, updated: Vec<bool>) -> (accepted: bool)
        ensures
            final(self)@ == old(self)@.with_health(updated@),
            accepted == (updated@.len() == old(self)@.endpoints.len()),
    {
        proof {
            use_type_invariant(&*self);
        }
        if updated.len() == self.endpoints.len() {
            self.workers_health = updated;
            true
        } else {
            false
        }
    }

    /// The configured backends, in order, repeats included.
    pub fn worker_addrs(&self) -> (r: &Vec<Endpoint>)
        ensures
            r@ == self@.addresses,
    {
        &self.worker_addrs
    }

    /// Each configured backend once, in the order of first occurrence: the
    /// backends that `workers_health` and `current_worker_loads` describe.
    pub fn endpoints(&self) -> (r: &Vec<Endpoint>)
        ensures
            r@ == self@.endpoints,
    {
        &self.endpoints
    }

    /// The health of each backend, in the order of `endpoints`.
    pub fn workers_health(&self) -> (r: &Vec<bool>)
        ensures
            r@ == self@.health,
    {
        &self.workers_health
    }

    /// The in-flight load of each backend, in the order of `endpoints`.
    pub fn current_worker_loads(&self) -> (r: &Vec<usize>)
        ensures
            r@ == self@.loads,
    {
        &self.current_worker_loads
    }

    /// The round-robin cursor.
    pub fn current_worker(&self) -> (r: usize)
        ensures
            r == self@.cursor,
    {
        self.current_worker
    }

    /// The active selection policy.
    pub fn algorithm(&self) -> (r: LoadBalancerAlgorithm)
        ensures
            r == self@.algorithm,
    {
        self.algorithm
    }
}

} // verus!
