//! Properties of the registry over single steps and over whole sequences of
//! operations, stated on `WorkersView` and proved.
use vstd::prelude::*;
use vstd::arithmetic::div_mod::{lemma_fundamental_div_mod, lemma_fundamental_div_mod_converse, lemma_mod_pos_bound};
use crate::endpoint::Endpoint;
use crate::policy::{LoadBalancerAlgorithm, max_load, min_load, load_spread};
use crate::workers::{
    WorkersView, bump, drop_one, lemma_distinct_in_order, healthy_prefix, healthy_positions, least_loaded,
    lemma_healthy_prefix, lemma_least_loaded,
};

verus! {

/// One registry operation: `select()` with the random draw it uses,
/// `release(endpoint)`, or `set_health(health)`.
pub enum Op {
    Select { draw: int },
    Release { endpoint: Endpoint },
    SetHealth { health: Seq<bool> },
}

/// The registry after `op`, and what a selection returned.
pub open spec fn apply(w: WorkersView, op: Op) -> (WorkersView, Option<Endpoint>) {
    match op {
        Op::Select { draw } => w.next(draw),
        Op::Release { endpoint } => (w.release(endpoint), None),
        Op::SetHealth { health } => (w.with_health(health), None),
    }
}

/// The registry after the operations `ops`, in order.
pub open spec fn run_ops(w: WorkersView, ops: Seq<Op>) -> WorkersView
    decreases ops.len(),
{
    if ops.len() == 0 {
        w
    } else {
        apply(run_ops(w, ops.drop_last()), ops.last()).0
    }
}

/// What the `j`-th operation of `ops` returned.
pub open spec fn outcome(w: WorkersView, ops: Seq<Op>, j: int) -> Option<Endpoint> {
    apply(run_ops(w, ops.subrange(0, j)), ops[j]).1
}

/// How many selections among `ops` returned `e`.
pub open spec fn selections(w: WorkersView, ops: Seq<Op>, e: Endpoint) -> nat
    decreases ops.len(),
{
    if ops.len() == 0 {
        0
    } else {
        selections(w, ops.drop_last(), e) + if apply(run_ops(w, ops.drop_last()), ops.last()).1 == Some(
            e,
        ) {
            1nat
        } else {
            0nat
        }
    }
}

/// How many of `ops` are `release(e)`.
pub open spec fn releases(ops: Seq<Op>, e: Endpoint) -> nat
    decreases ops.len(),
{
    if ops.len() == 0 {
        0
    } else {
        releases(ops.drop_last(), e) + if ops.last() == (Op::Release { endpoint: e }) {
            1nat
        } else {
            0nat
        }
    }
}

/// The registered endpoint at position `i` has slot `i`.
pub proof fn lemma_slot(w: WorkersView, i: int)
    requires
        w.wf(),
        0 <= i < w.endpoints.len(),
    ensures
        w.registered(w.endpoints[i]),
        w.slot(w.endpoints[i]) == i,
{
    let e = w.endpoints[i];
    assert(w.endpoints[i] == e);
    assert(w.registered(e));
    let j = w.slot(e);
    assert(w.endpoints[j] == e);
}

/// A selection under any policy: the registry stays well formed, only the
/// picked backend's load moves (by one, unless at the top of its range), and
/// the pick is a healthy backend; no pick exactly when none is healthy.
pub proof fn lemma_select_effect(w: WorkersView, policy: LoadBalancerAlgorithm, draw: int)
    requires
        w.wf(),
    ensures
        ({
            let (w2, r) = w.select(policy, draw);
            &&& w2.wf()
            &&& w2.endpoints == w.endpoints
            &&& w2.health == w.health
            &&& w2.algorithm == w.algorithm
            &&& (r is None <==> w.healthy().len() == 0)
            &&& (r is None ==> w2 == w)
            &&& (r matches Some(e) ==> w.registered(e) && w.is_healthy(e) && w2.loads == w.loads.update(
                w.slot(e),
                bump(w.loads[w.slot(e)]),
            ))
        }),
{
    let h = w.healthy();
    lemma_healthy_prefix(w.health, w.health.len() as int);
    if h.len() > 0 {
        let k = w.choice(policy, draw);
        if policy is LeastConnections {
            lemma_least_loaded(w.loads, h);
        }
        assert(0 <= k < h.len());
        let i = h[k];
        assert(0 <= i < w.endpoints.len());
        lemma_slot(w, i);
    }
}

/// Adapting the policy changes nothing but the policy.
pub proof fn lemma_next_effect(w: WorkersView, draw: int)
    requires
        w.wf(),
    ensures
        ({
            let (w2, r) = w.next(draw);
            &&& w2.wf()
            &&& w2.endpoints == w.endpoints
            &&& w2.health == w.health
            &&& (r is None <==> w.healthy().len() == 0)
            &&& (r is None ==> w2.loads == w.loads)
            &&& (r matches Some(e) ==> w.registered(e) && w.is_healthy(e) && w2.loads == w.loads.update(
                w.slot(e),
                bump(w.loads[w.slot(e)]),
            ))
        }),
{
    let a = w.adapted();
    lemma_select_effect(a, a.algorithm, draw);
}

/// One operation keeps the registry well formed and its addresses fixed.
pub proof fn lemma_apply_keeps_shape(w: WorkersView, op: Op)
    requires
        w.wf(),
    ensures
        apply(w, op).0.wf(),
        apply(w, op).0.endpoints == w.endpoints,
        apply(w, op).0.addresses == w.addresses,
{
    match op {
        Op::Select { draw } => lemma_next_effect(w, draw),
        Op::Release { endpoint } => {},
        Op::SetHealth { health } => {},
    }
}

/// Registry consistency: after any sequence of selections, releases and health
/// updates, the registry is well formed, the configured addresses are unchanged,
/// and the keys of the health map and of the load map are exactly the endpoints
/// that those addresses name.
pub proof fn theorem_registry_keys(w: WorkersView, ops: Seq<Op>)
    requires
        w.wf(),
    ensures
        run_ops(w, ops).wf(),
        run_ops(w, ops).endpoints == w.endpoints,
        run_ops(w, ops).addresses == w.addresses,
        run_ops(w, ops).health_map().dom() == w.addresses.to_set(),
        run_ops(w, ops).load_map().dom() == w.addresses.to_set(),
    decreases ops.len(),
{
    if ops.len() > 0 {
        theorem_registry_keys(w, ops.drop_last());
        lemma_apply_keeps_shape(run_ops(w, ops.drop_last()), ops.last());
    }
    lemma_distinct_in_order(w.addresses);
    assert(run_ops(w, ops).health_map().dom() =~= w.addresses.to_set());
    assert(run_ops(w, ops).load_map().dom() =~= w.addresses.to_set());
}

/// Releasing a backend whose load is zero changes nothing.
pub proof fn theorem_release_at_zero(w: WorkersView, e: Endpoint)
    requires
        w.wf(),
        w.registered(e),
        w.load_of(e) == 0,
    ensures
        w.release(e) == w,
{
    assert(w.loads.update(w.slot(e), drop_one(w.loads[w.slot(e)])) =~= w.loads);
}

/// Without health updates, the health of every backend stays as it was.
pub proof fn lemma_health_fixed(w: WorkersView, ops: Seq<Op>)
    requires
        w.wf(),
        forall|j: int| 0 <= j < ops.len() ==> !(#[trigger] ops[j] is SetHealth),
    ensures
        run_ops(w, ops).health == w.health,
    decreases ops.len(),
{
    if ops.len() > 0 {
        let init = ops.drop_last();
        assert forall|j: int| 0 <= j < init.len() implies !(#[trigger] init[j] is SetHealth) by {
            assert(init[j] == ops[j]);
        }
        lemma_health_fixed(w, init);
        theorem_registry_keys(w, init);
        let prev = run_ops(w, init);
        assert(!(ops[ops.len() - 1] is SetHealth));
        match ops.last() {
            Op::Select { draw } => lemma_next_effect(prev, draw),
            _ => {},
        }
    }
}

/// Healthy-only dispatch: while the health map is not replaced, no selection
/// returns a backend that is not healthy.
pub proof fn theorem_healthy_only(w: WorkersView, ops: Seq<Op>)
    requires
        w.wf(),
        forall|j: int| 0 <= j < ops.len() ==> !(#[trigger] ops[j] is SetHealth),
    ensures
        forall|j: int|
            0 <= j < ops.len() ==> (#[trigger] outcome(w, ops, j) matches Some(e) ==> w.is_healthy(e)),
{
    assert forall|j: int| 0 <= j < ops.len() implies (#[trigger] outcome(w, ops, j) matches Some(e)
        ==> w.is_healthy(e)) by {
        let pre = ops.subrange(0, j);
        assert forall|i: int| 0 <= i < pre.len() implies !(#[trigger] pre[i] is SetHealth) by {
            assert(pre[i] == ops[i]);
        }
        lemma_health_fixed(w, pre);
        theorem_registry_keys(w, pre);
        let prev = run_ops(w, pre);
        match ops[j] {
            Op::Select { draw } => lemma_next_effect(prev, draw),
            _ => {},
        }
    }
}

/// Least connections picks a healthy backend whose load is the smallest among
/// the healthy ones, and no healthy backend configured before it has that load.
pub proof fn theorem_least_connections(w: WorkersView, draw: int)
    requires
        w.wf(),
        w.healthy().len() > 0,
    ensures
        w.select(LoadBalancerAlgorithm::LeastConnections, draw).1 matches Some(e) && w.is_healthy(e)
            && (forall|x: Endpoint| #[trigger] w.is_healthy(x) ==> w.load_of(e) <= w.load_of(x))
            && (forall|i: int|
            0 <= i < w.slot(e) && #[trigger] w.health[i] ==> w.loads[i] > w.load_of(e)),
{
    let h = w.healthy();
    lemma_healthy_prefix(w.health, w.health.len() as int);
    lemma_least_loaded(w.loads, h);
    lemma_select_effect(w, LoadBalancerAlgorithm::LeastConnections, draw);
    let k = least_loaded(w.loads, h);
    let i = h[k];
    lemma_slot(w, i);
    let e = w.endpoints[i];
    assert forall|x: Endpoint| #[trigger] w.is_healthy(x) implies w.load_of(e) <= w.load_of(x) by {
        let s = w.slot(x);
        assert(w.endpoints[s] == x);
        assert(h.contains(s));
        let j = choose|j: int| 0 <= j < h.len() && h[j] == s;
        assert(w.loads[h[k]] <= w.loads[h[j]]);
    }
    assert forall|p: int| 0 <= p < w.slot(e) && #[trigger] w.health[p] implies w.loads[p]
        > w.load_of(e) by {
        assert(h.contains(p));
        let j = choose|j: int| 0 <= j < h.len() && h[j] == p;
        if j >= k {
            if j > k {
                assert(h[k] < h[j]);
            }
            assert(false);
        }
        assert(w.loads[h[k]] < w.loads[h[j]]);
    }
}

/// A registered endpoint sits at its slot.
pub proof fn lemma_slot_of(w: WorkersView, e: Endpoint)
    requires
        w.registered(e),
    ensures
        0 <= w.slot(e) < w.endpoints.len(),
        w.endpoints[w.slot(e)] == e,
{
}

/// Load accounting: as long as no release comes before the selection that it
/// answers, the load of each registered backend is at most its starting load,
/// plus the selections that returned it, minus its releases.
pub proof fn lemma_load_accounting(w: WorkersView, ops: Seq<Op>)
    requires
        w.wf(),
        forall|e: Endpoint, j: int|
            w.registered(e) && 0 <= j <= ops.len() ==> #[trigger] releases(ops.subrange(0, j), e)
                <= w.load_of(e) + selections(w, ops.subrange(0, j), e),
    ensures
        forall|e: Endpoint|
            w.registered(e) ==> #[trigger] run_ops(w, ops).load_of(e) <= w.load_of(e) + selections(
                w,
                ops,
                e,
            ) - releases(ops, e),
    decreases ops.len(),
{
    if ops.len() > 0 {
        let init = ops.drop_last();
        assert forall|e: Endpoint, j: int|
            w.registered(e) && 0 <= j <= init.len() implies #[trigger] releases(
            init.subrange(0, j),
            e,
        ) <= w.load_of(e) + selections(w, init.subrange(0, j), e) by {
            assert(init.subrange(0, j) =~= ops.subrange(0, j));
            assert(releases(ops.subrange(0, j), e) <= w.load_of(e) + selections(
                w,
                ops.subrange(0, j),
                e,
            ));
        }
        lemma_load_accounting(w, init);
        theorem_registry_keys(w, init);
        let prev = run_ops(w, init);
        assert(ops.subrange(0, ops.len() as int) =~= ops);
        assert forall|e: Endpoint| w.registered(e) implies #[trigger] run_ops(w, ops).load_of(e)
            <= w.load_of(e) + selections(w, ops, e) - releases(ops, e) by {
            lemma_slot_of(w, e);
            assert(releases(ops.subrange(0, ops.len() as int), e) <= w.load_of(e) + selections(
                w,
                ops.subrange(0, ops.len() as int),
                e,
            ));
            assert(prev.load_of(e) <= w.load_of(e) + selections(w, init, e) - releases(init, e));
            match ops.last() {
                Op::Select { draw } => {
                    lemma_next_effect(prev, draw);
                    let r = prev.next(draw).1;
                    if let Some(x) = r {
                        lemma_slot_of(prev, x);
                        if x != e {
                            assert(prev.slot(x) != prev.slot(e));
                        }
                    }
                },
                Op::Release { endpoint } => {
                    if prev.registered(endpoint) {
                        lemma_slot_of(prev, endpoint);
                        if endpoint != e {
                            assert(prev.slot(endpoint) != prev.slot(e));
                        }
                    }
                },
                Op::SetHealth { health } => {},
            }
        }
    }
}

/// Balanced accounting: starting with no load, when every release answers an
/// earlier selection of the same backend and every selection is answered by
/// exactly one release, all loads are zero at the end.
pub proof fn theorem_balanced_accounting(w: WorkersView, ops: Seq<Op>)
    requires
        w.wf(),
        forall|i: int| 0 <= i < w.loads.len() ==> w.loads[i] == 0,
        forall|e: Endpoint, j: int|
            0 <= j <= ops.len() ==> #[trigger] releases(ops.subrange(0, j), e) <= selections(
                w,
                ops.subrange(0, j),
                e,
            ),
        forall|e: Endpoint| #[trigger] selections(w, ops, e) == releases(ops, e),
    ensures
        forall|i: int| 0 <= i < run_ops(w, ops).loads.len() ==> run_ops(w, ops).loads[i] == 0,
{
    assert forall|e: Endpoint, j: int|
        w.registered(e) && 0 <= j <= ops.len() implies #[trigger] releases(ops.subrange(0, j), e)
        <= w.load_of(e) + selections(w, ops.subrange(0, j), e) by {
        lemma_slot_of(w, e);
    }
    lemma_load_accounting(w, ops);
    theorem_registry_keys(w, ops);
    assert forall|i: int| 0 <= i < run_ops(w, ops).loads.len() implies run_ops(w, ops).loads[i] == 0 by {
        lemma_slot(w, i);
        let e = w.endpoints[i];
        assert(selections(w, ops, e) == releases(ops, e));
        assert(run_ops(w, ops).load_of(e) <= w.load_of(e) + selections(w, ops, e) - releases(ops, e));
    }
}

/// Stepping a count modulo `k`: the remainder goes up by one, or wraps to zero
/// while the quotient goes up by one.
pub proof fn lemma_mod_step(n: int, k: int)
    requires
        n >= 0,
        k > 0,
    ensures
        0 <= n % k < k,
        n % k < k - 1 ==> (n + 1) % k == n % k + 1 && (n + 1) / k == n / k,
        n % k == k - 1 ==> (n + 1) % k == 0 && (n + 1) / k == n / k + 1,
{
    lemma_fundamental_div_mod(n, k);
    lemma_mod_pos_bound(n, k);
    let q = n / k;
    let r = n % k;
    assert(k * q == q * k) by (nonlinear_arith);
    if r < k - 1 {
        lemma_fundamental_div_mod_converse(n + 1, k, q, r + 1);
    } else {
        assert((q + 1) * k == q * k + k) by (nonlinear_arith);
        lemma_fundamental_div_mod_converse(n + 1, k, q + 1, 0);
    }
}

/// The registry after `n` selections under round robin.
pub open spec fn rr_run(w: WorkersView, n: nat) -> WorkersView
    decreases n,
{
    if n == 0 {
        w
    } else {
        rr_run(w, (n - 1) as nat).select(LoadBalancerAlgorithm::RoundRobin, 0).0
    }
}

/// What the `j`-th selection under round robin returns.
pub open spec fn rr_pick(w: WorkersView, j: nat) -> Option<Endpoint> {
    rr_run(w, j).select(LoadBalancerAlgorithm::RoundRobin, 0).1
}

/// How many of the first `n` selections under round robin return `e`.
pub open spec fn rr_count(w: WorkersView, n: nat, e: Endpoint) -> nat
    decreases n,
{
    if n == 0 {
        0
    } else {
        rr_count(w, (n - 1) as nat, e) + if rr_pick(w, (n - 1) as nat) == Some(e) {
            1nat
        } else {
            0nat
        }
    }
}

/// With every backend healthy, the healthy positions are all positions.
pub proof fn lemma_all_healthy(health: Seq<bool>, n: int)
    requires
        0 <= n <= health.len(),
        forall|i: int| 0 <= i < health.len() ==> health[i],
    ensures
        healthy_prefix(health, n) == Seq::new(n as nat, |i: int| i),
    decreases n,
{
    if n > 0 {
        lemma_all_healthy(health, n - 1);
    }
    assert(healthy_prefix(health, n) =~= Seq::new(n as nat, |i: int| i));
}

/// Under round robin with every backend healthy, the `j`-th selection starts
/// from cursor `(c + j) % k` and returns the backend there.
pub proof fn lemma_rr_state(w: WorkersView, j: nat)
    requires
        w.wf(),
        forall|i: int| 0 <= i < w.health.len() ==> w.health[i],
    ensures
        rr_run(w, j).wf(),
        rr_run(w, j).endpoints == w.endpoints,
        rr_run(w, j).health == w.health,
        rr_run(w, j).cursor == (w.cursor + j) % (w.endpoints.len() as int),
        rr_pick(w, j) == Some(w.endpoints[(w.cursor + j) % (w.endpoints.len() as int)]),
    decreases j,
{
    let k = w.endpoints.len() as int;
    lemma_all_healthy(w.health, k);
    if j == 0 {
        lemma_small(w.cursor as int, k);
    } else {
        let m = (j - 1) as nat;
        lemma_rr_state(w, m);
        let prev = rr_run(w, m);
        lemma_select_effect(prev, LoadBalancerAlgorithm::RoundRobin, 0);
        assert(prev.healthy() == Seq::new(k as nat, |i: int| i));
        let cur = prev.cursor as int;
        assert(cur == (w.cursor + m) % k);
        lemma_mod_step(w.cursor + m, k);
        assert(prev.choice(LoadBalancerAlgorithm::RoundRobin, 0) == cur);
        assert(rr_run(w, j).cursor == ((cur + 1) % k) as usize);
        if cur < k - 1 {
            lemma_small(cur + 1, k);
        } else {
            lemma_fundamental_div_mod_converse(k, k, 1, 0);
        }
        assert(w.cursor + j == w.cursor + m + 1);
    }
    let s = rr_run(w, j);
    lemma_select_effect(s, LoadBalancerAlgorithm::RoundRobin, 0);
    assert(s.healthy() == Seq::new(k as nat, |i: int| i));
    assert(s.choice(LoadBalancerAlgorithm::RoundRobin, 0) == s.cursor as int);
}

proof fn lemma_small(x: int, k: int)
    requires
        0 <= x < k,
    ensures
        x % k == x,
{
    lemma_fundamental_div_mod_converse(x, k, 0, x);
}

/// The cursor position `(c + j) % k` in terms of `j % k`.
proof fn lemma_cursor_offset(c: int, k: int, j: int)
    requires
        0 <= c < k,
        j >= 0,
    ensures
        (c + j) % k == if c + j % k < k {
            c + j % k
        } else {
            c + j % k - k
        },
    decreases j,
{
    if j == 0 {
        lemma_small(c, k);
        lemma_small(0, k);
    } else {
        lemma_cursor_offset(c, k, j - 1);
        lemma_mod_step(j - 1, k);
        lemma_mod_step(c + j - 1, k);
    }
}

/// The number of `j < n` with `j % k == t`.
proof fn lemma_rr_count(w: WorkersView, n: nat, i: int)
    requires
        w.wf(),
        forall|p: int| 0 <= p < w.health.len() ==> w.health[p],
        0 <= i < w.endpoints.len(),
    ensures
        ({
            let k = w.endpoints.len() as int;
            let t = if i >= w.cursor {
                i - w.cursor
            } else {
                i + k - w.cursor
            };
            rr_count(w, n, w.endpoints[i]) == (n as int) / k + if t < (n as int) % k {
                1int
            } else {
                0int
            }
        }),
    decreases n,
{
    let k = w.endpoints.len() as int;
    if n == 0 {
        lemma_small(0, k);
        assert(0int / k == 0) by {
            lemma_fundamental_div_mod_converse(0, k, 0, 0);
        }
    } else {
        let m = (n - 1) as nat;
        lemma_rr_count(w, m, i);
        lemma_rr_state(w, m);
        lemma_mod_step(m as int, k);
        lemma_cursor_offset(w.cursor as int, k, m as int);
        let f = (w.cursor + m) % k;
        assert(0 <= f < k);
        if f != i {
            assert(w.endpoints[f] != w.endpoints[i]);
        }
    }
}

/// Round-robin fairness: with every backend healthy and the policy held at
/// round robin, consecutive selections go through the backends in cyclic order
/// from the cursor, so that over `n` selections each of the `k` backends is
/// chosen `floor((n as int) / k)` or `ceil((n as int) / k)` times.
pub proof fn theorem_round_robin_fair(w: WorkersView, n: nat)
    requires
        w.wf(),
        forall|i: int| 0 <= i < w.health.len() ==> w.health[i],
    ensures
        forall|j: nat|
            #[trigger] rr_pick(w, j) == Some(
                w.endpoints[(w.cursor + j) % (w.endpoints.len() as int)],
            ),
        forall|i: int|
            0 <= i < w.endpoints.len() ==> (n as int) / (w.endpoints.len() as int) <= #[trigger] rr_count(
                w,
                n,
                w.endpoints[i],
            ) <= (n as int) / (w.endpoints.len() as int) + if (n as int) % (w.endpoints.len() as int) == 0 {
                0int
            } else {
                1int
            },
{
    assert forall|j: nat|
        #[trigger] rr_pick(w, j) == Some(w.endpoints[(w.cursor + j) % (w.endpoints.len() as int)]) by {
        lemma_rr_state(w, j);
    }
    let k = w.endpoints.len() as int;
    assert forall|i: int| 0 <= i < w.endpoints.len() implies (n as int) / k <= #[trigger] rr_count(
        w,
        n,
        w.endpoints[i],
    ) <= (n as int) / k + if (n as int) % k == 0 {
        0int
    } else {
        1int
    } by {
        lemma_rr_count(w, n, i);
        lemma_mod_step(n as int, k);
    }
}

/// Loads that all lie in `[lo, lo + 1]` have a spread of at most one.
proof fn lemma_spread_at_most_one(s: Seq<usize>, lo: int)
    requires
        s.len() > 0,
        lo >= 0,
        forall|i: int| 0 <= i < s.len() ==> lo <= #[trigger] s[i] <= lo + 1,
    ensures
        lo <= min_load(s),
        max_load(s) <= lo + 1,
        load_spread(s) <= 1,
    decreases s.len(),
{
    if s.len() > 1 {
        let init = s.drop_last();
        assert forall|i: int| 0 <= i < init.len() implies lo <= #[trigger] init[i] <= lo + 1 by {
            assert(init[i] == s[i]);
        }
        lemma_spread_at_most_one(init, lo);
    } else {
        assert(s.drop_last().len() == 0);
        assert(max_load(s.drop_last()) == 0);
    }
}

/// A count of selections is at most the number of selections.
proof fn lemma_rr_count_bound(w: WorkersView, n: nat, e: Endpoint)
    ensures
        rr_count(w, n, e) <= n,
    decreases n,
{
    if n > 0 {
        lemma_rr_count_bound(w, (n - 1) as nat, e);
    }
}

/// Under round robin with every backend healthy, each load grows by the number
/// of times its backend was picked.
proof fn lemma_rr_loads(w: WorkersView, j: nat)
    requires
        w.wf(),
        forall|i: int| 0 <= i < w.health.len() ==> w.health[i],
        forall|i: int| 0 <= i < w.loads.len() ==> w.loads[i] + j < usize::MAX,
    ensures
        forall|i: int|
            0 <= i < w.endpoints.len() ==> #[trigger] rr_run(w, j).loads[i] == w.loads[i] + rr_count(
                w,
                j,
                w.endpoints[i],
            ),
    decreases j,
{
    if j > 0 {
        let m = (j - 1) as nat;
        lemma_rr_loads(w, m);
        lemma_rr_state(w, m);
        let prev = rr_run(w, m);
        lemma_select_effect(prev, LoadBalancerAlgorithm::RoundRobin, 0);
        let e = rr_pick(w, m)->0;
        lemma_slot_of(prev, e);
        assert forall|i: int| 0 <= i < w.endpoints.len() implies #[trigger] rr_run(w, j).loads[i]
            == w.loads[i] + rr_count(w, j, w.endpoints[i]) by {
            lemma_slot(prev, i);
            lemma_rr_count_bound(w, m, w.endpoints[i]);
            if w.endpoints[i] != e {
                assert(prev.slot(e) != i);
            }
        }
    }
}

/// The parts of the registry that a round-robin selection reads and writes.
pub open spec fn same_but_policy(a: WorkersView, b: WorkersView) -> bool {
    &&& a.addresses == b.addresses
    &&& a.endpoints == b.endpoints
    &&& a.health == b.health
    &&& a.loads == b.loads
    &&& a.cursor == b.cursor
}

/// Every operation is a selection.
pub open spec fn all_selections(ops: Seq<Op>) -> bool {
    forall|j: int| 0 <= j < ops.len() ==> #[trigger] ops[j] is Select
}

/// Adaptive selections from equal loads, all backends healthy, run exactly like
/// forced round robin: the spread never exceeds one, so the policy stays round
/// robin.
proof fn lemma_adaptive_is_rr(w: WorkersView, ops: Seq<Op>, j: nat)
    requires
        w.wf(),
        forall|i: int| 0 <= i < w.health.len() ==> w.health[i],
        forall|i: int| 0 <= i < w.loads.len() ==> #[trigger] w.loads[i] == w.loads[0],
        w.loads[0] + ops.len() < usize::MAX,
        all_selections(ops),
        j <= ops.len(),
    ensures
        same_but_policy(run_ops(w, ops.subrange(0, j as int)), rr_run(w, j)),
        forall|e: Endpoint| #[trigger] selections(w, ops.subrange(0, j as int), e) == rr_count(w, j, e),
    decreases j,
{
    if j == 0 {
        assert(ops.subrange(0, 0) =~= Seq::<Op>::empty());
    } else {
        let m = (j - 1) as nat;
        lemma_adaptive_is_rr(w, ops, m);
        let pre = ops.subrange(0, j as int);
        assert(pre.drop_last() =~= ops.subrange(0, m as int));
        assert(pre.last() == ops[m as int]);
        let s = run_ops(w, ops.subrange(0, m as int));
        let r = rr_run(w, m);
        lemma_rr_state(w, m);
        lemma_rr_loads(w, m);
        let k = w.endpoints.len() as int;
        let lo = w.loads[0] + (m as int) / k;
        assert forall|i: int| 0 <= i < r.loads.len() implies lo <= #[trigger] r.loads[i] <= lo + 1 by {
            lemma_rr_count(w, m, i);
        }
        assert((m as int) / k >= 0) by {
            lemma_fundamental_div_mod(m as int, k);
            lemma_mod_pos_bound(m as int, k);
            let q = (m as int) / k;
            let rem = (m as int) % k;
            assert(q >= 0) by (nonlinear_arith)
                requires
                    k > 0,
                    m >= 0,
                    m == k * q + rem,
                    0 <= rem < k,
            ;
        }
        lemma_spread_at_most_one(r.loads, lo);
        assert(ops[m as int] is Select);
        let d = ops[m as int]->draw;
        assert(s.adapted().algorithm == LoadBalancerAlgorithm::RoundRobin);
        assert(same_but_policy(s.adapted().select(LoadBalancerAlgorithm::RoundRobin, d).0, r.select(
            LoadBalancerAlgorithm::RoundRobin,
            0,
        ).0));
        assert(s.adapted().select(LoadBalancerAlgorithm::RoundRobin, d).1 == r.select(
            LoadBalancerAlgorithm::RoundRobin,
            0,
        ).1);
        assert(ops[m as int] == (Op::Select { draw: d }));
        assert(apply(s, ops[m as int]).1 == rr_pick(w, m));
        assert forall|e: Endpoint| #[trigger] selections(w, pre, e) == rr_count(w, j, e) by {
            assert(selections(w, ops.subrange(0, m as int), e) == rr_count(w, m, e));
        }
    }
}

/// Round-robin fairness through the adaptive `select()`: from equal loads with
/// every backend healthy, `n` consecutive selections (with any draws) go through
/// the backends in cyclic order from the cursor, and each of the `k` backends is
/// chosen `floor(n / k)` or `ceil(n / k)` times (provided no load reaches the
/// top of its range).
pub proof fn theorem_adaptive_round_robin_fair(w: WorkersView, ops: Seq<Op>)
    requires
        w.wf(),
        forall|i: int| 0 <= i < w.health.len() ==> w.health[i],
        forall|i: int| 0 <= i < w.loads.len() ==> #[trigger] w.loads[i] == w.loads[0],
        w.loads[0] + ops.len() < usize::MAX,
        all_selections(ops),
    ensures
        forall|j: int|
            0 <= j < ops.len() ==> #[trigger] outcome(w, ops, j) == Some(
                w.endpoints[(w.cursor + j) % (w.endpoints.len() as int)],
            ),
        forall|i: int|
            0 <= i < w.endpoints.len() ==> (ops.len() as int) / (w.endpoints.len() as int)
                <= #[trigger] selections(w, ops, w.endpoints[i]) <= (ops.len() as int) / (
            w.endpoints.len() as int) + if (ops.len() as int) % (w.endpoints.len() as int) == 0 {
                0int
            } else {
                1int
            },
{
    let n = ops.len();
    assert forall|j: int| 0 <= j < ops.len() implies #[trigger] outcome(w, ops, j) == Some(
        w.endpoints[(w.cursor + j) % (w.endpoints.len() as int)],
    ) by {
        lemma_adaptive_is_rr(w, ops, (j + 1) as nat);
        lemma_adaptive_is_rr(w, ops, j as nat);
        lemma_rr_state(w, j as nat);
        let pre = ops.subrange(0, j + 1);
        assert(pre.drop_last() =~= ops.subrange(0, j));
        assert(pre.last() == ops[j]);
        let e = w.endpoints[(w.cursor + j) % (w.endpoints.len() as int)];
        assert(selections(w, pre, e) == rr_count(w, (j + 1) as nat, e));
        assert(selections(w, ops.subrange(0, j), e) == rr_count(w, j as nat, e));
        assert(rr_pick(w, j as nat) == Some(e));
        let o = outcome(w, ops, j);
        assert(o == Some(e) || o != Some(e));
        if o != Some(e) {
            assert(selections(w, pre, e) == selections(w, ops.subrange(0, j), e));
            assert(false);
        }
    }
    lemma_adaptive_is_rr(w, ops, n);
    assert(ops.subrange(0, n as int) =~= ops);
    theorem_round_robin_fair(w, n);
}

} // verus!
