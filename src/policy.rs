//! Selection policies and the adaptive choice among them.
use vstd::prelude::*;

verus! {

#[derive(Clone, Copy, Debug, PartialEq, Eq, Structural)]
pub enum LoadBalancerAlgorithm {
    RoundRobin,
    Random,
    LeastConnections,
}

/// A load spread above this switches to random selection.
pub const RANDOM_SPREAD: usize = 5;

/// A load spread above this switches to least-connections selection.
pub const LEAST_CONNECTIONS_SPREAD: usize = 10;

/// The largest load in `s` (0 for no loads).
pub open spec fn max_load(s: Seq<usize>) -> int
    decreases s.len(),
{
    if s.len() == 0 {
        0
    } else {
        let m = max_load(s.drop_last());
        if s.last() > m {
            s.last() as int
        } else {
            m
        }
    }
}

/// The smallest load in `s` (0 for no loads).
pub open spec fn min_load(s: Seq<usize>) -> int
    decreases s.len(),
{
    if s.len() <= 1 {
        if s.len() == 0 {
            0
        } else {
            s[0] as int
        }
    } else {
        let m = min_load(s.drop_last());
        if (s.last() as int) < m {
            s.last() as int
        } else {
            m
        }
    }
}

/// The difference between the largest and the smallest load.
pub open spec fn load_spread(s: Seq<usize>) -> int {
    max_load(s) - min_load(s)
}

pub open spec fn algorithm_for_spread(spread: int) -> LoadBalancerAlgorithm {
    if spread > LEAST_CONNECTIONS_SPREAD {
        LoadBalancerAlgorithm::LeastConnections
    } else if spread > RANDOM_SPREAD {
        LoadBalancerAlgorithm::Random
    } else {
        LoadBalancerAlgorithm::RoundRobin
    }
}

/// The policy that the spread of `loads` calls for: least connections above a
/// spread of 10, random above 5, round robin otherwise.
pub fn algorithm_for_loads(loads: &Vec<usize>) -> (r: LoadBalancerAlgorithm)
    ensures
        r == algorithm_for_spread(load_spread(loads@)),
{
    if loads.len() == 0 {
        return LoadBalancerAlgorithm::RoundRobin;
    }
    let mut hi: usize = loads[0];
    let mut lo: usize = loads[0];
    let mut i: usize = 1;
    assert(loads@.subrange(0, 1).drop_last() =~= Seq::<usize>::empty());
    assert(max_load(Seq::<usize>::empty()) == 0);
    assert(max_load(loads@.subrange(0, 1)) == loads[0]);
    while i < loads.len()
        invariant
            1 <= i <= loads.len(),
            lo <= hi,
            hi == max_load(loads@.subrange(0, i as int)),
            lo == min_load(loads@.subrange(0, i as int)),
        decreases loads.len() - i,
    {
        let v = loads[i];
        assert(loads@.subrange(0, i + 1).drop_last() =~= loads@.subrange(0, i as int));
        if v > hi {
            hi = v;
        }
        if v < lo {
            lo = v;
        }
        i = i + 1;
    }
    assert(loads@.subrange(0, i as int) =~= loads@);
    let spread = hi - lo;
    if spread > LEAST_CONNECTIONS_SPREAD {
        LoadBalancerAlgorithm::LeastConnections
    } else if spread > RANDOM_SPREAD {
        LoadBalancerAlgorithm::Random
    } else {
        LoadBalancerAlgorithm::RoundRobin
    }
}

} // verus!
