use load_balancer::endpoint::Endpoint;
use load_balancer::policy::{algorithm_for_loads, LoadBalancerAlgorithm};
use load_balancer::workers::{Workers, WorkersError};

fn ep(port: u16) -> Endpoint {
    Endpoint::new(127, 0, 0, 1, port)
}

fn registry(ports: &[u16]) -> Workers {
    let raw: Vec<String> = ports.iter().map(|p| format!("127.0.0.1:{}", p)).collect();
    Workers::new(raw).unwrap()
}

#[test]
fn new_starts_healthy_idle_random() {
    let w = registry(&[8000, 8001, 8002]);
    assert_eq!(w.worker_addrs().clone(), vec![ep(8000), ep(8001), ep(8002)]);
    assert_eq!(w.workers_health().clone(), vec![true, true, true]);
    assert_eq!(w.current_worker_loads().clone(), vec![0, 0, 0]);
    assert_eq!(w.current_worker(), 0);
    assert_eq!(w.algorithm(), LoadBalancerAlgorithm::Random);
}

#[test]
fn new_rejects_empty_list() {
    assert!(matches!(Workers::new(vec![]), Err(WorkersError::NoWorkers)));
}

#[test]
fn new_rejects_bad_address() {
    let raw = vec!["127.0.0.1:8000".to_string(), "localhost:8001".to_string(), "x".to_string()];
    assert!(matches!(Workers::new(raw), Err(WorkersError::InvalidAddress { index: 1 })));
}

#[test]
fn new_keeps_configured_list_with_repeats() {
    let mut w = registry(&[8001, 8000, 8001]);
    assert_eq!(w.worker_addrs().clone(), vec![ep(8001), ep(8000), ep(8001)]);
    assert_eq!(w.endpoints().clone(), vec![ep(8001), ep(8000)]);
    assert_eq!(w.workers_health().clone(), vec![true, true]);
    assert_eq!(w.current_worker_loads().clone(), vec![0, 0]);
    let picks: Vec<Endpoint> = (0..3).map(|_| w.get_next().unwrap()).collect();
    assert_eq!(picks, vec![ep(8001), ep(8000), ep(8001)]);
    assert_eq!(w.current_worker_loads().clone(), vec![2, 1]);
    assert!(w.decrease_worker_count(ep(8001)));
    assert_eq!(w.current_worker_loads().clone(), vec![1, 1]);
    assert!(!w.update_healthy_workers(vec![true, true, true]));
    assert!(w.update_healthy_workers(vec![false, true]));
    assert_eq!(w.get_next(), Some(ep(8000)));
    assert_eq!(w.worker_addrs().clone(), vec![ep(8001), ep(8000), ep(8001)]);
}

#[test]
fn adaptive_policy_thresholds() {
    assert_eq!(algorithm_for_loads(&vec![0, 0, 0]), LoadBalancerAlgorithm::RoundRobin);
    assert_eq!(algorithm_for_loads(&vec![0, 0, 7]), LoadBalancerAlgorithm::Random);
    assert_eq!(algorithm_for_loads(&vec![0, 0, 12]), LoadBalancerAlgorithm::LeastConnections);
    assert_eq!(algorithm_for_loads(&vec![3, 8]), LoadBalancerAlgorithm::RoundRobin);
    assert_eq!(algorithm_for_loads(&vec![9, 3]), LoadBalancerAlgorithm::Random);
    assert_eq!(algorithm_for_loads(&vec![20, 10, 15]), LoadBalancerAlgorithm::Random);
    assert_eq!(algorithm_for_loads(&vec![4, 15, 9]), LoadBalancerAlgorithm::LeastConnections);
    assert_eq!(algorithm_for_loads(&vec![]), LoadBalancerAlgorithm::RoundRobin);
}

#[test]
fn optimal_algorithm_reads_all_loads() {
    let mut w = registry(&[8000, 8001, 8002]);
    for _ in 0..7 {
        w.increase_worker_count(&ep(8002));
    }
    w.update_healthy_workers(vec![true, true, false]);
    w.optimal_algorithm();
    assert_eq!(w.algorithm(), LoadBalancerAlgorithm::Random);
}

#[test]
fn round_robin_under_equal_load() {
    let mut w = registry(&[8000, 8001]);
    let picks: Vec<Endpoint> = (0..3).map(|_| w.get_next().unwrap()).collect();
    assert_eq!(picks, vec![ep(8000), ep(8001), ep(8000)]);
    assert_eq!(w.algorithm(), LoadBalancerAlgorithm::RoundRobin);
    assert_eq!(w.current_worker_loads().clone(), vec![2, 1]);
}

#[test]
fn round_robin_is_fair() {
    let mut w = registry(&[8000, 8001, 8002]);
    let mut counts = [0usize; 3];
    let mut picks = vec![];
    for _ in 0..7 {
        let e = w.get_next_using(LoadBalancerAlgorithm::RoundRobin, 0).unwrap();
        counts[(e.port - 8000) as usize] += 1;
        picks.push(e.port);
    }
    assert_eq!(picks, vec![8000, 8001, 8002, 8000, 8001, 8002, 8000]);
    assert_eq!(counts, [3, 2, 2]);
}

#[test]
fn round_robin_skips_unhealthy_and_clamps_cursor() {
    let mut w = registry(&[8000, 8001, 8002]);
    w.get_next_using(LoadBalancerAlgorithm::RoundRobin, 0);
    w.get_next_using(LoadBalancerAlgorithm::RoundRobin, 0);
    assert_eq!(w.current_worker(), 2);
    w.update_healthy_workers(vec![false, true, true]);
    assert_eq!(w.get_next_using(LoadBalancerAlgorithm::RoundRobin, 0), Some(ep(8001)));
    assert_eq!(w.current_worker(), 1);
    assert_eq!(w.get_next_using(LoadBalancerAlgorithm::RoundRobin, 0), Some(ep(8002)));
    assert_eq!(w.current_worker(), 0);
}

#[test]
fn random_index_follows_draw() {
    let mut w = registry(&[8000, 8001, 8002]);
    assert_eq!(w.get_next_using(LoadBalancerAlgorithm::Random, 0), Some(ep(8000)));
    assert_eq!(w.get_next_using(LoadBalancerAlgorithm::Random, u64::MAX), Some(ep(8002)));
    assert_eq!(w.get_next_using(LoadBalancerAlgorithm::Random, 1u64 << 63), Some(ep(8001)));
    assert_eq!(w.current_worker(), 0);
    assert_eq!(w.current_worker_loads().clone(), vec![1, 1, 1]);
}

#[test]
fn random_selection_picks_healthy_backend() {
    let mut w = registry(&[8000, 8001, 8002, 8003]);
    for _ in 0..7 {
        w.increase_worker_count(&ep(8003));
    }
    w.update_healthy_workers(vec![true, false, true, true]);
    for _ in 0..20 {
        let e = w.get_next().unwrap();
        assert_ne!(e, ep(8001));
        w.decrease_worker_count(e);
    }
}

#[test]
fn get_next_with_uses_random_for_modest_spread() {
    let mut w = registry(&[8000, 8001, 8002]);
    for _ in 0..6 {
        w.increase_worker_count(&ep(8000));
    }
    assert_eq!(w.get_next_with(u64::MAX), Some(ep(8002)));
    assert_eq!(w.algorithm(), LoadBalancerAlgorithm::Random);
}

#[test]
fn least_connections_picks_minimum_healthy() {
    let mut w = registry(&[8000, 8001, 8002, 8003]);
    let loads = [5usize, 1, 3, 1];
    for (i, n) in loads.iter().enumerate() {
        for _ in 0..*n {
            w.increase_worker_count(&ep(8000 + i as u16));
        }
    }
    assert_eq!(w.get_next_using(LoadBalancerAlgorithm::LeastConnections, 0), Some(ep(8001)));
    assert_eq!(w.current_worker_loads().clone(), vec![5, 2, 3, 1]);
    w.update_healthy_workers(vec![true, true, true, false]);
    assert_eq!(w.get_next_using(LoadBalancerAlgorithm::LeastConnections, 0), Some(ep(8001)));
    // loads are now 5, 3, 3: the tie goes to the backend configured first
    assert_eq!(w.get_next_using(LoadBalancerAlgorithm::LeastConnections, 0), Some(ep(8001)));
    assert_eq!(w.get_next_using(LoadBalancerAlgorithm::LeastConnections, 0), Some(ep(8002)));
}

#[test]
fn adaptive_switch_to_least_connections() {
    let mut w = registry(&[8000, 8001]);
    assert_eq!(w.get_next(), Some(ep(8000)));
    w.decrease_worker_count(ep(8000));
    for _ in 0..12 {
        w.increase_worker_count(&ep(8000));
    }
    assert_eq!(w.current_worker_loads().clone(), vec![12, 0]);
    assert_eq!(w.get_next(), Some(ep(8001)));
    assert_eq!(w.algorithm(), LoadBalancerAlgorithm::LeastConnections);
}

#[test]
fn unhealthy_backends_are_never_returned() {
    let mut w = registry(&[8000, 8001, 8002]);
    assert!(w.update_healthy_workers(vec![false, true, false]));
    for _ in 0..10 {
        assert_eq!(w.get_next(), Some(ep(8001)));
    }
    assert_eq!(w.current_worker_loads().clone(), vec![0, 10, 0]);
}

#[test]
fn all_unhealthy_gives_none() {
    let mut w = registry(&[8000, 8001]);
    w.update_healthy_workers(vec![false, false]);
    assert_eq!(w.get_next(), None);
    assert_eq!(w.get_next_with(7), None);
    assert_eq!(w.current_worker_loads().clone(), vec![0, 0]);
}

#[test]
fn health_update_of_wrong_shape_is_refused() {
    let mut w = registry(&[8000, 8001]);
    assert!(!w.update_healthy_workers(vec![false]));
    assert_eq!(w.workers_health().clone(), vec![true, true]);
    assert!(!w.update_healthy_workers(vec![false, false, false]));
    assert_eq!(w.workers_health().clone(), vec![true, true]);
}

#[test]
fn release_at_zero_is_a_no_op() {
    let mut w = registry(&[8000, 8001]);
    assert!(w.decrease_worker_count(ep(8000)));
    assert_eq!(w.current_worker_loads().clone(), vec![0, 0]);
}

#[test]
fn release_of_unknown_endpoint_changes_nothing() {
    let mut w = registry(&[8000, 8001]);
    w.get_next();
    assert!(!w.decrease_worker_count(ep(9000)));
    assert_eq!(w.current_worker_loads().clone(), vec![1, 0]);
    w.increase_worker_count(&ep(9000));
    assert_eq!(w.current_worker_loads().clone(), vec![1, 0]);
}

#[test]
fn balanced_selects_and_releases_leave_no_load() {
    let mut w = registry(&[8000, 8001, 8002]);
    let mut picked = vec![];
    for i in 0..25 {
        if i == 10 {
            w.update_healthy_workers(vec![true, false, true]);
        }
        picked.push(w.get_next().unwrap());
    }
    let total: usize = w.current_worker_loads().iter().sum();
    assert_eq!(total, 25);
    for e in picked {
        assert!(w.decrease_worker_count(e));
    }
    assert_eq!(w.current_worker_loads().clone(), vec![0, 0, 0]);
}

#[test]
fn registry_keys_stay_after_operations() {
    let mut w = registry(&[8000, 8001, 8002]);
    let e = w.get_next().unwrap();
    w.update_healthy_workers(vec![true, false, true]);
    w.decrease_worker_count(e);
    w.decrease_worker_count(ep(7000));
    w.get_next_using(LoadBalancerAlgorithm::LeastConnections, 0);
    w.update_healthy_workers(vec![true]);
    assert_eq!(w.worker_addrs().clone(), vec![ep(8000), ep(8001), ep(8002)]);
    assert_eq!(w.workers_health().len(), 3);
    assert_eq!(w.current_worker_loads().len(), 3);
    assert!(w.current_worker() < 3);
}

#[test]
fn adaptive_selection_from_equal_loads_is_fair() {
    let mut w = registry(&[8000, 8001, 8002]);
    let picks: Vec<u16> = (0..7).map(|_| w.get_next().unwrap().port).collect();
    assert_eq!(picks, vec![8000, 8001, 8002, 8000, 8001, 8002, 8000]);
    assert_eq!(w.algorithm(), LoadBalancerAlgorithm::RoundRobin);
    assert_eq!(w.current_worker_loads().clone(), vec![3, 2, 2]);
}
