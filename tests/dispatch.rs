use load_balancer::dispatch::{Action, Event, Stage};
use load_balancer::endpoint::Endpoint;
use load_balancer::workers::Workers;

fn ep(port: u16) -> Endpoint {
    Endpoint::new(127, 0, 0, 1, port)
}

fn registry(ports: &[u16]) -> Workers {
    let raw: Vec<String> = ports.iter().map(|p| format!("127.0.0.1:{}", p)).collect();
    Workers::new(raw).unwrap()
}

#[test]
fn single_backend_single_request() {
    let mut w = registry(&[8000]);
    let (s, a) = Stage::Fresh.step(&mut w, Event::Arrived);
    assert_eq!(a, Action::Connect(ep(8000)));
    assert_eq!(w.current_worker_loads().clone(), vec![1]);
    let (s, a) = s.step(&mut w, Event::Connected);
    assert_eq!(a, Action::Relay(ep(8000)));
    assert_eq!(s, Stage::Relaying { endpoint: ep(8000) });
    let (s, a) = s.step(&mut w, Event::RelayEnded);
    assert_eq!((s, a), (Stage::Closed, Action::Close));
    assert_eq!(w.current_worker_loads().clone(), vec![0]);
}

#[test]
fn failover_on_dead_backend() {
    let mut w = registry(&[8000, 8001]);
    let (s, a) = Stage::Fresh.step(&mut w, Event::Arrived);
    assert_eq!(a, Action::Connect(ep(8000)));
    let (s, a) = s.step(&mut w, Event::ConnectFailed);
    assert_eq!((s, a), (Stage::ProbingBeforeRetry, Action::Probe));
    assert_eq!(w.current_worker_loads().clone(), vec![0, 0]);
    let (s, a) = s.step(&mut w, Event::Probed(vec![false, true]));
    assert_eq!(a, Action::Connect(ep(8001)));
    assert_eq!(s, Stage::Connecting { endpoint: ep(8001), retried: true });
    assert_eq!(w.workers_health().clone(), vec![false, true]);
    let (s, a) = s.step(&mut w, Event::Connected);
    assert_eq!(a, Action::Relay(ep(8001)));
    assert_eq!(w.current_worker_loads().clone(), vec![0, 1]);
    let (_, a) = s.step(&mut w, Event::RelayEnded);
    assert_eq!(a, Action::Close);
    assert_eq!(w.current_worker_loads().clone(), vec![0, 0]);
}

#[test]
fn all_backends_unhealthy() {
    let mut w = registry(&[8000, 8001]);
    let (s, a) = Stage::Fresh.step(&mut w, Event::Arrived);
    assert_eq!(a, Action::Connect(ep(8000)));
    let (s, _) = s.step(&mut w, Event::ConnectFailed);
    let (s, a) = s.step(&mut w, Event::Probed(vec![false, false]));
    assert_eq!((s, a), (Stage::Closed, Action::Close));
    assert_eq!(w.current_worker_loads().clone(), vec![0, 0]);
    let (s, a) = Stage::Fresh.step(&mut w, Event::Arrived);
    assert_eq!((s, a), (Stage::ProbingBeforeDrop, Action::Probe));
    let (s, a) = s.step(&mut w, Event::Probed(vec![false, false]));
    assert_eq!((s, a), (Stage::Closed, Action::Close));
    let (_, a) = Stage::Fresh.step(&mut w, Event::Arrived);
    assert_eq!(a, Action::Probe);
    assert_eq!(w.current_worker_loads().clone(), vec![0, 0]);
}

#[test]
fn second_connect_failure_releases_and_drops() {
    let mut w = registry(&[8000, 8001]);
    let (s, _) = Stage::Fresh.step_with(&mut w, Event::Arrived, 0);
    let (s, _) = s.step_with(&mut w, Event::ConnectFailed, 0);
    let (s, a) = s.step_with(&mut w, Event::Probed(vec![true, true]), 0);
    assert_eq!(a, Action::Connect(ep(8001)));
    let (s, a) = s.step_with(&mut w, Event::ConnectFailed, 0);
    assert_eq!((s, a), (Stage::ProbingBeforeDrop, Action::Probe));
    assert_eq!(w.current_worker_loads().clone(), vec![0, 0]);
    let (s, a) = s.step_with(&mut w, Event::Probed(vec![false, false]), 0);
    assert_eq!((s, a), (Stage::Closed, Action::Close));
}

#[test]
fn events_that_do_not_apply_are_ignored() {
    let mut w = registry(&[8000]);
    let (s, a) = Stage::Fresh.step(&mut w, Event::RelayEnded);
    assert_eq!((s, a), (Stage::Fresh, Action::Ignore));
    let (s, a) = Stage::Closed.step(&mut w, Event::Arrived);
    assert_eq!((s, a), (Stage::Closed, Action::Ignore));
    assert_eq!(w.current_worker_loads().clone(), vec![0]);
}
