use spindle::{
    poll_step, ManagerError, PollStep, ServiceConfig, ServiceManager, ServiceManagerEvent,
    ServiceState,
};

fn cfg(name: &str, deps: &[&str]) -> ServiceConfig {
    ServiceConfig {
        name: name.to_string(),
        version: "v1".to_string(),
        program: format!("/bin/{}", name),
        args: Vec::new(),
        dependencies: deps.iter().map(|d| (d.to_string(), "v1".to_string())).collect(),
        workspace: None,
    }
}

fn key(name: &str) -> (String, String) {
    (name.to_string(), "v1".to_string())
}

fn state(m: &ServiceManager, name: &str) -> String {
    m.service_state(name, "v1").unwrap().to_string()
}

fn chain() -> ServiceManager {
    ServiceManager::from_configs(vec![cfg("A", &[]), cfg("B", &["A"]), cfg("C", &["B"])])
}

/// Launches every service of group `g` in order, delivering each start event.
fn start_group(m: &mut ServiceManager, g: usize) -> Vec<String> {
    let mut started = Vec::new();
    for meta in m.launch_order(g).unwrap() {
        assert!(matches!(m.launch_service(&meta), Ok(true)));
        let r = m.handle_event(ServiceManagerEvent::ServiceStarted {
            service_key: (meta.name.clone(), meta.version.clone()),
        });
        assert!(r.is_empty());
        started.push(meta.name.clone());
    }
    started
}

#[test]
fn linear_chain_start_and_stop() {
    let mut m = chain();
    assert_eq!(m.group_num(), 1);
    assert_eq!(start_group(&mut m, 0), vec!["A", "B", "C"]);
    for n in ["A", "B", "C"] {
        assert_eq!(state(&m, n), "Running");
    }
    let (cancel, res) = m.stop_service("A", "v1");
    assert!(res.is_ok());
    assert_eq!(cancel, vec![key("C"), key("B"), key("A")]);
    for n in ["A", "B", "C"] {
        assert_eq!(state(&m, n), "Stopping");
    }
    for k in cancel {
        assert!(m.handle_event(ServiceManagerEvent::ServiceStopped { service_key: k }).is_empty());
    }
    for n in ["A", "B", "C"] {
        assert_eq!(state(&m, n), "Stopped");
    }
}

#[test]
fn launching_one_group_leaves_the_other() {
    let mut m = ServiceManager::from_configs(vec![cfg("X", &[]), cfg("Y", &[]), cfg("Z", &["Y"])]);
    assert_eq!(start_group(&mut m, 0), vec!["X"]);
    assert_eq!(state(&m, "X"), "Running");
    assert_eq!(state(&m, "Y"), "Pending");
    assert_eq!(state(&m, "Z"), "Pending");
}

#[test]
fn crash_cascades_to_dependents() {
    let mut m = chain();
    start_group(&mut m, 0);
    let to_stop = m.handle_event(ServiceManagerEvent::ServiceCrashed {
        service_key: key("B"),
        reason: "Service task exited with status: exit status: 1".to_string(),
    });
    assert_eq!(to_stop, vec![key("C")]);
    assert_eq!(state(&m, "B"), "Failed: Service task exited with status: exit status: 1");
    let (cancel, res) = m.stop_service("C", "v1");
    assert!(res.is_ok());
    assert_eq!(cancel, vec![key("C")]);
    m.handle_event(ServiceManagerEvent::ServiceStopped { service_key: key("C") });
    assert_eq!(state(&m, "A"), "Running");
    assert!(state(&m, "B").contains("exit status"));
    assert_eq!(state(&m, "C"), "Stopped");
}

#[test]
fn launch_waits_for_dependencies() {
    let mut m = chain();
    let b = m.service_meta("B", "v1").unwrap();
    assert!(matches!(m.launch_service(&b), Ok(false)));
    assert_eq!(state(&m, "B"), "Pending");
    let a = m.service_meta("A", "v1").unwrap();
    assert!(matches!(m.launch_service(&a), Ok(true)));
    assert_eq!(state(&m, "A"), "Starting");
    assert!(matches!(m.launch_service(&b), Ok(false)));
    assert_eq!(state(&m, "B"), "Pending");
}

#[test]
fn launch_refuses_mid_state() {
    let mut m = chain();
    let a = m.service_meta("A", "v1").unwrap();
    assert!(matches!(m.launch_service(&a), Ok(true)));
    assert!(matches!(
        m.launch_service(&a),
        Err(ManagerError::MidState(ServiceState::Starting))
    ));
    m.handle_event(ServiceManagerEvent::ServiceStarted { service_key: key("A") });
    assert!(matches!(m.launch_service(&a), Ok(false)));
    assert_eq!(state(&m, "A"), "Running");
}

#[test]
fn launch_restarts_failed_and_stopped() {
    let mut m = chain();
    let a = m.service_meta("A", "v1").unwrap();
    m.set_service_state("A", "v1", ServiceState::Failed("boom".to_string()));
    assert!(matches!(m.launch_service(&a), Ok(true)));
    m.set_service_state("A", "v1", ServiceState::Stopped);
    assert!(matches!(m.launch_service(&a), Ok(true)));
    m.set_service_state("A", "v1", ServiceState::Skipped);
    assert!(matches!(m.launch_service(&a), Ok(true)));
}

#[test]
fn unknown_service_launch_is_refused() {
    let mut m = chain();
    let mut ghost = m.service_meta("A", "v1").unwrap();
    ghost.name = "nobody".to_string();
    assert!(matches!(m.launch_service(&ghost), Err(ManagerError::NotFound)));
    assert_eq!(state(&m, "A"), "Pending");
    assert!(m.service_state("nobody", "v1").is_none());
}

#[test]
fn stop_gate() {
    let mut m = chain();
    let (cancel, res) = m.stop_service("A", "v1");
    assert!(res.is_ok());
    assert!(cancel.is_empty());
    assert_eq!(state(&m, "A"), "Pending");
    let (_, res) = m.stop_service("nobody", "v1");
    assert!(matches!(res, Err(ManagerError::NotFound)));
    let a = m.service_meta("A", "v1").unwrap();
    m.launch_service(&a).unwrap();
    let (cancel, res) = m.stop_service("A", "v1");
    assert!(matches!(res, Err(ManagerError::MidState(ServiceState::Starting))));
    assert!(cancel.is_empty());
}

#[test]
fn stop_of_stopping_dependent_is_refused() {
    let mut m = chain();
    start_group(&mut m, 0);
    m.set_service_state("C", "v1", ServiceState::Stopping);
    let (cancel, res) = m.stop_service("A", "v1");
    assert!(matches!(res, Err(ManagerError::MidState(ServiceState::Stopping))));
    assert!(cancel.is_empty());
    assert_eq!(state(&m, "A"), "Stopping");
    assert_eq!(state(&m, "B"), "Stopping");
}

#[test]
fn events_in_other_states_are_ignored() {
    let mut m = chain();
    m.handle_event(ServiceManagerEvent::ServiceStarted { service_key: key("A") });
    assert_eq!(state(&m, "A"), "Pending");
    m.handle_event(ServiceManagerEvent::ServiceStopped { service_key: key("A") });
    assert_eq!(state(&m, "A"), "Pending");
    let r = m.handle_event(ServiceManagerEvent::ServiceCrashed {
        service_key: key("nobody"),
        reason: "x".to_string(),
    });
    assert!(r.is_empty());
}

#[test]
fn launch_order_bounds() {
    let m = chain();
    assert!(matches!(m.launch_order(1), Err(ManagerError::GroupOutOfBounds)));
    let order: Vec<String> = m.launch_order(0).unwrap().into_iter().map(|x| x.name).collect();
    assert_eq!(order, vec!["A", "B", "C"]);
}

#[test]
fn state_text() {
    assert_eq!(ServiceState::Pending.to_string(), "Pending");
    assert_eq!(ServiceState::Starting.to_string(), "Starting");
    assert_eq!(ServiceState::Running.to_string(), "Running");
    assert_eq!(ServiceState::Stopping.to_string(), "Stopping");
    assert_eq!(ServiceState::Stopped.to_string(), "Stopped");
    assert_eq!(ServiceState::Skipped.to_string(), "Skipped");
    assert_eq!(ServiceState::Failed("bad exit".to_string()).to_string(), "Failed: bad exit");
}

#[test]
fn poll_steps() {
    assert_eq!(poll_step(&Some(ServiceState::Running)), PollStep::Ready);
    assert_eq!(poll_step(&Some(ServiceState::Starting)), PollStep::Wait);
    assert_eq!(poll_step(&Some(ServiceState::Stopped)), PollStep::GiveUp);
    assert_eq!(poll_step(&Some(ServiceState::Failed("x".to_string()))), PollStep::GiveUp);
    assert_eq!(poll_step(&None), PollStep::GiveUp);
}

#[test]
fn fresh_services_are_pending() {
    let m = chain();
    for n in ["A", "B", "C"] {
        assert_eq!(state(&m, n), "Pending");
    }
}

#[test]
fn launch_order_puts_dependencies_first() {
    let m = ServiceManager::from_configs(vec![cfg("C", &["B"]), cfg("B", &["A"]), cfg("A", &[])]);
    let keys: Vec<String> = m.group_service_keys(0).into_iter().map(|(n, _)| n).collect();
    assert_eq!(keys, vec!["C", "B", "A"]);
    let order: Vec<String> = m.launch_order(0).unwrap().into_iter().map(|x| x.name).collect();
    assert_eq!(order, vec!["A", "B", "C"]);
    assert_eq!(m.group_root_service_keys(0), vec![key("A")]);
}

#[test]
fn crash_of_root_reports_all_direct_dependents() {
    let mut m = ServiceManager::from_configs(vec![cfg("A", &[]), cfg("B", &["A"]), cfg("C", &["A"])]);
    start_group(&mut m, 0);
    let mut to_stop = m.handle_event(ServiceManagerEvent::ServiceCrashed {
        service_key: key("A"),
        reason: "Failed to spawn service: not found".to_string(),
    });
    to_stop.sort();
    assert_eq!(to_stop, vec![key("B"), key("C")]);
}

#[test]
fn diamond_cascade_meets_a_service_twice() {
    let mut m = ServiceManager::from_configs(vec![
        cfg("A", &[]),
        cfg("B", &["A"]),
        cfg("C", &["A"]),
        cfg("D", &["B", "C"]),
    ]);
    start_group(&mut m, 0);
    let (_, res) = m.stop_service("A", "v1");
    assert!(matches!(res, Err(ManagerError::MidState(ServiceState::Stopping))));
    assert_eq!(state(&m, "A"), "Stopping");
}

#[test]
fn tree_cascade_succeeds() {
    let mut m = ServiceManager::from_configs(vec![
        cfg("A", &[]),
        cfg("B", &["A"]),
        cfg("C", &["A"]),
        cfg("D", &["B"]),
    ]);
    start_group(&mut m, 0);
    let (mut cancel, res) = m.stop_service("A", "v1");
    assert!(res.is_ok());
    cancel.sort();
    assert_eq!(cancel, vec![key("A"), key("B"), key("C"), key("D")]);
}
