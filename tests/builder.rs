use spindle::{
    build_groups_from_configs, validate_service_dependencies, validate_service_name_unique,
    DeadLetterQueueItem, ServiceConfig, ServiceManager,
};

fn cfg(name: &str, deps: &[&str]) -> ServiceConfig {
    ServiceConfig {
        name: name.to_string(),
        version: "1".to_string(),
        program: format!("/bin/{}", name),
        args: vec!["--name".to_string(), name.to_string()],
        dependencies: deps.iter().map(|d| (d.to_string(), "1".to_string())).collect(),
        workspace: None,
    }
}

fn group_names(m: &ServiceManager, g: usize) -> Vec<String> {
    m.group_service_keys(g).into_iter().map(|(n, _)| n).collect()
}

fn dlq_names(m: &ServiceManager) -> Vec<(String, String)> {
    m.dead_letter_queue().iter().map(|d| (d.key.0.clone(), d.reason.clone())).collect()
}

#[test]
fn duplicate_key_goes_to_dlq() {
    let mut dlq: Vec<DeadLetterQueueItem> = Vec::new();
    let mut second = cfg("A", &[]);
    second.program = "/bin/other".to_string();
    let kept = validate_service_name_unique(vec![cfg("A", &[]), second, cfg("B", &[])], &mut dlq);
    assert_eq!(kept.len(), 2);
    assert_eq!(kept[0].meta.program, "/bin/A");
    assert_eq!(kept[1].meta.name, "B");
    assert_eq!(dlq.len(), 1);
    assert_eq!(dlq[0].reason, "Service A:v1 is not unique");
    assert_eq!(dlq[0].meta.program, "/bin/other");
    assert_eq!(dlq[0].key, ("A".to_string(), "1".to_string()));
}

#[test]
fn transitive_orphans_are_pruned() {
    let mut dlq: Vec<DeadLetterQueueItem> = Vec::new();
    let mut infos = validate_service_name_unique(
        vec![cfg("A", &[]), cfg("C", &["B"]), cfg("B", &["M"])],
        &mut dlq,
    );
    validate_service_dependencies(&mut infos, &mut dlq);
    assert_eq!(infos.len(), 1);
    assert_eq!(infos[0].meta.name, "A");
    assert_eq!(dlq.len(), 2);
    assert_eq!(dlq[0].key.0, "B");
    assert_eq!(dlq[0].reason, "Dependency service M/1 not found");
    assert_eq!(dlq[1].key.0, "C");
    assert_eq!(dlq[1].reason, "Dependency service B/1 not found");
}

#[test]
fn lone_missing_dependency_reason() {
    let m = ServiceManager::from_configs(vec![cfg("A", &["missing"])]);
    assert_eq!(m.group_num(), 0);
    assert_eq!(
        dlq_names(&m),
        vec![("A".to_string(), "Dependency service missing/1 not found".to_string())]
    );
}

#[test]
fn self_dependency_is_cyclic() {
    let m = ServiceManager::from_configs(vec![cfg("S", &["S"]), cfg("T", &[])]);
    assert_eq!(m.group_num(), 1);
    assert_eq!(group_names(&m, 0), vec!["T".to_string()]);
    assert_eq!(
        dlq_names(&m),
        vec![("S".to_string(), "Service group dependency is cyclic".to_string())]
    );
}

#[test]
fn disconnected_services_form_singleton_groups() {
    let m = ServiceManager::from_configs(vec![cfg("A", &[]), cfg("B", &[])]);
    assert_eq!(m.group_num(), 2);
    assert_eq!(group_names(&m, 0), vec!["A".to_string()]);
    assert_eq!(group_names(&m, 1), vec!["B".to_string()]);
    assert!(m.dead_letter_queue().is_empty());
}

#[test]
fn disjoint_groups_and_roots() {
    let m = ServiceManager::from_configs(vec![cfg("X", &[]), cfg("Y", &[]), cfg("Z", &["Y"])]);
    assert_eq!(m.group_num(), 2);
    assert_eq!(group_names(&m, 0), vec!["X".to_string()]);
    assert_eq!(group_names(&m, 1), vec!["Y".to_string(), "Z".to_string()]);
    assert_eq!(m.group_root_service_keys(0), vec![("X".to_string(), "1".to_string())]);
    assert_eq!(m.group_root_service_keys(1), vec![("Y".to_string(), "1".to_string())]);
    assert!(m.group_root_service_keys(2).is_empty());
    assert!(m.group_service_keys(2).is_empty());
}

#[test]
fn cycle_rejection() {
    let m = ServiceManager::from_configs(vec![cfg("P", &["Q"]), cfg("Q", &["P"])]);
    assert_eq!(m.group_num(), 0);
    let d = dlq_names(&m);
    assert_eq!(d.len(), 2);
    assert_eq!(d[0], ("P".to_string(), "Service group dependency is cyclic".to_string()));
    assert_eq!(d[1], ("Q".to_string(), "Service group dependency is cyclic".to_string()));
}

#[test]
fn missing_dependency_cascade() {
    let m = ServiceManager::from_configs(vec![
        cfg("A", &[]),
        cfg("B", &["A"]),
        cfg("C", &["B"]),
        cfg("D", &["missing"]),
    ]);
    assert_eq!(
        dlq_names(&m),
        vec![("D".to_string(), "Dependency service missing/1 not found".to_string())]
    );
    assert_eq!(m.group_num(), 1);
    assert_eq!(group_names(&m, 0), vec!["A".to_string(), "B".to_string(), "C".to_string()]);
}

#[test]
fn every_config_lands_once() {
    let input = vec![
        cfg("A", &[]),
        cfg("A", &[]),
        cfg("B", &["A"]),
        cfg("P", &["Q"]),
        cfg("Q", &["P"]),
        cfg("D", &["missing"]),
        cfg("E", &[]),
    ];
    let m = ServiceManager::from_configs(input);
    let grouped: usize = (0..m.group_num()).map(|g| m.group_service_keys(g).len()).sum();
    assert_eq!(grouped + m.dead_letter_queue().len(), 7);
    assert_eq!(grouped, 3);
}

#[test]
fn building_twice_gives_same_result() {
    let input = || {
        vec![cfg("C", &["B"]), cfg("B", &["A"]), cfg("A", &[]), cfg("X", &[]), cfg("X", &[])]
    };
    let a = ServiceManager::from_configs(input());
    let b = ServiceManager::from_configs(input());
    assert_eq!(a.group_num(), b.group_num());
    for g in 0..a.group_num() {
        assert_eq!(a.group_service_keys(g), b.group_service_keys(g));
    }
    assert_eq!(dlq_names(&a), dlq_names(&b));
}

#[test]
fn groups_keep_metadata() {
    let mut c = cfg("W", &[]);
    c.workspace = Some("/srv/w".to_string());
    let m = ServiceManager::from_configs(vec![c]);
    let meta = m.service_meta("W", "1").unwrap();
    assert_eq!(meta.program, "/bin/W");
    assert_eq!(meta.args, vec!["--name".to_string(), "W".to_string()]);
    assert_eq!(meta.workspace, Some("/srv/w".to_string()));
    assert!(m.service_meta("W", "2").is_none());
}

#[test]
fn build_groups_reports_into_dlq() {
    let mut dlq: Vec<DeadLetterQueueItem> = Vec::new();
    let groups = build_groups_from_configs(vec![cfg("A", &[]), cfg("B", &["A"])], &mut dlq);
    assert_eq!(groups.len(), 1);
    assert_eq!(groups[0].metas.len(), 2);
    assert!(dlq.is_empty());
}
