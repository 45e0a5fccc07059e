use spindle::{create_service_manager, service_configs_from_stored, StoredServiceConfig};

fn stored(id: u32, name: &str, deps: Vec<u32>) -> StoredServiceConfig {
    StoredServiceConfig {
        service_id: id,
        name: name.to_string(),
        version: "1.0".to_string(),
        program: format!("/opt/{}", name),
        description: None,
        workspace: Some(format!("/work/{}", name)),
        args: vec!["-v".to_string(), name.to_string()],
        dependency_ids: deps,
        group_id: 0,
    }
}

#[test]
fn dependency_ids_become_keys() {
    let configs = vec![stored(3, "db", vec![]), stored(8, "api", vec![3, 99])];
    let out = service_configs_from_stored(&configs);
    assert_eq!(out.len(), 2);
    assert!(out[0].dependencies.is_empty());
    assert_eq!(out[1].dependencies, vec![("db".to_string(), "1.0".to_string())]);
    assert_eq!(out[1].name, "api");
}

#[test]
fn reload_keeps_service_fields() {
    let configs = vec![stored(1, "db", vec![]), stored(2, "api", vec![1])];
    let m = create_service_manager(&configs);
    assert_eq!(m.group_num(), 1);
    let meta = m.service_meta("api", "1.0").unwrap();
    assert_eq!(meta.name, "api");
    assert_eq!(meta.version, "1.0");
    assert_eq!(meta.program, "/opt/api");
    assert_eq!(meta.args, vec!["-v".to_string(), "api".to_string()]);
    assert_eq!(meta.workspace, Some("/work/api".to_string()));
}

#[test]
fn args_follow_their_index() {
    let rows = vec![
        (2, "c".to_string()),
        (0, "a".to_string()),
        (1, "b".to_string()),
    ];
    assert_eq!(
        spindle::args_in_order(rows),
        vec!["a".to_string(), "b".to_string(), "c".to_string()]
    );
    assert!(spindle::args_in_order(Vec::new()).is_empty());
}
