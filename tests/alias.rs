use spindle::{is_subset, map_alias};

fn names(v: &[&str]) -> Vec<String> {
    v.iter().map(|s| s.to_string()).collect()
}

#[test]
fn subset_in_order() {
    assert!(is_subset(&names(&["A", "C"]), &names(&["A", "B", "C"])));
    assert!(is_subset(&names(&["A", "B", "C"]), &names(&["A", "B", "C"])));
}

#[test]
fn subset_empty_child() {
    assert!(is_subset(&names(&[]), &names(&["A"])));
    assert!(is_subset(&names(&[]), &names(&[])));
}

#[test]
fn subset_rejects_wrong_order() {
    assert!(!is_subset(&names(&["C", "A"]), &names(&["A", "B", "C"])));
}

#[test]
fn subset_rejects_repeats_and_missing() {
    assert!(!is_subset(&names(&["A", "A"]), &names(&["A"])));
    assert!(!is_subset(&names(&["D"]), &names(&["A", "B", "C"])));
    assert!(!is_subset(&names(&["A"]), &names(&[])));
}

#[test]
fn alias_remap_after_group_grows() {
    let prev = vec![("frontends", names(&["A", "B"])), ("backend", names(&["C"]))];
    let curr = vec![(0u32, names(&["A", "B", "D"])), (1u32, names(&["C"]))];
    let r = map_alias(&prev, &curr);
    assert_eq!(r, vec![(0u32, "frontends"), (1u32, "backend")]);
}

#[test]
fn alias_remap_after_groups_merge_first_wins() {
    let prev = vec![("frontends", names(&["A", "B"])), ("backend", names(&["C"]))];
    let curr = vec![(0u32, names(&["A", "B", "C", "D"]))];
    let r = map_alias(&prev, &curr);
    assert_eq!(r, vec![(0u32, "frontends")]);
}

#[test]
fn alias_remap_binds_only_first_free_slot() {
    let prev = vec![("all", names(&["A", "B", "C"]))];
    let curr = vec![(4u32, names(&["A"])), (7u32, names(&["B"]))];
    let r = map_alias(&prev, &curr);
    assert_eq!(r, vec![(4u32, "all")]);
}

#[test]
fn alias_remap_skips_taken_slot() {
    let prev = vec![("x", names(&["A"])), ("y", names(&["A", "B"]))];
    let curr = vec![(0u32, names(&["A", "B"])), (1u32, names(&["A", "B", "C"]))];
    let r = map_alias(&prev, &curr);
    assert_eq!(r, vec![(0u32, "x"), (1u32, "y")]);
}

#[test]
fn alias_remap_drops_unmatched() {
    let prev = vec![("gone", names(&["Q"]))];
    let curr = vec![(0u32, names(&["A", "B"]))];
    assert!(map_alias(&prev, &curr).is_empty());
    let none: Vec<(&str, Vec<String>)> = Vec::new();
    assert!(map_alias(&none, &curr).is_empty());
}

#[test]
fn member_names_sorted() {
    let keys = vec![
        ("web".to_string(), "2".to_string()),
        ("api".to_string(), "1".to_string()),
        ("db".to_string(), "1".to_string()),
    ];
    assert_eq!(spindle::sorted_names(&keys), names(&["api", "db", "web"]));
    assert!(spindle::sorted_names(&Vec::new()).is_empty());
}
