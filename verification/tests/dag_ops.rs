use bead_dag::BeadNode;
use bead_dag::{build_adjacency_impl, compute_levels_impl, find_cycle_nodes_impl, get_ready_beads_impl, has_cycle_impl};
use std::collections::HashMap;

fn bead(id: &str, status: &str, blocked_by: &[&str], blocks: &[&str]) -> BeadNode {
    BeadNode {
        id: id.to_string(),
        title: id.to_uppercase(),
        status: status.to_string(),
        priority: 0,
        blocked_by: blocked_by.iter().map(|s| s.to_string()).collect(),
        blocks: blocks.iter().map(|s| s.to_string()).collect(),
        duration: None,
    }
}

fn three_cycle() -> Vec<BeadNode> {
    vec![
        bead("a", "open", &["c"], &["b"]),
        bead("b", "open", &["a"], &["c"]),
        bead("c", "open", &["b"], &["a"]),
    ]
}

fn chain() -> Vec<BeadNode> {
    vec![
        bead("a", "open", &[], &["b"]),
        bead("b", "open", &["a"], &["c"]),
        bead("c", "open", &["b"], &[]),
    ]
}

fn as_set(v: &[String]) -> std::collections::BTreeSet<String> {
    v.iter().cloned().collect()
}

#[test]
fn test_cycle_detection() {
    let beads = three_cycle();
    assert!(has_cycle_impl(&beads));
}

#[test]
fn test_ready_beads() {
    let beads = vec![
        bead("a", "closed", &[], &["b"]),
        bead("b", "open", &["a"], &["c"]),
        bead("c", "open", &["b"], &[]),
    ];
    let ready = get_ready_beads_impl(&beads);
    assert_eq!(ready.len(), 1);
    assert_eq!(ready[0], "b");
}

#[test]
fn acyclic_consistent_set_has_no_cycle_and_no_participants() {
    let beads = chain();
    assert!(!has_cycle_impl(&beads));
    assert!(find_cycle_nodes_impl(&beads).is_empty());
}

#[test]
fn three_cycle_participants_are_exactly_the_cycle() {
    let beads = three_cycle();
    assert!(has_cycle_impl(&beads));
    let parts = find_cycle_nodes_impl(&beads);
    let expected: std::collections::BTreeSet<String> =
        ["a", "b", "c"].iter().map(|s| s.to_string()).collect();
    assert_eq!(as_set(&parts), expected);

    let mut reordered = three_cycle();
    reordered.reverse();
    assert!(has_cycle_impl(&reordered));
    let parts2 = find_cycle_nodes_impl(&reordered);
    assert_eq!(as_set(&parts2), expected);
}

#[test]
fn self_loop_alone_is_not_reported() {
    let beads = vec![bead("a", "open", &["a"], &["a"])];
    assert!(find_cycle_nodes_impl(&beads).is_empty());
}

#[test]
fn adjacency_has_one_entry_per_node() {
    let beads = vec![
        bead("a", "open", &[], &["b"]),
        bead("b", "open", &["a"], &[]),
        bead("lone", "open", &[], &[]),
    ];
    let adj = build_adjacency_impl(&beads);
    assert_eq!(adj.len(), 3);
    let map: HashMap<String, Vec<String>> = adj.into_iter().collect();
    assert_eq!(map["a"], vec!["b".to_string()]);
    assert!(map["b"].is_empty());
    assert!(map["lone"].is_empty());
}

#[test]
fn adjacency_keeps_dangling_targets() {
    let beads = vec![bead("a", "open", &[], &["ghost", "b"]), bead("b", "open", &[], &[])];
    let adj = build_adjacency_impl(&beads);
    let map: HashMap<String, Vec<String>> = adj.into_iter().collect();
    assert_eq!(map["a"], vec!["ghost".to_string(), "b".to_string()]);
}

#[test]
fn ready_requires_every_blocker_closed() {
    let beads = vec![
        bead("a", "closed", &[], &["c"]),
        bead("b", "open", &[], &["c"]),
        bead("c", "open", &["a", "b"], &[]),
    ];
    let ready = get_ready_beads_impl(&beads);
    assert_eq!(ready, vec!["b".to_string()]);
}

#[test]
fn dangling_blocker_keeps_node_unready() {
    let beads = vec![bead("a", "open", &["ghost"], &[])];
    assert!(get_ready_beads_impl(&beads).is_empty());
}

#[test]
fn levels_follow_the_chain() {
    let beads = chain();
    let levels = compute_levels_impl(&beads);
    assert_eq!(levels.len(), 3);
    assert_eq!(levels[0], vec!["a".to_string()]);
    assert_eq!(levels[1], vec!["b".to_string()]);
    assert_eq!(levels[2], vec!["c".to_string()]);
}

#[test]
fn level_zero_holds_exactly_the_unblocked_nodes() {
    let beads = vec![
        bead("a", "open", &[], &[]),
        bead("b", "open", &["a"], &[]),
        bead("c", "open", &[], &[]),
    ];
    let levels = compute_levels_impl(&beads);
    assert_eq!(levels[0], vec!["a".to_string(), "c".to_string()]);
}

#[test]
fn cyclic_and_dangling_nodes_get_no_level() {
    let beads = vec![
        bead("seed", "open", &[], &[]),
        bead("x", "open", &["y"], &["y"]),
        bead("y", "open", &["x"], &["x"]),
        bead("stray", "open", &["ghost"], &[]),
    ];
    let levels = compute_levels_impl(&beads);
    let listed: Vec<String> = levels.iter().flatten().cloned().collect();
    assert_eq!(listed, vec!["seed".to_string()]);
}

#[test]
fn no_seed_means_no_levels() {
    let beads = vec![bead("x", "open", &["y"], &["y"]), bead("y", "open", &["x"], &["x"])];
    assert!(compute_levels_impl(&beads).is_empty());
}

#[test]
fn operations_are_deterministic_across_runs() {
    let beads = three_cycle();
    assert_eq!(has_cycle_impl(&beads), has_cycle_impl(&beads));
    assert_eq!(find_cycle_nodes_impl(&beads), find_cycle_nodes_impl(&beads));
    assert_eq!(build_adjacency_impl(&beads), build_adjacency_impl(&beads));
    assert_eq!(get_ready_beads_impl(&beads), get_ready_beads_impl(&beads));
    assert_eq!(compute_levels_impl(&beads), compute_levels_impl(&beads));

    let chain_beads = chain();
    let first = serde_json::to_string(&compute_levels_impl(&chain_beads)).unwrap();
    let second = serde_json::to_string(&compute_levels_impl(&chain_beads)).unwrap();
    assert_eq!(first, second);
}

#[test]
fn adjacency_round_trip_is_lossless() {
    let beads = vec![
        bead("a", "open", &[], &["b", "c"]),
        bead("b", "open", &["a"], &[]),
        bead("c", "open", &["a"], &[]),
    ];
    let map: HashMap<String, Vec<String>> = build_adjacency_impl(&beads).into_iter().collect();
    let encoded = serde_json::to_string(&map).unwrap();
    let decoded: HashMap<String, Vec<String>> = serde_json::from_str(&encoded).unwrap();
    assert_eq!(decoded, map);
    let reencoded = serde_json::to_string(&decoded).unwrap();
    let redecoded: HashMap<String, Vec<String>> = serde_json::from_str(&reencoded).unwrap();
    assert_eq!(redecoded, map);
}

#[test]
fn dangling_blockers_are_dropped_from_the_cycle_graph() {
    let beads = vec![bead("a", "open", &["ghost", "a"], &[])];
    assert!(has_cycle_impl(&beads));
    let beads2 = vec![bead("a", "open", &["ghost"], &[])];
    assert!(!has_cycle_impl(&beads2));
}

#[test]
fn tiers_list_ids_in_input_order() {
    let beads = vec![
        bead("a", "open", &[], &["d"]),
        bead("b", "open", &[], &["c"]),
        bead("c", "open", &["b"], &[]),
        bead("d", "open", &["a"], &[]),
    ];
    let levels = compute_levels_impl(&beads);
    assert_eq!(levels.len(), 2);
    assert_eq!(levels[0], vec!["a".to_string(), "b".to_string()]);
    assert_eq!(levels[1], vec!["c".to_string(), "d".to_string()]);
}

#[test]
fn duplicate_records_collapse_into_first_seen() {
    let beads = vec![
        bead("a", "open", &[], &[]),
        bead("b", "open", &["a"], &[]),
        bead("a", "open", &["b"], &[]),
    ];
    assert!(!has_cycle_impl(&beads));

    let beads2 = vec![
        bead("a", "open", &["b"], &[]),
        bead("b", "open", &["a"], &[]),
        bead("a", "open", &[], &[]),
    ];
    assert!(has_cycle_impl(&beads2));
}

#[test]
fn every_cycle_member_is_reported() {
    let beads = vec![
        bead("solo", "open", &[], &["x"]),
        bead("x", "open", &["y", "solo"], &["y"]),
        bead("y", "open", &["x"], &["x"]),
        bead("p", "open", &["q"], &["q"]),
        bead("q", "open", &["p"], &["p"]),
    ];
    let parts = find_cycle_nodes_impl(&beads);
    let expected: std::collections::BTreeSet<String> =
        ["x", "y", "p", "q"].iter().map(|s| s.to_string()).collect();
    assert_eq!(as_set(&parts), expected);
    assert_eq!(parts.len(), 4);
}
