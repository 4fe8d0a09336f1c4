use create_crushmap::partition::{partition, FailureDomain, NodeFact};
use create_crushmap::hierarchy::{Hierarchy, Tunables};
use create_crushmap::rule::{rebuild, RulePolicy};
use std::collections::BTreeSet;

fn fact(host: &str, neighbors: &[&str]) -> NodeFact {
    NodeFact {
        hostname: host.to_string(),
        neighbors: neighbors.iter().map(|n| n.to_string()).collect(),
    }
}

fn members(d: &FailureDomain) -> BTreeSet<String> {
    d.members.iter().cloned().collect()
}

fn set(names: &[&str]) -> BTreeSet<String> {
    names.iter().map(|n| n.to_string()).collect()
}

#[test]
fn single_host_without_neighbors() {
    let r = partition(&vec![fact("a", &[])]);
    assert_eq!(r.len(), 1);
    assert_eq!(r[0].id, 0);
    assert_eq!(members(&r[0]), set(&["a"]));
    assert_eq!(r[0].members.len(), 1);
}

#[test]
fn mutual_neighbors_share_one_domain() {
    let r = partition(&vec![fact("a", &["b"]), fact("b", &["a"])]);
    assert_eq!(r.len(), 1);
    assert_eq!(r[0].id, 0);
    assert_eq!(members(&r[0]), set(&["a", "b"]));
}

#[test]
fn empty_adjacency_gives_no_domains() {
    let r = partition(&vec![]);
    assert!(r.is_empty());
}

#[test]
fn domains_cover_every_host() {
    let facts = vec![
        fact("a", &["b"]),
        fact("b", &["a", "c"]),
        fact("c", &["b"]),
        fact("d", &[]),
    ];
    let r = partition(&facts);
    let mut all = BTreeSet::new();
    for d in &r {
        all.extend(members(d));
    }
    assert_eq!(all, set(&["a", "b", "c", "d"]));
}

#[test]
fn overlapping_but_different_sets_stay_apart() {
    let facts = vec![fact("a", &["b"]), fact("b", &["a", "c"]), fact("c", &["b"])];
    let r = partition(&facts);
    assert_eq!(r.len(), 3);
    assert_eq!(members(&r[0]), set(&["a", "b"]));
    assert_eq!(members(&r[1]), set(&["a", "b", "c"]));
    assert_eq!(members(&r[2]), set(&["b", "c"]));
    let ids: Vec<usize> = r.iter().map(|d| d.id).collect();
    assert_eq!(ids, vec![0, 1, 2]);
}

#[test]
fn repeated_neighbor_is_listed_once() {
    let r = partition(&vec![fact("a", &["b", "b", "a"])]);
    assert_eq!(r.len(), 1);
    assert_eq!(r[0].members.len(), 2);
    assert_eq!(members(&r[0]), set(&["a", "b"]));
}

#[test]
fn equal_candidates_in_other_order_merge() {
    let facts = vec![fact("a", &["b", "c"]), fact("c", &["b", "a"]), fact("x", &[])];
    let r = partition(&facts);
    assert_eq!(r.len(), 2);
    assert_eq!(members(&r[0]), set(&["a", "b", "c"]));
    assert_eq!(r[1].id, 1);
    assert_eq!(members(&r[1]), set(&["x"]));
}

#[test]
fn rebuild_roots_rule_at_new_aggregation_bucket() {
    let h = Hierarchy {
        magic: 65536,
        max_buckets: 0,
        max_rules: 0,
        max_devices: 2,
        buckets: vec![],
        rules: vec![],
        type_map: vec![],
        name_map: vec![(0, "a".to_string()), (1, "b".to_string())],
        rule_name_map: vec![],
        tunables: Tunables {
            choose_local_tries: None,
            choose_local_fallback_tries: None,
            choose_total_tries: None,
            chooseleaf_descend_once: None,
            chooseleaf_vary_r: None,
            straw_calc_version: None,
            choose_tries: None,
        },
    };
    let g = rebuild(&vec![fact("a", &["b"]), fact("b", &["a"])], h, &RulePolicy::replicated()).ok().unwrap();
    assert_eq!(g.buckets.len(), 2);
    let rule = g.rules[0].as_ref().unwrap();
    assert_eq!(rule.steps[0].arg1.0, -2);
    assert_eq!(g.buckets[1].as_ref().unwrap().id, -2);
}
