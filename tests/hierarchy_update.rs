use create_crushmap::augment::{augment, AugmentError, IdAllocator, RACK_TYPE, ROOT_TYPE};
use create_crushmap::hierarchy::{Bucket, BucketAlg, Hierarchy, Tunables};
use create_crushmap::partition::FailureDomain;
use create_crushmap::rule::{bind_rule, last_bucket_id, RulePolicy, OP_CHOOSELEAF_FIRSTN, OP_EMIT, OP_TAKE};

fn leaves(entries: &[(i32, &str)]) -> Hierarchy {
    Hierarchy {
        magic: 65536,
        max_buckets: 0,
        max_rules: 0,
        max_devices: entries.len() as i32,
        buckets: vec![],
        rules: vec![],
        type_map: vec![(0, "osd".to_string()), (3, "rack".to_string()), (10, "root".to_string())],
        name_map: entries.iter().map(|(i, n)| (*i, n.to_string())).collect(),
        rule_name_map: vec![],
        tunables: Tunables {
            choose_local_tries: Some(0),
            choose_local_fallback_tries: Some(0),
            choose_total_tries: Some(50),
            chooseleaf_descend_once: Some(1),
            chooseleaf_vary_r: None,
            straw_calc_version: None,
            choose_tries: None,
        },
    }
}

fn domain(id: usize, hosts: &[&str]) -> FailureDomain {
    FailureDomain { id, members: hosts.iter().map(|h| h.to_string()).collect() }
}

fn ids(b: &Bucket) -> Vec<i32> {
    b.items.iter().map(|i| i.0).collect()
}

fn bucket(h: &Hierarchy, k: usize) -> &Bucket {
    h.buckets[k].as_ref().unwrap()
}

#[test]
fn three_leaves_two_domains() {
    let h = leaves(&[(0, "a"), (1, "b"), (2, "c")]);
    let p = vec![domain(1, &["a", "b"]), domain(2, &["c"])];
    let g = augment(h, &p).ok().unwrap();
    assert_eq!(g.buckets.len(), 3);
    let r1 = bucket(&g, 0);
    let r2 = bucket(&g, 1);
    let root = bucket(&g, 2);
    assert_eq!(ids(r1), vec![0, 1]);
    assert_eq!(ids(r2), vec![2]);
    assert_eq!(r1.id, -1);
    assert_eq!(r2.id, -2);
    assert_eq!(root.id, -3);
    assert_eq!(ids(root), vec![-1, -2]);
    assert_eq!(r1.type_code, RACK_TYPE);
    assert_eq!(root.type_code, ROOT_TYPE);
    assert!(matches!(r1.alg, BucketAlg::Straw { .. }));
    assert_eq!(r1.items[0].1, Some("a".to_string()));
    assert_eq!(g.name_map.len(), 6);
    assert_eq!(&g.name_map[3..], &[(-1, "1".to_string()), (-2, "2".to_string()), (-3, "racks".to_string())]);
    assert_eq!(root.items[0].1, Some("1".to_string()));
    assert_eq!(root.items[1].1, Some("2".to_string()));
    assert_eq!(g.max_buckets, 3);
}

#[test]
fn unknown_host_is_refused() {
    let h = leaves(&[(0, "a"), (1, "b")]);
    let p = vec![domain(0, &["a", "z"])];
    match augment(h, &p) {
        Err(AugmentError::UnknownDevice(host)) => assert_eq!(host, "z"),
        _ => panic!("expected an unknown device"),
    }
}

#[test]
fn empty_table_is_refused() {
    let h = leaves(&[]);
    let p: Vec<FailureDomain> = vec![];
    assert!(matches!(augment(h, &p), Err(AugmentError::EmptyHierarchy)));
}

#[test]
fn identifiers_below_i32_min_are_refused() {
    let h = leaves(&[(i32::MIN + 1, "a")]);
    let p = vec![domain(0, &["a"])];
    assert!(matches!(augment(h, &p), Err(AugmentError::IdSpaceExhausted)));
}

#[test]
fn empty_partition_adds_only_the_root() {
    let h = leaves(&[(0, "a")]);
    let g = augment(h, &vec![]).ok().unwrap();
    assert_eq!(g.buckets.len(), 1);
    assert!(ids(bucket(&g, 0)).is_empty());
    assert_eq!(g.name_map.len(), 2);
}

#[test]
fn same_inputs_same_buckets() {
    let p = vec![domain(0, &["b", "c"]), domain(1, &["a"])];
    let g1 = augment(leaves(&[(5, "a"), (6, "b"), (7, "c")]), &p).ok().unwrap();
    let g2 = augment(leaves(&[(5, "a"), (6, "b"), (7, "c")]), &p).ok().unwrap();
    assert_eq!(g1.buckets.len(), g2.buckets.len());
    for k in 0..g1.buckets.len() {
        assert_eq!(ids(bucket(&g1, k)), ids(bucket(&g2, k)));
        assert_eq!(bucket(&g1, k).id, bucket(&g2, k).id);
    }
    assert_eq!(ids(bucket(&g1, 0)), vec![6, 7]);
    assert_eq!(bucket(&g1, 0).id, -1);
}

#[test]
fn rerun_does_not_repeat_buckets() {
    let p = vec![domain(0, &["a"]), domain(1, &["b", "c"])];
    let g1 = augment(leaves(&[(0, "a"), (1, "b"), (2, "c")]), &p).ok().unwrap();
    let n1 = g1.buckets.len();
    let names = |h: &Hierarchy| h.name_map.iter().map(|e| e.1.clone()).collect::<Vec<String>>();
    let names1 = names(&g1);
    let g2 = augment(g1, &p).ok().unwrap();
    assert_eq!(g2.buckets.len(), n1);
    assert_eq!(names(&g2), names1);
    let g3 = augment(g2, &p).ok().unwrap();
    assert_eq!(g3.buckets.len(), n1);
    assert_eq!(ids(bucket(&g3, 1)), vec![1, 2]);
}

#[test]
fn earlier_buckets_are_kept() {
    let mut h = leaves(&[(0, "a"), (-1, "default")]);
    h.buckets.push(Some(Bucket {
        struct_size: 4,
        id: -1,
        type_code: 10,
        hash: 0,
        weight: 0,
        items: vec![(0, Some("a".to_string()))],
        perm_n: 0,
        perm: 1,
        alg: BucketAlg::Straw { item_weights: vec![(0, 0)] },
    }));
    h.buckets.push(None);
    let g = augment(h, &vec![domain(0, &["a"])]).ok().unwrap();
    assert_eq!(g.buckets.len(), 4);
    assert_eq!(bucket(&g, 0).id, -1);
    assert!(g.buckets[1].is_none());
    assert_eq!(bucket(&g, 2).id, -2);
    assert_eq!(bucket(&g, 3).id, -3);
    assert_eq!(ids(bucket(&g, 3)), vec![-2]);
}

#[test]
fn allocator_counts_down() {
    let mut a = IdAllocator::below(-4);
    assert_eq!(a.allocate(), -5);
    assert_eq!(a.allocate(), -6);
    assert_eq!(a.next, -7);
}

#[test]
fn rule_is_rooted_at_the_new_root() {
    let h = leaves(&[(0, "a"), (1, "b")]);
    let g = augment(h, &vec![domain(0, &["a", "b"])]).ok().unwrap();
    let root = last_bucket_id(&g).unwrap();
    assert_eq!(root, -2);
    let policy = RulePolicy::replicated();
    let g = bind_rule(g, root, &policy);
    assert_eq!(g.rules.len(), 1);
    assert_eq!(g.max_rules, 1);
    let rule = g.rules[0].as_ref().unwrap();
    assert_eq!((rule.ruleset, rule.min_size, rule.max_size), (0, 1, 10));
    assert_eq!(rule.steps.len(), 3);
    assert_eq!(rule.steps[0].op, OP_TAKE);
    assert_eq!(rule.steps[0].arg1.0, -2);
    assert_eq!(rule.steps[1].op, OP_CHOOSELEAF_FIRSTN);
    assert_eq!(rule.steps[1].arg2.0, 1);
    assert_eq!(rule.steps[2].op, OP_EMIT);
    assert_eq!(g.rule_name_map, vec![(0, "replicated_ruleset".to_string())]);
}

#[test]
fn last_bucket_of_empty_hierarchy() {
    let h = leaves(&[(0, "a")]);
    assert_eq!(last_bucket_id(&h), None);
}

#[test]
fn bucket_accessors_read_shared_fields() {
    let h = leaves(&[(3, "a")]);
    let g = augment(h, &vec![domain(0, &["a"])]).ok().unwrap();
    let b = bucket(&g, 0);
    assert_eq!(b.id(), -1);
    assert_eq!(b.type_code(), RACK_TYPE);
    assert_eq!(b.weight(), 0);
    match &b.alg {
        BucketAlg::Straw { item_weights } => assert_eq!(item_weights.len(), 1),
        _ => panic!("expected a straw bucket"),
    }
}

#[test]
fn host_named_like_the_root_is_resolved() {
    let h = leaves(&[(0, "racks")]);
    let g = augment(h, &vec![domain(0, &["racks"])]).ok().unwrap();
    assert_eq!(ids(bucket(&g, 0)), vec![0]);
    assert_eq!(g.name_map[0], (0, "racks".to_string()));
    assert_eq!(g.name_map.len(), 3);
}

#[test]
fn missing_host_beside_root_entry_is_unknown() {
    let h = leaves(&[(-1, "racks")]);
    match augment(h, &vec![domain(0, &["a"])]) {
        Err(AugmentError::UnknownDevice(host)) => assert_eq!(host, "a"),
        _ => panic!("expected an unknown device"),
    }
}

#[test]
fn domain_bucket_is_named_by_its_id() {
    let h = leaves(&[(0, "h")]);
    let g = augment(h, &vec![domain(0, &["h"])]).ok().unwrap();
    assert_eq!(g.name_map[1], (-1, "0".to_string()));
    assert_eq!(bucket(&g, 0).items, vec![(0, Some("h".to_string()))]);
}

#[test]
fn user_bucket_named_like_a_domain_is_kept() {
    let mut h = leaves(&[(0, "a"), (-1, "1")]);
    h.buckets.push(Some(Bucket {
        struct_size: 4,
        id: -1,
        type_code: 3,
        hash: 0,
        weight: 0,
        items: vec![(0, Some("a".to_string()))],
        perm_n: 0,
        perm: 1,
        alg: BucketAlg::Straw { item_weights: vec![(0, 0)] },
    }));
    let g = augment(h, &vec![domain(1, &["a"])]).ok().unwrap();
    assert_eq!(g.buckets.len(), 3);
    assert_eq!(bucket(&g, 0).id, -1);
    assert_eq!(bucket(&g, 1).id, -2);
}

#[test]
fn earlier_root_referenced_elsewhere_is_not_replaced() {
    let p = vec![domain(0, &["a"])];
    let mut g1 = augment(leaves(&[(0, "a")]), &p).ok().unwrap();
    g1.buckets.push(Some(Bucket {
        struct_size: 4,
        id: -9,
        type_code: 10,
        hash: 0,
        weight: 0,
        items: vec![(-2, Some("racks".to_string()))],
        perm_n: 0,
        perm: 1,
        alg: BucketAlg::Straw { item_weights: vec![(0, 0)] },
    }));
    let before = g1.buckets.len();
    let g2 = augment(g1, &p).ok().unwrap();
    assert_eq!(g2.buckets.len(), before + 2);
}
