use create_crushmap::facts::read_fact;
use create_crushmap::unit::parse_unit;

#[test]
fn fact_is_trimmed_and_split() {
    let f = read_fact("  node-1\n", " node-2  node-3\n");
    assert_eq!(f.hostname, "node-1");
    assert_eq!(f.neighbors, vec!["node-2".to_string(), "node-3".to_string()]);
}

#[test]
fn fact_without_neighbors() {
    let f = read_fact("solo", "\n");
    assert_eq!(f.hostname, "solo");
    assert!(f.neighbors.is_empty());
}

#[test]
fn unit_name_splits_at_slash() {
    assert_eq!(parse_unit("ceph-osd/12"), Some((8, 12)));
    assert_eq!(parse_unit("a/0/extra"), Some((1, 0)));
    assert_eq!(parse_unit("a/+7"), Some((1, 7)));
}

#[test]
fn unit_name_without_number_is_refused() {
    assert_eq!(parse_unit("controller"), None);
    assert_eq!(parse_unit("controller/"), None);
    assert_eq!(parse_unit("controller/x1"), None);
    assert_eq!(parse_unit("controller/+"), None);
    assert_eq!(parse_unit("controller/-1"), None);
}

#[test]
fn unit_number_must_fit_usize() {
    assert_eq!(parse_unit("a/18446744073709551615"), Some((1, usize::MAX)));
    assert_eq!(parse_unit("a/18446744073709551616"), None);
}
