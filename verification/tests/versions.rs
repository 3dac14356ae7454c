use cleargate_flow::clock::Timestamp;
use cleargate_flow::versions::{list_version_positions, VersionKey};

fn key(flow: &str, version: &str, secs: i64) -> VersionKey {
    VersionKey { flow_id: flow.into(), version_id: version.into(), created_at: Timestamp { secs, nanos: 0 } }
}

fn ids(keys: &[VersionKey], positions: &[usize]) -> Vec<String> {
    positions.iter().map(|&p| keys[p].version_id.clone()).collect()
}

#[test]
fn test_list_versions_sorted() {
    let keys = vec![key("flow-1", "v1", 0), key("flow-1", "v2", 10), key("flow-1", "v3", 5)];
    let listed = list_version_positions(&keys, "flow-1", 10, 0);
    assert_eq!(listed.len(), 3);
    assert_eq!(ids(&keys, &listed), vec!["v2", "v3", "v1"]);
}

#[test]
fn versions_of_other_flows_are_left_out_and_pages_cut() {
    let keys = vec![
        key("flow-1", "a", 1),
        key("flow-2", "x", 9),
        key("flow-1", "c", 3),
        key("flow-1", "b", 3),
        key("flow-1", "d", 2),
    ];
    let all = list_version_positions(&keys, "flow-1", 10, 0);
    assert_eq!(ids(&keys, &all), vec!["c", "b", "d", "a"]);
    let page = list_version_positions(&keys, "flow-1", 2, 1);
    assert_eq!(ids(&keys, &page), vec!["b", "d"]);
    assert!(list_version_positions(&keys, "flow-1", 2, 7).is_empty());
    assert!(list_version_positions(&keys, "flow-1", 0, 0).is_empty());
}
