use private_vault::cluster::merge_cluster_files;
use private_vault::models::FileSummary;

fn file(id: &str, name: &str, size: i64) -> FileSummary {
    FileSummary { file_id: id.to_string(), file_name: name.to_string(), size }
}

#[test]
fn cluster_listing_merges_by_id_and_sorts_by_name() {
    let local = vec![file("1", "zeta", 10), file("2", "alpha", 20)];
    let reports = vec![
        ("peer-a".to_string(), vec![file("2", "alpha-remote", 99), file("3", "mid", 30)]),
        ("peer-b".to_string(), vec![file("3", "mid-b", 31), file("2", "x", 1), file("2", "x", 1)]),
    ];
    let listing = merge_cluster_files(&"me".to_string(), &local, &reports);
    assert_eq!(listing.len(), 3);
    let names: Vec<&str> = listing.iter().map(|f| f.file_name.as_str()).collect();
    assert_eq!(names, vec!["alpha", "mid", "zeta"]);
    assert_eq!(listing[0].file_id, "2");
    assert_eq!(listing[0].size, 20);
    assert_eq!(listing[0].known_by, vec!["me", "peer-a", "peer-b"]);
    assert_eq!(listing[1].file_id, "3");
    assert_eq!(listing[1].size, 30);
    assert_eq!(listing[1].known_by, vec!["peer-a", "peer-b"]);
    assert_eq!(listing[2].known_by, vec!["me"]);
}

#[test]
fn cluster_listing_of_nothing_is_empty() {
    assert!(merge_cluster_files(&"me".to_string(), &vec![], &vec![]).is_empty());
}

#[test]
fn later_local_entry_replaces_earlier() {
    let local = vec![file("1", "old", 1), file("1", "new", 2)];
    let listing = merge_cluster_files(&"me".to_string(), &local, &vec![]);
    assert_eq!(listing.len(), 1);
    assert_eq!(listing[0].file_name, "new");
    assert_eq!(listing[0].size, 2);
}

#[test]
fn names_sort_by_bytes() {
    let local = vec![file("1", "b", 1), file("2", "B", 1), file("3", "ä", 1), file("4", "a", 1), file("5", "", 1)];
    let listing = merge_cluster_files(&"me".to_string(), &local, &vec![]);
    let names: Vec<&str> = listing.iter().map(|f| f.file_name.as_str()).collect();
    assert_eq!(names, vec!["", "B", "a", "b", "ä"]);
}

#[test]
fn peer_reporting_this_node_id_is_not_repeated() {
    let local = vec![file("1", "f", 1)];
    let reports = vec![("me".to_string(), vec![file("1", "f", 1)])];
    let listing = merge_cluster_files(&"me".to_string(), &local, &reports);
    assert_eq!(listing[0].known_by, vec!["me"]);
}
