use hardlink_dedup::discovery::find_inode_groups;

fn found(entries: &[(u64, &str)]) -> Vec<(u64, String)> {
    entries.iter().map(|(ino, path)| (*ino, path.to_string())).collect()
}

#[test]
fn paths_are_gathered_by_inode() {
    let groups = find_inode_groups(&found(&[
        (12, "/a/x"),
        (11, "/a/y"),
        (12, "/b/x"),
        (13, "/c"),
        (11, "/d"),
    ]));
    assert_eq!(groups.len(), 3);
    assert_eq!(groups.representatives(), vec![0, 1, 2]);
    assert_eq!(groups.inode(0), 12);
    assert_eq!(groups.inode(1), 11);
    assert_eq!(groups.inode(2), 13);
    assert_eq!(groups.paths(0), &vec!["/a/x".to_string(), "/b/x".to_string()]);
    assert_eq!(groups.paths(1), &vec!["/a/y".to_string(), "/d".to_string()]);
    assert_eq!(groups.paths(2), &vec!["/c".to_string()]);
    assert_eq!(groups.path(0), "/a/x");
    assert_eq!(groups.path(1), "/a/y");
}

#[test]
fn a_path_met_twice_stands_once() {
    let groups = find_inode_groups(&found(&[(5, "/a"), (5, "/b"), (5, "/a"), (6, "/c"), (6, "/c")]));
    assert_eq!(groups.len(), 2);
    assert_eq!(groups.paths(0), &vec!["/a".to_string(), "/b".to_string()]);
    assert_eq!(groups.paths(1), &vec!["/c".to_string()]);
}

#[test]
fn inodes_are_found_again() {
    let groups = find_inode_groups(&found(&[(40, "/a"), (30, "/b"), (40, "/c")]));
    assert_eq!(groups.position(40), Some(0));
    assert_eq!(groups.position(30), Some(1));
    assert_eq!(groups.position(31), None);
}

#[test]
fn nothing_found_gives_no_groups() {
    let groups = find_inode_groups(&vec![]);
    assert_eq!(groups.len(), 0);
    assert!(groups.representatives().is_empty());
    assert_eq!(groups.position(0), None);
}

#[test]
fn linked_paths_are_one_file() {
    let groups = find_inode_groups(&found(&[(7, "/a"), (7, "/b"), (7, "/c")]));
    assert_eq!(groups.len(), 1);
    assert_eq!(groups.representatives(), vec![0]);
}
