use hardlink_dedup::cascade::{
    prefix_key, same_hash_groups, same_metadata_groups, same_prefix_groups, PREFIX_LEN,
};
use hardlink_dedup::content::{are_files_same, find_equal_files, same_content_groups, CHUNK_LEN};
use hardlink_dedup::grouping::{group_by, same_key, FileId, FileMeta, GroupKey};
use hardlink_dedup::hashing::calculate_hash;

fn bytes_of(contents: &str) -> Option<Vec<u8>> {
    Some(contents.as_bytes().to_vec())
}

/// Files held in memory; each is named by the place at which it was made.
struct Files {
    contents: Vec<String>,
}

impl Files {
    fn new() -> Files {
        Files { contents: Vec::new() }
    }

    fn tmp_file(&mut self, _dir: &str, _file_name: &str, contents: &str) -> FileId {
        self.contents.push(contents.to_string());
        self.contents.len() - 1
    }

    fn metadata(&self, files: &[FileId]) -> Vec<(FileId, Option<FileMeta>)> {
        files
            .iter()
            .map(|file| {
                let size = self.contents[*file].len() as u64;
                (*file, Some(FileMeta { size, uid: 1000, gid: 1000, mode: 0o100644 }))
            })
            .collect()
    }

    fn read(&self, files: &[FileId]) -> Vec<(FileId, Option<Vec<u8>>)> {
        files.iter().map(|file| (*file, bytes_of(&self.contents[*file]))).collect()
    }
}

#[test]
fn same_size_group_empty() {
    let mut size_groups = same_metadata_groups(&vec![]).into_iter();
    assert_eq!(size_groups.next(), None);
}

#[test]
fn one_same_size() {
    let mut files = Files::new();
    let file1 = files.tmp_file("dir1", "file1", "contents 1");
    let mut size_groups = same_metadata_groups(&files.metadata(&[file1])).into_iter();
    assert_eq!(size_groups.next().unwrap(), vec![file1]);
    assert_eq!(size_groups.next(), None);
}

#[test]
fn two_same_size() {
    let mut files = Files::new();
    let file1 = files.tmp_file("dir1", "file1", "contents 1");
    let file2 = files.tmp_file("dir2", "file2", "contents 2");
    let mut size_groups = same_metadata_groups(&files.metadata(&[file1, file2])).into_iter();
    assert_eq!(size_groups.next().unwrap(), vec![file1, file2]);
    assert_eq!(size_groups.next(), None);
}

#[test]
fn two_same_size_one_different() {
    let mut files = Files::new();
    let file1 = files.tmp_file("dir1", "file1", "contents 1");
    let file2 = files.tmp_file("dir2", "file2", "contents 2");
    let smaller_file = files.tmp_file("dir3", "smaller_file", "smaller");
    let size_groups: Vec<Vec<FileId>> =
        same_metadata_groups(&files.metadata(&[file1, file2, smaller_file]));
    assert!(size_groups.contains(&vec![file1, file2]));
    assert!(size_groups.contains(&vec![smaller_file]));
    assert_eq!(size_groups.len(), 2);
}

#[test]
fn two_same_prefix_one_different() {
    let mut files = Files::new();
    let file1 = files.tmp_file("dir1", "file1", "same prefix");
    let file2 = files.tmp_file("dir2", "file2", "same prefix");
    let smaller_file = files.tmp_file("dir3", "smaller_file", "smaller");
    let prefix_groups: Vec<Vec<FileId>> =
        same_prefix_groups(&files.read(&[file1, file2, smaller_file]));
    assert!(prefix_groups.contains(&vec![file1, file2]));
    assert!(prefix_groups.contains(&vec![smaller_file]));
    assert_eq!(prefix_groups.len(), 2);
}

#[test]
fn two_same_hash_one_different() {
    let mut files = Files::new();
    let file1 = files.tmp_file("dir1", "file1", "same content");
    let file2 = files.tmp_file("dir2", "file2", "same content");
    let smaller_file = files.tmp_file("dir3", "smaller_file", "smaller");
    let hash_groups: Vec<Vec<FileId>> =
        same_hash_groups(&files.read(&[file1, file2, smaller_file]));
    assert!(hash_groups.contains(&vec![file1, file2]));
    assert!(hash_groups.contains(&vec![smaller_file]));
    assert_eq!(hash_groups.len(), 2);
}

#[test]
fn two_same_content_one_different() {
    let mut files = Files::new();
    let file1 = files.tmp_file("dir1", "file1", "same content");
    let file2 = files.tmp_file("dir2", "file2", "same content");
    let smaller_file = files.tmp_file("dir3", "smaller_file", "smaller");
    let content_groups: Vec<Vec<FileId>> =
        same_content_groups(&files.read(&[file1, file2, smaller_file]));
    assert!(content_groups.contains(&vec![file1, file2]));
    assert!(content_groups.contains(&vec![smaller_file]));
    assert_eq!(content_groups.len(), 2);
}

#[test]
fn groups_come_in_order_of_first_occurrence() {
    let key = |n: u8| Some(GroupKey::Prefix(vec![n]));
    let groups = group_by(&vec![(5, key(2)), (3, key(1)), (9, key(2)), (1, key(3)), (4, key(1))]);
    assert_eq!(groups, vec![vec![5, 9], vec![3, 4], vec![1]]);
}

#[test]
fn files_without_key_are_left_out() {
    let key = |n: u8| Some(GroupKey::Hash(vec![n]));
    let groups = group_by(&vec![(0, None), (1, key(1)), (2, None), (3, key(1))]);
    assert_eq!(groups, vec![vec![1, 3]]);
    assert!(group_by(&vec![(0, None)]).is_empty());
}

#[test]
fn a_file_stands_once_in_its_group() {
    let key = |n: u8| Some(GroupKey::Hash(vec![n]));
    let groups = group_by(&vec![(7, key(1)), (7, key(1)), (8, key(1)), (7, key(2))]);
    assert_eq!(groups, vec![vec![7, 8], vec![7]]);
}

#[test]
fn keys_of_different_stages_never_agree() {
    let meta = FileMeta { size: 1, uid: 2, gid: 3, mode: 4 };
    assert!(same_key(&GroupKey::Metadata(meta), &GroupKey::Metadata(meta)));
    assert!(!same_key(
        &GroupKey::Metadata(meta),
        &GroupKey::Metadata(FileMeta { mode: 5, ..meta })
    ));
    assert!(!same_key(&GroupKey::Prefix(vec![1, 2]), &GroupKey::Hash(vec![1, 2])));
    assert!(same_key(&GroupKey::Prefix(vec![1, 2]), &GroupKey::Prefix(vec![1, 2])));
    assert!(!same_key(&GroupKey::Prefix(vec![1, 2]), &GroupKey::Prefix(vec![1, 2, 3])));
    assert!(!same_key(&GroupKey::Hash(vec![1, 2]), &GroupKey::Hash(vec![1, 3])));
}

#[test]
fn each_part_of_the_metadata_separates() {
    let meta = FileMeta { size: 10, uid: 1, gid: 2, mode: 0o644 };
    let files = vec![
        (0, Some(meta)),
        (1, Some(FileMeta { size: 11, ..meta })),
        (2, Some(FileMeta { uid: 9, ..meta })),
        (3, Some(FileMeta { gid: 9, ..meta })),
        (4, Some(FileMeta { mode: 0o600, ..meta })),
        (5, Some(meta)),
        (6, None),
    ];
    assert_eq!(
        same_metadata_groups(&files),
        vec![vec![0, 5], vec![1], vec![2], vec![3], vec![4]]
    );
}

#[test]
fn prefix_key_is_at_most_the_prefix_length() {
    assert_eq!(PREFIX_LEN, 64);
    assert_eq!(prefix_key(&vec![]), Vec::<u8>::new());
    assert_eq!(prefix_key(&vec![1, 2, 3]), vec![1, 2, 3]);
    let long: Vec<u8> = (0..100).collect();
    assert_eq!(prefix_key(&long), (0..64).collect::<Vec<u8>>());
    let exact: Vec<u8> = (0..64).collect();
    assert_eq!(prefix_key(&exact), exact);
}

#[test]
fn prefix_groups_look_at_the_first_bytes_only() {
    let head = "x".repeat(64);
    let groups = same_prefix_groups(&vec![
        (0, bytes_of(&format!("{}tail one", head))),
        (1, bytes_of(&format!("{}tail two", head))),
        (2, bytes_of(&format!("y{}", head))),
        (3, None),
        (4, bytes_of("")),
        (5, bytes_of("")),
    ]);
    assert_eq!(groups, vec![vec![0, 1], vec![2], vec![4, 5]]);
}

#[test]
fn hash_is_sha_256() {
    let digest = calculate_hash(b"abc");
    let expected: [u8; 32] = [
        0xba, 0x78, 0x16, 0xbf, 0x8f, 0x01, 0xcf, 0xea, 0x41, 0x41, 0x40, 0xde, 0x5d, 0xae, 0x22,
        0x23, 0xb0, 0x03, 0x61, 0xa3, 0x96, 0x17, 0x7a, 0x9c, 0xb4, 0x10, 0xff, 0x61, 0xf2, 0x00,
        0x15, 0xad,
    ];
    assert_eq!(digest, expected.to_vec());
    let empty = calculate_hash(b"");
    assert_eq!(empty.len(), 32);
    assert_eq!(&empty[..4], &[0xe3, 0xb0, 0xc4, 0x42]);
}

#[test]
fn hash_groups_tell_long_files_apart() {
    let head = "x".repeat(64);
    let groups = same_hash_groups(&vec![
        (0, bytes_of(&format!("{}tail one", head))),
        (1, bytes_of(&format!("{}tail two", head))),
        (2, bytes_of(&format!("{}tail one", head))),
        (3, None),
    ]);
    assert_eq!(groups, vec![vec![0, 2], vec![1]]);
}

#[test]
fn comparison_is_exact_across_chunks() {
    assert_eq!(CHUNK_LEN, 4096);
    assert!(are_files_same(b"", b""));
    assert!(!are_files_same(b"", b"a"));
    assert!(!are_files_same(b"a", b""));
    assert!(are_files_same(b"abc", b"abc"));
    assert!(!are_files_same(b"abc", b"abd"));
    for len in [4095usize, 4096, 4097, 8192, 8193, 12000] {
        let one: Vec<u8> = (0..len).map(|i| (i % 251) as u8).collect();
        let mut other = one.clone();
        assert!(are_files_same(&one, &other));
        other[len - 1] ^= 1;
        assert!(!are_files_same(&one, &other));
        other[len - 1] ^= 1;
        other[0] ^= 1;
        assert!(!are_files_same(&one, &other));
        other[0] ^= 1;
        other.push(0);
        assert!(!are_files_same(&one, &other));
        assert!(!are_files_same(&other, &one));
    }
}

#[test]
fn equal_files_are_found_in_order() {
    let pivot = bytes_of("same");
    let a = bytes_of("same");
    let b = bytes_of("other");
    let c = bytes_of("same");
    let unread: Option<Vec<u8>> = None;
    let others = vec![(4, &a), (2, &b), (9, &c), (1, &unread)];
    assert_eq!(find_equal_files(&pivot, &others), vec![4, 9]);
    assert_eq!(find_equal_files(&unread, &others), Vec::<FileId>::new());
    assert_eq!(find_equal_files(&pivot, &vec![]), Vec::<FileId>::new());
}

#[test]
fn content_groups_are_classes_of_equal_content() {
    let groups = same_content_groups(&vec![
        (0, bytes_of("b")),
        (1, bytes_of("a")),
        (2, None),
        (3, bytes_of("b")),
        (4, bytes_of("a")),
        (5, None),
        (6, bytes_of("c")),
        (7, bytes_of("b")),
    ]);
    assert_eq!(groups, vec![vec![0, 3, 7], vec![1, 4], vec![2], vec![5], vec![6]]);
    assert!(same_content_groups(&vec![]).is_empty());
}

#[test]
fn content_classes_hold_each_file_once() {
    let files = vec![
        (10, bytes_of("x")),
        (11, None),
        (12, bytes_of("y")),
        (13, bytes_of("x")),
        (14, bytes_of("")),
        (15, bytes_of("y")),
        (16, None),
        (17, bytes_of("")),
    ];
    let groups = same_content_groups(&files);
    assert_eq!(groups.iter().map(|group| group.len()).sum::<usize>(), files.len());
    for (file, _) in &files {
        assert_eq!(groups.iter().filter(|group| group.contains(file)).count(), 1);
    }
    for group in &groups {
        for file in group {
            assert_eq!(group.iter().filter(|other| *other == file).count(), 1);
        }
    }
}
