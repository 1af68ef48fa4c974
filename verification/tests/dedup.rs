use hardlink_dedup::discovery::find_inode_groups;
use hardlink_dedup::engine::Engine;
use hardlink_dedup::grouping::FileMeta;
use hardlink_dedup::naming::temp_path;
use hardlink_dedup::protocol::{Event, Failure, Notice, Reason, Request, Stage, Stat};
use std::collections::BTreeMap;

/// What an inode of the disk below holds.
struct Node {
    content: Vec<u8>,
    uid: u32,
    gid: u32,
    mode: u32,
    readable: bool,
    stat_fails: bool,
    full_read_fails: bool,
}

/// A disk in memory: paths that point to inodes. It does what the engine
/// asks for and can be told to let single operations fail.
struct Disk {
    root: String,
    paths: BTreeMap<String, u64>,
    nodes: BTreeMap<u64, Node>,
    next_ino: u64,
    fail_link_beside: Vec<String>,
    fail_rename_onto: Vec<String>,
    fail_remove: bool,
    links_made: usize,
    names: Vec<String>,
}

fn beside(target: &str, name: &str) -> String {
    temp_path(target, name).unwrap()
}

impl Disk {
    fn new() -> Disk {
        Disk {
            root: "/tmp/.tmpA1b2C3".to_string(),
            paths: BTreeMap::new(),
            nodes: BTreeMap::new(),
            next_ino: 100,
            fail_link_beside: Vec::new(),
            fail_rename_onto: Vec::new(),
            fail_remove: false,
            links_made: 0,
            names: Vec::new(),
        }
    }

    fn tmp_file(&mut self, dir: &str, file_name: &str, contents: &str) -> String {
        let path = format!("{}/{}/{}", self.root, dir, file_name);
        let ino = self.next_ino;
        self.next_ino += 1;
        self.nodes.insert(
            ino,
            Node {
                content: contents.as_bytes().to_vec(),
                uid: 1000,
                gid: 1000,
                mode: 0o100644,
                readable: true,
                stat_fails: false,
                full_read_fails: false,
            },
        );
        self.paths.insert(path.clone(), ino);
        path
    }

    fn link(&mut self, original: &str, dir: &str, file_name: &str) -> String {
        let path = format!("{}/{}/{}", self.root, dir, file_name);
        let ino = self.paths[original];
        self.paths.insert(path.clone(), ino);
        path
    }

    fn node(&mut self, path: &str) -> &mut Node {
        let ino = self.paths[path];
        self.nodes.get_mut(&ino).unwrap()
    }

    fn same(&self, file1: &str, file2: &str) -> bool {
        self.paths[file1] == self.paths[file2]
    }

    fn walk(&self, roots: &[String]) -> Vec<(u64, String)> {
        let mut found = Vec::new();
        for root in roots {
            for (path, ino) in &self.paths {
                let inside = path.len() > root.len()
                    && path.starts_with(root.as_str())
                    && path.as_bytes()[root.len()] == b'/';
                if path == root || inside {
                    found.push((*ino, path.clone()));
                }
            }
        }
        found
    }

    fn metadata(&self, path: &str) -> Result<FileMeta, String> {
        match self.paths.get(path) {
            Some(ino) => {
                let node = &self.nodes[ino];
                if node.stat_fails {
                    return Err("stale handle".to_string());
                }
                Ok(FileMeta {
                    size: node.content.len() as u64,
                    uid: node.uid,
                    gid: node.gid,
                    mode: node.mode,
                })
            }
            None => Err("no such file".to_string()),
        }
    }

    fn read(&self, path: &str, limit: Option<usize>) -> Result<Vec<u8>, String> {
        match self.paths.get(path) {
            Some(ino) => {
                let node = &self.nodes[ino];
                if !node.readable {
                    return Err("permission denied".to_string());
                }
                if node.full_read_fails && limit.is_none() {
                    return Err("input/output error".to_string());
                }
                match limit {
                    Some(limit) if node.content.len() > limit => Ok(node.content[..limit].to_vec()),
                    _ => Ok(node.content.clone()),
                }
            }
            None => Err("no such file".to_string()),
        }
    }

    fn answer(&mut self, request: Request) -> Option<Event> {
        Some(match request {
            Request::Continue => Event::Proceed,
            Request::Done => return None,
            Request::ReadMetadata { paths } => {
                Event::Metadata(paths.iter().map(|path| self.metadata(path)).collect())
            }
            Request::ReadPrefixes { paths } => {
                Event::Bytes(paths.iter().map(|path| self.read(path, Some(64))).collect())
            }
            Request::ReadContents { paths } => {
                Event::Bytes(paths.iter().map(|path| self.read(path, None)).collect())
            }
            Request::Stat { path } => Event::Stat(match self.paths.get(&path) {
                Some(ino) => Some(Stat { ino: *ino, size: self.nodes[ino].content.len() as u64 }),
                None => None,
            }),
            Request::HardLink { original, target, name } => {
                self.names.push(name.clone());
                if self.fail_link_beside.contains(&target) {
                    Event::Outcome(Err("link refused".to_string()))
                } else {
                    let ino = self.paths[&original];
                    self.paths.insert(beside(&target, &name), ino);
                    self.links_made += 1;
                    Event::Outcome(Ok(()))
                }
            }
            Request::Rename { name, target } => {
                if self.fail_rename_onto.contains(&target) {
                    Event::Outcome(Err("rename refused".to_string()))
                } else {
                    let ino = self.paths.remove(&beside(&target, &name)).unwrap();
                    self.paths.insert(target, ino);
                    Event::Outcome(Ok(()))
                }
            }
            Request::Remove { name, target } => {
                if self.fail_remove {
                    Event::Outcome(Err("remove refused".to_string()))
                } else {
                    self.paths.remove(&beside(&target, &name)).unwrap();
                    Event::Outcome(Ok(()))
                }
            }
        })
    }
}

/// Runs the engine on `disk` to the end, as the command line would: `args`
/// are the paths to scan, and the flags before them. Returns all that the
/// engine reported.
fn dedup(disk: &mut Disk, args: &[&str]) -> Vec<Notice> {
    let dry_run = args.contains(&"--dry-run");
    let paranoid = args.contains(&"--paranoid");
    let roots: Vec<String> =
        args.iter().filter(|arg| !arg.starts_with("--")).map(|arg| arg.to_string()).collect();
    let mut engine = hardlink_dedup::dedup(&disk.walk(&roots), dry_run, paranoid);
    let mut notices = Vec::new();
    let mut event = Event::Proceed;
    loop {
        assert!(engine.accepts(&event));
        notices.extend(engine.step(event));
        match disk.answer(engine.request()) {
            Some(next) => event = next,
            None => break,
        }
    }
    assert!(engine.is_finished());
    let ctx = engine.progress();
    assert!(ctx.processed <= ctx.total);
    assert_eq!(ctx.dry_run, dry_run);
    notices
}

fn count_excluded(notices: &[Notice], why: Reason) -> usize {
    notices
        .iter()
        .filter(|notice| matches!(notice, Notice::Excluding { reason, .. } if *reason == why))
        .count()
}

fn saved(notices: &[Notice]) -> u128 {
    match notices.last() {
        Some(Notice::Saved { bytes }) => *bytes,
        other => panic!("the run did not end with its sum: {:?}", other),
    }
}

#[test]
fn no_dedup_different_size_files() {
    let mut disk = Disk::new();
    let file1 = disk.tmp_file("dir1", "file1", "contents 1");
    let file2 = disk.tmp_file("dir2", "file2", "smaller 2");

    dedup(&mut disk, &[&file1, &file2]);

    assert!(
        !disk.same(&file1, &file2),
        "Files {:?} and {:?} should stay different.",
        file1,
        file2,
    );
}

#[test]
fn no_dedup_different_files() {
    let mut disk = Disk::new();
    let file1 = disk.tmp_file("dir1", "file1", "contents 1");
    let file2 = disk.tmp_file("dir2", "file2", "contents 2");

    dedup(&mut disk, &[&file1, &file2]);

    assert!(
        !disk.same(&file1, &file2),
        "Files {:?} and {:?} should stay different.",
        file1,
        file2,
    );
}

#[test]
fn dedup_same_files() {
    let mut disk = Disk::new();
    let file1 = disk.tmp_file("dir1", "file1", "same contents");
    let file2 = disk.tmp_file("dir2", "file2", "same contents");

    dedup(&mut disk, &[&file1, &file2]);

    assert!(
        disk.same(&file1, &file2),
        "Files {:?} and {:?} should have been deduped.",
        file1,
        file2,
    );
}

#[test]
fn dedup_same_3_files() {
    let mut disk = Disk::new();
    let root = disk.root.clone();
    let file1 = disk.tmp_file("dir1", "file1", "same contents");
    let file2 = disk.tmp_file("dir2", "file2", "same contents");
    let file3 = disk.tmp_file("dir3", "file3", "same contents");

    dedup(&mut disk, &[&root]);

    assert!(
        disk.same(&file1, &file2),
        "Files {:?} and {:?} should have been deduped.",
        file1,
        file2,
    );

    assert!(
        disk.same(&file1, &file3),
        "Files {:?} and {:?} should have been deduped.",
        file1,
        file3,
    );
}

#[test]
fn dedup_by_prefix() {
    let mut disk = Disk::new();
    let root = disk.root.clone();
    let file1 = disk.tmp_file("dir1", "file1", "same size, same prefix, same content");
    let file2 = disk.tmp_file("dir2", "file2", "same size, same prefix, same content");
    let file3 = disk.tmp_file("dir3", "file3", "same size, but different prefix 1234");

    let notices = dedup(&mut disk, &[&root]);

    assert!(
        disk.same(&file1, &file2),
        "Files {:?} and {:?} should have been deduped.",
        file1,
        file2,
    );

    assert!(
        !disk.same(&file1, &file3),
        "Files {:?} and {:?} should not have been deduped.",
        file1,
        file3,
    );
    assert_eq!(count_excluded(&notices, Reason::UniquePrefix), 1);
}

#[test]
fn no_dedup_on_dry_run() {
    let mut disk = Disk::new();
    let file1 = disk.tmp_file("dir1", "file1", "same contents");
    let file2 = disk.tmp_file("dir2", "file2", "same contents");

    let notices = dedup(&mut disk, &["--dry-run", &file1, &file2]);

    assert!(
        !disk.same(&file1, &file2),
        "Files {:?} and {:?} should not been deduped.",
        file1,
        file2,
    );
    assert_eq!(disk.links_made, 0);
    assert_eq!(disk.paths.len(), 2);
    let would: Vec<&Notice> =
        notices.iter().filter(|notice| matches!(notice, Notice::WouldHardlink { .. })).collect();
    assert_eq!(would.len(), 1);
    match would[0] {
        Notice::WouldHardlink { status, original, target } => {
            assert!(status.dry_run);
            assert_eq!(original, &file1);
            assert_eq!(target, &file2);
        }
        _ => unreachable!(),
    }
}

#[test]
fn dedup_paranoid() {
    let mut disk = Disk::new();
    let root = disk.root.clone();
    let file1 = disk.tmp_file("dir1", "file1", "same contents");
    let file2 = disk.tmp_file("dir2", "file2", "same contents");
    let file3 = disk.tmp_file("dir3", "file3", "same contents");

    dedup(&mut disk, &["--paranoid", &root]);

    assert!(
        disk.same(&file1, &file2),
        "Files {:?} and {:?} should have been deduped.",
        file1,
        file2,
    );

    assert!(
        disk.same(&file1, &file3),
        "Files {:?} and {:?} should have been deduped.",
        file1,
        file3,
    );
}

#[test]
fn dedup_only_same_permissions() {
    let mut disk = Disk::new();
    let root = disk.root.clone();
    let file1 = disk.tmp_file("dir1", "file1", "same content");
    let file2 = disk.tmp_file("dir2", "file2", "same content");
    let old_file1_mode = disk.node(&file1).mode;
    disk.node(&file2).mode = 0o100750;

    let notices = dedup(&mut disk, &[&root]);

    assert_eq!(disk.node(&file2).mode, 0o100750);
    assert_eq!(disk.node(&file1).mode, old_file1_mode);
    assert!(!disk.same(&file1, &file2));
    assert_eq!(count_excluded(&notices, Reason::UniqueMetadata), 2);
}

#[test]
fn dedup_only_same_gid() {
    let mut disk = Disk::new();
    let root = disk.root.clone();
    let file1 = disk.tmp_file("dir1", "file1", "same content");
    let file2 = disk.tmp_file("dir2", "file2", "same content");
    let old_file1_gid = disk.node(&file1).gid;
    let new_gid = old_file1_gid + 1;
    disk.node(&file2).gid = new_gid;

    dedup(&mut disk, &[&root]);

    assert_eq!(disk.node(&file2).gid, new_gid);
    assert_eq!(disk.node(&file1).gid, old_file1_gid);
    assert!(!disk.same(&file1, &file2));
}

#[test]
fn replace_with_hardlink_same() {
    let mut disk = Disk::new();
    let file1 = disk.tmp_file("dir1", "file1", "same content");
    let file2 = disk.tmp_file("dir2", "file2", "same content");

    let notices = dedup(&mut disk, &[&file1, &file2]);

    let linked: Vec<&Notice> =
        notices.iter().filter(|notice| matches!(notice, Notice::Hardlinked { .. })).collect();
    assert_eq!(linked.len(), 1);
    match linked[0] {
        Notice::Hardlinked { original, target, .. } => {
            assert_eq!(original, &file1);
            assert_eq!(target, &file2);
        }
        _ => unreachable!(),
    }
    assert!(disk.same(&file1, &file2));
    assert_eq!(disk.paths.len(), 2);
}

#[test]
fn dedup_only_same_uid() {
    let mut disk = Disk::new();
    let root = disk.root.clone();
    let file1 = disk.tmp_file("dir1", "file1", "same content");
    let file2 = disk.tmp_file("dir2", "file2", "same content");
    disk.node(&file2).uid = 0;

    dedup(&mut disk, &[&root]);

    assert!(!disk.same(&file1, &file2));
}

#[test]
fn empty_run_reports_nothing_saved() {
    let mut disk = Disk::new();
    let notices = dedup(&mut disk, &[]);
    assert_eq!(notices, vec![Notice::Processing { total: 0 }, Notice::Saved { bytes: 0 }]);
}

#[test]
fn single_file_is_excluded_by_metadata() {
    let mut disk = Disk::new();
    let root = disk.root.clone();
    let file1 = disk.tmp_file("dir1", "file1", "alone");
    let notices = dedup(&mut disk, &[&root]);
    assert_eq!(notices.len(), 3);
    assert_eq!(notices[0], Notice::Processing { total: 1 });
    match &notices[1] {
        Notice::Excluding { status, path, reason } => {
            assert_eq!(status.processed, 1);
            assert_eq!(status.total, 1);
            assert_eq!(path, &file1);
            assert_eq!(*reason, Reason::UniqueMetadata);
        }
        other => panic!("unexpected notice {:?}", other),
    }
    assert_eq!(notices[2], Notice::Saved { bytes: 0 });
}

#[test]
fn run_counts_saved_bytes_once_per_replaced_file() {
    let mut disk = Disk::new();
    let root = disk.root.clone();
    let file1 = disk.tmp_file("a", "one", "thirteen byte");
    let file2 = disk.tmp_file("b", "two", "thirteen byte");
    let file2_again = disk.link(&file2, "b", "two-again");
    let file3 = disk.tmp_file("c", "three", "thirteen byte");

    let notices = dedup(&mut disk, &[&root]);

    assert!(disk.same(&file1, &file2));
    assert!(disk.same(&file1, &file2_again));
    assert!(disk.same(&file1, &file3));
    assert_eq!(saved(&notices), 26);
    let linked =
        notices.iter().filter(|notice| matches!(notice, Notice::Hardlinked { .. })).count();
    assert_eq!(linked, 3);
}

#[test]
fn second_run_links_nothing() {
    let mut disk = Disk::new();
    let root = disk.root.clone();
    disk.tmp_file("dir1", "file1", "same contents");
    disk.tmp_file("dir2", "file2", "same contents");
    disk.tmp_file("dir3", "file3", "same contents");

    dedup(&mut disk, &[&root]);
    let made = disk.links_made;
    assert_eq!(made, 2);
    let notices = dedup(&mut disk, &[&root]);

    assert_eq!(disk.links_made, made);
    assert_eq!(notices[0], Notice::Processing { total: 1 });
    assert_eq!(count_excluded(&notices, Reason::UniqueMetadata), 1);
    assert_eq!(saved(&notices), 0);
}

#[test]
fn hash_stage_separates_equal_prefixes() {
    let mut disk = Disk::new();
    let root = disk.root.clone();
    let prefix = "0123456789".repeat(7);
    let file1 = disk.tmp_file("1", "f", &format!("{}-tail A", prefix));
    let file2 = disk.tmp_file("2", "f", &format!("{}-tail A", prefix));
    let file3 = disk.tmp_file("3", "f", &format!("{}-tail B", prefix));
    let file4 = disk.tmp_file("4", "f", &format!("{}-tail A", prefix));

    let notices = dedup(&mut disk, &[&root]);

    assert!(disk.same(&file1, &file2));
    assert!(disk.same(&file1, &file4));
    assert!(!disk.same(&file1, &file3));
    assert_eq!(count_excluded(&notices, Reason::UniqueHash), 1);
}

#[test]
fn paranoid_run_compares_after_hashing() {
    let mut disk = Disk::new();
    let root = disk.root.clone();
    let prefix = "0123456789".repeat(7);
    let file1 = disk.tmp_file("1", "f", &format!("{}-tail A", prefix));
    let file2 = disk.tmp_file("2", "f", &format!("{}-tail A", prefix));
    let file3 = disk.tmp_file("3", "f", &format!("{}-tail A", prefix));

    let found = disk.walk(&[root.clone()]);
    let mut engine = Engine::new(find_inode_groups(&found), false, true);
    let mut asked = Vec::new();
    let mut event = Event::Proceed;
    loop {
        assert!(engine.accepts(&event));
        engine.step(event);
        let request = engine.request();
        match &request {
            Request::ReadMetadata { .. } => asked.push("metadata"),
            Request::ReadPrefixes { .. } => asked.push("prefixes"),
            Request::ReadContents { .. } => asked.push("contents"),
            Request::HardLink { .. } => asked.push("link"),
            _ => {}
        }
        match disk.answer(request) {
            Some(next) => event = next,
            None => break,
        }
    }
    assert_eq!(asked, vec!["metadata", "prefixes", "contents", "contents", "link", "link"]);
    assert!(disk.same(&file1, &file2));
    assert!(disk.same(&file1, &file3));
}

#[test]
fn trusting_run_links_after_hashing() {
    let mut disk = Disk::new();
    let root = disk.root.clone();
    let prefix = "0123456789".repeat(7);
    disk.tmp_file("1", "f", &format!("{}-tail A", prefix));
    disk.tmp_file("2", "f", &format!("{}-tail A", prefix));
    disk.tmp_file("3", "f", &format!("{}-tail A", prefix));

    let found = disk.walk(&[root.clone()]);
    let mut engine = Engine::new(find_inode_groups(&found), false, false);
    let mut reads = 0;
    let mut event = Event::Proceed;
    loop {
        engine.step(event);
        let request = engine.request();
        if matches!(request, Request::ReadContents { .. }) {
            reads += 1;
        }
        match disk.answer(request) {
            Some(next) => event = next,
            None => break,
        }
    }
    assert_eq!(reads, 1);
}

#[test]
fn unreadable_file_is_warned_of_and_dropped() {
    let mut disk = Disk::new();
    let root = disk.root.clone();
    let file1 = disk.tmp_file("1", "f", "same contents");
    let file2 = disk.tmp_file("2", "f", "same contents");
    let file3 = disk.tmp_file("3", "f", "same contents");
    disk.node(&file2).readable = false;

    let notices = dedup(&mut disk, &[&root]);

    assert!(notices.contains(&Notice::Unreadable {
        stage: Stage::Prefix,
        path: file2.clone(),
        error: "permission denied".to_string(),
    }));
    assert!(disk.same(&file1, &file3));
    assert!(!disk.same(&file1, &file2));
}

#[test]
fn unreadable_file_of_a_pair_is_left_alone() {
    let mut disk = Disk::new();
    let root = disk.root.clone();
    let file1 = disk.tmp_file("1", "f", "same contents");
    let file2 = disk.tmp_file("2", "f", "same contents");
    disk.node(&file1).readable = false;

    let notices = dedup(&mut disk, &[&root]);

    assert!(notices.contains(&Notice::Unreadable {
        stage: Stage::Content,
        path: file1.clone(),
        error: "permission denied".to_string(),
    }));
    assert!(!disk.same(&file1, &file2));
    assert_eq!(count_excluded(&notices, Reason::UniqueContents), 2);
}

#[test]
fn failed_link_leaves_target_untouched() {
    let mut disk = Disk::new();
    let root = disk.root.clone();
    let file1 = disk.tmp_file("1", "f", "same contents");
    let file2 = disk.tmp_file("2", "f", "same contents");
    disk.fail_link_beside.push(file2.clone());

    let notices = dedup(&mut disk, &[&root]);

    assert!(!disk.same(&file1, &file2));
    assert_eq!(disk.paths.len(), 2);
    let failed: Vec<&Notice> =
        notices.iter().filter(|notice| matches!(notice, Notice::LinkFailed { .. })).collect();
    assert_eq!(failed.len(), 1);
    match failed[0] {
        Notice::LinkFailed { original, target, name, failure } => {
            assert_eq!(original, &file1);
            assert_eq!(target, &file2);
            assert_eq!(name, &disk.names[0]);
            assert_eq!(failure, &Failure::Link { error: "link refused".to_string() });
        }
        _ => unreachable!(),
    }
    assert_eq!(saved(&notices), 0);
}

#[test]
fn failed_rename_removes_the_temporary_link() {
    let mut disk = Disk::new();
    let root = disk.root.clone();
    let file1 = disk.tmp_file("1", "f", "same contents");
    let file2 = disk.tmp_file("2", "f", "same contents");
    disk.fail_rename_onto.push(file2.clone());

    let notices = dedup(&mut disk, &[&root]);

    assert!(!disk.same(&file1, &file2));
    assert_eq!(disk.paths.len(), 2);
    assert!(notices.iter().any(|notice| matches!(
        notice,
        Notice::LinkFailed { failure: Failure::Rename { error }, .. } if error == "rename refused"
    )));
    assert_eq!(saved(&notices), 0);
}

#[test]
fn failed_cleanup_names_both_failures() {
    let mut disk = Disk::new();
    let root = disk.root.clone();
    let file1 = disk.tmp_file("1", "f", "same contents");
    let file2 = disk.tmp_file("2", "f", "same contents");
    disk.fail_rename_onto.push(file2.clone());
    disk.fail_remove = true;

    let notices = dedup(&mut disk, &[&root]);

    assert!(!disk.same(&file1, &file2));
    assert_eq!(disk.paths.len(), 3);
    assert!(notices.iter().any(|notice| matches!(
        notice,
        Notice::LinkFailed { failure: Failure::RenameAndRemove { error, cleanup }, .. }
            if error == "rename refused" && cleanup == "remove refused"
    )));
    assert_eq!(saved(&notices), 0);
}

#[test]
fn failure_of_one_target_does_not_stop_the_others() {
    let mut disk = Disk::new();
    let root = disk.root.clone();
    let file1 = disk.tmp_file("1", "f", "same contents");
    let file2 = disk.tmp_file("2", "f", "same contents");
    let file3 = disk.tmp_file("3", "f", "same contents");
    disk.fail_link_beside.push(file2.clone());

    let notices = dedup(&mut disk, &[&root]);

    assert!(!disk.same(&file1, &file2));
    assert!(disk.same(&file1, &file3));
    assert_eq!(saved(&notices), 13);
}

#[test]
fn temporary_names_are_fresh_and_well_formed() {
    let mut disk = Disk::new();
    let root = disk.root.clone();
    disk.tmp_file("1", "f", "same contents");
    disk.tmp_file("2", "f", "same contents");
    disk.tmp_file("3", "f", "same contents");

    dedup(&mut disk, &[&root]);

    assert_eq!(disk.names.len(), 2);
    assert_ne!(disk.names[0], disk.names[1]);
    for name in &disk.names {
        assert_eq!(name.len(), 36);
        for (at, c) in name.chars().enumerate() {
            if at == 8 || at == 13 || at == 18 || at == 23 {
                assert_eq!(c, '-');
            } else {
                assert!(c.is_ascii_digit() || ('a'..='f').contains(&c));
            }
        }
    }
}

#[test]
fn progress_advances_with_each_exclusion() {
    let mut disk = Disk::new();
    let root = disk.root.clone();
    disk.tmp_file("1", "f", "a");
    disk.tmp_file("2", "f", "bb");
    disk.tmp_file("3", "f", "ccc");

    let notices = dedup(&mut disk, &[&root]);

    let seen: Vec<usize> = notices
        .iter()
        .filter_map(|notice| match notice {
            Notice::Excluding { status, .. } => Some(status.processed),
            _ => None,
        })
        .collect();
    assert_eq!(seen, vec![1, 2, 3]);
}

#[test]
fn engine_refuses_answers_it_did_not_ask_for() {
    let mut disk = Disk::new();
    let root = disk.root.clone();
    disk.tmp_file("1", "f", "same contents");
    disk.tmp_file("2", "f", "same contents");
    let found = disk.walk(&[root.clone()]);
    let mut engine = Engine::new(find_inode_groups(&found), false, false);
    engine.step(Event::Proceed);
    engine.step(Event::Proceed);
    assert!(matches!(engine.request(), Request::ReadMetadata { .. }));
    assert!(!engine.accepts(&Event::Proceed));
    assert!(!engine.accepts(&Event::Metadata(vec![])));
    assert!(!engine.accepts(&Event::Bytes(vec![Ok(vec![]), Ok(vec![])])));
    let meta = FileMeta { size: 13, uid: 0, gid: 0, mode: 0o644 };
    assert!(engine.accepts(&Event::Metadata(vec![Ok(meta), Ok(meta)])));
}

#[test]
fn engine_refuses_an_inode_it_never_met() {
    let mut disk = Disk::new();
    let root = disk.root.clone();
    disk.tmp_file("1", "f", "same contents");
    disk.tmp_file("2", "f", "same contents");
    let found = disk.walk(&[root.clone()]);
    let mut engine = Engine::new(find_inode_groups(&found), false, false);
    let mut event = Event::Proceed;
    loop {
        engine.step(event);
        let request = engine.request();
        if matches!(request, Request::Stat { .. }) {
            break;
        }
        event = disk.answer(request).unwrap();
    }
    assert!(!engine.accepts(&Event::Stat(Some(Stat { ino: 1, size: 13 }))));
    assert!(engine.accepts(&Event::Stat(Some(Stat { ino: 101, size: 13 }))));
    assert!(engine.accepts(&Event::Stat(None)));
}

#[test]
fn file_that_vanished_before_linking_is_skipped() {
    let mut disk = Disk::new();
    let root = disk.root.clone();
    let file1 = disk.tmp_file("1", "f", "same contents");
    let file2 = disk.tmp_file("2", "f", "same contents");
    let found = disk.walk(&[root.clone()]);
    let mut engine = Engine::new(find_inode_groups(&found), false, false);
    let mut event = Event::Proceed;
    let mut notices = Vec::new();
    loop {
        notices.extend(engine.step(event));
        let request = engine.request();
        if matches!(request, Request::Stat { .. }) {
            event = Event::Stat(None);
            continue;
        }
        match disk.answer(request) {
            Some(next) => event = next,
            None => break,
        }
    }
    assert!(!disk.same(&file1, &file2));
    assert_eq!(engine.progress().processed, 2);
    assert_eq!(saved(&notices), 0);
}

#[test]
fn file_without_metadata_is_warned_of_and_dropped() {
    let mut disk = Disk::new();
    let root = disk.root.clone();
    let file1 = disk.tmp_file("1", "f", "same contents");
    let file2 = disk.tmp_file("2", "f", "same contents");
    let file3 = disk.tmp_file("3", "f", "same contents");
    disk.node(&file3).stat_fails = true;

    let notices = dedup(&mut disk, &[&root]);

    assert_eq!(
        notices[1],
        Notice::Unreadable {
            stage: Stage::Metadata,
            path: file3.clone(),
            error: "stale handle".to_string(),
        }
    );
    assert!(disk.same(&file1, &file2));
    assert!(!disk.same(&file1, &file3));
    assert_eq!(count_excluded(&notices, Reason::UniqueMetadata), 0);
}

#[test]
fn file_that_cannot_be_hashed_is_warned_of_and_dropped() {
    let mut disk = Disk::new();
    let root = disk.root.clone();
    let file1 = disk.tmp_file("1", "f", "same contents");
    let file2 = disk.tmp_file("2", "f", "same contents");
    let file3 = disk.tmp_file("3", "f", "same contents");
    let file4 = disk.tmp_file("4", "f", "same contents");
    disk.node(&file2).full_read_fails = true;

    let notices = dedup(&mut disk, &[&root]);

    assert!(notices.contains(&Notice::Unreadable {
        stage: Stage::Hash,
        path: file2.clone(),
        error: "input/output error".to_string(),
    }));
    assert!(disk.same(&file1, &file3));
    assert!(disk.same(&file1, &file4));
    assert!(!disk.same(&file1, &file2));
}

#[test]
fn dry_run_estimates_what_would_be_saved() {
    let mut disk = Disk::new();
    let root = disk.root.clone();
    disk.tmp_file("1", "f", "same contents");
    disk.tmp_file("2", "f", "same contents");
    disk.tmp_file("3", "f", "same contents");

    let notices = dedup(&mut disk, &["--dry-run", &root]);

    assert_eq!(saved(&notices), 26);
    assert_eq!(disk.links_made, 0);
    assert!(disk.names.is_empty());
    let would =
        notices.iter().filter(|notice| matches!(notice, Notice::WouldHardlink { .. })).count();
    assert_eq!(would, 2);
}

#[test]
fn overlapping_roots_meet_each_file_once() {
    let mut disk = Disk::new();
    let root = disk.root.clone();
    let file1 = disk.tmp_file("dir1", "file1", "same contents");
    let file2 = disk.tmp_file("dir2", "file2", "same contents");

    let notices = dedup(&mut disk, &[&root, &file1, &root]);

    assert_eq!(notices[0], Notice::Processing { total: 2 });
    assert!(disk.same(&file1, &file2));
    assert_eq!(disk.links_made, 1);
}

#[test]
fn file_with_a_path_left_unlinked_saves_nothing() {
    let mut disk = Disk::new();
    let root = disk.root.clone();
    let file1 = disk.tmp_file("a", "one", "thirteen byte");
    let file2 = disk.tmp_file("b", "two", "thirteen byte");
    let file2_again = disk.link(&file2, "b", "two-again");
    let file3 = disk.tmp_file("c", "three", "thirteen byte");
    disk.fail_link_beside.push(file2_again.clone());

    let notices = dedup(&mut disk, &[&root]);

    assert!(disk.same(&file1, &file2));
    assert!(!disk.same(&file1, &file2_again));
    assert!(disk.same(&file1, &file3));
    assert_eq!(saved(&notices), 13);
    let linked =
        notices.iter().filter(|notice| matches!(notice, Notice::Hardlinked { .. })).count();
    assert_eq!(linked, 2);
    let failed =
        notices.iter().filter(|notice| matches!(notice, Notice::LinkFailed { .. })).count();
    assert_eq!(failed, 1);
}

#[test]
fn failure_on_the_first_path_is_not_made_good_by_the_second() {
    let mut disk = Disk::new();
    let root = disk.root.clone();
    let file1 = disk.tmp_file("a", "one", "thirteen byte");
    let file2 = disk.tmp_file("b", "two", "thirteen byte");
    let file2_again = disk.link(&file2, "b", "two-again");
    disk.fail_rename_onto.push(file2.clone());

    let notices = dedup(&mut disk, &[&root]);

    assert!(!disk.same(&file1, &file2));
    assert!(disk.same(&file1, &file2_again));
    assert_eq!(saved(&notices), 0);
}
