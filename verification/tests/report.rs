use hardlink_dedup::progress::DedupContext;
use hardlink_dedup::protocol::{Failure, Notice, Reason, Stage};

fn context(dry_run: bool, total: usize, processed: usize, bytes_deduped: u128) -> DedupContext {
    DedupContext { dry_run, total, processed, bytes_deduped }
}

#[test]
fn status_shows_percentage_mode_and_bytes() {
    assert_eq!(context(false, 0, 0, 0).status(), "100.00%; 0 bytes deduped");
    assert_eq!(context(false, 4, 1, 13).status(), "25.00%; 13 bytes deduped");
    assert_eq!(context(true, 3, 1, 120).status(), "33.33%; dry run; 120 bytes deduped");
    assert_eq!(context(true, 3, 2, 0).status(), "66.67%; dry run; 0 bytes deduped");
    assert_eq!(context(false, 200, 1, 0).status(), "0.50%; 0 bytes deduped");
    assert_eq!(context(false, 100, 7, 0).status(), "7.00%; 0 bytes deduped");
    assert_eq!(context(false, 10000, 909, 0).status(), "9.09%; 0 bytes deduped");
    assert_eq!(
        context(false, 1, 1, u128::MAX).status(),
        "100.00%; 340282366920938463463374607431768211455 bytes deduped"
    );
}

#[test]
fn progress_lines_are_worded_as_the_log_has_them() {
    assert_eq!(Notice::Processing { total: 12 }.line(), "Processing 12 files.");
    assert_eq!(Notice::Saved { bytes: 1005 }.line(), "Estimated saved bytes: 1005.");
    let status = context(false, 2, 1, 0);
    assert_eq!(
        Notice::Excluding {
            status,
            path: "/tmp/a".to_string(),
            reason: Reason::UniqueMetadata
        }
        .line(),
        "[50.00%; 0 bytes deduped] Excluding \"/tmp/a\" from deduplication. It has unique size, uid, gid, or mode."
    );
    assert_eq!(
        Notice::Excluding { status, path: "b".to_string(), reason: Reason::UniquePrefix }.line(),
        "[50.00%; 0 bytes deduped] Excluding \"b\" from deduplication. It has a unique prefix."
    );
    assert_eq!(
        Notice::Excluding { status, path: "b".to_string(), reason: Reason::UniqueHash }.line(),
        "[50.00%; 0 bytes deduped] Excluding \"b\" from deduplication. It has a unique hash."
    );
    assert_eq!(
        Notice::Excluding { status, path: "b".to_string(), reason: Reason::UniqueContents }.line(),
        "[50.00%; 0 bytes deduped] Excluding \"b\" from deduplication. It has unique contents."
    );
    assert_eq!(
        Notice::Hardlinked { status, original: "/a/x".to_string(), target: "/b/y".to_string() }
            .line(),
        "[50.00%; 0 bytes deduped] Hardlinked \"/a/x\" to \"/b/y\"."
    );
    assert_eq!(
        Notice::WouldHardlink {
            status: context(true, 2, 2, 7),
            original: "/a/x".to_string(),
            target: "/b/y".to_string()
        }
        .line(),
        "[100.00%; dry run; 7 bytes deduped] Would hardlink \"/a/x\" to \"/b/y\"."
    );
}

#[test]
fn paths_are_quoted_and_escaped() {
    let line = Notice::Unreadable {
        stage: Stage::Metadata,
        path: "/tmp/with \"quotes\"\n".to_string(),
        error: "denied".to_string(),
    }
    .line();
    assert_eq!(
        line,
        "Skipping file \"/tmp/with \\\"quotes\\\"\\n\". Failed to fetch its metadata. Error: denied"
    );
}

#[test]
fn warnings_name_path_and_error() {
    let unreadable = |stage| {
        Notice::Unreadable { stage, path: "p".to_string(), error: "E".to_string() }.line()
    };
    assert_eq!(
        unreadable(Stage::Prefix),
        "Skipping file \"p\". Failed to read its first few bytes. Error: E"
    );
    assert_eq!(
        unreadable(Stage::Hash),
        "Skipping file \"p\". Failed to calculate its hash. Error: E"
    );
    assert_eq!(
        unreadable(Stage::Content),
        "Skipping file \"p\". Failed to read its contents. Error: E"
    );
    let failed = |failure| {
        Notice::LinkFailed {
            original: "o".to_string(),
            target: "d/t".to_string(),
            name: "n".to_string(),
            failure,
        }
        .line()
    };
    assert_eq!(
        failed(Failure::Link { error: "E1".to_string() }),
        "Failed to hardlink \"o\" to \"d/t\". Error: Failed to create temporary hardlink of \"o\" at \"d/n\". Error: E1"
    );
    assert_eq!(
        failed(Failure::Rename { error: "E2".to_string() }),
        "Failed to hardlink \"o\" to \"d/t\". Error: Failed to replace target file \"d/t\" with temporary hardlink \"d/n\". Error: E2"
    );
    assert_eq!(
        failed(Failure::RenameAndRemove { error: "E2".to_string(), cleanup: "E3".to_string() }),
        "Failed to hardlink \"o\" to \"d/t\". Error: After error 'Failed to replace target file \"d/t\" with temporary hardlink \"d/n\". Error: E2' also failed to delete temporary file \"d/n\" with error: E3"
    );
}

#[test]
fn warnings_are_told_from_progress() {
    let status = context(false, 1, 1, 0);
    assert!(!Notice::Processing { total: 1 }.is_warning());
    assert!(!Notice::Saved { bytes: 1 }.is_warning());
    assert!(!Notice::Excluding { status, path: String::new(), reason: Reason::UniqueHash }
        .is_warning());
    assert!(!Notice::Hardlinked { status, original: String::new(), target: String::new() }
        .is_warning());
    assert!(!Notice::WouldHardlink { status, original: String::new(), target: String::new() }
        .is_warning());
    assert!(Notice::Unreadable { stage: Stage::Hash, path: String::new(), error: String::new() }
        .is_warning());
    assert!(Notice::LinkFailed {
        original: String::new(),
        target: String::new(),
        name: String::new(),
        failure: Failure::Link { error: String::new() },
    }
    .is_warning());
}
