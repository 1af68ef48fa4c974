use hardlink_dedup::discovery::find_inode_groups;
use hardlink_dedup::progress::DedupContext;

fn context(total: usize, processed: usize) -> DedupContext {
    DedupContext { dry_run: false, total, processed, bytes_deduped: 0 }
}

#[test]
fn context_starts_empty() {
    let groups = find_inode_groups(&vec![(7, "a".to_string()), (8, "b".to_string())]);
    let ctx = DedupContext::new(&groups, true);
    assert_eq!(ctx.total, 2);
    assert_eq!(ctx.processed, 0);
    assert_eq!(ctx.bytes_deduped, 0);
    assert!(ctx.dry_run);
    assert!(!DedupContext::new(&groups, false).dry_run);
}

#[test]
fn counters_only_count_up() {
    let mut ctx = context(5, 0);
    ctx.add_processed(2);
    ctx.add_processed(0);
    ctx.add_processed(3);
    assert_eq!(ctx.processed, 5);
    ctx.add_bytes(10);
    ctx.add_bytes(u64::MAX);
    assert_eq!(ctx.bytes_deduped, 10 + u64::MAX as u128);
    assert_eq!(ctx.total, 5);
}

#[test]
fn percentage_is_hundred_times_processed_over_total() {
    assert_eq!(context(0, 0).percent(), 10000);
    assert_eq!(context(4, 0).percent(), 0);
    assert_eq!(context(4, 1).percent(), 2500);
    assert_eq!(context(4, 2).percent(), 5000);
    assert_eq!(context(4, 4).percent(), 10000);
    assert_eq!(context(3, 1).percent(), 3333);
    assert_eq!(context(3, 2).percent(), 6667);
    assert_eq!(context(800, 1).percent(), 13);
    assert_eq!(context(7, 3).percent(), 4286);
    assert_eq!(context(usize::MAX, usize::MAX).percent(), 10000);
    assert_eq!(context(usize::MAX, usize::MAX - 1).percent(), 10000);
    assert_eq!(context(usize::MAX, 1).percent(), 0);
}
