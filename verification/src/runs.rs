//! Whole runs: the states that a sequence of steps leads through, and what
//! holds of every state on the way.

use crate::cascade::{hash_keyed, metadata_keyed, prefix_keyed, prefix_of};
use crate::content::{
    content_groups, distinct_files, lemma_class_lists_once, lemma_class_shares_content,
    lemma_same_content_same_class, same_content,
};
use crate::grouping::{
    grouped, keys_in_order, lemma_group_shares_key, lemma_grouped, lemma_same_key_same_group,
    FileId, FileMeta,
};
use crate::hashing::sha256;
use crate::machine::{
    initial, lemma_advance_keeps_wf, lemma_dry_run_changes_nothing, lemma_refined_splits,
    lemma_saved_only_when_replaced, paired, refined, stacked, values_of, verdict, EngineView, Phase,
    TaskView, Verdict,
};
use crate::naming::is_temp_name;
use crate::protocol::{EventView, NoticeView, RequestView, Stage};
use vstd::prelude::*;

verus! {

/// The state after the first `i` steps of a run that starts in `start`,
/// takes the events of `events` one by one, and has `names[k]` at hand as
/// the fresh name of step `k`.
pub open spec fn state_at(
    start: EngineView,
    events: Seq<EventView>,
    names: Seq<Seq<char>>,
    i: nat,
) -> EngineView
    decreases i,
{
    if i == 0 {
        start
    } else {
        state_at(start, events, names, (i - 1) as nat).advance(events[i - 1], names[i - 1]).0
    }
}

/// Whether the run is one that a driver can make: each event answers what
/// the state before it asked, and each name that is drawn is a fresh
/// temporary name.
pub open spec fn driven(start: EngineView, events: Seq<EventView>, names: Seq<Seq<char>>) -> bool {
    &&& names.len() == events.len()
    &&& forall|k: nat|
        k < events.len() ==> (#[trigger] state_at(start, events, names, k)).accepts(
            events[k as int],
        )
    &&& forall|k: nat|
        k < events.len() && (#[trigger] state_at(start, events, names, k)).draws_name()
            ==> is_temp_name(names[k as int])
}

/// Every state of a run is well formed.
pub proof fn lemma_run_keeps_wf(
    start: EngineView,
    events: Seq<EventView>,
    names: Seq<Seq<char>>,
    i: nat,
)
    requires
        start.wf(),
        driven(start, events, names),
        i <= events.len(),
    ensures
        state_at(start, events, names, i).wf(),
    decreases i,
{
    if i > 0 {
        let k = (i - 1) as nat;
        lemma_run_keeps_wf(start, events, names, k);
        lemma_advance_keeps_wf(state_at(start, events, names, k), events[k as int], names[k as int]);
    }
}

/// A dry run leaves the disk as it found it: from its first state to its
/// last, whatever the driver answers, the engine asks for no link, no
/// rename and no removal.
pub proof fn lemma_dry_run_never_changes_the_disk(
    start: EngineView,
    events: Seq<EventView>,
    names: Seq<Seq<char>>,
    i: nat,
)
    requires
        start.wf(),
        start.ctx.dry_run,
        driven(start, events, names),
        i <= events.len(),
    ensures
        state_at(start, events, names, i).ctx.dry_run,
        !state_at(start, events, names, i).request().mutates(),
    decreases i,
{
    lemma_run_keeps_wf(start, events, names, i);
    if i > 0 {
        let k = (i - 1) as nat;
        lemma_run_keeps_wf(start, events, names, k);
        lemma_dry_run_never_changes_the_disk(start, events, names, k);
        lemma_dry_run_changes_nothing(
            state_at(start, events, names, k),
            events[k as int],
            names[k as int],
        );
    }
    lemma_dry_run_changes_nothing(state_at(start, events, names, i), events[0], names[0]);
}

/// In a dry run every path of a file that would be replaced is reported
/// once, in the order of the paths, and that is all that happens to it.
/// When a state of the run takes up a replacement at the path `at`, then
/// `j` steps later the engine stands at the path `at + j`, with nothing
/// else changed, and its next step reports that path and no more.
pub proof fn lemma_dry_run_reports_each_path(
    start: EngineView,
    events: Seq<EventView>,
    names: Seq<Seq<char>>,
    k: nat,
    j: nat,
)
    requires
        start.wf(),
        start.ctx.dry_run,
        driven(start, events, names),
        k + j < events.len(),
        state_at(start, events, names, k).phase == Phase::Idle,
        state_at(start, events, names, k).tasks.len() > 0,
        state_at(start, events, names, k).tasks.last() is Replace,
        state_at(start, events, names, k).tasks.last()->Replace_next + j < state_at(
            start,
            events,
            names,
            k,
        ).links[state_at(start, events, names, k).tasks.last()->Replace_replaced as int].len(),
    ensures
        ({
            let first = state_at(start, events, names, k);
            let s = state_at(start, events, names, k + j);
            let original = first.tasks.last()->Replace_original;
            let replaced = first.tasks.last()->Replace_replaced;
            let at = first.tasks.last()->Replace_next;
            &&& s.phase == Phase::Idle
            &&& s.ctx == first.ctx
            &&& s.links == first.links
            &&& s.tasks == first.tasks.drop_last().push(
                TaskView::Replace {
                    original,
                    replaced,
                    next: (at + j) as usize,
                    size: first.tasks.last()->Replace_size,
                    linked: first.tasks.last()->Replace_linked,
                },
            )
            &&& s.advance(events[(k + j) as int], names[(k + j) as int]).1 == seq![
                NoticeView::WouldHardlink {
                    status: first.ctx,
                    original: first.path(original),
                    target: first.links[replaced as int][at + j],
                },
            ]
        }),
    decreases j,
{
    let first = state_at(start, events, names, k);
    lemma_run_keeps_wf(start, events, names, k);
    lemma_dry_run_never_changes_the_disk(start, events, names, k);
    assert(first.task_wf(first.tasks[first.tasks.len() - 1]));
    if j == 0 {
        assert(first.tasks =~= first.tasks.drop_last().push(first.tasks.last()));
    } else {
        let before = state_at(start, events, names, (k + j - 1) as nat);
        lemma_dry_run_reports_each_path(start, events, names, k, (j - 1) as nat);
        assert(state_at(start, events, names, k + j) == before.advance(
            events[k + j - 1],
            names[k + j - 1],
        ).0);
        assert(before.tasks.drop_last() =~= first.tasks.drop_last());
    }
}

/// Whether the task on top of `s` is to replace the paths of `gone` by
/// links to `kept`. Every link that the engine asks for, reports as made
/// or, in a dry run, as one it would make, is for such a task.
pub open spec fn replacing(s: EngineView, kept: FileId, gone: FileId) -> bool {
    s.tasks.len() > 0 && (match s.tasks.last() {
        TaskView::Replace { original, replaced, .. } => original == kept && replaced == gone,
        _ => false,
    })
}

/// Whether `s` asks for a change on disk that serves to replace `target`,
/// a path of `gone`, by a link to the path of `kept`.
pub open spec fn asks_to_link(s: EngineView, kept: FileId, gone: FileId, target: Seq<char>) -> bool {
    &&& kept < s.links.len()
    &&& gone < s.links.len()
    &&& s.links[gone as int].contains(target)
    &&& match s.request() {
        RequestView::HardLink { original, target: onto, .. } => original == s.path(kept) && onto
            == target,
        RequestView::Rename { target: onto, .. } => onto == target,
        RequestView::Remove { target: onto, .. } => onto == target,
        _ => false,
    }
}

/// Whatever the engine asks to change on disk serves the replacement on
/// top: the link is to the path of the file kept, and link, rename and
/// removal are for a path of the file replaced.
pub proof fn lemma_changes_serve_the_replacement(s: EngineView)
    requires
        s.wf(),
        s.request().mutates(),
    ensures
        exists|kept: FileId, gone: FileId, target: Seq<char>|
            replacing(s, kept, gone) && #[trigger] asks_to_link(s, kept, gone, target),
{
    assert(s.task_wf(s.tasks[s.tasks.len() - 1]));
    match s.tasks.last() {
        TaskView::Replace { original, replaced, next, .. } => {
            let target = s.links[replaced as int][next as int];
            assert(asks_to_link(s, original, replaced, target));
        },
        _ => {},
    }
}

/// Whether `event` tells the metadata of the files asked about as
/// `meta_of` has it, and the inode of the file asked about as the scan
/// found it.
pub open spec fn tells_metadata(
    s: EngineView,
    event: EventView,
    meta_of: spec_fn(FileId) -> Option<FileMeta>,
) -> bool {
    match (s.phase, s.tasks.last(), event) {
        (Phase::Asked, TaskView::Group { stage: Stage::Found, files }, EventView::Metadata(answers)) => {
            forall|i: int|
                0 <= i < files.len() ==> #[trigger] values_of(answers)[i] == meta_of(files[i])
        },
        (Phase::AskedStat, TaskView::Link { others, .. }, EventView::Stat(Some(stat))) => stat.ino
            == s.inodes[others[0] as int],
        _ => true,
    }
}

/// Whether the files of `task` are of one kind: all have the same
/// metadata. A group that no stage has looked at yet is under no such rule.
pub open spec fn of_one_kind(task: TaskView, meta_of: spec_fn(FileId) -> Option<FileMeta>) -> bool {
    match task {
        TaskView::Group { stage, files } => stage != Stage::Found ==> forall|i: int|
            0 <= i < files.len() ==> meta_of(#[trigger] files[i]) is Some && meta_of(files[i])
                == meta_of(files[0]),
        TaskView::Link { original, others } => meta_of(original) is Some && forall|i: int|
            0 <= i < others.len() ==> meta_of(#[trigger] others[i]) == meta_of(original),
        TaskView::Replace { original, replaced, .. } => meta_of(original) is Some && meta_of(
            replaced,
        ) == meta_of(original),
    }
}

/// Whether every task of `s` holds files of one kind.
pub open spec fn all_of_one_kind(s: EngineView, meta_of: spec_fn(FileId) -> Option<FileMeta>) -> bool {
    forall|t: int| 0 <= t < s.tasks.len() ==> of_one_kind(#[trigger] s.tasks[t], meta_of)
}

/// A step on a truthful answer keeps every task to files of one kind.
pub proof fn lemma_step_keeps_kinds(
    s: EngineView,
    event: EventView,
    name: Seq<char>,
    meta_of: spec_fn(FileId) -> Option<FileMeta>,
)
    requires
        s.wf(),
        s.accepts(event),
        tells_metadata(s, event, meta_of),
        all_of_one_kind(s, meta_of),
    ensures
        all_of_one_kind(s.advance(event, name).0, meta_of),
{
    let next = s.advance(event, name).0;
    if s.tasks.len() > 0 && s.phase != Phase::Fresh && s.phase != Phase::Finished {
        let top = s.tasks.last();
        let below = s.tasks.drop_last();
        assert(of_one_kind(s.tasks[s.tasks.len() - 1], meta_of));
        assert forall|t: int| 0 <= t < below.len() implies of_one_kind(
            #[trigger] below[t],
            meta_of,
        ) by {
            assert(below[t] == s.tasks[t]);
        }
        assert(s.task_wf(s.tasks[s.tasks.len() - 1]));
        match (s.phase, top) {
            (Phase::Idle, TaskView::Group { stage, files }) => {
                if verdict(stage, files.len(), s.paranoid) is Link {
                    let others = files.drop_first();
                    assert forall|i: int| 0 <= i < others.len() implies meta_of(
                        #[trigger] others[i],
                    ) == meta_of(files[0]) by {
                        assert(others[i] == files[i + 1]);
                    }
                    assert(meta_of(files[0]) is Some);
                    assert(of_one_kind(TaskView::Link { original: files[0], others }, meta_of));
                }
            },
            (Phase::Asked, TaskView::Group { stage, files }) => {
                let to = verdict(stage, files.len(), s.paranoid)->Refine_0;
                let groups = refined(to, files, event);
                let above = stacked(groups, to);
                assert(next.tasks == below + above);
                assert forall|t: int| 0 <= t < above.len() implies of_one_kind(
                    #[trigger] above[t],
                    meta_of,
                ) by {
                    let g = groups.len() - 1 - t;
                    lemma_group_is_of_one_kind(s, stage, files, event, meta_of, g);
                }
            },
            (Phase::AskedStat, TaskView::Link { original, others }) => {
                let rest = others.drop_first();
                assert forall|i: int| 0 <= i < rest.len() implies meta_of(#[trigger] rest[i])
                    == meta_of(original) by {
                    assert(rest[i] == others[i + 1]);
                }
                assert(of_one_kind(TaskView::Link { original, others: rest }, meta_of));
                if let EventView::Stat(Some(stat)) = event {
                    let at = s.inodes.index_of(stat.ino);
                    assert(s.inodes[others[0] as int] == stat.ino);
                    assert(at == others[0]);
                }
            },
            _ => {},
        }
    }
}

/// The groups that come of a group of one kind on a truthful answer are
/// each of one kind.
proof fn lemma_group_is_of_one_kind(
    s: EngineView,
    stage: Stage,
    files: Seq<FileId>,
    event: EventView,
    meta_of: spec_fn(FileId) -> Option<FileMeta>,
    g: int,
)
    requires
        s.wf(),
        s.phase == Phase::Asked,
        s.tasks.len() > 0,
        s.tasks.last() == (TaskView::Group { stage, files }),
        s.accepts(event),
        tells_metadata(s, event, meta_of),
        of_one_kind(s.tasks.last(), meta_of),
        verdict(stage, files.len(), s.paranoid) is Refine,
        0 <= g < refined(verdict(stage, files.len(), s.paranoid)->Refine_0, files, event).len(),
    ensures
        of_one_kind(
            TaskView::Group {
                stage: verdict(stage, files.len(), s.paranoid)->Refine_0,
                files: refined(verdict(stage, files.len(), s.paranoid)->Refine_0, files, event)[g],
            },
            meta_of,
        ),
{
    let to = verdict(stage, files.len(), s.paranoid)->Refine_0;
    let group = refined(to, files, event)[g];
    assert forall|i: int| 0 <= i < group.len() implies meta_of(#[trigger] group[i]) is Some
        && meta_of(group[i]) == meta_of(group[0]) by {
        assert(group.contains(group[i]));
        assert(group.contains(group[0]));
        if stage == Stage::Found {
            let answers = event->Metadata_0;
            let items = metadata_keyed(paired(files, values_of(answers)));
            lemma_group_shares_key(items, g, group[i]);
            lemma_group_shares_key(items, g, group[0]);
            let key = crate::grouping::keys_in_order(items)[g];
            let a = choose|a: int| 0 <= a < items.len() && #[trigger] items[a] == (group[i], Some(key));
            let b = choose|b: int| 0 <= b < items.len() && #[trigger] items[b] == (group[0], Some(key));
            assert(values_of(answers)[a] == meta_of(files[a]));
            assert(values_of(answers)[b] == meta_of(files[b]));
        } else {
            lemma_refined_splits(to, files, event, g, group[i]);
            lemma_refined_splits(to, files, event, g, group[0]);
            let a = choose|a: int| 0 <= a < files.len() && files[a] == group[i];
            let b = choose|b: int| 0 <= b < files.len() && files[b] == group[0];
            assert(meta_of(files[a]) == meta_of(files[0]));
            assert(meta_of(files[b]) == meta_of(files[0]));
        }
    }
}

/// Whether every answer of the run tells metadata and inodes as they are.
pub open spec fn metadata_told(
    start: EngineView,
    events: Seq<EventView>,
    names: Seq<Seq<char>>,
    meta_of: spec_fn(FileId) -> Option<FileMeta>,
) -> bool {
    forall|k: nat|
        k < events.len() ==> tells_metadata(
            #[trigger] state_at(start, events, names, k),
            events[k as int],
            meta_of,
        )
}

/// Files that differ in size, owner, group or mode are never linked to
/// each other, whatever they hold. In every state of a run that is told
/// the metadata of the files as it is, each task holds files of one and
/// the same metadata only; so whenever a file is replaced by links to
/// another, their metadata agree.
pub proof fn lemma_differing_metadata_never_linked(
    start: EngineView,
    events: Seq<EventView>,
    names: Seq<Seq<char>>,
    meta_of: spec_fn(FileId) -> Option<FileMeta>,
    i: nat,
)
    requires
        start.wf(),
        all_of_one_kind(start, meta_of),
        driven(start, events, names),
        metadata_told(start, events, names, meta_of),
        i <= events.len(),
    ensures
        all_of_one_kind(state_at(start, events, names, i), meta_of),
        forall|kept: FileId, gone: FileId| #[trigger]
            replacing(state_at(start, events, names, i), kept, gone) ==> meta_of(kept) is Some
                && meta_of(kept) == meta_of(gone),
    decreases i,
{
    let s = state_at(start, events, names, i);
    if i > 0 {
        let k = (i - 1) as nat;
        lemma_run_keeps_wf(start, events, names, k);
        lemma_differing_metadata_never_linked(start, events, names, meta_of, k);
        lemma_step_keeps_kinds(
            state_at(start, events, names, k),
            events[k as int],
            names[k as int],
            meta_of,
        );
    }
    if s.tasks.len() > 0 {
        assert(of_one_kind(s.tasks[s.tasks.len() - 1], meta_of));
    }
}

/// Whether `event` hands over the contents of the files asked about as
/// `content_of` has them, and the inode of the file asked about as the
/// scan found it.
pub open spec fn tells_contents(
    s: EngineView,
    event: EventView,
    content_of: spec_fn(FileId) -> Option<Seq<u8>>,
) -> bool {
    match (s.phase, s.tasks.last(), event) {
        (Phase::Asked, TaskView::Group { stage, files }, EventView::Bytes(answers)) => {
            verdict(stage, files.len(), s.paranoid) != Verdict::Refine(Stage::Prefix) ==> forall|
                i: int,
            |
                0 <= i < files.len() ==> #[trigger] values_of(answers)[i] == content_of(files[i])
        },
        (Phase::AskedStat, TaskView::Link { others, .. }, EventView::Stat(Some(stat))) => stat.ino
            == s.inodes[others[0] as int],
        _ => true,
    }
}

/// Whether every answer of the run hands over contents and inodes as they
/// are.
pub open spec fn contents_told(
    start: EngineView,
    events: Seq<EventView>,
    names: Seq<Seq<char>>,
    content_of: spec_fn(FileId) -> Option<Seq<u8>>,
) -> bool {
    forall|k: nat|
        k < events.len() ==> tells_contents(
            #[trigger] state_at(start, events, names, k),
            events[k as int],
            content_of,
        )
}

/// Whether the files of `task` were held against each other in full and
/// found equal. Only a group that the full comparison formed, and what
/// comes of such a group, is under this rule.
pub open spec fn compared(task: TaskView, content_of: spec_fn(FileId) -> Option<Seq<u8>>) -> bool {
    match task {
        TaskView::Group { stage, files } => stage == Stage::Content ==> forall|i: int|
            0 < i < files.len() ==> same_content(content_of(files[0]), content_of(#[trigger] files[i])),
        TaskView::Link { original, others } => forall|i: int|
            0 <= i < others.len() ==> same_content(
                content_of(original),
                content_of(#[trigger] others[i]),
            ),
        TaskView::Replace { original, replaced, .. } => same_content(
            content_of(original),
            content_of(replaced),
        ),
    }
}

/// Whether every task of `s` that is to link files holds compared files.
pub open spec fn all_compared(s: EngineView, content_of: spec_fn(FileId) -> Option<Seq<u8>>) -> bool {
    forall|t: int| 0 <= t < s.tasks.len() ==> compared(#[trigger] s.tasks[t], content_of)
}

/// In paranoid mode a step on a truthful answer leaves only compared
/// files to be linked.
pub proof fn lemma_step_keeps_compared(
    s: EngineView,
    event: EventView,
    name: Seq<char>,
    content_of: spec_fn(FileId) -> Option<Seq<u8>>,
)
    requires
        s.wf(),
        s.paranoid,
        s.accepts(event),
        tells_contents(s, event, content_of),
        all_compared(s, content_of),
    ensures
        s.advance(event, name).0.paranoid,
        all_compared(s.advance(event, name).0, content_of),
{
    let next = s.advance(event, name).0;
    if s.tasks.len() > 0 && s.phase != Phase::Fresh && s.phase != Phase::Finished {
        let top = s.tasks.last();
        let below = s.tasks.drop_last();
        assert(compared(s.tasks[s.tasks.len() - 1], content_of));
        assert forall|t: int| 0 <= t < below.len() implies compared(#[trigger] below[t], content_of) by {
            assert(below[t] == s.tasks[t]);
        }
        match (s.phase, top) {
            (Phase::Idle, TaskView::Group { stage, files }) => {
                if verdict(stage, files.len(), s.paranoid) is Link {
                    let others = files.drop_first();
                    assert forall|i: int| 0 <= i < others.len() implies same_content(
                        content_of(files[0]),
                        content_of(#[trigger] others[i]),
                    ) by {
                        assert(others[i] == files[i + 1]);
                    }
                    assert(compared(TaskView::Link { original: files[0], others }, content_of));
                }
            },
            (Phase::Asked, TaskView::Group { stage, files }) => {
                let to = verdict(stage, files.len(), s.paranoid)->Refine_0;
                let groups = refined(to, files, event);
                let above = stacked(groups, to);
                assert(next.tasks == below + above);
                assert forall|t: int| 0 <= t < above.len() implies compared(
                    #[trigger] above[t],
                    content_of,
                ) by {
                    let g = groups.len() - 1 - t;
                    if to == Stage::Content {
                        let items = paired(files, values_of(event->Bytes_0));
                        assert forall|p: int| 0 < p < groups[g].len() implies same_content(
                            content_of(groups[g][0]),
                            content_of(#[trigger] groups[g][p]),
                        ) by {
                            lemma_class_shares_content(items, content_of, g, p);
                        }
                    }
                }
            },
            (Phase::AskedStat, TaskView::Link { original, others }) => {
                let rest = others.drop_first();
                assert forall|i: int| 0 <= i < rest.len() implies same_content(
                    content_of(original),
                    content_of(#[trigger] rest[i]),
                ) by {
                    assert(rest[i] == others[i + 1]);
                }
                assert(compared(TaskView::Link { original, others: rest }, content_of));
                if let EventView::Stat(Some(stat)) = event {
                    let at = s.inodes.index_of(stat.ino);
                    assert(s.inodes[others[0] as int] == stat.ino);
                    assert(at == others[0]);
                }
            },
            _ => {},
        }
    }
}

/// Paranoid mode links no two files unless they were held against each
/// other byte for byte and found equal, whatever their digests. In every
/// state of a paranoid run that is handed the contents as they are, each
/// task that is to link files holds files of one and the same content
/// only; so whenever a file is replaced by links to another, both were
/// read and hold the same bytes.
pub proof fn lemma_paranoid_links_only_equal_files(
    start: EngineView,
    events: Seq<EventView>,
    names: Seq<Seq<char>>,
    content_of: spec_fn(FileId) -> Option<Seq<u8>>,
    i: nat,
)
    requires
        start.wf(),
        start.paranoid,
        all_compared(start, content_of),
        driven(start, events, names),
        contents_told(start, events, names, content_of),
        i <= events.len(),
    ensures
        state_at(start, events, names, i).paranoid,
        all_compared(state_at(start, events, names, i), content_of),
        forall|kept: FileId, gone: FileId| #[trigger]
            replacing(state_at(start, events, names, i), kept, gone) ==> same_content(
                content_of(kept),
                content_of(gone),
            ),
    decreases i,
{
    let s = state_at(start, events, names, i);
    if i > 0 {
        let k = (i - 1) as nat;
        lemma_run_keeps_wf(start, events, names, k);
        lemma_paranoid_links_only_equal_files(start, events, names, content_of, k);
        lemma_step_keeps_compared(
            state_at(start, events, names, k),
            events[k as int],
            names[k as int],
            content_of,
        );
    }
    if s.tasks.len() > 0 {
        assert(compared(s.tasks[s.tasks.len() - 1], content_of));
    }
}

/// The state in which a run starts holds one group that no stage has
/// looked at: its files are under no rule yet.
pub proof fn lemma_start_is_under_no_rule(
    inodes: Seq<u64>,
    links: Seq<Seq<Seq<char>>>,
    dry_run: bool,
    paranoid: bool,
    meta_of: spec_fn(FileId) -> Option<FileMeta>,
    content_of: spec_fn(FileId) -> Option<Seq<u8>>,
)
    ensures
        all_of_one_kind(initial(inodes, links, dry_run, paranoid), meta_of),
        all_compared(initial(inodes, links, dry_run, paranoid), content_of),
        nothing_to_link(initial(inodes, links, dry_run, paranoid), meta_of),
{
}

/// Whether two files would be linked if both were found: their metadata
/// agree, both can be read, and their contents are the same; or, where
/// paranoid mode is off, have the same digest.
pub open spec fn alike(
    paranoid: bool,
    a: FileId,
    b: FileId,
    meta_of: spec_fn(FileId) -> Option<FileMeta>,
    content_of: spec_fn(FileId) -> Option<Seq<u8>>,
) -> bool {
    &&& meta_of(a) is Some
    &&& meta_of(a) == meta_of(b)
    &&& content_of(a) is Some
    &&& content_of(b) is Some
    &&& if paranoid {
        content_of(a) == content_of(b)
    } else {
        sha256(content_of(a)->0) == sha256(content_of(b)->0)
    }
}

/// Whether no two of the files found are alike.
pub open spec fn nothing_alike(
    s: EngineView,
    meta_of: spec_fn(FileId) -> Option<FileMeta>,
    content_of: spec_fn(FileId) -> Option<Seq<u8>>,
) -> bool {
    forall|a: FileId, b: FileId|
        a < s.links.len() && b < s.links.len() && a != b ==> !alike(
            s.paranoid,
            a,
            b,
            meta_of,
            content_of,
        )
}

/// Whether `task` can lead to no link: it is a group; one that is split
/// further lists no file twice and is of one kind; one whose files would
/// be linked holds a single file.
pub open spec fn leads_to_no_link(
    task: TaskView,
    paranoid: bool,
    meta_of: spec_fn(FileId) -> Option<FileMeta>,
) -> bool {
    match task {
        TaskView::Group { stage, files } => match verdict(stage, 2, paranoid) {
            Verdict::Link => files.len() <= 1,
            _ => stage != Stage::Found ==> files.no_duplicates() && of_one_kind(task, meta_of),
        },
        _ => false,
    }
}

/// Whether no task of `s` can lead to a link.
pub open spec fn nothing_to_link(s: EngineView, meta_of: spec_fn(FileId) -> Option<FileMeta>) -> bool {
    forall|t: int|
        0 <= t < s.tasks.len() ==> leads_to_no_link(#[trigger] s.tasks[t], s.paranoid, meta_of)
}

/// Where no two files are alike, no group whose files would be linked
/// holds two files.
proof fn lemma_group_is_single(
    s: EngineView,
    stage: Stage,
    files: Seq<FileId>,
    event: EventView,
    meta_of: spec_fn(FileId) -> Option<FileMeta>,
    content_of: spec_fn(FileId) -> Option<Seq<u8>>,
    g: int,
)
    requires
        s.wf(),
        s.phase == Phase::Asked,
        s.tasks.len() > 0,
        s.tasks.last() == (TaskView::Group { stage, files }),
        s.accepts(event),
        tells_contents(s, event, content_of),
        nothing_alike(s, meta_of, content_of),
        leads_to_no_link(s.tasks.last(), s.paranoid, meta_of),
        verdict(stage, files.len(), s.paranoid) is Refine,
        verdict(verdict(stage, files.len(), s.paranoid)->Refine_0, 2, s.paranoid) is Link,
        0 <= g < refined(verdict(stage, files.len(), s.paranoid)->Refine_0, files, event).len(),
    ensures
        refined(verdict(stage, files.len(), s.paranoid)->Refine_0, files, event)[g].len() <= 1,
{
    let to = verdict(stage, files.len(), s.paranoid)->Refine_0;
    let group = refined(to, files, event)[g];
    let answers = event->Bytes_0;
    let read = paired(files, values_of(answers));
    assert(s.task_wf(s.tasks[s.tasks.len() - 1]));
    assert(stage != Stage::Found && stage != Stage::Content);
    assert(files.no_duplicates());
    if group.len() >= 2 {
        assert(group.contains(group[0]));
        assert(group.contains(group[1]));
        lemma_refined_splits(to, files, event, g, group[0]);
        lemma_refined_splits(to, files, event, g, group[1]);
        let a = choose|a: int| 0 <= a < files.len() && files[a] == group[0];
        let b = choose|b: int| 0 <= b < files.len() && files[b] == group[1];
        assert(meta_of(files[a]) == meta_of(files[0]));
        assert(meta_of(files[b]) == meta_of(files[0]));
        assert(values_of(answers)[a] == content_of(files[a]));
        assert(values_of(answers)[b] == content_of(files[b]));
        if to == Stage::Hash {
            let items = hash_keyed(read);
            lemma_grouped(items);
            assert(group[0] != group[1]);
            lemma_group_shares_key(items, g, group[0]);
            lemma_group_shares_key(items, g, group[1]);
            let key = keys_in_order(items)[g];
            let x = choose|x: int| 0 <= x < items.len() && #[trigger] items[x] == (group[0], Some(key));
            let y = choose|y: int| 0 <= y < items.len() && #[trigger] items[y] == (group[1], Some(key));
            assert(values_of(answers)[x] == content_of(files[x]));
            assert(values_of(answers)[y] == content_of(files[y]));
            assert(alike(s.paranoid, group[0], group[1], meta_of, content_of));
        } else {
            assert forall|i: int, j: int| 0 <= i < j < read.len() implies (#[trigger] read[i]).0 != (
            #[trigger] read[j]).0 by {}
            assert(distinct_files(read));
            lemma_class_lists_once(read, g);
            assert(group[0] != group[1]);
            assert forall|i: int| 0 <= i < read.len() implies (#[trigger] read[i]).1 == content_of(
                read[i].0,
            ) by {
                assert(values_of(answers)[i] == content_of(files[i]));
            }
            lemma_class_shares_content(read, content_of, g, 1);
            assert(alike(s.paranoid, group[0], group[1], meta_of, content_of));
        }
    }
}

/// Where no two files are alike, a step on a truthful answer leaves
/// nothing that can lead to a link.
pub proof fn lemma_step_finds_nothing_to_link(
    s: EngineView,
    event: EventView,
    name: Seq<char>,
    meta_of: spec_fn(FileId) -> Option<FileMeta>,
    content_of: spec_fn(FileId) -> Option<Seq<u8>>,
)
    requires
        s.wf(),
        s.accepts(event),
        tells_metadata(s, event, meta_of),
        tells_contents(s, event, content_of),
        nothing_alike(s, meta_of, content_of),
        nothing_to_link(s, meta_of),
    ensures
        nothing_alike(s.advance(event, name).0, meta_of, content_of),
        nothing_to_link(s.advance(event, name).0, meta_of),
{
    let next = s.advance(event, name).0;
    if s.tasks.len() > 0 && s.phase != Phase::Fresh && s.phase != Phase::Finished {
        let top = s.tasks.last();
        let below = s.tasks.drop_last();
        assert(leads_to_no_link(s.tasks[s.tasks.len() - 1], s.paranoid, meta_of));
        assert forall|t: int| 0 <= t < below.len() implies leads_to_no_link(
            #[trigger] below[t],
            s.paranoid,
            meta_of,
        ) by {
            assert(below[t] == s.tasks[t]);
        }
        match (s.phase, top) {
            (Phase::Asked, TaskView::Group { stage, files }) => {
                let to = verdict(stage, files.len(), s.paranoid)->Refine_0;
                let groups = refined(to, files, event);
                let above = stacked(groups, to);
                assert(next.tasks == below + above);
                assert forall|t: int| 0 <= t < above.len() implies leads_to_no_link(
                    #[trigger] above[t],
                    s.paranoid,
                    meta_of,
                ) by {
                    let g = groups.len() - 1 - t;
                    if verdict(to, 2, s.paranoid) is Link {
                        lemma_group_is_single(s, stage, files, event, meta_of, content_of, g);
                    } else {
                        lemma_group_is_of_one_kind(s, stage, files, event, meta_of, g);
                        if to == Stage::Metadata {
                            lemma_grouped(metadata_keyed(paired(files, values_of(event->Metadata_0))));
                        } else if to == Stage::Prefix {
                            lemma_grouped(prefix_keyed(paired(files, values_of(event->Bytes_0))));
                        } else {
                            lemma_grouped(hash_keyed(paired(files, values_of(event->Bytes_0))));
                        }
                    }
                }
            },
            _ => {},
        }
    }
}

/// A second run finds nothing more to link. After a run, files that are
/// alike share an inode and are found as one file; so among the files of
/// a later scan no two are alike. In every state of a run over such
/// files, told metadata and contents as they are, all tasks are groups
/// that can lead to no link: the engine asks for no inode, no link, no
/// rename and no removal, and counts no byte as saved.
pub proof fn lemma_second_run_links_nothing(
    start: EngineView,
    events: Seq<EventView>,
    names: Seq<Seq<char>>,
    meta_of: spec_fn(FileId) -> Option<FileMeta>,
    content_of: spec_fn(FileId) -> Option<Seq<u8>>,
    i: nat,
)
    requires
        start.wf(),
        nothing_alike(start, meta_of, content_of),
        nothing_to_link(start, meta_of),
        driven(start, events, names),
        metadata_told(start, events, names, meta_of),
        contents_told(start, events, names, content_of),
        i <= events.len(),
    ensures
        nothing_alike(state_at(start, events, names, i), meta_of, content_of),
        nothing_to_link(state_at(start, events, names, i), meta_of),
        !state_at(start, events, names, i).request().mutates(),
        !(state_at(start, events, names, i).request() is Stat),
        state_at(start, events, names, i).ctx.bytes_deduped == start.ctx.bytes_deduped,
    decreases i,
{
    lemma_run_keeps_wf(start, events, names, i);
    if i > 0 {
        let k = (i - 1) as nat;
        lemma_run_keeps_wf(start, events, names, k);
        lemma_second_run_links_nothing(start, events, names, meta_of, content_of, k);
        let before = state_at(start, events, names, k);
        if before.tasks.len() > 0 {
            assert(leads_to_no_link(before.tasks[before.tasks.len() - 1], before.paranoid, meta_of));
        }
        lemma_saved_only_when_replaced(before, events[k as int], names[k as int]);
        lemma_step_finds_nothing_to_link(
            state_at(start, events, names, k),
            events[k as int],
            names[k as int],
            meta_of,
            content_of,
        );
    }
    let s = state_at(start, events, names, i);
    if s.tasks.len() > 0 {
        assert(leads_to_no_link(s.tasks[s.tasks.len() - 1], s.paranoid, meta_of));
    }
}

/// Whether two files are equal: their metadata agree, both can be read,
/// and they hold the same bytes.
pub open spec fn equal(
    a: FileId,
    b: FileId,
    meta_of: spec_fn(FileId) -> Option<FileMeta>,
    content_of: spec_fn(FileId) -> Option<Seq<u8>>,
) -> bool {
    meta_of(a) is Some && meta_of(a) == meta_of(b) && same_content(content_of(a), content_of(b))
}

/// Whether `event` hands over the first bytes of the files asked about in
/// full: of each file that can be read, as many bytes as make up its
/// prefix.
pub open spec fn tells_prefixes(
    s: EngineView,
    event: EventView,
    content_of: spec_fn(FileId) -> Option<Seq<u8>>,
) -> bool {
    match (s.phase, s.tasks.last(), event) {
        (Phase::Asked, TaskView::Group { stage, files }, EventView::Bytes(answers)) => {
            verdict(stage, files.len(), s.paranoid) == Verdict::Refine(Stage::Prefix) ==> forall|
                i: int,
            |
                0 <= i < files.len() && content_of(files[i]) is Some ==> (#[trigger] values_of(
                    answers,
                )[i]) is Some && prefix_of(values_of(answers)[i]->0) == prefix_of(
                    content_of(files[i])->0,
                )
        },
        _ => true,
    }
}

/// Whether `event` reports success: the file asked about has an inode and
/// a size, the link was made, the rename was done.
pub open spec fn succeeds(s: EngineView, event: EventView) -> bool {
    match (s.phase, event) {
        (Phase::AskedStat, EventView::Stat(stat)) => stat is Some,
        (Phase::Linking, EventView::Outcome(outcome)) => outcome is Ok,
        (Phase::Renaming, EventView::Outcome(outcome)) => outcome is Ok,
        _ => true,
    }
}

/// Whether the step from `s` ends the replacement of `gone` by links to
/// `kept`, with every path of `gone` linked.
pub open spec fn completes(s: EngineView, gone: FileId, kept: FileId) -> bool {
    s.phase == Phase::Idle && s.tasks.len() > 0 && (match s.tasks.last() {
        TaskView::Replace { original, replaced, next, linked, .. } => original == kept && replaced
            == gone && linked && next >= s.links[replaced as int].len(),
        _ => false,
    })
}

/// Whether the task at `t` accounts for the file `x`: as a group that
/// holds it; as a link task that keeps it, has yet to replace it, is
/// replacing it right now, or has replaced it, as `was` tells.
pub open spec fn holds(s: EngineView, t: int, was: spec_fn(FileId, FileId) -> bool, x: FileId) -> bool {
    match s.tasks[t] {
        TaskView::Group { files, .. } => files.contains(x),
        TaskView::Link { original, others } => x == original || others.contains(x) || was(
            x,
            original,
        ) || (t + 2 == s.tasks.len() && replacing(s, original, x)),
        TaskView::Replace { .. } => false,
    }
}

/// Whether `x` is the file `kept` or was replaced by links to it.
pub open spec fn settled(was: spec_fn(FileId, FileId) -> bool, x: FileId, kept: FileId) -> bool {
    x == kept || was(x, kept)
}

/// Whether `a` and `b` go the same way: one task accounts for both, or both
/// have ended on one file.
pub open spec fn together(
    s: EngineView,
    was: spec_fn(FileId, FileId) -> bool,
    a: FileId,
    b: FileId,
) -> bool {
    ||| exists|t: int|
        0 <= t < s.tasks.len() && #[trigger] holds(s, t, was, a) && #[trigger] holds(s, t, was, b)
    ||| exists|kept: FileId| #[trigger] settled(was, a, kept) && #[trigger] settled(was, b, kept)
}

/// What the tasks look like in a run in which nothing fails. A group that
/// a stage formed lists no file twice. A replacement is on top of the
/// stack, right above the link task it comes of, and has linked every path
/// so far. No failed rename is being cleaned up, and a run that is over has
/// no task left.
pub open spec fn in_order(s: EngineView) -> bool {
    &&& s.phase != Phase::Removing
    &&& s.phase == Phase::Finished ==> s.tasks.len() == 0
    &&& forall|t: int|
        0 <= t < s.tasks.len() ==> match #[trigger] s.tasks[t] {
            TaskView::Group { stage, files } => stage != Stage::Found ==> files.no_duplicates(),
            TaskView::Link { .. } => true,
            TaskView::Replace { original, linked, .. } => linked && t == s.tasks.len() - 1 && t >= 1
                && (match s.tasks[t - 1] {
                TaskView::Link { original: keeper, .. } => keeper == original,
                _ => false,
            }),
        }
}

/// Whether `event` answers in full and in truth, and reports success.
pub open spec fn tells_all(
    s: EngineView,
    event: EventView,
    meta_of: spec_fn(FileId) -> Option<FileMeta>,
    content_of: spec_fn(FileId) -> Option<Seq<u8>>,
) -> bool {
    &&& tells_metadata(s, event, meta_of)
    &&& tells_prefixes(s, event, content_of)
    &&& tells_contents(s, event, content_of)
    &&& succeeds(s, event)
}

/// A step in which nothing fails leaves the tasks in order.
proof fn lemma_step_keeps_order(
    s: EngineView,
    event: EventView,
    name: Seq<char>,
    meta_of: spec_fn(FileId) -> Option<FileMeta>,
    content_of: spec_fn(FileId) -> Option<Seq<u8>>,
)
    requires
        s.wf(),
        s.accepts(event),
        tells_all(s, event, meta_of, content_of),
        in_order(s),
    ensures
        in_order(s.advance(event, name).0),
        s.advance(event, name).0.ctx.dry_run == s.ctx.dry_run,
        s.advance(event, name).0.links == s.links,
        s.advance(event, name).0.paranoid == s.paranoid,
{
    let next = s.advance(event, name).0;
    let n = s.tasks.len();
    if n > 0 && s.phase != Phase::Fresh && s.phase != Phase::Finished {
        let top = s.tasks.last();
        let below = s.tasks.drop_last();
        assert(top == s.tasks[n - 1]);
        assert(s.task_wf(s.tasks[n - 1]));
        assert forall|t: int| 0 <= t < below.len() implies below[t] == s.tasks[t] && !(below[t] is Replace) by {}
        match (s.phase, top) {
            (Phase::Asked, TaskView::Group { stage, files }) => {
                let to = verdict(stage, files.len(), s.paranoid)->Refine_0;
                let groups = refined(to, files, event);
                let above = stacked(groups, to);
                assert(next.tasks == below + above);
                assert forall|t: int| 0 <= t < above.len() implies (#[trigger] above[t]
                    matches TaskView::Group { files: group, .. } && group.no_duplicates()) by {
                    let g = groups.len() - 1 - t;
                    lemma_new_group_lists_once(s, stage, files, event, g);
                }
            },
            (Phase::AskedStat, TaskView::Link { original, others }) => {
                assert(n >= 2 ==> !(s.tasks[n - 2] is Replace));
            },
            (_, TaskView::Replace { .. }) => {
                assert(s.tasks[n - 2] is Link);
                if n >= 3 {
                    assert(!(s.tasks[n - 3] is Replace));
                }
            },
            _ => {},
        }
    }
}

/// A group that comes of a group without doubles has none.
proof fn lemma_new_group_lists_once(
    s: EngineView,
    stage: Stage,
    files: Seq<FileId>,
    event: EventView,
    g: int,
)
    requires
        s.wf(),
        s.phase == Phase::Asked,
        s.tasks.len() > 0,
        s.tasks.last() == (TaskView::Group { stage, files }),
        s.accepts(event),
        stage != Stage::Found ==> files.no_duplicates(),
        verdict(stage, files.len(), s.paranoid) is Refine,
        0 <= g < refined(verdict(stage, files.len(), s.paranoid)->Refine_0, files, event).len(),
    ensures
        refined(verdict(stage, files.len(), s.paranoid)->Refine_0, files, event)[g].no_duplicates(),
{
    let to = verdict(stage, files.len(), s.paranoid)->Refine_0;
    match to {
        Stage::Metadata => {
            lemma_grouped(metadata_keyed(paired(files, values_of(event->Metadata_0))));
        },
        Stage::Prefix => {
            lemma_grouped(prefix_keyed(paired(files, values_of(event->Bytes_0))));
        },
        Stage::Hash => {
            lemma_grouped(hash_keyed(paired(files, values_of(event->Bytes_0))));
        },
        _ => {
            let read = paired(files, values_of(event->Bytes_0));
            assert forall|i: int, j: int| 0 <= i < j < read.len() implies (#[trigger] read[i]).0 != (
            #[trigger] read[j]).0 by {}
            lemma_class_lists_once(read, g);
        },
    }
}

/// Equal files of a group fall into one of the groups that come of it,
/// when the answer is full and true.
proof fn lemma_equal_files_stay_grouped(
    s: EngineView,
    stage: Stage,
    files: Seq<FileId>,
    event: EventView,
    meta_of: spec_fn(FileId) -> Option<FileMeta>,
    content_of: spec_fn(FileId) -> Option<Seq<u8>>,
    a: FileId,
    b: FileId,
) -> (g: int)
    requires
        s.wf(),
        s.phase == Phase::Asked,
        s.tasks.len() > 0,
        s.tasks.last() == (TaskView::Group { stage, files }),
        s.accepts(event),
        tells_all(s, event, meta_of, content_of),
        stage != Stage::Found ==> files.no_duplicates(),
        verdict(stage, files.len(), s.paranoid) is Refine,
        files.contains(a),
        files.contains(b),
        equal(a, b, meta_of, content_of),
    ensures
        0 <= g < refined(verdict(stage, files.len(), s.paranoid)->Refine_0, files, event).len(),
        refined(verdict(stage, files.len(), s.paranoid)->Refine_0, files, event)[g].contains(a),
        refined(verdict(stage, files.len(), s.paranoid)->Refine_0, files, event)[g].contains(b),
{
    let to = verdict(stage, files.len(), s.paranoid)->Refine_0;
    let i = choose|i: int| 0 <= i < files.len() && files[i] == a;
    let j = choose|j: int| 0 <= j < files.len() && files[j] == b;
    match to {
        Stage::Metadata => {
            let answers = event->Metadata_0;
            let items = metadata_keyed(paired(files, values_of(answers)));
            assert(values_of(answers)[i] == meta_of(files[i]));
            assert(values_of(answers)[j] == meta_of(files[j]));
            lemma_same_key_same_group(items, i, j);
            choose|g: int|
                0 <= g < grouped(items).len() && (#[trigger] grouped(items)[g]).contains(items[i].0)
                    && grouped(items)[g].contains(items[j].0)
        },
        Stage::Prefix => {
            let answers = event->Bytes_0;
            let items = prefix_keyed(paired(files, values_of(answers)));
            assert(values_of(answers)[i] is Some);
            assert(values_of(answers)[j] is Some);
            lemma_same_key_same_group(items, i, j);
            choose|g: int|
                0 <= g < grouped(items).len() && (#[trigger] grouped(items)[g]).contains(items[i].0)
                    && grouped(items)[g].contains(items[j].0)
        },
        Stage::Hash => {
            let answers = event->Bytes_0;
            let items = hash_keyed(paired(files, values_of(answers)));
            assert(values_of(answers)[i] == content_of(files[i]));
            assert(values_of(answers)[j] == content_of(files[j]));
            lemma_same_key_same_group(items, i, j);
            choose|g: int|
                0 <= g < grouped(items).len() && (#[trigger] grouped(items)[g]).contains(items[i].0)
                    && grouped(items)[g].contains(items[j].0)
        },
        _ => {
            let answers = event->Bytes_0;
            let read = paired(files, values_of(answers));
            assert(values_of(answers)[i] == content_of(files[i]));
            assert(values_of(answers)[j] == content_of(files[j]));
            assert forall|x: int, y: int| 0 <= x < y < read.len() implies (#[trigger] read[x]).0 != (
            #[trigger] read[y]).0 by {}
            lemma_same_content_same_class(read, i, j);
            choose|g: int|
                0 <= g < content_groups(read).len() && (#[trigger] content_groups(read)[g]).contains(
                    read[i].0,
                ) && content_groups(read)[g].contains(read[j].0)
        },
    }
}

/// A file that a task below the top accounts for is accounted for by
/// that task after the step, or has been replaced in it.
proof fn lemma_still_held_below(
    s: EngineView,
    event: EventView,
    name: Seq<char>,
    was: spec_fn(FileId, FileId) -> bool,
    now: spec_fn(FileId, FileId) -> bool,
    meta_of: spec_fn(FileId) -> Option<FileMeta>,
    content_of: spec_fn(FileId) -> Option<Seq<u8>>,
    t: int,
    x: FileId,
)
    requires
        s.wf(),
        s.accepts(event),
        !s.ctx.dry_run,
        tells_all(s, event, meta_of, content_of),
        in_order(s),
        forall|gone: FileId, kept: FileId| was(gone, kept) ==> #[trigger] now(gone, kept),
        forall|gone: FileId, kept: FileId| completes(s, gone, kept) ==> #[trigger] now(gone, kept),
        0 <= t < s.tasks.len() - 1,
        holds(s, t, was, x),
    ensures
        0 <= t < s.advance(event, name).0.tasks.len(),
        holds(s.advance(event, name).0, t, now, x),
{
    let next = s.advance(event, name).0;
    let n = s.tasks.len();
    let top = s.tasks.last();
    let below = s.tasks.drop_last();
    assert(top == s.tasks[n - 1]);
    assert(s.task_wf(s.tasks[n - 1]));
    assert(below[t] == s.tasks[t]);
    match (s.phase, top) {
        (Phase::Asked, TaskView::Group { stage, files }) => {
            let to = verdict(stage, files.len(), s.paranoid)->Refine_0;
            assert(next.tasks == below + stacked(refined(to, files, event), to));
            assert(next.tasks[t] == s.tasks[t]);
            assert(next.tasks.len() >= n - 1);
            assert(!(next.tasks.last() is Replace)) by {
                if stacked(refined(to, files, event), to).len() > 0 {
                    assert(next.tasks.last() is Group);
                } else {
                    assert(next.tasks =~= below);
                    assert(!(s.tasks[n - 2] is Replace));
                }
            }
        },
        (Phase::Idle, TaskView::Replace { original, replaced, next: at, size, linked }) => {
            if at >= s.links[replaced as int].len() {
                assert(completes(s, replaced, original));
                assert(now(replaced, original));
                assert(next.tasks == below);
                if n >= 3 {
                    assert(!(s.tasks[n - 3] is Replace));
                }
            }
            assert(next.tasks[t] == s.tasks[t]);
        },
        (Phase::Idle, _) => {
            assert(next.tasks[t] == s.tasks[t]);
            assert(!(s.tasks[n - 2] is Replace));
        },
        (Phase::AskedStat, TaskView::Link { original, others }) => {
            assert(next.tasks[t] == s.tasks[t]);
            assert(next.tasks.len() == n + 1);
        },
        _ => {
            assert(next.tasks[t] == s.tasks[t]);
        },
    }
}

/// Two equal files that go the same way still do so after a step in
/// which nothing fails.
proof fn lemma_pair_stays_together(
    s: EngineView,
    event: EventView,
    name: Seq<char>,
    was: spec_fn(FileId, FileId) -> bool,
    now: spec_fn(FileId, FileId) -> bool,
    meta_of: spec_fn(FileId) -> Option<FileMeta>,
    content_of: spec_fn(FileId) -> Option<Seq<u8>>,
    a: FileId,
    b: FileId,
)
    requires
        s.wf(),
        s.accepts(event),
        !s.ctx.dry_run,
        tells_all(s, event, meta_of, content_of),
        in_order(s),
        forall|gone: FileId, kept: FileId| was(gone, kept) ==> #[trigger] now(gone, kept),
        forall|gone: FileId, kept: FileId| completes(s, gone, kept) ==> #[trigger] now(gone, kept),
        a != b,
        equal(a, b, meta_of, content_of),
        together(s, was, a, b),
    ensures
        together(s.advance(event, name).0, now, a, b),
{
    let next = s.advance(event, name).0;
    let n = s.tasks.len();
    if exists|kept: FileId| #[trigger] settled(was, a, kept) && #[trigger] settled(was, b, kept) {
        let kept = choose|kept: FileId| #[trigger]
            settled(was, a, kept) && #[trigger] settled(was, b, kept);
        assert(settled(now, a, kept) && settled(now, b, kept));
    } else {
        let t = choose|t: int|
            0 <= t < s.tasks.len() && #[trigger] holds(s, t, was, a) && #[trigger] holds(s, t, was, b);
        let top = s.tasks.last();
        let below = s.tasks.drop_last();
        assert(top == s.tasks[n - 1]);
        assert(s.task_wf(s.tasks[n - 1]));
        if t < n - 1 {
            lemma_still_held_below(s, event, name, was, now, meta_of, content_of, t, a);
            lemma_still_held_below(s, event, name, was, now, meta_of, content_of, t, b);
            assert(holds(next, t, now, a) && holds(next, t, now, b));
        } else if s.phase == Phase::Fresh || s.phase == Phase::Finished {
            assert(next.tasks == s.tasks);
            assert(holds(next, t, now, a) && holds(next, t, now, b));
        } else {
            match (s.phase, top) {
                (Phase::Idle, TaskView::Group { stage, files }) => {
                    let i = choose|i: int| 0 <= i < files.len() && files[i] == a;
                    let j = choose|j: int| 0 <= j < files.len() && files[j] == b;
                    if verdict(stage, files.len(), s.paranoid) is Link {
                        let others = files.drop_first();
                        if i > 0 {
                            assert(others[i - 1] == a);
                        }
                        if j > 0 {
                            assert(others[j - 1] == b);
                        }
                        assert(next.tasks[t] == TaskView::Link { original: files[0], others });
                        assert(holds(next, t, now, a) && holds(next, t, now, b));
                    } else {
                        assert(next.tasks == s.tasks);
                        assert(holds(next, t, now, a) && holds(next, t, now, b));
                    }
                },
                (Phase::Asked, TaskView::Group { stage, files }) => {
                    let to = verdict(stage, files.len(), s.paranoid)->Refine_0;
                    let groups = refined(to, files, event);
                    let g = lemma_equal_files_stay_grouped(
                        s,
                        stage,
                        files,
                        event,
                        meta_of,
                        content_of,
                        a,
                        b,
                    );
                    let above = stacked(groups, to);
                    assert(next.tasks == below + above);
                    let u = below.len() + groups.len() - 1 - g;
                    assert(next.tasks[u] == above[groups.len() - 1 - g]);
                    assert(next.tasks[u] == TaskView::Group { stage: to, files: groups[g] });
                    assert(holds(next, u, now, a) && holds(next, u, now, b));
                },
                (Phase::Idle, TaskView::Link { original, others }) => {
                    if others.len() == 0 {
                        assert(settled(now, a, original) && settled(now, b, original));
                    } else {
                        assert(next.tasks == s.tasks);
                        assert(holds(next, t, now, a) && holds(next, t, now, b));
                    }
                },
                (Phase::AskedStat, TaskView::Link { original, others }) => {
                    let stat = event->Stat_0->0;
                    let at = s.inodes.index_of(stat.ino);
                    assert(s.inodes[others[0] as int] == stat.ino);
                    assert(at == others[0]);
                    let rest = others.drop_first();
                    assert(next.tasks.len() == n + 1);
                    assert(next.tasks[t] == TaskView::Link { original, others: rest });
                    assert(replacing(next, original, others[0]));
                    if others.contains(a) {
                        let i = choose|i: int| 0 <= i < others.len() && others[i] == a;
                        if i > 0 {
                            assert(rest[i - 1] == a);
                        }
                    }
                    if others.contains(b) {
                        let j = choose|j: int| 0 <= j < others.len() && others[j] == b;
                        if j > 0 {
                            assert(rest[j - 1] == b);
                        }
                    }
                    assert(holds(next, t, now, a) && holds(next, t, now, b));
                },
                _ => {},
            }
        }
    }
}

/// Whether the run has, in its first `n` steps, replaced every path of
/// `gone` by a link to `kept`.
pub open spec fn replaced_by(
    start: EngineView,
    events: Seq<EventView>,
    names: Seq<Seq<char>>,
    n: nat,
    gone: FileId,
    kept: FileId,
) -> bool {
    exists|k: nat| k < n && completes(#[trigger] state_at(start, events, names, k), gone, kept)
}

/// Whether, after the first `n` steps of the run, the file `x` is found
/// on the inode of `kept`: it is `kept` itself, or every one of its paths
/// was replaced by a link to `kept`.
pub open spec fn ends_on(
    start: EngineView,
    events: Seq<EventView>,
    names: Seq<Seq<char>>,
    n: nat,
    x: FileId,
    kept: FileId,
) -> bool {
    x == kept || replaced_by(start, events, names, n, x, kept)
}

/// Whether every answer of the run is full and true and reports success.
pub open spec fn all_told(
    start: EngineView,
    events: Seq<EventView>,
    names: Seq<Seq<char>>,
    meta_of: spec_fn(FileId) -> Option<FileMeta>,
    content_of: spec_fn(FileId) -> Option<Seq<u8>>,
) -> bool {
    forall|k: nat|
        k < events.len() ==> tells_all(
            #[trigger] state_at(start, events, names, k),
            events[k as int],
            meta_of,
            content_of,
        )
}

/// In a run in which nothing fails, two equal files go the same way in
/// every state.
proof fn lemma_equal_files_go_together(
    inodes: Seq<u64>,
    links: Seq<Seq<Seq<char>>>,
    paranoid: bool,
    events: Seq<EventView>,
    names: Seq<Seq<char>>,
    meta_of: spec_fn(FileId) -> Option<FileMeta>,
    content_of: spec_fn(FileId) -> Option<Seq<u8>>,
    a: FileId,
    b: FileId,
    i: nat,
)
    requires
        initial(inodes, links, false, paranoid).wf(),
        driven(initial(inodes, links, false, paranoid), events, names),
        all_told(initial(inodes, links, false, paranoid), events, names, meta_of, content_of),
        a < inodes.len(),
        b < inodes.len(),
        a != b,
        equal(a, b, meta_of, content_of),
        i <= events.len(),
    ensures
        state_at(initial(inodes, links, false, paranoid), events, names, i).wf(),
        !state_at(initial(inodes, links, false, paranoid), events, names, i).ctx.dry_run,
        in_order(state_at(initial(inodes, links, false, paranoid), events, names, i)),
        together(
            state_at(initial(inodes, links, false, paranoid), events, names, i),
            |gone: FileId, kept: FileId|
                replaced_by(
                    initial(inodes, links, false, paranoid),
                    events,
                    names,
                    i,
                    gone,
                    kept,
                ),
            a,
            b,
        ),
    decreases i,
{
    let start = initial(inodes, links, false, paranoid);
    let now = |gone: FileId, kept: FileId| replaced_by(start, events, names, i, gone, kept);
    lemma_run_keeps_wf(start, events, names, i);
    if i == 0 {
        let files = Seq::new(inodes.len(), |i: int| i as FileId);
        assert(files[a as int] == a);
        assert(files[b as int] == b);
        assert(holds(start, 0, now, a) && holds(start, 0, now, b));
    } else {
        let k = (i - 1) as nat;
        let s = state_at(start, events, names, k);
        let was = |gone: FileId, kept: FileId| replaced_by(start, events, names, k, gone, kept);
        lemma_equal_files_go_together(
            inodes,
            links,
            paranoid,
            events,
            names,
            meta_of,
            content_of,
            a,
            b,
            k,
        );
        assert forall|gone: FileId, kept: FileId| was(gone, kept) implies #[trigger] now(
            gone,
            kept,
        ) by {
            let j = choose|j: nat|
                j < k && completes(#[trigger] state_at(start, events, names, j), gone, kept);
            assert(j < i);
        }
        assert forall|gone: FileId, kept: FileId| completes(s, gone, kept) implies #[trigger] now(
            gone,
            kept,
        ) by {
            assert(k < i && completes(state_at(start, events, names, k), gone, kept));
        }
        lemma_step_keeps_order(s, events[k as int], names[k as int], meta_of, content_of);
        lemma_pair_stays_together(
            s,
            events[k as int],
            names[k as int],
            was,
            now,
            meta_of,
            content_of,
            a,
            b,
        );
    }
}

/// After a run that changes the disk and in which nothing fails, files
/// that are equal in size, owner, group, mode and content share an inode.
/// When such a run over the files found is over and every answer was full
/// and true, any two equal files have ended on one file: each of them is
/// that file itself, or had every one of its paths replaced by a link to
/// it.
pub proof fn lemma_equal_files_end_linked(
    inodes: Seq<u64>,
    links: Seq<Seq<Seq<char>>>,
    paranoid: bool,
    events: Seq<EventView>,
    names: Seq<Seq<char>>,
    meta_of: spec_fn(FileId) -> Option<FileMeta>,
    content_of: spec_fn(FileId) -> Option<Seq<u8>>,
    a: FileId,
    b: FileId,
)
    requires
        initial(inodes, links, false, paranoid).wf(),
        driven(initial(inodes, links, false, paranoid), events, names),
        all_told(initial(inodes, links, false, paranoid), events, names, meta_of, content_of),
        state_at(initial(inodes, links, false, paranoid), events, names, events.len()).phase
            == Phase::Finished,
        a < inodes.len(),
        b < inodes.len(),
        equal(a, b, meta_of, content_of),
    ensures
        exists|kept: FileId|
            {
                &&& #[trigger] ends_on(
                    initial(inodes, links, false, paranoid),
                    events,
                    names,
                    events.len(),
                    a,
                    kept,
                )
                &&& ends_on(
                    initial(inodes, links, false, paranoid),
                    events,
                    names,
                    events.len(),
                    b,
                    kept,
                )
            },
{
    let start = initial(inodes, links, false, paranoid);
    let n = events.len();
    if a == b {
        assert(ends_on(start, events, names, n, a, a));
    } else {
        lemma_equal_files_go_together(
            inodes,
            links,
            paranoid,
            events,
            names,
            meta_of,
            content_of,
            a,
            b,
            n,
        );
        let now = |gone: FileId, kept: FileId| replaced_by(start, events, names, n, gone, kept);
        let kept = choose|kept: FileId| #[trigger]
            settled(now, a, kept) && #[trigger] settled(now, b, kept);
        assert(ends_on(start, events, names, n, a, kept));
        assert(ends_on(start, events, names, n, b, kept));
    }
}

} // verus!
