//! The run itself, as a machine that is stepped from outside. The engine
//! decides; its driver reads files and changes links. Each step takes what
//! the driver found, settles what follows from it, and leaves the engine
//! asking for the next thing it needs.

use crate::cascade::{same_hash_groups, same_metadata_groups, same_prefix_groups};
use crate::content::same_content_groups;
use crate::discovery::{by_inode, find_inode_groups, InodeGroups};
use crate::grouping::{grouped, keys_in_order, FileId, FileMeta};
use crate::machine::{
    errors_in, initial, lemma_advance_keeps_wf, lemma_pushed, owed, paired, pending, stacked,
    values_of, verdict, EngineView, Phase, TaskView, Verdict,
};
use crate::naming::{fresh_name, is_temp_name};
use crate::progress::DedupContext;
use crate::protocol::{
    notices_view, Event, EventView, Failure, Notice, NoticeView, Reason, Request, RequestView,
    Stage, Stat,
};
use vstd::prelude::*;

verus! {

/// A piece of work that is still to do.
pub enum Task {
    Group { stage: Stage, files: Vec<FileId> },
    Link { original: FileId, others: Vec<FileId> },
    Replace { original: FileId, replaced: FileId, next: usize, size: u64, linked: bool },
}

impl View for Task {
    type V = TaskView;

    open spec fn view(&self) -> TaskView {
        match self {
            Task::Group { stage, files } => TaskView::Group { stage: *stage, files: files@ },
            Task::Link { original, others } => TaskView::Link {
                original: *original,
                others: others@,
            },
            Task::Replace { original, replaced, next, size, linked } => TaskView::Replace {
                original: *original,
                replaced: *replaced,
                next: *next,
                size: *size,
                linked: *linked,
            },
        }
    }
}

/// The tasks of a stack, each as a mathematical value.
pub open spec fn tasks_view(tasks: Seq<Task>) -> Seq<TaskView> {
    Seq::new(tasks.len(), |i: int| tasks[i]@)
}

/// A deduplication run in progress.
pub struct Engine {
    inodes: InodeGroups,
    ctx: DedupContext,
    paranoid: bool,
    phase: Phase,
    tasks: Vec<Task>,
    name: String,
    rename_error: String,
}

impl View for Engine {
    type V = EngineView;

    closed spec fn view(&self) -> EngineView {
        EngineView {
            inodes: self.inodes.inodes(),
            links: self.inodes.links(),
            ctx: self.ctx,
            paranoid: self.paranoid,
            phase: self.phase,
            tasks: tasks_view(self.tasks@),
            name: self.name@,
            rename_error: self.rename_error@,
        }
    }
}

/// Decides on a group of `len` files that `stage` formed.
pub fn classify(stage: Stage, len: usize, paranoid: bool) -> (v: Verdict)
    ensures
        v == verdict(stage, len as nat, paranoid),
{
    match stage {
        Stage::Found => if len == 0 {
            Verdict::Nothing
        } else {
            Verdict::Refine(Stage::Metadata)
        },
        Stage::Metadata => if len <= 1 {
            Verdict::Exclude(Reason::UniqueMetadata)
        } else if len == 2 {
            Verdict::Refine(Stage::Content)
        } else {
            Verdict::Refine(Stage::Prefix)
        },
        Stage::Prefix => if len <= 1 {
            Verdict::Exclude(Reason::UniquePrefix)
        } else if len == 2 {
            Verdict::Refine(Stage::Content)
        } else {
            Verdict::Refine(Stage::Hash)
        },
        Stage::Hash => if len <= 1 {
            Verdict::Exclude(Reason::UniqueHash)
        } else if paranoid {
            Verdict::Refine(Stage::Content)
        } else {
            Verdict::Link
        },
        Stage::Content => if len <= 1 {
            Verdict::Exclude(Reason::UniqueContents)
        } else {
            Verdict::Link
        },
    }
}

impl Engine {
    /// What holds of the engine between any two steps.
    pub closed spec fn wf(&self) -> bool {
        &&& self.inodes.wf()
        &&& self@.wf()
    }

    /// What `wf` holds of the engine as a mathematical value.
    pub proof fn lemma_wf(&self)
        requires
            self.wf(),
        ensures
            self@.wf(),
    {
    }

    /// A run over the inodes found, not yet started.
    pub fn new(inode_to_paths: InodeGroups, dry_run: bool, paranoid: bool) -> (engine: Engine)
        requires
            inode_to_paths.wf(),
        ensures
            engine.wf(),
            engine@ == initial(inode_to_paths.inodes(), inode_to_paths.links(), dry_run, paranoid),
    {
        let ctx = DedupContext::new(&inode_to_paths, dry_run);
        let files = inode_to_paths.representatives();
        let mut tasks: Vec<Task> = Vec::new();
        tasks.push(Task::Group { stage: Stage::Found, files });
        let engine = Engine {
            inodes: inode_to_paths,
            ctx,
            paranoid,
            phase: Phase::Fresh,
            tasks,
            name: String::new(),
            rename_error: String::new(),
        };
        proof {
            inode_to_paths.lemma_wf();
            let start = initial(inode_to_paths.inodes(), inode_to_paths.links(), dry_run, paranoid);
            assert(engine@.tasks =~= start.tasks);
            assert(start.tasks.drop_last() =~= Seq::<TaskView>::empty());
            assert(pending(start.tasks.drop_last()) == 0);
            assert(owed(start.tasks.drop_last()) == 0);
        }
        engine
    }

    /// The counters of the run.
    pub fn progress(&self) -> (ctx: DedupContext)
        ensures
            ctx == self@.ctx,
    {
        self.ctx
    }

    /// Whether the run is over.
    pub fn is_finished(&self) -> (finished: bool)
        ensures
            finished == (self@.phase == Phase::Finished),
    {
        self.phase == Phase::Finished
    }

    /// What the engine asks its driver to do before the next step.
    pub fn request(&self) -> (request: Request)
        requires
            self.wf(),
        ensures
            request@ == self@.request(),
            self@.ctx.dry_run ==> !request@.mutates(),
    {
        proof {
            self.inodes.lemma_wf();
            if self.tasks.len() > 0 {
                assert(self@.tasks.last() == self.tasks@[self.tasks.len() - 1]@);
                assert(self@.task_wf(self@.tasks[self.tasks.len() - 1]));
            }
        }
        match self.phase {
            Phase::Fresh | Phase::Idle => Request::Continue,
            Phase::Finished => Request::Done,
            Phase::Asked => match &self.tasks[self.tasks.len() - 1] {
                Task::Group { stage, files } => {
                    let paths = self.paths_of(files);
                    match classify(*stage, files.len(), self.paranoid) {
                        Verdict::Refine(Stage::Metadata) => Request::ReadMetadata { paths },
                        Verdict::Refine(Stage::Prefix) => Request::ReadPrefixes { paths },
                        _ => Request::ReadContents { paths },
                    }
                },
                _ => Request::Continue,
            },
            Phase::AskedStat => match &self.tasks[self.tasks.len() - 1] {
                Task::Link { original, others } => Request::Stat {
                    path: self.inodes.path(others[0]).clone(),
                },
                _ => Request::Continue,
            },
            Phase::Linking => match &self.tasks[self.tasks.len() - 1] {
                Task::Replace { original, replaced, next, .. } => Request::HardLink {
                    original: self.inodes.path(*original).clone(),
                    target: self.target(*replaced, *next),
                    name: self.name.clone(),
                },
                _ => Request::Continue,
            },
            Phase::Renaming => match &self.tasks[self.tasks.len() - 1] {
                Task::Replace { original, replaced, next, .. } => Request::Rename {
                    name: self.name.clone(),
                    target: self.target(*replaced, *next),
                },
                _ => Request::Continue,
            },
            Phase::Removing => match &self.tasks[self.tasks.len() - 1] {
                Task::Replace { original, replaced, next, .. } => Request::Remove {
                    name: self.name.clone(),
                    target: self.target(*replaced, *next),
                },
                _ => Request::Continue,
            },
        }
    }

    /// Whether `event` answers what the engine asked.
    pub fn accepts(&self, event: &Event) -> (accepted: bool)
        requires
            self.wf(),
        ensures
            accepted == self@.accepts(event@),
    {
        proof {
            if self.tasks.len() > 0 {
                assert(self@.tasks.last() == self.tasks@[self.tasks.len() - 1]@);
            }
        }
        match self.phase {
            Phase::Asked => match &self.tasks[self.tasks.len() - 1] {
                Task::Group { stage, files } => match (
                    classify(*stage, files.len(), self.paranoid),
                    event,
                ) {
                    (Verdict::Refine(Stage::Metadata), Event::Metadata(answers)) => answers.len()
                        == files.len(),
                    (Verdict::Refine(Stage::Metadata), _) => false,
                    (Verdict::Refine(_), Event::Bytes(answers)) => answers.len() == files.len(),
                    _ => false,
                },
                _ => false,
            },
            Phase::AskedStat => match event {
                Event::Stat(Some(stat)) => self.inodes.position(stat.ino).is_some(),
                Event::Stat(None) => true,
                _ => false,
            },
            Phase::Linking | Phase::Renaming | Phase::Removing => match event {
                Event::Outcome(_) => true,
                _ => false,
            },
            _ => true,
        }
    }

    /// The path at place `next` among those of the inode at `replaced`.
    fn target(&self, replaced: FileId, next: usize) -> (path: String)
        requires
            self.wf(),
            replaced < self@.links.len(),
            next < self@.links[replaced as int].len(),
        ensures
            path@ == self@.links[replaced as int][next as int],
    {
        let paths = self.inodes.paths(replaced);
        assert(paths.deep_view()[next as int] == paths@[next as int]@);
        paths[next].clone()
    }

    /// The paths under which `files` are read.
    fn paths_of(&self, files: &Vec<FileId>) -> (paths: Vec<String>)
        requires
            self.wf(),
            forall|i: int| 0 <= i < files.len() ==> files[i] < self@.links.len(),
        ensures
            paths.deep_view() == self@.paths(files@),
    {
        let mut paths: Vec<String> = Vec::new();
        let mut i: usize = 0;
        while i < files.len()
            invariant
                i <= files.len(),
                self.wf(),
                forall|i: int| 0 <= i < files.len() ==> files[i] < self@.links.len(),
                paths.len() == i,
                forall|j: int| 0 <= j < i ==> (#[trigger] paths@[j])@ == self@.path(files[j]),
            decreases files.len() - i,
        {
            proof {
                self.inodes.lemma_wf();
            }
            paths.push(self.inodes.path(files[i]).clone());
            i += 1;
        }
        assert(paths.deep_view() =~= self@.paths(files@));
        paths
    }
}

/// Starts a deduplication run over what a scan found: the regular files
/// under the paths given, each with its inode. The run is then driven by
/// stepping the engine that is returned. With `dry_run` nothing on disk is
/// changed; with `paranoid` no digest is trusted without full comparison.
pub fn dedup(found: &Vec<(u64, String)>, dry_run: bool, paranoid: bool) -> (engine: Engine)
    ensures
        engine.wf(),
        engine@ == initial(
            keys_in_order(by_inode(found.deep_view())),
            grouped(by_inode(found.deep_view())),
            dry_run,
            paranoid,
        ),
{
    Engine::new(find_inode_groups(found), dry_run, paranoid)
}

/// A vector of files, seen through `deep_view`, is its view.
proof fn lemma_files_deep_view(files: Vec<FileId>)
    ensures
        files.deep_view() == files@,
{
    assert(files.deep_view() =~= files@);
}

/// Leaves the group on top out of deduplication if it holds one file
/// alone: the file is counted as processed and reported with `reason`.
/// A larger group is left as it is.
pub fn exclude_if_unique(engine: &mut Engine, reason: Reason, notices: &mut Vec<Notice>) -> (excluded:
    bool)
    requires
        old(engine).wf(),
        old(engine)@.phase == Phase::Idle,
        old(engine)@.tasks.len() > 0,
        old(engine)@.tasks.last() is Group,
        old(engine)@.tasks.last()->stage != Stage::Found,
    ensures
        final(engine).wf(),
        excluded == (old(engine)@.tasks.last()->files.len() <= 1),
        excluded ==> final(engine)@ == (EngineView {
            ctx: old(engine)@.counted(old(engine)@.tasks.last()->files.len()),
            tasks: old(engine)@.tasks.drop_last(),
            ..old(engine)@
        }),
        excluded ==> notices_view(final(notices)@) == notices_view(old(notices)@).push(
            NoticeView::Excluding {
                status: old(engine)@.counted(old(engine)@.tasks.last()->files.len()),
                path: old(engine)@.path(old(engine)@.tasks.last()->files[0]),
                reason,
            },
        ),
        !excluded ==> final(engine)@ == old(engine)@ && final(notices)@ == old(notices)@,
{
    let ghost before = engine@;
    let top = engine.tasks.len() - 1;
    proof {
        engine.inodes.lemma_wf();
        assert(before.tasks.last() == engine.tasks@[top as int]@);
        assert(before.task_wf(before.tasks[top as int]));
        assert(before.tasks =~= before.tasks.drop_last().push(before.tasks.last()));
        lemma_pushed(before.tasks.drop_last(), before.tasks.last());
        lemma_advance_keeps_wf(before, EventView::Proceed, before.name);
    }
    match &engine.tasks[top] {
        Task::Group { stage, files } => {
            if files.len() > 1 {
                return false;
            }
            let count = files.len();
            let path = engine.inodes.path(files[0]).clone();
            engine.ctx.add_processed(count);
            let ghost reported = notices@;
            notices.push(Notice::Excluding { status: engine.ctx, path, reason });
            assert(notices_view(notices@) =~= notices_view(reported).push(notices@.last()@));
            engine.tasks.pop();
            assert(engine@.tasks =~= before.tasks.drop_last());
            assert(engine@ == before.advance(EventView::Proceed, before.name).0);
            true
        },
        _ => false,
    }
}

/// Sends a group of exactly two files straight to full comparison: for two
/// files reading both through costs what hashing them would, and settles
/// as much. The engine then waits for the contents of the pair.
pub fn dedup_if_pair(engine: &mut Engine) -> (pair: bool)
    requires
        old(engine).wf(),
        old(engine)@.phase == Phase::Idle,
        old(engine)@.tasks.len() > 0,
        old(engine)@.tasks.last() is Group,
        old(engine)@.tasks.last()->stage == Stage::Metadata || old(engine)@.tasks.last()->stage
            == Stage::Prefix,
    ensures
        final(engine).wf(),
        pair == (old(engine)@.tasks.last()->files.len() == 2),
        pair ==> final(engine)@ == (EngineView { phase: Phase::Asked, ..old(engine)@ }),
        pair ==> final(engine)@.request() == (RequestView::ReadContents {
            paths: old(engine)@.paths(old(engine)@.tasks.last()->files),
        }),
        !pair ==> final(engine)@ == old(engine)@,
{
    let ghost before = engine@;
    let top = engine.tasks.len() - 1;
    proof {
        assert(before.tasks.last() == engine.tasks@[top as int]@);
        lemma_advance_keeps_wf(before, EventView::Proceed, before.name);
    }
    match &engine.tasks[top] {
        Task::Group { stage, files } => {
            if files.len() == 2 {
                engine.phase = Phase::Asked;
                assert(engine@ == before.advance(EventView::Proceed, before.name).0);
                assert(engine@.paths(files@) =~= before.paths(files@));
                true
            } else {
                false
            }
        },
        _ => false,
    }
}

/// Takes the files of the group on top as equal. The first is kept and
/// counted as processed; the others wait to be replaced by links to it.
pub fn hardlink_dedup(engine: &mut Engine)
    requires
        old(engine).wf(),
        old(engine)@.phase == Phase::Idle,
        old(engine)@.tasks.len() > 0,
        old(engine)@.tasks.last() is Group,
        old(engine)@.tasks.last()->files.len() >= 2,
    ensures
        final(engine).wf(),
        final(engine)@ == (EngineView {
            ctx: old(engine)@.counted(1),
            tasks: old(engine)@.tasks.drop_last().push(
                TaskView::Link {
                    original: old(engine)@.tasks.last()->files[0],
                    others: old(engine)@.tasks.last()->files.drop_first(),
                },
            ),
            ..old(engine)@
        }),
{
    let ghost before = engine@;
    proof {
        let top = engine.tasks.len() - 1;
        assert(before.tasks.last() == engine.tasks@[top]@);
        assert(before.task_wf(before.tasks[top]));
        assert(before.tasks =~= before.tasks.drop_last().push(before.tasks.last()));
        lemma_pushed(before.tasks.drop_last(), before.tasks.last());
    }
    match engine.tasks.pop() {
        Some(Task::Group { stage, files }) => {
            assert(engine@.tasks =~= before.tasks.drop_last());
            let ghost all = files@;
            let mut others = files;
            let original = others.remove(0);
            assert(others@ =~= all.drop_first());
            engine.ctx.add_processed(1);
            let ghost below = engine@.tasks;
            engine.tasks.push(Task::Link { original, others });
            assert(engine@.tasks =~= below.push(
                TaskView::Link { original: all[0], others: all.drop_first() },
            ));
            proof {
                lemma_hardlink_dedup_keeps_wf(before, engine@);
            }
        },
        _ => {},
    }
}

/// Turning the group on top into a link task keeps the engine well-formed.
proof fn lemma_hardlink_dedup_keeps_wf(s: EngineView, next: EngineView)
    requires
        s.wf(),
        s.phase == Phase::Idle,
        s.tasks.len() > 0,
        s.tasks.last() is Group,
        s.tasks.last()->files.len() >= 2,
        next == (EngineView {
            ctx: s.counted(1),
            tasks: s.tasks.drop_last().push(
                TaskView::Link {
                    original: s.tasks.last()->files[0],
                    others: s.tasks.last()->files.drop_first(),
                },
            ),
            ..s
        }),
    ensures
        next.wf(),
{
    let below = s.tasks.drop_last();
    let files = s.tasks.last()->files;
    let link = TaskView::Link { original: files[0], others: files.drop_first() };
    assert(s.tasks =~= below.push(s.tasks.last()));
    lemma_pushed(below, s.tasks.last());
    lemma_pushed(below, link);
    assert(s.task_wf(s.tasks[s.tasks.len() - 1]));
    assert forall|t: int| 0 <= t < next.tasks.len() implies next.task_wf(#[trigger] next.tasks[t]) by {
        if t < below.len() {
            assert(next.tasks[t] == s.tasks[t]);
            assert(s.task_wf(s.tasks[t]));
        } else {
            assert forall|i: int| 0 <= i < files.drop_first().len() implies files.drop_first()[i]
                < next.links.len() by {
                assert(files.drop_first()[i] == files[i + 1]);
            }
        }
    }
}

/// Why each answer failed, where it did.
pub open spec fn errors_at<T>(answers: Seq<Result<T, String>>) -> Seq<Option<Seq<char>>> {
    Seq::new(
        answers.len(),
        |i: int|
            match answers[i] {
                Ok(_) => None,
                Err(error) => Some(error@),
            },
    )
}

/// Pairs each file with what was read of it, and warns of each file that
/// could not be read.
fn take_answers<T>(
    engine: &Engine,
    stage: Stage,
    files: &Vec<FileId>,
    answers: Vec<Result<T, String>>,
    notices: &mut Vec<Notice>,
) -> (keyed: Vec<(FileId, Option<T>)>)
    requires
        engine.wf(),
        answers.len() == files.len(),
        forall|i: int| 0 <= i < files.len() ==> files[i] < engine@.links.len(),
    ensures
        keyed.len() == files.len(),
        forall|i: int|
            0 <= i < keyed.len() ==> (#[trigger] keyed@[i]).0 == files@[i] && keyed@[i].1 == (
            match answers@[i] {
                Ok(value) => Some(value),
                Err(_) => None,
            }),
        notices_view(final(notices)@) == notices_view(old(notices)@) + engine@.warnings(
            stage,
            files@,
            errors_at(answers@),
        ),
{
    let ghost all = answers@;
    let ghost errors = errors_at(all);
    let ghost reported = notices_view(notices@);
    let mut keyed: Vec<(FileId, Option<T>)> = Vec::new();
    assert(errors.take(0) =~= Seq::<Option<Seq<char>>>::empty());
    assert(notices_view(notices@) =~= reported + engine@.warnings(stage, files@, errors.take(0)));
    for answer in iter: answers
        invariant
            engine.wf(),
            all.len() == files.len(),
            iter.seq() == all,
            errors == errors_at(all),
            forall|i: int| 0 <= i < files.len() ==> files[i] < engine@.links.len(),
            keyed.len() == iter.index(),
            forall|i: int|
                0 <= i < keyed.len() ==> (#[trigger] keyed@[i]).0 == files@[i] && keyed@[i].1 == (
                match all[i] {
                    Ok(value) => Some(value),
                    Err(_) => None,
                }),
            notices_view(notices@) == reported + engine@.warnings(
                stage,
                files@,
                errors.take(iter.index() as int),
            ),
    {
        let at = keyed.len();
        let ghost before = notices_view(notices@);
        proof {
            engine.inodes.lemma_wf();
            assert(errors.take(at + 1).drop_last() =~= errors.take(at as int));
            assert(errors.take(at + 1).last() == errors[at as int]);
        }
        match answer {
            Ok(value) => {
                keyed.push((files[at], Some(value)));
            },
            Err(error) => {
                let path = engine.inodes.path(files[at]).clone();
                notices.push(Notice::Unreadable { stage, path, error });
                assert(notices_view(notices@) =~= before.push(notices@.last()@));
                keyed.push((files[at], None));
            },
        }
        assert(notices_view(notices@) =~= reported + engine@.warnings(
            stage,
            files@,
            errors.take(at + 1),
        ));
    }
    assert(errors.take(keyed.len() as int) =~= errors);
    keyed
}

/// Puts `groups` on the stack as groups that `stage` formed, the first of
/// them on top.
fn push_groups(tasks: &mut Vec<Task>, groups: Vec<Vec<FileId>>, stage: Stage)
    ensures
        tasks_view(final(tasks)@) == tasks_view(old(tasks)@) + stacked(groups.deep_view(), stage),
{
    let ghost below = tasks_view(tasks@);
    let ghost all = groups.deep_view();
    let mut groups = groups;
    assert(tasks_view(tasks@) =~= below + stacked(all, stage).take(0));
    while groups.len() > 0
        invariant
            groups.len() <= all.len(),
            groups.deep_view() == all.take(groups.len() as int),
            tasks_view(tasks@) == below + stacked(all, stage).take(all.len() - groups.len()),
        decreases groups.len(),
    {
        let ghost was = groups.deep_view();
        let ghost had = tasks_view(tasks@);
        let ghost done = all.len() - groups.len();
        match groups.pop() {
            Some(files) => {
                proof {
                    lemma_files_deep_view(files);
                }
                assert(files@ == was[was.len() - 1]);
                assert(groups.deep_view() =~= all.take(groups.len() as int));
                tasks.push(Task::Group { stage, files });
                assert(tasks_view(tasks@) =~= had.push(
                    TaskView::Group { stage, files: all[all.len() - 1 - done] },
                ));
                assert(tasks_view(tasks@) =~= below + stacked(all, stage).take(done + 1));
            },
            None => {},
        }
    }
    assert(stacked(all, stage).take(all.len() as int) =~= stacked(all, stage));
}

/// Takes in the contents read of the group on top and splits the group
/// into classes of equal content. Each class becomes a group of its own,
/// the first on top; a class of one will be left out, a larger one linked.
/// Each file that could not be read is warned of.
pub fn same_content_dedup(
    engine: &mut Engine,
    answers: Vec<Result<Vec<u8>, String>>,
    notices: &mut Vec<Notice>,
)
    requires
        old(engine).wf(),
        old(engine)@.phase == Phase::Asked,
        old(engine)@.tasks.last() is Group,
        verdict(
            old(engine)@.tasks.last()->stage,
            old(engine)@.tasks.last()->files.len(),
            old(engine)@.paranoid,
        ) == Verdict::Refine(Stage::Content),
        answers.len() == old(engine)@.tasks.last()->files.len(),
    ensures
        final(engine).wf(),
        final(engine)@ == old(engine)@.answered(
            old(engine)@.tasks.last()->stage,
            old(engine)@.tasks.last()->files,
            EventView::Bytes(crate::protocol::bytes_view(answers@)),
        ).0,
        notices_view(final(notices)@) == notices_view(old(notices)@) + old(engine)@.answered(
            old(engine)@.tasks.last()->stage,
            old(engine)@.tasks.last()->files,
            EventView::Bytes(crate::protocol::bytes_view(answers@)),
        ).1,
{
    refine_by_bytes(engine, Stage::Content, answers, notices);
}

/// Takes in the bytes read of the group on top and splits the group by
/// what `next` makes of them.
fn refine_by_bytes(
    engine: &mut Engine,
    next: Stage,
    answers: Vec<Result<Vec<u8>, String>>,
    notices: &mut Vec<Notice>,
)
    requires
        old(engine).wf(),
        old(engine)@.phase == Phase::Asked,
        old(engine)@.tasks.last() is Group,
        next != Stage::Metadata,
        verdict(
            old(engine)@.tasks.last()->stage,
            old(engine)@.tasks.last()->files.len(),
            old(engine)@.paranoid,
        ) == Verdict::Refine(next),
        answers.len() == old(engine)@.tasks.last()->files.len(),
    ensures
        final(engine).wf(),
        final(engine)@ == old(engine)@.answered(
            old(engine)@.tasks.last()->stage,
            old(engine)@.tasks.last()->files,
            EventView::Bytes(crate::protocol::bytes_view(answers@)),
        ).0,
        notices_view(final(notices)@) == notices_view(old(notices)@) + old(engine)@.answered(
            old(engine)@.tasks.last()->stage,
            old(engine)@.tasks.last()->files,
            EventView::Bytes(crate::protocol::bytes_view(answers@)),
        ).1,
{
    let ghost before = engine@;
    let ghost event = EventView::Bytes(crate::protocol::bytes_view(answers@));
    let ghost given = answers@;
    proof {
        let top = engine.tasks.len() - 1;
        assert(before.tasks.last() == engine.tasks@[top]@);
        assert(before.task_wf(before.tasks[top]));
        lemma_advance_keeps_wf(before, event, before.name);
    }
    let top = engine.tasks.len() - 1;
    let keyed = match &engine.tasks[top] {
        Task::Group { stage, files } => take_answers(engine, next, files, answers, notices),
        _ => Vec::new(),
    };
    let ghost files = before.tasks.last()->files;
    proof {
        let items = paired(files, values_of(crate::protocol::bytes_view(given)));
        assert(keyed.deep_view() =~= items) by {
            assert forall|i: int| 0 <= i < keyed.len() implies keyed.deep_view()[i] == items[i] by {
                match given[i] {
                    Ok(bytes) => {
                        crate::content::lemma_bytes_deep_view(bytes);
                    },
                    Err(_) => {},
                }
            }
        }
        assert(errors_at(given) =~= errors_in(event));
    }
    let groups = match next {
        Stage::Prefix => same_prefix_groups(&keyed),
        Stage::Hash => same_hash_groups(&keyed),
        _ => same_content_groups(&keyed),
    };
    engine.tasks.pop();
    assert(engine@.tasks =~= before.tasks.drop_last());
    push_groups(&mut engine.tasks, groups, next);
    engine.phase = Phase::Idle;
    assert(engine@ == before.advance(event, before.name).0);
}

/// Takes in the metadata read of the group on top and splits the group by
/// size, owner, group and mode.
fn refine_by_metadata(
    engine: &mut Engine,
    answers: Vec<Result<FileMeta, String>>,
    notices: &mut Vec<Notice>,
)
    requires
        old(engine).wf(),
        old(engine)@.phase == Phase::Asked,
        old(engine)@.tasks.last() is Group,
        verdict(
            old(engine)@.tasks.last()->stage,
            old(engine)@.tasks.last()->files.len(),
            old(engine)@.paranoid,
        ) == Verdict::Refine(Stage::Metadata),
        answers.len() == old(engine)@.tasks.last()->files.len(),
    ensures
        final(engine).wf(),
        final(engine)@ == old(engine)@.answered(
            old(engine)@.tasks.last()->stage,
            old(engine)@.tasks.last()->files,
            EventView::Metadata(crate::protocol::metadata_view(answers@)),
        ).0,
        notices_view(final(notices)@) == notices_view(old(notices)@) + old(engine)@.answered(
            old(engine)@.tasks.last()->stage,
            old(engine)@.tasks.last()->files,
            EventView::Metadata(crate::protocol::metadata_view(answers@)),
        ).1,
{
    let ghost before = engine@;
    let ghost event = EventView::Metadata(crate::protocol::metadata_view(answers@));
    let ghost given = answers@;
    proof {
        let top = engine.tasks.len() - 1;
        assert(before.tasks.last() == engine.tasks@[top]@);
        assert(before.task_wf(before.tasks[top]));
        lemma_advance_keeps_wf(before, event, before.name);
    }
    let top = engine.tasks.len() - 1;
    let keyed = match &engine.tasks[top] {
        Task::Group { stage, files } => take_answers(
            engine,
            Stage::Metadata,
            files,
            answers,
            notices,
        ),
        _ => Vec::new(),
    };
    let ghost files = before.tasks.last()->files;
    proof {
        let items = paired(files, values_of(crate::protocol::metadata_view(given)));
        assert(keyed.deep_view() =~= items);
        assert(errors_at(given) =~= errors_in(event));
    }
    let groups = same_metadata_groups(&keyed);
    engine.tasks.pop();
    assert(engine@.tasks =~= before.tasks.drop_last());
    push_groups(&mut engine.tasks, groups, Stage::Metadata);
    engine.phase = Phase::Idle;
    assert(engine@ == before.advance(event, before.name).0);
}

/// Takes in inode and size of the next file of the link task on top. The
/// file counts as processed and leaves the task. If inode and size could be
/// had, every path of that inode is to be replaced by a link to the file
/// that is kept.
fn link_next(engine: &mut Engine, stat: Option<Stat>)
    requires
        old(engine).wf(),
        old(engine)@.phase == Phase::AskedStat,
        old(engine)@.accepts(EventView::Stat(stat)),
    ensures
        final(engine).wf(),
        final(engine)@ == old(engine)@.advance(EventView::Stat(stat), old(engine)@.name).0,
{
    let ghost before = engine@;
    proof {
        let top = engine.tasks.len() - 1;
        engine.inodes.lemma_wf();
        assert(before.tasks.last() == engine.tasks@[top]@);
        assert(before.task_wf(before.tasks[top]));
        assert(before.tasks =~= before.tasks.drop_last().push(before.tasks.last()));
        lemma_pushed(before.tasks.drop_last(), before.tasks.last());
        lemma_advance_keeps_wf(before, EventView::Stat(stat), before.name);
    }
    match engine.tasks.pop() {
        Some(Task::Link { original, others }) => {
            assert(engine@.tasks =~= before.tasks.drop_last());
            let ghost all = others@;
            let mut others = others;
            others.remove(0);
            assert(others@ =~= all.drop_first());
            engine.ctx.add_processed(1);
            let ghost below = engine@.tasks;
            engine.tasks.push(Task::Link { original, others });
            let ghost linked = below.push(
                TaskView::Link { original, others: all.drop_first() },
            );
            assert(engine@.tasks =~= linked);
            match stat {
                Some(stat) => {
                    match engine.inodes.position(stat.ino) {
                        Some(replaced) => {
                            proof {
                                let at = before.inodes.index_of(stat.ino);
                                assert(before.inodes[at] == stat.ino);
                                assert(at == replaced);
                            }
                            engine.tasks.push(
                                Task::Replace {
                                    original,
                                    replaced,
                                    next: 0,
                                    size: stat.size,
                                    linked: true,
                                },
                            );
                            assert(engine@.tasks =~= linked.push(
                                TaskView::Replace {
                                    original,
                                    replaced,
                                    next: 0,
                                    size: stat.size,
                                    linked: true,
                                },
                            ));
                        },
                        None => {},
                    }
                },
                None => {},
            }
            engine.phase = Phase::Idle;
        },
        _ => {},
    }
}

/// Moves the replacement on top on to its next path. Where the path at
/// hand could not be linked, the file no longer counts as linked.
fn move_on(engine: &mut Engine, failed: bool)
    requires
        old(engine)@.tasks.len() > 0,
        old(engine)@.tasks.last() is Replace,
        old(engine)@.tasks.last()->next < usize::MAX,
    ensures
        final(engine).inodes == old(engine).inodes,
        final(engine)@ == old(engine)@.moved_on(
            old(engine)@.tasks.last()->Replace_original,
            old(engine)@.tasks.last()->replaced,
            old(engine)@.tasks.last()->next,
            old(engine)@.tasks.last()->size,
            old(engine)@.tasks.last()->linked && !failed,
        ),
{
    let ghost before = engine@;
    proof {
        let top = engine.tasks.len() - 1;
        assert(before.tasks.last() == engine.tasks@[top]@);
    }
    match engine.tasks.pop() {
        Some(Task::Replace { original, replaced, next, size, linked }) => {
            assert(engine@.tasks =~= before.tasks.drop_last());
            let ghost below = engine@.tasks;
            let linked = linked && !failed;
            engine.tasks.push(Task::Replace { original, replaced, next: next + 1, size, linked });
            assert(engine@.tasks =~= below.push(
                TaskView::Replace { original, replaced, next: (next + 1) as usize, size, linked },
            ));
            engine.phase = Phase::Idle;
        },
        _ => {},
    }
}

/// Takes up the replacement on top: the next path of the replaced file is
/// to become a link to the file that is kept. In a dry run this is only
/// reported. Otherwise a temporary link is asked for, under a fresh name.
/// When no path is left, the size of the replaced file is counted as saved,
/// once, if every one of its paths was linked; a file of which a path could
/// not be linked still stands on its inode, and nothing is counted for it.
pub fn replace_many_with_hard_link(engine: &mut Engine, notices: &mut Vec<Notice>)
    requires
        old(engine).wf(),
        old(engine)@.phase == Phase::Idle,
        old(engine)@.tasks.len() > 0,
        old(engine)@.tasks.last() is Replace,
    ensures
        final(engine).wf(),
        final(engine)@ == old(engine)@.advance(EventView::Proceed, final(engine)@.name).0,
        notices_view(final(notices)@) == notices_view(old(notices)@) + old(engine)@.advance(
            EventView::Proceed,
            final(engine)@.name,
        ).1,
        old(engine)@.draws_name() ==> is_temp_name(final(engine)@.name),
        !old(engine)@.draws_name() ==> final(engine)@.name == old(engine)@.name,
{
    let ghost before = engine@;
    let ghost reported = notices_view(notices@);
    let top = engine.tasks.len() - 1;
    proof {
        engine.inodes.lemma_wf();
        assert(before.tasks.last() == engine.tasks@[top as int]@);
        assert(before.task_wf(before.tasks[top as int]));
        assert(before.tasks =~= before.tasks.drop_last().push(before.tasks.last()));
        lemma_pushed(before.tasks.drop_last(), before.tasks.last());
    }
    let (original, replaced, next, size, linked) = match &engine.tasks[top] {
        Task::Replace { original, replaced, next, size, linked } => (
            *original,
            *replaced,
            *next,
            *size,
            *linked,
        ),
        _ => (0, 0, 0, 0, false),
    };
    if next >= engine.inodes.paths(replaced).len() {
        proof {
            lemma_advance_keeps_wf(before, EventView::Proceed, before.name);
            assert(before.ctx.processed * u64::MAX <= usize::MAX * u64::MAX) by (nonlinear_arith)
                requires
                    before.ctx.processed <= usize::MAX,
            ;
        }
        if linked {
            engine.ctx.add_bytes(size);
        }
        engine.tasks.pop();
        assert(engine@.tasks =~= before.tasks.drop_last());
        assert(notices_view(notices@) =~= reported + Seq::<NoticeView>::empty());
    } else if engine.ctx.dry_run {
        proof {
            lemma_advance_keeps_wf(before, EventView::Proceed, before.name);
        }
        let notice = Notice::WouldHardlink {
            status: engine.ctx,
            original: engine.inodes.path(original).clone(),
            target: engine.target(replaced, next),
        };
        notices.push(notice);
        assert(notices_view(notices@) =~= reported + seq![notices@.last()@]);
        move_on(engine, false);
    } else {
        let name = fresh_name();
        replace_with_name(engine, name);
        assert(notices_view(notices@) =~= reported + Seq::<NoticeView>::empty());
    }
}

/// Starts replacing the next path of the replacement on top: a temporary
/// link to the file that is kept is asked for, under `name`, beside the
/// path.
pub fn replace_with_name(engine: &mut Engine, name: String)
    requires
        old(engine).wf(),
        old(engine)@.draws_name(),
        is_temp_name(name@),
    ensures
        final(engine).wf(),
        final(engine)@ == (EngineView { phase: Phase::Linking, name: name@, ..old(engine)@ }),
        final(engine)@ == old(engine)@.advance(EventView::Proceed, name@).0,
        final(engine)@.request() == (RequestView::HardLink {
            original: old(engine)@.path(old(engine)@.tasks.last()->Replace_original),
            target: old(engine)@.links[old(engine)@.tasks.last()->replaced as int][old(
                engine,
            )@.tasks.last()->next as int],
            name: name@,
        }),
{
    proof {
        lemma_advance_keeps_wf(engine@, EventView::Proceed, name@);
    }
    engine.name = name;
    engine.phase = Phase::Linking;
}

/// Takes in how a step of the replacement under way went, and settles what
/// follows. A link that was made is renamed onto the path; once that is
/// done the path is reported as linked. A link that could not be made
/// leaves the path untouched and is warned of. A link that could not be
/// renamed is removed again, and the warning waits for how the removal
/// went: it names the rename alone, or both failures.
pub fn replace_with_hard_link(
    engine: &mut Engine,
    outcome: Result<(), String>,
    notices: &mut Vec<Notice>,
)
    requires
        old(engine).wf(),
        old(engine)@.phase == Phase::Linking || old(engine)@.phase == Phase::Renaming || old(
            engine,
        )@.phase == Phase::Removing,
    ensures
        final(engine).wf(),
        final(engine)@ == old(engine)@.advance(
            (Event::Outcome(outcome))@,
            old(engine)@.name,
        ).0,
        notices_view(final(notices)@) == notices_view(old(notices)@) + old(engine)@.advance(
            (Event::Outcome(outcome))@,
            old(engine)@.name,
        ).1,
{
    let ghost before = engine@;
    let ghost reported = notices_view(notices@);
    let ghost event = (Event::Outcome(outcome))@;
    let top = engine.tasks.len() - 1;
    proof {
        engine.inodes.lemma_wf();
        assert(before.tasks.last() == engine.tasks@[top as int]@);
        assert(before.task_wf(before.tasks[top as int]));
        lemma_advance_keeps_wf(before, event, before.name);
    }
    let (original, replaced, next) = match &engine.tasks[top] {
        Task::Replace { original, replaced, next, .. } => (*original, *replaced, *next),
        _ => (0, 0, 0),
    };
    let paths = engine.inodes.paths(replaced).len();
    assert(next < paths);
    match (engine.phase, outcome) {
        (Phase::Linking, Ok(_)) => {
            engine.phase = Phase::Renaming;
            assert(notices_view(notices@) =~= reported + Seq::<NoticeView>::empty());
        },
        (Phase::Linking, Err(error)) => {
            let notice = Notice::LinkFailed {
                original: engine.inodes.path(original).clone(),
                target: engine.target(replaced, next),
                name: engine.name.clone(),
                failure: Failure::Link { error },
            };
            notices.push(notice);
            assert(notices_view(notices@) =~= reported + seq![notices@.last()@]);
            move_on(engine, true);
        },
        (Phase::Renaming, Ok(_)) => {
            let notice = Notice::Hardlinked {
                status: engine.ctx,
                original: engine.inodes.path(original).clone(),
                target: engine.target(replaced, next),
            };
            notices.push(notice);
            assert(notices_view(notices@) =~= reported + seq![notices@.last()@]);
            move_on(engine, false);
        },
        (Phase::Renaming, Err(error)) => {
            engine.rename_error = error;
            engine.phase = Phase::Removing;
            assert(notices_view(notices@) =~= reported + Seq::<NoticeView>::empty());
        },
        (Phase::Removing, Ok(_)) => {
            let notice = Notice::LinkFailed {
                original: engine.inodes.path(original).clone(),
                target: engine.target(replaced, next),
                name: engine.name.clone(),
                failure: Failure::Rename { error: engine.rename_error.clone() },
            };
            notices.push(notice);
            assert(notices_view(notices@) =~= reported + seq![notices@.last()@]);
            move_on(engine, true);
        },
        (Phase::Removing, Err(error)) => {
            let notice = Notice::LinkFailed {
                original: engine.inodes.path(original).clone(),
                target: engine.target(replaced, next),
                name: engine.name.clone(),
                failure: Failure::RenameAndRemove {
                    error: engine.rename_error.clone(),
                    cleanup: error,
                },
            };
            notices.push(notice);
            assert(notices_view(notices@) =~= reported + seq![notices@.last()@]);
            move_on(engine, true);
        },
        _ => {},
    }
}

/// What sort of task a task is.
enum Kind {
    Group,
    Link,
    Replace,
}

impl Task {
    /// What sort of task this is.
    fn kind(&self) -> (kind: Kind)
        ensures
            kind is Group <==> self@ is Group,
            kind is Link <==> self@ is Link,
            kind is Replace <==> self@ is Replace,
    {
        match self {
            Task::Group { .. } => Kind::Group,
            Task::Link { .. } => Kind::Link,
            Task::Replace { .. } => Kind::Replace,
        }
    }
}

/// Takes up the link task on top: when no file is left to replace the
/// task is done; otherwise inode and size of the next file are asked for.
fn advance_link(engine: &mut Engine)
    requires
        old(engine).wf(),
        old(engine)@.phase == Phase::Idle,
        old(engine)@.tasks.len() > 0,
        old(engine)@.tasks.last() is Link,
    ensures
        final(engine).wf(),
        final(engine)@ == old(engine)@.advance(EventView::Proceed, old(engine)@.name).0,
{
    let ghost before = engine@;
    let top = engine.tasks.len() - 1;
    proof {
        assert(before.tasks.last() == engine.tasks@[top as int]@);
        lemma_advance_keeps_wf(before, EventView::Proceed, before.name);
    }
    let done = match &engine.tasks[top] {
        Task::Link { others, .. } => others.len() == 0,
        _ => false,
    };
    if done {
        engine.tasks.pop();
        assert(engine@.tasks =~= before.tasks.drop_last());
    } else {
        engine.phase = Phase::AskedStat;
    }
}

/// Looks at the group on top and deals with it: a file alone is left out,
/// a pair goes to full comparison, a larger group to its next stage, and
/// files taken as equal are set to be linked.
fn advance_group(engine: &mut Engine, notices: &mut Vec<Notice>)
    requires
        old(engine).wf(),
        old(engine)@.phase == Phase::Idle,
        old(engine)@.tasks.len() > 0,
        old(engine)@.tasks.last() is Group,
    ensures
        final(engine).wf(),
        final(engine)@ == old(engine)@.advance(EventView::Proceed, old(engine)@.name).0,
        notices_view(final(notices)@) == notices_view(old(notices)@) + old(engine)@.advance(
            EventView::Proceed,
            old(engine)@.name,
        ).1,
{
    let ghost before = engine@;
    let ghost reported = notices_view(notices@);
    let top = engine.tasks.len() - 1;
    proof {
        assert(before.tasks.last() == engine.tasks@[top as int]@);
        assert(before.task_wf(before.tasks[top as int]));
        lemma_advance_keeps_wf(before, EventView::Proceed, before.name);
    }
    let (stage, len) = match &engine.tasks[top] {
        Task::Group { stage, files } => (*stage, files.len()),
        _ => (Stage::Found, 0),
    };
    match stage {
        Stage::Found => {
            if len == 0 {
                engine.tasks.pop();
                assert(engine@.tasks =~= before.tasks.drop_last());
            } else {
                engine.phase = Phase::Asked;
            }
            assert(notices_view(notices@) =~= reported + Seq::<NoticeView>::empty());
        },
        Stage::Metadata => {
            if exclude_if_unique(engine, Reason::UniqueMetadata, notices) {
                assert(notices_view(notices@) =~= reported + before.advance(
                    EventView::Proceed,
                    before.name,
                ).1);
            } else {
                if !dedup_if_pair(engine) {
                    engine.phase = Phase::Asked;
                }
                assert(notices_view(notices@) =~= reported + Seq::<NoticeView>::empty());
            }
        },
        Stage::Prefix => {
            if exclude_if_unique(engine, Reason::UniquePrefix, notices) {
                assert(notices_view(notices@) =~= reported + before.advance(
                    EventView::Proceed,
                    before.name,
                ).1);
            } else {
                if !dedup_if_pair(engine) {
                    engine.phase = Phase::Asked;
                }
                assert(notices_view(notices@) =~= reported + Seq::<NoticeView>::empty());
            }
        },
        Stage::Hash => {
            if exclude_if_unique(engine, Reason::UniqueHash, notices) {
                assert(notices_view(notices@) =~= reported + before.advance(
                    EventView::Proceed,
                    before.name,
                ).1);
            } else {
                if engine.paranoid {
                    engine.phase = Phase::Asked;
                } else {
                    hardlink_dedup(engine);
                }
                assert(notices_view(notices@) =~= reported + Seq::<NoticeView>::empty());
            }
        },
        Stage::Content => {
            if exclude_if_unique(engine, Reason::UniqueContents, notices) {
                assert(notices_view(notices@) =~= reported + before.advance(
                    EventView::Proceed,
                    before.name,
                ).1);
            } else {
                hardlink_dedup(engine);
                assert(notices_view(notices@) =~= reported + Seq::<NoticeView>::empty());
            }
        },
    }
}

impl Engine {
    /// One step of the run. `event` is what the driver found on carrying
    /// out the request before; the step settles what follows from it and
    /// returns what there is to report. Afterwards `request` says what to
    /// do next.
    pub fn step(&mut self, event: Event) -> (notices: Vec<Notice>)
        requires
            old(self).wf(),
            old(self)@.accepts(event@),
        ensures
            final(self).wf(),
            final(self)@ == old(self)@.advance(event@, final(self)@.name).0,
            notices_view(notices@) == old(self)@.advance(event@, final(self)@.name).1,
            old(self)@.draws_name() ==> is_temp_name(final(self)@.name),
            !old(self)@.draws_name() ==> final(self)@.name == old(self)@.name,
    {
        let ghost before = self@;
        let mut notices: Vec<Notice> = Vec::new();
        assert(notices_view(notices@) =~= Seq::<NoticeView>::empty());
        proof {
            if self.tasks.len() > 0 {
                assert(before.tasks.last() == self.tasks@[self.tasks.len() - 1]@);
            }
        }
        match self.phase {
            Phase::Fresh => {
                notices.push(Notice::Processing { total: self.ctx.total });
                self.phase = Phase::Idle;
                assert(notices_view(notices@) =~= seq![
                    NoticeView::Processing { total: before.ctx.total },
                ]);
                proof {
                    lemma_advance_keeps_wf(before, event@, before.name);
                }
            },
            Phase::Finished => {},
            Phase::Idle => {
                if self.tasks.len() == 0 {
                    notices.push(Notice::Saved { bytes: self.ctx.bytes_deduped });
                    self.phase = Phase::Finished;
                    assert(notices_view(notices@) =~= seq![
                        NoticeView::Saved { bytes: before.ctx.bytes_deduped },
                    ]);
                    proof {
                        lemma_advance_keeps_wf(before, event@, before.name);
                    }
                } else {
                    match self.tasks[self.tasks.len() - 1].kind() {
                        Kind::Group => advance_group(self, &mut notices),
                        Kind::Link => advance_link(self),
                        Kind::Replace => replace_many_with_hard_link(self, &mut notices),
                    }
                }
            },
            Phase::Asked => {
                let next = match &self.tasks[self.tasks.len() - 1] {
                    Task::Group { stage, files } => classify(*stage, files.len(), self.paranoid),
                    _ => Verdict::Nothing,
                };
                match event {
                    Event::Metadata(answers) => {
                        refine_by_metadata(self, answers, &mut notices);
                    },
                    Event::Bytes(answers) => {
                        match next {
                            Verdict::Refine(Stage::Content) => {
                                same_content_dedup(self, answers, &mut notices);
                            },
                            Verdict::Refine(stage) => {
                                refine_by_bytes(self, stage, answers, &mut notices);
                            },
                            _ => {},
                        }
                    },
                    _ => {},
                }
            },
            Phase::AskedStat => {
                match event {
                    Event::Stat(stat) => {
                        link_next(self, stat);
                    },
                    _ => {},
                }
            },
            Phase::Linking | Phase::Renaming | Phase::Removing => {
                match event {
                    Event::Outcome(outcome) => {
                        replace_with_hard_link(self, outcome, &mut notices);
                    },
                    _ => {},
                }
            },
        }
        notices
    }
}

} // verus!
