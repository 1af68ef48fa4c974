//! The run as a machine, in mathematical terms: its states, what each step
//! makes of a state and of what the driver found, and what holds of every
//! run.

use crate::cascade::{hash_keyed, metadata_keyed, prefix_keyed};
use crate::content::content_groups;
use crate::grouping::{grouped, total_len, FileId};
use crate::naming::is_temp_name;
use crate::progress::DedupContext;
use crate::protocol::{EventView, FailureView, NoticeView, Reason, RequestView, Stage, Stat};
use vstd::prelude::*;

verus! {

/// Where the engine stands between two steps.
#[derive(Clone, Copy, Debug, PartialEq, Eq, Structural)]
pub enum Phase {
    /// Nothing has been reported yet.
    Fresh,
    /// The next task can be taken up.
    Idle,
    /// The group on top waits for what its next stage needs.
    Asked,
    /// The link task on top waits for the inode and size of its next file.
    AskedStat,
    /// The replacement on top waits for its temporary link to be made,
    Linking,
    /// for the temporary link to be renamed onto the path,
    Renaming,
    /// for the temporary link to be removed after a failed rename.
    Removing,
    /// The run is over.
    Finished,
}

/// A piece of work that is still to do.
pub enum TaskView {
    /// A group that `stage` formed and nobody has looked at since.
    Group { stage: Stage, files: Seq<FileId> },
    /// Files of equal content: `others` are still to be replaced by links
    /// to `original`.
    Link { original: FileId, others: Seq<FileId> },
    /// A file of `size` bytes that is being replaced: the paths of the
    /// inode at `replaced`, from the one at `next` on, are still to be
    /// linked to `original`. `linked` says whether every path before `next`
    /// was linked, or in a dry run would have been; a single failure makes
    /// it false for good.
    Replace { original: FileId, replaced: FileId, next: usize, size: u64, linked: bool },
}

/// What is to become of a group.
#[derive(Clone, Copy, Debug, PartialEq, Eq, Structural)]
pub enum Verdict {
    /// It is empty: nothing.
    Nothing,
    /// Its one file is left out.
    Exclude(Reason),
    /// It is split further, by the key of the stage named.
    Refine(Stage),
    /// Its files are taken as equal and linked.
    Link,
}

/// Decides on a group of `len` files that `stage` formed. A file alone is
/// left out. Two files go straight to full comparison. Larger groups go
/// through prefix and digest; files of one digest are linked, unless
/// `paranoid` asks for full comparison first.
pub open spec fn verdict(stage: Stage, len: nat, paranoid: bool) -> Verdict {
    match stage {
        Stage::Found => if len == 0 {
            Verdict::Nothing
        } else {
            Verdict::Refine(Stage::Metadata)
        },
        Stage::Metadata => if len <= 1 {
            Verdict::Exclude(Reason::UniqueMetadata)
        } else if len == 2 {
            Verdict::Refine(Stage::Content)
        } else {
            Verdict::Refine(Stage::Prefix)
        },
        Stage::Prefix => if len <= 1 {
            Verdict::Exclude(Reason::UniquePrefix)
        } else if len == 2 {
            Verdict::Refine(Stage::Content)
        } else {
            Verdict::Refine(Stage::Hash)
        },
        Stage::Hash => if len <= 1 {
            Verdict::Exclude(Reason::UniqueHash)
        } else if paranoid {
            Verdict::Refine(Stage::Content)
        } else {
            Verdict::Link
        },
        Stage::Content => if len <= 1 {
            Verdict::Exclude(Reason::UniqueContents)
        } else {
            Verdict::Link
        },
    }
}

/// What was read of each file, where it could be read.
pub open spec fn values_of<T>(answers: Seq<Result<T, Seq<char>>>) -> Seq<Option<T>> {
    Seq::new(
        answers.len(),
        |i: int|
            match answers[i] {
                Ok(value) => Some(value),
                Err(_) => None,
            },
    )
}

/// Why a file could not be read, where it could not.
pub open spec fn errors_of<T>(answers: Seq<Result<T, Seq<char>>>) -> Seq<Option<Seq<char>>> {
    Seq::new(
        answers.len(),
        |i: int|
            match answers[i] {
                Ok(_) => None,
                Err(error) => Some(error),
            },
    )
}

/// Each file with what was read of it.
pub open spec fn paired<T>(files: Seq<FileId>, values: Seq<Option<T>>) -> Seq<
    (FileId, Option<T>),
> {
    Seq::new(files.len(), |i: int| (files[i], values[i]))
}

/// The groups that come of `files` when `stage` splits them by what the
/// driver read.
pub open spec fn refined(stage: Stage, files: Seq<FileId>, event: EventView) -> Seq<Seq<FileId>> {
    match (stage, event) {
        (Stage::Metadata, EventView::Metadata(answers)) => grouped(
            metadata_keyed(paired(files, values_of(answers))),
        ),
        (Stage::Prefix, EventView::Bytes(answers)) => grouped(
            prefix_keyed(paired(files, values_of(answers))),
        ),
        (Stage::Hash, EventView::Bytes(answers)) => grouped(
            hash_keyed(paired(files, values_of(answers))),
        ),
        (Stage::Content, EventView::Bytes(answers)) => content_groups(
            paired(files, values_of(answers)),
        ),
        _ => Seq::empty(),
    }
}

/// Why each file of an answer could not be read, where it could not.
pub open spec fn errors_in(event: EventView) -> Seq<Option<Seq<char>>> {
    match event {
        EventView::Metadata(answers) => errors_of(answers),
        EventView::Bytes(answers) => errors_of(answers),
        _ => Seq::empty(),
    }
}

/// `groups` as tasks, the first group on top of the stack.
pub open spec fn stacked(groups: Seq<Seq<FileId>>, stage: Stage) -> Seq<TaskView> {
    Seq::new(
        groups.len(),
        |i: int| TaskView::Group { stage, files: groups[groups.len() - 1 - i] },
    )
}

/// How many files a task holds that are not yet counted as processed.
pub open spec fn weight(task: TaskView) -> nat {
    match task {
        TaskView::Group { files, .. } => files.len(),
        TaskView::Link { others, .. } => others.len(),
        TaskView::Replace { .. } => 0,
    }
}

/// How many files all tasks hold that are not yet counted as processed.
pub open spec fn pending(tasks: Seq<TaskView>) -> nat
    decreases tasks.len(),
{
    if tasks.len() == 0 {
        0
    } else {
        pending(tasks.drop_last()) + weight(tasks.last())
    }
}

/// The bytes of the files under replacement, which are yet to be counted
/// as saved.
pub open spec fn owed(tasks: Seq<TaskView>) -> nat
    decreases tasks.len(),
{
    if tasks.len() == 0 {
        0
    } else {
        owed(tasks.drop_last()) + match tasks.last() {
            TaskView::Replace { size, .. } => size as nat,
            _ => 0,
        }
    }
}

/// The engine as a mathematical value.
pub struct EngineView {
    /// The inodes found, and
    pub inodes: Seq<u64>,
    /// the paths of each.
    pub links: Seq<Seq<Seq<char>>>,
    pub ctx: DedupContext,
    pub paranoid: bool,
    pub phase: Phase,
    /// The work to do, the next task last.
    pub tasks: Seq<TaskView>,
    /// The name of the temporary link of the replacement under way.
    pub name: Seq<char>,
    /// Why the rename of the replacement under way failed.
    pub rename_error: Seq<char>,
}

impl EngineView {
    /// The path under which `file` is read.
    pub open spec fn path(self, file: FileId) -> Seq<char> {
        self.links[file as int][0]
    }

    /// The paths under which `files` are read.
    pub open spec fn paths(self, files: Seq<FileId>) -> Seq<Seq<char>> {
        Seq::new(files.len(), |i: int| self.path(files[i]))
    }

    /// Whether a task speaks of files and paths that exist.
    pub open spec fn task_wf(self, task: TaskView) -> bool {
        match task {
            TaskView::Group { stage, files } => {
                &&& stage != Stage::Found ==> files.len() > 0
                &&& forall|i: int| 0 <= i < files.len() ==> files[i] < self.links.len()
            },
            TaskView::Link { original, others } => {
                &&& original < self.links.len()
                &&& forall|i: int| 0 <= i < others.len() ==> others[i] < self.links.len()
            },
            TaskView::Replace { original, replaced, next, .. } => {
                &&& original < self.links.len()
                &&& replaced < self.links.len()
                &&& next <= self.links[replaced as int].len()
            },
        }
    }

    /// Whether the phase fits the task on top.
    pub open spec fn phase_wf(self) -> bool {
        match self.phase {
            Phase::Fresh | Phase::Idle | Phase::Finished => true,
            Phase::Asked => self.tasks.len() > 0 && (match self.tasks.last() {
                TaskView::Group { stage, files } => verdict(stage, files.len(), self.paranoid)
                    is Refine,
                _ => false,
            }),
            Phase::AskedStat => self.tasks.len() > 0 && (match self.tasks.last() {
                TaskView::Link { others, .. } => others.len() > 0,
                _ => false,
            }),
            Phase::Linking | Phase::Renaming | Phase::Removing => self.tasks.len() > 0
                && !self.ctx.dry_run && is_temp_name(self.name) && (match self.tasks.last() {
                TaskView::Replace { replaced, next, .. } => next < self.links[replaced as int].len(),
                _ => false,
            }),
        }
    }

    /// What holds of the engine between any two steps. Every inode stands
    /// once and has a path. The files counted as processed and those still
    /// held by tasks are together no more than were found. The bytes
    /// counted as saved are those of files counted as processed.
    pub open spec fn wf(self) -> bool {
        &&& self.inodes.len() == self.links.len()
        &&& self.inodes.no_duplicates()
        &&& forall|g: int|
            0 <= g < self.links.len() ==> 0 < (#[trigger] self.links[g]).len() <= usize::MAX
        &&& self.ctx.total == self.links.len()
        &&& self.ctx.processed + pending(self.tasks) <= self.ctx.total
        &&& self.ctx.bytes_deduped + owed(self.tasks) <= self.ctx.processed * u64::MAX
        &&& forall|t: int| 0 <= t < self.tasks.len() ==> self.task_wf(#[trigger] self.tasks[t])
        &&& self.phase_wf()
    }

    /// Whether `event` answers what the engine asked. After `Asked`, it holds
    /// an answer for each file of the group; after `AskedStat`, an inode that
    /// was found in the scan, if any; while a path is replaced, an outcome.
    /// Where nothing was asked, any event will do.
    pub open spec fn accepts(self, event: EventView) -> bool {
        match self.phase {
            Phase::Asked => match self.tasks.last() {
                TaskView::Group { stage, files } => match (
                    verdict(stage, files.len(), self.paranoid),
                    event,
                ) {
                    (Verdict::Refine(Stage::Metadata), EventView::Metadata(answers)) => answers.len()
                        == files.len(),
                    (Verdict::Refine(Stage::Metadata), _) => false,
                    (Verdict::Refine(_), EventView::Bytes(answers)) => answers.len()
                        == files.len(),
                    _ => false,
                },
                _ => false,
            },
            Phase::AskedStat => match event {
                EventView::Stat(Some(stat)) => self.inodes.contains(stat.ino),
                EventView::Stat(None) => true,
                _ => false,
            },
            Phase::Linking | Phase::Renaming | Phase::Removing => event is Outcome,
            _ => true,
        }
    }

    /// What the engine asks for in this state.
    pub open spec fn request(self) -> RequestView {
        match self.phase {
            Phase::Fresh | Phase::Idle => RequestView::Continue,
            Phase::Finished => RequestView::Done,
            Phase::Asked => match self.tasks.last() {
                TaskView::Group { stage, files } => match verdict(
                    stage,
                    files.len(),
                    self.paranoid,
                ) {
                    Verdict::Refine(Stage::Metadata) => RequestView::ReadMetadata {
                        paths: self.paths(files),
                    },
                    Verdict::Refine(Stage::Prefix) => RequestView::ReadPrefixes {
                        paths: self.paths(files),
                    },
                    _ => RequestView::ReadContents { paths: self.paths(files) },
                },
                _ => RequestView::Continue,
            },
            Phase::AskedStat => match self.tasks.last() {
                TaskView::Link { others, .. } => RequestView::Stat { path: self.path(others[0]) },
                _ => RequestView::Continue,
            },
            Phase::Linking => match self.tasks.last() {
                TaskView::Replace { original, replaced, next, .. } => RequestView::HardLink {
                    original: self.path(original),
                    target: self.links[replaced as int][next as int],
                    name: self.name,
                },
                _ => RequestView::Continue,
            },
            Phase::Renaming => match self.tasks.last() {
                TaskView::Replace { replaced, next, .. } => RequestView::Rename {
                    name: self.name,
                    target: self.links[replaced as int][next as int],
                },
                _ => RequestView::Continue,
            },
            Phase::Removing => match self.tasks.last() {
                TaskView::Replace { replaced, next, .. } => RequestView::Remove {
                    name: self.name,
                    target: self.links[replaced as int][next as int],
                },
                _ => RequestView::Continue,
            },
        }
    }

    /// Whether the step from this state asks for a temporary link, and so
    /// draws a name for it.
    pub open spec fn draws_name(self) -> bool {
        self.phase == Phase::Idle && self.tasks.len() > 0 && !self.ctx.dry_run && (
        match self.tasks.last() {
            TaskView::Replace { replaced, next, .. } => next < self.links[replaced as int].len(),
            _ => false,
        })
    }

    /// The context with `count` more files processed.
    pub open spec fn counted(self, count: nat) -> DedupContext {
        DedupContext { processed: (self.ctx.processed + count) as usize, ..self.ctx }
    }

    /// The warnings for the files of `files` that could not be read at
    /// `stage`, in their order.
    pub open spec fn warnings(
        self,
        stage: Stage,
        files: Seq<FileId>,
        errors: Seq<Option<Seq<char>>>,
    ) -> Seq<NoticeView>
        decreases errors.len(),
    {
        if errors.len() == 0 {
            Seq::empty()
        } else {
            let before = self.warnings(stage, files, errors.drop_last());
            match errors.last() {
                Some(error) => before.push(
                    NoticeView::Unreadable {
                        stage,
                        path: self.path(files[errors.len() - 1]),
                        error,
                    },
                ),
                None => before,
            }
        }
    }

    /// The group on top is looked at and dealt with as `verdict` says.
    /// A file alone is counted as processed and reported as left out. Files
    /// taken as equal become a link task, and the first of them, which is
    /// kept, is counted as processed.
    pub open spec fn decide(self, stage: Stage, files: Seq<FileId>) -> (EngineView, Seq<NoticeView>) {
        match verdict(stage, files.len(), self.paranoid) {
            Verdict::Nothing => (EngineView { tasks: self.tasks.drop_last(), ..self }, Seq::empty()),
            Verdict::Exclude(reason) => (
                EngineView {
                    ctx: self.counted(files.len()),
                    tasks: self.tasks.drop_last(),
                    ..self
                },
                seq![
                    NoticeView::Excluding {
                        status: self.counted(files.len()),
                        path: self.path(files[0]),
                        reason,
                    },
                ],
            ),
            Verdict::Refine(_) => (EngineView { phase: Phase::Asked, ..self }, Seq::empty()),
            Verdict::Link => (
                EngineView {
                    ctx: self.counted(1),
                    tasks: self.tasks.drop_last().push(
                        TaskView::Link { original: files[0], others: files.drop_first() },
                    ),
                    ..self
                },
                Seq::empty(),
            ),
        }
    }

    /// The answer for the group on top has come: the group gives way to the
    /// groups that come of it, the first of them on top, and each file that
    /// could not be read is warned of.
    pub open spec fn answered(self, stage: Stage, files: Seq<FileId>, event: EventView) -> (
        EngineView,
        Seq<NoticeView>,
    ) {
        match verdict(stage, files.len(), self.paranoid) {
            Verdict::Refine(next) => (
                EngineView {
                    phase: Phase::Idle,
                    tasks: self.tasks.drop_last() + stacked(refined(next, files, event), next),
                    ..self
                },
                self.warnings(next, files, errors_in(event)),
            ),
            _ => (self, Seq::empty()),
        }
    }

    /// Inode and size of the next file to replace have come, or could not be
    /// had. Either way the file counts as processed and leaves the link
    /// task. If they came, all paths of that inode are to be replaced.
    pub open spec fn stat_known(self, original: FileId, others: Seq<FileId>, stat: Option<Stat>) -> EngineView {
        let tasks = self.tasks.drop_last().push(
            TaskView::Link { original, others: others.drop_first() },
        );
        EngineView {
            ctx: self.counted(1),
            phase: Phase::Idle,
            tasks: match stat {
                Some(stat) => tasks.push(
                    TaskView::Replace {
                        original,
                        replaced: self.inodes.index_of(stat.ino) as usize,
                        next: 0,
                        size: stat.size,
                        linked: true,
                    },
                ),
                None => tasks,
            },
            ..self
        }
    }

    /// The replacement on top, moved on to its next path. `linked` says
    /// whether all paths up to there were linked.
    pub open spec fn moved_on(
        self,
        original: FileId,
        replaced: FileId,
        next: usize,
        size: u64,
        linked: bool,
    ) -> EngineView {
        EngineView {
            phase: Phase::Idle,
            tasks: self.tasks.drop_last().push(
                TaskView::Replace { original, replaced, next: (next + 1) as usize, size, linked },
            ),
            ..self
        }
    }

    /// The replacement on top is taken up. When no path is left and every
    /// path was linked, the file is replaced: its size is added to the bytes
    /// saved, once, however many paths it had. When a path could not be
    /// linked the file still stands on its inode and nothing is added. In a
    /// dry run the next path is only reported, and counts as linked: the sum
    /// is then what a real run would save. Otherwise a temporary link under
    /// the fresh `name` is asked for.
    pub open spec fn replace_next(
        self,
        original: FileId,
        replaced: FileId,
        next: usize,
        size: u64,
        linked: bool,
        name: Seq<char>,
    ) -> (EngineView, Seq<NoticeView>) {
        if next >= self.links[replaced as int].len() {
            (
                EngineView {
                    ctx: DedupContext {
                        bytes_deduped: if linked {
                            (self.ctx.bytes_deduped + size) as u128
                        } else {
                            self.ctx.bytes_deduped
                        },
                        ..self.ctx
                    },
                    tasks: self.tasks.drop_last(),
                    ..self
                },
                Seq::empty(),
            )
        } else if self.ctx.dry_run {
            (
                self.moved_on(original, replaced, next, size, linked),
                seq![
                    NoticeView::WouldHardlink {
                        status: self.ctx,
                        original: self.path(original),
                        target: self.links[replaced as int][next as int],
                    },
                ],
            )
        } else {
            (EngineView { phase: Phase::Linking, name, ..self }, Seq::empty())
        }
    }

    /// A step of the replacement under way has been tried. A link that was
    /// made is renamed onto the path. When that is done the path is
    /// reported as linked. A link that could not be made leaves the path
    /// untouched. A link that could not be renamed is removed again; what
    /// failed is reported once the removal has been tried. After a failure
    /// the file no longer counts as linked throughout.
    pub open spec fn outcome_known(
        self,
        original: FileId,
        replaced: FileId,
        next: usize,
        size: u64,
        linked: bool,
        outcome: Result<(), Seq<char>>,
    ) -> (EngineView, Seq<NoticeView>) {
        let target = self.links[replaced as int][next as int];
        let done = self.moved_on(original, replaced, next, size, linked);
        let failed = self.moved_on(original, replaced, next, size, false);
        match (self.phase, outcome) {
            (Phase::Linking, Ok(_)) => (EngineView { phase: Phase::Renaming, ..self }, Seq::empty()),
            (Phase::Linking, Err(error)) => (
                failed,
                seq![
                    NoticeView::LinkFailed {
                        original: self.path(original),
                        target,
                        name: self.name,
                        failure: FailureView::Link { error },
                    },
                ],
            ),
            (Phase::Renaming, Ok(_)) => (
                done,
                seq![
                    NoticeView::Hardlinked {
                        status: self.ctx,
                        original: self.path(original),
                        target,
                    },
                ],
            ),
            (Phase::Renaming, Err(error)) => (
                EngineView { phase: Phase::Removing, rename_error: error, ..self },
                Seq::empty(),
            ),
            (Phase::Removing, Ok(_)) => (
                failed,
                seq![
                    NoticeView::LinkFailed {
                        original: self.path(original),
                        target,
                        name: self.name,
                        failure: FailureView::Rename { error: self.rename_error },
                    },
                ],
            ),
            (Phase::Removing, Err(error)) => (
                failed,
                seq![
                    NoticeView::LinkFailed {
                        original: self.path(original),
                        target,
                        name: self.name,
                        failure: FailureView::RenameAndRemove {
                            error: self.rename_error,
                            cleanup: error,
                        },
                    },
                ],
            ),
            _ => (self, Seq::empty()),
        }
    }

    /// One step: the state that follows on `event`, and what is reported.
    /// `name` is the name drawn for a temporary link, should the step need
    /// one.
    pub open spec fn advance(self, event: EventView, name: Seq<char>) -> (EngineView, Seq<NoticeView>) {
        match self.phase {
            Phase::Fresh => (
                EngineView { phase: Phase::Idle, ..self },
                seq![NoticeView::Processing { total: self.ctx.total }],
            ),
            Phase::Finished => (self, Seq::empty()),
            Phase::Idle => if self.tasks.len() == 0 {
                (
                    EngineView { phase: Phase::Finished, ..self },
                    seq![NoticeView::Saved { bytes: self.ctx.bytes_deduped }],
                )
            } else {
                match self.tasks.last() {
                    TaskView::Group { stage, files } => self.decide(stage, files),
                    TaskView::Link { original, others } => if others.len() == 0 {
                        (EngineView { tasks: self.tasks.drop_last(), ..self }, Seq::empty())
                    } else {
                        (EngineView { phase: Phase::AskedStat, ..self }, Seq::empty())
                    },
                    TaskView::Replace { original, replaced, next, size, linked } => self.replace_next(
                        original,
                        replaced,
                        next,
                        size,
                        linked,
                        name,
                    ),
                }
            },
            Phase::Asked => match self.tasks.last() {
                TaskView::Group { stage, files } => self.answered(stage, files, event),
                _ => (self, Seq::empty()),
            },
            Phase::AskedStat => match (self.tasks.last(), event) {
                (TaskView::Link { original, others }, EventView::Stat(stat)) => (
                    self.stat_known(original, others, stat),
                    Seq::empty(),
                ),
                _ => (self, Seq::empty()),
            },
            Phase::Linking | Phase::Renaming | Phase::Removing => match (
                self.tasks.last(),
                event,
            ) {
                (
                    TaskView::Replace { original, replaced, next, size, linked },
                    EventView::Outcome(outcome),
                ) => self.outcome_known(original, replaced, next, size, linked, outcome),
                _ => (self, Seq::empty()),
            },
        }
    }
}

/// The state in which a run over what was found starts: every inode found
/// is pending, through the file that stands for it.
pub open spec fn initial(
    inodes: Seq<u64>,
    links: Seq<Seq<Seq<char>>>,
    dry_run: bool,
    paranoid: bool,
) -> EngineView {
    EngineView {
        inodes,
        links,
        ctx: DedupContext { dry_run, total: inodes.len() as usize, processed: 0, bytes_deduped: 0 },
        paranoid,
        phase: Phase::Fresh,
        tasks: seq![
            TaskView::Group {
                stage: Stage::Found,
                files: Seq::new(inodes.len(), |i: int| i as FileId),
            },
        ],
        name: Seq::empty(),
        rename_error: Seq::empty(),
    }
}

/// A task put on top adds its weight and what it owes.
pub proof fn lemma_pushed(tasks: Seq<TaskView>, task: TaskView)
    ensures
        pending(tasks.push(task)) == pending(tasks) + weight(task),
        owed(tasks.push(task)) == owed(tasks) + match task {
            TaskView::Replace { size, .. } => size as nat,
            _ => 0,
        },
{
    assert(tasks.push(task).drop_last() =~= tasks);
}

/// Groups put on top add the files they hold, and owe nothing.
pub proof fn lemma_stacked(tasks: Seq<TaskView>, groups: Seq<Seq<FileId>>, stage: Stage)
    ensures
        pending(tasks + stacked(groups, stage)) == pending(tasks) + total_len(groups),
        owed(tasks + stacked(groups, stage)) == owed(tasks),
    decreases groups.len(),
{
    let all = tasks + stacked(groups, stage);
    if groups.len() == 0 {
        assert(all =~= tasks);
    } else {
        let rest = groups.drop_first();
        lemma_stacked(tasks, rest, stage);
        assert(all.drop_last() =~= tasks + stacked(rest, stage));
        assert(all.last() == TaskView::Group { stage, files: groups[0] });
        assert(groups =~= seq![groups[0]] + rest);
        crate::grouping::lemma_total_len_prepend(groups[0], rest);
    }
}

/// The groups that an answer yields hold only files of the group asked
/// about, each at least one, and together no more than it held.
pub proof fn lemma_refined(stage: Stage, files: Seq<FileId>, event: EventView, bound: nat)
    requires
        forall|i: int| 0 <= i < files.len() ==> files[i] < bound,
        match event {
            EventView::Metadata(answers) => answers.len() == files.len(),
            EventView::Bytes(answers) => answers.len() == files.len(),
            _ => true,
        },
    ensures
        total_len(refined(stage, files, event)) <= files.len(),
        forall|g: int|
            0 <= g < refined(stage, files, event).len() ==> (#[trigger] refined(
                stage,
                files,
                event,
            )[g]).len() > 0,
        forall|g: int, j: int|
            0 <= g < refined(stage, files, event).len() && 0 <= j < refined(
                stage,
                files,
                event,
            )[g].len() ==> (#[trigger] refined(stage, files, event)[g][j]) < bound,
{
    let groups = refined(stage, files, event);
    match (stage, event) {
        (Stage::Metadata, EventView::Metadata(answers)) => {
            lemma_grouped_bounded(metadata_keyed(paired(files, values_of(answers))), bound);
        },
        (Stage::Prefix, EventView::Bytes(answers)) => {
            lemma_grouped_bounded(prefix_keyed(paired(files, values_of(answers))), bound);
        },
        (Stage::Hash, EventView::Bytes(answers)) => {
            lemma_grouped_bounded(hash_keyed(paired(files, values_of(answers))), bound);
        },
        (Stage::Content, EventView::Bytes(answers)) => {
            let items = paired(files, values_of(answers));
            crate::content::lemma_content_groups(items);
            assert forall|g: int, j: int|
                0 <= g < groups.len() && 0 <= j < groups[g].len() implies (#[trigger] groups[g][j])
                < bound by {
                let i = choose|i: int|
                    0 <= i < items.len() && (#[trigger] items[i]).0 == content_groups(items)[g][j];
                assert(items[i].0 == files[i]);
            }
        },
        _ => {},
    }
}

/// Groups by key hold only files that were given, each at least one, and
/// together no more than were given.
proof fn lemma_grouped_bounded<K>(items: Seq<(FileId, Option<K>)>, bound: nat)
    requires
        forall|i: int| 0 <= i < items.len() ==> (#[trigger] items[i]).0 < bound,
    ensures
        total_len(grouped(items)) <= items.len(),
        forall|g: int| 0 <= g < grouped(items).len() ==> (#[trigger] grouped(items)[g]).len() > 0,
        forall|g: int, j: int|
            0 <= g < grouped(items).len() && 0 <= j < grouped(items)[g].len() ==> (
            #[trigger] grouped(items)[g][j]) < bound,
{
    crate::grouping::lemma_grouped(items);
    crate::grouping::lemma_grouped_total_len(items);
    assert forall|g: int, j: int|
        0 <= g < grouped(items).len() && 0 <= j < grouped(items)[g].len() implies (
    #[trigger] grouped(items)[g][j]) < bound by {
        let k = crate::grouping::keys_in_order(items)[g];
        let v = grouped(items)[g][j];
        crate::grouping::lemma_members(items, k);
        assert(crate::grouping::members(items, k).contains(v));
        let i = choose|i: int| 0 <= i < items.len() && #[trigger] items[i] == (v, Some(k));
        assert(items[i].0 == v);
    }
}

/// A step leaves the engine well-formed: it keeps every file it holds
/// within what was found, and its counters within their bounds.
pub proof fn lemma_advance_keeps_wf(s: EngineView, event: EventView, name: Seq<char>)
    requires
        s.wf(),
        s.accepts(event),
        s.draws_name() ==> is_temp_name(name),
    ensures
        s.advance(event, name).0.wf(),
{
    let next = s.advance(event, name).0;
    let below = s.tasks.drop_last();
    if s.tasks.len() > 0 {
        assert(s.tasks =~= below.push(s.tasks.last()));
        lemma_pushed(below, s.tasks.last());
        assert(s.task_wf(s.tasks[s.tasks.len() - 1]));
        assert forall|t: int| 0 <= t < below.len() implies s.task_wf(#[trigger] below[t]) by {
            assert(below[t] == s.tasks[t]);
        }
    }
    match s.phase {
        Phase::Fresh => {},
        Phase::Finished => {},
        Phase::Idle => {
            if s.tasks.len() > 0 {
                match s.tasks.last() {
                    TaskView::Group { stage, files } => {
                        match verdict(stage, files.len(), s.paranoid) {
                            Verdict::Link => {
                                let link = TaskView::Link {
                                    original: files[0],
                                    others: files.drop_first(),
                                };
                                lemma_pushed(below, link);
                                assert forall|t: int| 0 <= t < next.tasks.len() implies next.task_wf(
                                    #[trigger] next.tasks[t],
                                ) by {
                                    if t < below.len() {
                                        assert(next.tasks[t] == below[t]);
                                    } else {
                                        assert forall|i: int|
                                            0 <= i < files.drop_first().len() implies files.drop_first()[i]
                                            < next.links.len() by {
                                            assert(files.drop_first()[i] == files[i + 1]);
                                        }
                                    }
                                }
                            },
                            _ => {},
                        }
                    },
                    TaskView::Link { original, others } => {},
                    TaskView::Replace { original, replaced, next: at, size, linked } => {
                        if at >= s.links[replaced as int].len() {
                            assert(s.ctx.bytes_deduped + size <= s.ctx.processed * u64::MAX);
                            assert(s.ctx.processed * u64::MAX <= usize::MAX * u64::MAX)
                                by (nonlinear_arith)
                                requires
                                    s.ctx.processed <= usize::MAX,
                            ;
                        } else if s.ctx.dry_run {
                            let moved = TaskView::Replace {
                                original,
                                replaced,
                                next: (at + 1) as usize,
                                size,
                                linked,
                            };
                            lemma_pushed(below, moved);
                            assert forall|t: int| 0 <= t < next.tasks.len() implies next.task_wf(
                                #[trigger] next.tasks[t],
                            ) by {
                                if t < below.len() {
                                    assert(next.tasks[t] == below[t]);
                                }
                            }
                        }
                    },
                }
            }
        },
        Phase::Asked => {
            match s.tasks.last() {
                TaskView::Group { stage, files } => {
                    match verdict(stage, files.len(), s.paranoid) {
                        Verdict::Refine(refine) => {
                            let groups = refined(refine, files, event);
                            lemma_refined(refine, files, event, s.links.len());
                            lemma_stacked(below, groups, refine);
                            assert forall|t: int| 0 <= t < next.tasks.len() implies next.task_wf(
                                #[trigger] next.tasks[t],
                            ) by {
                                if t < below.len() {
                                    assert(next.tasks[t] == below[t]);
                                } else {
                                    let g = groups.len() - 1 - (t - below.len());
                                    assert(next.tasks[t] == TaskView::Group {
                                        stage: refine,
                                        files: groups[g],
                                    });
                                    assert forall|i: int| 0 <= i < groups[g].len() implies groups[g][i]
                                        < next.links.len() by {
                                        assert(groups[g][i] < s.links.len());
                                    }
                                }
                            }
                        },
                        _ => {},
                    }
                },
                _ => {},
            }
        },
        Phase::AskedStat => {
            match (s.tasks.last(), event) {
                (TaskView::Link { original, others }, EventView::Stat(stat)) => {
                    let link = TaskView::Link { original, others: others.drop_first() };
                    lemma_pushed(below, link);
                    let linked = below.push(link);
                    assert forall|t: int| 0 <= t < linked.len() implies next.task_wf(
                        #[trigger] linked[t],
                    ) by {
                        if t < below.len() {
                            assert(linked[t] == below[t]);
                        } else {
                            assert forall|i: int|
                                0 <= i < others.drop_first().len() implies others.drop_first()[i]
                                < next.links.len() by {
                                assert(others.drop_first()[i] == others[i + 1]);
                            }
                        }
                    }
                    match stat {
                        Some(stat) => {
                            let at = s.inodes.index_of(stat.ino);
                            assert(0 <= at < s.inodes.len() && s.inodes[at] == stat.ino);
                            let replace = TaskView::Replace {
                                original,
                                replaced: at as usize,
                                next: 0,
                                size: stat.size,
                                linked: true,
                            };
                            lemma_pushed(linked, replace);
                            assert forall|t: int| 0 <= t < next.tasks.len() implies next.task_wf(
                                #[trigger] next.tasks[t],
                            ) by {
                                if t < linked.len() {
                                    assert(next.tasks[t] == linked[t]);
                                }
                            }
                        },
                        None => {},
                    }
                },
                _ => {},
            }
        },
        Phase::Linking | Phase::Renaming | Phase::Removing => {
            match (s.tasks.last(), event) {
                (
                    TaskView::Replace { original, replaced, next: at, size, linked },
                    EventView::Outcome(outcome),
                ) => {
                    let moved = TaskView::Replace {
                        original,
                        replaced,
                        next: (at + 1) as usize,
                        size,
                        linked,
                    };
                    let failed = TaskView::Replace {
                        original,
                        replaced,
                        next: (at + 1) as usize,
                        size,
                        linked: false,
                    };
                    lemma_pushed(below, moved);
                    lemma_pushed(below, failed);
                    assert forall|t: int| 0 <= t < below.push(moved).len() implies s.task_wf(
                        #[trigger] below.push(moved)[t],
                    ) by {
                        if t < below.len() {
                            assert(below.push(moved)[t] == below[t]);
                        }
                    }
                    assert forall|t: int| 0 <= t < below.push(failed).len() implies s.task_wf(
                        #[trigger] below.push(failed)[t],
                    ) by {
                        if t < below.len() {
                            assert(below.push(failed)[t] == below[t]);
                        }
                    }
                },
                _ => {},
            }
        },
    }
}

/// In a dry run the engine never asks for anything that changes the disk,
/// and no step ends the dry run.
pub proof fn lemma_dry_run_changes_nothing(s: EngineView, event: EventView, name: Seq<char>)
    requires
        s.wf(),
        s.ctx.dry_run,
    ensures
        !s.request().mutates(),
        s.advance(event, name).0.ctx.dry_run,
{
}

/// The size of the file whose replacement ends with this step, if it
/// was replaced: the replacement on top has no path left, and every path
/// of the file was linked. Otherwise nothing.
pub open spec fn replaced_size(s: EngineView) -> nat {
    if s.phase == Phase::Idle && s.tasks.len() > 0 {
        match s.tasks.last() {
            TaskView::Replace { replaced, next, size, linked, .. } => if linked && next
                >= s.links[replaced as int].len() {
                size as nat
            } else {
                0
            },
            _ => 0,
        }
    } else {
        0
    }
}

/// Bytes count as saved only for files that were replaced: a step adds to
/// them the size of the file whose replacement it ends, once, if every
/// path of that file was linked, and nothing in any other case.
pub proof fn lemma_saved_only_when_replaced(s: EngineView, event: EventView, name: Seq<char>)
    requires
        s.wf(),
        s.accepts(event),
    ensures
        s.advance(event, name).0.ctx.bytes_deduped == s.ctx.bytes_deduped + replaced_size(s),
{
    if s.tasks.len() > 0 {
        assert(s.tasks =~= s.tasks.drop_last().push(s.tasks.last()));
        lemma_pushed(s.tasks.drop_last(), s.tasks.last());
        if s.phase == Phase::Idle && s.tasks.last() is Replace {
            assert(s.ctx.processed * u64::MAX <= usize::MAX * u64::MAX) by (nonlinear_arith)
                requires
                    s.ctx.processed <= usize::MAX,
            ;
        }
    }
}

/// A path that could not be linked is not forgotten: after a link that
/// could not be made, and after a rename that failed, the file under
/// replacement no longer counts as linked, and no later step makes it count
/// as linked again.
pub proof fn lemma_failure_is_remembered(s: EngineView, event: EventView, name: Seq<char>)
    requires
        s.wf(),
        s.accepts(event),
        s.tasks.len() > 0,
        s.tasks.last() is Replace,
    ensures
        ({
            let next = s.advance(event, name).0;
            &&& next.tasks.len() <= s.tasks.len()
            &&& next.tasks.len() == s.tasks.len() ==> {
                &&& next.tasks.last() is Replace
                &&& next.tasks.last()->linked ==> s.tasks.last()->linked
                &&& s.phase == Phase::Removing ==> !next.tasks.last()->linked
                &&& s.phase == Phase::Linking && event is Outcome && event->Outcome_0 is Err
                    ==> !next.tasks.last()->linked
            }
        }),
{
}

/// With `paranoid` set, files are only ever taken as equal after full
/// comparison: no group that a digest formed is linked as it stands.
pub proof fn lemma_paranoid_links_only_compared(stage: Stage, len: nat)
    ensures
        verdict(stage, len, true) is Link ==> stage == Stage::Content,
        stage == Stage::Hash && len >= 2 ==> verdict(stage, len, true) == Verdict::Refine(
            Stage::Content,
        ),
{
}

/// A file that stands alone is never linked: it is left out or, where
/// nothing is known of it yet, asked about.
pub proof fn lemma_single_file_never_linked(stage: Stage, paranoid: bool)
    ensures
        !(verdict(stage, 1, paranoid) is Link),
        stage != Stage::Found ==> verdict(stage, 1, paranoid) is Exclude,
{
}

/// A step only counts up: no file and no byte is ever taken back, and what
/// was found stays as it was.
pub proof fn lemma_advance_counts_up(s: EngineView, event: EventView, name: Seq<char>)
    requires
        s.wf(),
        s.accepts(event),
    ensures
        s.advance(event, name).0.ctx.processed >= s.ctx.processed,
        s.advance(event, name).0.ctx.bytes_deduped >= s.ctx.bytes_deduped,
        s.advance(event, name).0.ctx.total == s.ctx.total,
        s.advance(event, name).0.inodes == s.inodes,
        s.advance(event, name).0.links == s.links,
        s.advance(event, name).0.paranoid == s.paranoid,
{
    if s.tasks.len() > 0 {
        assert(s.tasks =~= s.tasks.drop_last().push(s.tasks.last()));
        lemma_pushed(s.tasks.drop_last(), s.tasks.last());
        if s.phase == Phase::Idle && s.tasks.last() is Replace {
            assert(s.ctx.processed * u64::MAX <= usize::MAX * u64::MAX) by (nonlinear_arith)
                requires
                    s.ctx.processed <= usize::MAX,
            ;
        }
    }
}

/// A stage only splits: every file of a group that an answer yields was in
/// the group asked about.
pub proof fn lemma_refined_splits(
    stage: Stage,
    files: Seq<FileId>,
    event: EventView,
    g: int,
    file: FileId,
)
    requires
        match event {
            EventView::Metadata(answers) => answers.len() == files.len(),
            EventView::Bytes(answers) => answers.len() == files.len(),
            _ => true,
        },
        0 <= g < refined(stage, files, event).len(),
        refined(stage, files, event)[g].contains(file),
    ensures
        files.contains(file),
{
    match (stage, event) {
        (Stage::Metadata, EventView::Metadata(answers)) => {
            let items = metadata_keyed(paired(files, values_of(answers)));
            crate::grouping::lemma_group_shares_key(items, g, file);
            let i = choose|i: int|
                0 <= i < items.len() && #[trigger] items[i] == (
                    file,
                    Some(crate::grouping::keys_in_order(items)[g]),
                );
            assert(files[i] == file);
        },
        (Stage::Prefix, EventView::Bytes(answers)) => {
            let items = prefix_keyed(paired(files, values_of(answers)));
            crate::grouping::lemma_group_shares_key(items, g, file);
            let i = choose|i: int|
                0 <= i < items.len() && #[trigger] items[i] == (
                    file,
                    Some(crate::grouping::keys_in_order(items)[g]),
                );
            assert(files[i] == file);
        },
        (Stage::Hash, EventView::Bytes(answers)) => {
            let items = hash_keyed(paired(files, values_of(answers)));
            crate::grouping::lemma_group_shares_key(items, g, file);
            let i = choose|i: int|
                0 <= i < items.len() && #[trigger] items[i] == (
                    file,
                    Some(crate::grouping::keys_in_order(items)[g]),
                );
            assert(files[i] == file);
        },
        (Stage::Content, EventView::Bytes(answers)) => {
            let items = paired(files, values_of(answers));
            crate::content::lemma_content_groups(items);
            let j = choose|j: int|
                0 <= j < content_groups(items)[g].len() && content_groups(items)[g][j] == file;
            let i = choose|i: int|
                0 <= i < items.len() && (#[trigger] items[i]).0 == content_groups(items)[g][j];
            assert(files[i] == file);
        },
        _ => {},
    }
}

/// What it costs at most to replace one file: a step or five for each path
/// that any inode has.
pub open spec fn link_cost(links: Seq<Seq<Seq<char>>>) -> nat {
    5 * total_len(links) + 5
}

/// What it costs at most to see one file of a group through to the end,
/// the more the earlier the stage.
pub open spec fn stage_cost(stage: Stage, links: Seq<Seq<Seq<char>>>) -> nat {
    link_cost(links) + match stage {
        Stage::Found => 25nat,
        Stage::Metadata => 19nat,
        Stage::Prefix => 13nat,
        Stage::Hash => 7nat,
        Stage::Content => 1nat,
    }
}

/// A bound on the steps that a task still takes.
pub open spec fn task_cost(task: TaskView, links: Seq<Seq<Seq<char>>>) -> nat {
    match task {
        TaskView::Group { stage, files } => 1 + files.len() * stage_cost(stage, links),
        TaskView::Link { others, .. } => 1 + others.len() * link_cost(links),
        TaskView::Replace { replaced, next, .. } => if replaced < links.len() && next
            <= links[replaced as int].len() {
            (1 + 5 * (links[replaced as int].len() - next)) as nat
        } else {
            1
        },
    }
}

/// A bound on the steps that all tasks still take.
pub open spec fn work(tasks: Seq<TaskView>, links: Seq<Seq<Seq<char>>>) -> nat
    decreases tasks.len(),
{
    if tasks.len() == 0 {
        0
    } else {
        work(tasks.drop_last(), links) + task_cost(tasks.last(), links)
    }
}

/// How far a phase is from the next task.
pub open spec fn phase_cost(phase: Phase) -> nat {
    match phase {
        Phase::Fresh => 5,
        Phase::Idle => 4,
        Phase::Linking => 3,
        Phase::Renaming => 2,
        Phase::Asked | Phase::AskedStat | Phase::Removing => 1,
        Phase::Finished => 0,
    }
}

impl EngineView {
    /// A bound on the steps that the run still takes.
    pub open spec fn effort(self) -> nat {
        phase_cost(self.phase) + work(self.tasks, self.links)
    }
}

/// A task put on top adds its cost.
proof fn lemma_work_pushed(tasks: Seq<TaskView>, task: TaskView, links: Seq<Seq<Seq<char>>>)
    ensures
        work(tasks.push(task), links) == work(tasks, links) + task_cost(task, links),
{
    assert(tasks.push(task).drop_last() =~= tasks);
}

/// Groups put on top cost one step each, and for each file what its stage
/// costs.
proof fn lemma_work_stacked(
    tasks: Seq<TaskView>,
    groups: Seq<Seq<FileId>>,
    stage: Stage,
    links: Seq<Seq<Seq<char>>>,
)
    ensures
        work(tasks + stacked(groups, stage), links) == work(tasks, links) + groups.len()
            + total_len(groups) * stage_cost(stage, links),
    decreases groups.len(),
{
    let all = tasks + stacked(groups, stage);
    let unit = stage_cost(stage, links);
    if groups.len() == 0 {
        assert(all =~= tasks);
        assert(total_len(groups) * unit == 0) by (nonlinear_arith)
            requires
                total_len(groups) == 0,
        ;
    } else {
        let rest = groups.drop_first();
        lemma_work_stacked(tasks, rest, stage, links);
        assert(all.drop_last() =~= tasks + stacked(rest, stage));
        assert(all.last() == TaskView::Group { stage, files: groups[0] });
        assert(groups =~= seq![groups[0]] + rest);
        crate::grouping::lemma_total_len_prepend(groups[0], rest);
        assert((groups[0].len() + total_len(rest)) * unit == groups[0].len() * unit + total_len(
            rest,
        ) * unit) by (nonlinear_arith);
    }
}

/// Every step brings the run nearer to its end: as long as the driver
/// answers what is asked, the run is over after finitely many steps.
pub proof fn lemma_advance_makes_progress(s: EngineView, event: EventView, name: Seq<char>)
    requires
        s.wf(),
        s.accepts(event),
        s.phase != Phase::Finished,
    ensures
        s.advance(event, name).0.effort() < s.effort(),
{
    let next = s.advance(event, name).0;
    let links = s.links;
    let below = s.tasks.drop_last();
    let unit = link_cost(links);
    if s.tasks.len() > 0 {
        assert(s.tasks =~= below.push(s.tasks.last()));
        lemma_work_pushed(below, s.tasks.last(), links);
        assert(s.task_wf(s.tasks[s.tasks.len() - 1]));
    }
    match s.phase {
        Phase::Fresh => {},
        Phase::Finished => {},
        Phase::Idle => {
            if s.tasks.len() > 0 {
                match s.tasks.last() {
                    TaskView::Group { stage, files } => {
                        match verdict(stage, files.len(), s.paranoid) {
                            Verdict::Link => {
                                let link = TaskView::Link {
                                    original: files[0],
                                    others: files.drop_first(),
                                };
                                lemma_work_pushed(below, link, links);
                                let n = files.len();
                                let w = stage_cost(stage, links);
                                assert((n - 1) * unit < n * w) by (nonlinear_arith)
                                    requires
                                        n >= 1,
                                        w > unit,
                                        unit >= 0,
                                ;
                            },
                            _ => {},
                        }
                    },
                    TaskView::Link { original, others } => {},
                    TaskView::Replace { original, replaced, next: at, size, linked } => {
                        if at < s.links[replaced as int].len() && s.ctx.dry_run {
                            let moved = TaskView::Replace {
                                original,
                                replaced,
                                next: (at + 1) as usize,
                                size,
                                linked,
                            };
                            lemma_work_pushed(below, moved, links);
                        }
                    },
                }
            }
        },
        Phase::Asked => {
            match s.tasks.last() {
                TaskView::Group { stage, files } => {
                    match verdict(stage, files.len(), s.paranoid) {
                        Verdict::Refine(refine) => {
                            let groups = refined(refine, files, event);
                            lemma_refined(refine, files, event, s.links.len());
                            crate::grouping::lemma_total_len_counts(groups);
                            lemma_work_stacked(below, groups, refine, links);
                            let n = files.len();
                            let t = total_len(groups);
                            let k = groups.len();
                            let w = stage_cost(stage, links);
                            let v = stage_cost(refine, links);
                            assert(w >= v + 6);
                            assert(k + t * v + 3 < n * w) by (nonlinear_arith)
                                requires
                                    n >= 1,
                                    k <= t,
                                    t <= n,
                                    w >= v + 6,
                                    v >= 0,
                            ;
                        },
                        _ => {},
                    }
                },
                _ => {},
            }
        },
        Phase::AskedStat => {
            match (s.tasks.last(), event) {
                (TaskView::Link { original, others }, EventView::Stat(stat)) => {
                    let link = TaskView::Link { original, others: others.drop_first() };
                    lemma_work_pushed(below, link, links);
                    let linked = below.push(link);
                    let m = others.len();
                    assert(m * unit == (m - 1) * unit + unit) by (nonlinear_arith);
                    match stat {
                        Some(stat) => {
                            let at = s.inodes.index_of(stat.ino);
                            assert(0 <= at < s.inodes.len() && s.inodes[at] == stat.ino);
                            let replace = TaskView::Replace {
                                original,
                                replaced: at as usize,
                                next: 0,
                                size: stat.size,
                                linked: true,
                            };
                            lemma_work_pushed(linked, replace, links);
                            crate::grouping::lemma_total_len_bounds(links, at);
                        },
                        None => {},
                    }
                },
                _ => {},
            }
        },
        Phase::Linking | Phase::Renaming | Phase::Removing => {
            match (s.tasks.last(), event) {
                (
                    TaskView::Replace { original, replaced, next: at, size, linked },
                    EventView::Outcome(outcome),
                ) => {
                    let moved = TaskView::Replace {
                        original,
                        replaced,
                        next: (at + 1) as usize,
                        size,
                        linked,
                    };
                    let failed = TaskView::Replace {
                        original,
                        replaced,
                        next: (at + 1) as usize,
                        size,
                        linked: false,
                    };
                    lemma_work_pushed(below, moved, links);
                    lemma_work_pushed(below, failed, links);
                },
                _ => {},
            }
        },
    }
}

/// A run over nothing does no work: it reports that it starts on no files
/// and that nothing was saved, asks for nothing, and is over.
pub proof fn lemma_empty_run(start: EngineView, event: EventView, name: Seq<char>)
    requires
        start.phase == Phase::Fresh,
        start.ctx.total == 0,
        start.ctx.bytes_deduped == 0,
        start.tasks == seq![TaskView::Group { stage: Stage::Found, files: Seq::<FileId>::empty() }],
    ensures
        ({
            let first = start.advance(event, name);
            let second = first.0.advance(event, name);
            let third = second.0.advance(event, name);
            &&& first.1 == seq![NoticeView::Processing { total: 0 }]
            &&& first.0.request() == RequestView::Continue
            &&& second.1 == Seq::<NoticeView>::empty()
            &&& second.0.request() == RequestView::Continue
            &&& third.1 == seq![NoticeView::Saved { bytes: 0 }]
            &&& third.0.request() == RequestView::Done
            &&& third.0.ctx.processed == start.ctx.processed
        }),
{
    let first = start.advance(event, name);
    assert(first.0.tasks.last() == start.tasks[0]);
    let second = first.0.advance(event, name);
    assert(second.0.tasks =~= Seq::<TaskView>::empty());
}

} // verus!
