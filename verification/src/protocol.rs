//! What passes between the engine and its driver: what the engine asks to
//! have done, what the driver found, and what the engine has to report.

use crate::grouping::FileMeta;
use crate::progress::DedupContext;
use vstd::prelude::*;

verus! {

/// A stage of the cascade, named by the key that it splits groups by.
/// `Found` is where every file starts: nothing is known of it yet.
#[derive(Clone, Copy, Debug, PartialEq, Eq, Structural)]
pub enum Stage {
    Found,
    Metadata,
    Prefix,
    Hash,
    Content,
}

/// Why a file is left out of deduplication: at which stage it stood alone.
#[derive(Clone, Copy, Debug, PartialEq, Eq, Structural)]
pub enum Reason {
    UniqueMetadata,
    UniquePrefix,
    UniqueHash,
    UniqueContents,
}

/// What is looked up of a file right before it is replaced.
#[derive(Clone, Copy, Debug, PartialEq, Eq, Structural)]
pub struct Stat {
    pub ino: u64,
    pub size: u64,
}

/// How replacing a path failed. The path itself is as it was in each case.
#[derive(Debug, PartialEq, Eq)]
pub enum Failure {
    /// The temporary link could not be made.
    Link { error: String },
    /// The temporary link could not be renamed onto the path; it was removed.
    Rename { error: String },
    /// Nor could the temporary link be removed afterwards.
    RenameAndRemove { error: String, cleanup: String },
}

/// A `Failure` as a mathematical value.
pub enum FailureView {
    Link { error: Seq<char> },
    Rename { error: Seq<char> },
    RenameAndRemove { error: Seq<char>, cleanup: Seq<char> },
}

impl View for Failure {
    type V = FailureView;

    open spec fn view(&self) -> FailureView {
        match self {
            Failure::Link { error } => FailureView::Link { error: error@ },
            Failure::Rename { error } => FailureView::Rename { error: error@ },
            Failure::RenameAndRemove { error, cleanup } => FailureView::RenameAndRemove {
                error: error@,
                cleanup: cleanup@,
            },
        }
    }
}

/// What the engine reports of its work, for the log.
#[derive(Debug, PartialEq, Eq)]
pub enum Notice {
    /// The run starts, over this many files.
    Processing { total: usize },
    /// A file is left out.
    Excluding { status: DedupContext, path: String, reason: Reason },
    /// In a dry run: `target` would have become a link to `original`.
    WouldHardlink { status: DedupContext, original: String, target: String },
    /// `target` is now a link to `original`.
    Hardlinked { status: DedupContext, original: String, target: String },
    /// The run is over.
    Saved { bytes: u128 },
    /// A warning: what `stage` needed of the file could not be read, and
    /// the file drops out of its group.
    Unreadable { stage: Stage, path: String, error: String },
    /// A warning: `target` could not be made a link to `original`.
    LinkFailed { original: String, target: String, name: String, failure: Failure },
}

/// A `Notice` as a mathematical value.
pub enum NoticeView {
    Processing { total: usize },
    Excluding { status: DedupContext, path: Seq<char>, reason: Reason },
    WouldHardlink { status: DedupContext, original: Seq<char>, target: Seq<char> },
    Hardlinked { status: DedupContext, original: Seq<char>, target: Seq<char> },
    Saved { bytes: u128 },
    Unreadable { stage: Stage, path: Seq<char>, error: Seq<char> },
    LinkFailed { original: Seq<char>, target: Seq<char>, name: Seq<char>, failure: FailureView },
}

impl View for Notice {
    type V = NoticeView;

    open spec fn view(&self) -> NoticeView {
        match self {
            Notice::Processing { total } => NoticeView::Processing { total: *total },
            Notice::Excluding { status, path, reason } => NoticeView::Excluding {
                status: *status,
                path: path@,
                reason: *reason,
            },
            Notice::WouldHardlink { status, original, target } => NoticeView::WouldHardlink {
                status: *status,
                original: original@,
                target: target@,
            },
            Notice::Hardlinked { status, original, target } => NoticeView::Hardlinked {
                status: *status,
                original: original@,
                target: target@,
            },
            Notice::Saved { bytes } => NoticeView::Saved { bytes: *bytes },
            Notice::Unreadable { stage, path, error } => NoticeView::Unreadable {
                stage: *stage,
                path: path@,
                error: error@,
            },
            Notice::LinkFailed { original, target, name, failure } => NoticeView::LinkFailed {
                original: original@,
                target: target@,
                name: name@,
                failure: failure@,
            },
        }
    }
}

/// The notices of a list, each as a mathematical value.
pub open spec fn notices_view(notices: Seq<Notice>) -> Seq<NoticeView> {
    Seq::new(notices.len(), |i: int| notices[i]@)
}

/// What the engine asks its driver to do next.
#[derive(Debug, PartialEq, Eq)]
pub enum Request {
    /// Nothing outside: step again.
    Continue,
    /// Size, owner, group and mode of each path.
    ReadMetadata { paths: Vec<String> },
    /// The first bytes of each path, as many as one read gives and no more
    /// than the prefix length.
    ReadPrefixes { paths: Vec<String> },
    /// The whole content of each path.
    ReadContents { paths: Vec<String> },
    /// Inode and size of the path, as they are now.
    Stat { path: String },
    /// A hard link to `original`, named `name`, in the directory of
    /// `target`: at the path that `temp_path` gives for the two.
    HardLink { original: String, target: String, name: String },
    /// The link `name` in the directory of `target` renamed onto `target`.
    Rename { name: String, target: String },
    /// The link `name` in the directory of `target` removed.
    Remove { name: String, target: String },
    /// Nothing: the run is over.
    Done,
}

/// A `Request` as a mathematical value.
pub enum RequestView {
    Continue,
    ReadMetadata { paths: Seq<Seq<char>> },
    ReadPrefixes { paths: Seq<Seq<char>> },
    ReadContents { paths: Seq<Seq<char>> },
    Stat { path: Seq<char> },
    HardLink { original: Seq<char>, target: Seq<char>, name: Seq<char> },
    Rename { name: Seq<char>, target: Seq<char> },
    Remove { name: Seq<char>, target: Seq<char> },
    Done,
}

impl View for Request {
    type V = RequestView;

    open spec fn view(&self) -> RequestView {
        match self {
            Request::Continue => RequestView::Continue,
            Request::ReadMetadata { paths } => RequestView::ReadMetadata {
                paths: paths.deep_view(),
            },
            Request::ReadPrefixes { paths } => RequestView::ReadPrefixes {
                paths: paths.deep_view(),
            },
            Request::ReadContents { paths } => RequestView::ReadContents {
                paths: paths.deep_view(),
            },
            Request::Stat { path } => RequestView::Stat { path: path@ },
            Request::HardLink { original, target, name } => RequestView::HardLink {
                original: original@,
                target: target@,
                name: name@,
            },
            Request::Rename { name, target } => RequestView::Rename { name: name@, target: target@ },
            Request::Remove { name, target } => RequestView::Remove { name: name@, target: target@ },
            Request::Done => RequestView::Done,
        }
    }
}

impl RequestView {
    /// Whether carrying out the request changes anything on disk.
    pub open spec fn mutates(self) -> bool {
        self is HardLink || self is Rename || self is Remove
    }
}

/// What the driver hands back: the answer to the request before.
#[derive(Debug, PartialEq, Eq)]
pub enum Event {
    /// Nothing was asked.
    Proceed,
    /// The metadata of each path asked for, or why it could not be had.
    Metadata(Vec<Result<FileMeta, String>>),
    /// The bytes read of each path asked for, or why they could not be read.
    Bytes(Vec<Result<Vec<u8>, String>>),
    /// Inode and size of the path asked for, if they could be had.
    Stat(Option<Stat>),
    /// Whether the link, the rename or the removal was done, or why not.
    Outcome(Result<(), String>),
}

/// An `Event` as a mathematical value.
pub enum EventView {
    Proceed,
    Metadata(Seq<Result<FileMeta, Seq<char>>>),
    Bytes(Seq<Result<Seq<u8>, Seq<char>>>),
    Stat(Option<Stat>),
    Outcome(Result<(), Seq<char>>),
}

/// Answers on metadata, each as a mathematical value.
pub open spec fn metadata_view(answers: Seq<Result<FileMeta, String>>) -> Seq<
    Result<FileMeta, Seq<char>>,
> {
    Seq::new(
        answers.len(),
        |i: int|
            match answers[i] {
                Ok(meta) => Ok(meta),
                Err(error) => Err(error@),
            },
    )
}

/// Answers in bytes, each as a mathematical value.
pub open spec fn bytes_view(answers: Seq<Result<Vec<u8>, String>>) -> Seq<
    Result<Seq<u8>, Seq<char>>,
> {
    Seq::new(
        answers.len(),
        |i: int|
            match answers[i] {
                Ok(bytes) => Ok(bytes@),
                Err(error) => Err(error@),
            },
    )
}

impl View for Event {
    type V = EventView;

    open spec fn view(&self) -> EventView {
        match self {
            Event::Proceed => EventView::Proceed,
            Event::Metadata(answers) => EventView::Metadata(metadata_view(answers@)),
            Event::Bytes(answers) => EventView::Bytes(bytes_view(answers@)),
            Event::Stat(stat) => EventView::Stat(*stat),
            Event::Outcome(outcome) => EventView::Outcome(
                match outcome {
                    Ok(_) => Ok(()),
                    Err(error) => Err(error@),
                },
            ),
        }
    }
}

} // verus!
