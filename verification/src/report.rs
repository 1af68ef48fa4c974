//! The lines that a run writes to its log.

use crate::naming::{temp_path, temp_text};
use crate::progress::{percent_hundredths, DedupContext};
use crate::protocol::{Failure, FailureView, Notice, NoticeView, Reason, Stage};
use std::path::Path;
use vstd::prelude::*;
use vstd::string::StringExecFns;

verus! {

/// A path as the log shows it: in quotes, with what could not be read in a
/// line written as an escape.
pub uninterp spec fn path_text(path: Seq<char>) -> Seq<char>;

/// The `Debug` text of `std::path::Path`, taken on trust: what it gives for
/// a path depends on the characters of the path alone.
#[verifier::external_body]
fn quoted(path: &str) -> (text: String)
    ensures
        text@ == path_text(path@),
{
    format!("{:?}", Path::new(path))
}

/// The character that stands for a digit.
pub open spec fn digit(d: nat) -> char {
    if d == 0 {
        '0'
    } else if d == 1 {
        '1'
    } else if d == 2 {
        '2'
    } else if d == 3 {
        '3'
    } else if d == 4 {
        '4'
    } else if d == 5 {
        '5'
    } else if d == 6 {
        '6'
    } else if d == 7 {
        '7'
    } else if d == 8 {
        '8'
    } else {
        '9'
    }
}

/// A number written out in decimal, without leading zeros.
pub open spec fn decimal(n: nat) -> Seq<char>
    decreases n,
{
    if n < 10 {
        seq![digit(n)]
    } else {
        decimal(n / 10).push(digit(n % 10))
    }
}

/// Hundredths of a percent written as a percentage with two decimals.
pub open spec fn percent_text(hundredths: nat) -> Seq<char> {
    decimal(hundredths / 100) + seq!['.', digit((hundredths % 100) / 10), digit(hundredths % 10)]
}

/// The state of a run as each line shows it: the share of files dealt
/// with, whether the run is a dry one, and the bytes saved so far.
pub open spec fn status_text(ctx: DedupContext) -> Seq<char> {
    percent_text(percent_hundredths(ctx.processed as nat, ctx.total as nat)) + "%"@ + (
    if ctx.dry_run {
        "; dry run"@
    } else {
        Seq::<char>::empty()
    }) + "; "@ + decimal(ctx.bytes_deduped as nat) + " bytes deduped"@
}

/// Why a file is left out, in words.
pub open spec fn reason_text(reason: Reason) -> Seq<char> {
    match reason {
        Reason::UniqueMetadata => "It has unique size, uid, gid, or mode."@,
        Reason::UniquePrefix => "It has a unique prefix."@,
        Reason::UniqueHash => "It has a unique hash."@,
        Reason::UniqueContents => "It has unique contents."@,
    }
}

/// What could not be had of a file at a stage, in words.
pub open spec fn stage_text(stage: Stage) -> Seq<char> {
    match stage {
        Stage::Found | Stage::Metadata => "Failed to fetch its metadata."@,
        Stage::Prefix => "Failed to read its first few bytes."@,
        Stage::Hash => "Failed to calculate its hash."@,
        Stage::Content => "Failed to read its contents."@,
    }
}

/// The temporary link `name` for `target` as the log shows it: by its
/// path; by its name alone where the target has no directory.
pub open spec fn temp_shown(target: Seq<char>, name: Seq<char>) -> Seq<char> {
    match temp_text(target, name) {
        Some(temp) => path_text(temp),
        None => path_text(name),
    }
}

/// How replacing `target` by a link to `original` failed, in words. When
/// the temporary link could not be removed either, both failures are named.
pub open spec fn failure_text(
    original: Seq<char>,
    target: Seq<char>,
    name: Seq<char>,
    failure: FailureView,
) -> Seq<char> {
    match failure {
        FailureView::Link { error } => "Failed to create temporary hardlink of "@ + path_text(
            original,
        ) + " at "@ + temp_shown(target, name) + ". Error: "@ + error,
        FailureView::Rename { error } => "Failed to replace target file "@ + path_text(target)
            + " with temporary hardlink "@ + temp_shown(target, name) + ". Error: "@ + error,
        FailureView::RenameAndRemove { error, cleanup } => "After error 'Failed to replace target file "@
            + path_text(target) + " with temporary hardlink "@ + temp_shown(target, name)
            + ". Error: "@ + error + "' also failed to delete temporary file "@ + temp_shown(
            target,
            name,
        ) + " with error: "@ + cleanup,
    }
}

/// The line that the log shows for a notice.
pub open spec fn line_text(notice: NoticeView) -> Seq<char> {
    match notice {
        NoticeView::Processing { total } => "Processing "@ + decimal(total as nat) + " files."@,
        NoticeView::Excluding { status, path, reason } => "["@ + status_text(status)
            + "] Excluding "@ + path_text(path) + " from deduplication. "@ + reason_text(reason),
        NoticeView::WouldHardlink { status, original, target } => "["@ + status_text(status)
            + "] Would hardlink "@ + path_text(original) + " to "@ + path_text(target) + "."@,
        NoticeView::Hardlinked { status, original, target } => "["@ + status_text(status)
            + "] Hardlinked "@ + path_text(original) + " to "@ + path_text(target) + "."@,
        NoticeView::Saved { bytes } => "Estimated saved bytes: "@ + decimal(bytes as nat) + "."@,
        NoticeView::Unreadable { stage, path, error } => "Skipping file "@ + path_text(path)
            + ". "@ + stage_text(stage) + " Error: "@ + error,
        NoticeView::LinkFailed { original, target, name, failure } => "Failed to hardlink "@
            + path_text(original) + " to "@ + path_text(target) + ". Error: "@ + failure_text(
            original,
            target,
            name,
            failure,
        ),
    }
}

/// The text of one digit.
fn digit_str(d: u8) -> (text: &'static str)
    requires
        d < 10,
    ensures
        text@ == seq![digit(d as nat)],
{
    proof {
        reveal_strlit("0");
        reveal_strlit("1");
        reveal_strlit("2");
        reveal_strlit("3");
        reveal_strlit("4");
        reveal_strlit("5");
        reveal_strlit("6");
        reveal_strlit("7");
        reveal_strlit("8");
        reveal_strlit("9");
    }
    let text = if d == 0 {
        "0"
    } else if d == 1 {
        "1"
    } else if d == 2 {
        "2"
    } else if d == 3 {
        "3"
    } else if d == 4 {
        "4"
    } else if d == 5 {
        "5"
    } else if d == 6 {
        "6"
    } else if d == 7 {
        "7"
    } else if d == 8 {
        "8"
    } else {
        "9"
    };
    assert(text@ =~= seq![digit(d as nat)]);
    text
}

/// Writes a number out in decimal at the end of `out`.
fn push_decimal(out: &mut String, n: u128)
    ensures
        final(out)@ == old(out)@ + decimal(n as nat),
    decreases n,
{
    if n >= 10 {
        push_decimal(out, n / 10);
    }
    out.append(digit_str((n % 10) as u8));
    assert(out@ =~= old(out)@ + decimal(n as nat));
}

/// Writes a path, as the log shows it, at the end of `out`.
fn push_path(out: &mut String, path: &String)
    ensures
        final(out)@ == old(out)@ + path_text(path@),
{
    let text = quoted(path.as_str());
    out.append(text.as_str());
}

impl DedupContext {
    /// The state of the run as each line of the log shows it, such as
    /// `33.33%; dry run; 120 bytes deduped`.
    pub fn status(&self) -> (text: String)
        ensures
            text@ == status_text(*self),
    {
        proof {
            reveal_strlit(".");
        }
        let hundredths = self.percent();
        let mut text = String::new();
        push_decimal(&mut text, hundredths / 100);
        text.append(".");
        text.append(digit_str(((hundredths % 100) / 10) as u8));
        text.append(digit_str((hundredths % 10) as u8));
        assert(text@ =~= percent_text(hundredths as nat));
        text.append("%");
        if self.dry_run {
            text.append("; dry run");
        }
        text.append("; ");
        push_decimal(&mut text, self.bytes_deduped);
        text.append(" bytes deduped");
        assert(text@ =~= status_text(*self));
        text
    }
}

/// Writes the temporary link `name` for `target` at the end of `out`.
fn push_temp(out: &mut String, target: &String, name: &String)
    ensures
        final(out)@ == old(out)@ + temp_shown(target@, name@),
{
    match temp_path(target.as_str(), name.as_str()) {
        Some(temp) => push_path(out, &temp),
        None => push_path(out, name),
    }
}

impl Failure {
    /// Writes how replacing `target` failed at the end of `out`.
    fn push_text(&self, out: &mut String, original: &String, target: &String, name: &String)
        ensures
            final(out)@ == old(out)@ + failure_text(original@, target@, name@, self@),
    {
        match self {
            Failure::Link { error } => {
                out.append("Failed to create temporary hardlink of ");
                push_path(out, original);
                out.append(" at ");
                push_temp(out, target, name);
                out.append(". Error: ");
                out.append(error.as_str());
            },
            Failure::Rename { error } => {
                out.append("Failed to replace target file ");
                push_path(out, target);
                out.append(" with temporary hardlink ");
                push_temp(out, target, name);
                out.append(". Error: ");
                out.append(error.as_str());
            },
            Failure::RenameAndRemove { error, cleanup } => {
                out.append("After error 'Failed to replace target file ");
                push_path(out, target);
                out.append(" with temporary hardlink ");
                push_temp(out, target, name);
                out.append(". Error: ");
                out.append(error.as_str());
                out.append("' also failed to delete temporary file ");
                push_temp(out, target, name);
                out.append(" with error: ");
                out.append(cleanup.as_str());
            },
        }
        assert(out@ =~= old(out)@ + failure_text(original@, target@, name@, self@));
    }
}

impl Notice {
    /// Whether the notice is a warning: something could not be read or
    /// linked. The other notices tell of the run's progress.
    pub fn is_warning(&self) -> (warning: bool)
        ensures
            warning == (self@ is Unreadable || self@ is LinkFailed),
    {
        match self {
            Notice::Unreadable { .. } => true,
            Notice::LinkFailed { .. } => true,
            _ => false,
        }
    }

    /// The line that the log shows for the notice.
    pub fn line(&self) -> (text: String)
        ensures
            text@ == line_text(self@),
    {
        let mut text = String::new();
        match self {
            Notice::Processing { total } => {
                text.append("Processing ");
                push_decimal(&mut text, *total as u128);
                text.append(" files.");
            },
            Notice::Excluding { status, path, reason } => {
                text.append("[");
                text.append(status.status().as_str());
                text.append("] Excluding ");
                push_path(&mut text, path);
                text.append(" from deduplication. ");
                text.append(
                    match reason {
                        Reason::UniqueMetadata => "It has unique size, uid, gid, or mode.",
                        Reason::UniquePrefix => "It has a unique prefix.",
                        Reason::UniqueHash => "It has a unique hash.",
                        Reason::UniqueContents => "It has unique contents.",
                    },
                );
            },
            Notice::WouldHardlink { status, original, target } => {
                text.append("[");
                text.append(status.status().as_str());
                text.append("] Would hardlink ");
                push_path(&mut text, original);
                text.append(" to ");
                push_path(&mut text, target);
                text.append(".");
            },
            Notice::Hardlinked { status, original, target } => {
                text.append("[");
                text.append(status.status().as_str());
                text.append("] Hardlinked ");
                push_path(&mut text, original);
                text.append(" to ");
                push_path(&mut text, target);
                text.append(".");
            },
            Notice::Saved { bytes } => {
                text.append("Estimated saved bytes: ");
                push_decimal(&mut text, *bytes);
                text.append(".");
            },
            Notice::Unreadable { stage, path, error } => {
                text.append("Skipping file ");
                push_path(&mut text, path);
                text.append(". ");
                text.append(
                    match stage {
                        Stage::Found | Stage::Metadata => "Failed to fetch its metadata.",
                        Stage::Prefix => "Failed to read its first few bytes.",
                        Stage::Hash => "Failed to calculate its hash.",
                        Stage::Content => "Failed to read its contents.",
                    },
                );
                text.append(" Error: ");
                text.append(error.as_str());
            },
            Notice::LinkFailed { original, target, name, failure } => {
                text.append("Failed to hardlink ");
                push_path(&mut text, original);
                text.append(" to ");
                push_path(&mut text, target);
                text.append(". Error: ");
                failure.push_text(&mut text, original, target, name);
            },
        }
        assert(text@ =~= line_text(self@));
        text
    }
}

} // verus!
