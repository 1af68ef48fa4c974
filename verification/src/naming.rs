//! Names for the temporary links that stand in while a path is replaced,
//! and where such a link is put.

use std::path::Path;
use uuid::Uuid;
use vstd::prelude::*;

verus! {

/// Whether `c` is a digit or a small letter from `a` to `f`.
pub open spec fn is_hex_digit(c: char) -> bool {
    ('0' as u32 <= c as u32 && c as u32 <= '9' as u32) || ('a' as u32 <= c as u32 && c as u32
        <= 'f' as u32)
}

/// The shape of a temporary name: 36 characters, hyphens at the places 8,
/// 13, 18 and 23, hex digits everywhere else. Such a name holds no path
/// separator, so it names an entry of the directory it is put in.
pub open spec fn is_temp_name(name: Seq<char>) -> bool {
    &&& name.len() == 36
    &&& forall|i: int|
        0 <= i < 36 ==> if i == 8 || i == 13 || i == 18 || i == 23 {
            #[trigger] name[i] == '-'
        } else {
            is_hex_digit(name[i])
        }
}

/// A name drawn at random: `uuid::Uuid::new_v4`, written out by the `Display`
/// of `Uuid`. Taken on trust: the text has the hyphenated lower-case shape
/// that `is_temp_name` describes. Nothing is claimed of which name comes;
/// two calls need not agree. The call does not return if the system cannot
/// supply random bytes.
#[verifier::external_body]
pub(crate) fn fresh_name() -> (name: String)
    ensures
        is_temp_name(name@),
{
    Uuid::new_v4().to_string()
}

/// The directory that holds a path, as `std::path::Path::parent` gives it;
/// nothing for a path that has none.
pub uninterp spec fn parent_text(path: Seq<char>) -> Option<Seq<char>>;

/// The path of an entry of a directory, as `std::path::Path::join` gives it.
pub uninterp spec fn joined_text(dir: Seq<char>, entry: Seq<char>) -> Seq<char>;

/// `std::path::Path::parent`, taken on trust: whether a path has a parent,
/// and which, depends on the characters of the path alone. The parent of a
/// path that is text is text.
#[verifier::external_body]
fn parent_of(path: &str) -> (dir: Option<String>)
    ensures
        match dir {
            Some(dir) => parent_text(path@) == Some(dir@),
            None => parent_text(path@) is None,
        },
{
    match Path::new(path).parent() {
        Some(dir) => Some(dir.to_string_lossy().into_owned()),
        None => None,
    }
}

/// `std::path::Path::join`, taken on trust: what it gives depends on the
/// characters of the directory and of the entry alone. Text joined to text
/// is text.
#[verifier::external_body]
fn joined(dir: &str, entry: &str) -> (path: String)
    ensures
        path@ == joined_text(dir@, entry@),
{
    Path::new(dir).join(entry).to_string_lossy().into_owned()
}

/// Where the temporary link for `target` goes: the entry `name` of the
/// directory that holds `target`. A target without a directory has no
/// place for it.
pub open spec fn temp_text(target: Seq<char>, name: Seq<char>) -> Option<Seq<char>> {
    match parent_text(target) {
        Some(dir) => Some(joined_text(dir, name)),
        None => None,
    }
}

/// The path of the temporary link `name` for `target`: beside the target,
/// so that renaming it onto the target stays within one directory.
pub fn temp_path(target: &str, name: &str) -> (path: Option<String>)
    ensures
        match path {
            Some(path) => temp_text(target@, name@) == Some(path@),
            None => temp_text(target@, name@) is None,
        },
{
    match parent_of(target) {
        Some(dir) => Some(joined(dir.as_str(), name)),
        None => None,
    }
}

/// A temporary name holds no path separator.
pub proof fn lemma_temp_name_is_one_component(name: Seq<char>)
    requires
        is_temp_name(name),
    ensures
        !name.contains('/'),
{
    if name.contains('/') {
        let i = choose|i: int| 0 <= i < name.len() && name[i] == '/';
        assert(name[i] == '/');
        assert(is_hex_digit(name[i]) || name[i] == '-');
    }
}

} // verus!
