//! The stages of the cascade: each splits a group of files by a key that is
//! dearer to come by than the one before.

use crate::grouping::{group_by, grouped, FileId, FileMeta, GroupKey, KeyView};
use crate::hashing::{calculate_hash, sha256};
use vstd::prelude::*;

verus! {

/// How many leading bytes of a file make up its prefix key.
pub const PREFIX_LEN: usize = 64;

impl DeepView for FileMeta {
    type V = FileMeta;

    open spec fn deep_view(&self) -> FileMeta {
        *self
    }
}

/// The first `PREFIX_LEN` bytes of `bytes`, or all of them if there are fewer.
pub open spec fn prefix_of(bytes: Seq<u8>) -> Seq<u8> {
    if bytes.len() <= PREFIX_LEN {
        bytes
    } else {
        bytes.take(PREFIX_LEN as int)
    }
}

/// Each file with its metadata as key.
pub open spec fn metadata_keyed(files: Seq<(FileId, Option<FileMeta>)>) -> Seq<
    (FileId, Option<KeyView>),
> {
    Seq::new(
        files.len(),
        |i: int|
            (
                files[i].0,
                match files[i].1 {
                    Some(meta) => Some(KeyView::Metadata(meta)),
                    None => None,
                },
            ),
    )
}

/// Each file with the prefix of what was read from it as key.
pub open spec fn prefix_keyed(files: Seq<(FileId, Option<Seq<u8>>)>) -> Seq<
    (FileId, Option<KeyView>),
> {
    Seq::new(
        files.len(),
        |i: int|
            (
                files[i].0,
                match files[i].1 {
                    Some(bytes) => Some(KeyView::Prefix(prefix_of(bytes))),
                    None => None,
                },
            ),
    )
}

/// Each file with the digest of its content as key.
pub open spec fn hash_keyed(files: Seq<(FileId, Option<Seq<u8>>)>) -> Seq<
    (FileId, Option<KeyView>),
> {
    Seq::new(
        files.len(),
        |i: int|
            (
                files[i].0,
                match files[i].1 {
                    Some(bytes) => Some(KeyView::Hash(sha256(bytes))),
                    None => None,
                },
            ),
    )
}

/// The prefix key of a file, from the bytes read at its start.
pub fn prefix_key(bytes: &Vec<u8>) -> (key: Vec<u8>)
    ensures
        key@ == prefix_of(bytes@),
{
    let mut key: Vec<u8> = Vec::new();
    let mut i: usize = 0;
    while i < bytes.len() && i < PREFIX_LEN
        invariant
            i <= bytes.len(),
            i <= PREFIX_LEN,
            key@ == bytes@.take(i as int),
        decreases bytes.len() - i,
    {
        key.push(bytes[i]);
        assert(bytes@.take(i + 1) =~= bytes@.take(i as int).push(bytes@[i as int]));
        i += 1;
    }
    assert(key@ =~= prefix_of(bytes@));
    key
}

/// Splits files by size, owner, group and mode. A file whose metadata could
/// not be had is left out.
pub fn same_metadata_groups(files: &Vec<(FileId, Option<FileMeta>)>) -> (groups: Vec<Vec<FileId>>)
    ensures
        groups.deep_view() == grouped(metadata_keyed(files.deep_view())),
{
    let mut keyed: Vec<(FileId, Option<GroupKey>)> = Vec::new();
    let mut i: usize = 0;
    while i < files.len()
        invariant
            i <= files.len(),
            keyed.len() == i,
            forall|j: int|
                0 <= j < i ==> (#[trigger] keyed@[j]).deep_view() == metadata_keyed(
                    files.deep_view(),
                )[j],
        decreases files.len() - i,
    {
        let key = match files[i].1 {
            Some(meta) => Some(GroupKey::Metadata(meta)),
            None => None,
        };
        keyed.push((files[i].0, key));
        i += 1;
    }
    assert(keyed.deep_view() =~= metadata_keyed(files.deep_view()));
    group_by(&keyed)
}

/// Splits files by the first bytes of their content. A file that could not
/// be read is left out.
pub fn same_prefix_groups(files: &Vec<(FileId, Option<Vec<u8>>)>) -> (groups: Vec<Vec<FileId>>)
    ensures
        groups.deep_view() == grouped(prefix_keyed(files.deep_view())),
{
    let mut keyed: Vec<(FileId, Option<GroupKey>)> = Vec::new();
    let mut i: usize = 0;
    while i < files.len()
        invariant
            i <= files.len(),
            keyed.len() == i,
            forall|j: int|
                0 <= j < i ==> (#[trigger] keyed@[j]).deep_view() == prefix_keyed(
                    files.deep_view(),
                )[j],
        decreases files.len() - i,
    {
        let key = match &files[i].1 {
            Some(bytes) => {
                assert(bytes.deep_view() =~= bytes@);
                Some(GroupKey::Prefix(prefix_key(bytes)))
            },
            None => None,
        };
        keyed.push((files[i].0, key));
        i += 1;
    }
    assert(keyed.deep_view() =~= prefix_keyed(files.deep_view()));
    group_by(&keyed)
}

/// Splits files by the digest of their content. A file that could not be
/// read is left out.
pub fn same_hash_groups(files: &Vec<(FileId, Option<Vec<u8>>)>) -> (groups: Vec<Vec<FileId>>)
    ensures
        groups.deep_view() == grouped(hash_keyed(files.deep_view())),
{
    let mut keyed: Vec<(FileId, Option<GroupKey>)> = Vec::new();
    let mut i: usize = 0;
    while i < files.len()
        invariant
            i <= files.len(),
            keyed.len() == i,
            forall|j: int|
                0 <= j < i ==> (#[trigger] keyed@[j]).deep_view() == hash_keyed(
                    files.deep_view(),
                )[j],
        decreases files.len() - i,
    {
        let key = match &files[i].1 {
            Some(bytes) => {
                assert(bytes.deep_view() =~= bytes@);
                Some(GroupKey::Hash(calculate_hash(bytes.as_slice())))
            },
            None => None,
        };
        keyed.push((files[i].0, key));
        i += 1;
    }
    assert(keyed.deep_view() =~= hash_keyed(files.deep_view()));
    group_by(&keyed)
}

/// Files whose size, owner, group or mode differ never share a group.
/// Every later stage only splits what this stage formed, so such files
/// are never linked, whatever their content.
pub proof fn lemma_differing_metadata_never_grouped(
    files: Seq<(FileId, Option<FileMeta>)>,
    g: int,
    i: int,
    j: int,
)
    requires
        0 <= g < grouped(metadata_keyed(files)).len(),
        0 <= i < files.len(),
        0 <= j < files.len(),
        grouped(metadata_keyed(files))[g].contains(files[i].0),
        grouped(metadata_keyed(files))[g].contains(files[j].0),
        forall|a: int, b: int|
            0 <= a < files.len() && 0 <= b < files.len() && (#[trigger] files[a]).0 == (
            #[trigger] files[b]).0 ==> files[a].1 == files[b].1,
    ensures
        files[i].1 is Some,
        files[i].1 == files[j].1,
{
    let items = metadata_keyed(files);
    assert forall|a: int, b: int|
        0 <= a < items.len() && 0 <= b < items.len() && (#[trigger] items[a]).0 == (
        #[trigger] items[b]).0 implies items[a].1 == items[b].1 by {
        assert(files[a].0 == files[b].0);
    }
    crate::grouping::lemma_same_group_same_key(items, g, i, j);
    assert(items[i].1 == items[j].1);
}

/// Files of equal size, owner, group and mode fall into one group.
pub proof fn lemma_equal_metadata_grouped(files: Seq<(FileId, Option<FileMeta>)>, i: int, j: int)
    requires
        0 <= i < files.len(),
        0 <= j < files.len(),
        files[i].1 is Some,
        files[i].1 == files[j].1,
    ensures
        exists|g: int|
            0 <= g < grouped(metadata_keyed(files)).len() && (#[trigger] grouped(
                metadata_keyed(files),
            )[g]).contains(files[i].0) && grouped(metadata_keyed(files))[g].contains(files[j].0),
{
    crate::grouping::lemma_same_key_same_group(metadata_keyed(files), i, j);
}

} // verus!
