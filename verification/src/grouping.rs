//! Grouping by key: the one refinement step that every stage of the cascade
//! applies, here as a mathematical function and as the code that computes it.

use std::collections::{HashMap, HashSet};
use vstd::prelude::*;

verus! {

broadcast use vstd::std_specs::hash::group_hash_axioms;

/// A file under consideration: its place among the inode groups of the run.
pub type FileId = usize;

/// What must agree before two files may share an inode: size, owner, group
/// and permission bits.
#[derive(Clone, Copy, Debug, PartialEq, Eq, Structural)]
pub struct FileMeta {
    pub size: u64,
    pub uid: u32,
    pub gid: u32,
    pub mode: u32,
}

/// The key of one refinement stage, in the order in which the stages run.
#[derive(Debug)]
pub enum GroupKey {
    Metadata(FileMeta),
    Prefix(Vec<u8>),
    Hash(Vec<u8>),
}

/// A `GroupKey` as a mathematical value.
pub enum KeyView {
    Metadata(FileMeta),
    Prefix(Seq<u8>),
    Hash(Seq<u8>),
}

impl DeepView for GroupKey {
    type V = KeyView;

    open spec fn deep_view(&self) -> KeyView {
        match self {
            GroupKey::Metadata(meta) => KeyView::Metadata(*meta),
            GroupKey::Prefix(bytes) => KeyView::Prefix(bytes@),
            GroupKey::Hash(bytes) => KeyView::Hash(bytes@),
        }
    }
}

/// The distinct keys of `items`, each at the place of its first occurrence.
/// An item without a key contributes nothing.
pub open spec fn keys_in_order<V, K>(items: Seq<(V, Option<K>)>) -> Seq<K>
    decreases items.len(),
{
    if items.len() == 0 {
        Seq::empty()
    } else {
        let before = keys_in_order(items.drop_last());
        match items.last().1 {
            Some(k) => if before.contains(k) {
                before
            } else {
                before.push(k)
            },
            None => before,
        }
    }
}

/// The distinct values of `items` that carry the key `k`, each at the place
/// of its first occurrence.
pub open spec fn members<V, K>(items: Seq<(V, Option<K>)>, k: K) -> Seq<V>
    decreases items.len(),
{
    if items.len() == 0 {
        Seq::empty()
    } else {
        let before = members(items.drop_last(), k);
        if items.last().1 == Some(k) && !before.contains(items.last().0) {
            before.push(items.last().0)
        } else {
            before
        }
    }
}

/// `items` split by key: one group for each distinct key, in the order of
/// `keys_in_order`, holding the members of that key.
pub open spec fn grouped<V, K>(items: Seq<(V, Option<K>)>) -> Seq<Seq<V>> {
    Seq::new(keys_in_order(items).len(), |g: int| members(items, keys_in_order(items)[g]))
}

/// The number of values in all `groups` together.
pub open spec fn total_len<V>(groups: Seq<Seq<V>>) -> nat
    decreases groups.len(),
{
    if groups.len() == 0 {
        0
    } else {
        total_len(groups.drop_last()) + groups.last().len()
    }
}

/// A key is listed exactly when some item carries it, and it is listed once.
pub proof fn lemma_keys_in_order<V, K>(items: Seq<(V, Option<K>)>)
    ensures
        keys_in_order(items).no_duplicates(),
        keys_in_order(items).len() <= items.len(),
        forall|k: K|
            keys_in_order(items).contains(k) <==> exists|i: int|
                0 <= i < items.len() && (#[trigger] items[i]).1 == Some(k),
    decreases items.len(),
{
    if items.len() > 0 {
        let front = items.drop_last();
        lemma_keys_in_order(front);
        let before = keys_in_order(front);
        assert forall|k: K|
            keys_in_order(items).contains(k) <==> exists|i: int|
                0 <= i < items.len() && (#[trigger] items[i]).1 == Some(k) by {
            if keys_in_order(items).contains(k) {
                if before.contains(k) {
                    let i = choose|i: int| 0 <= i < front.len() && (#[trigger] front[i]).1 == Some(k);
                    assert(items[i].1 == Some(k));
                } else {
                    assert(items[items.len() - 1].1 == Some(k));
                }
            }
            if exists|i: int| 0 <= i < items.len() && (#[trigger] items[i]).1 == Some(k) {
                let i = choose|i: int| 0 <= i < items.len() && (#[trigger] items[i]).1 == Some(k);
                if i < items.len() - 1 {
                    assert(front[i].1 == Some(k));
                    assert(before.contains(k));
                    let j = choose|j: int| 0 <= j < before.len() && before[j] == k;
                    assert(keys_in_order(items)[j] == k);
                } else {
                    if before.contains(k) {
                    } else {
                        assert(keys_in_order(items)[before.len() as int] == k);
                    }
                }
            }
        }
    }
}

/// A value belongs to the group of `k` exactly when some item pairs it with
/// `k`, and it is listed there once.
pub proof fn lemma_members<V, K>(items: Seq<(V, Option<K>)>, k: K)
    ensures
        members(items, k).no_duplicates(),
        members(items, k).len() <= items.len(),
        forall|v: V|
            members(items, k).contains(v) <==> exists|i: int|
                0 <= i < items.len() && #[trigger] items[i] == (v, Some(k)),
    decreases items.len(),
{
    if items.len() > 0 {
        let front = items.drop_last();
        lemma_members(front, k);
        let before = members(front, k);
        assert forall|v: V|
            members(items, k).contains(v) <==> exists|i: int|
                0 <= i < items.len() && #[trigger] items[i] == (v, Some(k)) by {
            if members(items, k).contains(v) {
                if before.contains(v) {
                    let i = choose|i: int| 0 <= i < front.len() && #[trigger] front[i] == (v, Some(k));
                    assert(items[i] == (v, Some(k)));
                } else {
                    assert(items[items.len() - 1] == (v, Some(k)));
                }
            }
            if exists|i: int| 0 <= i < items.len() && #[trigger] items[i] == (v, Some(k)) {
                let i = choose|i: int| 0 <= i < items.len() && #[trigger] items[i] == (v, Some(k));
                if i < items.len() - 1 {
                    assert(front[i] == (v, Some(k)));
                    assert(before.contains(v));
                    let j = choose|j: int| 0 <= j < before.len() && before[j] == v;
                    assert(members(items, k)[j] == v);
                } else {
                    if before.contains(v) {
                    } else {
                        assert(members(items, k)[before.len() as int] == v);
                    }
                }
            }
        }
    }
}

/// A key that no item carries has no members.
pub proof fn lemma_members_of_absent_key<V, K>(items: Seq<(V, Option<K>)>, k: K)
    requires
        !keys_in_order(items).contains(k),
    ensures
        members(items, k) == Seq::<V>::empty(),
{
    lemma_keys_in_order(items);
    lemma_members(items, k);
    if members(items, k).len() > 0 {
        let v = members(items, k)[0];
        assert(members(items, k).contains(v));
    }
}

/// Every group holds at least one value and none twice; a value is in the
/// group of a key exactly when some item pairs it with that key.
pub proof fn lemma_grouped<V, K>(items: Seq<(V, Option<K>)>)
    ensures
        grouped(items).len() == keys_in_order(items).len(),
        forall|g: int|
            0 <= g < grouped(items).len() ==> {
                &&& (#[trigger] grouped(items)[g]).len() > 0
                &&& grouped(items)[g].no_duplicates()
                &&& grouped(items)[g] == members(items, keys_in_order(items)[g])
            },
{
    lemma_keys_in_order(items);
    assert forall|g: int| 0 <= g < grouped(items).len() implies {
        &&& (#[trigger] grouped(items)[g]).len() > 0
        &&& grouped(items)[g].no_duplicates()
        &&& grouped(items)[g] == members(items, keys_in_order(items)[g])
    } by {
        let k = keys_in_order(items)[g];
        lemma_members(items, k);
        assert(keys_in_order(items).contains(k));
        let i = choose|i: int| 0 <= i < items.len() && (#[trigger] items[i]).1 == Some(k);
        assert(items[i] == (items[i].0, Some(k)));
        assert(members(items, k).contains(items[i].0));
    }
}

/// Adding a group adds its length.
pub proof fn lemma_total_len_push<V>(groups: Seq<Seq<V>>, group: Seq<V>)
    ensures
        total_len(groups.push(group)) == total_len(groups) + group.len(),
{
    assert(groups.push(group).drop_last() =~= groups);
}

/// Putting a group in front adds its length.
pub proof fn lemma_total_len_prepend<V>(group: Seq<V>, groups: Seq<Seq<V>>)
    ensures
        total_len(seq![group] + groups) == group.len() + total_len(groups),
    decreases groups.len(),
{
    let all = seq![group] + groups;
    if groups.len() == 0 {
        assert(all.drop_last() =~= Seq::<Seq<V>>::empty());
        assert(total_len(all.drop_last()) == 0);
        assert(all.last() == group);
    } else {
        lemma_total_len_prepend(group, groups.drop_last());
        assert(all.drop_last() =~= seq![group] + groups.drop_last());
        assert(all.last() == groups.last());
    }
}

/// Replacing a group changes the total by the difference of the lengths.
pub proof fn lemma_total_len_update<V>(groups: Seq<Seq<V>>, at: int, group: Seq<V>)
    requires
        0 <= at < groups.len(),
    ensures
        total_len(groups.update(at, group)) == total_len(groups) - groups[at].len() + group.len(),
    decreases groups.len(),
{
    if at == groups.len() - 1 {
        assert(groups.update(at, group).drop_last() =~= groups.drop_last());
    } else {
        lemma_total_len_update(groups.drop_last(), at, group);
        assert(groups.update(at, group).drop_last() =~= groups.drop_last().update(at, group));
    }
}

/// No group is longer than all groups together.
pub proof fn lemma_total_len_bounds<V>(groups: Seq<Seq<V>>, at: int)
    requires
        0 <= at < groups.len(),
    ensures
        groups[at].len() <= total_len(groups),
    decreases groups.len(),
{
    if at < groups.len() - 1 {
        lemma_total_len_bounds(groups.drop_last(), at);
    }
}

/// Groups that are not empty are no more than the values they hold.
pub proof fn lemma_total_len_counts<V>(groups: Seq<Seq<V>>)
    requires
        forall|g: int| 0 <= g < groups.len() ==> (#[trigger] groups[g]).len() > 0,
    ensures
        groups.len() <= total_len(groups),
    decreases groups.len(),
{
    if groups.len() > 0 {
        let front = groups.drop_last();
        assert forall|g: int| 0 <= g < front.len() implies (#[trigger] front[g]).len() > 0 by {
            assert(front[g] == groups[g]);
        }
        lemma_total_len_counts(front);
        assert(groups.last() == groups[groups.len() - 1]);
    }
}

/// The groups together hold no more values than there are items.
pub proof fn lemma_grouped_total_len<V, K>(items: Seq<(V, Option<K>)>)
    ensures
        total_len(grouped(items)) <= items.len(),
    decreases items.len(),
{
    if items.len() == 0 {
        assert(grouped(items) =~= Seq::<Seq<V>>::empty());
    } else {
        let front = items.drop_last();
        lemma_grouped_total_len(front);
        lemma_keys_in_order(front);
        let keys = keys_in_order(front);
        let v = items.last().0;
        match items.last().1 {
            None => {
                assert(grouped(items) =~= grouped(front));
            },
            Some(k) => {
                if keys.contains(k) {
                    let at = choose|at: int| 0 <= at < keys.len() && keys[at] == k;
                    assert(grouped(items) =~= grouped(front).update(at, members(items, k)));
                    lemma_total_len_update(grouped(front), at, members(items, k));
                } else {
                    lemma_members_of_absent_key(front, k);
                    assert(grouped(items) =~= grouped(front).push(seq![v]));
                    lemma_total_len_push(grouped(front), seq![v]);
                }
            },
        }
    }
}

/// Refinement only splits: every value of a group is the value of an item,
/// and all values of one group carry one and the same key.
pub proof fn lemma_group_shares_key<V, K>(items: Seq<(V, Option<K>)>, g: int, v: V)
    requires
        0 <= g < grouped(items).len(),
        grouped(items)[g].contains(v),
    ensures
        exists|i: int|
            0 <= i < items.len() && #[trigger] items[i] == (v, Some(keys_in_order(items)[g])),
{
    lemma_grouped(items);
    lemma_members(items, keys_in_order(items)[g]);
}

/// Values that carry equal keys fall into one group.
pub proof fn lemma_same_key_same_group<V, K>(items: Seq<(V, Option<K>)>, i: int, j: int)
    requires
        0 <= i < items.len(),
        0 <= j < items.len(),
        items[i].1 is Some,
        items[i].1 == items[j].1,
    ensures
        exists|g: int|
            0 <= g < grouped(items).len() && (#[trigger] grouped(items)[g]).contains(items[i].0)
                && grouped(items)[g].contains(items[j].0),
{
    let k = items[i].1->0;
    lemma_keys_in_order(items);
    lemma_grouped(items);
    lemma_members(items, k);
    assert(keys_in_order(items).contains(k));
    let g = choose|g: int| 0 <= g < keys_in_order(items).len() && keys_in_order(items)[g] == k;
    assert(items[i] == (items[i].0, Some(k)));
    assert(items[j] == (items[j].0, Some(k)));
    assert(grouped(items)[g].contains(items[i].0));
    assert(grouped(items)[g].contains(items[j].0));
}

/// Values that share a group carry equal keys: where each value has one
/// key only, values with different keys are never grouped together.
pub proof fn lemma_same_group_same_key<V, K>(items: Seq<(V, Option<K>)>, g: int, i: int, j: int)
    requires
        0 <= g < grouped(items).len(),
        0 <= i < items.len(),
        0 <= j < items.len(),
        grouped(items)[g].contains(items[i].0),
        grouped(items)[g].contains(items[j].0),
        forall|a: int, b: int|
            0 <= a < items.len() && 0 <= b < items.len() && (#[trigger] items[a]).0 == (
            #[trigger] items[b]).0 ==> items[a].1 == items[b].1,
    ensures
        items[i].1 is Some,
        items[i].1 == items[j].1,
{
    lemma_group_shares_key(items, g, items[i].0);
    lemma_group_shares_key(items, g, items[j].0);
    let k = keys_in_order(items)[g];
    let a = choose|a: int| 0 <= a < items.len() && #[trigger] items[a] == (items[i].0, Some(k));
    let b = choose|b: int| 0 <= b < items.len() && #[trigger] items[b] == (items[j].0, Some(k));
    assert(items[a].0 == items[i].0);
    assert(items[b].0 == items[j].0);
}

/// What a prefix of `items` lists when one more item is taken in.
proof fn lemma_take_next<V, K>(items: Seq<(V, Option<K>)>, i: int)
    requires
        0 <= i < items.len(),
    ensures
        items.take(i + 1).drop_last() == items.take(i),
        items.take(i + 1).last() == items[i],
{
    assert(items.take(i + 1).drop_last() =~= items.take(i));
}

/// Whether two byte strings are equal.
fn same_bytes(a: &[u8], b: &[u8]) -> (same: bool)
    ensures
        same == (a@ == b@),
{
    if a.len() != b.len() {
        return false;
    }
    let mut i: usize = 0;
    while i < a.len()
        invariant
            i <= a.len(),
            a.len() == b.len(),
            forall|j: int| 0 <= j < i ==> a@[j] == b@[j],
        decreases a.len() - i,
    {
        if a[i] != b[i] {
            return false;
        }
        i += 1;
    }
    assert(a@ =~= b@);
    true
}

/// Whether two keys are equal.
pub fn same_key(a: &GroupKey, b: &GroupKey) -> (same: bool)
    ensures
        same == (a.deep_view() == b.deep_view()),
{
    match (a, b) {
        (GroupKey::Metadata(x), GroupKey::Metadata(y)) => *x == *y,
        (GroupKey::Prefix(x), GroupKey::Prefix(y)) => same_bytes(x.as_slice(), y.as_slice()),
        (GroupKey::Hash(x), GroupKey::Hash(y)) => same_bytes(x.as_slice(), y.as_slice()),
        _ => false,
    }
}

/// A number drawn from `h` and `b`, to tell keys apart by at first sight.
spec fn mixed(h: u64, b: nat) -> u64 {
    ((h * 31 + b) % 0x1_0000_0000_0000_0000) as u64
}

/// A number drawn from all of `bytes`.
spec fn folded(bytes: Seq<u8>) -> u64
    decreases bytes.len(),
{
    if bytes.len() == 0 {
        7
    } else {
        mixed(folded(bytes.drop_last()), bytes.last() as nat)
    }
}

/// A number drawn from a key. Equal keys give equal numbers; the groups
/// found so far are looked up by it, so that a key is held against few keys
/// only.
spec fn fingerprint(key: KeyView) -> u64 {
    match key {
        KeyView::Metadata(meta) => mixed(
            mixed(mixed(mixed(11, meta.size as nat), meta.uid as nat), meta.gid as nat),
            meta.mode as nat,
        ),
        KeyView::Prefix(bytes) => folded(bytes),
        KeyView::Hash(bytes) => folded(bytes),
    }
}

/// Draws a number from `h` and `b`.
fn mix(h: u64, b: u64) -> (mixed_in: u64)
    ensures
        mixed_in == mixed(h, b as nat),
{
    ((h as u128 * 31 + b as u128) % 0x1_0000_0000_0000_0000) as u64
}

/// Draws a number from all of `bytes`.
fn fold(bytes: &Vec<u8>) -> (h: u64)
    ensures
        h == folded(bytes@),
{
    let mut h: u64 = 7;
    let mut i: usize = 0;
    assert(bytes@.take(0) =~= Seq::<u8>::empty());
    while i < bytes.len()
        invariant
            i <= bytes.len(),
            h == folded(bytes@.take(i as int)),
        decreases bytes.len() - i,
    {
        assert(bytes@.take(i + 1).drop_last() =~= bytes@.take(i as int));
        h = mix(h, bytes[i] as u64);
        i += 1;
    }
    assert(bytes@.take(i as int) =~= bytes@);
    h
}

/// Draws a number from a key.
fn fingerprint_of(key: &GroupKey) -> (h: u64)
    ensures
        h == fingerprint(key.deep_view()),
{
    match key {
        GroupKey::Metadata(meta) => mix(
            mix(mix(mix(11, meta.size), meta.uid as u64), meta.gid as u64),
            meta.mode as u64,
        ),
        GroupKey::Prefix(bytes) => fold(bytes),
        GroupKey::Hash(bytes) => fold(bytes),
    }
}

/// Whether the index finds every key at its place: under the fingerprint of
/// each key stands the place of that key, and nothing but places of keys.
spec fn indexed(index: Map<u64, Vec<usize>>, keys: Seq<KeyView>) -> bool {
    &&& forall|g: int|
        0 <= g < keys.len() ==> index.contains_key(fingerprint(#[trigger] keys[g])) && index[fingerprint(
            keys[g],
        )]@.contains(g as usize)
    &&& forall|h: u64, j: int|
        index.contains_key(h) && 0 <= j < index[h]@.len() ==> (#[trigger] index[h]@[j])
            < keys.len()
}

/// The place of `key` among `keys`, or their number if it is not there.
fn position_of_key(
    keys: &Vec<&GroupKey>,
    index: &HashMap<u64, Vec<usize>>,
    key: &GroupKey,
) -> (at: usize)
    requires
        indexed(index@, keys.deep_view()),
    ensures
        at <= keys.len(),
        at < keys.len() ==> keys.deep_view()[at as int] == key.deep_view(),
        at == keys.len() ==> !keys.deep_view().contains(key.deep_view()),
{
    let h = fingerprint_of(key);
    match index.get(&h) {
        None => {
            assert(!keys.deep_view().contains(key.deep_view())) by {
                if keys.deep_view().contains(key.deep_view()) {
                    let g = choose|g: int|
                        0 <= g < keys.deep_view().len() && keys.deep_view()[g] == key.deep_view();
                    assert(index@.contains_key(fingerprint(keys.deep_view()[g])));
                }
            }
            keys.len()
        },
        Some(places) => {
            assert(index@[h] == *places);
            let mut j: usize = 0;
            while j < places.len()
                invariant
                    j <= places.len(),
                    indexed(index@, keys.deep_view()),
                    index@.contains_key(h),
                    index@[h] == *places,
                    forall|i: int|
                        0 <= i < j ==> keys.deep_view()[(#[trigger] places@[i]) as int]
                            != key.deep_view(),
                decreases places.len() - j,
            {
                let at = places[j];
                assert(index@[h]@[j as int] < keys.len());
                if same_key(keys[at], key) {
                    return at;
                }
                j += 1;
            }
            assert(!keys.deep_view().contains(key.deep_view())) by {
                if keys.deep_view().contains(key.deep_view()) {
                    let g = choose|g: int|
                        0 <= g < keys.deep_view().len() && keys.deep_view()[g] == key.deep_view();
                    assert(keys.deep_view().len() == keys.len());
                    assert(fingerprint(keys.deep_view()[g]) == h);
                    assert(index@[h]@.contains(g as usize));
                    assert(places@.contains(g as usize));
                    let i = choose|i: int| 0 <= i < places@.len() && places@[i] == g as usize;
                    assert(keys.deep_view()[places@[i] as int] != key.deep_view());
                }
            }
            keys.len()
        },
    }
}

/// Enters the key at place `at`, which is the next, into the index.
fn enter_key(index: &mut HashMap<u64, Vec<usize>>, key: &GroupKey, at: usize, Ghost(keys): Ghost<
    Seq<KeyView>,
>)
    requires
        indexed(old(index)@, keys),
        at == keys.len(),
    ensures
        indexed(final(index)@, keys.push(key.deep_view())),
{
    let h = fingerprint_of(key);
    let ghost before = index@;
    let mut places = match index.remove(&h) {
        Some(places) => places,
        None => Vec::new(),
    };
    let ghost had = places@;
    assert(before.contains_key(h) ==> had == before[h]@);
    assert(!before.contains_key(h) ==> had == Seq::<usize>::empty());
    places.push(at);
    index.insert(h, places);
    let ghost now = keys.push(key.deep_view());
    assert forall|g: int| 0 <= g < now.len() implies index@.contains_key(
        fingerprint(#[trigger] now[g]),
    ) && index@[fingerprint(now[g])]@.contains(g as usize) by {
        if g < keys.len() {
            assert(now[g] == keys[g]);
            let f = fingerprint(keys[g]);
            assert(before.contains_key(f) && before[f]@.contains(g as usize));
            if f == h {
                let i = choose|i: int| 0 <= i < had.len() && had[i] == g as usize;
                assert(places@[i] == g as usize);
            }
        } else {
            assert(places@[had.len() as int] == at);
        }
    }
    assert forall|f: u64, j: int|
        index@.contains_key(f) && 0 <= j < index@[f]@.len() implies (#[trigger] index@[f]@[j])
        < now.len() by {
        if f == h {
            if j < had.len() {
                assert(before[h]@[j] < keys.len());
            }
        } else {
            assert(before[f]@[j] < keys.len());
        }
    }
}

/// Whether `file` is among `files`.
pub(crate) fn holds_file(files: &Vec<FileId>, file: FileId) -> (held: bool)
    ensures
        held == files@.contains(file),
{
    let mut i: usize = 0;
    while i < files.len()
        invariant
            i <= files.len(),
            forall|j: int| 0 <= j < i ==> files@[j] != file,
        decreases files.len() - i,
    {
        if files[i] == file {
            return true;
        }
        i += 1;
    }
    false
}

/// Splits files by key. A file without a key is left out; the others fall
/// into one group per distinct key. Groups come in the order in which their
/// keys first occur, and so do the files within a group.
pub fn group_by(unrefined_group: &Vec<(FileId, Option<GroupKey>)>) -> (groups: Vec<Vec<FileId>>)
    ensures
        groups.deep_view() == grouped(unrefined_group.deep_view()),
{
    let ghost items = unrefined_group.deep_view();
    let mut keys: Vec<&GroupKey> = Vec::new();
    let mut groups: Vec<Vec<FileId>> = Vec::new();
    let mut index: HashMap<u64, Vec<usize>> = HashMap::new();
    let mut placed: HashSet<FileId> = HashSet::new();
    let mut i: usize = 0;
    assert(keys.deep_view() =~= keys_in_order(items.take(0)));
    while i < unrefined_group.len()
        invariant
            i <= unrefined_group.len(),
            items == unrefined_group.deep_view(),
            keys.len() == groups.len(),
            keys.deep_view() == keys_in_order(items.take(i as int)),
            forall|g: int|
                0 <= g < groups.len() ==> (#[trigger] groups[g])@ == members(
                    items.take(i as int),
                    keys.deep_view()[g],
                ),
            indexed(index@, keys.deep_view()),
            forall|g: int, file: FileId|
                #![trigger groups[g]@.contains(file)]
                0 <= g < groups.len() && groups[g]@.contains(file) ==> placed@.contains(file),
        decreases unrefined_group.len() - i,
    {
        let ghost before = items.take(i as int);
        let ghost now = items.take(i + 1);
        proof {
            lemma_take_next(items, i as int);
            lemma_keys_in_order(before);
        }
        let file = unrefined_group[i].0;
        match &unrefined_group[i].1 {
            None => {
                assert(items[i as int].1 is None);
            },
            Some(key) => {
                assert(items[i as int] == (file, Some(key.deep_view())));
                let at = position_of_key(&keys, &index, key);
                let fresh = placed.insert(file);
                if at < keys.len() {
                    let ghost had = groups[at as int]@;
                    if fresh || !holds_file(&groups[at], file) {
                        assert(!had.contains(file));
                        groups[at].push(file);
                        assert forall|other: FileId| groups[at as int]@.contains(
                            other,
                        ) implies placed@.contains(other) by {
                            let j = choose|j: int|
                                0 <= j < groups[at as int]@.len() && groups[at as int]@[j] == other;
                            if j < had.len() {
                                assert(had[j] == other);
                                assert(had.contains(other));
                            }
                        }
                    }
                    assert(keys_in_order(now) == keys_in_order(before));
                } else {
                    proof {
                        lemma_members_of_absent_key(before, key.deep_view());
                    }
                    enter_key(&mut index, key, at, Ghost(keys.deep_view()));
                    keys.push(key);
                    let mut group: Vec<FileId> = Vec::new();
                    group.push(file);
                    groups.push(group);
                    assert(keys.deep_view() =~= keys_in_order(before).push(key.deep_view()));
                    assert(groups[at as int]@ =~= members(now, key.deep_view()));
                    assert forall|other: FileId| groups[at as int]@.contains(
                        other,
                    ) implies placed@.contains(other) by {
                        let j = choose|j: int|
                            0 <= j < groups[at as int]@.len() && groups[at as int]@[j] == other;
                        assert(other == file);
                    }
                }
            },
        }
        i += 1;
    }
    assert(items.take(i as int) =~= items);
    assert forall|g: int| 0 <= g < groups.len() implies groups.deep_view()[g] == grouped(items)[g] by {
        assert(groups[g].deep_view() =~= groups[g]@);
    }
    assert(groups.deep_view() =~= grouped(items));
    groups
}

} // verus!
