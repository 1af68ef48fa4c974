//! What a scan found: the paths of every inode, and one file to stand for
//! each inode in the cascade.

use crate::grouping::{
    grouped, keys_in_order, lemma_keys_in_order, lemma_members, lemma_members_of_absent_key,
    members, FileId,
};
use std::collections::HashMap;
use vstd::prelude::*;

verus! {

broadcast use vstd::std_specs::hash::group_hash_axioms;

/// Each path found, keyed by the inode it was found on.
pub open spec fn by_inode(found: Seq<(u64, Seq<char>)>) -> Seq<(Seq<char>, Option<u64>)> {
    Seq::new(found.len(), |i: int| (found[i].1, Some(found[i].0)))
}

/// The paths of a scan, gathered by inode. Inodes stand in the order in
/// which the scan first met them, and so do the paths of each.
pub struct InodeGroups {
    inos: Vec<u64>,
    paths: Vec<Vec<String>>,
    index: HashMap<u64, usize>,
}

impl InodeGroups {
    /// The inodes, in the order in which they were first met.
    pub closed spec fn inodes(&self) -> Seq<u64> {
        self.inos@
    }

    /// For each inode, at its place in `inodes`, the paths that share it.
    pub closed spec fn links(&self) -> Seq<Seq<Seq<char>>> {
        self.paths.deep_view()
    }

    /// Every inode stands once and has at least one path, no path stands
    /// twice under one inode, and the index finds each inode at its place.
    pub closed spec fn wf(&self) -> bool {
        &&& self.inos.len() == self.paths.len()
        &&& self.inos@.no_duplicates()
        &&& forall|g: int|
            0 <= g < self.paths.len() ==> (#[trigger] self.paths.deep_view()[g]).len() > 0
                && self.paths.deep_view()[g].no_duplicates()
        &&& forall|ino: u64| self.index@.contains_key(ino) <==> self.inos@.contains(ino)
        &&& forall|g: int|
            0 <= g < self.inos.len() ==> self.index@[#[trigger] self.inos@[g]] == g
    }

    /// What `wf` holds for a reader outside this module.
    pub proof fn lemma_wf(&self)
        requires
            self.wf(),
        ensures
            self.inodes().len() == self.links().len(),
            self.inodes().no_duplicates(),
            forall|g: int|
                0 <= g < self.links().len() ==> (#[trigger] self.links()[g]).len() > 0
                    && self.links()[g].no_duplicates() && self.links()[g].len() <= usize::MAX,
    {
        assert forall|g: int| 0 <= g < self.links().len() implies (#[trigger] self.links()[g]).len()
            <= usize::MAX by {
            assert(self.paths.deep_view()[g].len() == self.paths@[g].len());
        }
    }

    /// The number of inodes.
    pub fn len(&self) -> (n: usize)
        requires
            self.wf(),
        ensures
            n == self.inodes().len(),
            n == self.links().len(),
    {
        self.inos.len()
    }

    /// The files that stand for the inodes in the cascade: one for each,
    /// in order.
    pub fn representatives(&self) -> (files: Vec<FileId>)
        requires
            self.wf(),
        ensures
            files@ == Seq::new(self.inodes().len(), |i: int| i as FileId),
    {
        let mut files: Vec<FileId> = Vec::new();
        let mut i: usize = 0;
        while i < self.inos.len()
            invariant
                i <= self.inos.len(),
                files@ == Seq::new(i as nat, |i: int| i as FileId),
            decreases self.inos.len() - i,
        {
            files.push(i);
            assert(files@ =~= Seq::new((i + 1) as nat, |i: int| i as FileId));
            i += 1;
        }
        files
    }

    /// The inode that `file` stands for.
    pub fn inode(&self, file: FileId) -> (ino: u64)
        requires
            self.wf(),
            file < self.inodes().len(),
        ensures
            ino == self.inodes()[file as int],
    {
        self.inos[file]
    }

    /// All paths of the inode that `file` stands for.
    pub fn paths(&self, file: FileId) -> (paths: &Vec<String>)
        requires
            self.wf(),
            file < self.inodes().len(),
        ensures
            paths.deep_view() == self.links()[file as int],
            paths.len() > 0,
    {
        &self.paths[file]
    }

    /// The path under which `file` is read: the first found of its inode.
    pub fn path(&self, file: FileId) -> (path: &String)
        requires
            self.wf(),
            file < self.inodes().len(),
        ensures
            path@ == self.links()[file as int][0],
    {
        assert(self.paths.deep_view()[file as int].len() > 0);
        &self.paths[file][0]
    }

    /// The place of the inode `ino`, if the scan met it.
    pub fn position(&self, ino: u64) -> (at: Option<FileId>)
        requires
            self.wf(),
        ensures
            match at {
                Some(file) => file < self.inodes().len() && self.inodes()[file as int] == ino,
                None => !self.inodes().contains(ino),
            },
    {
        match self.index.get(&ino) {
            Some(at) => {
                assert(self.inos@.contains(ino));
                let ghost g = choose|g: int| 0 <= g < self.inos@.len() && self.inos@[g] == ino;
                assert(self.index@[self.inos@[g]] == g);
                Some(*at)
            },
            None => None,
        }
    }
}

/// Whether `path` is among `paths`.
fn holds_path(paths: &Vec<String>, path: &String) -> (held: bool)
    ensures
        held == paths.deep_view().contains(path@),
{
    let mut i: usize = 0;
    while i < paths.len()
        invariant
            i <= paths.len(),
            forall|j: int| 0 <= j < i ==> paths.deep_view()[j] != path@,
        decreases paths.len() - i,
    {
        if paths[i] == *path {
            assert(paths.deep_view()[i as int] == path@);
            return true;
        }
        i += 1;
    }
    false
}

/// Gathers the files of a scan by inode. `found` lists each regular file
/// the scan met, with its inode number. Paths of the same inode are already
/// linked to each other; they fall into one group, each path once.
pub fn find_inode_groups(found: &Vec<(u64, String)>) -> (groups: InodeGroups)
    ensures
        groups.wf(),
        groups.inodes() == keys_in_order(by_inode(found.deep_view())),
        groups.links() == grouped(by_inode(found.deep_view())),
{
    let ghost items = by_inode(found.deep_view());
    let mut inos: Vec<u64> = Vec::new();
    let mut paths: Vec<Vec<String>> = Vec::new();
    let mut index: HashMap<u64, usize> = HashMap::new();
    let mut i: usize = 0;
    assert(inos@ =~= keys_in_order(items.take(0)));
    while i < found.len()
        invariant
            i <= found.len(),
            items == by_inode(found.deep_view()),
            inos.len() == paths.len(),
            inos@ == keys_in_order(items.take(i as int)),
            forall|g: int|
                0 <= g < paths.len() ==> (#[trigger] paths.deep_view()[g]) == members(
                    items.take(i as int),
                    inos@[g],
                ),
            forall|ino: u64| index@.contains_key(ino) <==> inos@.contains(ino),
            forall|g: int| 0 <= g < inos.len() ==> index@[#[trigger] inos@[g]] == g,
        decreases found.len() - i,
    {
        let ghost before = items.take(i as int);
        let ghost now = items.take(i + 1);
        let ghost old_paths = paths.deep_view();
        let ghost old_inos = inos@;
        proof {
            assert(now.drop_last() =~= before);
            assert(now.last() == items[i as int]);
            lemma_keys_in_order(before);
        }
        let ino = found[i].0;
        let path = &found[i].1;
        assert(items[i as int] == (path@, Some(ino)));
        match index.get(&ino) {
            Some(at) => {
                let at = *at;
                assert(inos@.contains(ino));
                let ghost g = choose|g: int| 0 <= g < inos@.len() && inos@[g] == ino;
                assert(index@[inos@[g]] == g);
                assert(at == g);
                assert(paths.deep_view()[at as int] == members(before, ino));
                if !holds_path(&paths[at], path) {
                    paths[at].push(path.clone());
                    assert(paths.deep_view() =~= old_paths.update(
                        at as int,
                        old_paths[at as int].push(path@),
                    )) by {
                        assert(paths@[at as int].deep_view() =~= old_paths[at as int].push(path@));
                    }
                } else {
                    assert(paths.deep_view() =~= old_paths);
                }
            },
            None => {
                proof {
                    lemma_members_of_absent_key(before, ino);
                }
                index.insert(ino, inos.len());
                inos.push(ino);
                let mut group: Vec<String> = Vec::new();
                group.push(path.clone());
                assert(group.deep_view() =~= seq![path@]);
                paths.push(group);
                assert(paths.deep_view() =~= old_paths.push(seq![path@]));
                assert forall|k: u64| index@.contains_key(k) <==> inos@.contains(k) by {
                    if inos@.contains(k) {
                        let j = choose|j: int| 0 <= j < inos@.len() && inos@[j] == k;
                        if j < old_inos.len() {
                            assert(old_inos[j] == k);
                            assert(old_inos.contains(k));
                        }
                    }
                    if index@.contains_key(k) && k != ino {
                        assert(old_inos.contains(k));
                        let j = choose|j: int| 0 <= j < old_inos.len() && old_inos[j] == k;
                        assert(inos@[j] == k);
                    }
                    if k == ino {
                        assert(inos@[old_inos.len() as int] == k);
                    }
                }
            },
        }
        i += 1;
    }
    assert(items.take(i as int) =~= items);
    proof {
        lemma_keys_in_order(items);
        assert forall|g: int| 0 <= g < paths.len() implies (#[trigger] paths.deep_view()[g]).len() > 0
            && paths.deep_view()[g].no_duplicates() by {
            lemma_members(items, inos@[g]);
            assert(keys_in_order(items).contains(inos@[g]));
            let k = choose|k: int| 0 <= k < items.len() && (#[trigger] items[k]).1 == Some(inos@[g]);
            assert(items[k] == (items[k].0, Some(inos@[g])));
            assert(members(items, inos@[g]).contains(items[k].0));
        }
        assert(paths.deep_view() =~= grouped(items));
    }
    InodeGroups { inos, paths, index }
}

/// Paths found on one inode stand together under that inode, and the inode
/// stands once. Paths that are already linked to each other are so met as
/// one file, and are not linked again.
pub proof fn lemma_linked_paths_are_one_file(found: Seq<(u64, Seq<char>)>, i: int, j: int)
    requires
        0 <= i < found.len(),
        0 <= j < found.len(),
        found[i].0 == found[j].0,
    ensures
        keys_in_order(by_inode(found)).no_duplicates(),
        exists|g: int|
            0 <= g < keys_in_order(by_inode(found)).len() && keys_in_order(by_inode(found))[g]
                == found[i].0 && (#[trigger] grouped(by_inode(found))[g]).contains(found[i].1)
                && grouped(by_inode(found))[g].contains(found[j].1),
{
    let items = by_inode(found);
    let ino = found[i].0;
    lemma_keys_in_order(items);
    crate::grouping::lemma_grouped(items);
    lemma_members(items, ino);
    assert(items[i] == (found[i].1, Some(ino)));
    assert(items[j] == (found[j].1, Some(ino)));
    assert(keys_in_order(items).contains(ino));
    let g = choose|g: int| 0 <= g < keys_in_order(items).len() && keys_in_order(items)[g] == ino;
    assert(grouped(items)[g].contains(found[i].1));
    assert(grouped(items)[g].contains(found[j].1));
}

} // verus!
