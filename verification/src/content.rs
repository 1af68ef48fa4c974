//! Byte-exact comparison of file contents, and the split of a group of files
//! into classes of equal content.

use crate::grouping::{holds_file, lemma_total_len_prepend, total_len, FileId};
use vstd::prelude::*;

verus! {

/// How many bytes of each file are held against each other at a time.
pub const CHUNK_LEN: usize = 4096;

/// Two contents count as the same when both could be read and hold the same
/// bytes. A file that could not be read is the same as nothing, itself
/// included.
pub open spec fn same_content(a: Option<Seq<u8>>, b: Option<Seq<u8>>) -> bool {
    a is Some && a == b
}

/// Those of `others`, in their order, whose content is the same as `file`.
pub open spec fn equal_files(
    file: Option<Seq<u8>>,
    others: Seq<(FileId, Option<Seq<u8>>)>,
) -> Seq<FileId>
    decreases others.len(),
{
    if others.len() == 0 {
        Seq::empty()
    } else {
        let before = equal_files(file, others.drop_last());
        if same_content(file, others.last().1) {
            before.push(others.last().0)
        } else {
            before
        }
    }
}

/// Those of `others`, in their order, that are not among `taken`.
pub open spec fn left_over(taken: Seq<FileId>, others: Seq<(FileId, Option<Seq<u8>>)>) -> Seq<
    (FileId, Option<Seq<u8>>),
>
    decreases others.len(),
{
    if others.len() == 0 {
        Seq::empty()
    } else {
        let before = left_over(taken, others.drop_last());
        if taken.contains(others.last().0) {
            before
        } else {
            before.push(others.last())
        }
    }
}

/// Taking files away leaves no more than there were.
pub proof fn lemma_left_over_len(taken: Seq<FileId>, others: Seq<(FileId, Option<Seq<u8>>)>)
    ensures
        left_over(taken, others).len() <= others.len(),
    decreases others.len(),
{
    if others.len() > 0 {
        lemma_left_over_len(taken, others.drop_last());
    }
}

/// `files` split into classes of equal content: the first file with all
/// later ones that equal it, then the same again on what is left.
pub open spec fn content_groups(files: Seq<(FileId, Option<Seq<u8>>)>) -> Seq<Seq<FileId>>
    decreases files.len(),
{
    if files.len() == 0 {
        Seq::empty()
    } else {
        let others = files.drop_first();
        let matches = equal_files(files[0].1, others);
        proof {
            lemma_left_over_len(matches, others);
        }
        seq![seq![files[0].0] + matches] + content_groups(left_over(matches, others))
    }
}

/// A file is found equal exactly when one of the others bears its name and
/// has the same content as `file`.
pub proof fn lemma_equal_files(file: Option<Seq<u8>>, others: Seq<(FileId, Option<Seq<u8>>)>)
    ensures
        forall|v: FileId|
            equal_files(file, others).contains(v) <==> exists|i: int|
                0 <= i < others.len() && (#[trigger] others[i]).0 == v && same_content(
                    file,
                    others[i].1,
                ),
    decreases others.len(),
{
    if others.len() > 0 {
        let front = others.drop_last();
        lemma_equal_files(file, front);
        let before = equal_files(file, front);
        assert forall|v: FileId|
            equal_files(file, others).contains(v) <==> exists|i: int|
                0 <= i < others.len() && (#[trigger] others[i]).0 == v && same_content(
                    file,
                    others[i].1,
                ) by {
            if equal_files(file, others).contains(v) {
                if before.contains(v) {
                    let i = choose|i: int|
                        0 <= i < front.len() && (#[trigger] front[i]).0 == v && same_content(
                            file,
                            front[i].1,
                        );
                    assert(others[i].0 == v);
                } else {
                    assert(others[others.len() - 1].0 == v);
                }
            }
            if exists|i: int|
                0 <= i < others.len() && (#[trigger] others[i]).0 == v && same_content(
                    file,
                    others[i].1,
                ) {
                let i = choose|i: int|
                    0 <= i < others.len() && (#[trigger] others[i]).0 == v && same_content(
                        file,
                        others[i].1,
                    );
                if i < others.len() - 1 {
                    assert(front[i].0 == v);
                    assert(before.contains(v));
                    let j = choose|j: int| 0 <= j < before.len() && before[j] == v;
                    assert(equal_files(file, others)[j] == v);
                } else {
                    assert(equal_files(file, others)[before.len() as int] == v);
                }
            }
        }
    }
}

/// What is left over are the others whose name was not taken.
pub proof fn lemma_left_over(taken: Seq<FileId>, others: Seq<(FileId, Option<Seq<u8>>)>)
    ensures
        forall|x: (FileId, Option<Seq<u8>>)|
            #[trigger] left_over(taken, others).contains(x) <==> others.contains(x)
                && !taken.contains(x.0),
    decreases others.len(),
{
    if others.len() > 0 {
        let front = others.drop_last();
        lemma_left_over(taken, front);
        let before = left_over(taken, front);
        assert forall|x: (FileId, Option<Seq<u8>>)|
            #[trigger] left_over(taken, others).contains(x) <==> others.contains(x)
                && !taken.contains(x.0) by {
            if left_over(taken, others).contains(x) {
                if before.contains(x) {
                    assert(front.contains(x) && !taken.contains(x.0));
                    let i = choose|i: int| 0 <= i < front.len() && front[i] == x;
                    assert(others[i] == x);
                } else {
                    assert(others[others.len() - 1] == x);
                }
            }
            if others.contains(x) && !taken.contains(x.0) {
                let i = choose|i: int| 0 <= i < others.len() && others[i] == x;
                if i < others.len() - 1 {
                    assert(front[i] == x);
                    assert(front.contains(x));
                    assert(before.contains(x));
                    let j = choose|j: int| 0 <= j < before.len() && before[j] == x;
                    assert(left_over(taken, others)[j] == x);
                } else {
                    assert(left_over(taken, others)[before.len() as int] == x);
                }
            }
        }
    }
}

/// The files found equal and the files left over are together no more
/// than the others, as long as every equal file counts as taken.
proof fn lemma_split_len(
    file: Option<Seq<u8>>,
    taken: Seq<FileId>,
    others: Seq<(FileId, Option<Seq<u8>>)>,
)
    requires
        forall|i: int|
            0 <= i < others.len() && same_content(file, (#[trigger] others[i]).1)
                ==> taken.contains(others[i].0),
    ensures
        equal_files(file, others).len() + left_over(taken, others).len() <= others.len(),
    decreases others.len(),
{
    if others.len() > 0 {
        let front = others.drop_last();
        assert forall|i: int|
            0 <= i < front.len() && same_content(file, (#[trigger] front[i]).1)
                implies taken.contains(front[i].0) by {
            assert(front[i] == others[i]);
        }
        lemma_split_len(file, taken, front);
        assert(others.last() == others[others.len() - 1]);
    }
}

/// The classes hold only files that were given, each class at least one,
/// and together no more than were given.
pub proof fn lemma_content_groups(files: Seq<(FileId, Option<Seq<u8>>)>)
    ensures
        total_len(content_groups(files)) <= files.len(),
        forall|g: int|
            0 <= g < content_groups(files).len() ==> (#[trigger] content_groups(files)[g]).len()
                > 0,
        forall|g: int, j: int|
            0 <= g < content_groups(files).len() && 0 <= j < content_groups(files)[g].len()
                ==> exists|i: int|
                0 <= i < files.len() && (#[trigger] files[i]).0 == (
                #[trigger] content_groups(files)[g][j]),
    decreases files.len(),
{
    if files.len() > 0 {
        let others = files.drop_first();
        let matches = equal_files(files[0].1, others);
        let rest = left_over(matches, others);
        let first = seq![files[0].0] + matches;
        lemma_left_over_len(matches, others);
        lemma_content_groups(rest);
        lemma_equal_files(files[0].1, others);
        lemma_left_over(matches, others);
        assert forall|i: int|
            0 <= i < others.len() && same_content(files[0].1, (#[trigger] others[i]).1)
                implies matches.contains(others[i].0) by {}
        lemma_split_len(files[0].1, matches, others);
        lemma_total_len_prepend(first, content_groups(rest));
        assert forall|g: int, j: int|
            0 <= g < content_groups(files).len() && 0 <= j < content_groups(files)[g].len()
                implies exists|i: int|
                0 <= i < files.len() && (#[trigger] files[i]).0 == (
                #[trigger] content_groups(files)[g][j]) by {
            let v = content_groups(files)[g][j];
            if g == 0 {
                if j == 0 {
                    assert(files[0].0 == v);
                } else {
                    assert(matches[j - 1] == v);
                    assert(matches.contains(v));
                    let i = choose|i: int|
                        0 <= i < others.len() && (#[trigger] others[i]).0 == v && same_content(
                            files[0].1,
                            others[i].1,
                        );
                    assert(files[i + 1].0 == v);
                }
            } else {
                assert(content_groups(files)[g] == content_groups(rest)[g - 1]);
                let r = choose|r: int|
                    0 <= r < rest.len() && (#[trigger] rest[r]).0 == content_groups(rest)[g - 1][j];
                assert(rest.contains(rest[r]));
                assert(others.contains(rest[r]));
                let i = choose|i: int| 0 <= i < others.len() && others[i] == rest[r];
                assert(files[i + 1].0 == v);
            }
        }
        assert forall|g: int| 0 <= g < content_groups(files).len() implies (
        #[trigger] content_groups(files)[g]).len() > 0 by {
            if g > 0 {
                assert(content_groups(files)[g] == content_groups(rest)[g - 1]);
            }
        }
    }
}

/// No file is listed twice.
pub open spec fn distinct_files(files: Seq<(FileId, Option<Seq<u8>>)>) -> bool {
    forall|i: int, j: int|
        0 <= i < j < files.len() ==> (#[trigger] files[i]).0 != (#[trigger] files[j]).0
}

/// What is left over of distinct files is distinct, and each of them is
/// one of the others whose content differs from that of `file`.
proof fn lemma_left_over_distinct(
    file: Option<Seq<u8>>,
    others: Seq<(FileId, Option<Seq<u8>>)>,
)
    requires
        distinct_files(others),
    ensures
        distinct_files(left_over(equal_files(file, others), others)),
        forall|x: (FileId, Option<Seq<u8>>)|
            #[trigger] left_over(equal_files(file, others), others).contains(x) <==> others.contains(
                x,
            ) && !same_content(file, x.1),
{
    let matches = equal_files(file, others);
    lemma_equal_files(file, others);
    lemma_left_over(matches, others);
    lemma_left_over_keeps_distinct(matches, others);
    assert forall|x: (FileId, Option<Seq<u8>>)|
        #[trigger] left_over(matches, others).contains(x) <==> others.contains(x) && !same_content(
            file,
            x.1,
        ) by {
        if others.contains(x) {
            let k = choose|k: int| 0 <= k < others.len() && others[k] == x;
            if same_content(file, x.1) {
                assert(others[k].0 == x.0);
                assert(matches.contains(x.0));
            }
            if matches.contains(x.0) {
                let m = choose|m: int|
                    0 <= m < others.len() && (#[trigger] others[m]).0 == x.0 && same_content(
                        file,
                        others[m].1,
                    );
                if m < k {
                    assert(others[m].0 != others[k].0);
                }
                if k < m {
                    assert(others[k].0 != others[m].0);
                }
                assert(m == k);
            }
        }
    }
}

/// Taking files away from distinct files leaves distinct files.
proof fn lemma_left_over_keeps_distinct(
    taken: Seq<FileId>,
    others: Seq<(FileId, Option<Seq<u8>>)>,
)
    requires
        distinct_files(others),
    ensures
        distinct_files(left_over(taken, others)),
    decreases others.len(),
{
    if others.len() > 0 {
        let front = others.drop_last();
        assert forall|i: int, j: int| 0 <= i < j < front.len() implies (#[trigger] front[i]).0 != (
        #[trigger] front[j]).0 by {
            assert(front[i] == others[i]);
            assert(front[j] == others[j]);
        }
        lemma_left_over_keeps_distinct(taken, front);
        lemma_left_over(taken, front);
        let before = left_over(taken, front);
        let rest = left_over(taken, others);
        assert forall|i: int, j: int| 0 <= i < j < rest.len() implies (#[trigger] rest[i]).0 != (
        #[trigger] rest[j]).0 by {
            if j == before.len() {
                assert(rest[j] == others.last());
                assert(before.contains(rest[i]));
                assert(front.contains(rest[i]));
                let k = choose|k: int| 0 <= k < front.len() && front[k] == rest[i];
                assert(others[k].0 != others[others.len() - 1].0);
            } else {
                assert(rest[i] == before[i]);
                assert(rest[j] == before[j]);
            }
        }
    }
}

/// Files that share a class have the same content: each was read and holds
/// byte for byte what the others of its class hold.
pub proof fn lemma_same_class_same_content(
    files: Seq<(FileId, Option<Seq<u8>>)>,
    g: int,
    i: int,
    j: int,
)
    requires
        distinct_files(files),
        0 <= g < content_groups(files).len(),
        0 <= i < files.len(),
        0 <= j < files.len(),
        i != j,
        content_groups(files)[g].contains(files[i].0),
        content_groups(files)[g].contains(files[j].0),
    ensures
        same_content(files[i].1, files[j].1),
    decreases files.len(),
{
    let others = files.drop_first();
    let matches = equal_files(files[0].1, others);
    let rest = left_over(matches, others);
    assert forall|a: int, b: int| 0 <= a < b < others.len() implies (#[trigger] others[a]).0 != (
    #[trigger] others[b]).0 by {
        assert(others[a] == files[a + 1]);
        assert(others[b] == files[b + 1]);
    }
    lemma_equal_files(files[0].1, others);
    lemma_left_over_distinct(files[0].1, others);
    lemma_left_over_len(matches, others);
    lemma_content_groups(rest);
    if g == 0 {
        lemma_class_of_first(files, i);
        lemma_class_of_first(files, j);
    } else {
        let class = content_groups(rest)[g - 1];
        assert(content_groups(files)[g] == class);
        let a = lemma_place_in_rest(files, g, i);
        let b = lemma_place_in_rest(files, g, j);
        if a == b {
            if i < j {
                assert(files[i].0 != files[j].0);
            } else {
                assert(files[j].0 != files[i].0);
            }
        }
        lemma_same_class_same_content(rest, g - 1, a, b);
    }
}

/// A file in the first class is the first file or has its content.
proof fn lemma_class_of_first(files: Seq<(FileId, Option<Seq<u8>>)>, i: int)
    requires
        distinct_files(files),
        0 <= i < files.len(),
        content_groups(files)[0].contains(files[i].0),
    ensures
        i == 0 || same_content(files[0].1, files[i].1),
{
    let others = files.drop_first();
    let matches = equal_files(files[0].1, others);
    lemma_equal_files(files[0].1, others);
    let class = content_groups(files)[0];
    assert(class =~= seq![files[0].0] + matches);
    if i != 0 {
        let at = choose|at: int| 0 <= at < class.len() && class[at] == files[i].0;
        if at == 0 {
            assert(files[0].0 != files[i].0);
        } else {
            assert(matches[at - 1] == files[i].0);
            assert(matches.contains(files[i].0));
            let k = choose|k: int|
                0 <= k < others.len() && (#[trigger] others[k]).0 == files[i].0 && same_content(
                    files[0].1,
                    others[k].1,
                );
            assert(others[k] == files[k + 1]);
            if k + 1 < i {
                assert(files[k + 1].0 != files[i].0);
            }
            if i < k + 1 {
                assert(files[i].0 != files[k + 1].0);
            }
        }
    }
}

/// A file in a later class is among the files left over after the first.
proof fn lemma_place_in_rest(files: Seq<(FileId, Option<Seq<u8>>)>, g: int, i: int) -> (at: int)
    requires
        distinct_files(files),
        0 < g < content_groups(files).len(),
        0 <= i < files.len(),
        content_groups(files)[g].contains(files[i].0),
    ensures
        0 <= at < left_over(equal_files(files[0].1, files.drop_first()), files.drop_first()).len(),
        left_over(equal_files(files[0].1, files.drop_first()), files.drop_first())[at] == files[i],
{
    let others = files.drop_first();
    let matches = equal_files(files[0].1, others);
    let rest = left_over(matches, others);
    lemma_left_over_len(matches, others);
    lemma_left_over(matches, others);
    lemma_content_groups(rest);
    let class = content_groups(rest)[g - 1];
    assert(content_groups(files)[g] == class);
    let p = choose|p: int| 0 <= p < class.len() && class[p] == files[i].0;
    let r = choose|r: int| 0 <= r < rest.len() && (#[trigger] rest[r]).0 == content_groups(rest)[g - 1][p];
    assert(rest.contains(rest[r]));
    assert(others.contains(rest[r]));
    let k = choose|k: int| 0 <= k < others.len() && others[k] == rest[r];
    assert(others[k] == files[k + 1]);
    if k + 1 < i {
        assert(files[k + 1].0 != files[i].0);
    }
    if i < k + 1 {
        assert(files[i].0 != files[k + 1].0);
    }
    r
}

/// Files of the same content share a class: the classes are as large as
/// they can be.
pub proof fn lemma_same_content_same_class(files: Seq<(FileId, Option<Seq<u8>>)>, i: int, j: int)
    requires
        distinct_files(files),
        0 <= i < files.len(),
        0 <= j < files.len(),
        same_content(files[i].1, files[j].1),
    ensures
        exists|g: int|
            0 <= g < content_groups(files).len() && (#[trigger] content_groups(files)[g]).contains(
                files[i].0,
            ) && content_groups(files)[g].contains(files[j].0),
    decreases files.len(),
{
    let others = files.drop_first();
    let matches = equal_files(files[0].1, others);
    let rest = left_over(matches, others);
    let first = seq![files[0].0] + matches;
    assert forall|a: int, b: int| 0 <= a < b < others.len() implies (#[trigger] others[a]).0 != (
    #[trigger] others[b]).0 by {
        assert(others[a] == files[a + 1]);
        assert(others[b] == files[b + 1]);
    }
    lemma_equal_files(files[0].1, others);
    lemma_left_over_distinct(files[0].1, others);
    lemma_left_over_len(matches, others);
    assert(content_groups(files)[0] == first);
    assert(first[0] == files[0].0);
    if i == 0 || same_content(files[0].1, files[i].1) {
        assert(first.contains(files[i].0)) by {
            if i != 0 {
                assert(others[i - 1] == files[i]);
                assert(matches.contains(files[i].0));
                let m = choose|m: int| 0 <= m < matches.len() && matches[m] == files[i].0;
                assert(first[m + 1] == files[i].0);
            }
        }
        assert(first.contains(files[j].0)) by {
            if j != 0 {
                assert(others[j - 1] == files[j]);
                assert(same_content(files[0].1, files[j].1));
                assert(matches.contains(files[j].0));
                let m = choose|m: int| 0 <= m < matches.len() && matches[m] == files[j].0;
                assert(first[m + 1] == files[j].0);
            }
        }
    } else {
        assert(j != 0 && !same_content(files[0].1, files[j].1));
        assert(others[i - 1] == files[i]);
        assert(others[j - 1] == files[j]);
        assert(others.contains(files[i]));
        assert(others.contains(files[j]));
        assert(rest.contains(files[i]));
        assert(rest.contains(files[j]));
        let a = choose|a: int| 0 <= a < rest.len() && rest[a] == files[i];
        let b = choose|b: int| 0 <= b < rest.len() && rest[b] == files[j];
        lemma_same_content_same_class(rest, a, b);
        let h = choose|h: int|
            0 <= h < content_groups(rest).len() && (#[trigger] content_groups(rest)[h]).contains(
                rest[a].0,
            ) && content_groups(rest)[h].contains(rest[b].0);
        assert(content_groups(files)[h + 1] == content_groups(rest)[h]);
    }
}

/// The files found equal and the files left over are together exactly the
/// others, when the files taken are just those found equal.
proof fn lemma_split_exact(
    file: Option<Seq<u8>>,
    taken: Seq<FileId>,
    others: Seq<(FileId, Option<Seq<u8>>)>,
)
    requires
        forall|i: int|
            0 <= i < others.len() ==> (same_content(file, (#[trigger] others[i]).1)
                <==> taken.contains(others[i].0)),
    ensures
        equal_files(file, others).len() + left_over(taken, others).len() == others.len(),
    decreases others.len(),
{
    if others.len() > 0 {
        let front = others.drop_last();
        assert forall|i: int| 0 <= i < front.len() implies (same_content(
            file,
            (#[trigger] front[i]).1,
        ) <==> taken.contains(front[i].0)) by {
            assert(front[i] == others[i]);
        }
        lemma_split_exact(file, taken, front);
        assert(others.last() == others[others.len() - 1]);
    }
}

/// Among files listed once, the files taken by the first class are just
/// the others with the content of the first file.
proof fn lemma_taken_are_equal(files: Seq<(FileId, Option<Seq<u8>>)>)
    requires
        distinct_files(files),
        files.len() > 0,
    ensures
        distinct_files(files.drop_first()),
        forall|i: int|
            0 <= i < files.drop_first().len() ==> (same_content(
                files[0].1,
                (#[trigger] files.drop_first()[i]).1,
            ) <==> equal_files(files[0].1, files.drop_first()).contains(files.drop_first()[i].0)),
        forall|i: int|
            0 <= i < files.drop_first().len() ==> (#[trigger] files.drop_first()[i]).0
                != files[0].0,
{
    let others = files.drop_first();
    let matches = equal_files(files[0].1, others);
    assert forall|a: int, b: int| 0 <= a < b < others.len() implies (#[trigger] others[a]).0 != (
    #[trigger] others[b]).0 by {
        assert(others[a] == files[a + 1]);
        assert(others[b] == files[b + 1]);
    }
    lemma_equal_files(files[0].1, others);
    assert forall|i: int| 0 <= i < others.len() implies (same_content(
        files[0].1,
        (#[trigger] others[i]).1,
    ) <==> matches.contains(others[i].0)) by {
        if matches.contains(others[i].0) {
            let k = choose|k: int|
                0 <= k < others.len() && (#[trigger] others[k]).0 == others[i].0 && same_content(
                    files[0].1,
                    others[k].1,
                );
            if k < i {
                assert(others[k].0 != others[i].0);
            }
            if i < k {
                assert(others[i].0 != others[k].0);
            }
        }
    }
    assert forall|i: int| 0 <= i < others.len() implies (#[trigger] others[i]).0 != files[0].0 by {
        assert(others[i] == files[i + 1]);
        assert(files[0].0 != files[i + 1].0);
    }
}

/// Among files listed once, every file lies in a class.
proof fn lemma_class_exists(files: Seq<(FileId, Option<Seq<u8>>)>, i: int) -> (g: int)
    requires
        distinct_files(files),
        0 <= i < files.len(),
    ensures
        0 <= g < content_groups(files).len(),
        content_groups(files)[g].contains(files[i].0),
    decreases files.len(),
{
    let others = files.drop_first();
    let matches = equal_files(files[0].1, others);
    let rest = left_over(matches, others);
    let first = seq![files[0].0] + matches;
    lemma_taken_are_equal(files);
    lemma_left_over_distinct(files[0].1, others);
    lemma_left_over_len(matches, others);
    assert(content_groups(files)[0] == first);
    assert(first[0] == files[0].0);
    if i == 0 {
        0
    } else {
        assert(others[i - 1] == files[i]);
        if same_content(files[0].1, files[i].1) {
            assert(matches.contains(files[i].0));
            let m = choose|m: int| 0 <= m < matches.len() && matches[m] == files[i].0;
            assert(first[m + 1] == files[i].0);
            0
        } else {
            assert(others.contains(files[i]));
            assert(rest.contains(files[i]));
            let r = choose|r: int| 0 <= r < rest.len() && rest[r] == files[i];
            let h = lemma_class_exists(rest, r);
            assert(content_groups(files)[h + 1] == content_groups(rest)[h]);
            h + 1
        }
    }
}

/// Among files listed once, no file lies in two classes.
proof fn lemma_class_unique(files: Seq<(FileId, Option<Seq<u8>>)>, g: int, h: int, file: FileId)
    requires
        distinct_files(files),
        0 <= g < content_groups(files).len(),
        0 <= h < content_groups(files).len(),
        content_groups(files)[g].contains(file),
        content_groups(files)[h].contains(file),
    ensures
        g == h,
    decreases files.len(),
{
    let others = files.drop_first();
    let matches = equal_files(files[0].1, others);
    let rest = left_over(matches, others);
    let first = seq![files[0].0] + matches;
    lemma_taken_are_equal(files);
    lemma_left_over_distinct(files[0].1, others);
    lemma_left_over_len(matches, others);
    lemma_left_over(matches, others);
    lemma_content_groups(rest);
    assert(content_groups(files)[0] == first);
    if g > 0 && h > 0 {
        assert(content_groups(files)[g] == content_groups(rest)[g - 1]);
        assert(content_groups(files)[h] == content_groups(rest)[h - 1]);
        lemma_class_unique(rest, g - 1, h - 1, file);
    } else if g != h {
        let later = if g > 0 {
            g
        } else {
            h
        };
        let class = content_groups(rest)[later - 1];
        assert(content_groups(files)[later] == class);
        let p = choose|p: int| 0 <= p < class.len() && class[p] == file;
        let r = choose|r: int|
            0 <= r < rest.len() && (#[trigger] rest[r]).0 == content_groups(rest)[later - 1][p];
        assert(rest.contains(rest[r]));
        assert(others.contains(rest[r]) && !matches.contains(file));
        let k = choose|k: int| 0 <= k < others.len() && others[k] == rest[r];
        assert(others[k].0 != files[0].0);
        let q = choose|q: int| 0 <= q < first.len() && first[q] == file;
        if q > 0 {
            assert(matches[q - 1] == file);
        }
    }
}

/// For files listed once the classes are a partition: every file lies in
/// one class and in one only, and the classes together hold as many files
/// as were given.
pub proof fn lemma_content_groups_partition(files: Seq<(FileId, Option<Seq<u8>>)>)
    requires
        distinct_files(files),
    ensures
        total_len(content_groups(files)) == files.len(),
        forall|i: int|
            #![trigger files[i]]
            0 <= i < files.len() ==> exists|g: int|
                #![trigger content_groups(files)[g]]
                0 <= g < content_groups(files).len() && content_groups(files)[g].contains(
                    files[i].0,
                ),
        forall|g: int, h: int, file: FileId|
            0 <= g < content_groups(files).len() && 0 <= h < content_groups(files).len()
                && #[trigger] content_groups(files)[g].contains(file)
                && #[trigger] content_groups(files)[h].contains(file) ==> g == h,
    decreases files.len(),
{
    assert forall|i: int| #![trigger files[i]] 0 <= i < files.len() implies exists|g: int|
        #![trigger content_groups(files)[g]]
        0 <= g < content_groups(files).len() && content_groups(files)[g].contains(files[i].0) by {
        let g = lemma_class_exists(files, i);
        assert(content_groups(files)[g].contains(files[i].0));
    }
    assert forall|g: int, h: int, file: FileId|
        0 <= g < content_groups(files).len() && 0 <= h < content_groups(files).len()
            && #[trigger] content_groups(files)[g].contains(file)
            && #[trigger] content_groups(files)[h].contains(file) implies g == h by {
        lemma_class_unique(files, g, h, file);
    }
    if files.len() > 0 {
        let others = files.drop_first();
        let matches = equal_files(files[0].1, others);
        let rest = left_over(matches, others);
        lemma_taken_are_equal(files);
        lemma_left_over_distinct(files[0].1, others);
        lemma_left_over_len(matches, others);
        lemma_split_exact(files[0].1, matches, others);
        lemma_content_groups_partition(rest);
        lemma_total_len_prepend(seq![files[0].0] + matches, content_groups(rest));
    }
}

/// Of files listed once, none is found equal twice.
proof fn lemma_equal_files_once(file: Option<Seq<u8>>, others: Seq<(FileId, Option<Seq<u8>>)>)
    requires
        distinct_files(others),
    ensures
        equal_files(file, others).no_duplicates(),
    decreases others.len(),
{
    if others.len() > 0 {
        let front = others.drop_last();
        assert forall|a: int, b: int| 0 <= a < b < front.len() implies (#[trigger] front[a]).0 != (
        #[trigger] front[b]).0 by {
            assert(front[a] == others[a]);
            assert(front[b] == others[b]);
        }
        lemma_equal_files_once(file, front);
        lemma_equal_files(file, front);
        let before = equal_files(file, front);
        if before.contains(others.last().0) {
            let k = choose|k: int|
                0 <= k < front.len() && (#[trigger] front[k]).0 == others.last().0 && same_content(
                    file,
                    front[k].1,
                );
            assert(front[k] == others[k]);
            assert(others[k].0 != others[others.len() - 1].0);
        }
    }
}

/// Of files listed once, no class holds a file twice.
pub proof fn lemma_class_lists_once(files: Seq<(FileId, Option<Seq<u8>>)>, g: int)
    requires
        distinct_files(files),
        0 <= g < content_groups(files).len(),
    ensures
        content_groups(files)[g].no_duplicates(),
    decreases files.len(),
{
    let others = files.drop_first();
    let matches = equal_files(files[0].1, others);
    let rest = left_over(matches, others);
    let first = seq![files[0].0] + matches;
    lemma_taken_are_equal(files);
    lemma_left_over_distinct(files[0].1, others);
    lemma_left_over_len(matches, others);
    assert(content_groups(files)[0] == first);
    if g == 0 {
        lemma_equal_files_once(files[0].1, others);
        lemma_equal_files(files[0].1, others);
        assert forall|p: int, q: int| 0 <= p < first.len() && 0 <= q < first.len() && p != q implies first[p]
            != first[q] by {
            if p > 0 && q > 0 {
                assert(first[p] == matches[p - 1] && first[q] == matches[q - 1]);
            } else {
                let m = if p > 0 {
                    p
                } else {
                    q
                };
                assert(first[m] == matches[m - 1]);
                assert(matches.contains(matches[m - 1]));
                let k = choose|k: int|
                    0 <= k < others.len() && (#[trigger] others[k]).0 == matches[m - 1]
                        && same_content(files[0].1, others[k].1);
                assert(others[k].0 != files[0].0);
            }
        }
    } else {
        assert(content_groups(files)[g] == content_groups(rest)[g - 1]);
        lemma_class_lists_once(rest, g - 1);
    }
}

/// Where each file is listed with the content that `content_of` gives it,
/// every file of a class has the same content as the first of the class.
pub proof fn lemma_class_shares_content(
    files: Seq<(FileId, Option<Seq<u8>>)>,
    content_of: spec_fn(FileId) -> Option<Seq<u8>>,
    g: int,
    p: int,
)
    requires
        forall|i: int| 0 <= i < files.len() ==> (#[trigger] files[i]).1 == content_of(files[i].0),
        0 <= g < content_groups(files).len(),
        0 < p < content_groups(files)[g].len(),
    ensures
        same_content(content_of(content_groups(files)[g][0]), content_of(content_groups(files)[g][p])),
    decreases files.len(),
{
    let others = files.drop_first();
    let matches = equal_files(files[0].1, others);
    let rest = left_over(matches, others);
    let first = seq![files[0].0] + matches;
    lemma_left_over_len(matches, others);
    assert(content_groups(files)[0] == first);
    if g == 0 {
        assert(first[0] == files[0].0);
        assert(first[p] == matches[p - 1]);
        assert(matches.contains(matches[p - 1]));
        lemma_equal_files(files[0].1, others);
        let k = choose|k: int|
            0 <= k < others.len() && (#[trigger] others[k]).0 == matches[p - 1] && same_content(
                files[0].1,
                others[k].1,
            );
        assert(others[k] == files[k + 1]);
    } else {
        assert(content_groups(files)[g] == content_groups(rest)[g - 1]);
        lemma_left_over(matches, others);
        assert forall|r: int| 0 <= r < rest.len() implies (#[trigger] rest[r]).1 == content_of(
            rest[r].0,
        ) by {
            assert(rest.contains(rest[r]));
            let k = choose|k: int| 0 <= k < others.len() && others[k] == rest[r];
            assert(others[k] == files[k + 1]);
        }
        lemma_class_shares_content(rest, content_of, g - 1, p);
    }
}

/// The bytes of a vector, seen through `deep_view`, are its view.
pub proof fn lemma_bytes_deep_view(bytes: Vec<u8>)
    ensures
        bytes.deep_view() == bytes@,
{
    assert(bytes.deep_view() =~= bytes@);
}

/// Compares two contents chunk by chunk, in step, and stops at the first
/// chunk that differs in length or in bytes. They are the same when both end
/// together with every chunk matched.
pub fn are_files_same(file: &[u8], other_file: &[u8]) -> (same: bool)
    ensures
        same == (file@ == other_file@),
{
    let mut done: usize = 0;
    loop
        invariant
            done <= file.len(),
            done <= other_file.len(),
            forall|j: int| 0 <= j < done ==> file@[j] == other_file@[j],
        decreases file.len() - done,
    {
        let read1 = if file.len() - done < CHUNK_LEN {
            file.len() - done
        } else {
            CHUNK_LEN
        };
        let read2 = if other_file.len() - done < CHUNK_LEN {
            other_file.len() - done
        } else {
            CHUNK_LEN
        };
        if read1 != read2 {
            assert(file@.len() != other_file@.len());
            return false;
        }
        if read1 == 0 {
            assert(file@ =~= other_file@);
            return true;
        }
        let mut i: usize = 0;
        while i < read1
            invariant
                i <= read1,
                done + read1 <= file.len(),
                done + read1 <= other_file.len(),
                forall|j: int| 0 <= j < done + i ==> file@[j] == other_file@[j],
            decreases read1 - i,
        {
            if file[done + i] != other_file[done + i] {
                return false;
            }
            i += 1;
        }
        done = done + read1;
    }
}

/// Whether two contents, as read or not, are the same.
fn same_as(file: &Option<Vec<u8>>, other: &Option<Vec<u8>>) -> (same: bool)
    ensures
        same == same_content(file.deep_view(), other.deep_view()),
{
    match (file, other) {
        (Some(a), Some(b)) => {
            proof {
                lemma_bytes_deep_view(*a);
                lemma_bytes_deep_view(*b);
            }
            are_files_same(a.as_slice(), b.as_slice())
        },
        _ => false,
    }
}

/// Finds among `other_files` those whose content is byte for byte that of
/// `file`. A file that could not be read equals none.
pub fn find_equal_files(
    file: &Option<Vec<u8>>,
    other_files: &Vec<(FileId, &Option<Vec<u8>>)>,
) -> (equal: Vec<FileId>)
    ensures
        equal@ == equal_files(file.deep_view(), other_files.deep_view()),
{
    let ghost others = other_files.deep_view();
    let mut equal: Vec<FileId> = Vec::new();
    let mut i: usize = 0;
    while i < other_files.len()
        invariant
            i <= other_files.len(),
            others == other_files.deep_view(),
            equal@ == equal_files(file.deep_view(), others.take(i as int)),
        decreases other_files.len() - i,
    {
        assert(others.take(i + 1).drop_last() =~= others.take(i as int));
        if same_as(file, other_files[i].1) {
            equal.push(other_files[i].0);
        }
        i += 1;
    }
    assert(others.take(i as int) =~= others);
    equal
}

/// Splits files that are known to agree in size into classes of equal
/// content. The first file is held against every other; it and its equals
/// form one group and leave; the same is done with what is left, until
/// nothing is. A file that could not be read ends in a group of its own.
pub fn same_content_groups(files: &Vec<(FileId, Option<Vec<u8>>)>) -> (groups: Vec<Vec<FileId>>)
    ensures
        groups.deep_view() == content_groups(files.deep_view()),
{
    let mut remaining: Vec<(FileId, &Option<Vec<u8>>)> = Vec::new();
    let mut i: usize = 0;
    while i < files.len()
        invariant
            i <= files.len(),
            remaining.len() == i,
            forall|j: int| 0 <= j < i ==> (#[trigger] remaining@[j]).deep_view() == files.deep_view()[j],
        decreases files.len() - i,
    {
        remaining.push((files[i].0, &files[i].1));
        i += 1;
    }
    assert(remaining.deep_view() =~= files.deep_view());
    let mut groups: Vec<Vec<FileId>> = Vec::new();
    assert(groups.deep_view() =~= Seq::<Seq<FileId>>::empty());
    while remaining.len() > 0
        invariant
            groups.deep_view() + content_groups(remaining.deep_view()) == content_groups(
                files.deep_view(),
            ),
        decreases remaining.len(),
    {
        let ghost was = remaining.deep_view();
        let ghost done = groups.deep_view();
        let pivot = remaining.remove(0);
        assert(remaining.deep_view() =~= was.drop_first());
        let ghost others = remaining.deep_view();
        let mut group = find_equal_files(pivot.1, &remaining);
        let ghost matches = group@;
        let mut rest: Vec<(FileId, &Option<Vec<u8>>)> = Vec::new();
        let mut j: usize = 0;
        assert(rest.deep_view() =~= left_over(matches, others.take(0)));
        while j < remaining.len()
            invariant
                j <= remaining.len(),
                others == remaining.deep_view(),
                matches == group@,
                rest.deep_view() == left_over(matches, others.take(j as int)),
            decreases remaining.len() - j,
        {
            assert(others.take(j + 1).drop_last() =~= others.take(j as int));
            let ghost kept = rest.deep_view();
            if !holds_file(&group, remaining[j].0) {
                rest.push(remaining[j]);
                assert(rest.deep_view() =~= kept.push(others[j as int]));
            }
            j += 1;
        }
        assert(others.take(j as int) =~= others);
        proof {
            lemma_left_over_len(matches, others);
        }
        group.insert(0, pivot.0);
        assert(group@ =~= seq![was[0].0] + matches);
        groups.push(group);
        assert(groups.deep_view() =~= done.push(seq![was[0].0] + matches)) by {
            assert(group.deep_view() =~= group@);
        }
        assert(done.push(seq![was[0].0] + matches) + content_groups(left_over(matches, others))
            =~= done + content_groups(was));
        remaining = rest;
    }
    assert(groups.deep_view() + Seq::<Seq<FileId>>::empty() =~= groups.deep_view());
    groups
}

} // verus!
