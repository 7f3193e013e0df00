use vstd::prelude::*;

use crate::model::CommentV;
use crate::render::{
    actions_of_comments, actions_of_file, actions_of_files, actions_of_lines, insert_file,
    insert_line, render_spec, sort_files, sort_lines,
};
use crate::session::{
    FileReviewV, SessionV, add_line_v, bucket_of, count_reviewed, files_unique,
    lemma_add_line_bucket,
};
use crate::text::{lemma_str_le_antisym, lemma_str_le_total, lemma_str_le_trans, str_le};

verus! {

/// How many of a run of comments are action items.
pub open spec fn count_actions_comments(cs: Seq<CommentV>) -> nat
    decreases cs.len(),
{
    if cs.len() == 0 {
        0
    } else {
        count_actions_comments(cs.drop_last()) + (if cs.last().comment_type.spec_is_action() {
            1nat
        } else {
            0nat
        })
    }
}

/// How many action items a run of line buckets holds.
pub open spec fn count_actions_lines(ls: Seq<(u32, Seq<CommentV>)>) -> nat
    decreases ls.len(),
{
    if ls.len() == 0 {
        0
    } else {
        count_actions_lines(ls.drop_last()) + count_actions_comments(ls.last().1)
    }
}

/// How many action items one file's review holds.
pub open spec fn count_actions_file(fr: FileReviewV) -> nat {
    count_actions_comments(fr.file_comments) + count_actions_lines(fr.line_comments)
}

/// The total count of Issue and Suggestion comments across a run of
/// files.
pub open spec fn count_actions_files(fs: Seq<(Seq<char>, FileReviewV)>) -> nat
    decreases fs.len(),
{
    if fs.len() == 0 {
        0
    } else {
        count_actions_files(fs.drop_last()) + count_actions_file(fs.last().1)
    }
}

proof fn lemma_cc_concat(a: Seq<CommentV>, b: Seq<CommentV>)
    ensures
        count_actions_comments(a + b) == count_actions_comments(a) + count_actions_comments(b),
    decreases b.len(),
{
    if b.len() == 0 {
        assert(a + b =~= a);
    } else {
        assert((a + b).drop_last() =~= a + b.drop_last());
        assert((a + b).last() == b.last());
        lemma_cc_concat(a, b.drop_last());
    }
}

proof fn lemma_cl_concat(a: Seq<(u32, Seq<CommentV>)>, b: Seq<(u32, Seq<CommentV>)>)
    ensures
        count_actions_lines(a + b) == count_actions_lines(a) + count_actions_lines(b),
    decreases b.len(),
{
    if b.len() == 0 {
        assert(a + b =~= a);
    } else {
        assert((a + b).drop_last() =~= a + b.drop_last());
        assert((a + b).last() == b.last());
        lemma_cl_concat(a, b.drop_last());
    }
}

proof fn lemma_ac_len(path: Seq<char>, line: Option<u32>, cs: Seq<CommentV>)
    ensures
        actions_of_comments(path, line, cs).len() == count_actions_comments(cs),
    decreases cs.len(),
{
    if cs.len() > 0 {
        lemma_ac_len(path, line, cs.drop_last());
    }
}

proof fn lemma_al_len(path: Seq<char>, ls: Seq<(u32, Seq<CommentV>)>)
    ensures
        actions_of_lines(path, ls).len() == count_actions_lines(ls),
    decreases ls.len(),
{
    if ls.len() > 0 {
        lemma_al_len(path, ls.drop_last());
        lemma_ac_len(path, Some(ls.last().0), ls.last().1);
    }
}

proof fn lemma_cl_single(x: (u32, Seq<CommentV>))
    ensures
        count_actions_lines(seq![x]) == count_actions_comments(x.1),
{
    let s = seq![x];
    assert(s.drop_last() =~= Seq::<(u32, Seq<CommentV>)>::empty());
    assert(count_actions_lines(s.drop_last()) == 0);
    assert(s.last() == x);
}

proof fn lemma_cf_single(x: (Seq<char>, FileReviewV))
    ensures
        count_actions_files(seq![x]) == count_actions_file(x.1),
        count_reviewed(seq![x]) == (if x.1.reviewed {
            1nat
        } else {
            0nat
        }),
{
    let s = seq![x];
    assert(s.drop_last() =~= Seq::<(Seq<char>, FileReviewV)>::empty());
    assert(count_actions_files(s.drop_last()) == 0);
    assert(count_reviewed(s.drop_last()) == 0);
    assert(s.last() == x);
}

proof fn lemma_insert_line_count(s: Seq<(u32, Seq<CommentV>)>, x: (u32, Seq<CommentV>))
    ensures
        count_actions_lines(insert_line(s, x)) == count_actions_lines(s) + count_actions_comments(
            x.1,
        ),
    decreases s.len(),
{
    lemma_cl_single(x);
    if s.len() == 0 {
        assert(insert_line(s, x) =~= seq![x]);
    } else if x.0 <= s[0].0 {
        lemma_cl_concat(seq![x], s);
    } else {
        lemma_cl_single(s[0]);
        lemma_insert_line_count(s.skip(1), x);
        lemma_cl_concat(seq![s[0]], insert_line(s.skip(1), x));
        lemma_cl_concat(seq![s[0]], s.skip(1));
        assert(seq![s[0]] + s.skip(1) =~= s);
    }
}

proof fn lemma_sort_lines_count(ls: Seq<(u32, Seq<CommentV>)>)
    ensures
        count_actions_lines(sort_lines(ls)) == count_actions_lines(ls),
    decreases ls.len(),
{
    if ls.len() > 0 {
        lemma_sort_lines_count(ls.drop_last());
        lemma_insert_line_count(sort_lines(ls.drop_last()), ls.last());
    }
}

proof fn lemma_af_len(path: Seq<char>, fr: FileReviewV)
    ensures
        actions_of_file(path, fr).len() == count_actions_file(fr),
{
    lemma_ac_len(path, None, fr.file_comments);
    lemma_al_len(path, sort_lines(fr.line_comments));
    lemma_sort_lines_count(fr.line_comments);
}

proof fn lemma_afs_len(fs: Seq<(Seq<char>, FileReviewV)>)
    ensures
        actions_of_files(fs).len() == count_actions_files(fs),
    decreases fs.len(),
{
    if fs.len() > 0 {
        lemma_afs_len(fs.drop_last());
        lemma_af_len(fs.last().0, fs.last().1);
    }
}

proof fn lemma_cf_concat(a: Seq<(Seq<char>, FileReviewV)>, b: Seq<(Seq<char>, FileReviewV)>)
    ensures
        count_actions_files(a + b) == count_actions_files(a) + count_actions_files(b),
        count_reviewed(a + b) == count_reviewed(a) + count_reviewed(b),
    decreases b.len(),
{
    if b.len() == 0 {
        assert(a + b =~= a);
    } else {
        assert((a + b).drop_last() =~= a + b.drop_last());
        assert((a + b).last() == b.last());
        lemma_cf_concat(a, b.drop_last());
    }
}

proof fn lemma_insert_file_counts(s: Seq<(Seq<char>, FileReviewV)>, x: (Seq<char>, FileReviewV))
    ensures
        count_actions_files(insert_file(s, x)) == count_actions_files(s) + count_actions_file(x.1),
        count_reviewed(insert_file(s, x)) == count_reviewed(s) + (if x.1.reviewed {
            1nat
        } else {
            0nat
        }),
    decreases s.len(),
{
    lemma_cf_single(x);
    if s.len() == 0 {
        assert(insert_file(s, x) =~= seq![x]);
    } else if str_le(x.0, s[0].0) {
        lemma_cf_concat(seq![x], s);
    } else {
        lemma_cf_single(s[0]);
        lemma_insert_file_counts(s.skip(1), x);
        lemma_cf_concat(seq![s[0]], insert_file(s.skip(1), x));
        lemma_cf_concat(seq![s[0]], s.skip(1));
        assert(seq![s[0]] + s.skip(1) =~= s);
    }
}

proof fn lemma_sort_files_counts(fs: Seq<(Seq<char>, FileReviewV)>)
    ensures
        count_actions_files(sort_files(fs)) == count_actions_files(fs),
        count_reviewed(sort_files(fs)) == count_reviewed(fs),
    decreases fs.len(),
{
    if fs.len() > 0 {
        lemma_sort_files_counts(fs.drop_last());
        lemma_insert_file_counts(sort_files(fs.drop_last()), fs.last());
    }
}

/// The rendered action list has exactly one entry per Issue or
/// Suggestion comment in the session, however the files are stored;
/// Note and Praise comments never contribute.
pub proof fn lemma_action_items_count(s: SessionV)
    ensures
        actions_of_files(sort_files(s.files)).len() == count_actions_files(s.files),
{
    lemma_afs_len(sort_files(s.files));
    lemma_sort_files_counts(s.files);
}

/// The reviewed count depends on the reviewed flags alone: two runs of
/// files that agree on them entry by entry count the same, whatever
/// their comments hold.
pub proof fn lemma_reviewed_count_flags_only(
    f1: Seq<(Seq<char>, FileReviewV)>,
    f2: Seq<(Seq<char>, FileReviewV)>,
)
    requires
        f1.len() == f2.len(),
        forall|i: int| 0 <= i < f1.len() ==> (#[trigger] f1[i]).1.reviewed == (#[trigger] f2[i]).1.reviewed,
    ensures
        count_reviewed(f1) == count_reviewed(f2),
    decreases f1.len(),
{
    if f1.len() > 0 {
        assert(f1.last().1.reviewed == f2.last().1.reviewed);
        lemma_reviewed_count_flags_only(f1.drop_last(), f2.drop_last());
    }
}

/// Anchor distinctness: adding a comment at a line and then another at
/// the same line—whatever their sides—leaves both in that line's
/// bucket, in insertion order; no other bucket changes, and nothing is
/// merged or overwritten.
pub proof fn lemma_anchor_distinct(
    l: Seq<(u32, Seq<CommentV>)>,
    line: u32,
    c1: CommentV,
    c2: CommentV,
)
    ensures
        bucket_of(add_line_v(add_line_v(l, line, c1), line, c2), line) == bucket_of(
            l,
            line,
        ).push(c1).push(c2),
        forall|m: u32|
            m != line ==> bucket_of(add_line_v(add_line_v(l, line, c1), line, c2), m) == bucket_of(
                l,
                m,
            ),
{
    lemma_add_line_bucket(l, line, c1);
    lemma_add_line_bucket(add_line_v(l, line, c1), line, c2);
}

} // verus!

verus! {

/// Entries stand in ascending lexicographic path order.
pub open spec fn files_sorted(s: Seq<(Seq<char>, FileReviewV)>) -> bool {
    forall|i: int, j: int|
        0 <= i < j < s.len() ==> str_le((#[trigger] s[i]).0, (#[trigger] s[j]).0)
}

/// Buckets stand in ascending numeric line order.
pub open spec fn lines_sorted(s: Seq<(u32, Seq<CommentV>)>) -> bool {
    forall|i: int, j: int| 0 <= i < j < s.len() ==> (#[trigger] s[i]).0 <= (#[trigger] s[j]).0
}

proof fn lemma_insert_file_multiset(s: Seq<(Seq<char>, FileReviewV)>, x: (Seq<char>, FileReviewV))
    ensures
        insert_file(s, x).to_multiset() == s.to_multiset().insert(x),
    decreases s.len(),
{
    broadcast use vstd::seq_lib::group_to_multiset_ensures;
    broadcast use vstd::multiset::group_multiset_axioms;

    if s.len() == 0 {
        assert(s =~= Seq::<(Seq<char>, FileReviewV)>::empty());
        assert(insert_file(s, x) =~= s.push(x));
        assert(s.push(x).to_multiset() =~= s.to_multiset().insert(x));
    } else if str_le(x.0, s[0].0) {
        vstd::seq_lib::lemma_multiset_commutative(seq![x], s);
        assert(seq![x] =~= Seq::<(Seq<char>, FileReviewV)>::empty().push(x));
        assert(seq![x].to_multiset() =~= Seq::<(Seq<char>, FileReviewV)>::empty()
            .to_multiset().insert(x));
        assert(insert_file(s, x).to_multiset() =~= s.to_multiset().insert(x));
    } else {
        lemma_insert_file_multiset(s.skip(1), x);
        vstd::seq_lib::lemma_multiset_commutative(seq![s[0]], insert_file(s.skip(1), x));
        vstd::seq_lib::lemma_multiset_commutative(seq![s[0]], s.skip(1));
        assert(seq![s[0]] + s.skip(1) =~= s);
        assert(seq![s[0]] =~= Seq::<(Seq<char>, FileReviewV)>::empty().push(s[0]));
        assert(seq![s[0]].to_multiset() =~= Seq::<(Seq<char>, FileReviewV)>::empty()
            .to_multiset().insert(s[0]));
        assert(insert_file(s, x).to_multiset() =~= s.to_multiset().insert(x));
    }
}

proof fn lemma_insert_file_sorted(s: Seq<(Seq<char>, FileReviewV)>, x: (Seq<char>, FileReviewV))
    requires
        files_sorted(s),
    ensures
        files_sorted(insert_file(s, x)),
    decreases s.len(),
{
    broadcast use vstd::seq_lib::group_to_multiset_ensures;
    broadcast use vstd::multiset::group_multiset_axioms;

    let r = insert_file(s, x);
    if s.len() == 0 {
    } else if str_le(x.0, s[0].0) {
        assert forall|i: int, j: int| 0 <= i < j < r.len() implies str_le(
            (#[trigger] r[i]).0,
            (#[trigger] r[j]).0,
        ) by {
            if i == 0 {
                assert(r[j] == s[j - 1]);
                if j > 1 {
                    lemma_str_le_trans(x.0, s[0].0, s[j - 1].0);
                }
            } else {
                assert(r[i] == s[i - 1]);
                assert(r[j] == s[j - 1]);
            }
        }
    } else {
        lemma_str_le_total(x.0, s[0].0);
        assert(str_le(s[0].0, x.0));
        lemma_insert_file_sorted(s.skip(1), x);
        lemma_insert_file_multiset(s.skip(1), x);
        let rt = insert_file(s.skip(1), x);
        assert forall|i: int, j: int| 0 <= i < j < r.len() implies str_le(
            (#[trigger] r[i]).0,
            (#[trigger] r[j]).0,
        ) by {
            if i > 0 {
                assert(r[i] == rt[i - 1]);
                assert(r[j] == rt[j - 1]);
            } else {
                assert(r[j] == rt[j - 1]);
                assert(rt.contains(rt[j - 1]));
                assert(rt.to_multiset().count(rt[j - 1]) > 0);
                if rt[j - 1] == x {
                    assert(str_le(r[0].0, r[j].0));
                } else {
                    assert(s.skip(1).to_multiset().count(rt[j - 1]) > 0);
                    assert(s.skip(1).contains(rt[j - 1]));
                    let k = choose|k: int|
                        0 <= k < s.skip(1).len() && s.skip(1)[k] == rt[j - 1];
                    assert(s[k + 1] == rt[j - 1]);
                    assert(str_le(s[0].0, s[k + 1].0));
                }
            }
        }
    }
}

proof fn lemma_insert_file_unique(s: Seq<(Seq<char>, FileReviewV)>, x: (Seq<char>, FileReviewV))
    requires
        files_unique(s),
        forall|k: int| 0 <= k < s.len() ==> (#[trigger] s[k]).0 != x.0,
    ensures
        files_unique(insert_file(s, x)),
    decreases s.len(),
{
    broadcast use vstd::seq_lib::group_to_multiset_ensures;
    broadcast use vstd::multiset::group_multiset_axioms;

    let r = insert_file(s, x);
    if s.len() == 0 {
    } else if str_le(x.0, s[0].0) {
        assert forall|i: int, j: int| 0 <= i < j < r.len() implies (#[trigger] r[i]).0 != (
        #[trigger] r[j]).0 by {
            if i == 0 {
                assert(r[j] == s[j - 1]);
            } else {
                assert(r[i] == s[i - 1]);
                assert(r[j] == s[j - 1]);
            }
        }
    } else {
        assert forall|k: int| 0 <= k < s.skip(1).len() implies (#[trigger] s.skip(1)[k]).0
            != x.0 by {
            assert(s.skip(1)[k] == s[k + 1]);
        }
        assert forall|i: int, j: int| 0 <= i < j < s.skip(1).len() implies (
        #[trigger] s.skip(1)[i]).0 != (#[trigger] s.skip(1)[j]).0 by {
            assert(s.skip(1)[i] == s[i + 1]);
            assert(s.skip(1)[j] == s[j + 1]);
        }
        lemma_insert_file_unique(s.skip(1), x);
        lemma_insert_file_multiset(s.skip(1), x);
        let rt = insert_file(s.skip(1), x);
        assert forall|i: int, j: int| 0 <= i < j < r.len() implies (#[trigger] r[i]).0 != (
        #[trigger] r[j]).0 by {
            if i > 0 {
                assert(r[i] == rt[i - 1]);
                assert(r[j] == rt[j - 1]);
            } else {
                assert(r[j] == rt[j - 1]);
                assert(rt.contains(rt[j - 1]));
                assert(rt.to_multiset().count(rt[j - 1]) > 0);
                if rt[j - 1] == x {
                    assert(r[0].0 != x.0);
                } else {
                    assert(s.skip(1).to_multiset().count(rt[j - 1]) > 0);
                    assert(s.skip(1).contains(rt[j - 1]));
                    let k = choose|k: int|
                        0 <= k < s.skip(1).len() && s.skip(1)[k] == rt[j - 1];
                    assert(s[k + 1] == rt[j - 1]);
                    assert(s[0].0 != s[k + 1].0);
                }
            }
        }
    }
}

/// The generator's file order: ascending by path, holding exactly the
/// session's entries.
pub proof fn lemma_sort_files_ensures(fs: Seq<(Seq<char>, FileReviewV)>)
    ensures
        files_sorted(sort_files(fs)),
        sort_files(fs).to_multiset() == fs.to_multiset(),
        sort_files(fs).len() == fs.len(),
    decreases fs.len(),
{
    broadcast use vstd::seq_lib::group_to_multiset_ensures;
    broadcast use vstd::multiset::group_multiset_axioms;

    if fs.len() > 0 {
        lemma_sort_files_ensures(fs.drop_last());
        lemma_insert_file_sorted(sort_files(fs.drop_last()), fs.last());
        lemma_insert_file_multiset(sort_files(fs.drop_last()), fs.last());
        assert(fs =~= fs.drop_last().push(fs.last()));
        assert(fs.drop_last().push(fs.last()).to_multiset() =~= fs.drop_last()
            .to_multiset().insert(fs.last()));
        assert(sort_files(fs).to_multiset() =~= fs.to_multiset());
        assert(sort_files(fs).len() == sort_files(fs).to_multiset().len());
        assert(fs.len() == fs.to_multiset().len());
    }
}

/// Sorting keeps the file keys pairwise distinct.
pub proof fn lemma_sort_files_unique(fs: Seq<(Seq<char>, FileReviewV)>)
    requires
        files_unique(fs),
    ensures
        files_unique(sort_files(fs)),
    decreases fs.len(),
{
    broadcast use vstd::seq_lib::group_to_multiset_ensures;
    broadcast use vstd::multiset::group_multiset_axioms;

    if fs.len() > 0 {
        let d = fs.drop_last();
        let x = fs.last();
        assert forall|i: int, j: int| 0 <= i < j < d.len() implies (#[trigger] d[i]).0 != (
        #[trigger] d[j]).0 by {
            assert(d[i] == fs[i]);
            assert(d[j] == fs[j]);
        }
        lemma_sort_files_unique(d);
        lemma_sort_files_ensures(d);
        let sd = sort_files(d);
        assert forall|k: int| 0 <= k < sd.len() implies (#[trigger] sd[k]).0 != x.0 by {
            assert(sd.contains(sd[k]));
            assert(sd.to_multiset().count(sd[k]) > 0);
            assert(d.contains(sd[k]));
            let m = choose|m: int| 0 <= m < d.len() && d[m] == sd[k];
            assert(fs[m] == sd[k]);
            assert(fs[m].0 != fs[fs.len() - 1].0);
        }
        lemma_insert_file_unique(sd, x);
    }
}

/// Two path-sorted runs with the same entries, the first with distinct
/// keys, are the same run.
proof fn lemma_sorted_unique(
    s1: Seq<(Seq<char>, FileReviewV)>,
    s2: Seq<(Seq<char>, FileReviewV)>,
)
    requires
        files_sorted(s1),
        files_sorted(s2),
        files_unique(s1),
        s1.to_multiset() == s2.to_multiset(),
    ensures
        s1 == s2,
    decreases s1.len(),
{
    broadcast use vstd::seq_lib::group_to_multiset_ensures;
    broadcast use vstd::multiset::group_multiset_axioms;

    if s1.len() == 0 {
        assert(s1.len() == s1.to_multiset().len());
        assert(s2.len() == s2.to_multiset().len());
        assert(s2.len() == 0);
        assert(s1 =~= s2);
    } else {
        assert(s1.len() == s1.to_multiset().len());
        assert(s2.len() == s2.to_multiset().len());
        assert(s2.len() == s1.len());
        assert(s1.contains(s1[0]));
        assert(s2.to_multiset().count(s1[0]) > 0);
        assert(s2.contains(s1[0]));
        let m = choose|m: int| 0 <= m < s2.len() && s2[m] == s1[0];
        assert(s2.contains(s2[0]));
        assert(s1.to_multiset().count(s2[0]) > 0);
        assert(s1.contains(s2[0]));
        let k = choose|k: int| 0 <= k < s1.len() && s1[k] == s2[0];
        if s1[0] == s2[0] {
            let t1 = s1.drop_first();
            let t2 = s2.drop_first();
            assert(s1 =~= seq![s1[0]] + t1);
            assert(s2 =~= seq![s2[0]] + t2);
            vstd::seq_lib::lemma_multiset_commutative(seq![s1[0]], t1);
            vstd::seq_lib::lemma_multiset_commutative(seq![s2[0]], t2);
            assert forall|e: (Seq<char>, FileReviewV)|
                t1.to_multiset().count(e) == #[trigger] t2.to_multiset().count(e) by {
                assert(s1.to_multiset().count(e) == seq![s1[0]].to_multiset().count(e)
                    + t1.to_multiset().count(e));
                assert(s2.to_multiset().count(e) == seq![s2[0]].to_multiset().count(e)
                    + t2.to_multiset().count(e));
            }
            assert(t1.to_multiset() =~= t2.to_multiset());
            assert forall|i: int, j: int| 0 <= i < j < t1.len() implies str_le(
                (#[trigger] t1[i]).0,
                (#[trigger] t1[j]).0,
            ) by {
                assert(t1[i] == s1[i + 1]);
                assert(t1[j] == s1[j + 1]);
            }
            assert forall|i: int, j: int| 0 <= i < j < t2.len() implies str_le(
                (#[trigger] t2[i]).0,
                (#[trigger] t2[j]).0,
            ) by {
                assert(t2[i] == s2[i + 1]);
                assert(t2[j] == s2[j + 1]);
            }
            assert forall|i: int, j: int| 0 <= i < j < t1.len() implies (#[trigger] t1[i]).0 != (
            #[trigger] t1[j]).0 by {
                assert(t1[i] == s1[i + 1]);
                assert(t1[j] == s1[j + 1]);
            }
            lemma_sorted_unique(t1, t2);
            assert(s1 =~= s2);
        } else {
            assert(m != 0);
            assert(k != 0);
            assert(str_le(s1[0].0, s1[k].0));
            assert(str_le(s2[0].0, s2[m].0));
            lemma_str_le_antisym(s1[0].0, s2[0].0);
            assert(s1[k].0 == s1[0].0);
            assert(false);
        }
    }
}

/// Determinism: two sessions that agree on every field and hold the
/// same set of file entries—in whatever order their containers keep
/// them—render to the same document, byte for byte.
pub proof fn lemma_render_deterministic(s1: SessionV, s2: SessionV)
    requires
        files_unique(s1.files),
        files_unique(s2.files),
        s1.files.to_multiset() == s2.files.to_multiset(),
        s1.repo_path == s2.repo_path,
        s1.base_commit == s2.base_commit,
        s1.updated_at == s2.updated_at,
        s1.session_notes == s2.session_notes,
    ensures
        render_spec(s1) == render_spec(s2),
{
    broadcast use vstd::seq_lib::group_to_multiset_ensures;

    lemma_sort_files_ensures(s1.files);
    lemma_sort_files_ensures(s2.files);
    lemma_sort_files_unique(s1.files);
    lemma_sorted_unique(sort_files(s1.files), sort_files(s2.files));
    lemma_sort_files_counts(s1.files);
    lemma_sort_files_counts(s2.files);
    assert(count_reviewed(s1.files) == count_reviewed(s2.files));
    assert(s1.files.len() == s2.files.len());
}

} // verus!

verus! {

proof fn lemma_insert_line_multiset(s: Seq<(u32, Seq<CommentV>)>, x: (u32, Seq<CommentV>))
    ensures
        insert_line(s, x).to_multiset() == s.to_multiset().insert(x),
    decreases s.len(),
{
    broadcast use vstd::seq_lib::group_to_multiset_ensures;
    broadcast use vstd::multiset::group_multiset_axioms;

    if s.len() == 0 {
        assert(s =~= Seq::<(u32, Seq<CommentV>)>::empty());
        assert(insert_line(s, x) =~= s.push(x));
        assert(s.push(x).to_multiset() =~= s.to_multiset().insert(x));
    } else if x.0 <= s[0].0 {
        vstd::seq_lib::lemma_multiset_commutative(seq![x], s);
        assert(seq![x] =~= Seq::<(u32, Seq<CommentV>)>::empty().push(x));
        assert(seq![x].to_multiset() =~= Seq::<(u32, Seq<CommentV>)>::empty()
            .to_multiset().insert(x));
        assert(insert_line(s, x).to_multiset() =~= s.to_multiset().insert(x));
    } else {
        lemma_insert_line_multiset(s.skip(1), x);
        vstd::seq_lib::lemma_multiset_commutative(seq![s[0]], insert_line(s.skip(1), x));
        vstd::seq_lib::lemma_multiset_commutative(seq![s[0]], s.skip(1));
        assert(seq![s[0]] + s.skip(1) =~= s);
        assert(seq![s[0]] =~= Seq::<(u32, Seq<CommentV>)>::empty().push(s[0]));
        assert(seq![s[0]].to_multiset() =~= Seq::<(u32, Seq<CommentV>)>::empty()
            .to_multiset().insert(s[0]));
        assert(insert_line(s, x).to_multiset() =~= s.to_multiset().insert(x));
    }
}

proof fn lemma_insert_line_sorted(s: Seq<(u32, Seq<CommentV>)>, x: (u32, Seq<CommentV>))
    requires
        lines_sorted(s),
    ensures
        lines_sorted(insert_line(s, x)),
    decreases s.len(),
{
    broadcast use vstd::seq_lib::group_to_multiset_ensures;
    broadcast use vstd::multiset::group_multiset_axioms;

    let r = insert_line(s, x);
    if s.len() == 0 {
    } else if x.0 <= s[0].0 {
        assert forall|i: int, j: int| 0 <= i < j < r.len() implies (#[trigger] r[i]).0 <= (
        #[trigger] r[j]).0 by {
            if i > 0 {
                assert(r[i] == s[i - 1]);
            }
            assert(r[j] == s[j - 1]);
        }
    } else {
        lemma_insert_line_sorted(s.skip(1), x);
        lemma_insert_line_multiset(s.skip(1), x);
        let rt = insert_line(s.skip(1), x);
        assert forall|i: int, j: int| 0 <= i < j < r.len() implies (#[trigger] r[i]).0 <= (
        #[trigger] r[j]).0 by {
            if i > 0 {
                assert(r[i] == rt[i - 1]);
                assert(r[j] == rt[j - 1]);
            } else {
                assert(r[j] == rt[j - 1]);
                assert(rt.contains(rt[j - 1]));
                assert(rt.to_multiset().count(rt[j - 1]) > 0);
                if rt[j - 1] != x {
                    assert(s.skip(1).to_multiset().count(rt[j - 1]) > 0);
                    assert(s.skip(1).contains(rt[j - 1]));
                    let k = choose|k: int|
                        0 <= k < s.skip(1).len() && s.skip(1)[k] == rt[j - 1];
                    assert(s[k + 1] == rt[j - 1]);
                    assert(s[0].0 <= s[k + 1].0);
                }
            }
        }
    }
}

/// The generator's line order within a file: ascending by line number,
/// holding exactly the file's buckets; each bucket's comments keep
/// their insertion order, untouched by the sort.
pub proof fn lemma_sort_lines_ensures(ls: Seq<(u32, Seq<CommentV>)>)
    ensures
        lines_sorted(sort_lines(ls)),
        sort_lines(ls).to_multiset() == ls.to_multiset(),
        sort_lines(ls).len() == ls.len(),
    decreases ls.len(),
{
    broadcast use vstd::seq_lib::group_to_multiset_ensures;
    broadcast use vstd::multiset::group_multiset_axioms;

    if ls.len() > 0 {
        lemma_sort_lines_ensures(ls.drop_last());
        lemma_insert_line_sorted(sort_lines(ls.drop_last()), ls.last());
        lemma_insert_line_multiset(sort_lines(ls.drop_last()), ls.last());
        assert(ls =~= ls.drop_last().push(ls.last()));
        assert(ls.drop_last().push(ls.last()).to_multiset() =~= ls.drop_last()
            .to_multiset().insert(ls.last()));
        assert(sort_lines(ls).to_multiset() =~= ls.to_multiset());
        assert(sort_lines(ls).len() == sort_lines(ls).to_multiset().len());
        assert(ls.len() == ls.to_multiset().len());
    }
}

} // verus!
