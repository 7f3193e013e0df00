use vstd::prelude::*;

use crate::model::{type_label, status_glyph, Comment, CommentV};
use crate::session::{
    FileReview, FileReviewV, ReviewSession, SessionV, count_reviewed, files_v, comments_v, lines_v,
};
use crate::text::{dec_u64, repo_name, repo_name_exec, str_le, str_le_exec, push_u64};
use crate::trusted;
use crate::trusted::utc_display_of;

verus! {

/// Insertion of one entry into a path-sorted run of files, before the
/// first entry its path precedes.
pub open spec fn insert_file(
    s: Seq<(Seq<char>, FileReviewV)>,
    x: (Seq<char>, FileReviewV),
) -> Seq<(Seq<char>, FileReviewV)>
    decreases s.len(),
{
    if s.len() == 0 {
        seq![x]
    } else if str_le(x.0, s[0].0) {
        seq![x] + s
    } else {
        seq![s[0]] + insert_file(s.skip(1), x)
    }
}

/// The generator's own total order on files: insertion sort by path,
/// ascending; it does not depend on the container's order beyond the
/// multiset of entries it holds.
pub open spec fn sort_files(fs: Seq<(Seq<char>, FileReviewV)>) -> Seq<(Seq<char>, FileReviewV)>
    decreases fs.len(),
{
    if fs.len() == 0 {
        fs
    } else {
        insert_file(sort_files(fs.drop_last()), fs.last())
    }
}

/// Insertion of one bucket into a line-sorted run, before the first
/// bucket with a key no smaller.
pub open spec fn insert_line(
    s: Seq<(u32, Seq<CommentV>)>,
    x: (u32, Seq<CommentV>),
) -> Seq<(u32, Seq<CommentV>)>
    decreases s.len(),
{
    if s.len() == 0 {
        seq![x]
    } else if x.0 <= s[0].0 {
        seq![x] + s
    } else {
        seq![s[0]] + insert_line(s.skip(1), x)
    }
}

/// Line buckets in ascending numeric key order.
pub open spec fn sort_lines(ls: Seq<(u32, Seq<CommentV>)>) -> Seq<(u32, Seq<CommentV>)>
    decreases ls.len(),
{
    if ls.len() == 0 {
        ls
    } else {
        insert_line(sort_lines(ls.drop_last()), ls.last())
    }
}

pub proof fn lemma_insert_file_at(
    s: Seq<(Seq<char>, FileReviewV)>,
    x: (Seq<char>, FileReviewV),
    j: int,
)
    requires
        0 <= j <= s.len(),
        forall|k: int| 0 <= k < j ==> !str_le(x.0, (#[trigger] s[k]).0),
        j < s.len() ==> str_le(x.0, s[j].0),
    ensures
        insert_file(s, x) == s.take(j) + seq![x] + s.skip(j),
    decreases s.len(),
{
    if s.len() == 0 {
        assert(insert_file(s, x) =~= s.take(j) + seq![x] + s.skip(j));
    } else if j == 0 {
        assert(str_le(x.0, s[0].0));
        assert(insert_file(s, x) =~= s.take(0) + seq![x] + s.skip(0));
    } else {
        assert(!str_le(x.0, s[0].0));
        assert forall|k: int| 0 <= k < j - 1 implies !str_le(x.0, (#[trigger] s.skip(1)[k]).0) by {
            assert(s.skip(1)[k] == s[k + 1]);
        }
        if j < s.len() {
            assert(s.skip(1)[j - 1] == s[j]);
        }
        lemma_insert_file_at(s.skip(1), x, j - 1);
        assert(insert_file(s, x) =~= s.take(j) + seq![x] + s.skip(j)) by {
            assert(s.skip(1).take(j - 1) =~= s.take(j).skip(1));
            assert(s.skip(1).skip(j - 1) =~= s.skip(j));
        }
    }
}

pub proof fn lemma_insert_line_at(s: Seq<(u32, Seq<CommentV>)>, x: (u32, Seq<CommentV>), j: int)
    requires
        0 <= j <= s.len(),
        forall|k: int| 0 <= k < j ==> !(x.0 <= (#[trigger] s[k]).0),
        j < s.len() ==> x.0 <= s[j].0,
    ensures
        insert_line(s, x) == s.take(j) + seq![x] + s.skip(j),
    decreases s.len(),
{
    if s.len() == 0 {
        assert(insert_line(s, x) =~= s.take(j) + seq![x] + s.skip(j));
    } else if j == 0 {
        assert(insert_line(s, x) =~= s.take(0) + seq![x] + s.skip(0));
    } else {
        assert forall|k: int| 0 <= k < j - 1 implies !(x.0 <= (#[trigger] s.skip(1)[k]).0) by {
            assert(s.skip(1)[k] == s[k + 1]);
        }
        if j < s.len() {
            assert(s.skip(1)[j - 1] == s[j]);
        }
        lemma_insert_line_at(s.skip(1), x, j - 1);
        assert(insert_line(s, x) =~= s.take(j) + seq![x] + s.skip(j)) by {
            assert(s.skip(1).take(j - 1) =~= s.take(j).skip(1));
            assert(s.skip(1).skip(j - 1) =~= s.skip(j));
        }
    }
}

/// One rendered remark.
pub open spec fn comment_block(c: CommentV) -> Seq<char> {
    "> **["@ + type_label(c.comment_type) + "]** "@ + c.content + "\n\n"@
}

/// A run of remarks, in the order given.
pub open spec fn comment_blocks(cs: Seq<CommentV>) -> Seq<char>
    decreases cs.len(),
{
    if cs.len() == 0 {
        Seq::<char>::empty()
    } else {
        comment_blocks(cs.drop_last()) + comment_block(cs.last())
    }
}

/// A bucket's remarks, each under its line heading.
pub open spec fn line_block(line: u32, cs: Seq<CommentV>) -> Seq<char>
    decreases cs.len(),
{
    if cs.len() == 0 {
        Seq::<char>::empty()
    } else {
        line_block(line, cs.drop_last()) + "**Line "@ + dec_u64(line as u64) + ":**\n\n"@
            + comment_block(cs.last())
    }
}

/// All buckets, in the order given.
pub open spec fn line_blocks(ls: Seq<(u32, Seq<CommentV>)>) -> Seq<char>
    decreases ls.len(),
{
    if ls.len() == 0 {
        Seq::<char>::empty()
    } else {
        line_blocks(ls.drop_last()) + line_block(ls.last().0, ls.last().1)
    }
}

/// One file's section: heading with glyph, path and review marker, then
/// its file-level remarks, then its line remarks in ascending line
/// order, then a rule.
pub open spec fn file_block(path: Seq<char>, fr: FileReviewV) -> Seq<char> {
    "### "@ + seq![status_glyph(fr.status)] + " `"@ + path + "` ["@ + (if fr.reviewed {
        "REVIEWED"@
    } else {
        "PENDING"@
    }) + "]\n\n"@ + (if fr.file_comments.len() > 0 {
        "#### File Comments\n\n"@ + comment_blocks(fr.file_comments)
    } else {
        Seq::<char>::empty()
    }) + (if fr.line_comments.len() > 0 {
        "#### Line Comments\n\n"@ + line_blocks(sort_lines(fr.line_comments))
    } else {
        Seq::<char>::empty()
    }) + "---\n\n"@
}

/// The file sections, in the order given (the generator hands this a
/// path-sorted run).
pub open spec fn file_blocks(fs: Seq<(Seq<char>, FileReviewV)>) -> Seq<char>
    decreases fs.len(),
{
    if fs.len() == 0 {
        Seq::<char>::empty()
    } else {
        file_blocks(fs.drop_last()) + file_block(fs.last().0, fs.last().1)
    }
}

/// One aggregated follow-up entry: an Issue or Suggestion, with the
/// file it sits in and its line when it is line-anchored.
pub ghost struct ActionItem {
    pub file: Seq<char>,
    pub line: Option<u32>,
    pub content: Seq<char>,
}

pub open spec fn actions_of_comments(
    path: Seq<char>,
    line: Option<u32>,
    cs: Seq<CommentV>,
) -> Seq<ActionItem>
    decreases cs.len(),
{
    if cs.len() == 0 {
        Seq::<ActionItem>::empty()
    } else {
        actions_of_comments(path, line, cs.drop_last()) + (if cs.last(
        ).comment_type.spec_is_action() {
            seq![(ActionItem { file: path, line, content: cs.last().content })]
        } else {
            Seq::<ActionItem>::empty()
        })
    }
}

pub open spec fn actions_of_lines(path: Seq<char>, ls: Seq<(u32, Seq<CommentV>)>) -> Seq<ActionItem>
    decreases ls.len(),
{
    if ls.len() == 0 {
        Seq::<ActionItem>::empty()
    } else {
        actions_of_lines(path, ls.drop_last()) + actions_of_comments(
            path,
            Some(ls.last().0),
            ls.last().1,
        )
    }
}

/// A file's action items: file-level remarks first, then line remarks
/// in ascending line order.
pub open spec fn actions_of_file(path: Seq<char>, fr: FileReviewV) -> Seq<ActionItem> {
    actions_of_comments(path, None, fr.file_comments) + actions_of_lines(
        path,
        sort_lines(fr.line_comments),
    )
}

pub open spec fn actions_of_files(fs: Seq<(Seq<char>, FileReviewV)>) -> Seq<ActionItem>
    decreases fs.len(),
{
    if fs.len() == 0 {
        Seq::<ActionItem>::empty()
    } else {
        actions_of_files(fs.drop_last()) + actions_of_file(fs.last().0, fs.last().1)
    }
}

/// One numbered action line.
pub open spec fn action_line(idx: u64, a: ActionItem) -> Seq<char> {
    dec_u64(idx) + ". **`"@ + a.file + (match a.line {
        Some(l) => "`:"@ + dec_u64(l as u64),
        None => "`"@,
    }) + "** - "@ + a.content + "\n"@
}

/// The numbered action list, 1-based and sequential.
pub open spec fn action_lines(items: Seq<ActionItem>) -> Seq<char>
    decreases items.len(),
{
    if items.len() == 0 {
        Seq::<char>::empty()
    } else {
        action_lines(items.drop_last()) + action_line(items.len() as u64, items.last())
    }
}

/// The header block: title from the repository path's last segment,
/// the session's timestamp in the fixed UTC pattern, the base commit,
/// and the reviewed/total counts.
pub open spec fn header(s: SessionV) -> Seq<char> {
    "# Code Review: "@ + repo_name(s.repo_path) + "\n\n**Reviewed:** "@ + utc_display_of(
        s.updated_at,
    ) + "\n**Base Commit:** `"@ + s.base_commit + "`\n**Files Reviewed:** "@ + dec_u64(
        count_reviewed(s.files) as u64,
    ) + "/"@ + dec_u64(s.files.len() as u64) + "\n\n"@
}

/// The summary section, emitted exactly when notes are present.
pub open spec fn summary_sec(notes: Option<Seq<char>>) -> Seq<char> {
    match notes {
        Some(n) => "## Summary\n\n"@ + n + "\n\n"@,
        None => Seq::<char>::empty(),
    }
}

/// The whole document: header, optional summary, the files in the
/// generator's own path order, and the numbered action items when any
/// Issue or Suggestion exists.
pub open spec fn render_spec(s: SessionV) -> Seq<char> {
    let sorted = sort_files(s.files);
    let items = actions_of_files(sorted);
    header(s) + summary_sec(s.session_notes) + "## Files\n\n"@ + file_blocks(sorted) + (if items.len()
        > 0 {
        "## Action Items\n\n"@ + action_lines(items)
    } else {
        Seq::<char>::empty()
    })
}

/// The view of a run of borrowed file entries.
pub open spec fn refs_v(s: Seq<&(String, FileReview)>) -> Seq<(Seq<char>, FileReviewV)> {
    s.map_values(|p: &(String, FileReview)| (p.0@, p.1@))
}

/// The view of a run of borrowed line buckets.
pub open spec fn lrefs_v(s: Seq<&(u32, Vec<Comment>)>) -> Seq<(u32, Seq<CommentV>)> {
    s.map_values(|p: &(u32, Vec<Comment>)| (p.0, comments_v(p.1@)))
}

/// The view of the collected action entries.
pub open spec fn items_v(s: Seq<(String, Option<u32>, String)>) -> Seq<ActionItem> {
    s.map_values(|t: (String, Option<u32>, String)| ActionItem { file: t.0@, line: t.1, content: t.2@ })
}

} // verus!

verus! {

/// Append one remark block, collecting it when it is an action item.
fn emit_comment(
    md: &mut String,
    items: &mut Vec<(String, Option<u32>, String)>,
    path: &String,
    line: Option<u32>,
    c: &Comment,
)
    ensures
        final(md)@ == old(md)@ + comment_block(c@),
        items_v(final(items)@) == items_v(old(items)@) + (if c@.comment_type.spec_is_action() {
            seq![(ActionItem { file: path@, line, content: c@.content })]
        } else {
            Seq::<ActionItem>::empty()
        }),
{
    md.append("> **[");
    md.append(c.comment_type.as_str());
    md.append("]** ");
    md.append(c.content.as_str());
    md.append("\n\n");
    proof {
        assert(md@ =~= old(md)@ + comment_block(c@));
    }
    if c.comment_type.is_action() {
        items.push((path.clone(), line, c.content.clone()));
        proof {
            assert(items_v(items@) =~= items_v(old(items)@) + seq![(ActionItem {
                file: path@,
                line,
                content: c@.content,
            })]);
        }
    } else {
        proof {
            assert(items_v(items@) =~= items_v(old(items)@) + Seq::<ActionItem>::empty());
        }
    }
}

/// The first position in a path-sorted run that `x` precedes or equals.
fn find_pos_file(x: &String, sorted: &Vec<&(String, FileReview)>) -> (j: usize)
    ensures
        0 <= j <= sorted@.len(),
        forall|k: int| 0 <= k < j ==> !str_le(x@, (#[trigger] refs_v(sorted@)[k]).0),
        j < sorted@.len() ==> str_le(x@, refs_v(sorted@)[j as int].0),
{
    let mut j: usize = 0;
    loop
        invariant
            0 <= j <= sorted@.len(),
            forall|k: int| 0 <= k < j ==> !str_le(x@, (#[trigger] refs_v(sorted@)[k]).0),
        decreases sorted@.len() - j,
    {
        if j >= sorted.len() {
            return j;
        }
        proof {
            assert(refs_v(sorted@)[j as int].0 == sorted@[j as int].0@);
        }
        if str_le_exec(x.as_str(), sorted[j].0.as_str()) {
            return j;
        }
        j += 1;
    }
}

/// The first position in a key-sorted run of buckets whose key is not
/// below `x`.
fn find_pos_line(x: u32, sorted: &Vec<&(u32, Vec<Comment>)>) -> (j: usize)
    ensures
        0 <= j <= sorted@.len(),
        forall|k: int| 0 <= k < j ==> !(x <= (#[trigger] lrefs_v(sorted@)[k]).0),
        j < sorted@.len() ==> x <= lrefs_v(sorted@)[j as int].0,
{
    let mut j: usize = 0;
    loop
        invariant
            0 <= j <= sorted@.len(),
            forall|k: int| 0 <= k < j ==> !(x <= (#[trigger] lrefs_v(sorted@)[k]).0),
        decreases sorted@.len() - j,
    {
        if j >= sorted.len() {
            return j;
        }
        proof {
            assert(lrefs_v(sorted@)[j as int].0 == sorted@[j as int].0);
        }
        if x <= sorted[j].0 {
            return j;
        }
        j += 1;
    }
}

/// The borrowed file entries, in the generator's path order.
fn sort_file_refs(files: &Vec<(String, FileReview)>) -> (r: Vec<&(String, FileReview)>)
    ensures
        refs_v(r@) == sort_files(files_v(files@)),
{
    let ghost fv = files_v(files@);
    let mut sorted: Vec<&(String, FileReview)> = Vec::new();
    proof {
        assert(fv.take(0) =~= Seq::<(Seq<char>, FileReviewV)>::empty());
        assert(refs_v(sorted@) =~= sort_files(fv.take(0)));
    }
    let mut i: usize = 0;
    while i < files.len()
        invariant
            0 <= i <= files.len(),
            fv == files_v(files@),
            refs_v(sorted@) == sort_files(fv.take(i as int)),
        decreases files.len() - i,
    {
        let x = &files[i];
        let ghost sv = refs_v(sorted@);
        let ghost xv = (x.0@, x.1@);
        let j = find_pos_file(&x.0, &sorted);
        proof {
            assert(sv.len() == sorted@.len());
            lemma_insert_file_at(sv, xv, j as int);
        }
        sorted.insert(j, x);
        proof {
            assert(refs_v(sorted@) =~= sv.take(j as int) + seq![xv] + sv.skip(j as int));
            assert(fv.take(i + 1 as int).drop_last() =~= fv.take(i as int));
            assert(fv[i as int] == xv);
            assert(fv.take(i + 1 as int).last() == xv);
            assert(refs_v(sorted@) == sort_files(fv.take(i + 1 as int)));
        }
        i += 1;
    }
    proof {
        assert(fv.take(files@.len() as int) =~= fv);
    }
    sorted
}

/// The borrowed line buckets, in ascending key order.
fn sort_line_refs(ls: &Vec<(u32, Vec<Comment>)>) -> (r: Vec<&(u32, Vec<Comment>)>)
    ensures
        lrefs_v(r@) == sort_lines(lines_v(ls@)),
{
    let ghost lv = lines_v(ls@);
    let mut sorted: Vec<&(u32, Vec<Comment>)> = Vec::new();
    proof {
        assert(lv.take(0) =~= Seq::<(u32, Seq<CommentV>)>::empty());
        assert(lrefs_v(sorted@) =~= sort_lines(lv.take(0)));
    }
    let mut i: usize = 0;
    while i < ls.len()
        invariant
            0 <= i <= ls.len(),
            lv == lines_v(ls@),
            lrefs_v(sorted@) == sort_lines(lv.take(i as int)),
        decreases ls.len() - i,
    {
        let x = &ls[i];
        let ghost sv = lrefs_v(sorted@);
        let ghost xv = (x.0, comments_v(x.1@));
        let j = find_pos_line(x.0, &sorted);
        proof {
            assert(sv.len() == sorted@.len());
            lemma_insert_line_at(sv, xv, j as int);
        }
        sorted.insert(j, x);
        proof {
            assert(lrefs_v(sorted@) =~= sv.take(j as int) + seq![xv] + sv.skip(j as int));
            assert(lv.take(i + 1 as int).drop_last() =~= lv.take(i as int));
            assert(lv[i as int] == xv);
            assert(lv.take(i + 1 as int).last() == xv);
            assert(lrefs_v(sorted@) == sort_lines(lv.take(i + 1 as int)));
        }
        i += 1;
    }
    proof {
        assert(lv.take(ls@.len() as int) =~= lv);
    }
    sorted
}

/// Append one file's section, collecting its action items in the
/// traversal order: file comments first, then line comments by
/// ascending line.
fn emit_file(
    md: &mut String,
    items: &mut Vec<(String, Option<u32>, String)>,
    path: &String,
    fr: &FileReview,
)
    ensures
        final(md)@ == old(md)@ + file_block(path@, fr@),
        items_v(final(items)@) == items_v(old(items)@) + actions_of_file(path@, fr@),
{
    let ghost md0 = md@;
    let ghost it0 = items_v(items@);
    md.append("### ");
    md.append(fr.status.glyph_str());
    md.append(" `");
    md.append(path.as_str());
    md.append("` [");
    if fr.reviewed {
        md.append("REVIEWED");
    } else {
        md.append("PENDING");
    }
    md.append("]\n\n");
    let ghost head = "### "@ + seq![status_glyph(fr@.status)] + " `"@ + path@ + "` ["@ + (
    if fr@.reviewed {
        "REVIEWED"@
    } else {
        "PENDING"@
    }) + "]\n\n"@;
    proof {
        assert(md@ =~= md0 + head);
    }
    let ghost fsec = if fr@.file_comments.len() > 0 {
        "#### File Comments\n\n"@ + comment_blocks(fr@.file_comments)
    } else {
        Seq::<char>::empty()
    };
    let ghost cs = fr@.file_comments;
    if fr.file_comments.len() > 0 {
        md.append("#### File Comments\n\n");
        let ghost mdc = md@;
        let mut ci: usize = 0;
        while ci < fr.file_comments.len()
            invariant
                0 <= ci <= fr.file_comments.len(),
                cs == fr@.file_comments,
                cs == comments_v(fr.file_comments@),
                md@ == mdc + comment_blocks(cs.take(ci as int)),
                items_v(items@) == it0 + actions_of_comments(path@, None, cs.take(ci as int)),
                mdc == md0 + head + "#### File Comments\n\n"@,
            decreases fr.file_comments.len() - ci,
        {
            let c = &fr.file_comments[ci];
            proof {
                assert(cs[ci as int] == c@);
                assert(cs.take(ci + 1 as int).drop_last() =~= cs.take(ci as int));
                assert(cs.take(ci + 1 as int).last() == c@);
            }
            emit_comment(md, items, path, None, c);
            ci += 1;
        }
        proof {
            assert(cs.take(fr.file_comments@.len() as int) =~= cs);
            assert(md@ =~= md0 + head + fsec);
        }
    } else {
        proof {
            assert(cs.len() == 0);
            assert(actions_of_comments(path@, None, cs) =~= Seq::<ActionItem>::empty());
            assert(md@ =~= md0 + head + fsec);
            assert(items_v(items@) =~= it0 + actions_of_comments(path@, None, cs));
        }
    }
    let ghost it1 = items_v(items@);
    let ghost sl = sort_lines(fr@.line_comments);
    let ghost lsec = if fr@.line_comments.len() > 0 {
        "#### Line Comments\n\n"@ + line_blocks(sl)
    } else {
        Seq::<char>::empty()
    };
    if fr.line_comments.len() > 0 {
        md.append("#### Line Comments\n\n");
        let ghost mdl = md@;
        let buckets = sort_line_refs(&fr.line_comments);
        proof {
            assert(lrefs_v(buckets@) == sl);
            assert(sl.len() == buckets@.len());
        }
        let mut li: usize = 0;
        while li < buckets.len()
            invariant
                0 <= li <= buckets.len(),
                sl == lrefs_v(buckets@),
                sl.len() == buckets@.len(),
                md@ == mdl + line_blocks(sl.take(li as int)),
                items_v(items@) == it1 + actions_of_lines(path@, sl.take(li as int)),
            decreases buckets.len() - li,
        {
            let bucket = buckets[li];
            let line = bucket.0;
            let ghost bcs = comments_v(bucket.1@);
            proof {
                assert(sl[li as int] == (bucket.0, comments_v(bucket.1@)));
                assert(sl[li as int] == (line, bcs));
            }
            let ghost mdb = md@;
            let ghost itb = items_v(items@);
            let mut ci: usize = 0;
            while ci < bucket.1.len()
                invariant
                    0 <= ci <= bucket.1.len(),
                    bcs == comments_v(bucket.1@),
                    md@ == mdb + line_block(line, bcs.take(ci as int)),
                    items_v(items@) == itb + actions_of_comments(
                        path@,
                        Some(line),
                        bcs.take(ci as int),
                    ),
                decreases bucket.1.len() - ci,
            {
                let c = &bucket.1[ci];
                proof {
                    assert(bcs[ci as int] == c@);
                    assert(bcs.take(ci + 1 as int).drop_last() =~= bcs.take(ci as int));
                    assert(bcs.take(ci + 1 as int).last() == c@);
                }
                md.append("**Line ");
                push_u64(md, line as u64);
                md.append(":**\n\n");
                emit_comment(md, items, path, Some(line), c);
                proof {
                    assert(md@ =~= mdb + line_block(line, bcs.take(ci + 1 as int)));
                }
                ci += 1;
            }
            proof {
                assert(bcs.take(bucket.1@.len() as int) =~= bcs);
                assert(sl.take(li + 1 as int).drop_last() =~= sl.take(li as int));
                assert(sl.take(li + 1 as int).last() == sl[li as int]);
                assert(md@ =~= mdl + line_blocks(sl.take(li + 1 as int)));
                assert(items_v(items@) =~= it1 + actions_of_lines(path@, sl.take(li + 1 as int)));
            }
            li += 1;
        }
        proof {
            assert(sl.take(sl.len() as int) =~= sl);
            assert(md@ =~= md0 + head + fsec + lsec);
        }
    } else {
        proof {
            assert(fr@.line_comments.len() == 0);
            assert(sl =~= Seq::<(u32, Seq<CommentV>)>::empty());
            assert(actions_of_lines(path@, sl) =~= Seq::<ActionItem>::empty());
            assert(md@ =~= md0 + head + fsec + lsec);
            assert(items_v(items@) =~= it1 + actions_of_lines(path@, sl));
        }
    }
    md.append("---\n\n");
    proof {
        assert(md@ =~= md0 + file_block(path@, fr@));
        assert(items_v(items@) =~= it0 + actions_of_file(path@, fr@));
    }
}

} // verus!

verus! {

/// Render a session as its report document. Deterministic: the result
/// is a function of the session's content alone; the generator imposes
/// its own order on files and lines.
pub fn generate_markdown(session: &ReviewSession) -> (r: String)
    ensures
        r@ == render_spec(session@),
{
    let ghost sv = session@;
    let mut md = String::new();
    md.append("# Code Review: ");
    let name = repo_name_exec(session.repo_path.as_str());
    md.append(name.as_str());
    md.append("\n\n**Reviewed:** ");
    let ts = trusted::format_utc(session.updated_at);
    md.append(ts.as_str());
    md.append("\n**Base Commit:** `");
    md.append(session.base_commit.as_str());
    md.append("`\n**Files Reviewed:** ");
    let reviewed = session.reviewed_count();
    push_u64(&mut md, reviewed as u64);
    md.append("/");
    push_u64(&mut md, session.files.len() as u64);
    md.append("\n\n");
    proof {
        assert(md@ =~= header(sv));
    }
    match &session.session_notes {
        Some(n) => {
            md.append("## Summary\n\n");
            md.append(n.as_str());
            md.append("\n\n");
        },
        None => {},
    }
    proof {
        assert(md@ =~= header(sv) + summary_sec(sv.session_notes));
    }
    md.append("## Files\n\n");
    let ghost mdf = md@;
    let sorted = sort_file_refs(&session.files);
    let ghost ss = sort_files(sv.files);
    proof {
        assert(refs_v(sorted@) == ss);
        assert(ss.len() == sorted@.len());
    }
    let mut items: Vec<(String, Option<u32>, String)> = Vec::new();
    proof {
        assert(items_v(items@) =~= Seq::<ActionItem>::empty());
        assert(ss.take(0) =~= Seq::<(Seq<char>, FileReviewV)>::empty());
    }
    let mut fi: usize = 0;
    while fi < sorted.len()
        invariant
            0 <= fi <= sorted.len(),
            ss == refs_v(sorted@),
            ss.len() == sorted@.len(),
            md@ == mdf + file_blocks(ss.take(fi as int)),
            items_v(items@) == actions_of_files(ss.take(fi as int)),
        decreases sorted.len() - fi,
    {
        let entry = sorted[fi];
        proof {
            assert(ss[fi as int] == (entry.0@, entry.1@));
            assert(ss.take(fi + 1 as int).drop_last() =~= ss.take(fi as int));
            assert(ss.take(fi + 1 as int).last() == ss[fi as int]);
        }
        emit_file(&mut md, &mut items, &entry.0, &entry.1);
        proof {
            assert(md@ =~= mdf + file_blocks(ss.take(fi + 1 as int)));
            assert(items_v(items@) =~= actions_of_files(ss.take(fi + 1 as int)));
        }
        fi += 1;
    }
    let ghost itv = actions_of_files(ss);
    proof {
        assert(ss.take(sorted@.len() as int) =~= ss);
        assert(items_v(items@) == itv);
        assert(items@.len() == itv.len());
    }
    if items.len() > 0 {
        md.append("## Action Items\n\n");
        let ghost mda = md@;
        proof {
            assert(itv.take(0) =~= Seq::<ActionItem>::empty());
        }
        let mut i: usize = 0;
        while i < items.len()
            invariant
                0 <= i <= items.len(),
                itv == items_v(items@),
                itv.len() == items@.len(),
                md@ == mda + action_lines(itv.take(i as int)),
            decreases items.len() - i,
        {
            let it = &items[i];
            proof {
                assert(itv[i as int] == (ActionItem { file: it.0@, line: it.1, content: it.2@ }));
                assert(itv.take(i + 1 as int).drop_last() =~= itv.take(i as int));
                assert(itv.take(i + 1 as int).last() == itv[i as int]);
                assert(itv.take(i + 1 as int).len() == i + 1);
            }
            push_u64(&mut md, (i + 1) as u64);
            md.append(". **`");
            md.append(it.0.as_str());
            match it.1 {
                Some(l) => {
                    md.append("`:");
                    push_u64(&mut md, l as u64);
                },
                None => {
                    md.append("`");
                },
            }
            md.append("** - ");
            md.append(it.2.as_str());
            md.append("\n");
            proof {
                assert(md@ =~= mda + action_lines(itv.take(i + 1 as int)));
            }
            i += 1;
        }
        proof {
            assert(itv.take(items@.len() as int) =~= itv);
            assert(md@ =~= render_spec(sv));
        }
    } else {
        proof {
            assert(itv.len() == 0);
            assert(md@ =~= render_spec(sv));
        }
    }
    md
}

} // verus!
