use vstd::prelude::*;

use crate::model::{Comment, CommentV, FileStatus};
use crate::trusted;

verus! {

/// The review state of one changed file.
#[derive(Debug, Clone, PartialEq)]
pub struct FileReview {
    pub status: FileStatus,
    pub reviewed: bool,
    /// File-level comments, chronological, append-only.
    pub file_comments: Vec<Comment>,
    /// Buckets of line-anchored comments, keyed by line number;
    /// append-only per bucket, keys unique.
    pub line_comments: Vec<(u32, Vec<Comment>)>,
}

pub ghost struct FileReviewV {
    pub status: FileStatus,
    pub reviewed: bool,
    pub file_comments: Seq<CommentV>,
    pub line_comments: Seq<(u32, Seq<CommentV>)>,
}

pub open spec fn comments_v(cs: Seq<Comment>) -> Seq<CommentV> {
    cs.map_values(|c: Comment| c@)
}

pub open spec fn lines_v(ls: Seq<(u32, Vec<Comment>)>) -> Seq<(u32, Seq<CommentV>)> {
    ls.map_values(|p: (u32, Vec<Comment>)| (p.0, comments_v(p.1@)))
}

impl View for FileReview {
    type V = FileReviewV;

    open spec fn view(&self) -> FileReviewV {
        FileReviewV {
            status: self.status,
            reviewed: self.reviewed,
            file_comments: comments_v(self.file_comments@),
            line_comments: lines_v(self.line_comments@),
        }
    }
}

/// The line-comment buckets have pairwise-distinct keys.
pub open spec fn lines_unique(l: Seq<(u32, Seq<CommentV>)>) -> bool {
    forall|i: int, j: int| 0 <= i < j < l.len() ==> (#[trigger] l[i]).0 != (#[trigger] l[j]).0
}

/// Appending a comment to the bucket at `line`, creating the bucket at
/// the end if no bucket has that key yet.
pub open spec fn add_line_v(
    l: Seq<(u32, Seq<CommentV>)>,
    line: u32,
    c: CommentV,
) -> Seq<(u32, Seq<CommentV>)>
    decreases l.len(),
{
    if l.len() == 0 {
        seq![(line, seq![c])]
    } else if l[0].0 == line {
        seq![(l[0].0, l[0].1.push(c))] + l.skip(1)
    } else {
        seq![l[0]] + add_line_v(l.skip(1), line, c)
    }
}

/// The bucket of comments at `line`, empty if no bucket has that key.
pub open spec fn bucket_of(l: Seq<(u32, Seq<CommentV>)>, line: u32) -> Seq<CommentV>
    decreases l.len(),
{
    if l.len() == 0 {
        Seq::<CommentV>::empty()
    } else if l[0].0 == line {
        l[0].1
    } else {
        bucket_of(l.skip(1), line)
    }
}

/// Appending at one line leaves every other bucket alone and extends
/// exactly that line's bucket by the one comment.
pub proof fn lemma_add_line_bucket(l: Seq<(u32, Seq<CommentV>)>, line: u32, c: CommentV)
    ensures
        bucket_of(add_line_v(l, line, c), line) == bucket_of(l, line).push(c),
        forall|m: u32| m != line ==> bucket_of(add_line_v(l, line, c), m) == bucket_of(l, m),
        add_line_v(l, line, c).len() >= l.len(),
    decreases l.len(),
{
    let r = add_line_v(l, line, c);
    if l.len() == 0 {
        assert(r == seq![(line, seq![c])]);
        assert(r.skip(1) =~= Seq::<(u32, Seq<CommentV>)>::empty());
        assert(bucket_of(r, line) =~= bucket_of(l, line).push(c));
        assert forall|m: u32| m != line implies bucket_of(r, m) == bucket_of(l, m) by {
            assert(bucket_of(r, m) == bucket_of(r.skip(1), m));
        }
    } else if l[0].0 == line {
        assert(r[0].0 == line);
        assert(r[0].1 == l[0].1.push(c));
        assert(r.skip(1) =~= l.skip(1));
        assert forall|m: u32| m != line implies bucket_of(r, m) == bucket_of(l, m) by {
            assert(bucket_of(r, m) == bucket_of(r.skip(1), m));
            assert(bucket_of(l, m) == bucket_of(l.skip(1), m));
        }
    } else {
        lemma_add_line_bucket(l.skip(1), line, c);
        assert(r[0] == l[0]);
        assert(r.skip(1) =~= add_line_v(l.skip(1), line, c));
        assert(bucket_of(r, line) == bucket_of(r.skip(1), line));
        assert forall|m: u32| m != line implies bucket_of(r, m) == bucket_of(l, m) by {
            if l[0].0 == m {
                assert(bucket_of(r, m) == r[0].1);
            } else {
                assert(bucket_of(r, m) == bucket_of(r.skip(1), m));
                assert(bucket_of(l, m) == bucket_of(l.skip(1), m));
            }
        }
    }
}

/// Appending a comment keeps the bucket keys pairwise distinct.
pub proof fn lemma_add_line_unique(l: Seq<(u32, Seq<CommentV>)>, line: u32, c: CommentV)
    requires
        lines_unique(l),
    ensures
        lines_unique(add_line_v(l, line, c)),
    decreases l.len(),
{
    let r = add_line_v(l, line, c);
    if l.len() == 0 {
    } else if l[0].0 == line {
        assert forall|i: int, j: int| 0 <= i < j < r.len() implies (#[trigger] r[i]).0 != (
        #[trigger] r[j]).0 by {
            assert(r[i].0 == l[i].0);
            assert(r[j].0 == l[j].0);
        }
    } else {
        assert forall|i: int| 0 <= i < l.skip(1).len() implies (#[trigger] l.skip(1)[i]).0 == l[i
            + 1].0 by {}
        lemma_add_line_unique(l.skip(1), line, c);
        let rt = add_line_v(l.skip(1), line, c);
        lemma_add_line_keys(l.skip(1), line, c);
        assert forall|i: int, j: int| 0 <= i < j < r.len() implies (#[trigger] r[i]).0 != (
        #[trigger] r[j]).0 by {
            if i == 0 {
                assert(r[j] == rt[j - 1]);
                assert(rt[j - 1].0 == line || exists|k: int|
                    0 <= k < l.skip(1).len() && (#[trigger] l.skip(1)[k]).0 == rt[j - 1].0);
                if rt[j - 1].0 != line {
                    let k = choose|k: int|
                        0 <= k < l.skip(1).len() && (#[trigger] l.skip(1)[k]).0 == rt[j - 1].0;
                    assert(l[k + 1].0 == rt[j - 1].0);
                    assert(l[0].0 != l[k + 1].0);
                }
            } else {
                assert(r[i] == rt[i - 1]);
                assert(r[j] == rt[j - 1]);
            }
        }
    }
}

/// Every key of the result is either `line` or a key of the input.
pub proof fn lemma_add_line_keys(l: Seq<(u32, Seq<CommentV>)>, line: u32, c: CommentV)
    ensures
        forall|i: int|
            0 <= i < add_line_v(l, line, c).len() ==> (#[trigger] add_line_v(l, line, c)[i]).0
                == line || exists|k: int| 0 <= k < l.len() && (#[trigger] l[k]).0 == add_line_v(
                l,
                line,
                c,
            )[i].0,
    decreases l.len(),
{
    let r = add_line_v(l, line, c);
    if l.len() == 0 {
    } else if l[0].0 == line {
        assert forall|i: int| 0 <= i < r.len() implies (#[trigger] r[i]).0 == line || exists|k: int|
            0 <= k < l.len() && (#[trigger] l[k]).0 == r[i].0 by {
            if i > 0 {
                assert(r[i] == l[i]);
                assert(l[i].0 == r[i].0);
            }
        }
    } else {
        lemma_add_line_keys(l.skip(1), line, c);
        let rt = add_line_v(l.skip(1), line, c);
        assert forall|i: int| 0 <= i < r.len() implies (#[trigger] r[i]).0 == line || exists|k: int|
            0 <= k < l.len() && (#[trigger] l[k]).0 == r[i].0 by {
            if i == 0 {
                assert(l[0].0 == r[0].0);
            } else {
                assert(r[i] == rt[i - 1]);
                if rt[i - 1].0 != line {
                    let k = choose|k: int|
                        0 <= k < l.skip(1).len() && (#[trigger] l.skip(1)[k]).0 == rt[i - 1].0;
                    assert(l[k + 1].0 == r[i].0);
                }
            }
        }
    }
}

impl FileReview {
    pub open spec fn wf(&self) -> bool {
        lines_unique(self@.line_comments)
    }

    /// A fresh review: not yet reviewed, no comments.
    pub fn new(status: FileStatus) -> (r: FileReview)
        ensures
            r@.status == status,
            !r@.reviewed,
            r@.file_comments == Seq::<CommentV>::empty(),
            r@.line_comments == Seq::<(u32, Seq<CommentV>)>::empty(),
            r.wf(),
    {
        let r = FileReview {
            status,
            reviewed: false,
            file_comments: Vec::new(),
            line_comments: Vec::new(),
        };
        proof {
            assert(r@.file_comments =~= Seq::<CommentV>::empty());
            assert(r@.line_comments =~= Seq::<(u32, Seq<CommentV>)>::empty());
        }
        r
    }

    /// Append a file-level remark; nothing else changes.
    pub fn add_file_comment(&mut self, c: Comment)
        ensures
            final(self)@.file_comments == old(self)@.file_comments.push(c@),
            final(self)@.line_comments == old(self)@.line_comments,
            final(self)@.status == old(self)@.status,
            final(self)@.reviewed == old(self)@.reviewed,
            old(self).wf() ==> final(self).wf(),
    {
        self.file_comments.push(c);
        proof {
            assert(self@.file_comments =~= old(self)@.file_comments.push(c@));
        }
    }

    /// Append a line-anchored remark to the bucket at `line`, creating
    /// the bucket first if none has that key; no existing comment is
    /// merged, reordered or deleted.
    pub fn add_line_comment(&mut self, line: u32, c: Comment)
        ensures
            final(self)@.line_comments == add_line_v(old(self)@.line_comments, line, c@),
            final(self)@.file_comments == old(self)@.file_comments,
            final(self)@.status == old(self)@.status,
            final(self)@.reviewed == old(self)@.reviewed,
            old(self).wf() ==> final(self).wf(),
    {
        proof {
            if old(self).wf() {
                lemma_add_line_unique(old(self)@.line_comments, line, c@);
            }
        }
        let ghost l0 = self@.line_comments;
        let mut i: usize = 0;
        while i < self.line_comments.len() && self.line_comments[i].0 != line
            invariant
                0 <= i <= self.line_comments.len(),
                *self == *old(self),
                forall|k: int| 0 <= k < i ==> (#[trigger] l0[k]).0 != line,
                l0 == self@.line_comments,
            decreases self.line_comments.len() - i,
        {
            i += 1;
        }
        proof {
            lemma_add_line_prefix(l0, line, c@, i as int);
        }
        if i < self.line_comments.len() {
            let mut pair = self.line_comments.remove(i);
            pair.1.push(c);
            self.line_comments.insert(i, pair);
            proof {
                let l1 = self@.line_comments;
                assert(l1 =~~= l0.update(i as int, (l0[i as int].0, l0[i as int].1.push(c@))));
                assert(l1 == add_line_v(l0, line, c@));
            }
        } else {
            let mut bucket: Vec<Comment> = Vec::new();
            bucket.push(c);
            proof {
                assert(comments_v(bucket@) =~= seq![c@]);
            }
            self.line_comments.push((line, bucket));
            proof {
                assert(self@.line_comments =~~= l0.push((line, seq![c@])));
            }
        }
        proof {
            assert(self@.file_comments =~= old(self)@.file_comments);
        }
    }
}

/// Unrolling `add_line_v` to the first index whose key matches: when the
/// first `i` keys differ from `line`, the result replaces the entry at
/// `i` if it matches, and appends a fresh bucket if no key matches.
pub proof fn lemma_add_line_prefix(l: Seq<(u32, Seq<CommentV>)>, line: u32, c: CommentV, i: int)
    requires
        0 <= i <= l.len(),
        forall|k: int| 0 <= k < i ==> (#[trigger] l[k]).0 != line,
        i < l.len() ==> l[i].0 == line,
    ensures
        i < l.len() ==> add_line_v(l, line, c) == l.update(i, (l[i].0, l[i].1.push(c))),
        i == l.len() ==> add_line_v(l, line, c) == l.push((line, seq![c])),
    decreases l.len(),
{
    if l.len() == 0 {
        assert(add_line_v(l, line, c) =~= l.push((line, seq![c])));
    } else if i == 0 {
        assert(l[0].0 == line);
        assert(add_line_v(l, line, c) =~= l.update(0, (l[0].0, l[0].1.push(c))));
    } else {
        assert(l[0].0 != line);
        assert forall|k: int| 0 <= k < i - 1 implies (#[trigger] l.skip(1)[k]).0 != line by {
            assert(l.skip(1)[k] == l[k + 1]);
        }
        lemma_add_line_prefix(l.skip(1), line, c, i - 1);
        if i < l.len() {
            assert(l.skip(1)[i - 1] == l[i]);
            assert(add_line_v(l, line, c) =~= l.update(i, (l[i].0, l[i].1.push(c))));
        } else {
            assert(add_line_v(l, line, c) =~= l.push((line, seq![c])));
        }
    }
}

/// One review pass over one repository state.
#[derive(Debug, Clone, PartialEq)]
pub struct ReviewSession {
    /// Display-only path of the repository root; never re-resolved.
    pub repo_path: String,
    /// Identifier of the commit the diff is computed against.
    pub base_commit: String,
    /// Unix seconds of the most recent mutation; monotonically
    /// non-decreasing.
    pub updated_at: u64,
    /// Optional session notes, shown in the report's summary block.
    pub session_notes: Option<String>,
    /// Per-file review state, keys unique; iteration order carries no
    /// meaning (the report generator imposes its own sort).
    pub files: Vec<(String, FileReview)>,
}

pub ghost struct SessionV {
    pub repo_path: Seq<char>,
    pub base_commit: Seq<char>,
    pub updated_at: u64,
    pub session_notes: Option<Seq<char>>,
    pub files: Seq<(Seq<char>, FileReviewV)>,
}

pub open spec fn files_v(fs: Seq<(String, FileReview)>) -> Seq<(Seq<char>, FileReviewV)> {
    fs.map_values(|p: (String, FileReview)| (p.0@, p.1@))
}

impl View for ReviewSession {
    type V = SessionV;

    open spec fn view(&self) -> SessionV {
        SessionV {
            repo_path: self.repo_path@,
            base_commit: self.base_commit@,
            updated_at: self.updated_at,
            session_notes: match self.session_notes {
                Some(ref n) => Some(n@),
                None => None,
            },
            files: files_v(self.files@),
        }
    }
}

/// The file keys are pairwise distinct.
pub open spec fn files_unique(fs: Seq<(Seq<char>, FileReviewV)>) -> bool {
    forall|i: int, j: int| 0 <= i < j < fs.len() ==> (#[trigger] fs[i]).0 != (#[trigger] fs[j]).0
}

/// Whether some entry carries the given path.
pub open spec fn has_file(fs: Seq<(Seq<char>, FileReviewV)>, path: Seq<char>) -> bool {
    exists|i: int| 0 <= i < fs.len() && (#[trigger] fs[i]).0 == path
}

/// Replacing the entry at the first matching key, appending when the
/// key is fresh: last write wins.
pub open spec fn upsert_v(
    fs: Seq<(Seq<char>, FileReviewV)>,
    path: Seq<char>,
    fr: FileReviewV,
) -> Seq<(Seq<char>, FileReviewV)>
    decreases fs.len(),
{
    if fs.len() == 0 {
        seq![(path, fr)]
    } else if fs[0].0 == path {
        seq![(path, fr)] + fs.skip(1)
    } else {
        seq![fs[0]] + upsert_v(fs.skip(1), path, fr)
    }
}

/// Count of entries marked reviewed.
pub open spec fn count_reviewed(fs: Seq<(Seq<char>, FileReviewV)>) -> nat
    decreases fs.len(),
{
    if fs.len() == 0 {
        0
    } else {
        count_reviewed(fs.drop_last()) + (if fs.last().1.reviewed {
            1nat
        } else {
            0nat
        })
    }
}

pub proof fn lemma_count_reviewed_le(fs: Seq<(Seq<char>, FileReviewV)>)
    ensures
        count_reviewed(fs) <= fs.len(),
    decreases fs.len(),
{
    if fs.len() > 0 {
        lemma_count_reviewed_le(fs.drop_last());
    }
}

/// The index of the first entry keyed by `path`; the length when no
/// entry is.
pub open spec fn first_key(fs: Seq<(Seq<char>, FileReviewV)>, path: Seq<char>) -> int
    decreases fs.len(),
{
    if fs.len() == 0 {
        0
    } else if fs[0].0 == path {
        0
    } else {
        1 + first_key(fs.skip(1), path)
    }
}

pub proof fn lemma_first_key(fs: Seq<(Seq<char>, FileReviewV)>, path: Seq<char>)
    ensures
        0 <= first_key(fs, path) <= fs.len(),
        has_file(fs, path) <==> first_key(fs, path) < fs.len(),
        first_key(fs, path) < fs.len() ==> fs[first_key(fs, path)].0 == path,
        forall|k: int| 0 <= k < first_key(fs, path) ==> (#[trigger] fs[k]).0 != path,
    decreases fs.len(),
{
    if fs.len() == 0 {
        assert(!has_file(fs, path));
    } else if fs[0].0 == path {
    } else {
        lemma_first_key(fs.skip(1), path);
        let f = first_key(fs, path);
        assert forall|k: int| 0 <= k < f implies (#[trigger] fs[k]).0 != path by {
            if k > 0 {
                assert(fs.skip(1)[k - 1] == fs[k]);
            }
        }
        if has_file(fs, path) {
            let i = choose|i: int| 0 <= i < fs.len() && (#[trigger] fs[i]).0 == path;
            assert(fs.skip(1)[i - 1] == fs[i]);
            assert(has_file(fs.skip(1), path));
        }
        if has_file(fs.skip(1), path) {
            let i = choose|i: int| 0 <= i < fs.skip(1).len() && (#[trigger] fs.skip(1)[i]).0
                == path;
            assert(fs[i + 1] == fs.skip(1)[i]);
            assert(has_file(fs, path));
        }
        if f < fs.len() {
            assert(fs[f] == fs.skip(1)[f - 1]);
        }
    }
}

/// Unrolling `upsert_v` to the first index whose key matches: it
/// replaces the entry there, and appends when no key matches.
pub proof fn lemma_upsert_prefix(
    fs: Seq<(Seq<char>, FileReviewV)>,
    path: Seq<char>,
    fr: FileReviewV,
    i: int,
)
    requires
        0 <= i <= fs.len(),
        forall|k: int| 0 <= k < i ==> (#[trigger] fs[k]).0 != path,
        i < fs.len() ==> fs[i].0 == path,
    ensures
        i < fs.len() ==> upsert_v(fs, path, fr) == fs.update(i, (path, fr)),
        i == fs.len() ==> upsert_v(fs, path, fr) == fs.push((path, fr)),
    decreases fs.len(),
{
    if fs.len() == 0 {
        assert(upsert_v(fs, path, fr) =~= fs.push((path, fr)));
    } else if i == 0 {
        assert(upsert_v(fs, path, fr) =~= fs.update(0, (path, fr)));
    } else {
        assert forall|k: int| 0 <= k < i - 1 implies (#[trigger] fs.skip(1)[k]).0 != path by {
            assert(fs.skip(1)[k] == fs[k + 1]);
        }
        lemma_upsert_prefix(fs.skip(1), path, fr, i - 1);
        if i < fs.len() {
            assert(fs.skip(1)[i - 1] == fs[i]);
            assert(upsert_v(fs, path, fr) =~= fs.update(i, (path, fr)));
        } else {
            assert(upsert_v(fs, path, fr) =~= fs.push((path, fr)));
        }
    }
}

/// Last write wins keeps the keys pairwise distinct.
pub proof fn lemma_upsert_unique(fs: Seq<(Seq<char>, FileReviewV)>, path: Seq<char>, fr: FileReviewV)
    requires
        files_unique(fs),
    ensures
        files_unique(upsert_v(fs, path, fr)),
{
    lemma_first_key(fs, path);
    let i = first_key(fs, path);
    lemma_upsert_prefix(fs, path, fr, i);
    let r = upsert_v(fs, path, fr);
    if i < fs.len() {
        assert forall|a: int, b: int| 0 <= a < b < r.len() implies (#[trigger] r[a]).0 != (
        #[trigger] r[b]).0 by {
            assert(r[a].0 == fs[a].0);
            assert(r[b].0 == fs[b].0);
        }
    } else {
        assert forall|a: int, b: int| 0 <= a < b < r.len() implies (#[trigger] r[a]).0 != (
        #[trigger] r[b]).0 by {
            if b < fs.len() {
                assert(r[a].0 == fs[a].0);
                assert(r[b].0 == fs[b].0);
            } else {
                assert(r[a].0 == fs[a].0);
                assert(r[b].0 == path);
            }
        }
    }
}

impl ReviewSession {
    pub open spec fn wf(&self) -> bool {
        &&& files_unique(self@.files)
        &&& forall|i: int|
            0 <= i < self@.files.len() ==> lines_unique((#[trigger] self@.files[i]).1.line_comments)
    }

    /// A new session: empty file set, no notes, stamped with the
    /// current time.
    pub fn new(repo_path: String, base_commit: String) -> (s: ReviewSession)
        ensures
            s@.repo_path == repo_path@,
            s@.base_commit == base_commit@,
            s@.session_notes is None,
            s@.files == Seq::<(Seq<char>, FileReviewV)>::empty(),
            s.wf(),
    {
        let s = ReviewSession {
            repo_path,
            base_commit,
            updated_at: trusted::now_unix(),
            session_notes: None,
            files: Vec::new(),
        };
        proof {
            assert(s@.files =~= Seq::<(Seq<char>, FileReviewV)>::empty());
        }
        s
    }

    /// Refresh `updated_at` with the current time; it never goes
    /// backwards.
    fn touch(&mut self)
        ensures
            final(self).updated_at >= old(self).updated_at,
            final(self).repo_path == old(self).repo_path,
            final(self).base_commit == old(self).base_commit,
            final(self).session_notes == old(self).session_notes,
            final(self).files == old(self).files,
    {
        let now = trusted::now_unix();
        if now > self.updated_at {
            self.updated_at = now;
        }
    }

    /// Register a changed file under `path` with a fresh review (not
    /// reviewed, no comments). A second call for the same path replaces
    /// the earlier entry: last write wins.
    pub fn add_file(&mut self, path: String, status: FileStatus)
        ensures
            final(self)@.files == upsert_v(old(self)@.files, path@, fresh_review_v(status)),
            final(self)@.repo_path == old(self)@.repo_path,
            final(self)@.base_commit == old(self)@.base_commit,
            final(self)@.session_notes == old(self)@.session_notes,
            final(self).updated_at >= old(self).updated_at,
            old(self).wf() ==> final(self).wf(),
    {
        proof {
            if old(self).wf() {
                lemma_upsert_unique(old(self)@.files, path@, fresh_review_v(status));
            }
        }
        self.touch();
        let ghost fs0 = self@.files;
        let fresh = FileReview::new(status);
        proof {
            assert(fresh@ =~~= fresh_review_v(status));
        }
        let mut i: usize = 0;
        while i < self.files.len() && !string_eq(&self.files[i].0, &path)
            invariant
                0 <= i <= self.files.len(),
                forall|k: int| 0 <= k < i ==> (#[trigger] fs0[k]).0 != path@,
                fs0 == self@.files,
                fs0 == files_v(self.files@),
            decreases self.files.len() - i,
        {
            i += 1;
        }
        proof {
            lemma_upsert_prefix(fs0, path@, fresh_review_v(status), i as int);
        }
        if i < self.files.len() {
            let _ = self.files.remove(i);
            self.files.insert(i, (path, fresh));
            proof {
                assert(self@.files =~~= fs0.update(i as int, (path@, fresh_review_v(status))));
            }
        } else {
            self.files.push((path, fresh));
            proof {
                assert(self@.files =~~= fs0.push((path@, fresh_review_v(status))));
            }
        }
        proof {
            if old(self).wf() {
                assert forall|k: int| 0 <= k < self@.files.len() implies lines_unique(
                    (#[trigger] self@.files[k]).1.line_comments,
                ) by {
                    if k != i as int {
                        assert(self@.files[k] == old(self)@.files[k]);
                    }
                }
            }
        }
    }

    /// A mutable handle to the review at `path`; None when no such path
    /// is tracked (nothing is created). Every mutation of a file's
    /// state flows through this handle, so taking one refreshes
    /// `updated_at`.
    pub fn get_file_mut(&mut self, path: &String) -> (r: Option<&mut FileReview>)
        ensures
            match r {
                None => {
                    &&& !has_file(old(self)@.files, path@)
                    &&& final(self)@.files == old(self)@.files
                },
                Some(fr) => {
                    let i = first_key(old(self)@.files, path@);
                    &&& 0 <= i < old(self)@.files.len()
                    &&& old(self)@.files[i].0 == path@
                    &&& *fr == old(self).files@[i].1
                    &&& final(self).files@ == old(self).files@.update(
                        i,
                        (old(self).files@[i].0, *final(fr)),
                    )
                },
            },
            final(self)@.repo_path == old(self)@.repo_path,
            final(self)@.base_commit == old(self)@.base_commit,
            final(self)@.session_notes == old(self)@.session_notes,
            final(self).updated_at >= old(self).updated_at,
    {
        self.touch();
        let ghost fs0 = self@.files;
        proof {
            lemma_first_key(fs0, path@);
        }
        let mut i: usize = 0;
        while i < self.files.len() && !string_eq(&self.files[i].0, path)
            invariant
                0 <= i <= self.files.len(),
                forall|k: int| 0 <= k < i ==> (#[trigger] fs0[k]).0 != path@,
                fs0 == files_v(self.files@),
            decreases self.files.len() - i,
        {
            i += 1;
        }
        if i < self.files.len() {
            proof {
                assert(fs0[i as int].0 == path@);
                assert(i as int == first_key(fs0, path@)) by {
                    let f = first_key(fs0, path@);
                    if f < i as int {
                        assert(fs0[f].0 != path@);
                    }
                }
            }
            let entry = vstd::std_specs::vec::vec_index_mut(&mut self.files, i);
            Some(&mut entry.1)
        } else {
            proof {
                if has_file(fs0, path@) {
                    assert(fs0[first_key(fs0, path@)].0 == path@);
                }
            }
            None
        }
    }

    /// How many tracked files are marked reviewed.
    pub fn reviewed_count(&self) -> (n: usize)
        ensures
            n == count_reviewed(self@.files),
    {
        proof {
            lemma_count_reviewed_le(self@.files);
        }
        let mut n: usize = 0;
        let mut i: usize = 0;
        while i < self.files.len()
            invariant
                0 <= i <= self.files.len(),
                n == count_reviewed(self@.files.take(i as int)),
                n <= i,
            decreases self.files.len() - i,
        {
            proof {
                assert(self@.files.take(i + 1 as int).drop_last() =~= self@.files.take(i as int));
                assert(self@.files.take(i + 1 as int).last() == self@.files[i as int]);
            }
            if self.files[i].1.reviewed {
                n += 1;
            }
            i += 1;
        }
        proof {
            assert(self@.files.take(self.files@.len() as int) =~= self@.files);
        }
        n
    }

    /// How many files the session tracks.
    pub fn file_count(&self) -> (n: usize)
        ensures
            n == self@.files.len(),
    {
        self.files.len()
    }

    /// Replace the session notes.
    pub fn set_session_notes(&mut self, notes: Option<String>)
        ensures
            final(self)@.session_notes == match notes {
                Some(ref n) => Some::<Seq<char>>(n@),
                None => None::<Seq<char>>,
            },
            final(self)@.files == old(self)@.files,
            final(self)@.repo_path == old(self)@.repo_path,
            final(self)@.base_commit == old(self)@.base_commit,
            final(self).updated_at >= old(self).updated_at,
            old(self).wf() ==> final(self).wf(),
    {
        self.touch();
        self.session_notes = notes;
    }
}

/// The view of a freshly created file review.
pub open spec fn fresh_review_v(status: FileStatus) -> FileReviewV {
    FileReviewV {
        status,
        reviewed: false,
        file_comments: Seq::<CommentV>::empty(),
        line_comments: Seq::<(u32, Seq<CommentV>)>::empty(),
    }
}

/// Character-for-character equality of two strings.
fn string_eq(a: &String, b: &String) -> (r: bool)
    ensures
        r == (a@ == b@),
{
    a.eq(b)
}

} // verus!
