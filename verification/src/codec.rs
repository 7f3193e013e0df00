use vstd::prelude::*;

use crate::error::TuicrError;
use crate::model::{Comment, CommentType, CommentV, FileStatus, LineContext, LineContextV, LineSide};
use crate::session::{FileReview, FileReviewV, ReviewSession, SessionV, comments_v, lines_v};
use crate::text::{dec_u64, digit_char, push_u64};

verus! {

/// The decimal digits of a count, most significant first.
pub open spec fn dec_nat(n: nat) -> Seq<char>
    decreases n,
{
    if n < 10 {
        seq![digit_char(n as u64)]
    } else {
        dec_nat(n / 10).push(digit_char((n % 10) as u64))
    }
}

pub proof fn lemma_dec_u64_nat(n: u64)
    ensures
        dec_u64(n) == dec_nat(n as nat),
    decreases n,
{
    if n >= 10 {
        lemma_dec_u64_nat(n / 10);
    }
}

/// A number in the record: its digits, closed by a semicolon.
pub open spec fn enc_num(n: nat) -> Seq<char> {
    dec_nat(n) + seq![';']
}

/// A string in the record: its length, then its characters verbatim.
pub open spec fn enc_str(t: Seq<char>) -> Seq<char> {
    enc_num(t.len()) + t
}

pub open spec fn enc_bool(b: bool) -> Seq<char> {
    if b {
        seq!['1']
    } else {
        seq!['0']
    }
}

pub open spec fn enc_opt_u32(o: Option<u32>) -> Seq<char> {
    match o {
        Some(v) => seq!['s'] + enc_num(v as nat),
        None => seq!['n'],
    }
}

pub open spec fn enc_opt_str(o: Option<Seq<char>>) -> Seq<char> {
    match o {
        Some(t) => seq!['s'] + enc_str(t),
        None => seq!['n'],
    }
}

pub open spec fn type_code(t: CommentType) -> char {
    match t {
        CommentType::Note => 'N',
        CommentType::Suggestion => 'S',
        CommentType::Issue => 'I',
        CommentType::Praise => 'P',
    }
}

pub open spec fn status_code(s: FileStatus) -> char {
    match s {
        FileStatus::Added => 'A',
        FileStatus::Modified => 'M',
        FileStatus::Deleted => 'D',
        FileStatus::Renamed => 'R',
        FileStatus::Unknown => 'U',
    }
}

pub open spec fn side_code(s: Option<LineSide>) -> char {
    match s {
        None => 'n',
        Some(LineSide::Old) => 'o',
        Some(LineSide::New) => 'w',
    }
}

pub open spec fn enc_lcx(o: Option<LineContextV>) -> Seq<char> {
    match o {
        None => seq!['n'],
        Some(l) => seq!['s'] + enc_opt_u32(l.new_line) + enc_opt_u32(l.old_line) + enc_str(
            l.content,
        ),
    }
}

/// One comment: id, content, type, creation time, line context, side.
pub open spec fn enc_comment(c: CommentV) -> Seq<char> {
    enc_str(c.id) + enc_str(c.content) + seq![type_code(c.comment_type)] + enc_num(
        c.created_at as nat,
    ) + enc_lcx(c.line_context) + seq![side_code(c.side)]
}

pub open spec fn enc_comments(cs: Seq<CommentV>) -> Seq<char>
    decreases cs.len(),
{
    if cs.len() == 0 {
        Seq::<char>::empty()
    } else {
        enc_comments(cs.drop_last()) + enc_comment(cs.last())
    }
}

/// One line bucket: its line number, its count, its comments in order.
pub open spec fn enc_bucket(line: u32, cs: Seq<CommentV>) -> Seq<char> {
    enc_num(line as nat) + enc_num(cs.len()) + enc_comments(cs)
}

pub open spec fn enc_lines(ls: Seq<(u32, Seq<CommentV>)>) -> Seq<char>
    decreases ls.len(),
{
    if ls.len() == 0 {
        Seq::<char>::empty()
    } else {
        enc_lines(ls.drop_last()) + enc_bucket(ls.last().0, ls.last().1)
    }
}

/// One file review: status, reviewed flag, file comments, line buckets.
pub open spec fn enc_review(fr: FileReviewV) -> Seq<char> {
    seq![status_code(fr.status)] + enc_bool(fr.reviewed) + enc_num(fr.file_comments.len())
        + enc_comments(fr.file_comments) + enc_num(fr.line_comments.len()) + enc_lines(
        fr.line_comments,
    )
}

pub open spec fn enc_file(path: Seq<char>, fr: FileReviewV) -> Seq<char> {
    enc_str(path) + enc_review(fr)
}

pub open spec fn enc_files(fs: Seq<(Seq<char>, FileReviewV)>) -> Seq<char>
    decreases fs.len(),
{
    if fs.len() == 0 {
        Seq::<char>::empty()
    } else {
        enc_files(fs.drop_last()) + enc_file(fs.last().0, fs.last().1)
    }
}

/// The whole session as one self-delimiting textual record: a version
/// mark, then every field in a fixed order, lengths first.
pub open spec fn enc_session(s: SessionV) -> Seq<char> {
    seq!['r', 'v', '1', ';'] + enc_str(s.repo_path) + enc_str(s.base_commit) + enc_num(
        s.updated_at as nat,
    ) + enc_opt_str(s.session_notes) + enc_num(s.files.len()) + enc_files(s.files)
}

} // verus!

verus! {

fn push_num(out: &mut String, n: u64)
    ensures
        final(out)@ == old(out)@ + enc_num(n as nat),
{
    push_u64(out, n);
    out.append(";");
    proof {
        reveal_strlit(";");
        lemma_dec_u64_nat(n);
        assert(";"@ =~= seq![';']);
        assert(final(out)@ =~= old(out)@ + enc_num(n as nat));
    }
}

fn push_str_enc(out: &mut String, t: &String)
    ensures
        final(out)@ == old(out)@ + enc_str(t@),
{
    let l = t.unicode_len();
    push_num(out, l as u64);
    out.append(t.as_str());
    proof {
        assert(final(out)@ =~= old(out)@ + enc_str(t@));
    }
}

fn push_bool(out: &mut String, b: bool)
    ensures
        final(out)@ == old(out)@ + enc_bool(b),
{
    proof {
        reveal_strlit("1");
        reveal_strlit("0");
    }
    if b {
        out.append("1");
    } else {
        out.append("0");
    }
    proof {
        assert(final(out)@ =~= old(out)@ + enc_bool(b));
    }
}

fn tag_some() -> (r: &'static str)
    ensures
        r@ == seq!['s'],
{
    proof {
        reveal_strlit("s");
        assert("s"@ =~= seq!['s']);
    }
    "s"
}

fn tag_none() -> (r: &'static str)
    ensures
        r@ == seq!['n'],
{
    proof {
        reveal_strlit("n");
        assert("n"@ =~= seq!['n']);
    }
    "n"
}

fn push_opt_u32(out: &mut String, o: &Option<u32>)
    ensures
        final(out)@ == old(out)@ + enc_opt_u32(*o),
{
    match o {
        Some(v) => {
            out.append(tag_some());
            push_num(out, *v as u64);
            proof {
                assert(final(out)@ =~= old(out)@ + enc_opt_u32(*o));
            }
        },
        None => {
            out.append(tag_none());
            proof {
                assert(final(out)@ =~= old(out)@ + enc_opt_u32(*o));
            }
        },
    }
}

fn type_code_str(t: &CommentType) -> (r: &'static str)
    ensures
        r@ == seq![type_code(*t)],
{
    proof {
        reveal_strlit("N");
        reveal_strlit("S");
        reveal_strlit("I");
        reveal_strlit("P");
    }
    let r = match t {
        CommentType::Note => "N",
        CommentType::Suggestion => "S",
        CommentType::Issue => "I",
        CommentType::Praise => "P",
    };
    proof {
        assert(r@ =~= seq![type_code(*t)]);
    }
    r
}

fn status_code_str(s: &FileStatus) -> (r: &'static str)
    ensures
        r@ == seq![status_code(*s)],
{
    proof {
        reveal_strlit("A");
        reveal_strlit("M");
        reveal_strlit("D");
        reveal_strlit("R");
        reveal_strlit("U");
    }
    let r = match s {
        FileStatus::Added => "A",
        FileStatus::Modified => "M",
        FileStatus::Deleted => "D",
        FileStatus::Renamed => "R",
        FileStatus::Unknown => "U",
    };
    proof {
        assert(r@ =~= seq![status_code(*s)]);
    }
    r
}

fn side_code_str(s: &Option<LineSide>) -> (r: &'static str)
    ensures
        r@ == seq![side_code(*s)],
{
    proof {
        reveal_strlit("n");
        reveal_strlit("o");
        reveal_strlit("w");
    }
    let r = match s {
        None => "n",
        Some(LineSide::Old) => "o",
        Some(LineSide::New) => "w",
    };
    proof {
        assert(r@ =~= seq![side_code(*s)]);
    }
    r
}

fn push_comment(out: &mut String, c: &Comment)
    ensures
        final(out)@ == old(out)@ + enc_comment(c@),
{
    push_str_enc(out, &c.id);
    push_str_enc(out, &c.content);
    out.append(type_code_str(&c.comment_type));
    push_num(out, c.created_at);
    match &c.line_context {
        None => {
            out.append(tag_none());
        },
        Some(l) => {
            out.append(tag_some());
            push_opt_u32(out, &l.new_line);
            push_opt_u32(out, &l.old_line);
            push_str_enc(out, &l.content);
        },
    }
    out.append(side_code_str(&c.side));
    proof {
        assert(final(out)@ =~= old(out)@ + enc_comment(c@));
    }
}

fn push_comments(out: &mut String, cs: &Vec<Comment>)
    ensures
        final(out)@ == old(out)@ + enc_num(cs@.len()) + enc_comments(comments_v(cs@)),
{
    let ghost cv = comments_v(cs@);
    push_num(out, cs.len() as u64);
    let ghost base = out@;
    proof {
        assert(cv.take(0) =~= Seq::<CommentV>::empty());
        assert(out@ =~= base + enc_comments(cv.take(0)));
    }
    let mut i: usize = 0;
    while i < cs.len()
        invariant
            0 <= i <= cs.len(),
            cv == comments_v(cs@),
            out@ == base + enc_comments(cv.take(i as int)),
            base == old(out)@ + enc_num(cs@.len()),
        decreases cs.len() - i,
    {
        let c = &cs[i];
        proof {
            assert(cv[i as int] == c@);
            assert(cv.take(i + 1 as int).drop_last() =~= cv.take(i as int));
            assert(cv.take(i + 1 as int).last() == c@);
        }
        push_comment(out, c);
        proof {
            assert(out@ =~= base + enc_comments(cv.take(i + 1 as int)));
        }
        i += 1;
    }
    proof {
        assert(cv.take(cs@.len() as int) =~= cv);
        assert(final(out)@ =~= old(out)@ + enc_num(cs@.len()) + enc_comments(cv));
    }
}

fn push_review(out: &mut String, fr: &FileReview)
    ensures
        final(out)@ == old(out)@ + enc_review(fr@),
{
    out.append(status_code_str(&fr.status));
    push_bool(out, fr.reviewed);
    push_comments(out, &fr.file_comments);
    let ghost lv = lines_v(fr.line_comments@);
    push_num(out, fr.line_comments.len() as u64);
    let ghost base = out@;
    proof {
        assert(lv.take(0) =~= Seq::<(u32, Seq<CommentV>)>::empty());
        assert(out@ =~= base + enc_lines(lv.take(0)));
    }
    let mut i: usize = 0;
    while i < fr.line_comments.len()
        invariant
            0 <= i <= fr.line_comments.len(),
            lv == lines_v(fr.line_comments@),
            out@ == base + enc_lines(lv.take(i as int)),
        decreases fr.line_comments.len() - i,
    {
        let b = &fr.line_comments[i];
        proof {
            assert(lv[i as int] == (b.0, comments_v(b.1@)));
            assert(lv.take(i + 1 as int).drop_last() =~= lv.take(i as int));
            assert(lv.take(i + 1 as int).last() == lv[i as int]);
        }
        push_num(out, b.0 as u64);
        push_comments(out, &b.1);
        proof {
            assert(out@ =~= base + enc_lines(lv.take(i + 1 as int)));
        }
        i += 1;
    }
    proof {
        assert(lv.take(fr.line_comments@.len() as int) =~= lv);
        assert(final(out)@ =~= old(out)@ + enc_review(fr@));
    }
}

/// Encode a session as its textual record.
pub fn encode_session(s: &ReviewSession) -> (r: String)
    ensures
        r@ == enc_session(s@),
{
    let ghost sv = s@;
    let mut out = String::new();
    proof {
        reveal_strlit("rv1;");
    }
    out.append("rv1;");
    proof {
        assert(out@ =~= seq!['r', 'v', '1', ';']);
    }
    push_str_enc(&mut out, &s.repo_path);
    push_str_enc(&mut out, &s.base_commit);
    push_num(&mut out, s.updated_at);
    match &s.session_notes {
        None => {
            out.append(tag_none());
        },
        Some(n) => {
            out.append(tag_some());
            push_str_enc(&mut out, n);
        },
    }
    proof {
        assert(out@ =~= seq!['r', 'v', '1', ';'] + enc_str(sv.repo_path) + enc_str(sv.base_commit)
            + enc_num(sv.updated_at as nat) + enc_opt_str(sv.session_notes));
    }
    let ghost fv = sv.files;
    push_num(&mut out, s.files.len() as u64);
    let ghost base = out@;
    proof {
        assert(fv.take(0) =~= Seq::<(Seq<char>, FileReviewV)>::empty());
        assert(out@ =~= base + enc_files(fv.take(0)));
    }
    let mut i: usize = 0;
    while i < s.files.len()
        invariant
            0 <= i <= s.files.len(),
            fv == crate::session::files_v(s.files@),
            out@ == base + enc_files(fv.take(i as int)),
            base == seq!['r', 'v', '1', ';'] + enc_str(sv.repo_path) + enc_str(sv.base_commit)
                + enc_num(sv.updated_at as nat) + enc_opt_str(sv.session_notes) + enc_num(
                fv.len(),
            ),
            fv == sv.files,
        decreases s.files.len() - i,
    {
        let e = &s.files[i];
        proof {
            assert(fv[i as int] == (e.0@, e.1@));
            assert(fv.take(i + 1 as int).drop_last() =~= fv.take(i as int));
            assert(fv.take(i + 1 as int).last() == fv[i as int]);
        }
        push_str_enc(&mut out, &e.0);
        push_review(&mut out, &e.1);
        proof {
            assert(out@ =~= base + enc_files(fv.take(i + 1 as int)));
        }
        i += 1;
    }
    proof {
        assert(fv.take(s.files@.len() as int) =~= fv);
        assert(out@ =~= enc_session(sv));
    }
    out
}

} // verus!

verus! {

/// `t` stands in `s` at position `i`, whatever follows it.
pub open spec fn at(s: Seq<char>, i: int, t: Seq<char>) -> bool {
    &&& 0 <= i
    &&& i + t.len() <= s.len()
    &&& s.subrange(i, i + t.len()) == t
}

pub proof fn lemma_at_concat(s: Seq<char>, i: int, a: Seq<char>, b: Seq<char>)
    requires
        at(s, i, a + b),
    ensures
        at(s, i, a),
        at(s, i + a.len(), b),
{
    assert(s.subrange(i, i + a.len()) =~= a) by {
        assert(forall|k: int|
            0 <= k < a.len() ==> s.subrange(i, i + (a + b).len())[k] == (a + b)[k]);
        assert(forall|k: int| 0 <= k < a.len() ==> s[i + k] == a[k]);
    }
    assert(s.subrange(i + a.len(), i + a.len() + b.len()) =~= b) by {
        assert forall|k: int| 0 <= k < b.len() implies s[i + a.len() + k] == b[k] by {
            assert(s.subrange(i, i + (a + b).len())[a.len() + k] == (a + b)[a.len() + k]);
        }
    }
}

pub open spec fn is_digit(c: char) -> bool {
    48 <= c as int <= 57
}

pub open spec fn digit_val(c: char) -> nat {
    (c as int - 48) as nat
}

/// The number a run of digits spells.
pub open spec fn val_of(ds: Seq<char>) -> nat
    decreases ds.len(),
{
    if ds.len() == 0 {
        0
    } else {
        val_of(ds.drop_last()) * 10 + digit_val(ds.last())
    }
}

pub proof fn lemma_dec_nat_props(n: nat)
    ensures
        dec_nat(n).len() >= 1,
        forall|k: int| 0 <= k < dec_nat(n).len() ==> is_digit(#[trigger] dec_nat(n)[k]),
        val_of(dec_nat(n)) == n,
    decreases n,
{
    if n < 10 {
        assert(dec_nat(n) == seq![digit_char(n as u64)]);
        assert(is_digit(digit_char(n as u64)));
        assert(dec_nat(n).drop_last() =~= Seq::<char>::empty());
        assert(val_of(Seq::<char>::empty()) == 0);
        assert(val_of(dec_nat(n)) == digit_val(digit_char(n as u64)));
        assert(digit_val(digit_char(n as u64)) == n);
    } else {
        lemma_dec_nat_props(n / 10);
        let d = dec_nat(n);
        assert(d == dec_nat(n / 10).push(digit_char((n % 10) as u64)));
        assert(d.drop_last() =~= dec_nat(n / 10));
        assert(d.last() == digit_char((n % 10) as u64));
        assert(digit_val(digit_char((n % 10) as u64)) == n % 10);
        assert(val_of(d) == (n / 10) * 10 + n % 10);
        assert((n / 10) * 10 + n % 10 == n) by (nonlinear_arith);
        assert forall|k: int| 0 <= k < d.len() implies is_digit(#[trigger] d[k]) by {
            if k < d.len() - 1 {
                assert(d[k] == dec_nat(n / 10)[k]);
            }
        }
    }
}

pub proof fn lemma_val_prefix(ds: Seq<char>, j: int)
    requires
        0 <= j <= ds.len(),
    ensures
        val_of(ds.take(j)) <= val_of(ds),
    decreases ds.len() - j,
{
    if j == ds.len() {
        assert(ds.take(j) =~= ds);
    } else {
        lemma_val_prefix(ds, j + 1);
        assert(ds.take(j + 1).drop_last() =~= ds.take(j));
        assert(val_of(ds.take(j + 1)) == val_of(ds.take(j)) * 10 + digit_val(ds.take(j + 1).last()));
        assert(val_of(ds.take(j)) * 10 >= val_of(ds.take(j)));
    }
}

/// The digits of `enc_num(n)` standing at `i` reach exactly to the run's
/// end `j`: a scan that stopped at the record's closing mark stopped at
/// the number's last digit.
proof fn lemma_end_run(sv: Seq<char>, i: int, j: int, n: nat)
    requires
        at(sv, i, enc_num(n)),
        i <= j <= sv.len(),
        forall|k: int| i <= k < j ==> is_digit(sv[k]),
        j == sv.len() || !is_digit(sv[j]),
    ensures
        j == i + dec_nat(n).len(),
        sv.subrange(i, j) == dec_nat(n),
        j < sv.len() && sv[j] == ';',
{
    lemma_dec_nat_props(n);
    let d = dec_nat(n);
    let e = enc_num(n);
    assert(e.len() == d.len() + 1);
    assert forall|k: int| 0 <= k < e.len() implies sv[i + k] == e[k] by {
        assert(sv.subrange(i, i + e.len())[k] == e[k]);
    }
    assert(e[d.len() as int] == ';');
    assert(forall|k: int| 0 <= k < d.len() ==> e[k] == d[k]);
    assert(sv[i + d.len()] == ';');
    assert(!is_digit(';'));
    if j > i + d.len() {
        assert(is_digit(sv[i + d.len()]));
        assert(false);
    }
    if j < i + d.len() {
        assert(sv[j] == d[j - i]);
        assert(is_digit(d[j - i]));
        assert(j < sv.len());
        assert(false);
    }
    assert(sv.subrange(i, j) =~= d);
}

/// A digit at `j` in a scan of `enc_num(n)`'s digits lies strictly
/// inside the run.
proof fn lemma_in_run(sv: Seq<char>, i: int, j: int, n: nat)
    requires
        at(sv, i, enc_num(n)),
        i <= j < sv.len(),
        forall|k: int| i <= k < j ==> is_digit(sv[k]),
        is_digit(sv[j]),
    ensures
        j < i + dec_nat(n).len(),
        sv.subrange(i, j) == dec_nat(n).take(j - i),
{
    lemma_dec_nat_props(n);
    let d = dec_nat(n);
    let e = enc_num(n);
    assert forall|k: int| 0 <= k < e.len() implies sv[i + k] == e[k] by {
        assert(sv.subrange(i, i + e.len())[k] == e[k]);
    }
    assert(e[d.len() as int] == ';');
    assert(forall|k: int| 0 <= k < d.len() ==> e[k] == d[k]);
    assert(sv[i + d.len()] == ';');
    assert(!is_digit(';'));
    if j == i + d.len() {
        assert(false);
    }
    if j > i + d.len() {
        assert(is_digit(sv[i + d.len()]));
        assert(false);
    }
    assert(sv.subrange(i, j) =~= d.take(j - i));
}

/// Read a number closed by its mark. On any input that holds `enc_num`
/// of some number at `i`, it returns exactly that number and the
/// position after the mark.
fn dec_num(s: &str, i: usize) -> (r: Option<(u64, usize)>)
    ensures
        forall|n: u64| at(s@, i as int, enc_num(n as nat)) ==> (match r {
            Some(p) => p.0 == n && p.1 as int == i as int + enc_num(n as nat).len(),
            None => false,
        }),
        match r {
            Some(p) => i < p.1 <= s@.len(),
            None => true,
        },
{
    let ghost sv = s@;
    let len = s.unicode_len();
    if i >= len {
        proof {
            assert forall|n: u64| at(sv, i as int, enc_num(n as nat)) implies false by {
                lemma_dec_nat_props(n as nat);
            }
        }
        return None;
    }
    let mut j: usize = i;
    let mut acc: u64 = 0;
    proof {
        assert(sv.subrange(i as int, i as int) =~= Seq::<char>::empty());
    }
    loop
        invariant
            i <= j <= len,
            len == sv.len(),
            sv == s@,
            forall|k: int| i <= k < j ==> is_digit(sv[k]),
            acc as nat == val_of(sv.subrange(i as int, j as int)),
        decreases len - j,
    {
        if j >= len {
            proof {
                assert forall|n: u64| at(sv, i as int, enc_num(n as nat)) implies false by {
                    lemma_end_run(sv, i as int, j as int, n as nat);
                }
            }
            return None;
        }
        let c = s.get_char(j);
        if c >= '0' && c <= '9' {
            let d: u64 = (c as u32 - 48) as u64;
            proof {
                assert(is_digit(sv[j as int]));
                assert(d as nat == digit_val(sv[j as int]));
            }
            if acc > (u64::MAX - d) / 10 {
                proof {
                    assert forall|n: u64| at(sv, i as int, enc_num(n as nat)) implies false by {
                        lemma_in_run(sv, i as int, j as int, n as nat);
                        lemma_dec_nat_props(n as nat);
                        let dn = dec_nat(n as nat);
                        lemma_val_prefix(dn, j as int + 1 - i);
                        assert(sv.subrange(i as int, j as int) =~= dn.take(j - i));
                        assert(dn.take(j + 1 - i).drop_last() =~= dn.take(j - i));
                        assert(dn.take(j + 1 - i).last() == dn[j - i]);
                        assert(dn[j - i] == sv[j as int]) by {
                            assert(sv.subrange(i as int, i + dn.len()) =~= dn) by {
                                let e = enc_num(n as nat);
                                assert(forall|k: int|
                                    0 <= k < e.len() ==> sv.subrange(i as int, i + e.len())[k]
                                        == e[k]);
                            }
                            assert(sv.subrange(i as int, i + dn.len())[j - i] == sv[j as int]);
                        }
                        assert(val_of(dn.take(j + 1 - i)) == acc * 10 + d);
                        assert(acc * 10 + d <= n);
                        assert(acc <= (u64::MAX - d) / 10) by (nonlinear_arith)
                            requires
                                acc * 10 + d <= u64::MAX,
                                0 <= d <= 9,
                        ;
                    }
                }
                return None;
            }
            acc = acc * 10 + d;
            proof {
                assert(sv.subrange(i as int, j + 1 as int).drop_last() =~= sv.subrange(
                    i as int,
                    j as int,
                ));
                assert(sv.subrange(i as int, j + 1 as int).last() == sv[j as int]);
            }
            j += 1;
        } else {
            proof {
                assert(!is_digit(sv[j as int]));
            }
            if c == ';' {
                if j == i {
                    proof {
                        assert forall|n: u64| at(sv, i as int, enc_num(n as nat)) implies false by {
                            lemma_end_run(sv, i as int, j as int, n as nat);
                            lemma_dec_nat_props(n as nat);
                        }
                    }
                    return None;
                }
                proof {
                    assert forall|n: u64| at(sv, i as int, enc_num(n as nat)) implies acc == n && j
                        + 1 == i as int + enc_num(n as nat).len() by {
                        lemma_end_run(sv, i as int, j as int, n as nat);
                        lemma_dec_nat_props(n as nat);
                        assert(val_of(sv.subrange(i as int, j as int)) == n);
                    }
                }
                return Some((acc, j + 1));
            }
            proof {
                assert forall|n: u64| at(sv, i as int, enc_num(n as nat)) implies false by {
                    lemma_end_run(sv, i as int, j as int, n as nat);
                }
            }
            return None;
        }
    }
}

} // verus!

verus! {

/// Read one character.
fn dec_char(s: &str, i: usize) -> (r: Option<(char, usize)>)
    ensures
        i < s@.len() ==> (r is Some && r->Some_0.0 == s@[i as int] && r->Some_0.1 == i + 1),
        i >= s@.len() ==> r is None,
{
    let len = s.unicode_len();
    if i < len {
        Some((s.get_char(i), i + 1))
    } else {
        None
    }
}

/// Read a length-prefixed string.
fn dec_string(s: &str, i: usize) -> (r: Option<(String, usize)>)
    ensures
        forall|t: Seq<char>| at(s@, i as int, enc_str(t)) ==> (match r {
            Some(p) => p.0@ == t && p.1 as int == i as int + enc_str(t).len(),
            None => false,
        }),
        match r {
            Some(p) => i <= p.1 <= s@.len(),
            None => true,
        },
{
    let ghost sv = s@;
    let len = s.unicode_len();
    match dec_num(s, i) {
        None => {
            proof {
                assert forall|t: Seq<char>| at(sv, i as int, enc_str(t)) implies false by {
                    lemma_at_concat(sv, i as int, enc_num(t.len()), t);
                    assert((t.len() as u64) as nat == t.len());
                    assert(at(sv, i as int, enc_num((t.len() as u64) as nat)));
                }
            }
            None
        },
        Some((n64, j)) => {
            let rem = len - j;
            if n64 > rem as u64 {
                proof {
                    assert forall|t: Seq<char>| at(sv, i as int, enc_str(t)) implies false by {
                        lemma_at_concat(sv, i as int, enc_num(t.len()), t);
                        assert((t.len() as u64) as nat == t.len());
                        assert(at(sv, i as int, enc_num((t.len() as u64) as nat)));
                    }
                }
                return None;
            }
            let l = n64 as usize;
            let sub = s.substring_char(j, j + l);
            let out = String::from_str(sub);
            proof {
                assert forall|t: Seq<char>| at(sv, i as int, enc_str(t)) implies out@ == t && (j
                    + l) as int == i as int + enc_str(t).len() by {
                    lemma_at_concat(sv, i as int, enc_num(t.len()), t);
                    assert((t.len() as u64) as nat == t.len());
                    assert(at(sv, i as int, enc_num((t.len() as u64) as nat)));
                    assert(n64 as nat == t.len());
                    assert(sv.subrange(j as int, j as int + t.len()) == t);
                }
            }
            Some((out, j + l))
        },
    }
}

/// Read an optional line number.
fn dec_opt_u32(s: &str, i: usize) -> (r: Option<(Option<u32>, usize)>)
    ensures
        forall|o: Option<u32>| at(s@, i as int, enc_opt_u32(o)) ==> (match r {
            Some(p) => p.0 == o && p.1 as int == i as int + enc_opt_u32(o).len(),
            None => false,
        }),
        match r {
            Some(p) => i <= p.1 <= s@.len(),
            None => true,
        },
{
    let ghost sv = s@;
    match dec_char(s, i) {
        None => {
            proof {
                assert forall|o: Option<u32>| at(sv, i as int, enc_opt_u32(o)) implies false by {}
            }
            None
        },
        Some((c, j)) => {
            proof {
                assert forall|o: Option<u32>| at(sv, i as int, enc_opt_u32(o)) implies sv[i as int]
                    == enc_opt_u32(o)[0] by {
                    assert(sv.subrange(i as int, i as int + enc_opt_u32(o).len())[0]
                        == enc_opt_u32(o)[0]);
                }
            }
            if c == 'n' {
                proof {
                    assert forall|o: Option<u32>| at(sv, i as int, enc_opt_u32(o)) implies o
                        is None && 1 == enc_opt_u32(o).len() by {
                        if o is Some {
                            assert(enc_opt_u32(o)[0] == 's');
                        }
                    }
                }
                Some((None, j))
            } else if c == 's' {
                match dec_num(s, j) {
                    None => {
                        proof {
                            assert forall|o: Option<u32>| at(sv, i as int, enc_opt_u32(o))
                                implies false by {
                                if o is None {
                                    assert(enc_opt_u32(o)[0] == 'n');
                                } else {
                                    let v = o->Some_0;
                                    lemma_at_concat(sv, i as int, seq!['s'], enc_num(v as nat));
                                    assert(at(sv, j as int, enc_num((v as u64) as nat)));
                                }
                            }
                        }
                        None
                    },
                    Some((v64, k)) => {
                        if v64 > 0xffff_ffffu64 {
                            proof {
                                assert forall|o: Option<u32>| at(sv, i as int, enc_opt_u32(o))
                                    implies false by {
                                    if o is None {
                                        assert(enc_opt_u32(o)[0] == 'n');
                                    } else {
                                        let v = o->Some_0;
                                        lemma_at_concat(sv, i as int, seq!['s'], enc_num(v as nat));
                                        assert(at(sv, j as int, enc_num((v as u64) as nat)));
                                    }
                                }
                            }
                            None
                        } else {
                            proof {
                                assert forall|o: Option<u32>| at(sv, i as int, enc_opt_u32(o))
                                    implies Some::<u32>(v64 as u32) == o && k as int == i as int
                                    + enc_opt_u32(o).len() by {
                                    if o is None {
                                        assert(enc_opt_u32(o)[0] == 'n');
                                    } else {
                                        let v = o->Some_0;
                                        lemma_at_concat(sv, i as int, seq!['s'], enc_num(v as nat));
                                        assert(at(sv, j as int, enc_num((v as u64) as nat)));
                                        assert(v64 == v as u64);
                                    }
                                }
                            }
                            Some((Some(v64 as u32), k))
                        }
                    },
                }
            } else {
                proof {
                    assert forall|o: Option<u32>| at(sv, i as int, enc_opt_u32(o)) implies false by {
                        if o is None {
                            assert(enc_opt_u32(o)[0] == 'n');
                        } else {
                            assert(enc_opt_u32(o)[0] == 's');
                        }
                    }
                }
                None
            }
        },
    }
}

} // verus!

verus! {

/// The view of a decoded optional line context.
pub open spec fn lcx_v(x: Option<LineContext>) -> Option<LineContextV> {
    match x {
        Some(l) => Some(l@),
        None => None,
    }
}

/// Read an optional line-context snapshot.
fn dec_lcx(s: &str, i: usize) -> (r: Option<(Option<LineContext>, usize)>)
    ensures
        forall|o: Option<LineContextV>| at(s@, i as int, enc_lcx(o)) ==> (match r {
            Some(p) => lcx_v(p.0) == o && p.1 as int == i as int + enc_lcx(o).len(),
            None => false,
        }),
        match r {
            Some(p) => i <= p.1 <= s@.len(),
            None => true,
        },
{
    let ghost sv = s@;
    match dec_char(s, i) {
        None => {
            proof {
                assert forall|o: Option<LineContextV>| at(sv, i as int, enc_lcx(o)) implies
                false by {}
            }
            None
        },
        Some((c, j)) => {
            proof {
                assert forall|o: Option<LineContextV>| at(sv, i as int, enc_lcx(o)) implies sv[i as int]
                    == enc_lcx(o)[0] by {
                    assert(sv.subrange(i as int, i as int + enc_lcx(o).len())[0] == enc_lcx(o)[0]);
                }
            }
            if c == 'n' {
                proof {
                    assert forall|o: Option<LineContextV>| at(sv, i as int, enc_lcx(o)) implies o
                        is None && 1 == enc_lcx(o).len() by {
                        if o is Some {
                            assert(enc_lcx(o)[0] == 's');
                        }
                    }
                }
                Some((None, j))
            } else if c == 's' {
                proof {
                    assert forall|o: Option<LineContextV>| at(sv, i as int, enc_lcx(o)) implies (o
                        is Some && at(sv, j as int, enc_opt_u32(o->Some_0.new_line)) && at(
                        sv,
                        j as int + enc_opt_u32(o->Some_0.new_line).len(),
                        enc_opt_u32(o->Some_0.old_line),
                    ) && at(
                        sv,
                        j as int + enc_opt_u32(o->Some_0.new_line).len() + enc_opt_u32(
                            o->Some_0.old_line,
                        ).len(),
                        enc_str(o->Some_0.content),
                    )) by {
                        if o is None {
                            assert(enc_lcx(o)[0] == 'n');
                        } else {
                            let l = o->Some_0;
                            let a = seq!['s'] + enc_opt_u32(l.new_line) + enc_opt_u32(l.old_line);
                            lemma_at_concat(sv, i as int, a, enc_str(l.content));
                            lemma_at_concat(
                                sv,
                                i as int,
                                seq!['s'] + enc_opt_u32(l.new_line),
                                enc_opt_u32(l.old_line),
                            );
                            lemma_at_concat(sv, i as int, seq!['s'], enc_opt_u32(l.new_line));
                        }
                    }
                }
                match dec_opt_u32(s, j) {
                    None => None,
                    Some((new_line, j2)) => {
                        match dec_opt_u32(s, j2) {
                            None => None,
                            Some((old_line, j3)) => {
                                match dec_string(s, j3) {
                                    None => None,
                                    Some((content, j4)) => {
                                        let out = LineContext { new_line, old_line, content };
                                        proof {
                                            assert forall|o: Option<LineContextV>|
                                                at(sv, i as int, enc_lcx(o)) implies lcx_v(
                                                Some(out),
                                            ) == o && j4 as int == i as int + enc_lcx(o).len() by {
                                                let l = o->Some_0;
                                                assert(out@ =~= l);
                                            }
                                        }
                                        Some((Some(out), j4))
                                    },
                                }
                            },
                        }
                    },
                }
            } else {
                proof {
                    assert forall|o: Option<LineContextV>| at(sv, i as int, enc_lcx(o)) implies
                    false by {
                        if o is None {
                            assert(enc_lcx(o)[0] == 'n');
                        } else {
                            assert(enc_lcx(o)[0] == 's');
                        }
                    }
                }
                None
            }
        },
    }
}

/// Read one comment.
#[verifier::rlimit(80)]
fn dec_comment(s: &str, i: usize) -> (r: Option<(Comment, usize)>)
    ensures
        forall|c: CommentV| at(s@, i as int, enc_comment(c)) ==> (match r {
            Some(p) => p.0@ == c && p.1 as int == i as int + enc_comment(c).len(),
            None => false,
        }),
        match r {
            Some(p) => i <= p.1 <= s@.len(),
            None => true,
        },
{
    let ghost sv = s@;
    proof {
        assert forall|c: CommentV| at(sv, i as int, enc_comment(c)) implies (at(
            sv,
            i as int,
            enc_str(c.id),
        ) && at(sv, i as int + enc_str(c.id).len(), enc_str(c.content)) && at(
            sv,
            i as int + enc_str(c.id).len() + enc_str(c.content).len(),
            seq![type_code(c.comment_type)],
        ) && at(
            sv,
            i as int + enc_str(c.id).len() + enc_str(c.content).len() + 1,
            enc_num(c.created_at as nat),
        ) && at(
            sv,
            i as int + enc_str(c.id).len() + enc_str(c.content).len() + 1 + enc_num(
                c.created_at as nat,
            ).len(),
            enc_lcx(c.line_context),
        ) && at(
            sv,
            i as int + enc_str(c.id).len() + enc_str(c.content).len() + 1 + enc_num(
                c.created_at as nat,
            ).len() + enc_lcx(c.line_context).len(),
            seq![side_code(c.side)],
        )) by {
            let p1 = enc_str(c.id);
            let p2 = enc_str(c.content);
            let p3 = seq![type_code(c.comment_type)];
            let p4 = enc_num(c.created_at as nat);
            let p5 = enc_lcx(c.line_context);
            let p6 = seq![side_code(c.side)];
            lemma_at_concat(sv, i as int, p1 + p2 + p3 + p4 + p5, p6);
            lemma_at_concat(sv, i as int, p1 + p2 + p3 + p4, p5);
            lemma_at_concat(sv, i as int, p1 + p2 + p3, p4);
            lemma_at_concat(sv, i as int, p1 + p2, p3);
            lemma_at_concat(sv, i as int, p1, p2);
        }
    }
    let r1 = dec_string(s, i);
    if r1.is_none() {
        return None;
    }
    let (id, j1) = r1.unwrap();
    let r2 = dec_string(s, j1);
    if r2.is_none() {
        return None;
    }
    let (content, j2) = r2.unwrap();
    let r3 = dec_char(s, j2);
    if r3.is_none() {
        proof {
            assert forall|c: CommentV| at(sv, i as int, enc_comment(c)) implies false by {
                assert(sv[j2 as int] == seq![type_code(c.comment_type)][0]);
            }
        }
        return None;
    }
    let (tc, j3) = r3.unwrap();
    let comment_type = if tc == 'N' {
        CommentType::Note
    } else if tc == 'S' {
        CommentType::Suggestion
    } else if tc == 'I' {
        CommentType::Issue
    } else if tc == 'P' {
        CommentType::Praise
    } else {
        proof {
            assert forall|c: CommentV| at(sv, i as int, enc_comment(c)) implies false by {
                assert(sv.subrange(j2 as int, j2 as int + 1)[0] == type_code(c.comment_type));
            }
        }
        return None;
    };
    let r4 = dec_num(s, j3);
    if r4.is_none() {
        return None;
    }
    let (created_at, j4) = r4.unwrap();
    let r5 = dec_lcx(s, j4);
    if r5.is_none() {
        return None;
    }
    let (line_context, j5) = r5.unwrap();
    let r6 = dec_char(s, j5);
    if r6.is_none() {
        proof {
            assert forall|c: CommentV| at(sv, i as int, enc_comment(c)) implies false by {
                assert(sv[j5 as int] == seq![side_code(c.side)][0]);
            }
        }
        return None;
    }
    let (sc, j6) = r6.unwrap();
    let side = if sc == 'n' {
        None
    } else if sc == 'o' {
        Some(LineSide::Old)
    } else if sc == 'w' {
        Some(LineSide::New)
    } else {
        proof {
            assert forall|c: CommentV| at(sv, i as int, enc_comment(c)) implies false by {
                assert(sv.subrange(j5 as int, j5 as int + 1)[0] == side_code(c.side));
            }
        }
        return None;
    };
    let out = Comment { id, content, comment_type, created_at, line_context, side };
    proof {
        assert forall|c: CommentV| at(sv, i as int, enc_comment(c)) implies out@ == c && j6 as int
            == i as int + enc_comment(c).len() by {
            assert(sv.subrange(j2 as int, j2 as int + 1)[0] == type_code(c.comment_type));
            assert(sv.subrange(j5 as int, j5 as int + 1)[0] == side_code(c.side));
            assert(out@ =~= c);
        }
    }
    Some((out, j6))
}

} // verus!

verus! {

proof fn lemma_enc_comments_first(cs: Seq<CommentV>)
    requires
        cs.len() > 0,
    ensures
        enc_comments(cs) == enc_comment(cs.first()) + enc_comments(cs.drop_first()),
    decreases cs.len(),
{
    if cs.len() == 1 {
        assert(cs.drop_last() =~= Seq::<CommentV>::empty());
        assert(enc_comments(Seq::<CommentV>::empty()) == Seq::<char>::empty());
        assert(cs.drop_first() =~= Seq::<CommentV>::empty());
        assert(cs.first() == cs.last());
        assert(enc_comments(cs) =~= enc_comment(cs.first()) + enc_comments(cs.drop_first()));
    } else {
        lemma_enc_comments_first(cs.drop_last());
        assert(cs.drop_last().first() == cs.first());
        assert(cs.drop_last().drop_first() =~= cs.drop_first().drop_last());
        assert(cs.drop_first().last() == cs.last());
        assert(cs.drop_first().len() > 0);
        assert(enc_comments(cs.drop_first()) == enc_comments(cs.drop_first().drop_last())
            + enc_comment(cs.drop_first().last()));
        assert(enc_comments(cs) =~= enc_comment(cs.first()) + enc_comments(cs.drop_first()));
    }
}

proof fn lemma_enc_lines_first(ls: Seq<(u32, Seq<CommentV>)>)
    requires
        ls.len() > 0,
    ensures
        enc_lines(ls) == enc_bucket(ls.first().0, ls.first().1) + enc_lines(ls.drop_first()),
    decreases ls.len(),
{
    if ls.len() == 1 {
        assert(ls.drop_last() =~= Seq::<(u32, Seq<CommentV>)>::empty());
        assert(enc_lines(Seq::<(u32, Seq<CommentV>)>::empty()) == Seq::<char>::empty());
        assert(ls.drop_first() =~= Seq::<(u32, Seq<CommentV>)>::empty());
        assert(ls.first() == ls.last());
        assert(enc_lines(ls) =~= enc_bucket(ls.first().0, ls.first().1) + enc_lines(
            ls.drop_first(),
        ));
    } else {
        lemma_enc_lines_first(ls.drop_last());
        assert(ls.drop_last().first() == ls.first());
        assert(ls.drop_last().drop_first() =~= ls.drop_first().drop_last());
        assert(ls.drop_first().last() == ls.last());
        assert(ls.drop_first().len() > 0);
        assert(enc_lines(ls.drop_first()) == enc_lines(ls.drop_first().drop_last()) + enc_bucket(
            ls.drop_first().last().0,
            ls.drop_first().last().1,
        ));
        assert(enc_lines(ls) =~= enc_bucket(ls.first().0, ls.first().1) + enc_lines(
            ls.drop_first(),
        ));
    }
}

proof fn lemma_enc_files_first(fs: Seq<(Seq<char>, FileReviewV)>)
    requires
        fs.len() > 0,
    ensures
        enc_files(fs) == enc_file(fs.first().0, fs.first().1) + enc_files(fs.drop_first()),
    decreases fs.len(),
{
    if fs.len() == 1 {
        assert(fs.drop_last() =~= Seq::<(Seq<char>, FileReviewV)>::empty());
        assert(enc_files(Seq::<(Seq<char>, FileReviewV)>::empty()) == Seq::<char>::empty());
        assert(fs.drop_first() =~= Seq::<(Seq<char>, FileReviewV)>::empty());
        assert(fs.first() == fs.last());
        assert(enc_files(fs) =~= enc_file(fs.first().0, fs.first().1) + enc_files(
            fs.drop_first(),
        ));
    } else {
        lemma_enc_files_first(fs.drop_last());
        assert(fs.drop_last().first() == fs.first());
        assert(fs.drop_last().drop_first() =~= fs.drop_first().drop_last());
        assert(fs.drop_first().last() == fs.last());
        assert(fs.drop_first().len() > 0);
        assert(enc_files(fs.drop_first()) == enc_files(fs.drop_first().drop_last()) + enc_file(
            fs.drop_first().last().0,
            fs.drop_first().last().1,
        ));
        assert(enc_files(fs) =~= enc_file(fs.first().0, fs.first().1) + enc_files(
            fs.drop_first(),
        ));
    }
}

/// Read `n` comments in a row.
fn dec_comments_rec(s: &str, i: usize, n: u64) -> (r: Option<(Vec<Comment>, usize)>)
    requires
        i as int <= s@.len(),
    ensures
        forall|cs: Seq<CommentV>| (cs.len() == n as nat && at(s@, i as int, enc_comments(cs)))
            ==> (match r {
            Some(p) => comments_v(p.0@) == cs && p.1 as int == i as int + enc_comments(cs).len(),
            None => false,
        }),
        match r {
            Some(p) => i <= p.1 <= s@.len(),
            None => true,
        },
    decreases n,
{
    let ghost sv = s@;
    if n == 0 {
        let v: Vec<Comment> = Vec::new();
        proof {
            assert forall|cs: Seq<CommentV>| (cs.len() == n as nat && at(
                sv,
                i as int,
                enc_comments(cs),
            )) implies comments_v(v@) == cs && i as int == i as int + enc_comments(cs).len() by {
                assert(comments_v(v@) =~= cs);
                assert(enc_comments(cs).len() == 0);
            }
        }
        return Some((v, i));
    }
    proof {
        assert forall|cs: Seq<CommentV>| (cs.len() == n as nat && at(
            sv,
            i as int,
            enc_comments(cs),
        )) implies at(sv, i as int, enc_comment(cs.first())) && at(
            sv,
            i as int + enc_comment(cs.first()).len(),
            enc_comments(cs.drop_first()),
        ) by {
            lemma_enc_comments_first(cs);
            lemma_at_concat(sv, i as int, enc_comment(cs.first()), enc_comments(cs.drop_first()));
        }
    }
    match dec_comment(s, i) {
        None => None,
        Some((c0, j)) => {
            match dec_comments_rec(s, j, n - 1) {
                None => {
                    proof {
                        assert forall|cs: Seq<CommentV>| (cs.len() == n as nat && at(
                            sv,
                            i as int,
                            enc_comments(cs),
                        )) implies false by {
                            lemma_enc_comments_first(cs);
                            assert(cs.drop_first().len() == (n - 1) as nat);
                            assert(at(sv, j as int, enc_comments(cs.drop_first())));
                        }
                    }
                    None
                },
                Some((rest, k)) => {
                    let mut v = rest;
                    v.insert(0, c0);
                    proof {
                        assert forall|cs: Seq<CommentV>| (cs.len() == n as nat && at(
                            sv,
                            i as int,
                            enc_comments(cs),
                        )) implies comments_v(v@) == cs && k as int == i as int + enc_comments(
                            cs,
                        ).len() by {
                            lemma_enc_comments_first(cs);
                            assert(cs.drop_first().len() == (n - 1) as nat);
                            assert(at(sv, j as int, enc_comments(cs.drop_first())));
                            assert(v@ =~= seq![c0] + rest@);
                            assert(comments_v(v@).len() == cs.len());
                            assert forall|m: int| 0 <= m < cs.len() implies #[trigger] comments_v(
                                v@,
                            )[m] == cs[m] by {
                                assert(comments_v(v@)[m] == v@[m]@);
                                if m == 0 {
                                    assert(v@[0] == c0);
                                    assert(c0@ == cs.first());
                                } else {
                                    assert(v@[m] == rest@[m - 1]);
                                    assert(comments_v(rest@)[m - 1] == rest@[m - 1]@);
                                    assert(cs.drop_first()[m - 1] == cs[m]);
                                }
                            }
                            assert(comments_v(v@) =~= cs);
                        }
                    }
                    Some((v, k))
                },
            }
        },
    }
}

proof fn lemma_enc_comments_len(cs: Seq<CommentV>)
    ensures
        enc_comments(cs).len() >= cs.len(),
    decreases cs.len(),
{
    if cs.len() > 0 {
        lemma_enc_comments_len(cs.drop_last());
        assert(enc_comment(cs.last()).len() >= 1);
    }
}

/// Read one line bucket.
fn dec_bucket(s: &str, i: usize) -> (r: Option<((u32, Vec<Comment>), usize)>)
    ensures
        forall|line: u32, cs: Seq<CommentV>| at(s@, i as int, enc_bucket(line, cs)) ==> (match r {
            Some(p) => p.0.0 == line && comments_v(p.0.1@) == cs && p.1 as int == i as int
                + enc_bucket(line, cs).len(),
            None => false,
        }),
        match r {
            Some(p) => i <= p.1 <= s@.len(),
            None => true,
        },
{
    let ghost sv = s@;
    let total = s.unicode_len();
    proof {
        assert(sv.len() == total);
        assert forall|line: u32, cs: Seq<CommentV>| at(sv, i as int, enc_bucket(line, cs)) implies
        at(sv, i as int, enc_num(line as nat)) && at(
            sv,
            i as int + enc_num(line as nat).len(),
            enc_num(cs.len()),
        ) && at(
            sv,
            i as int + enc_num(line as nat).len() + enc_num(cs.len()).len(),
            enc_comments(cs),
        ) by {
            lemma_at_concat(sv, i as int, enc_num(line as nat) + enc_num(cs.len()), enc_comments(cs));
            lemma_at_concat(sv, i as int, enc_num(line as nat), enc_num(cs.len()));
        }
    }
    match dec_num(s, i) {
        None => {
            proof {
                assert forall|line: u32, cs: Seq<CommentV>| at(
                    sv,
                    i as int,
                    enc_bucket(line, cs),
                ) implies false by {
                    assert(at(sv, i as int, enc_num((line as u64) as nat)));
                }
            }
            None
        },
        Some((line64, j)) => {
            if line64 > 0xffff_ffffu64 {
                proof {
                    assert forall|line: u32, cs: Seq<CommentV>| at(
                        sv,
                        i as int,
                        enc_bucket(line, cs),
                    ) implies false by {
                        assert(at(sv, i as int, enc_num((line as u64) as nat)));
                    }
                }
                return None;
            }
            match dec_num(s, j) {
                None => {
                    proof {
                        assert forall|line: u32, cs: Seq<CommentV>| at(
                            sv,
                            i as int,
                            enc_bucket(line, cs),
                        ) implies false by {
                            assert(at(sv, i as int, enc_num((line as u64) as nat)));
                            lemma_enc_comments_len(cs);
                            assert((cs.len() as u64) as nat == cs.len());
                            assert(at(sv, j as int, enc_num((cs.len() as u64) as nat)));
                        }
                    }
                    None
                },
                Some((cnt, j2)) => {
                    match dec_comments_rec(s, j2, cnt) {
                        None => {
                            proof {
                                assert forall|line: u32, cs: Seq<CommentV>| at(
                                    sv,
                                    i as int,
                                    enc_bucket(line, cs),
                                ) implies false by {
                                    assert(at(sv, i as int, enc_num((line as u64) as nat)));
                                    lemma_enc_comments_len(cs);
                                    assert((cs.len() as u64) as nat == cs.len());
                                    assert(at(sv, j as int, enc_num((cs.len() as u64) as nat)));
                                    assert(cnt == cs.len() as u64);
                                }
                            }
                            None
                        },
                        Some((v, k)) => {
                            proof {
                                assert forall|line: u32, cs: Seq<CommentV>| at(
                                    sv,
                                    i as int,
                                    enc_bucket(line, cs),
                                ) implies line64 as u32 == line && comments_v(v@) == cs && k as int
                                    == i as int + enc_bucket(line, cs).len() by {
                                    assert(at(sv, i as int, enc_num((line as u64) as nat)));
                                    lemma_enc_comments_len(cs);
                                    assert((cs.len() as u64) as nat == cs.len());
                                    assert(at(sv, j as int, enc_num((cs.len() as u64) as nat)));
                                    assert(cnt == cs.len() as u64);
                                }
                            }
                            Some(((line64 as u32, v), k))
                        },
                    }
                },
            }
        },
    }
}

/// Read `n` line buckets in a row.
fn dec_lines_rec(s: &str, i: usize, n: u64) -> (r: Option<(Vec<(u32, Vec<Comment>)>, usize)>)
    requires
        i as int <= s@.len(),
    ensures
        forall|ls: Seq<(u32, Seq<CommentV>)>| (ls.len() == n as nat && at(
            s@,
            i as int,
            enc_lines(ls),
        )) ==> (match r {
            Some(p) => lines_v(p.0@) == ls && p.1 as int == i as int + enc_lines(ls).len(),
            None => false,
        }),
        match r {
            Some(p) => i <= p.1 <= s@.len(),
            None => true,
        },
    decreases n,
{
    let ghost sv = s@;
    if n == 0 {
        let v: Vec<(u32, Vec<Comment>)> = Vec::new();
        proof {
            assert forall|ls: Seq<(u32, Seq<CommentV>)>| (ls.len() == n as nat && at(
                sv,
                i as int,
                enc_lines(ls),
            )) implies lines_v(v@) == ls && i as int == i as int + enc_lines(ls).len() by {
                assert(lines_v(v@) =~= ls);
                assert(enc_lines(ls).len() == 0);
            }
        }
        return Some((v, i));
    }
    proof {
        assert forall|ls: Seq<(u32, Seq<CommentV>)>| (ls.len() == n as nat && at(
            sv,
            i as int,
            enc_lines(ls),
        )) implies at(sv, i as int, enc_bucket(ls.first().0, ls.first().1)) && at(
            sv,
            i as int + enc_bucket(ls.first().0, ls.first().1).len(),
            enc_lines(ls.drop_first()),
        ) by {
            lemma_enc_lines_first(ls);
            lemma_at_concat(
                sv,
                i as int,
                enc_bucket(ls.first().0, ls.first().1),
                enc_lines(ls.drop_first()),
            );
        }
    }
    match dec_bucket(s, i) {
        None => None,
        Some((b0, j)) => {
            match dec_lines_rec(s, j, n - 1) {
                None => {
                    proof {
                        assert forall|ls: Seq<(u32, Seq<CommentV>)>| (ls.len() == n as nat && at(
                            sv,
                            i as int,
                            enc_lines(ls),
                        )) implies false by {
                            lemma_enc_lines_first(ls);
                            assert(ls.drop_first().len() == (n - 1) as nat);
                            assert(at(sv, j as int, enc_lines(ls.drop_first())));
                        }
                    }
                    None
                },
                Some((rest, k)) => {
                    let mut v = rest;
                    v.insert(0, b0);
                    proof {
                        assert forall|ls: Seq<(u32, Seq<CommentV>)>| (ls.len() == n as nat && at(
                            sv,
                            i as int,
                            enc_lines(ls),
                        )) implies lines_v(v@) == ls && k as int == i as int + enc_lines(
                            ls,
                        ).len() by {
                            lemma_enc_lines_first(ls);
                            assert(ls.drop_first().len() == (n - 1) as nat);
                            assert(at(sv, j as int, enc_lines(ls.drop_first())));
                            assert(v@ =~= seq![b0] + rest@);
                            assert(lines_v(v@).len() == ls.len());
                            assert forall|m: int| 0 <= m < ls.len() implies #[trigger] lines_v(
                                v@,
                            )[m] == ls[m] by {
                                assert(lines_v(v@)[m] == (v@[m].0, comments_v(v@[m].1@)));
                                if m == 0 {
                                    assert(v@[0] == b0);
                                    assert(b0.0 == ls.first().0);
                                    assert(comments_v(b0.1@) == ls.first().1);
                                } else {
                                    assert(v@[m] == rest@[m - 1]);
                                    assert(lines_v(rest@)[m - 1] == (rest@[m - 1].0, comments_v(
                                        rest@[m - 1].1@,
                                    )));
                                    assert(ls.drop_first()[m - 1] == ls[m]);
                                }
                            }
                            assert(lines_v(v@) =~= ls);
                        }
                    }
                    Some((v, k))
                },
            }
        },
    }
}

} // verus!

verus! {

proof fn lemma_enc_lines_len(ls: Seq<(u32, Seq<CommentV>)>)
    ensures
        enc_lines(ls).len() >= ls.len(),
    decreases ls.len(),
{
    if ls.len() > 0 {
        lemma_enc_lines_len(ls.drop_last());
        assert(enc_bucket(ls.last().0, ls.last().1).len() >= 1) by {
            lemma_dec_nat_props(ls.last().0 as nat);
        }
    }
}

proof fn lemma_enc_files_len(fs: Seq<(Seq<char>, FileReviewV)>)
    ensures
        enc_files(fs).len() >= fs.len(),
    decreases fs.len(),
{
    if fs.len() > 0 {
        lemma_enc_files_len(fs.drop_last());
        assert(enc_file(fs.last().0, fs.last().1).len() >= 1);
    }
}

/// Read one file review.
#[verifier::rlimit(80)]
fn dec_review(s: &str, i: usize) -> (r: Option<(FileReview, usize)>)
    ensures
        forall|fr: FileReviewV| at(s@, i as int, enc_review(fr)) ==> (match r {
            Some(p) => p.0@ == fr && p.1 as int == i as int + enc_review(fr).len(),
            None => false,
        }),
        match r {
            Some(p) => i <= p.1 <= s@.len(),
            None => true,
        },
{
    let ghost sv = s@;
    let total = s.unicode_len();
    proof {
        assert(sv.len() == total);
        assert forall|fr: FileReviewV| at(sv, i as int, enc_review(fr)) implies (at(
            sv,
            i as int,
            seq![status_code(fr.status)],
        ) && at(sv, i as int + 1, enc_bool(fr.reviewed)) && at(
            sv,
            i as int + 2,
            enc_num(fr.file_comments.len()),
        ) && at(
            sv,
            i as int + 2 + enc_num(fr.file_comments.len()).len(),
            enc_comments(fr.file_comments),
        ) && at(
            sv,
            i as int + 2 + enc_num(fr.file_comments.len()).len() + enc_comments(
                fr.file_comments,
            ).len(),
            enc_num(fr.line_comments.len()),
        ) && at(
            sv,
            i as int + 2 + enc_num(fr.file_comments.len()).len() + enc_comments(
                fr.file_comments,
            ).len() + enc_num(fr.line_comments.len()).len(),
            enc_lines(fr.line_comments),
        )) by {
            let p1 = seq![status_code(fr.status)];
            let p2 = enc_bool(fr.reviewed);
            let p3 = enc_num(fr.file_comments.len());
            let p4 = enc_comments(fr.file_comments);
            let p5 = enc_num(fr.line_comments.len());
            let p6 = enc_lines(fr.line_comments);
            lemma_at_concat(sv, i as int, p1 + p2 + p3 + p4 + p5, p6);
            lemma_at_concat(sv, i as int, p1 + p2 + p3 + p4, p5);
            lemma_at_concat(sv, i as int, p1 + p2 + p3, p4);
            lemma_at_concat(sv, i as int, p1 + p2, p3);
            lemma_at_concat(sv, i as int, p1, p2);
            assert(p2.len() == 1);
        }
    }
    let r1 = dec_char(s, i);
    if r1.is_none() {
        proof {
            assert forall|fr: FileReviewV| at(sv, i as int, enc_review(fr)) implies false by {}
        }
        return None;
    }
    let (st, j1) = r1.unwrap();
    let status = if st == 'A' {
        FileStatus::Added
    } else if st == 'M' {
        FileStatus::Modified
    } else if st == 'D' {
        FileStatus::Deleted
    } else if st == 'R' {
        FileStatus::Renamed
    } else if st == 'U' {
        FileStatus::Unknown
    } else {
        proof {
            assert forall|fr: FileReviewV| at(sv, i as int, enc_review(fr)) implies false by {
                assert(sv.subrange(i as int, i as int + 1)[0] == status_code(fr.status));
            }
        }
        return None;
    };
    let r2 = dec_char(s, j1);
    if r2.is_none() {
        proof {
            assert forall|fr: FileReviewV| at(sv, i as int, enc_review(fr)) implies false by {
                assert(sv.subrange(j1 as int, j1 as int + 1)[0] == enc_bool(fr.reviewed)[0]);
            }
        }
        return None;
    }
    let (rc, j2) = r2.unwrap();
    let reviewed = if rc == '1' {
        true
    } else if rc == '0' {
        false
    } else {
        proof {
            assert forall|fr: FileReviewV| at(sv, i as int, enc_review(fr)) implies false by {
                assert(sv.subrange(j1 as int, j1 as int + 1)[0] == enc_bool(fr.reviewed)[0]);
            }
        }
        return None;
    };
    let ghost casts = |fr: FileReviewV| {
        &&& (fr.file_comments.len() as u64) as nat == fr.file_comments.len()
        &&& (fr.line_comments.len() as u64) as nat == fr.line_comments.len()
    };
    proof {
        assert forall|fr: FileReviewV| at(sv, i as int, enc_review(fr)) implies #[trigger] casts(
            fr,
        ) by {
            lemma_enc_comments_len(fr.file_comments);
            lemma_enc_lines_len(fr.line_comments);
        }
    }
    let r3 = dec_num(s, j2);
    if r3.is_none() {
        proof {
            assert forall|fr: FileReviewV| at(sv, i as int, enc_review(fr)) implies false by {
                assert(casts(fr));
                assert(at(sv, j2 as int, enc_num((fr.file_comments.len() as u64) as nat)));
            }
        }
        return None;
    }
    let (fc_count, j3) = r3.unwrap();
    let r4 = dec_comments_rec(s, j3, fc_count);
    if r4.is_none() {
        proof {
            assert forall|fr: FileReviewV| at(sv, i as int, enc_review(fr)) implies false by {
                assert(casts(fr));
                assert(at(sv, j2 as int, enc_num((fr.file_comments.len() as u64) as nat)));
                assert(fr.file_comments.len() == fc_count as nat);
            }
        }
        return None;
    }
    let (file_comments, j4) = r4.unwrap();
    let r5 = dec_num(s, j4);
    if r5.is_none() {
        proof {
            assert forall|fr: FileReviewV| at(sv, i as int, enc_review(fr)) implies false by {
                assert(casts(fr));
                assert(at(sv, j2 as int, enc_num((fr.file_comments.len() as u64) as nat)));
                assert(fr.file_comments.len() == fc_count as nat);
                assert(at(sv, j4 as int, enc_num((fr.line_comments.len() as u64) as nat)));
            }
        }
        return None;
    }
    let (lc_count, j5) = r5.unwrap();
    let r6 = dec_lines_rec(s, j5, lc_count);
    if r6.is_none() {
        proof {
            assert forall|fr: FileReviewV| at(sv, i as int, enc_review(fr)) implies false by {
                assert(casts(fr));
                assert(at(sv, j2 as int, enc_num((fr.file_comments.len() as u64) as nat)));
                assert(fr.file_comments.len() == fc_count as nat);
                assert(at(sv, j4 as int, enc_num((fr.line_comments.len() as u64) as nat)));
                assert(fr.line_comments.len() == lc_count as nat);
            }
        }
        return None;
    }
    let (line_comments, j6) = r6.unwrap();
    let out = FileReview { status, reviewed, file_comments, line_comments };
    proof {
        assert forall|fr: FileReviewV| at(sv, i as int, enc_review(fr)) implies out@ == fr && j6 as int
            == i as int + enc_review(fr).len() by {
            assert(sv.subrange(i as int, i as int + 1)[0] == status_code(fr.status));
            assert(sv.subrange(j1 as int, j1 as int + 1)[0] == enc_bool(fr.reviewed)[0]);
            assert(casts(fr));
            assert(at(sv, j2 as int, enc_num((fr.file_comments.len() as u64) as nat)));
            assert(fr.file_comments.len() == fc_count as nat);
            assert(at(sv, j4 as int, enc_num((fr.line_comments.len() as u64) as nat)));
            assert(fr.line_comments.len() == lc_count as nat);
            assert(out@ =~= fr);
        }
    }
    Some((out, j6))
}

/// Read `n` file entries in a row.
#[verifier::rlimit(100)]
fn dec_files_rec(s: &str, i: usize, n: u64) -> (r: Option<(Vec<(String, FileReview)>, usize)>)
    requires
        i as int <= s@.len(),
    ensures
        forall|fs: Seq<(Seq<char>, FileReviewV)>| (fs.len() == n as nat && at(
            s@,
            i as int,
            enc_files(fs),
        )) ==> (match r {
            Some(p) => crate::session::files_v(p.0@) == fs && p.1 as int == i as int + enc_files(
                fs,
            ).len(),
            None => false,
        }),
        match r {
            Some(p) => i <= p.1 <= s@.len(),
            None => true,
        },
    decreases n,
{
    let ghost sv = s@;
    if n == 0 {
        let v: Vec<(String, FileReview)> = Vec::new();
        proof {
            assert forall|fs: Seq<(Seq<char>, FileReviewV)>| (fs.len() == n as nat && at(
                sv,
                i as int,
                enc_files(fs),
            )) implies crate::session::files_v(v@) == fs && i as int == i as int + enc_files(
                fs,
            ).len() by {
                assert(crate::session::files_v(v@) =~= fs);
                assert(enc_files(fs).len() == 0);
            }
        }
        return Some((v, i));
    }
    proof {
        assert forall|fs: Seq<(Seq<char>, FileReviewV)>| (fs.len() == n as nat && at(
            sv,
            i as int,
            enc_files(fs),
        )) implies at(sv, i as int, enc_str(fs.first().0)) && at(
            sv,
            i as int + enc_str(fs.first().0).len(),
            enc_review(fs.first().1),
        ) && at(
            sv,
            i as int + enc_file(fs.first().0, fs.first().1).len(),
            enc_files(fs.drop_first()),
        ) by {
            lemma_enc_files_first(fs);
            lemma_at_concat(
                sv,
                i as int,
                enc_file(fs.first().0, fs.first().1),
                enc_files(fs.drop_first()),
            );
            lemma_at_concat(sv, i as int, enc_str(fs.first().0), enc_review(fs.first().1));
        }
    }
    let r1 = dec_string(s, i);
    if r1.is_none() {
        return None;
    }
    let (path, j) = r1.unwrap();
    let r2 = dec_review(s, j);
    if r2.is_none() {
        return None;
    }
    let (fr0, j2) = r2.unwrap();
    match dec_files_rec(s, j2, n - 1) {
        None => {
            proof {
                assert forall|fs: Seq<(Seq<char>, FileReviewV)>| (fs.len() == n as nat && at(
                    sv,
                    i as int,
                    enc_files(fs),
                )) implies false by {
                    assert(fs.drop_first().len() == (n - 1) as nat);
                    assert(at(sv, j2 as int, enc_files(fs.drop_first())));
                }
            }
            None
        },
        Some((rest, k)) => {
            let mut v = rest;
            v.insert(0, (path, fr0));
            proof {
                assert forall|fs: Seq<(Seq<char>, FileReviewV)>| (fs.len() == n as nat && at(
                    sv,
                    i as int,
                    enc_files(fs),
                )) implies crate::session::files_v(v@) == fs && k as int == i as int + enc_files(
                    fs,
                ).len() by {
                    lemma_enc_files_first(fs);
                    assert(fs.drop_first().len() == (n - 1) as nat);
                    assert(at(sv, j2 as int, enc_files(fs.drop_first())));
                    assert(path@ == fs.first().0);
                    assert(fr0@ == fs.first().1);
                    assert(j2 as int == i as int + enc_file(fs.first().0, fs.first().1).len());
                    assert(k as int == j2 as int + enc_files(fs.drop_first()).len());
                    let ghost fv = crate::session::files_v(v@);
                    assert(fv.len() == fs.len());
                    assert forall|m: int| 0 <= m < fs.len() implies #[trigger] fv[m] == fs[m] by {
                        assert(fv[m] == (v@[m].0@, v@[m].1@));
                        if m == 0 {
                            assert(v@[0] == (path, fr0));
                        } else {
                            assert(v@[m] == rest@[m - 1]);
                            assert(crate::session::files_v(rest@)[m - 1] == (rest@[m - 1].0@,
                            rest@[m - 1].1@));
                            assert(fs.drop_first()[m - 1] == fs[m]);
                        }
                    }
                    assert(fv =~= fs);
                }
            }
            Some((v, k))
        },
    }
}

/// The view of decoded optional notes.
pub open spec fn opt_str_v(x: Option<String>) -> Option<Seq<char>> {
    match x {
        Some(t) => Some(t@),
        None => None,
    }
}

/// Read an optional string.
fn dec_opt_str(s: &str, i: usize) -> (r: Option<(Option<String>, usize)>)
    ensures
        forall|o: Option<Seq<char>>| at(s@, i as int, enc_opt_str(o)) ==> (match r {
            Some(p) => opt_str_v(p.0) == o && p.1 as int == i as int + enc_opt_str(o).len(),
            None => false,
        }),
        match r {
            Some(p) => i <= p.1 <= s@.len(),
            None => true,
        },
{
    let ghost sv = s@;
    match dec_char(s, i) {
        None => {
            proof {
                assert forall|o: Option<Seq<char>>| at(sv, i as int, enc_opt_str(o)) implies
                false by {}
            }
            None
        },
        Some((c, j)) => {
            proof {
                assert forall|o: Option<Seq<char>>| at(sv, i as int, enc_opt_str(o)) implies sv[i as int]
                    == enc_opt_str(o)[0] by {
                    assert(sv.subrange(i as int, i as int + enc_opt_str(o).len())[0]
                        == enc_opt_str(o)[0]);
                }
            }
            if c == 'n' {
                proof {
                    assert forall|o: Option<Seq<char>>| at(sv, i as int, enc_opt_str(o)) implies o
                        is None && 1 == enc_opt_str(o).len() by {
                        if o is Some {
                            assert(enc_opt_str(o)[0] == 's');
                        }
                    }
                }
                Some((None, j))
            } else if c == 's' {
                proof {
                    assert forall|o: Option<Seq<char>>| at(sv, i as int, enc_opt_str(o)) implies (o
                        is Some && at(sv, j as int, enc_str(o->Some_0))) by {
                        if o is None {
                            assert(enc_opt_str(o)[0] == 'n');
                        } else {
                            lemma_at_concat(sv, i as int, seq!['s'], enc_str(o->Some_0));
                        }
                    }
                }
                match dec_string(s, j) {
                    None => None,
                    Some((t, k)) => Some((Some(t), k)),
                }
            } else {
                proof {
                    assert forall|o: Option<Seq<char>>| at(sv, i as int, enc_opt_str(o)) implies
                    false by {
                        if o is None {
                            assert(enc_opt_str(o)[0] == 'n');
                        } else {
                            assert(enc_opt_str(o)[0] == 's');
                        }
                    }
                }
                None
            }
        },
    }
}

fn corrupted() -> (r: TuicrError)
    ensures
        r is CorruptedSession,
{
    TuicrError::CorruptedSession(String::from_str("invalid session record"))
}

/// Decode a session record. Decoding what `encode_session` produced
/// yields a session equal in every field; a truncated or malformed
/// record yields the corrupted-session error, never a crash.
#[verifier::rlimit(80)]
pub fn decode_session(s: &str) -> (r: Result<ReviewSession, TuicrError>)
    ensures
        forall|sv2: SessionV| s@ == enc_session(sv2) ==> (match r {
            Ok(d) => d@ == sv2,
            Err(_) => false,
        }),
        match r {
            Err(e) => e is CorruptedSession,
            Ok(_) => true,
        },
{
    let ghost sv = s@;
    let total = s.unicode_len();
    proof {
        assert forall|sv2: SessionV| sv == enc_session(sv2) implies (at(
            sv,
            0,
            seq!['r', 'v', '1', ';'],
        ) && at(sv, 4, enc_str(sv2.repo_path)) && at(
            sv,
            4int + enc_str(sv2.repo_path).len(),
            enc_str(sv2.base_commit),
        ) && at(
            sv,
            4int + enc_str(sv2.repo_path).len() + enc_str(sv2.base_commit).len(),
            enc_num(sv2.updated_at as nat),
        ) && at(
            sv,
            4int + enc_str(sv2.repo_path).len() + enc_str(sv2.base_commit).len() + enc_num(
                sv2.updated_at as nat,
            ).len(),
            enc_opt_str(sv2.session_notes),
        ) && at(
            sv,
            4int + enc_str(sv2.repo_path).len() + enc_str(sv2.base_commit).len() + enc_num(
                sv2.updated_at as nat,
            ).len() + enc_opt_str(sv2.session_notes).len(),
            enc_num(sv2.files.len()),
        ) && at(
            sv,
            4int + enc_str(sv2.repo_path).len() + enc_str(sv2.base_commit).len() + enc_num(
                sv2.updated_at as nat,
            ).len() + enc_opt_str(sv2.session_notes).len() + enc_num(sv2.files.len()).len(),
            enc_files(sv2.files),
        ) && sv.len() == enc_session(sv2).len()) by {
            let p1 = seq!['r', 'v', '1', ';'];
            let p2 = enc_str(sv2.repo_path);
            let p3 = enc_str(sv2.base_commit);
            let p4 = enc_num(sv2.updated_at as nat);
            let p5 = enc_opt_str(sv2.session_notes);
            let p6 = enc_num(sv2.files.len());
            let p7 = enc_files(sv2.files);
            assert(sv.subrange(0, sv.len() as int) =~= sv);
            assert(at(sv, 0, enc_session(sv2)));
            lemma_at_concat(sv, 0, p1 + p2 + p3 + p4 + p5 + p6, p7);
            lemma_at_concat(sv, 0, p1 + p2 + p3 + p4 + p5, p6);
            lemma_at_concat(sv, 0, p1 + p2 + p3 + p4, p5);
            lemma_at_concat(sv, 0, p1 + p2 + p3, p4);
            lemma_at_concat(sv, 0, p1 + p2, p3);
            lemma_at_concat(sv, 0, p1, p2);
        }
    }
    if total < 4 {
        return Err(corrupted());
    }
    if !(s.get_char(0) == 'r' && s.get_char(1) == 'v' && s.get_char(2) == '1' && s.get_char(3)
        == ';') {
        proof {
            assert forall|sv2: SessionV| sv == enc_session(sv2) implies false by {
                assert(sv.subrange(0, 4) =~= seq!['r', 'v', '1', ';']);
                assert(sv[0] == 'r' && sv[1] == 'v' && sv[2] == '1' && sv[3] == ';');
            }
        }
        return Err(corrupted());
    }
    let r1 = dec_string(s, 4);
    if r1.is_none() {
        return Err(corrupted());
    }
    let (repo_path, j1) = r1.unwrap();
    let r2 = dec_string(s, j1);
    if r2.is_none() {
        return Err(corrupted());
    }
    let (base_commit, j2) = r2.unwrap();
    let r3 = dec_num(s, j2);
    if r3.is_none() {
        return Err(corrupted());
    }
    let (updated_at, j3) = r3.unwrap();
    let r4 = dec_opt_str(s, j3);
    if r4.is_none() {
        return Err(corrupted());
    }
    let (session_notes, j4) = r4.unwrap();
    let ghost fcast = |sv2: SessionV| (sv2.files.len() as u64) as nat == sv2.files.len();
    proof {
        assert forall|sv2: SessionV| sv == enc_session(sv2) implies #[trigger] fcast(sv2) by {
            lemma_enc_files_len(sv2.files);
        }
    }
    let r5 = dec_num(s, j4);
    if r5.is_none() {
        proof {
            assert forall|sv2: SessionV| sv == enc_session(sv2) implies false by {
                assert(fcast(sv2));
                assert(at(sv, j4 as int, enc_num((sv2.files.len() as u64) as nat)));
            }
        }
        return Err(corrupted());
    }
    let (n_files, j5) = r5.unwrap();
    let r6 = dec_files_rec(s, j5, n_files);
    if r6.is_none() {
        proof {
            assert forall|sv2: SessionV| sv == enc_session(sv2) implies false by {
                assert(fcast(sv2));
                assert(at(sv, j4 as int, enc_num((sv2.files.len() as u64) as nat)));
                assert(sv2.files.len() == n_files as nat);
            }
        }
        return Err(corrupted());
    }
    let (files, j6) = r6.unwrap();
    if j6 != total {
        proof {
            assert forall|sv2: SessionV| sv == enc_session(sv2) implies false by {
                assert(fcast(sv2));
                assert(at(sv, j4 as int, enc_num((sv2.files.len() as u64) as nat)));
                assert(sv2.files.len() == n_files as nat);
            }
        }
        return Err(corrupted());
    }
    let out = ReviewSession { repo_path, base_commit, updated_at, session_notes, files };
    proof {
        assert forall|sv2: SessionV| sv == enc_session(sv2) implies out@ == sv2 by {
            assert(fcast(sv2));
            assert(at(sv, j4 as int, enc_num((sv2.files.len() as u64) as nat)));
            assert(sv2.files.len() == n_files as nat);
            assert(out@ =~= sv2);
        }
    }
    Ok(out)
}

} // verus!
