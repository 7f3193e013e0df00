use vstd::prelude::*;

verus! {

/// The character of one decimal digit.
pub open spec fn digit_char(d: u64) -> char {
    if d == 0 {
        '0'
    } else if d == 1 {
        '1'
    } else if d == 2 {
        '2'
    } else if d == 3 {
        '3'
    } else if d == 4 {
        '4'
    } else if d == 5 {
        '5'
    } else if d == 6 {
        '6'
    } else if d == 7 {
        '7'
    } else if d == 8 {
        '8'
    } else {
        '9'
    }
}

/// The decimal rendering of a number, most significant digit first,
/// without leading zeros (a single `0` for zero).
pub open spec fn dec_u64(n: u64) -> Seq<char>
    decreases n,
{
    if n < 10 {
        seq![digit_char(n)]
    } else {
        dec_u64(n / 10).push(digit_char(n % 10))
    }
}

/// The one-character string of a decimal digit.
fn digit_str(d: u64) -> (r: &'static str)
    requires
        d < 10,
    ensures
        r@ == seq![digit_char(d)],
{
    proof {
        reveal_strlit("0");
        reveal_strlit("1");
        reveal_strlit("2");
        reveal_strlit("3");
        reveal_strlit("4");
        reveal_strlit("5");
        reveal_strlit("6");
        reveal_strlit("7");
        reveal_strlit("8");
        reveal_strlit("9");
    }
    let r = if d == 0 {
        "0"
    } else if d == 1 {
        "1"
    } else if d == 2 {
        "2"
    } else if d == 3 {
        "3"
    } else if d == 4 {
        "4"
    } else if d == 5 {
        "5"
    } else if d == 6 {
        "6"
    } else if d == 7 {
        "7"
    } else if d == 8 {
        "8"
    } else {
        "9"
    };
    proof {
        assert(r@ =~= seq![digit_char(d)]);
    }
    r
}

/// Append the decimal rendering of `n`.
pub fn push_u64(out: &mut String, n: u64)
    ensures
        final(out)@ == old(out)@ + dec_u64(n),
    decreases n,
{
    if n < 10 {
        out.append(digit_str(n));
        proof {
            assert(final(out)@ =~= old(out)@ + dec_u64(n));
        }
    } else {
        push_u64(out, n / 10);
        out.append(digit_str(n % 10));
        proof {
            assert(final(out)@ =~= old(out)@ + dec_u64(n));
        }
    }
}

/// Lexicographic order on character sequences, by code point.
pub open spec fn str_le(a: Seq<char>, b: Seq<char>) -> bool
    decreases a.len(),
{
    if a.len() == 0 {
        true
    } else if b.len() == 0 {
        false
    } else if a[0] == b[0] {
        str_le(a.skip(1), b.skip(1))
    } else {
        (a[0] as int) < (b[0] as int)
    }
}

pub proof fn lemma_str_le_total(a: Seq<char>, b: Seq<char>)
    ensures
        str_le(a, b) || str_le(b, a),
    decreases a.len(),
{
    if a.len() == 0 || b.len() == 0 {
    } else if a[0] == b[0] {
        lemma_str_le_total(a.skip(1), b.skip(1));
    } else {
        assert((a[0] as int) != (b[0] as int));
    }
}

pub proof fn lemma_str_le_antisym(a: Seq<char>, b: Seq<char>)
    requires
        str_le(a, b),
        str_le(b, a),
    ensures
        a == b,
    decreases a.len(),
{
    if a.len() == 0 {
        assert(b.len() == 0);
        assert(a =~= b);
    } else {
        assert(a[0] == b[0]);
        lemma_str_le_antisym(a.skip(1), b.skip(1));
        assert(a =~= b) by {
            assert(forall|k: int|
                1 <= k < a.len() ==> a[k] == a.skip(1)[k - 1] && b[k] == b.skip(1)[k - 1]);
        }
    }
}

pub proof fn lemma_str_le_trans(a: Seq<char>, b: Seq<char>, c: Seq<char>)
    requires
        str_le(a, b),
        str_le(b, c),
    ensures
        str_le(a, c),
    decreases a.len(),
{
    if a.len() == 0 || b.len() == 0 || c.len() == 0 {
    } else if a[0] == b[0] && b[0] == c[0] {
        lemma_str_le_trans(a.skip(1), b.skip(1), c.skip(1));
    }
}

/// Whether `a` comes no later than `b` in lexicographic order.
pub fn str_le_exec(a: &str, b: &str) -> (r: bool)
    ensures
        r == str_le(a@, b@),
{
    let alen = a.unicode_len();
    let blen = b.unicode_len();
    proof {
        assert(a@.skip(0) =~= a@);
        assert(b@.skip(0) =~= b@);
    }
    let mut i: usize = 0;
    loop
        invariant
            0 <= i <= alen,
            0 <= i <= blen,
            alen == a@.len(),
            blen == b@.len(),
            str_le(a@, b@) == str_le(a@.skip(i as int), b@.skip(i as int)),
        decreases alen - i,
    {
        if i >= alen {
            return true;
        }
        if i >= blen {
            return false;
        }
        let ca = a.get_char(i);
        let cb = b.get_char(i);
        if ca < cb {
            return true;
        }
        if cb < ca {
            return false;
        }
        proof {
            assert(a@.skip(i as int)[0] == a@[i as int]);
            assert(b@.skip(i as int)[0] == b@[i as int]);
            assert(a@.skip(i as int).skip(1) =~= a@.skip(i + 1 as int));
            assert(b@.skip(i as int).skip(1) =~= b@.skip(i + 1 as int));
        }
        i += 1;
    }
}

/// The path with its trailing separators removed.
pub open spec fn trim_trailing_slashes(p: Seq<char>) -> Seq<char>
    decreases p.len(),
{
    if p.len() > 0 && p.last() == '/' {
        trim_trailing_slashes(p.drop_last())
    } else {
        p
    }
}

/// The suffix after the last separator.
pub open spec fn tail_after_slash(p: Seq<char>) -> Seq<char>
    decreases p.len(),
{
    if p.len() == 0 {
        p
    } else if p.last() == '/' {
        Seq::<char>::empty()
    } else {
        tail_after_slash(p.drop_last()).push(p.last())
    }
}

/// The report's title: the last segment of the repository path, or the
/// literal `unknown` when the path yields none.
pub open spec fn repo_name(p: Seq<char>) -> Seq<char> {
    let t = tail_after_slash(trim_trailing_slashes(p));
    if t.len() == 0 {
        "unknown"@
    } else {
        t
    }
}

proof fn lemma_trim_at(p: Seq<char>, j: int)
    requires
        0 <= j <= p.len(),
        forall|k: int| j <= k < p.len() ==> p[k] == '/',
        j > 0 ==> p[j - 1] != '/',
    ensures
        trim_trailing_slashes(p) == p.take(j),
    decreases p.len(),
{
    if p.len() == 0 {
        assert(trim_trailing_slashes(p) =~= p.take(j));
    } else if j == p.len() {
        assert(p.last() != '/');
        assert(trim_trailing_slashes(p) =~= p.take(j));
    } else {
        assert(p.last() == '/');
        lemma_trim_at(p.drop_last(), j);
        assert(p.drop_last().take(j) =~= p.take(j));
    }
}

proof fn lemma_tail_at(p: Seq<char>, s: int)
    requires
        0 <= s <= p.len(),
        forall|k: int| s <= k < p.len() ==> p[k] != '/',
        s > 0 ==> p[s - 1] == '/',
    ensures
        tail_after_slash(p) == p.skip(s),
    decreases p.len(),
{
    if p.len() == 0 {
        assert(tail_after_slash(p) =~= p.skip(s));
    } else if s == p.len() {
        assert(p.last() == '/');
        assert(tail_after_slash(p) =~= p.skip(s));
    } else {
        assert(p.last() != '/');
        lemma_tail_at(p.drop_last(), s);
        assert(tail_after_slash(p) =~= p.skip(s)) by {
            assert(p.drop_last().skip(s).push(p.last()) =~= p.skip(s));
        }
    }
}

/// The last segment of a path, `unknown` when there is none.
pub fn repo_name_exec(p: &str) -> (r: String)
    ensures
        r@ == repo_name(p@),
{
    let n = p.unicode_len();
    let mut end: usize = n;
    while end > 0 && p.get_char(end - 1) == '/'
        invariant
            0 <= end <= n,
            n == p@.len(),
            forall|k: int| end <= k < n ==> p@[k] == '/',
        decreases end,
    {
        end -= 1;
    }
    proof {
        lemma_trim_at(p@, end as int);
    }
    let mut start: usize = end;
    while start > 0 && p.get_char(start - 1) != '/'
        invariant
            0 <= start <= end <= n,
            n == p@.len(),
            forall|k: int| start <= k < end ==> p@[k] != '/',
        decreases start,
    {
        start -= 1;
    }
    proof {
        let t = p@.take(end as int);
        assert(forall|k: int| start <= k < t.len() ==> t[k] == p@[k]);
        if start > 0 {
            assert(t[start - 1] == p@[start - 1]);
        }
        lemma_tail_at(t, start as int);
        assert(t.skip(start as int) =~= p@.subrange(start as int, end as int));
    }
    if start == end {
        String::from_str("unknown")
    } else {
        String::from_str(p.substring_char(start, end))
    }
}

} // verus!


