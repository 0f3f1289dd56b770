//! Character-level text operations over `Seq<char>`, mirroring the `str`
//! methods the profile formats are written with (`trim`, `strip_prefix`,
//! `find`, `split`, `lines`), each with an executable counterpart.
use vstd::prelude::*;

verus! {

/// `char::is_whitespace`: the Unicode `White_Space` property.
pub open spec fn is_ws(c: char) -> bool {
    let u = c as u32;
    ||| 0x09 <= u && u <= 0x0d
    ||| u == 0x20
    ||| u == 0x85
    ||| u == 0xa0
    ||| u == 0x1680
    ||| 0x2000 <= u && u <= 0x200a
    ||| u == 0x2028
    ||| u == 0x2029
    ||| u == 0x202f
    ||| u == 0x205f
    ||| u == 0x3000
}

pub fn is_whitespace(c: char) -> (b: bool)
    ensures
        b == is_ws(c),
{
    let u = c as u32;
    (0x09 <= u && u <= 0x0d) || u == 0x20 || u == 0x85 || u == 0xa0 || u == 0x1680 || (0x2000
        <= u && u <= 0x200a) || u == 0x2028 || u == 0x2029 || u == 0x202f || u == 0x205f || u
        == 0x3000
}

/// `str::trim_start`.
pub open spec fn trim_start(s: Seq<char>) -> Seq<char>
    decreases s.len(),
{
    if s.len() > 0 && is_ws(s[0]) {
        trim_start(s.drop_first())
    } else {
        s
    }
}

/// `str::trim_end`.
pub open spec fn trim_end(s: Seq<char>) -> Seq<char>
    decreases s.len(),
{
    if s.len() > 0 && is_ws(s.last()) {
        trim_end(s.drop_last())
    } else {
        s
    }
}

/// `str::trim`.
pub open spec fn trim(s: Seq<char>) -> Seq<char> {
    trim_end(trim_start(s))
}

/// `str::strip_prefix`.
pub open spec fn strip_prefix(s: Seq<char>, p: Seq<char>) -> Option<Seq<char>> {
    if p.is_prefix_of(s) {
        Some(s.skip(p.len() as int))
    } else {
        None
    }
}

/// Position of the first `c` at or after `i`.
pub open spec fn find_char_from(s: Seq<char>, c: char, i: int) -> Option<int>
    decreases s.len() - i,
{
    if i < 0 || i >= s.len() {
        None
    } else if s[i] == c {
        Some(i)
    } else {
        find_char_from(s, c, i + 1)
    }
}

/// `str::find` with a `char` pattern.
pub open spec fn find_char(s: Seq<char>, c: char) -> Option<int> {
    find_char_from(s, c, 0)
}

/// Whether `p` occurs in `s` starting at `i`.
pub open spec fn occurs_at(s: Seq<char>, p: Seq<char>, i: int) -> bool {
    0 <= i && i + p.len() <= s.len() && s.subrange(i, i + p.len()) == p
}

/// Position of the first occurrence of `p` at or after `i`.
pub open spec fn find_seq_from(s: Seq<char>, p: Seq<char>, i: int) -> Option<int>
    decreases s.len() - i,
{
    if i < 0 || i + p.len() > s.len() {
        None
    } else if occurs_at(s, p, i) {
        Some(i)
    } else if i >= s.len() {
        None
    } else {
        find_seq_from(s, p, i + 1)
    }
}

/// `str::find` with a `&str` pattern.
pub open spec fn find_seq(s: Seq<char>, p: Seq<char>) -> Option<int> {
    find_seq_from(s, p, 0)
}

/// `str::split` with a `char` separator, as the sequence of pieces.
pub open spec fn split_char(s: Seq<char>, c: char) -> Seq<Seq<char>>
    decreases s.len(),
{
    if s.len() == 0 {
        seq![Seq::<char>::empty()]
    } else {
        let before = split_char(s.drop_last(), c);
        if s.last() == c {
            before.push(Seq::<char>::empty())
        } else {
            before.update(before.len() - 1, before.last().push(s.last()))
        }
    }
}

/// Drops one trailing carriage return.
pub open spec fn strip_cr(t: Seq<char>) -> Seq<char> {
    if t.len() > 0 && t.last() == '\r' {
        t.drop_last()
    } else {
        t
    }
}

/// `str::lines`: pieces between `'\n'`, each terminated piece losing a
/// trailing `'\r'`, with no empty piece after a final line ending.
pub open spec fn lines(s: Seq<char>) -> Seq<Seq<char>> {
    let parts = split_char(s, '\n');
    let full = parts.take(parts.len() - 1).map_values(|t: Seq<char>| strip_cr(t));
    if parts.last().len() == 0 {
        full
    } else {
        full.push(parts.last())
    }
}

/// `str::trim_start_matches` with a `char`.
pub open spec fn trim_start_char(s: Seq<char>, c: char) -> Seq<char>
    decreases s.len(),
{
    if s.len() > 0 && s[0] == c {
        trim_start_char(s.drop_first(), c)
    } else {
        s
    }
}

/// `str::trim_end_matches` with a `char`.
pub open spec fn trim_end_char(s: Seq<char>, c: char) -> Seq<char>
    decreases s.len(),
{
    if s.len() > 0 && s.last() == c {
        trim_end_char(s.drop_last(), c)
    } else {
        s
    }
}

/// Splitting always gives at least one piece.
pub proof fn lemma_split_nonempty(s: Seq<char>, c: char)
    ensures
        split_char(s, c).len() >= 1,
    decreases s.len(),
{
    if s.len() > 0 {
        lemma_split_nonempty(s.drop_last(), c);
    }
}

/// Lines, each followed by a newline.
pub open spec fn terminated(ls: Seq<Seq<char>>) -> Seq<char>
    decreases ls.len(),
{
    if ls.len() == 0 {
        Seq::empty()
    } else {
        terminated(ls.drop_last()) + ls.last() + seq!['\n']
    }
}

/// Splitting a concatenation: the last piece of `a` and the first of `b`
/// join, the rest stay as they are.
pub proof fn lemma_split_append(a: Seq<char>, b: Seq<char>, c: char)
    ensures
        split_char(a + b, c) == split_char(a, c).drop_last() + seq![
            split_char(a, c).last() + split_char(b, c)[0],
        ] + split_char(b, c).skip(1),
    decreases b.len(),
{
    lemma_split_nonempty(a, c);
    lemma_split_nonempty(b, c);
    let sa = split_char(a, c);
    if b.len() == 0 {
        assert(a + b =~= a);
        assert(split_char(b, c) =~= seq![Seq::<char>::empty()]);
        assert(sa.last() + Seq::<char>::empty() =~= sa.last());
        assert(sa.drop_last() + seq![sa.last()] =~= sa);
        assert(split_char(b, c).skip(1) =~= Seq::<Seq<char>>::empty());
        assert(sa.drop_last() + seq![sa.last() + split_char(b, c)[0]] + split_char(b, c).skip(1)
            =~= sa);
    } else {
        let b1 = b.drop_last();
        let x = b.last();
        lemma_split_append(a, b1, c);
        lemma_split_nonempty(b1, c);
        assert((a + b).drop_last() =~= a + b1);
        assert((a + b).last() == x);
        let t = split_char(b1, c);
        let s1 = split_char(a + b1, c);
        if x == c {
            assert(split_char(b, c) == t.push(Seq::<char>::empty()));
            assert(split_char(b, c)[0] == t[0]);
            assert(split_char(b, c).skip(1) =~= t.skip(1).push(Seq::<char>::empty()));
            assert(split_char(a + b, c) == s1.push(Seq::<char>::empty()));
            assert(split_char(a + b, c) =~= sa.drop_last() + seq![sa.last() + split_char(b, c)[0]]
                + split_char(b, c).skip(1));
        } else {
            assert(split_char(b, c) == t.update(t.len() - 1, t.last().push(x)));
            assert(split_char(a + b, c) == s1.update(s1.len() - 1, s1.last().push(x)));
            if t.len() == 1 {
                assert((sa.last() + t[0]).push(x) =~= sa.last() + t[0].push(x));
                assert(split_char(a + b, c) =~= sa.drop_last() + seq![
                    sa.last() + split_char(b, c)[0],
                ] + split_char(b, c).skip(1));
            } else {
                assert(split_char(b, c).skip(1) =~= t.skip(1).update(
                    t.len() - 2,
                    t.last().push(x),
                ));
                assert(split_char(a + b, c) =~= sa.drop_last() + seq![
                    sa.last() + split_char(b, c)[0],
                ] + split_char(b, c).skip(1));
            }
        }
    }
}

/// A text without the separator is one piece.
pub proof fn lemma_split_none(s: Seq<char>, c: char)
    requires
        forall|i: int| 0 <= i < s.len() ==> s[i] != c,
    ensures
        split_char(s, c) == seq![s],
    decreases s.len(),
{
    if s.len() > 0 {
        let init = s.drop_last();
        assert forall|i: int| 0 <= i < init.len() implies init[i] != c by {
            assert(init[i] == s[i]);
        }
        lemma_split_none(init, c);
        assert(s.last() == s[s.len() - 1]);
        assert(init.push(s.last()) =~= s);
        assert(s.last() != c);
        assert(seq![init].update(0, init.push(s.last())) =~= seq![s]);
    } else {
        assert(s =~= Seq::<char>::empty());
    }
}

/// No line holds a newline, and none ends in a carriage return.
pub open spec fn plain_lines(ls: Seq<Seq<char>>) -> bool {
    forall|k: int|
        0 <= k < ls.len() ==> {
            &&& forall|i: int| 0 <= i < (#[trigger] ls[k]).len() ==> ls[k][i] != '\n'
            &&& strip_cr(ls[k]) == ls[k]
        }
}

/// Newline-terminated lines split into themselves and one empty piece.
pub proof fn lemma_split_terminated(ls: Seq<Seq<char>>)
    requires
        plain_lines(ls),
    ensures
        split_char(terminated(ls), '\n') == ls.push(Seq::<char>::empty()),
    decreases ls.len(),
{
    if ls.len() > 0 {
        let l = ls.last();
        let init = ls.drop_last();
        assert(plain_lines(init)) by {
            assert forall|k: int| 0 <= k < init.len() implies {
                &&& forall|i: int| 0 <= i < (#[trigger] init[k]).len() ==> init[k][i] != '\n'
                &&& strip_cr(init[k]) == init[k]
            } by {
                assert(init[k] == ls[k]);
            }
        }
        lemma_split_terminated(init);
        assert(ls[ls.len() - 1] == l);
        lemma_split_none(l, '\n');
        let tail = l + seq!['\n'];
        assert(tail.drop_last() =~= l);
        assert(split_char(tail, '\n') == seq![l].push(Seq::<char>::empty()));
        lemma_split_append(terminated(init), tail, '\n');
        assert(terminated(ls) =~= terminated(init) + tail);
        assert(Seq::<char>::empty() + l =~= l);
        assert(split_char(terminated(ls), '\n') =~= ls.push(Seq::<char>::empty()));
    }
}

/// The lines of newline-terminated plain lines followed by more text.
pub proof fn lemma_lines_after_terminated(ls: Seq<Seq<char>>, b: Seq<char>)
    requires
        plain_lines(ls),
    ensures
        lines(terminated(ls) + b) == ls + lines(b),
{
    lemma_split_terminated(ls);
    lemma_split_append(terminated(ls), b, '\n');
    lemma_split_nonempty(b, '\n');
    let sb = split_char(b, '\n');
    let parts = split_char(terminated(ls) + b, '\n');
    assert(Seq::<char>::empty() + sb[0] =~= sb[0]);
    assert(parts =~= ls + sb);
    assert(parts.take(parts.len() - 1) =~= ls + sb.take(sb.len() - 1));
    assert(ls.map_values(|t: Seq<char>| strip_cr(t)) =~= ls) by {
        assert forall|k: int| 0 <= k < ls.len() implies ls.map_values(|t: Seq<char>| strip_cr(t))[k]
            == ls[k] by {
            assert(strip_cr(ls[k]) == ls[k]);
        }
    }
    assert((ls + sb.take(sb.len() - 1)).map_values(|t: Seq<char>| strip_cr(t)) =~= ls
        + sb.take(sb.len() - 1).map_values(|t: Seq<char>| strip_cr(t)));
    assert(parts.last() == sb.last());
    assert(lines(terminated(ls) + b) =~= ls + lines(b));
}

/// A text that starts with neither a newline nor a carriage return has a
/// first line, which starts with the same character.
pub proof fn lemma_first_line(b: Seq<char>)
    requires
        b.len() > 0,
        b[0] != '\n',
        b[0] != '\r',
    ensures
        lines(b).len() > 0,
        lines(b)[0].len() > 0,
        lines(b)[0][0] == b[0],
{
    let h = seq![b[0]];
    let rest = b.drop_first();
    assert(b =~= h + rest);
    lemma_split_none(h, '\n');
    lemma_split_append(h, rest, '\n');
    lemma_split_nonempty(rest, '\n');
    let parts = split_char(b, '\n');
    let first = h + split_char(rest, '\n')[0];
    assert(parts[0] == first);
    assert(first[0] == b[0]);
    if parts.len() >= 2 {
        assert(lines(b)[0] == strip_cr(first));
    } else {
        assert(lines(b) == seq![first]);
    }
}

/// Text that does not start with whitespace is its own `trim_start`.
pub proof fn lemma_trim_start_plain(s: Seq<char>)
    requires
        s.len() > 0,
        !is_ws(s[0]),
    ensures
        trim_start(s) == s,
{
}

/// The first `c` from `i` on is at `j` when `s[j]` is `c` and nothing
/// between is.
pub proof fn lemma_find_first(s: Seq<char>, c: char, i: int, j: int)
    requires
        0 <= i <= j < s.len(),
        s[j] == c,
        forall|k: int| i <= k < j ==> s[k] != c,
    ensures
        find_char_from(s, c, i) == Some(j),
    decreases j - i,
{
    if i < j {
        lemma_find_first(s, c, i + 1, j);
    }
}

// ----------------------------------------------------------------------
// Executable counterparts, on a character vector and a half-open range.
// ----------------------------------------------------------------------
/// The characters of `s`.
pub fn chars_of(s: &str) -> (v: Vec<char>)
    ensures
        v@ == s@,
{
    let mut v: Vec<char> = Vec::new();
    for c in it: s.chars()
        invariant
            v@ == it.seq().take(it.index() as int),
            it.seq() == s@,
    {
        v.push(c);
    }
    v
}

/// A `String` holding `v[lo..hi]`.
pub fn string_of(v: &Vec<char>, lo: usize, hi: usize) -> (s: String)
    requires
        lo <= hi <= v@.len(),
    ensures
        s@ == v@.subrange(lo as int, hi as int),
{
    let mut s = String::new();
    let mut i = lo;
    while i < hi
        invariant
            lo <= i <= hi <= v@.len(),
            s@ == v@.subrange(lo as int, i as int),
        decreases hi - i,
    {
        push_char(&mut s, v[i]);
        assert(v@.subrange(lo as int, i + 1) =~= v@.subrange(lo as int, i as int).push(v@[i as int]));
        i += 1;
    }
    s
}

/// `String::push`: the contract claims that `c` is appended to the text
/// and nothing else changes.
#[verifier::external_body]
pub(crate) fn push_char(s: &mut String, c: char)
    ensures
        final(s)@ == old(s)@.push(c),
{
    s.push(c);
}

/// Appends `t` to `s`.
pub fn push_str(s: &mut String, t: &str)
    ensures
        final(s)@ == old(s)@ + t@,
{
    s.append(t);
}

proof fn lemma_sub_drop_first(s: Seq<char>, lo: int, hi: int)
    requires
        0 <= lo < hi <= s.len(),
    ensures
        s.subrange(lo, hi).drop_first() == s.subrange(lo + 1, hi),
        s.subrange(lo, hi)[0] == s[lo],
{
    assert(s.subrange(lo, hi).drop_first() =~= s.subrange(lo + 1, hi));
}

proof fn lemma_sub_drop_last(s: Seq<char>, lo: int, hi: int)
    requires
        0 <= lo < hi <= s.len(),
    ensures
        s.subrange(lo, hi).drop_last() == s.subrange(lo, hi - 1),
        s.subrange(lo, hi).last() == s[hi - 1],
{
    assert(s.subrange(lo, hi).drop_last() =~= s.subrange(lo, hi - 1));
}

/// First index in `[lo, hi)` that is not whitespace (or `hi`).
pub fn skip_ws(v: &Vec<char>, lo: usize, hi: usize) -> (r: usize)
    requires
        lo <= hi <= v@.len(),
    ensures
        lo <= r <= hi,
        v@.subrange(r as int, hi as int) == trim_start(v@.subrange(lo as int, hi as int)),
{
    let mut i = lo;
    while i < hi && is_whitespace(v[i])
        invariant
            lo <= i <= hi <= v@.len(),
            trim_start(v@.subrange(i as int, hi as int)) == trim_start(
                v@.subrange(lo as int, hi as int),
            ),
        decreases hi - i,
    {
        proof {
            lemma_sub_drop_first(v@, i as int, hi as int);
        }
        i += 1;
    }
    i
}

/// One past the last index in `[lo, hi)` that is not whitespace (or `lo`).
pub fn skip_ws_back(v: &Vec<char>, lo: usize, hi: usize) -> (r: usize)
    requires
        lo <= hi <= v@.len(),
    ensures
        lo <= r <= hi,
        v@.subrange(lo as int, r as int) == trim_end(v@.subrange(lo as int, hi as int)),
{
    let mut j = hi;
    while j > lo && is_whitespace(v[j - 1])
        invariant
            lo <= j <= hi <= v@.len(),
            trim_end(v@.subrange(lo as int, j as int)) == trim_end(
                v@.subrange(lo as int, hi as int),
            ),
        decreases j - lo,
    {
        proof {
            lemma_sub_drop_last(v@, lo as int, j as int);
        }
        j -= 1;
    }
    j
}

/// The range of `trim(v[lo..hi])`.
pub fn trim_range(v: &Vec<char>, lo: usize, hi: usize) -> (r: (usize, usize))
    requires
        lo <= hi <= v@.len(),
    ensures
        lo <= r.0 <= r.1 <= hi,
        v@.subrange(r.0 as int, r.1 as int) == trim(v@.subrange(lo as int, hi as int)),
{
    let a = skip_ws(v, lo, hi);
    let b = skip_ws_back(v, a, hi);
    (a, b)
}

/// Whether `p` occurs in `v[lo..hi]` at index `i` of `v`.
pub fn occurs_in(v: &Vec<char>, lo: usize, hi: usize, p: &Vec<char>, i: usize) -> (b: bool)
    requires
        lo <= i,
        lo <= hi <= v@.len(),
    ensures
        b == occurs_at(v@.subrange(lo as int, hi as int), p@, i - lo),
{
    let ghost s = v@.subrange(lo as int, hi as int);
    if i > hi || p.len() > hi - i {
        return false;
    }
    let mut k: usize = 0;
    while k < p.len()
        invariant
            lo <= i,
            i + p@.len() <= hi <= v@.len(),
            k <= p@.len(),
            s == v@.subrange(lo as int, hi as int),
            forall|j: int| 0 <= j < k ==> #[trigger] p@[j] == v@[i + j],
        decreases p@.len() - k,
    {
        if v[i + k] != p[k] {
            assert(s.subrange(i - lo, i - lo + p@.len())[k as int] != p@[k as int]);
            return false;
        }
        k += 1;
    }
    assert(s.subrange(i - lo, i - lo + p@.len()) =~= p@);
    true
}

/// `find` of `p` in `v[lo..hi]` from index `from` of `v`, as an index into `v`.
pub fn find_seq_in(v: &Vec<char>, lo: usize, hi: usize, p: &Vec<char>, from: usize) -> (r: Option<
    usize,
>)
    requires
        lo <= from,
        lo <= hi <= v@.len(),
    ensures
        match r {
            Some(k) => lo <= k && find_seq_from(v@.subrange(lo as int, hi as int), p@, from - lo)
                == Some(k - lo),
            None => find_seq_from(v@.subrange(lo as int, hi as int), p@, from - lo) is None,
        },
{
    let ghost s = v@.subrange(lo as int, hi as int);
    let mut i = from;
    while i <= hi
        invariant
            lo <= from <= i,
            lo <= hi <= v@.len(),
            s == v@.subrange(lo as int, hi as int),
            find_seq_from(s, p@, from - lo) == find_seq_from(s, p@, i - lo),
        decreases hi + 1 - i,
    {
        if p.len() > hi - i {
            return None;
        }
        if occurs_in(v, lo, hi, p, i) {
            return Some(i);
        }
        if i >= hi {
            return None;
        }
        i += 1;
    }
    None
}

/// What `find_seq_from` finds occurs there.
pub proof fn lemma_find_seq_from(s: Seq<char>, p: Seq<char>, i: int)
    ensures
        find_seq_from(s, p, i) matches Some(k) ==> i <= k && k + p.len() <= s.len() && occurs_at(
            s,
            p,
            k,
        ),
    decreases s.len() - i,
{
    if !(i < 0 || i + p.len() > s.len()) && !occurs_at(s, p, i) && !(i >= s.len()) {
        lemma_find_seq_from(s, p, i + 1);
    }
}

/// What `find_char_from` finds is a `c`; when it finds none, there is none
/// from `i` on.
pub proof fn lemma_find_char_from(s: Seq<char>, c: char, i: int)
    ensures
        find_char_from(s, c, i) matches Some(k) ==> i <= k < s.len() && s[k] == c,
        find_char_from(s, c, i) is None && 0 <= i ==> forall|j: int| i <= j < s.len() ==> s[j] != c,
    decreases s.len() - i,
{
    if !(i < 0 || i >= s.len()) && s[i] != c {
        lemma_find_char_from(s, c, i + 1);
    }
}

/// `find` of `c` in `v[lo..hi]`, as an index into `v`.
pub fn find_char_exec(v: &Vec<char>, lo: usize, hi: usize, c: char) -> (r: Option<usize>)
    requires
        lo <= hi <= v@.len(),
    ensures
        match r {
            Some(k) => lo <= k < hi && find_char(v@.subrange(lo as int, hi as int), c) == Some(
                k - lo,
            ),
            None => find_char(v@.subrange(lo as int, hi as int), c) is None,
        },
{
    let ghost s = v@.subrange(lo as int, hi as int);
    let mut i = lo;
    while i < hi
        invariant
            lo <= i <= hi <= v@.len(),
            s == v@.subrange(lo as int, hi as int),
            find_char(s, c) == find_char_from(s, c, i - lo),
        decreases hi - i,
    {
        if v[i] == c {
            return Some(i);
        }
        i += 1;
    }
    None
}

/// Whether `v[lo..hi]` starts with `p`.
pub fn starts_with_at(v: &Vec<char>, lo: usize, hi: usize, p: &str) -> (b: bool)
    requires
        lo <= hi <= v@.len(),
    ensures
        b == p@.is_prefix_of(v@.subrange(lo as int, hi as int)),
{
    let pc = chars_of(p);
    if pc.len() > hi - lo {
        return false;
    }
    let mut k: usize = 0;
    while k < pc.len()
        invariant
            lo + pc@.len() <= hi <= v@.len(),
            k <= pc@.len(),
            pc@ == p@,
            forall|j: int| 0 <= j < k ==> #[trigger] pc@[j] == v@[lo + j],
        decreases pc@.len() - k,
    {
        if v[lo + k] != pc[k] {
            assert(v@.subrange(lo as int, hi as int)[k as int] != p@[k as int]);
            return false;
        }
        k += 1;
    }
    true
}

/// Whether `v[lo..hi]` equals `p`.
pub fn range_eq(v: &Vec<char>, lo: usize, hi: usize, p: &str) -> (b: bool)
    requires
        lo <= hi <= v@.len(),
    ensures
        b == (v@.subrange(lo as int, hi as int) == p@),
{
    let pc = chars_of(p);
    if pc.len() != hi - lo {
        proof {
            if v@.subrange(lo as int, hi as int) == p@ {
                assert(false);
            }
        }
        return false;
    }
    let r = starts_with_at(v, lo, hi, p);
    proof {
        if r {
            assert(v@.subrange(lo as int, hi as int) =~= p@);
        }
    }
    r
}

/// The pieces of `v[lo..hi]` separated by `c`, as ranges into `v`.
pub fn split_ranges(v: &Vec<char>, lo: usize, hi: usize, c: char) -> (r: Vec<(usize, usize)>)
    requires
        lo <= hi <= v@.len(),
    ensures
        r@.len() == split_char(v@.subrange(lo as int, hi as int), c).len(),
        forall|k: int|
            0 <= k < r@.len() ==> {
                &&& lo <= (#[trigger] r@[k]).0 <= r@[k].1 <= hi
                &&& v@.subrange(r@[k].0 as int, r@[k].1 as int) == split_char(
                    v@.subrange(lo as int, hi as int),
                    c,
                )[k]
            },
{
    let mut r: Vec<(usize, usize)> = Vec::new();
    let mut start = lo;
    let mut i = lo;
    assert(v@.subrange(lo as int, lo as int) =~= Seq::<char>::empty());
    while i < hi
        invariant
            lo <= start <= i <= hi <= v@.len(),
            r@.len() + 1 == split_char(v@.subrange(lo as int, i as int), c).len(),
            forall|k: int|
                0 <= k < r@.len() ==> {
                    &&& lo <= (#[trigger] r@[k]).0 <= r@[k].1 <= i
                    &&& v@.subrange(r@[k].0 as int, r@[k].1 as int) == split_char(
                        v@.subrange(lo as int, i as int),
                        c,
                    )[k]
                },
            v@.subrange(start as int, i as int) == split_char(
                v@.subrange(lo as int, i as int),
                c,
            ).last(),
        decreases hi - i,
    {
        let ghost before = split_char(v@.subrange(lo as int, i as int), c);
        proof {
            lemma_split_nonempty(v@.subrange(lo as int, i as int), c);
            assert(v@.subrange(lo as int, i + 1).drop_last() =~= v@.subrange(lo as int, i as int));
        }
        if v[i] == c {
            r.push((start, i));
            start = i + 1;
            assert(v@.subrange(start as int, i + 1) =~= Seq::<char>::empty());
        } else {
            assert(v@.subrange(start as int, i + 1) =~= v@.subrange(start as int, i as int).push(
                v@[i as int],
            ));
        }
        i += 1;
    }
    r.push((start, hi));
    assert(v@.subrange(lo as int, hi as int) =~= v@.subrange(lo as int, i as int));
    r
}

/// The lines of `v`, as ranges into `v`.
pub fn line_ranges(v: &Vec<char>) -> (r: Vec<(usize, usize)>)
    ensures
        r@.len() == lines(v@).len(),
        forall|k: int|
            0 <= k < r@.len() ==> {
                &&& (#[trigger] r@[k]).0 <= r@[k].1 <= v@.len()
                &&& v@.subrange(r@[k].0 as int, r@[k].1 as int) == lines(v@)[k]
            },
{
    let parts = split_ranges(v, 0, v.len(), '\n');
    let ghost ps = split_char(v@, '\n');
    assert(v@.subrange(0, v@.len() as int) =~= v@);
    proof {
        lemma_split_nonempty(v@, '\n');
    }
    let mut r: Vec<(usize, usize)> = Vec::new();
    let n = parts.len();
    let mut k: usize = 0;
    while k + 1 < n
        invariant
            n == parts@.len() == ps.len(),
            n >= 1,
            ps == split_char(v@, '\n'),
            k + 1 <= n,
            r@.len() == k,
            forall|j: int|
                0 <= j < parts@.len() ==> {
                    &&& (#[trigger] parts@[j]).0 <= parts@[j].1 <= v@.len()
                    &&& v@.subrange(parts@[j].0 as int, parts@[j].1 as int) == ps[j]
                },
            forall|j: int|
                0 <= j < k ==> {
                    &&& (#[trigger] r@[j]).0 <= r@[j].1 <= v@.len()
                    &&& v@.subrange(r@[j].0 as int, r@[j].1 as int) == strip_cr(ps[j])
                },
        decreases n - k,
    {
        let (a, b) = parts[k];
        if b > a && v[b - 1] == '\r' {
            assert(v@.subrange(a as int, b - 1) =~= v@.subrange(a as int, b as int).drop_last());
            r.push((a, b - 1));
        } else {
            r.push((a, b));
        }
        k += 1;
    }
    let (a, b) = parts[n - 1];
    if b > a {
        r.push((a, b));
    }
    proof {
        let full = ps.take(ps.len() - 1).map_values(|t: Seq<char>| strip_cr(t));
        if ps.last().len() == 0 {
            assert(r@.len() == full.len());
        } else {
            assert(r@.len() == full.len() + 1);
        }
        assert forall|j: int| 0 <= j < r@.len() implies {
            &&& (#[trigger] r@[j]).0 <= r@[j].1 <= v@.len()
            &&& v@.subrange(r@[j].0 as int, r@[j].1 as int) == lines(v@)[j]
        } by {
            if j < n - 1 {
                assert(full[j] == strip_cr(ps[j]));
            }
        }
    }
    r
}

/// `trim_start_matches(c)` then `trim_end_matches(c)` on `v[lo..hi]`.
pub fn trim_char_range(v: &Vec<char>, lo: usize, hi: usize, c: char) -> (r: (usize, usize))
    requires
        lo <= hi <= v@.len(),
    ensures
        lo <= r.0 <= r.1 <= hi,
        v@.subrange(r.0 as int, r.1 as int) == trim_end_char(
            trim_start_char(v@.subrange(lo as int, hi as int), c),
            c,
        ),
{
    let mut i = lo;
    while i < hi && v[i] == c
        invariant
            lo <= i <= hi <= v@.len(),
            trim_start_char(v@.subrange(i as int, hi as int), c) == trim_start_char(
                v@.subrange(lo as int, hi as int),
                c,
            ),
        decreases hi - i,
    {
        proof {
            lemma_sub_drop_first(v@, i as int, hi as int);
        }
        i += 1;
    }
    let mut j = hi;
    while j > i && v[j - 1] == c
        invariant
            lo <= i <= j <= hi <= v@.len(),
            trim_end_char(v@.subrange(i as int, j as int), c) == trim_end_char(
                v@.subrange(i as int, hi as int),
                c,
            ),
        decreases j - i,
    {
        proof {
            lemma_sub_drop_last(v@, i as int, j as int);
        }
        j -= 1;
    }
    (i, j)
}

} // verus!
