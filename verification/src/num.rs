//! Numerals: the `FromStr` grammars of the integer types and of `f64`, and
//! the decimal `Display` of integers.
use vstd::prelude::*;
use crate::text::{chars_of, push_char};

verus! {

pub open spec fn is_digit(c: char) -> bool {
    '0' as u32 <= c as u32 && c as u32 <= '9' as u32
}

pub open spec fn digit_val(c: char) -> int {
    c as u32 as int - '0' as u32 as int
}

pub open spec fn all_digits(s: Seq<char>) -> bool {
    forall|i: int| 0 <= i < s.len() ==> is_digit(#[trigger] s[i])
}

/// The value of a run of decimal digits.
pub open spec fn digits_value(s: Seq<char>) -> int
    decreases s.len(),
{
    if s.len() == 0 {
        0
    } else {
        digits_value(s.drop_last()) * 10 + digit_val(s.last())
    }
}

/// `FromStr` of an unsigned integer type whose maximum is `max`: an optional
/// `+`, then one or more digits, with a value of at most `max`.
pub open spec fn parse_unsigned(s: Seq<char>, max: int) -> Option<int> {
    let t = if s.len() > 0 && s[0] == '+' {
        s.drop_first()
    } else {
        s
    };
    if t.len() > 0 && all_digits(t) && digits_value(t) <= max {
        Some(digits_value(t))
    } else {
        None
    }
}

/// `FromStr` of a signed integer type with range `min..=max`: an optional
/// sign, then one or more digits, with a value in range.
pub open spec fn parse_signed(s: Seq<char>, min: int, max: int) -> Option<int> {
    if s.len() > 0 && s[0] == '-' {
        let t = s.drop_first();
        if t.len() > 0 && all_digits(t) && min <= -digits_value(t) {
            Some(-digits_value(t))
        } else {
            None
        }
    } else {
        parse_unsigned(s, max)
    }
}

pub open spec fn parse_u8(s: Seq<char>) -> Option<u8> {
    match parse_unsigned(s, u8::MAX as int) {
        Some(v) => Some(v as u8),
        None => None,
    }
}

pub open spec fn parse_u32(s: Seq<char>) -> Option<u32> {
    match parse_unsigned(s, u32::MAX as int) {
        Some(v) => Some(v as u32),
        None => None,
    }
}

pub open spec fn parse_i32(s: Seq<char>) -> Option<i32> {
    match parse_signed(s, i32::MIN as int, i32::MAX as int) {
        Some(v) => Some(v as i32),
        None => None,
    }
}

pub open spec fn parse_i64(s: Seq<char>) -> Option<i64> {
    match parse_signed(s, i64::MIN as int, i64::MAX as int) {
        Some(v) => Some(v as i64),
        None => None,
    }
}

/// Case-insensitive (ASCII) equality with a lower-case word.
pub open spec fn eq_ignore_case(s: Seq<char>, word: Seq<char>) -> bool {
    &&& s.len() == word.len()
    &&& forall|i: int|
        0 <= i < s.len() ==> (#[trigger] s[i] == word[i] || (s[i] as u32 + 32 == word[i] as u32
            && 'a' as u32 <= word[i] as u32 && word[i] as u32 <= 'z' as u32))
}

pub open spec fn count_dots(m: Seq<char>) -> int
    decreases m.len(),
{
    if m.len() == 0 {
        0
    } else {
        count_dots(m.drop_last()) + if m.last() == '.' {
            1int
        } else {
            0int
        }
    }
}

pub open spec fn count_digits(m: Seq<char>) -> int
    decreases m.len(),
{
    if m.len() == 0 {
        0
    } else {
        count_digits(m.drop_last()) + if is_digit(m.last()) {
            1int
        } else {
            0int
        }
    }
}

/// `Digit+ | Digit+ '.' Digit* | Digit* '.' Digit+`
pub open spec fn is_mantissa(m: Seq<char>) -> bool {
    &&& forall|i: int| 0 <= i < m.len() ==> is_digit(#[trigger] m[i]) || m[i] == '.'
    &&& count_dots(m) <= 1
    &&& count_digits(m) >= 1
}

/// `Sign? Digit+`
pub open spec fn is_exponent(e: Seq<char>) -> bool {
    let d = if e.len() > 0 && (e[0] == '+' || e[0] == '-') {
        e.drop_first()
    } else {
        e
    };
    d.len() > 0 && all_digits(d)
}

/// Position of the first `e` or `E` at or after `i`.
pub open spec fn find_exp_from(s: Seq<char>, i: int) -> Option<int>
    decreases s.len() - i,
{
    if i < 0 || i >= s.len() {
        None
    } else if s[i] == 'e' || s[i] == 'E' {
        Some(i)
    } else {
        find_exp_from(s, i + 1)
    }
}

/// `Number ::= Mantissa Exp?`
pub open spec fn is_number(b: Seq<char>) -> bool {
    match find_exp_from(b, 0) {
        None => is_mantissa(b),
        Some(i) => is_mantissa(b.take(i)) && is_exponent(b.skip(i + 1)),
    }
}

/// The grammar that `<f64 as FromStr>::from_str` accepts, as its
/// documentation states it: `Sign? ('inf' | 'infinity' | 'nan' | Number)`,
/// the words in any case.
pub open spec fn is_float_literal(s: Seq<char>) -> bool {
    let b = if s.len() > 0 && (s[0] == '+' || s[0] == '-') {
        s.drop_first()
    } else {
        s
    };
    ||| eq_ignore_case(b, seq!['i', 'n', 'f'])
    ||| eq_ignore_case(b, seq!['i', 'n', 'f', 'i', 'n', 'i', 't', 'y'])
    ||| eq_ignore_case(b, seq!['n', 'a', 'n'])
    ||| is_number(b)
}

pub open spec fn digit_char(d: int) -> char {
    if d == 0 {
        '0'
    } else if d == 1 {
        '1'
    } else if d == 2 {
        '2'
    } else if d == 3 {
        '3'
    } else if d == 4 {
        '4'
    } else if d == 5 {
        '5'
    } else if d == 6 {
        '6'
    } else if d == 7 {
        '7'
    } else if d == 8 {
        '8'
    } else {
        '9'
    }
}

/// Decimal `Display` of a natural number.
pub open spec fn nat_text(n: nat) -> Seq<char>
    decreases n,
{
    if n < 10 {
        seq![digit_char(n as int)]
    } else {
        nat_text(n / 10).push(digit_char((n % 10) as int))
    }
}

/// Decimal `Display` of an integer.
pub open spec fn int_text(i: int) -> Seq<char> {
    if i < 0 {
        seq!['-'] + nat_text((-i) as nat)
    } else {
        nat_text(i as nat)
    }
}

pub proof fn lemma_nat_text(n: nat)
    ensures
        nat_text(n).len() > 0,
        all_digits(nat_text(n)),
        digits_value(nat_text(n)) == n,
    decreases n,
{
    if n >= 10 {
        lemma_nat_text(n / 10);
        let t = nat_text(n / 10);
        let d = (n % 10) as int;
        assert(nat_text(n) == t.push(digit_char(d)));
        assert(t.push(digit_char(d)).drop_last() =~= t);
        assert(digit_val(digit_char(d)) == d);
        assert(n == (n / 10) * 10 + n % 10);
        assert(digits_value(t.push(digit_char(d))) == digits_value(t) * 10 + digit_val(
            digit_char(d),
        ));
        assert forall|i: int| 0 <= i < t.len() + 1 implies is_digit(#[trigger] nat_text(n)[i]) by {
            if i < t.len() {
                assert(nat_text(n)[i] == t[i]);
            }
        }
    } else {
        assert(seq![digit_char(n as int)].drop_last() =~= Seq::<char>::empty());
        assert(digit_val(digit_char(n as int)) == n);
        assert(digits_value(Seq::<char>::empty()) == 0);
        assert(digits_value(seq![digit_char(n as int)]) == digits_value(Seq::<char>::empty()) * 10
            + digit_val(digit_char(n as int)));
    }
}

/// The decimal text of an integer: an optional `-`, then digits.
pub proof fn lemma_int_text_digits(i: int)
    ensures
        int_text(i).len() > 0,
        int_text(i)[0] == '-' || is_digit(int_text(i)[0]),
        is_digit(int_text(i).last()),
        forall|k: int| 0 <= k < int_text(i).len() ==> #[trigger] int_text(i)[k] == '-' || is_digit(
            int_text(i)[k],
        ),
{
    if i < 0 {
        lemma_nat_text((-i) as nat);
        let t = nat_text((-i) as nat);
        assert(int_text(i) == seq!['-'] + t);
        assert(int_text(i).last() == t.last());
        assert(is_digit(t[t.len() - 1]));
        assert forall|k: int| 0 <= k < int_text(i).len() implies #[trigger] int_text(i)[k] == '-'
            || is_digit(int_text(i)[k]) by {
            if k > 0 {
                assert(int_text(i)[k] == t[k - 1]);
            }
        }
    } else {
        lemma_nat_text(i as nat);
        let t = nat_text(i as nat);
        assert(is_digit(t[0]));
        assert(is_digit(t[t.len() - 1]));
    }
}

/// The decimal text of an `i64` parses back to it.
pub proof fn int_text_parses(i: i64)
    ensures
        parse_i64(int_text(i as int)) == Some(i),
{
    if i < 0 {
        let m = (-i) as nat;
        lemma_nat_text(m);
        let t = int_text(i as int);
        assert(t.drop_first() =~= nat_text(m));
    } else {
        lemma_nat_text(i as nat);
        assert(nat_text(i as nat)[0] != '-' && nat_text(i as nat)[0] != '+') by {
            assert(is_digit(nat_text(i as nat)[0]));
        }
    }
}

// ----------------------------------------------------------------------
pub fn is_digit_exec(c: char) -> (b: bool)
    ensures
        b == is_digit(c),
{
    '0' as u32 <= c as u32 && c as u32 <= '9' as u32
}

/// The value of the digit run `v[lo..hi]`, when it is non-empty, all digits
/// and at most `bound`.
fn digits_in(v: &Vec<char>, lo: usize, hi: usize, bound: u64) -> (r: Option<u64>)
    requires
        lo <= hi <= v@.len(),
    ensures
        match r {
            Some(x) => {
                let s = v@.subrange(lo as int, hi as int);
                &&& s.len() > 0
                &&& all_digits(s)
                &&& digits_value(s) == x
                &&& x <= bound
            },
            None => {
                let s = v@.subrange(lo as int, hi as int);
                !(s.len() > 0 && all_digits(s) && digits_value(s) <= bound)
            },
        },
{
    if lo == hi {
        return None;
    }
    let mut acc: u128 = 0;
    let mut over = false;
    let mut i = lo;
    while i < hi
        invariant
            lo <= i <= hi <= v@.len(),
            all_digits(v@.subrange(lo as int, i as int)),
            !over ==> acc == digits_value(v@.subrange(lo as int, i as int)) && acc <= bound,
            over ==> digits_value(v@.subrange(lo as int, i as int)) > bound,
            digits_value(v@.subrange(lo as int, i as int)) >= 0,
        decreases hi - i,
    {
        let c = v[i];
        let ghost s1 = v@.subrange(lo as int, i + 1);
        assert(s1.drop_last() =~= v@.subrange(lo as int, i as int));
        if !is_digit_exec(c) {
            assert(!is_digit(s1[i - lo]));
            assert(!all_digits(v@.subrange(lo as int, hi as int))) by {
                assert(v@.subrange(lo as int, hi as int)[i - lo] == c);
            }
            return None;
        }
        let d = (c as u32 - '0' as u32) as u128;
        if !over {
            let next = acc * 10 + d;
            if next > bound as u128 {
                over = true;
            } else {
                acc = next;
            }
        }
        i += 1;
    }
    assert(v@.subrange(lo as int, hi as int) == v@.subrange(lo as int, i as int));
    if over {
        None
    } else {
        Some(acc as u64)
    }
}

/// `FromStr` of an unsigned integer with maximum `max`, on `v[lo..hi]`.
pub fn parse_unsigned_exec(v: &Vec<char>, lo: usize, hi: usize, max: u64) -> (r: Option<u64>)
    requires
        lo <= hi <= v@.len(),
    ensures
        match r {
            Some(x) => parse_unsigned(v@.subrange(lo as int, hi as int), max as int) == Some(
                x as int,
            ),
            None => parse_unsigned(v@.subrange(lo as int, hi as int), max as int) is None,
        },
{
    let ghost s = v@.subrange(lo as int, hi as int);
    if lo < hi && v[lo] == '+' {
        assert(s.drop_first() =~= v@.subrange(lo + 1, hi as int));
        digits_in(v, lo + 1, hi, max)
    } else {
        digits_in(v, lo, hi, max)
    }
}

/// `FromStr` of a signed integer with range `min..=max`, on `v[lo..hi]`.
pub fn parse_signed_exec(v: &Vec<char>, lo: usize, hi: usize, min: i64, max: i64) -> (r: Option<
    i64,
>)
    requires
        lo <= hi <= v@.len(),
        min <= 0 <= max,
    ensures
        match r {
            Some(x) => parse_signed(v@.subrange(lo as int, hi as int), min as int, max as int)
                == Some(x as int),
            None => parse_signed(v@.subrange(lo as int, hi as int), min as int, max as int) is None,
        },
{
    let ghost s = v@.subrange(lo as int, hi as int);
    if lo < hi && v[lo] == '-' {
        assert(s.drop_first() =~= v@.subrange(lo + 1, hi as int));
        let mag = (0i128 - min as i128) as u64;
        match digits_in(v, lo + 1, hi, mag) {
            Some(x) => Some((0i128 - x as i128) as i64),
            None => None,
        }
    } else {
        match parse_unsigned_exec(v, lo, hi, max as u64) {
            Some(x) => Some(x as i64),
            None => None,
        }
    }
}

pub fn parse_u8_exec(v: &Vec<char>, lo: usize, hi: usize) -> (r: Option<u8>)
    requires
        lo <= hi <= v@.len(),
    ensures
        r == parse_u8(v@.subrange(lo as int, hi as int)),
{
    match parse_unsigned_exec(v, lo, hi, 255) {
        Some(x) => Some(x as u8),
        None => None,
    }
}

pub fn parse_u32_exec(v: &Vec<char>, lo: usize, hi: usize) -> (r: Option<u32>)
    requires
        lo <= hi <= v@.len(),
    ensures
        r == parse_u32(v@.subrange(lo as int, hi as int)),
{
    match parse_unsigned_exec(v, lo, hi, 0xffff_ffff) {
        Some(x) => Some(x as u32),
        None => None,
    }
}

pub fn parse_i32_exec(v: &Vec<char>, lo: usize, hi: usize) -> (r: Option<i32>)
    requires
        lo <= hi <= v@.len(),
    ensures
        r == parse_i32(v@.subrange(lo as int, hi as int)),
{
    match parse_signed_exec(v, lo, hi, -0x8000_0000, 0x7fff_ffff) {
        Some(x) => Some(x as i32),
        None => None,
    }
}

pub fn parse_i64_exec(v: &Vec<char>, lo: usize, hi: usize) -> (r: Option<i64>)
    requires
        lo <= hi <= v@.len(),
    ensures
        r == parse_i64(v@.subrange(lo as int, hi as int)),
{
    parse_signed_exec(v, lo, hi, i64::MIN, i64::MAX)
}

fn eq_ignore_case_exec(v: &Vec<char>, lo: usize, hi: usize, word: &str) -> (b: bool)
    requires
        lo <= hi <= v@.len(),
    ensures
        b == eq_ignore_case(v@.subrange(lo as int, hi as int), word@),
{
    let w = chars_of(word);
    if w.len() != hi - lo {
        return false;
    }
    let ghost s = v@.subrange(lo as int, hi as int);
    let mut k: usize = 0;
    while k < w.len()
        invariant
            lo + w@.len() == hi <= v@.len(),
            k <= w@.len(),
            w@ == word@,
            s == v@.subrange(lo as int, hi as int),
            forall|i: int|
                0 <= i < k ==> (#[trigger] s[i] == w@[i] || (s[i] as u32 + 32 == w@[i] as u32
                    && 'a' as u32 <= w@[i] as u32 && w@[i] as u32 <= 'z' as u32)),
        decreases w@.len() - k,
    {
        let c = v[lo + k];
        let x = w[k];
        assert(s[k as int] == c);
        if !(c == x || ('a' as u32 <= x as u32 && x as u32 <= 'z' as u32 && c as u32 == x as u32
            - 32)) {
            return false;
        }
        k += 1;
    }
    true
}

fn is_mantissa_exec(v: &Vec<char>, lo: usize, hi: usize) -> (b: bool)
    requires
        lo <= hi <= v@.len(),
    ensures
        b == is_mantissa(v@.subrange(lo as int, hi as int)),
{
    let ghost s = v@.subrange(lo as int, hi as int);
    let mut dots: usize = 0;
    let mut digits: usize = 0;
    let mut i = lo;
    while i < hi
        invariant
            lo <= i <= hi <= v@.len(),
            s == v@.subrange(lo as int, hi as int),
            forall|j: int| 0 <= j < i - lo ==> is_digit(#[trigger] s[j]) || s[j] == '.',
            dots == count_dots(v@.subrange(lo as int, i as int)),
            digits == count_digits(v@.subrange(lo as int, i as int)),
            dots <= i - lo,
            digits <= i - lo,
        decreases hi - i,
    {
        let c = v[i];
        assert(v@.subrange(lo as int, i + 1).drop_last() =~= v@.subrange(lo as int, i as int));
        assert(s[i - lo] == c);
        if c == '.' {
            dots += 1;
        } else if is_digit_exec(c) {
            digits += 1;
        } else {
            return false;
        }
        i += 1;
    }
    assert(s =~= v@.subrange(lo as int, i as int));
    dots <= 1 && digits >= 1
}

fn is_exponent_exec(v: &Vec<char>, lo: usize, hi: usize) -> (b: bool)
    requires
        lo <= hi <= v@.len(),
    ensures
        b == is_exponent(v@.subrange(lo as int, hi as int)),
{
    let ghost s = v@.subrange(lo as int, hi as int);
    let start = if lo < hi && (v[lo] == '+' || v[lo] == '-') {
        assert(s.drop_first() =~= v@.subrange(lo + 1, hi as int));
        lo + 1
    } else {
        lo
    };
    let ghost d = if s.len() > 0 && (s[0] == '+' || s[0] == '-') {
        s.drop_first()
    } else {
        s
    };
    assert(d =~= v@.subrange(start as int, hi as int));
    if start == hi {
        return false;
    }
    let mut i = start;
    while i < hi
        invariant
            lo <= start <= i <= hi <= v@.len(),
            d == v@.subrange(start as int, hi as int),
            s == v@.subrange(lo as int, hi as int),
            d == (if s.len() > 0 && (s[0] == '+' || s[0] == '-') {
                s.drop_first()
            } else {
                s
            }),
            forall|j: int| start <= j < i ==> is_digit(#[trigger] v@[j]),
        decreases hi - i,
    {
        if !is_digit_exec(v[i]) {
            assert(!is_digit(d[i - start]));
            assert(!all_digits(d));
            assert(!is_exponent(s));
            return false;
        }
        i += 1;
    }
    assert(all_digits(v@.subrange(start as int, hi as int)));
    true
}

/// Whether `v[lo..hi]` is accepted by `<f64 as FromStr>::from_str`.
pub fn is_float_literal_exec(v: &Vec<char>, lo: usize, hi: usize) -> (b: bool)
    requires
        lo <= hi <= v@.len(),
    ensures
        b == is_float_literal(v@.subrange(lo as int, hi as int)),
{
    let ghost s = v@.subrange(lo as int, hi as int);
    let start = if lo < hi && (v[lo] == '+' || v[lo] == '-') {
        assert(s.drop_first() =~= v@.subrange(lo + 1, hi as int));
        lo + 1
    } else {
        lo
    };
    let ghost b = v@.subrange(start as int, hi as int);
    if eq_ignore_case_exec(v, start, hi, "inf") || eq_ignore_case_exec(v, start, hi, "infinity")
        || eq_ignore_case_exec(v, start, hi, "nan") {
        proof {
            reveal_strlit("inf");
            reveal_strlit("infinity");
            reveal_strlit("nan");
            assert("inf"@ =~= seq!['i', 'n', 'f']);
            assert("infinity"@ =~= seq!['i', 'n', 'f', 'i', 'n', 'i', 't', 'y']);
            assert("nan"@ =~= seq!['n', 'a', 'n']);
        }
        return true;
    }
    proof {
        reveal_strlit("inf");
        reveal_strlit("infinity");
        reveal_strlit("nan");
        assert("inf"@ =~= seq!['i', 'n', 'f']);
        assert("infinity"@ =~= seq!['i', 'n', 'f', 'i', 'n', 'i', 't', 'y']);
        assert("nan"@ =~= seq!['n', 'a', 'n']);
    }
    // locate the exponent marker
    let mut i = start;
    while i < hi && v[i] != 'e' && v[i] != 'E'
        invariant
            start <= i <= hi <= v@.len(),
            b == v@.subrange(start as int, hi as int),
            find_exp_from(b, 0) == find_exp_from(b, i - start),
        decreases hi - i,
    {
        i += 1;
    }
    if i == hi {
        assert(b.subrange(0, b.len() as int) =~= b);
        is_mantissa_exec(v, start, hi)
    } else {
        assert(b.take(i - start) =~= v@.subrange(start as int, i as int));
        assert(b.skip(i - start + 1) =~= v@.subrange(i + 1, hi as int));
        is_mantissa_exec(v, start, i) && is_exponent_exec(v, i + 1, hi)
    }
}

fn digit_char_exec(d: u64) -> (c: char)
    requires
        d < 10,
    ensures
        c == digit_char(d as int),
{
    if d == 0 {
        '0'
    } else if d == 1 {
        '1'
    } else if d == 2 {
        '2'
    } else if d == 3 {
        '3'
    } else if d == 4 {
        '4'
    } else if d == 5 {
        '5'
    } else if d == 6 {
        '6'
    } else if d == 7 {
        '7'
    } else if d == 8 {
        '8'
    } else {
        '9'
    }
}

/// Appends the decimal form of `n`.
pub fn push_nat(s: &mut String, n: u64)
    ensures
        final(s)@ == old(s)@ + nat_text(n as nat),
    decreases n,
{
    if n < 10 {
        push_char(s, digit_char_exec(n));
        assert(seq![digit_char(n as int)] =~= Seq::<char>::empty().push(digit_char(n as int)));
    } else {
        let ghost s0 = s@;
        push_nat(s, n / 10);
        push_char(s, digit_char_exec(n % 10));
        assert(s@ =~= s0 + nat_text(n as nat));
    }
}

/// Appends the decimal form of `i`.
pub fn push_int(s: &mut String, i: i64)
    ensures
        final(s)@ == old(s)@ + int_text(i as int),
{
    if i < 0 {
        let ghost s0 = s@;
        push_char(s, '-');
        let m = (0i128 - i as i128) as u64;
        push_nat(s, m);
        assert(s@ =~= s0 + int_text(i as int));
    } else {
        push_nat(s, i as u64);
    }
}

/// `{:?}` of a string: Rust's quoted, escaped rendering (`<str as Debug>::fmt`).
pub uninterp spec fn debug_text(s: Seq<char>) -> Seq<char>;

/// `format!("{s:?}")`, std's `<str as Debug>::fmt`. The contract claims
/// only that the result is `debug_text(s)`: the same text gives the same
/// rendering. Which characters std escapes, and how, is left unsaid.
#[verifier::external_body]
pub(crate) fn debug_quoted(s: &str) -> (r: String)
    ensures
        r@ == debug_text(s@),
{
    format!("{s:?}")
}

} // verus!
