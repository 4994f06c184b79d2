//! Character-level helpers shared by the parsers: white space, trimming,
//! searching, decimal numbers and assembling messages.
use vstd::prelude::*;

verus! {

/// Unicode white space, as `char::is_whitespace` decides it
/// (the `White_Space` property).
pub open spec fn is_unicode_ws(c: char) -> bool {
    let u = c as u32;
    ||| 0x09 <= u <= 0x0D
    ||| u == 0x20
    ||| u == 0x85
    ||| u == 0xA0
    ||| u == 0x1680
    ||| 0x2000 <= u <= 0x200A
    ||| u == 0x2028
    ||| u == 0x2029
    ||| u == 0x202F
    ||| u == 0x205F
    ||| u == 0x3000
}

/// ASCII white space, as `u8::is_ascii_whitespace` decides it
/// (space, tab, line feed, form feed, carriage return).
pub open spec fn is_ascii_ws(c: char) -> bool {
    c == ' ' || c == '\t' || c == '\n' || c == '\x0C' || c == '\r'
}

/// An ASCII decimal digit.
pub open spec fn is_digit(c: char) -> bool {
    '0' as u32 <= c as u32 <= '9' as u32
}

/// The sequence with its leading Unicode white space removed.
pub open spec fn trim_start(s: Seq<char>) -> Seq<char>
    decreases s.len(),
{
    if s.len() > 0 && is_unicode_ws(s[0]) {
        trim_start(s.drop_first())
    } else {
        s
    }
}

/// The sequence with its trailing Unicode white space removed.
pub open spec fn trim_end(s: Seq<char>) -> Seq<char>
    decreases s.len(),
{
    if s.len() > 0 && is_unicode_ws(s.last()) {
        trim_end(s.drop_last())
    } else {
        s
    }
}

/// The sequence with leading and trailing Unicode white space removed.
pub open spec fn trim(s: Seq<char>) -> Seq<char> {
    trim_end(trim_start(s))
}

/// Index of the first occurrence of `c` in `s`, or `s.len()` when there is none.
pub open spec fn first_index(s: Seq<char>, c: char) -> nat
    decreases s.len(),
{
    if s.len() == 0 || s[0] == c {
        0
    } else {
        1 + first_index(s.drop_first(), c)
    }
}

/// Index of the first Unicode white space in `s`, or `s.len()` when there is none.
pub open spec fn first_ws_index(s: Seq<char>) -> nat
    decreases s.len(),
{
    if s.len() == 0 || is_unicode_ws(s[0]) {
        0
    } else {
        1 + first_ws_index(s.drop_first())
    }
}

/// The value of a sequence of decimal digits, most significant first.
pub open spec fn digits_value(s: Seq<char>) -> nat
    decreases s.len(),
{
    if s.len() == 0 {
        0
    } else {
        digits_value(s.drop_last()) * 10 + (s.last() as u32 - '0' as u32) as nat
    }
}

/// Every element of `s` is a decimal digit.
pub open spec fn all_digits(s: Seq<char>) -> bool {
    forall|i: int| 0 <= i < s.len() ==> is_digit(#[trigger] s[i])
}

/// What `<u16 as FromStr>::from_str` accepts: one optional `+`, then one or
/// more decimal digits whose value fits in 16 bits.
pub open spec fn parse_u16_spec(s: Seq<char>) -> Option<u16> {
    let digits = if s.len() > 0 && s[0] == '+' {
        s.drop_first()
    } else {
        s
    };
    if digits.len() > 0 && all_digits(digits) && digits_value(digits) <= 0xFFFF {
        Some(digits_value(digits) as u16)
    } else {
        None
    }
}

/// The character of a decimal digit.
pub open spec fn digit_char(d: nat) -> char {
    ('0' as u32 + d) as char
}

/// The decimal representation of `n`, without leading zeros.
pub open spec fn decimal(n: nat) -> Seq<char>
    decreases n,
{
    if n < 10 {
        seq![digit_char(n)]
    } else {
        decimal(n / 10) + seq![digit_char(n % 10)]
    }
}

/// What `format!("{:?}", s)` makes of a string slice holding `s`: the
/// standard library's quoted and escaped rendering.
pub uninterp spec fn str_debug(s: Seq<char>) -> Seq<char>;

// ---------------------------------------------------------------------------
// Lemmas

/// `k` is the first index of `c` in `s` when no earlier element is `c` and
/// `k` either ends `s` or holds `c`.
pub(crate) proof fn lemma_first_index_at(s: Seq<char>, c: char, k: int)
    requires
        0 <= k <= s.len(),
        forall|j: int| 0 <= j < k ==> s[j] != c,
        k == s.len() || s[k] == c,
    ensures
        first_index(s, c) == k,
    decreases k,
{
    if k > 0 {
        lemma_first_index_at(s.drop_first(), c, k - 1);
    }
}

pub(crate) proof fn lemma_first_ws_index_at(s: Seq<char>, k: int)
    requires
        0 <= k <= s.len(),
        forall|j: int| 0 <= j < k ==> !is_unicode_ws(s[j]),
        k == s.len() || is_unicode_ws(s[k]),
    ensures
        first_ws_index(s) == k,
    decreases k,
{
    if k > 0 {
        lemma_first_ws_index_at(s.drop_first(), k - 1);
    }
}

pub(crate) proof fn lemma_first_ws_index(s: Seq<char>)
    ensures
        first_ws_index(s) <= s.len(),
        first_ws_index(s) < s.len() ==> is_unicode_ws(s[first_ws_index(s) as int]),
        forall|j: int| 0 <= j < first_ws_index(s) ==> !is_unicode_ws(s[j]),
    decreases s.len(),
{
    if s.len() > 0 && !is_unicode_ws(s[0]) {
        lemma_first_ws_index(s.drop_first());
        assert forall|j: int| 0 <= j < first_ws_index(s) implies !is_unicode_ws(s[j]) by {
            if j > 0 {
                assert(s[j] == s.drop_first()[j - 1]);
            }
        }
    }
}

proof fn lemma_trim_start_skip(s: Seq<char>, k: int)
    requires
        0 <= k <= s.len(),
        forall|j: int| 0 <= j < k ==> is_unicode_ws(s[j]),
    ensures
        trim_start(s) == trim_start(s.skip(k)),
    decreases k,
{
    if k > 0 {
        assert(s.skip(k) =~= s.drop_first().skip(k - 1));
        lemma_trim_start_skip(s.drop_first(), k - 1);
    } else {
        assert(s.skip(0) =~= s);
    }
}

proof fn lemma_trim_end_take(s: Seq<char>, k: int)
    requires
        0 <= k <= s.len(),
        forall|j: int| k <= j < s.len() ==> is_unicode_ws(s[j]),
    ensures
        trim_end(s) == trim_end(s.take(k)),
    decreases s.len() - k,
{
    if k < s.len() {
        assert(s.take(k) =~= s.drop_last().take(k));
        lemma_trim_end_take(s.drop_last(), k);
    } else {
        assert(s.take(k) =~= s);
    }
}

// ---------------------------------------------------------------------------
// Executable helpers

/// Decides `char::is_whitespace`.
pub(crate) fn is_whitespace(c: char) -> (b: bool)
    ensures
        b == is_unicode_ws(c),
{
    let u = c as u32;
    (0x09 <= u && u <= 0x0D) || u == 0x20 || u == 0x85 || u == 0xA0 || u == 0x1680 || (0x2000
        <= u && u <= 0x200A) || u == 0x2028 || u == 0x2029 || u == 0x202F || u == 0x205F || u
        == 0x3000
}

/// Decides `u8::is_ascii_whitespace` on a character.
pub(crate) fn is_ascii_whitespace(c: char) -> (b: bool)
    ensures
        b == is_ascii_ws(c),
{
    c == ' ' || c == '\t' || c == '\n' || c == '\x0C' || c == '\r'
}

/// The characters of a string slice, in order.
pub(crate) fn chars_of(s: &str) -> (out: Vec<char>)
    ensures
        out@ == s@,
{
    let mut out: Vec<char> = Vec::new();
    for c in it: s.chars()
        invariant
            out@ == it.seq().take(it.index()),
    {
        out.push(c);
    }
    out
}

/// Appends the characters of `s` to `out`.
pub(crate) fn push_str(out: &mut Vec<char>, s: &str)
    ensures
        final(out)@ == old(out)@ + s@,
{
    let ghost start = out@;
    for c in it: s.chars()
        invariant
            out@ == start + it.seq().take(it.index()),
    {
        out.push(c);
        proof {
            assert(it.seq().take(it.index() + 1) =~= it.seq().take(it.index()).push(c));
        }
    }
}

/// Appends `s[lo..hi]` to `out`.
pub(crate) fn push_range(out: &mut Vec<char>, s: &[char], lo: usize, hi: usize)
    requires
        lo <= hi <= s@.len(),
    ensures
        final(out)@ == old(out)@ + s@.subrange(lo as int, hi as int),
{
    let ghost start = out@;
    let mut i = lo;
    while i < hi
        invariant
            lo <= i <= hi <= s@.len(),
            out@ == start + s@.subrange(lo as int, i as int),
        decreases hi - i,
    {
        out.push(s[i]);
        proof {
            assert(s@.subrange(lo as int, i + 1) =~= s@.subrange(lo as int, i as int).push(s@[i as int]));
        }
        i = i + 1;
    }
}

/// Bounds of `s[lo..hi]` with leading Unicode white space removed.
pub(crate) fn trim_start_from(s: &[char], lo: usize, hi: usize) -> (start: usize)
    requires
        lo <= hi <= s@.len(),
    ensures
        lo <= start <= hi,
        s@.subrange(start as int, hi as int) == trim_start(s@.subrange(lo as int, hi as int)),
{
    let mut i = lo;
    while i < hi && is_whitespace(s[i])
        invariant
            lo <= i <= hi <= s@.len(),
            forall|j: int| lo <= j < i ==> is_unicode_ws(s@[j]),
        decreases hi - i,
    {
        i = i + 1;
    }
    proof {
        let t = s@.subrange(lo as int, hi as int);
        lemma_trim_start_skip(t, i - lo);
        assert(t.skip(i - lo) =~= s@.subrange(i as int, hi as int));
    }
    i
}

/// Bounds of `s[lo..hi]` with leading and trailing Unicode white space removed.
pub(crate) fn trim_range(s: &[char], lo: usize, hi: usize) -> (bounds: (usize, usize))
    requires
        lo <= hi <= s@.len(),
    ensures
        lo <= bounds.0 <= bounds.1 <= hi,
        s@.subrange(bounds.0 as int, bounds.1 as int) == trim(s@.subrange(lo as int, hi as int)),
{
    let start = trim_start_from(s, lo, hi);
    let mut end = hi;
    while end > start && is_whitespace(s[end - 1])
        invariant
            lo <= start <= end <= hi <= s@.len(),
            forall|j: int| end <= j < hi ==> is_unicode_ws(s@[j]),
        decreases end - start,
    {
        end = end - 1;
    }
    proof {
        let t = s@.subrange(start as int, hi as int);
        lemma_trim_end_take(t, end - start);
        assert(t.take(end - start) =~= s@.subrange(start as int, end as int));
    }
    (start, end)
}

/// Index of the first `c` in `s[lo..hi]`, or `hi` when there is none.
pub(crate) fn find_char(s: &[char], lo: usize, hi: usize, c: char) -> (k: usize)
    requires
        lo <= hi <= s@.len(),
    ensures
        lo <= k <= hi,
        k - lo == first_index(s@.subrange(lo as int, hi as int), c),
{
    let mut i = lo;
    while i < hi && s[i] != c
        invariant
            lo <= i <= hi <= s@.len(),
            forall|j: int| lo <= j < i ==> s@[j] != c,
        decreases hi - i,
    {
        i = i + 1;
    }
    proof {
        lemma_first_index_at(s@.subrange(lo as int, hi as int), c, i - lo);
    }
    i
}

/// Index of the first Unicode white space in `s[lo..hi]`, or `hi` when there is none.
pub(crate) fn find_whitespace(s: &[char], lo: usize, hi: usize) -> (k: usize)
    requires
        lo <= hi <= s@.len(),
    ensures
        lo <= k <= hi,
        k - lo == first_ws_index(s@.subrange(lo as int, hi as int)),
{
    let mut i = lo;
    while i < hi && !is_whitespace(s[i])
        invariant
            lo <= i <= hi <= s@.len(),
            forall|j: int| lo <= j < i ==> !is_unicode_ws(s@[j]),
        decreases hi - i,
    {
        i = i + 1;
    }
    proof {
        lemma_first_ws_index_at(s@.subrange(lo as int, hi as int), i - lo);
    }
    i
}

/// `<u16 as FromStr>::from_str` applied to `s[lo..hi]`, with the error dropped.
pub(crate) fn parse_u16(s: &[char], lo: usize, hi: usize) -> (r: Option<u16>)
    requires
        lo <= hi <= s@.len(),
    ensures
        r == parse_u16_spec(s@.subrange(lo as int, hi as int)),
{
    let ghost whole = s@.subrange(lo as int, hi as int);
    let mut i = lo;
    if i < hi && s[i] == '+' {
        i = i + 1;
    }
    let ghost digits = s@.subrange(i as int, hi as int);
    proof {
        if lo < hi && s@[lo as int] == '+' {
            assert(digits =~= whole.drop_first());
        } else {
            assert(digits =~= whole);
        }
    }
    let ghost expected = if digits.len() > 0 && all_digits(digits) && digits_value(digits) <= 0xFFFF {
        Some(digits_value(digits) as u16)
    } else {
        None
    };
    assert(parse_u16_spec(whole) == expected);
    if i == hi {
        return None;
    }
    let start = i;
    // The value saturates at 65536 so that it cannot overflow.
    let mut acc: u32 = 0;
    while i < hi
        invariant
            start <= i <= hi <= s@.len(),
            digits == s@.subrange(start as int, hi as int),
            parse_u16_spec(s@.subrange(lo as int, hi as int)) == expected,
            expected == (if digits.len() > 0 && all_digits(digits) && digits_value(digits) <= 0xFFFF {
                Some(digits_value(digits) as u16)
            } else {
                None
            }),
            all_digits(s@.subrange(start as int, i as int)),
            acc as nat == if digits_value(s@.subrange(start as int, i as int)) < 65536 {
                digits_value(s@.subrange(start as int, i as int))
            } else {
                65536
            },
        decreases hi - i,
    {
        let c = s[i];
        let u = c as u32;
        if !(48 <= u && u <= 57) {
            proof {
                assert(digits[i - start] == c);
            }
            return None;
        }
        let d = u - 48;
        let ghost prefix = s@.subrange(start as int, i as int);
        let ghost next = s@.subrange(start as int, i + 1);
        proof {
            assert(next.drop_last() =~= prefix);
            assert(next.last() == c);
        }
        if acc * 10 + d >= 65536 {
            acc = 65536;
        } else {
            acc = acc * 10 + d;
        }
        i = i + 1;
    }
    proof {
        assert(s@.subrange(start as int, i as int) =~= digits);
    }
    if acc >= 65536 {
        None
    } else {
        Some(acc as u16)
    }
}

/// The decimal digits of `n`, appended to `out`.
pub(crate) fn push_decimal(out: &mut Vec<char>, n: u64)
    ensures
        final(out)@ == old(out)@ + decimal(n as nat),
    decreases n,
{
    if n >= 10 {
        push_decimal(out, n / 10);
    }
    let d = (n % 10) as u8;
    let c = (48u8 + d) as char;
    proof {
        assert(c == digit_char((n % 10) as nat));
    }
    out.push(c);
}

/// A `String` holding exactly the given characters.
///
/// Calls `FromIterator<char>` for `String` (through `Iterator::collect`),
/// which the standard library documents as concatenating the characters in
/// order; the contract claims just that.
#[verifier::external_body]
pub(crate) fn string_from_chars(chars: &[char]) -> (s: String)
    ensures
        s@ == chars@,
{
    chars.iter().collect()
}

/// The standard library's `Debug` rendering of a string slice.
///
/// Calls `<str as Debug>::fmt` through `format!`. The contract only names
/// the result: it is `str_debug` of the characters, a function of them
/// alone. The quoting and escaping rules themselves are left unstated.
#[verifier::external_body]
pub(crate) fn debug_str(s: &str) -> (r: String)
    ensures
        r@ == str_debug(s@),
{
    format!("{:?}", s)
}

} // verus!
