//! Decoding of the quoted payload strings of the UDP probe database.
//!
//! A payload is one or more double-quoted strings separated by ASCII white
//! space. Inside a string, `\x` followed by two hexadecimal digits and the
//! escapes `\n`, `\r`, `\t`, `\0`, `\\` and `\"` stand for single bytes; every
//! other character stands for its UTF-8 bytes. Decoding stops before the first
//! character after a closing quote that neither is white space nor opens
//! another string, so metadata after the payload is ignored.
use crate::text::{chars_of, is_ascii_whitespace, is_ascii_ws, trim_start, trim_start_from};
use vstd::prelude::*;
use vstd::utf8::{encode_scalar, encode_utf8};

verus! {

/// Why a payload could not be decoded.
#[derive(Debug, Clone, Copy, PartialEq, Eq, Structural)]
pub enum PayloadError {
    /// The text does not start (after white space) with a double quote.
    NotQuoted,
    /// A string is not closed before the end of the text.
    Unterminated,
    /// A backslash ends the text.
    IncompleteEscape,
    /// `\x` is not followed by two hexadecimal digits.
    BadHexEscape,
    /// A backslash is followed by a character that starts no escape.
    UnsupportedEscape,
}

/// The message that `decode_payload` reports for each error.
pub open spec fn payload_error_text(e: PayloadError) -> Seq<char> {
    match e {
        PayloadError::NotQuoted => "expected a quoted payload"@,
        PayloadError::Unterminated => "unterminated payload string"@,
        PayloadError::IncompleteEscape => "incomplete escape"@,
        PayloadError::BadHexEscape => "expected two hex digits after \\x"@,
        PayloadError::UnsupportedEscape => "unsupported escape"@,
    }
}

/// The value of a hexadecimal digit of either case.
pub open spec fn hex_digit_value(c: char) -> Option<u8> {
    let u = c as u32;
    if 48 <= u <= 57 {
        Some((u - 48) as u8)
    } else if 97 <= u <= 102 {
        Some((u - 87) as u8)
    } else if 65 <= u <= 70 {
        Some((u - 55) as u8)
    } else {
        None
    }
}

/// The byte that the escape starting with the backslash at `s[i]` stands for.
pub open spec fn escape_value(s: Seq<char>, i: int) -> Result<u8, PayloadError> {
    if s.len() - i <= 1 {
        Err(PayloadError::IncompleteEscape)
    } else {
        let c = s[i + 1];
        if c == 'x' {
            if i + 3 < s.len() && hex_digit_value(s[i + 2]) is Some && hex_digit_value(
                s[i + 3],
            ) is Some {
                Ok((16 * hex_digit_value(s[i + 2])->0 + hex_digit_value(s[i + 3])->0) as u8)
            } else {
                Err(PayloadError::BadHexEscape)
            }
        } else if c == 'n' {
            Ok(10)
        } else if c == 'r' {
            Ok(13)
        } else if c == 't' {
            Ok(9)
        } else if c == '0' {
            Ok(0)
        } else if c == '\\' {
            Ok(92)
        } else if c == '"' {
            Ok(34)
        } else {
            Err(PayloadError::UnsupportedEscape)
        }
    }
}

/// How many characters the escape starting at `s[i]` occupies.
pub open spec fn escape_width(s: Seq<char>, i: int) -> int {
    if i + 1 < s.len() && s[i + 1] == 'x' {
        4
    } else {
        2
    }
}

/// `bytes` followed by what `r` decoded, or the error of `r`.
pub open spec fn prepend(bytes: Seq<u8>, r: Result<Seq<u8>, PayloadError>) -> Result<
    Seq<u8>,
    PayloadError,
> {
    match r {
        Ok(rest) => Ok(bytes + rest),
        Err(e) => Err(e),
    }
}

/// Decoding from `s[i]` on, outside any string: white space is skipped, a
/// quote opens a string, anything else (or the end) ends the payload.
pub open spec fn payload_between(s: Seq<char>, i: int) -> Result<Seq<u8>, PayloadError>
    decreases s.len() - i,
{
    if i < 0 || i >= s.len() {
        Ok(seq![])
    } else if is_ascii_ws(s[i]) {
        payload_between(s, i + 1)
    } else if s[i] == '"' {
        payload_inside(s, i + 1)
    } else {
        Ok(seq![])
    }
}

/// Decoding from `s[i]` on, inside a string.
pub open spec fn payload_inside(s: Seq<char>, i: int) -> Result<Seq<u8>, PayloadError>
    decreases s.len() - i,
{
    if i < 0 || i >= s.len() {
        Err(PayloadError::Unterminated)
    } else if s[i] == '"' {
        payload_between(s, i + 1)
    } else if s[i] == '\\' {
        match escape_value(s, i) {
            Err(e) => Err(e),
            Ok(b) => prepend(seq![b], payload_inside(s, i + escape_width(s, i))),
        }
    } else {
        prepend(encode_scalar(s[i] as u32), payload_inside(s, i + 1))
    }
}

/// The bytes of the payload written in `s`, or why there are none.
pub open spec fn decode_payload_spec(s: Seq<char>) -> Result<Seq<u8>, PayloadError> {
    let t = trim_start(s);
    if t.len() > 0 && t[0] == '"' {
        payload_between(t, 0)
    } else {
        Err(PayloadError::NotQuoted)
    }
}

/// `decode_payload_spec` with its error turned into the reported message.
pub open spec fn decode_payload_result(s: Seq<char>) -> Result<Seq<u8>, Seq<char>> {
    match decode_payload_spec(s) {
        Ok(bytes) => Ok(bytes),
        Err(e) => Err(payload_error_text(e)),
    }
}

/// The message of a payload error.
pub(crate) fn error_text(e: PayloadError) -> (m: &'static str)
    ensures
        m@ == payload_error_text(e),
{
    match e {
        PayloadError::NotQuoted => "expected a quoted payload",
        PayloadError::Unterminated => "unterminated payload string",
        PayloadError::IncompleteEscape => "incomplete escape",
        PayloadError::BadHexEscape => "expected two hex digits after \\x",
        PayloadError::UnsupportedEscape => "unsupported escape",
    }
}

fn hex_digit(c: char) -> (r: Option<u8>)
    ensures
        r == hex_digit_value(c),
{
    let u = c as u32;
    if 48 <= u && u <= 57 {
        Some((u - 48) as u8)
    } else if 97 <= u && u <= 102 {
        Some((u - 87) as u8)
    } else if 65 <= u && u <= 70 {
        Some((u - 55) as u8)
    } else {
        None
    }
}

/// Decodes the escape whose backslash is at `s[i]`; on success also returns
/// how many characters it occupies.
fn decode_escape(s: &[char], i: usize) -> (r: Result<(u8, usize), PayloadError>)
    requires
        i < s@.len(),
        s@[i as int] == '\\',
    ensures
        match r {
            Ok((b, w)) => escape_value(s@, i as int) == Ok::<u8, PayloadError>(b) && w
                == escape_width(s@, i as int),
            Err(e) => escape_value(s@, i as int) == Err::<u8, PayloadError>(e),
        },
{
    if s.len() - i <= 1 {
        return Err(PayloadError::IncompleteEscape);
    }
    let c = s[i + 1];
    if c == 'x' {
        if s.len() - i > 3 {
            match (hex_digit(s[i + 2]), hex_digit(s[i + 3])) {
                (Some(high), Some(low)) => Ok((16 * high + low, 4)),
                _ => Err(PayloadError::BadHexEscape),
            }
        } else {
            Err(PayloadError::BadHexEscape)
        }
    } else if c == 'n' {
        Ok((10, 2))
    } else if c == 'r' {
        Ok((13, 2))
    } else if c == 't' {
        Ok((9, 2))
    } else if c == '0' {
        Ok((0, 2))
    } else if c == '\\' {
        Ok((92, 2))
    } else if c == '"' {
        Ok((34, 2))
    } else {
        Err(PayloadError::UnsupportedEscape)
    }
}

/// Appends the UTF-8 encoding of `c` to `out`.
pub(crate) fn push_utf8(out: &mut Vec<u8>, c: char)
    ensures
        final(out)@ == old(out)@ + encode_scalar(c as u32),
{
    let u = c as u32;
    proof {
        vstd::utf8::char_is_scalar(c);
    }
    if u <= 0x7F {
        out.push((u & 0x7F) as u8);
    } else if u <= 0x7FF {
        out.push(0xC0 | ((u >> 6) & 0x1F) as u8);
        out.push(0x80 | (u & 0x3F) as u8);
    } else if u <= 0xFFFF {
        out.push(0xE0 | ((u >> 12) & 0x0F) as u8);
        out.push(0x80 | ((u >> 6) & 0x3F) as u8);
        out.push(0x80 | (u & 0x3F) as u8);
    } else {
        out.push(0xF0 | ((u >> 18) & 0x7) as u8);
        out.push(0x80 | ((u >> 12) & 0x3F) as u8);
        out.push(0x80 | ((u >> 6) & 0x3F) as u8);
        out.push(0x80 | (u & 0x3F) as u8);
    }
}

/// Decodes the payload written in `s`.
pub(crate) fn decode_chars(s: &[char]) -> (r: Result<Vec<u8>, PayloadError>)
    ensures
        match r {
            Ok(bytes) => decode_payload_spec(s@) == Ok::<Seq<u8>, PayloadError>(bytes@),
            Err(e) => decode_payload_spec(s@) == Err::<Seq<u8>, PayloadError>(e),
        },
{
    let start = trim_start_from(s, 0, s.len());
    proof {
        assert(s@.subrange(0, s@.len() as int) =~= s@);
    }
    if start == s.len() || s[start] != '"' {
        return Err(PayloadError::NotQuoted);
    }
    let t = vstd::slice::slice_subrange(s, start, s.len());
    let n = t.len();
    let mut out: Vec<u8> = Vec::new();
    let mut i: usize = 0;
    let mut inside = false;
    assert(out@ + payload_between(t@, 0)->Ok_0 =~= payload_between(t@, 0)->Ok_0);
    loop
        invariant
            n == t@.len(),
            i <= n,
            decode_payload_spec(s@) == payload_between(t@, 0),
            payload_between(t@, 0) == prepend(
                out@,
                if inside {
                    payload_inside(t@, i as int)
                } else {
                    payload_between(t@, i as int)
                },
            ),
        decreases n - i,
    {
        let ghost before = out@;
        if !inside {
            if i >= n {
                assert(out@ + seq![] =~= out@);
                return Ok(out);
            }
            let c = t[i];
            if is_ascii_whitespace(c) {
                i = i + 1;
            } else if c == '"' {
                inside = true;
                i = i + 1;
            } else {
                assert(out@ + seq![] =~= out@);
                return Ok(out);
            }
        } else {
            if i >= n {
                return Err(PayloadError::Unterminated);
            }
            let c = t[i];
            if c == '"' {
                inside = false;
                i = i + 1;
            } else if c == '\\' {
                match decode_escape(t, i) {
                    Err(e) => {
                        return Err(e);
                    },
                    Ok((b, w)) => {
                        out.push(b);
                        proof {
                            let rest = payload_inside(t@, i + w);
                            if rest is Ok {
                                assert(before + (seq![b] + rest->Ok_0) =~= out@ + rest->Ok_0);
                            }
                        }
                        i = i + w;
                    },
                }
            } else {
                push_utf8(&mut out, c);
                proof {
                    let rest = payload_inside(t@, i + 1);
                    let enc = encode_scalar(c as u32);
                    if rest is Ok {
                        assert(before + (enc + rest->Ok_0) =~= out@ + rest->Ok_0);
                    }
                }
                i = i + 1;
            }
        }
    }
}

/// Decodes consecutive quoted strings, stopping before optional entry metadata.
pub fn decode_payload(input: &str) -> (r: Result<Vec<u8>, &'static str>)
    ensures
        match r {
            Ok(bytes) => decode_payload_result(input@) == Ok::<Seq<u8>, Seq<char>>(bytes@),
            Err(m) => decode_payload_result(input@) == Err::<Seq<u8>, Seq<char>>(m@),
        },
{
    let chars = chars_of(input);
    match decode_chars(chars.as_slice()) {
        Ok(bytes) => Ok(bytes),
        Err(e) => Err(error_text(e)),
    }
}


// ---------------------------------------------------------------------------
// Laws

/// The text after its leading ASCII white space.
pub open spec fn skip_ascii_ws(m: Seq<char>) -> Seq<char>
    decreases m.len(),
{
    if m.len() > 0 && is_ascii_ws(m[0]) {
        skip_ascii_ws(m.drop_first())
    } else {
        m
    }
}

/// Text that cannot continue a payload: after any ASCII white space it
/// ends, or goes on with a character other than a double quote.
pub open spec fn is_metadata(m: Seq<char>) -> bool {
    let rest = skip_ascii_ws(m);
    rest.len() == 0 || rest[0] != '"'
}

/// Once a payload's strings are closed at `t.len()`, text that cannot
/// continue it is skipped without adding bytes.
proof fn lemma_metadata_tail(t: Seq<char>, m: Seq<char>, j: int)
    requires
        0 <= j <= m.len(),
        is_metadata(m.skip(j)),
    ensures
        payload_between(t + m, t.len() + j) == Ok::<Seq<u8>, PayloadError>(Seq::empty()),
    decreases m.len() - j,
{
    let s = t + m;
    let i = t.len() + j;
    if j < m.len() {
        assert(s[i] == m[j]);
        assert(m.skip(j)[0] == m[j]);
        if is_ascii_ws(m[j]) {
            assert(m.skip(j).drop_first() =~= m.skip(j + 1));
            lemma_metadata_tail(t, m, j + 1);
        }
    }
}

proof fn lemma_trim_start_append(a: Seq<char>, b: Seq<char>)
    requires
        trim_start(a).len() > 0,
    ensures
        trim_start(a + b) == trim_start(a) + b,
    decreases a.len(),
{
    if a.len() > 0 && crate::text::is_unicode_ws(a[0]) {
        assert((a + b).drop_first() =~= a.drop_first() + b);
        lemma_trim_start_append(a.drop_first(), b);
    } else {
        assert(a.len() > 0);
        assert((a + b)[0] == a[0]);
    }
}

proof fn lemma_escape_append(t: Seq<char>, m: Seq<char>, i: int)
    requires
        0 <= i < t.len(),
        escape_value(t, i) is Ok,
    ensures
        escape_value(t + m, i) == escape_value(t, i),
        escape_width(t + m, i) == escape_width(t, i),
        i + escape_width(t, i) <= t.len(),
{
    assert((t + m)[i + 1] == t[i + 1]);
    if t[i + 1] == 'x' {
        assert((t + m)[i + 2] == t[i + 2]);
        assert((t + m)[i + 3] == t[i + 3]);
    }
}

proof fn lemma_between_append(t: Seq<char>, m: Seq<char>, i: int)
    requires
        0 <= i <= t.len(),
        is_metadata(m),
        payload_between(t, i) is Ok,
    ensures
        payload_between(t + m, i) == payload_between(t, i),
    decreases t.len() - i, 1int,
{
    if i == t.len() {
        assert(m.skip(0) =~= m);
        lemma_metadata_tail(t, m, 0);
    } else {
        assert((t + m)[i] == t[i]);
        if is_ascii_ws(t[i]) {
            lemma_between_append(t, m, i + 1);
        } else if t[i] == '"' {
            lemma_inside_append(t, m, i + 1);
        }
    }
}

proof fn lemma_inside_append(t: Seq<char>, m: Seq<char>, i: int)
    requires
        0 <= i <= t.len(),
        is_metadata(m),
        payload_inside(t, i) is Ok,
    ensures
        payload_inside(t + m, i) == payload_inside(t, i),
    decreases t.len() - i, 0int,
{
    if i < t.len() {
        assert((t + m)[i] == t[i]);
        if t[i] == '"' {
            lemma_between_append(t, m, i + 1);
        } else if t[i] == '\\' {
            lemma_escape_append(t, m, i);
            lemma_inside_append(t, m, i + escape_width(t, i));
        } else {
            lemma_inside_append(t, m, i + 1);
        }
    }
}

/// Optional metadata after a payload is ignored: appending to a payload that
/// decodes any text that, after ASCII white space, ends or does not open
/// another string (such as ` source 161`, or nothing at all) leaves the
/// decoded bytes unchanged.
pub proof fn law_metadata_ignored(payload: Seq<char>, metadata: Seq<char>)
    requires
        decode_payload_spec(payload) is Ok,
        is_metadata(metadata),
    ensures
        decode_payload_spec(payload + metadata) == decode_payload_spec(payload),
{
    let t = trim_start(payload);
    lemma_trim_start_append(payload, metadata);
    assert(t.len() > 0);
    assert((t + metadata)[0] == t[0]);
    lemma_between_append(t, metadata, 0);
}


/// A double quote.
pub open spec fn quote() -> Seq<char> {
    seq!['"']
}

/// Quoted text without quotes or backslashes decodes to its own UTF-8
/// bytes: white space and non-ASCII characters inside the quotes are kept.
pub proof fn law_plain_string(s: Seq<char>)
    requires
        forall|i: int| 0 <= i < s.len() ==> s[i] != '"' && s[i] != '\\',
    ensures
        decode_payload_spec(quote() + s + quote()) == Ok::<Seq<u8>, PayloadError>(
            encode_utf8(s),
        ),
{
    let t = quote() + s + quote();
    assert(t[0] == '"');
    assert(trim_start(t) == t);
    lemma_plain_inside(s, 0);
    assert(s.skip(0) =~= s);
}

proof fn lemma_plain_inside(s: Seq<char>, j: int)
    requires
        0 <= j <= s.len(),
        forall|i: int| 0 <= i < s.len() ==> s[i] != '"' && s[i] != '\\',
    ensures
        payload_inside(quote() + s + quote(), 1 + j) == Ok::<Seq<u8>, PayloadError>(
            encode_utf8(s.skip(j)),
        ),
    decreases s.len() - j,
{
    let t = quote() + s + quote();
    assert(t.len() == s.len() + 2);
    if j == s.len() {
        assert(t[1 + j] == '"');
        assert(s.skip(j) =~= Seq::<char>::empty());
        assert(encode_utf8(s.skip(j)) == Seq::<u8>::empty());
        assert(payload_between(t, 2 + j) == Ok::<Seq<u8>, PayloadError>(Seq::empty()));
    } else {
        assert(t[1 + j] == s[j]);
        lemma_plain_inside(s, j + 1);
        assert(s.skip(j).drop_first() =~= s.skip(j + 1));
        assert(s.skip(j)[0] == s[j]);
        assert(encode_utf8(s.skip(j)) == encode_scalar(s[j] as u32) + encode_utf8(s.skip(j + 1)));
        assert(payload_inside(t, 1 + j) == prepend(
            encode_scalar(s[j] as u32),
            payload_inside(t, 2 + j),
        ));
    }
}

/// The hexadecimal digit for `d` (below 16), in upper or lower case.
pub open spec fn hex_char(d: int, upper: bool) -> char {
    if d < 10 {
        ('0' as u32 + d) as char
    } else if upper {
        ('A' as u32 + d - 10) as char
    } else {
        ('a' as u32 + d - 10) as char
    }
}

/// The bytes written as `\xNN` escapes, one after the other.
pub open spec fn hex_escapes(b: Seq<u8>, upper: bool) -> Seq<char>
    decreases b.len(),
{
    if b.len() == 0 {
        Seq::empty()
    } else {
        seq!['\\', 'x', hex_char((b[0] / 16) as int, upper), hex_char((b[0] % 16) as int, upper)] + hex_escapes(
            b.drop_first(),
            upper,
        )
    }
}

proof fn lemma_hex_char(d: int, upper: bool)
    requires
        0 <= d < 16,
    ensures
        hex_digit_value(hex_char(d, upper)) == Some(d as u8),
{
}

proof fn lemma_hex_inside(b: Seq<u8>, upper: bool, prefix: Seq<char>)
    requires
        prefix.len() > 0,
    ensures
        payload_inside(prefix + hex_escapes(b, upper) + quote(), prefix.len() as int) == prepend(
            b,
            payload_between(
                prefix + hex_escapes(b, upper) + quote(),
                (prefix.len() + hex_escapes(b, upper).len() + 1) as int,
            ),
        ),
    decreases b.len(),
{
    let hx = hex_escapes(b, upper);
    let t = prefix + hx + quote();
    let i = prefix.len() as int;
    if b.len() == 0 {
        assert(t[i] == '"');
        let rest = payload_between(t, i + 1);
        if rest is Ok {
            assert(b + rest->Ok_0 =~= rest->Ok_0);
        }
    } else {
        let x = b[0];
        let first = seq!['\\', 'x', hex_char((x / 16) as int, upper), hex_char((x % 16) as int, upper)];
        let tail = hex_escapes(b.drop_first(), upper);
        assert(hx == first + tail);
        let prefix2 = prefix + first;
        assert(t =~= prefix2 + tail + quote());
        assert(t[i] == '\\');
        assert(t[i + 1] == 'x');
        assert(t[i + 2] == hex_char((x / 16) as int, upper));
        assert(t[i + 3] == hex_char((x % 16) as int, upper));
        lemma_hex_char((x / 16) as int, upper);
        lemma_hex_char((x % 16) as int, upper);
        assert(escape_value(t, i) == Ok::<u8, PayloadError>(x));
        assert(escape_width(t, i) == 4);
        lemma_hex_inside(b.drop_first(), upper, prefix2);
        let rest = payload_between(t, (prefix.len() + hx.len() + 1) as int);
        if rest is Ok {
            assert(seq![x] + (b.drop_first() + rest->Ok_0) =~= b + rest->Ok_0);
        }
    }
}

/// A quoted run of `\xNN` escapes, with digits of either case, decodes to
/// the bytes they write.
pub proof fn law_hex_string(b: Seq<u8>, upper: bool)
    ensures
        decode_payload_spec(quote() + hex_escapes(b, upper) + quote()) == Ok::<
            Seq<u8>,
            PayloadError,
        >(b),
{
    let t = quote() + hex_escapes(b, upper) + quote();
    assert(t[0] == '"');
    assert(trim_start(t) == t);
    lemma_hex_inside(b, upper, quote());
    let end = (1 + hex_escapes(b, upper).len() + 1) as int;
    assert(t.len() == end);
    assert(payload_between(t, end) == Ok::<Seq<u8>, PayloadError>(Seq::empty()));
    assert(b + Seq::<u8>::empty() =~= b);
}


/// Decoding `s` from `s[i]` on (inside a string or not) reads every
/// character up to the end and finishes outside any string: no error, and
/// nothing after the strings but ASCII white space.
pub open spec fn reads_to_end(s: Seq<char>, i: int, inside: bool) -> bool
    decreases s.len() - i,
{
    if i < 0 || i >= s.len() {
        !inside
    } else if !inside {
        if is_ascii_ws(s[i]) {
            reads_to_end(s, i + 1, false)
        } else if s[i] == '"' {
            reads_to_end(s, i + 1, true)
        } else {
            false
        }
    } else if s[i] == '"' {
        reads_to_end(s, i + 1, false)
    } else if s[i] == '\\' {
        escape_value(s, i) is Ok && reads_to_end(s, i + escape_width(s, i), true)
    } else {
        reads_to_end(s, i + 1, true)
    }
}

/// One or more complete quoted strings separated by ASCII white space.
pub open spec fn quoted_strings(q: Seq<char>) -> bool {
    q.len() > 0 && q[0] == '"' && reads_to_end(q, 0, false)
}

/// Only ASCII white space.
pub open spec fn all_ascii_ws(w: Seq<char>) -> bool {
    forall|i: int| 0 <= i < w.len() ==> is_ascii_ws(#[trigger] w[i])
}

/// Decoding from `s[i]` in the given state.
pub open spec fn decoding_from(s: Seq<char>, i: int, inside: bool) -> Result<Seq<u8>, PayloadError> {
    if inside {
        payload_inside(s, i)
    } else {
        payload_between(s, i)
    }
}

proof fn lemma_shift_escape(a: Seq<char>, b: Seq<char>, j: int)
    requires
        0 <= j < b.len(),
    ensures
        escape_value(a + b, a.len() + j) == escape_value(b, j),
        escape_width(a + b, a.len() + j) == escape_width(b, j),
{
    let s = a + b;
    let i = a.len() + j;
    if j + 1 < b.len() {
        assert(s[i + 1] == b[j + 1]);
    }
    if j + 2 < b.len() {
        assert(s[i + 2] == b[j + 2]);
    }
    if j + 3 < b.len() {
        assert(s[i + 3] == b[j + 3]);
    }
}

/// Decoding does not depend on what comes before the position it starts at.
proof fn lemma_shift(a: Seq<char>, b: Seq<char>, j: int, inside: bool)
    requires
        0 <= j,
    ensures
        decoding_from(a + b, a.len() + j, inside) == decoding_from(b, j, inside),
    decreases b.len() - j,
{
    let s = a + b;
    let i = a.len() + j;
    if j < b.len() {
        assert(s[i] == b[j]);
        if !inside {
            if is_ascii_ws(b[j]) {
                lemma_shift(a, b, j + 1, false);
            } else if b[j] == '"' {
                lemma_shift(a, b, j + 1, true);
            }
        } else if b[j] == '"' {
            lemma_shift(a, b, j + 1, false);
        } else if b[j] == '\\' {
            lemma_shift_escape(a, b, j);
            if escape_value(b, j) is Ok {
                lemma_shift(a, b, j + escape_width(b, j), true);
            }
        } else {
            lemma_shift(a, b, j + 1, true);
        }
    }
}

/// Skipping ASCII white space outside strings adds nothing.
proof fn lemma_skip_ws(w: Seq<char>, q: Seq<char>, j: int)
    requires
        0 <= j <= w.len(),
        all_ascii_ws(w),
    ensures
        payload_between(w + q, j) == payload_between(w + q, w.len() as int),
    decreases w.len() - j,
{
    if j < w.len() {
        assert((w + q)[j] == w[j]);
        lemma_skip_ws(w, q, j + 1);
    }
}

/// Decoding a text that reads to its end, followed by anything, gives the
/// text's bytes followed by what the rest decodes to.
proof fn lemma_concat(t: Seq<char>, m: Seq<char>, i: int, inside: bool)
    requires
        0 <= i <= t.len(),
        reads_to_end(t, i, inside),
    ensures
        decoding_from(t, i, inside) is Ok,
        decoding_from(t + m, i, inside) == prepend(
            decoding_from(t, i, inside)->Ok_0,
            payload_between(t + m, t.len() as int),
        ),
    decreases t.len() - i,
{
    let s = t + m;
    let rest = payload_between(s, t.len() as int);
    if i == t.len() {
        if rest is Ok {
            assert(Seq::<u8>::empty() + rest->Ok_0 =~= rest->Ok_0);
        }
    } else {
        assert(s[i] == t[i]);
        if !inside {
            if is_ascii_ws(t[i]) {
                lemma_concat(t, m, i + 1, false);
            } else {
                lemma_concat(t, m, i + 1, true);
            }
        } else if t[i] == '"' {
            lemma_concat(t, m, i + 1, false);
        } else if t[i] == '\\' {
            lemma_escape_append(t, m, i);
            let w = escape_width(t, i);
            lemma_concat(t, m, i + w, true);
            let b = escape_value(t, i)->Ok_0;
            let tail = decoding_from(t, i + w, true)->Ok_0;
            if rest is Ok {
                assert(seq![b] + (tail + rest->Ok_0) =~= (seq![b] + tail) + rest->Ok_0);
            }
        } else {
            lemma_concat(t, m, i + 1, true);
            let e = encode_scalar(t[i] as u32);
            let tail = decoding_from(t, i + 1, true)->Ok_0;
            if rest is Ok {
                assert(e + (tail + rest->Ok_0) =~= (e + tail) + rest->Ok_0);
            }
        }
    }
}

/// Two payloads written one after the other, with only ASCII white space
/// between them, decode to the bytes of the first followed by those of the
/// second.
pub proof fn law_payloads_concatenate(q1: Seq<char>, w: Seq<char>, q2: Seq<char>)
    requires
        quoted_strings(q1),
        quoted_strings(q2),
        all_ascii_ws(w),
    ensures
        decode_payload_spec(q1) is Ok,
        decode_payload_spec(q2) is Ok,
        decode_payload_spec(q1 + w + q2) == Ok::<Seq<u8>, PayloadError>(
            decode_payload_spec(q1)->Ok_0 + decode_payload_spec(q2)->Ok_0,
        ),
{
    let all = q1 + w + q2;
    assert(all =~= q1 + (w + q2));
    assert(all[0] == '"');
    assert(trim_start(all) == all);
    assert(trim_start(q1) == q1);
    assert(trim_start(q2) == q2);
    lemma_concat(q1, w + q2, 0, false);
    lemma_concat(q2, Seq::empty(), 0, false);
    assert(q2 + Seq::<char>::empty() =~= q2);
    lemma_shift(q1, w + q2, 0, false);
    lemma_skip_ws(w, q2, 0);
    lemma_shift(w, q2, 0, false);
}

} // verus!
