//! Reading Nmap's legacy UDP payload database without losing entries or
//! variants.
//!
//! The database is a sequence of lines. A `#` outside a quoted string starts
//! a comment. After comments and surrounding white space are removed, blank
//! lines are skipped, a line whose first word is `udp` starts a new entry, and
//! any other line continues the current entry. An entry is `udp`, a
//! comma-separated list of ports and inclusive port ranges, and a payload of
//! quoted strings (see `payload`); anything after the payload is ignored.
use crate::payload::{decode_chars, decode_payload_result, error_text};
use crate::ports::{
    empty_flags, flagged_ports, flags_hold, lemma_sorted_ports, mark_port, mark_range, port_range,
    sorted_ports, strictly_increasing,
};
use crate::text::{
    chars_of, decimal, find_char, find_whitespace, first_index, first_ws_index, parse_u16,
    parse_u16_spec, push_decimal, push_range, push_str, str_debug, string_from_chars, debug_str,
    trim, trim_range, trim_start, trim_start_from,
};
use vstd::prelude::*;

verus! {

/// One database entry: the ports it applies to, ascending and without
/// repetition, and its payload bytes.
#[derive(Debug, PartialEq, Eq)]
pub struct Entry {
    pub ports: Vec<u16>,
    pub payload: Vec<u8>,
}

/// What an `Entry` holds, as mathematical sequences.
pub struct EntryModel {
    pub ports: Seq<u16>,
    pub payload: Seq<u8>,
}

impl View for Entry {
    type V = EntryModel;

    open spec fn view(&self) -> EntryModel {
        EntryModel { ports: self.ports@, payload: self.payload@ }
    }
}

/// The models of a list of entries.
pub open spec fn entry_models(entries: Seq<Entry>) -> Seq<EntryModel> {
    entries.map_values(|e: Entry| e@)
}

/// The word that starts an entry.
pub open spec fn udp_word() -> Seq<char> {
    seq!['u', 'd', 'p']
}

/// Where the comment of a line starts, scanning from `s[i]` in the given
/// quoting state; `s.len()` when the line has no comment. A `#` starts a
/// comment only outside double quotes, and inside quotes a backslash
/// makes the next character ordinary.
pub open spec fn comment_start(s: Seq<char>, i: int, quoted: bool, escaped: bool) -> int
    decreases s.len() - i,
{
    if i < 0 || i >= s.len() {
        s.len() as int
    } else if escaped {
        comment_start(s, i + 1, quoted, false)
    } else if s[i] == '\\' && quoted {
        comment_start(s, i + 1, quoted, true)
    } else if s[i] == '"' {
        comment_start(s, i + 1, !quoted, false)
    } else if s[i] == '#' && !quoted {
        i
    } else {
        comment_start(s, i + 1, quoted, false)
    }
}

/// A line without its comment.
pub open spec fn without_comment_spec(line: Seq<char>) -> Seq<char> {
    line.take(comment_start(line, 0, false, false))
}

/// A line without its comment and without surrounding white space.
pub open spec fn clean_line(line: Seq<char>) -> Seq<char> {
    trim(without_comment_spec(line))
}

/// A cleaned line whose first word is `udp`.
pub open spec fn is_header(line: Seq<char>) -> bool {
    line.take(first_ws_index(line) as int) == udp_word()
}

/// An error message that names the line it is about.
pub open spec fn line_message(line: nat, message: Seq<char>) -> Seq<char> {
    "line "@ + decimal(line) + ": "@ + message
}

/// The reason given for a port that does not parse.
pub open spec fn invalid_port_text(value: Seq<char>) -> Seq<char> {
    "invalid port "@ + str_debug(value)
}

/// The ports of one comma-separated segment: a port or an inclusive range
/// `start-end` (split at the first `-`).
pub open spec fn segment_ports(seg: Seq<char>) -> Result<Set<u16>, Seq<char>> {
    let d = first_index(seg, '-') as int;
    if d < seg.len() {
        let first = seg.take(d);
        let last = seg.skip(d + 1);
        match parse_u16_spec(first) {
            None => Err(invalid_port_text(first)),
            Some(start) => match parse_u16_spec(last) {
                None => Err(invalid_port_text(last)),
                Some(end) => if start > end {
                    Err("reversed port range"@)
                } else {
                    Ok(port_range(start, end))
                },
            },
        }
    } else {
        match parse_u16_spec(seg) {
            None => Err(invalid_port_text(seg)),
            Some(port) => Ok(set![port]),
        }
    }
}

/// `acc` together with the ports of `r`, or the error of `r`.
pub open spec fn join_ports(acc: Set<u16>, r: Result<Set<u16>, Seq<char>>) -> Result<
    Set<u16>,
    Seq<char>,
> {
    match r {
        Ok(set) => Ok(acc + set),
        Err(m) => Err(m),
    }
}

/// The ports of a comma-separated port list; the first segment in error
/// decides the error.
pub open spec fn port_list(spec: Seq<char>) -> Result<Set<u16>, Seq<char>>
    decreases spec.len(),
{
    let k = first_index(spec, ',') as int;
    match segment_ports(spec.take(k)) {
        Err(m) => Err(m),
        Ok(set) => if k < spec.len() {
            join_ports(set, port_list(spec.skip(k + 1)))
        } else {
            Ok(set)
        },
    }
}

/// The entry written in `record` (its cleaned lines, each followed by a line
/// feed, the first starting with `udp`) whose header is on line `line`.
#[verifier::opaque]
pub open spec fn entry_spec(record: Seq<char>, line: nat) -> Result<EntryModel, Seq<char>> {
    let rest = trim_start(record.skip(3));
    let p = first_ws_index(rest) as int;
    if p >= rest.len() {
        Err(line_message(line, "expected ports and quoted payload"@))
    } else {
        match port_list(rest.take(p)) {
            Err(reason) => Err(line_message(line, reason)),
            Ok(ports) => match decode_payload_result(rest.skip(p + 1)) {
                Err(reason) => Err(line_message(line, reason)),
                Ok(payload) => Ok(EntryModel { ports: sorted_ports(ports), payload }),
            },
        }
    }
}

/// What has been read so far: the lines of the entry being collected, the
/// line its header is on, and the finished entries.
pub struct ReadState {
    pub current: Seq<char>,
    pub start: nat,
    pub done: Seq<EntryModel>,
}

/// Reading one cleaned line, numbered `number`.
#[verifier::opaque]
pub open spec fn read_line(line: Seq<char>, number: nat, st: ReadState) -> Result<
    ReadState,
    Seq<char>,
> {
    if line.len() == 0 {
        Ok(st)
    } else if is_header(line) {
        if st.current.len() > 0 {
            match entry_spec(st.current, st.start) {
                Err(m) => Err(m),
                Ok(e) => Ok(
                    ReadState { current: line.push('\n'), start: number, done: st.done.push(e) },
                ),
            }
        } else {
            Ok(ReadState { current: line.push('\n'), start: number, done: st.done })
        }
    } else if st.current.len() == 0 {
        Err(line_message(number, "expected udp entry"@))
    } else {
        Ok(ReadState { current: st.current + line.push('\n'), start: st.start, done: st.done })
    }
}

/// The end of the text: the last entry is completed.
#[verifier::opaque]
pub open spec fn read_end(st: ReadState) -> Result<Seq<EntryModel>, Seq<char>> {
    if st.current.len() > 0 {
        match entry_spec(st.current, st.start) {
            Err(m) => Err(m),
            Ok(e) => Ok(st.done.push(e)),
        }
    } else {
        Ok(st.done)
    }
}

/// Reading the lines of `s`, the first of which is numbered `number`.
///
/// Lines are separated by line feeds. A carriage return before a line feed
/// is trailing white space that cleaning removes, and an empty last line is
/// blank, so the cleaned lines and their numbers are those of `str::lines`.
pub open spec fn read_lines(s: Seq<char>, number: nat, st: ReadState) -> Result<
    Seq<EntryModel>,
    Seq<char>,
>
    decreases s.len(),
{
    let k = first_index(s, '\n') as int;
    match read_line(clean_line(s.take(k)), number, st) {
        Err(m) => Err(m),
        Ok(next) => if k < s.len() {
            read_lines(s.skip(k + 1), number + 1, next)
        } else {
            read_end(next)
        },
    }
}

/// The entries of a database text, in the order they are written, or the
/// message of the first error.
pub open spec fn parse_spec(s: Seq<char>) -> Result<Seq<EntryModel>, Seq<char>> {
    read_lines(s, 1, ReadState { current: Seq::empty(), start: 0, done: Seq::empty() })
}

// ---------------------------------------------------------------------------

/// `message` prefixed with the number of the line it is about.
pub fn line_error(line: usize, message: &[char]) -> (m: String)
    ensures
        m@ == line_message(line as nat, message@),
{
    let mut out: Vec<char> = Vec::new();
    push_str(&mut out, "line ");
    push_decimal(&mut out, line as u64);
    push_str(&mut out, ": ");
    push_range(&mut out, message, 0, message.len());
    proof {
        assert(message@.subrange(0, message@.len() as int) =~= message@);
    }
    string_from_chars(out.as_slice())
}

/// The reason given when `s[lo..hi]` is not a port.
fn invalid_port(s: &[char], lo: usize, hi: usize) -> (m: Vec<char>)
    requires
        lo <= hi <= s@.len(),
    ensures
        m@ == invalid_port_text(s@.subrange(lo as int, hi as int)),
{
    let value = string_from_chars(vstd::slice::slice_subrange(s, lo, hi));
    let shown = debug_str(value.as_str());
    let mut out: Vec<char> = Vec::new();
    push_str(&mut out, "invalid port ");
    push_str(&mut out, shown.as_str());
    out
}

/// Where the comment of `s[lo..hi]` starts (or `hi`).
fn without_comment(s: &[char], lo: usize, hi: usize) -> (cut: usize)
    requires
        lo <= hi <= s@.len(),
    ensures
        lo <= cut <= hi,
        s@.subrange(lo as int, cut as int) == without_comment_spec(
            s@.subrange(lo as int, hi as int),
        ),
{
    let ghost line = s@.subrange(lo as int, hi as int);
    let mut quoted = false;
    let mut escaped = false;
    let mut i = lo;
    while i < hi
        invariant
            lo <= i <= hi <= s@.len(),
            line == s@.subrange(lo as int, hi as int),
            comment_start(line, 0, false, false) == comment_start(line, i - lo, quoted, escaped),
        decreases hi - i,
    {
        let c = s[i];
        if escaped {
            escaped = false;
        } else if c == '\\' && quoted {
            escaped = true;
        } else if c == '"' {
            quoted = !quoted;
        } else if c == '#' && !quoted {
            proof {
                assert(line.take(i - lo) =~= s@.subrange(lo as int, i as int));
            }
            return i;
        }
        i = i + 1;
    }
    proof {
        assert(line.take(i - lo) =~= s@.subrange(lo as int, i as int));
    }
    i
}

/// Whether the cleaned line `s[lo..hi]` starts an entry.
fn is_header_line(s: &[char], lo: usize, hi: usize) -> (b: bool)
    requires
        lo <= hi <= s@.len(),
    ensures
        b == is_header(s@.subrange(lo as int, hi as int)),
{
    let w = find_whitespace(s, lo, hi);
    let ghost line = s@.subrange(lo as int, hi as int);
    proof {
        assert(line.take(w - lo) =~= s@.subrange(lo as int, w as int));
    }
    if w - lo == 3 && s[lo] == 'u' && s[lo + 1] == 'd' && s[lo + 2] == 'p' {
        assert(s@.subrange(lo as int, w as int) =~= udp_word());
        true
    } else {
        proof {
            if s@.subrange(lo as int, w as int) == udp_word() {
                assert(s@.subrange(lo as int, w as int)[0] == 'u');
            }
        }
        false
    }
}

/// The ports of the segment `s[lo..hi]`, added to the set `flags` marks.
fn read_segment(s: &[char], lo: usize, hi: usize, flags: &mut Vec<bool>, Ghost(acc): Ghost<
    Set<u16>,
>) -> (r: Result<(), Vec<char>>)
    requires
        lo <= hi <= s@.len(),
        flags_hold(old(flags)@, acc),
    ensures
        match r {
            Ok(()) => segment_ports(s@.subrange(lo as int, hi as int)) is Ok && flags_hold(
                final(flags)@,
                acc + segment_ports(s@.subrange(lo as int, hi as int))->Ok_0,
            ),
            Err(m) => segment_ports(s@.subrange(lo as int, hi as int)) == Err::<
                Set<u16>,
                Seq<char>,
            >(m@),
        },
{
    let ghost seg = s@.subrange(lo as int, hi as int);
    let d = find_char(s, lo, hi, '-');
    if d < hi {
        proof {
            assert(seg.take(d - lo) =~= s@.subrange(lo as int, d as int));
            assert(seg.skip(d - lo + 1) =~= s@.subrange(d + 1, hi as int));
        }
        let start = match parse_u16(s, lo, d) {
            None => {
                return Err(invalid_port(s, lo, d));
            },
            Some(p) => p,
        };
        let end = match parse_u16(s, d + 1, hi) {
            None => {
                return Err(invalid_port(s, d + 1, hi));
            },
            Some(p) => p,
        };
        if start > end {
            let mut m: Vec<char> = Vec::new();
            push_str(&mut m, "reversed port range");
            return Err(m);
        }
        mark_range(flags, start, end, Ghost(acc));
        Ok(())
    } else {
        let port = match parse_u16(s, lo, hi) {
            None => {
                return Err(invalid_port(s, lo, hi));
            },
            Some(p) => p,
        };
        mark_port(flags, port, Ghost(acc));
        proof {
            assert(acc.insert(port) =~= acc + set![port]);
        }
        Ok(())
    }
}

/// The flags of the ports listed in `s[lo..hi]`.
fn read_port_list(s: &[char], lo: usize, hi: usize) -> (r: Result<Vec<bool>, Vec<char>>)
    requires
        lo <= hi <= s@.len(),
    ensures
        match r {
            Ok(flags) => port_list(s@.subrange(lo as int, hi as int)) is Ok && flags_hold(
                flags@,
                port_list(s@.subrange(lo as int, hi as int))->Ok_0,
            ),
            Err(m) => port_list(s@.subrange(lo as int, hi as int)) == Err::<Set<u16>, Seq<char>>(
                m@,
            ),
        },
{
    let mut flags = empty_flags();
    let ghost mut acc: Set<u16> = Set::empty();
    let mut pos = lo;
    proof {
        let whole = port_list(s@.subrange(lo as int, hi as int));
        if whole is Ok {
            assert(acc + whole->Ok_0 =~= whole->Ok_0);
        }
    }
    loop
        invariant
            lo <= pos <= hi <= s@.len(),
            flags_hold(flags@, acc),
            port_list(s@.subrange(lo as int, hi as int)) == join_ports(
                acc,
                port_list(s@.subrange(pos as int, hi as int)),
            ),
        decreases hi - pos,
    {
        let ghost rest = s@.subrange(pos as int, hi as int);
        let k = find_char(s, pos, hi, ',');
        proof {
            assert(rest.take(k - pos) =~= s@.subrange(pos as int, k as int));
            if k < hi {
                assert(rest.skip(k - pos + 1) =~= s@.subrange(k + 1, hi as int));
            }
        }
        match read_segment(s, pos, k, &mut flags, Ghost(acc)) {
            Err(m) => {
                return Err(m);
            },
            Ok(()) => {},
        }
        let ghost seg_set = segment_ports(s@.subrange(pos as int, k as int))->Ok_0;
        proof {
            let tail = port_list(s@.subrange(k + 1, hi as int));
            if k < hi && tail is Ok {
                assert(acc + (seg_set + tail->Ok_0) =~= (acc + seg_set) + tail->Ok_0);
            }
            acc = acc + seg_set;
        }
        if k == hi {
            return Ok(flags);
        }
        pos = k + 1;
    }
}

/// Reads the entry collected in `record`, whose header is on line `line`.
fn parse_entry(record: &[char], line: usize) -> (r: Result<Entry, String>)
    requires
        record@.len() >= 3,
        record@.take(3) == udp_word(),
    ensures
        match r {
            Ok(e) => entry_spec(record@, line as nat) == Ok::<EntryModel, Seq<char>>(e@),
            Err(m) => entry_spec(record@, line as nat) == Err::<EntryModel, Seq<char>>(m@),
        },
{
    reveal(entry_spec);
    let n = record.len();
    let rs = trim_start_from(record, 3, n);
    proof {
        assert(record@.subrange(3, n as int) =~= record@.skip(3));
    }
    let ghost rest = record@.subrange(rs as int, n as int);
    let p = find_whitespace(record, rs, n);
    if p == n {
        return Err(line_error(line, chars_of("expected ports and quoted payload").as_slice()));
    }
    proof {
        assert(rest.take(p - rs) =~= record@.subrange(rs as int, p as int));
        assert(rest.skip(p - rs + 1) =~= record@.subrange(p + 1, n as int));
    }
    let flags = match read_port_list(record, rs, p) {
        Err(reason) => {
            return Err(line_error(line, reason.as_slice()));
        },
        Ok(f) => f,
    };
    let ghost set = port_list(record@.subrange(rs as int, p as int))->Ok_0;
    let payload_text = vstd::slice::slice_subrange(record, p + 1, n);
    let payload = match decode_chars(payload_text) {
        Err(e) => {
            return Err(line_error(line, chars_of(error_text(e)).as_slice()));
        },
        Ok(bytes) => bytes,
    };
    let ports = flagged_ports(&flags, Ghost(set));
    Ok(Entry { ports, payload })
}

/// The reading state that the collected lines, header line and entries stand for.
pub open spec fn state_of(current: Seq<char>, start: usize, records: Seq<Entry>) -> ReadState {
    ReadState { current, start: start as nat, done: entry_models(records) }
}

/// The collected lines of an entry start with its header's `udp`.
pub open spec fn record_started(current: Seq<char>) -> bool {
    current.len() > 0 ==> current.len() >= 3 && current.take(3) == udp_word()
}

/// Reads the cleaned line `s[a..b]`, numbered `number`.
fn read_cleaned_line(
    s: &[char],
    a: usize,
    b: usize,
    number: usize,
    current: &mut Vec<char>,
    start_line: &mut usize,
    records: &mut Vec<Entry>,
) -> (r: Result<(), String>)
    requires
        a <= b <= s@.len(),
        record_started(old(current)@),
    ensures
        record_started(final(current)@),
        match r {
            Ok(()) => read_line(
                s@.subrange(a as int, b as int),
                number as nat,
                state_of(old(current)@, *old(start_line), old(records)@),
            ) == Ok::<ReadState, Seq<char>>(
                state_of(final(current)@, *final(start_line), final(records)@),
            ),
            Err(m) => read_line(
                s@.subrange(a as int, b as int),
                number as nat,
                state_of(old(current)@, *old(start_line), old(records)@),
            ) == Err::<ReadState, Seq<char>>(m@),
        },
{
    let ghost line = s@.subrange(a as int, b as int);
    reveal(read_line);
    if a == b {
        return Ok(());
    }
    if is_header_line(s, a, b) {
        if current.len() > 0 {
            let entry = match parse_entry(current.as_slice(), *start_line) {
                Err(m) => {
                    return Err(m);
                },
                Ok(e) => e,
            };
            let ghost before = records@;
            records.push(entry);
            proof {
                assert(entry_models(records@) =~= entry_models(before).push(entry@));
            }
        }
        *current = Vec::new();
        *start_line = number;
        push_range(current, s, a, b);
        current.push('\n');
        proof {
            assert(current@ =~= line.push('\n'));
            crate::text::lemma_first_ws_index(line);
            assert(line.take(first_ws_index(line) as int).len() == 3);
            assert(first_ws_index(line) == 3);
            assert(line.take(3) == udp_word());
            assert(current@.take(3) =~= line.take(3));
        }
        Ok(())
    } else if current.len() == 0 {
        Err(line_error(number, chars_of("expected udp entry").as_slice()))
    } else {
        let ghost old_current = current@;
        push_range(current, s, a, b);
        current.push('\n');
        proof {
            assert(current@ =~= old_current + line.push('\n'));
            assert(current@.take(3) =~= old_current.take(3));
        }
        Ok(())
    }
}

/// Completes the last entry at the end of the text.
fn read_to_end(current: &Vec<char>, start_line: usize, records: Vec<Entry>) -> (r: Result<
    Vec<Entry>,
    String,
>)
    requires
        record_started(current@),
    ensures
        match r {
            Ok(entries) => read_end(state_of(current@, start_line, records@)) == Ok::<
                Seq<EntryModel>,
                Seq<char>,
            >(entry_models(entries@)),
            Err(m) => read_end(state_of(current@, start_line, records@)) == Err::<
                Seq<EntryModel>,
                Seq<char>,
            >(m@),
        },
{
    let mut records = records;
    reveal(read_end);
    if current.len() > 0 {
        let entry = match parse_entry(current.as_slice(), start_line) {
            Err(m) => {
                return Err(m);
            },
            Ok(e) => e,
        };
        let ghost before = records@;
        records.push(entry);
        proof {
            assert(entry_models(records@) =~= entry_models(before).push(entry@));
        }
    }
    Ok(records)
}

/// Reads the whole database text.
pub fn parse(input: &str) -> (r: Result<Vec<Entry>, String>)
    requires
        input@.len() < usize::MAX,
    ensures
        match r {
            Ok(entries) => parse_spec(input@) == Ok::<Seq<EntryModel>, Seq<char>>(
                entry_models(entries@),
            ),
            Err(m) => parse_spec(input@) == Err::<Seq<EntryModel>, Seq<char>>(m@),
        },
{
    let s = chars_of(input);
    let n = s.len();
    let mut records: Vec<Entry> = Vec::new();
    let mut current: Vec<char> = Vec::new();
    let mut start_line: usize = 0;
    let mut number: usize = 1;
    let mut pos: usize = 0;
    proof {
        assert(s@.skip(0) =~= s@);
        assert(entry_models(records@) =~= Seq::<EntryModel>::empty());
    }
    loop
        invariant
            s@ == input@,
            n == s@.len(),
            n < usize::MAX,
            pos <= n,
            1 <= number <= pos + 1,
            record_started(current@),
            parse_spec(s@) == read_lines(
                s@.skip(pos as int),
                number as nat,
                state_of(current@, start_line, records@),
            ),
        decreases n - pos,
    {
        let ghost rest = s@.skip(pos as int);
        let k = find_char(s.as_slice(), pos, n, '\n');
        let cut = without_comment(s.as_slice(), pos, k);
        let (a, b) = trim_range(s.as_slice(), pos, cut);
        proof {
            assert(s@.subrange(pos as int, n as int) =~= rest);
            assert(rest.take(k - pos) =~= s@.subrange(pos as int, k as int));
            if k < n {
                assert(rest.skip(k - pos + 1) =~= s@.skip(k + 1));
            }
            assert(first_index(rest, '\n') == k - pos);
        }
        match read_cleaned_line(
            s.as_slice(),
            a,
            b,
            number,
            &mut current,
            &mut start_line,
            &mut records,
        ) {
            Err(m) => {
                return Err(m);
            },
            Ok(()) => {},
        }
        if k == n {
            return read_to_end(&current, start_line, records);
        }
        pos = k + 1;
        number = number + 1;
    }
}


// ---------------------------------------------------------------------------
// The per-port probe table

/// The distinct payloads of the entries that list `port`, in the order in
/// which they first appear; a payload that occurs again is not repeated.
pub open spec fn payloads_for_spec(entries: Seq<EntryModel>, port: u16) -> Seq<Seq<u8>>
    decreases entries.len(),
{
    if entries.len() == 0 {
        Seq::empty()
    } else {
        let earlier = payloads_for_spec(entries.drop_last(), port);
        let e = entries.last();
        if e.ports.contains(port) && !earlier.contains(e.payload) {
            earlier.push(e.payload)
        } else {
            earlier
        }
    }
}

/// The payloads of a list of byte vectors, as sequences.
pub open spec fn payload_views(v: Seq<Vec<u8>>) -> Seq<Seq<u8>> {
    v.map_values(|p: Vec<u8>| p@)
}

/// No element occurs twice.
pub open spec fn no_repeats<T>(s: Seq<T>) -> bool {
    forall|i: int, j: int| 0 <= i < j < s.len() ==> s[i] != s[j]
}

/// The probes of a port: each payload of an entry that lists the port is
/// sent once, however many entries carry it, and the probes keep the order
/// of the database.
pub proof fn law_probes_per_port(entries: Seq<EntryModel>, port: u16)
    ensures
        no_repeats(payloads_for_spec(entries, port)),
        forall|k: int|
            0 <= k < entries.len() && #[trigger] entries[k].ports.contains(port)
                ==> payloads_for_spec(entries, port).contains(entries[k].payload),
        forall|p: Seq<u8>|
            #[trigger] payloads_for_spec(entries, port).contains(p) ==> exists|k: int|
                0 <= k < entries.len() && entries[k].ports.contains(port) && entries[k].payload
                    == p,
    decreases entries.len(),
{
    if entries.len() > 0 {
        let prefix = entries.drop_last();
        law_probes_per_port(prefix, port);
        let earlier = payloads_for_spec(prefix, port);
        let r = payloads_for_spec(entries, port);
        let e = entries.last();
        assert forall|k: int|
            0 <= k < entries.len() && #[trigger] entries[k].ports.contains(port) implies r.contains(
            entries[k].payload,
        ) by {
            if k < entries.len() - 1 {
                assert(prefix[k] == entries[k]);
                assert(earlier.contains(prefix[k].payload));
                let j = choose|j: int| 0 <= j < earlier.len() && earlier[j] == prefix[k].payload;
                assert(r[j] == earlier[j]);
            } else if earlier.contains(e.payload) {
                let j = choose|j: int| 0 <= j < earlier.len() && earlier[j] == e.payload;
                assert(r[j] == earlier[j]);
            } else {
                assert(r[r.len() - 1] == e.payload);
            }
        }
        assert forall|p: Seq<u8>| #[trigger] r.contains(p) implies exists|k: int|
            0 <= k < entries.len() && entries[k].ports.contains(port) && entries[k].payload
                == p by {
            let j = choose|j: int| 0 <= j < r.len() && r[j] == p;
            if j < earlier.len() {
                assert(earlier[j] == p);
                assert(earlier.contains(p));
                let k = choose|k: int|
                    0 <= k < prefix.len() && prefix[k].ports.contains(port) && prefix[k].payload
                        == p;
                assert(entries[k] == prefix[k]);
            } else {
                assert(entries[entries.len() - 1] == e);
            }
        }
    }
}

/// Whether a list of ports holds `port`.
fn lists_port(ports: &Vec<u16>, port: u16) -> (b: bool)
    ensures
        b == ports@.contains(port),
{
    let mut i: usize = 0;
    while i < ports.len()
        invariant
            i <= ports@.len(),
            forall|j: int| 0 <= j < i ==> ports@[j] != port,
        decreases ports@.len() - i,
    {
        if ports[i] == port {
            return true;
        }
        i = i + 1;
    }
    false
}

/// Whether two byte vectors hold the same bytes.
fn same_bytes(a: &Vec<u8>, b: &Vec<u8>) -> (r: bool)
    ensures
        r == (a@ == b@),
{
    if a.len() != b.len() {
        return false;
    }
    let mut i: usize = 0;
    while i < a.len()
        invariant
            i <= a@.len(),
            a@.len() == b@.len(),
            forall|j: int| 0 <= j < i ==> a@[j] == b@[j],
        decreases a@.len() - i,
    {
        if a[i] != b[i] {
            return false;
        }
        i = i + 1;
    }
    assert(a@ =~= b@);
    true
}

/// Whether `v` already holds the bytes `p`.
fn holds_payload(v: &Vec<Vec<u8>>, p: &Vec<u8>) -> (r: bool)
    ensures
        r == payload_views(v@).contains(p@),
{
    let mut i: usize = 0;
    while i < v.len()
        invariant
            i <= v@.len(),
            forall|j: int| 0 <= j < i ==> v@[j]@ != p@,
        decreases v@.len() - i,
    {
        if same_bytes(&v[i], p) {
            assert(payload_views(v@)[i as int] == p@);
            return true;
        }
        i = i + 1;
    }
    proof {
        if payload_views(v@).contains(p@) {
            let j = choose|j: int| 0 <= j < v@.len() && payload_views(v@)[j] == p@;
            assert(v@[j]@ == p@);
        }
    }
    false
}

/// A copy of a byte vector.
fn copy_bytes(v: &Vec<u8>) -> (r: Vec<u8>)
    ensures
        r@ == v@,
{
    let mut r: Vec<u8> = Vec::new();
    let mut i: usize = 0;
    while i < v.len()
        invariant
            i <= v@.len(),
            r@ == v@.take(i as int),
        decreases v@.len() - i,
    {
        r.push(v[i]);
        proof {
            assert(v@.take(i + 1) =~= v@.take(i as int).push(v@[i as int]));
        }
        i = i + 1;
    }
    assert(v@.take(v@.len() as int) =~= v@);
    r
}

/// The probes to send to `port`: the distinct payloads of the entries that
/// list it, in database order.
pub fn payloads_for(entries: &Vec<Entry>, port: u16) -> (probes: Vec<Vec<u8>>)
    ensures
        payload_views(probes@) == payloads_for_spec(entry_models(entries@), port),
{
    let mut probes: Vec<Vec<u8>> = Vec::new();
    let mut i: usize = 0;
    let ghost models = entry_models(entries@);
    while i < entries.len()
        invariant
            i <= entries@.len(),
            models == entry_models(entries@),
            payload_views(probes@) == payloads_for_spec(models.take(i as int), port),
        decreases entries@.len() - i,
    {
        let e = &entries[i];
        proof {
            assert(models.take(i + 1).drop_last() =~= models.take(i as int));
            assert(models.take(i + 1).last() == e@);
        }
        if lists_port(&e.ports, port) && !holds_payload(&probes, &e.payload) {
            let ghost before = probes@;
            probes.push(copy_bytes(&e.payload));
            proof {
                assert(payload_views(probes@) =~= payload_views(before).push(e.payload@));
            }
        }
        i = i + 1;
    }
    proof {
        assert(models.take(entries@.len() as int) =~= models);
    }
    probes
}


// ---------------------------------------------------------------------------
// Laws of reading

/// `m` is a message about some line.
pub open spec fn names_a_line(m: Seq<char>) -> bool {
    exists|line: nat, reason: Seq<char>| #[trigger] line_message(line, reason) == m
}

/// An entry lists at least one port, in strictly increasing order.
pub open spec fn well_listed(e: EntryModel) -> bool {
    e.ports.len() > 0 && strictly_increasing(e.ports)
}

/// Every entry lists at least one port, in strictly increasing order.
pub open spec fn ports_ascending(entries: Seq<EntryModel>) -> bool {
    forall|k: int| 0 <= k < entries.len() ==> well_listed(#[trigger] entries[k])
}

/// A port list that reads names at least one port: its first segment does.
proof fn lemma_port_list_nonempty(spec: Seq<char>)
    ensures
        port_list(spec) matches Ok(set) ==> exists|p: u16| set.contains(p),
{
    let k = first_index(spec, ',') as int;
    let seg = spec.take(k);
    let d = first_index(seg, '-') as int;
    if port_list(spec) is Ok {
        let q = if d < seg.len() {
            parse_u16_spec(seg.take(d))->0
        } else {
            parse_u16_spec(seg)->0
        };
        assert(segment_ports(seg)->Ok_0.contains(q));
        assert(port_list(spec)->Ok_0.contains(q));
    }
}

proof fn lemma_entry_outcome(record: Seq<char>, line: nat)
    ensures
        entry_spec(record, line) matches Err(m) ==> names_a_line(m),
        entry_spec(record, line) matches Ok(e) ==> well_listed(e),
{
    reveal(entry_spec);
    let rest = trim_start(record.skip(3));
    let p = first_ws_index(rest) as int;
    if p >= rest.len() {
        let reason = "expected ports and quoted payload"@;
        assert(line_message(line, reason) == entry_spec(record, line)->Err_0);
    } else {
        match port_list(rest.take(p)) {
            Err(reason) => {
                assert(line_message(line, reason) == entry_spec(record, line)->Err_0);
            },
            Ok(ports) => match decode_payload_result(rest.skip(p + 1)) {
                Err(reason) => {
                    assert(line_message(line, reason) == entry_spec(record, line)->Err_0);
                },
                Ok(payload) => {
                    lemma_sorted_ports(ports);
                    lemma_port_list_nonempty(rest.take(p));
                    let q = choose|q: u16| ports.contains(q);
                    assert(sorted_ports(ports).contains(q));
                },
            },
        }
    }
}

proof fn lemma_read_lines_outcome(s: Seq<char>, number: nat, st: ReadState)
    requires
        ports_ascending(st.done),
    ensures
        read_lines(s, number, st) matches Err(m) ==> names_a_line(m),
        read_lines(s, number, st) matches Ok(entries) ==> ports_ascending(entries),
    decreases s.len(),
{
    reveal(read_line);
    reveal(read_end);
    let k = first_index(s, '\n') as int;
    let line = clean_line(s.take(k));
    lemma_entry_outcome(st.current, st.start);
    if line.len() > 0 && !is_header(line) && st.current.len() == 0 {
        let reason = "expected udp entry"@;
        assert(line_message(number, reason) == read_line(line, number, st)->Err_0);
    }
    match read_line(line, number, st) {
        Err(m) => {},
        Ok(next) => {
            assert(ports_ascending(next.done)) by {
                if line.len() > 0 && is_header(line) && st.current.len() > 0 {
                    let e = entry_spec(st.current, st.start)->Ok_0;
                    assert forall|j: int| 0 <= j < next.done.len() implies well_listed(#[trigger] next.done[j]) by {
                        if j < st.done.len() {
                            assert(next.done[j] == st.done[j]);
                        }
                    }
                }
            }
            if k < s.len() {
                lemma_read_lines_outcome(s.skip(k + 1), number + 1, next);
            } else {
                lemma_entry_outcome(next.current, next.start);
                if next.current.len() > 0 && entry_spec(next.current, next.start) is Ok {
                    let done = next.done.push(entry_spec(next.current, next.start)->Ok_0);
                    assert forall|j: int| 0 <= j < done.len() implies well_listed(#[trigger] done[j]) by {
                        if j < next.done.len() {
                            assert(done[j] == next.done[j]);
                        }
                    }
                }
            }
        },
    }
}

/// A database that cannot be read is refused with a message that names
/// the line of the entry (or stray line) at fault: it starts with `line `,
/// the line number and `: `.
pub proof fn law_errors_name_their_line(s: Seq<char>)
    ensures
        parse_spec(s) matches Err(m) ==> names_a_line(m),
{
    lemma_read_lines_outcome(
        s,
        1,
        ReadState { current: Seq::empty(), start: 0, done: Seq::empty() },
    );
}

/// Every entry read from a database lists at least one port, in strictly
/// increasing order: ranges are expanded, and repeated or overlapping ports
/// are kept once.
pub proof fn law_entry_ports_ascending(s: Seq<char>)
    ensures
        parse_spec(s) matches Ok(entries) ==> ports_ascending(entries),
{
    lemma_read_lines_outcome(
        s,
        1,
        ReadState { current: Seq::empty(), start: 0, done: Seq::empty() },
    );
}


/// The number of lines of `s` that start an entry.
pub open spec fn header_count(s: Seq<char>) -> nat
    decreases s.len(),
{
    let k = first_index(s, '\n') as int;
    let line = clean_line(s.take(k));
    let here: nat = if line.len() > 0 && is_header(line) {
        1
    } else {
        0
    };
    if k < s.len() {
        here + header_count(s.skip(k + 1))
    } else {
        here
    }
}

proof fn lemma_read_lines_count(s: Seq<char>, number: nat, st: ReadState)
    ensures
        read_lines(s, number, st) matches Ok(entries) ==> entries.len() == st.done.len() + (if st.current.len() > 0 {
            1nat
        } else {
            0nat
        }) + header_count(s),
    decreases s.len(),
{
    reveal(read_line);
    reveal(read_end);
    let k = first_index(s, '\n') as int;
    let line = clean_line(s.take(k));
    match read_line(line, number, st) {
        Err(m) => {},
        Ok(next) => {
            if k < s.len() {
                lemma_read_lines_count(s.skip(k + 1), number + 1, next);
            }
        },
    }
}

/// No entry is lost or merged: a database that is read has exactly one
/// entry per line that starts with `udp`, however its port lists repeat or
/// overlap, the last one included.
pub proof fn law_every_header_makes_an_entry(s: Seq<char>)
    ensures
        parse_spec(s) matches Ok(entries) ==> entries.len() == header_count(s),
{
    lemma_read_lines_count(
        s,
        1,
        ReadState { current: Seq::empty(), start: 0, done: Seq::empty() },
    );
}

} // verus!
