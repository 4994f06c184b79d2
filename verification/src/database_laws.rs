//! Reading whole databases: two written one after the other, and an entry
//! written with a port range.
use crate::database::{
    clean_line, comment_start, entry_spec, is_header, port_list, read_end, read_line, read_lines,
    parse_spec, segment_ports, udp_word, without_comment_spec, EntryModel, ReadState,
};
use crate::payload::{
    decode_payload_result, is_metadata, law_metadata_ignored,
    law_plain_string, quote, skip_ascii_ws,
};
use crate::ports::{lemma_sorted_range, port_range, sorted_ports};
use crate::round_trip::lemma_decimal;
use crate::text::{
    decimal, first_index, is_digit, parse_u16_spec, trim_end, trim_start,
};
use vstd::utf8::encode_utf8;
use vstd::prelude::*;

verus! {

/// Reading the lines of `s` without completing the last entry: the state
/// after its last line, and the number the next line would have.
pub open spec fn read_prefix(s: Seq<char>, number: nat, st: ReadState) -> Result<
    (ReadState, nat),
    Seq<char>,
>
    decreases s.len(),
{
    let k = first_index(s, '\n') as int;
    match read_line(clean_line(s.take(k)), number, st) {
        Err(m) => Err(m),
        Ok(next) => if k < s.len() {
            read_prefix(s.skip(k + 1), number + 1, next)
        } else {
            Ok((next, number + 1))
        },
    }
}

/// The text before the first line feed of `s`.
proof fn lemma_first_line(a: Seq<char>, b: Seq<char>)
    ensures
        ({
            let s = a + seq!['\n'] + b;
            let k = first_index(a, '\n') as int;
            &&& k <= a.len()
            &&& first_index(s, '\n') == k
            &&& s.take(k) == a.take(k)
            &&& k < a.len() ==> s.skip(k + 1) == a.skip(k + 1) + seq!['\n'] + b
            &&& k == a.len() ==> s.skip(k + 1) == b
        }),
    decreases a.len(),
{
    let s = a + seq!['\n'] + b;
    let k = first_index(a, '\n') as int;
    if a.len() > 0 && a[0] != '\n' {
        lemma_first_line(a.drop_first(), b);
        assert(s.drop_first() =~= a.drop_first() + seq!['\n'] + b);
        assert(s[0] == a[0]);
        let k1 = first_index(a.drop_first(), '\n') as int;
        assert(s.drop_first().take(k1) =~= s.take(k).drop_first());
        assert(s.take(k) =~= seq![a[0]] + s.drop_first().take(k1));
        assert(a.take(k) =~= seq![a[0]] + a.drop_first().take(k1));
        if k < a.len() {
            assert(s.skip(k + 1) =~= s.drop_first().skip(k1 + 1));
            assert(a.skip(k + 1) =~= a.drop_first().skip(k1 + 1));
        } else {
            assert(s.skip(k + 1) =~= s.drop_first().skip(k1 + 1));
        }
    } else if a.len() > 0 {
        assert(s[0] == '\n');
        assert(s.take(0) =~= a.take(0));
        assert(s.skip(1) =~= a.skip(1) + seq!['\n'] + b);
    } else {
        assert(s[0] == '\n');
        assert(s.take(0) =~= a.take(0));
        assert(s.skip(1) =~= b);
    }
}

proof fn lemma_read_lines_prefix(s: Seq<char>, number: nat, st: ReadState)
    ensures
        read_lines(s, number, st) == match read_prefix(s, number, st) {
            Err(m) => Err(m),
            Ok((last, _)) => read_end(last),
        },
    decreases s.len(),
{
    let k = first_index(s, '\n') as int;
    match read_line(clean_line(s.take(k)), number, st) {
        Err(m) => {},
        Ok(next) => {
            if k < s.len() {
                lemma_read_lines_prefix(s.skip(k + 1), number + 1, next);
            }
        },
    }
}

proof fn lemma_read_lines_join(a: Seq<char>, b: Seq<char>, number: nat, st: ReadState)
    ensures
        read_lines(a + seq!['\n'] + b, number, st) == match read_prefix(a, number, st) {
            Err(m) => Err(m),
            Ok((last, next_number)) => read_lines(b, next_number, last),
        },
    decreases a.len(),
{
    lemma_first_line(a, b);
    let k = first_index(a, '\n') as int;
    match read_line(clean_line(a.take(k)), number, st) {
        Err(m) => {},
        Ok(next) => {
            if k < a.len() {
                lemma_read_lines_join(a.skip(k + 1), b, number + 1, next);
            }
        },
    }
}

/// What an entry holds does not depend on the line its header is on.
proof fn lemma_entry_line_free(record: Seq<char>, l1: nat, l2: nat)
    requires
        entry_spec(record, l1) is Ok,
    ensures
        entry_spec(record, l2) == entry_spec(record, l1),
{
    reveal(entry_spec);
}

/// The state `shifted` reads the rest of a text as the state `fresh` does,
/// after the entries `before`: either `fresh` has seen no entry yet and
/// `shifted` completes to `before`, or both collect the same entry and
/// `shifted` has `before` ahead of the entries of `fresh`.
pub open spec fn reads_alike(fresh: ReadState, shifted: ReadState, before: Seq<EntryModel>) -> bool {
    ||| fresh.current.len() == 0 && fresh.done.len() == 0 && read_end(shifted) == Ok::<
        Seq<EntryModel>,
        Seq<char>,
    >(before)
    ||| fresh.current.len() > 0 && shifted.current == fresh.current && shifted.done == before
        + fresh.done
}

proof fn lemma_read_lines_shift(
    s: Seq<char>,
    n_fresh: nat,
    fresh: ReadState,
    n_shifted: nat,
    shifted: ReadState,
    before: Seq<EntryModel>,
)
    requires
        reads_alike(fresh, shifted, before),
    ensures
        read_lines(s, n_fresh, fresh) matches Ok(after) ==> read_lines(s, n_shifted, shifted)
            == Ok::<Seq<EntryModel>, Seq<char>>(before + after),
    decreases s.len(),
{
    reveal(read_line);
    reveal(read_end);
    let k = first_index(s, '\n') as int;
    let line = clean_line(s.take(k));
    if read_lines(s, n_fresh, fresh) is Ok {
        let f2 = read_line(line, n_fresh, fresh)->Ok_0;
        if fresh.current.len() > 0 {
            if line.len() > 0 && crate::database::is_header(line) {
                lemma_entry_line_free(fresh.current, fresh.start, shifted.start);
            }
        } else if line.len() > 0 && crate::database::is_header(line) && shifted.current.len() > 0 {
            assert(entry_spec(shifted.current, shifted.start) is Ok);
        }
        let s2 = read_line(line, n_shifted, shifted)->Ok_0;
        assert(read_line(line, n_shifted, shifted) is Ok);
        if line.len() > 0 && crate::database::is_header(line) && fresh.current.len() > 0 {
            let e = entry_spec(fresh.current, fresh.start)->Ok_0;
            assert(s2.done == before + f2.done) by {
                assert(before + fresh.done.push(e) =~= (before + fresh.done).push(e));
            }
        } else if line.len() > 0 && crate::database::is_header(line) {
            if shifted.current.len() > 0 {
                let e = entry_spec(shifted.current, shifted.start)->Ok_0;
                assert(before == shifted.done.push(e));
            } else {
                assert(before == shifted.done);
            }
            assert(s2.done =~= before + f2.done);
        }
        assert(reads_alike(f2, s2, before));
        if k < s.len() {
            lemma_read_lines_shift(s.skip(k + 1), n_fresh + 1, f2, n_shifted + 1, s2, before);
        } else {
            if f2.current.len() > 0 {
                lemma_entry_line_free(f2.current, f2.start, s2.start);
                let e = entry_spec(f2.current, f2.start)->Ok_0;
                assert(before + f2.done.push(e) =~= (before + f2.done).push(e));
            } else {
                assert(before + Seq::<EntryModel>::empty() =~= before);
            }
        }
    }
}

/// Two databases written one after the other, on separate lines, read as
/// the entries of the first followed by those of the second: nothing is
/// merged or lost where they meet.
pub proof fn law_databases_concatenate(a: Seq<char>, b: Seq<char>)
    requires
        parse_spec(a) is Ok,
        parse_spec(b) is Ok,
    ensures
        parse_spec(a + seq!['\n'] + b) == Ok::<Seq<EntryModel>, Seq<char>>(
            parse_spec(a)->Ok_0 + parse_spec(b)->Ok_0,
        ),
{
    let fresh = ReadState { current: Seq::empty(), start: 0, done: Seq::empty() };
    lemma_read_lines_prefix(a, 1, fresh);
    lemma_read_lines_join(a, b, 1, fresh);
    let (last, next_number) = read_prefix(a, 1, fresh)->Ok_0;
    lemma_read_lines_shift(b, 1, fresh, next_number, last, parse_spec(a)->Ok_0);
}


/// `udp`, the port range `a-b` and the quoted string `s`, on one line.
pub open spec fn range_entry_line(a: u16, b: u16, s: Seq<char>) -> Seq<char> {
    seq!['u', 'd', 'p', ' '] + (decimal(a as nat) + seq!['-'] + decimal(b as nat)) + seq![' ']
        + (quote() + s + quote())
}

/// From `t[i]` to `t[j]`, outside or inside quotes as `quoted` says, no
/// character changes the quoting or starts a comment.
proof fn lemma_comment_free(t: Seq<char>, i: int, j: int, quoted: bool)
    requires
        0 <= i <= j <= t.len(),
        forall|k: int| i <= k < j ==> t[k] != '"' && t[k] != '\\' && (quoted || t[k] != '#'),
    ensures
        comment_start(t, i, quoted, false) == comment_start(t, j, quoted, false),
    decreases j - i,
{
    if i < j {
        lemma_comment_free(t, i + 1, j, quoted);
    }
}

/// The characters of `range_entry_line(a, b, s)`, by position.
proof fn lemma_range_line_chars(a: u16, b: u16, s: Seq<char>)
    ensures
        ({
            let da = decimal(a as nat);
            let db = decimal(b as nat);
            let ports = da + seq!['-'] + db;
            let t = range_entry_line(a, b, s);
            let n = 4 + ports.len() as int;
            &&& forall|k: int| 0 <= k < ports.len() ==> is_digit(ports[k]) || ports[k] == '-'
            &&& forall|k: int| 0 <= k < da.len() ==> ports[k] == da[k]
            &&& ports[da.len() as int] == '-'
            &&& forall|k: int| 0 <= k < db.len() ==> ports[da.len() + 1 + k] == db[k]
            &&& t.len() == n + 3 + s.len()
            &&& t[0] == 'u' && t[1] == 'd' && t[2] == 'p' && t[3] == ' '
            &&& forall|k: int| 0 <= k < ports.len() ==> t[4 + k] == ports[k]
            &&& t[n] == ' '
            &&& t[n + 1] == '"'
            &&& forall|k: int| 0 <= k < s.len() ==> t[n + 2 + k] == s[k]
            &&& t[n + 2 + s.len() as int] == '"'
        }),
{
    let da = decimal(a as nat);
    let db = decimal(b as nat);
    let ports = da + seq!['-'] + db;
    let q = quote() + s + quote();
    let t = range_entry_line(a, b, s);
    let n: int = 4 + ports.len() as int;
    let m: int = s.len() as int;
    lemma_decimal(a as nat);
    lemma_decimal(b as nat);
    assert forall|k: int| 0 <= k < ports.len() implies is_digit(ports[k]) || ports[k] == '-' by {
        if k < da.len() {
            assert(ports[k] == da[k]);
        } else if k > da.len() {
            assert(ports[k] == db[k - da.len() - 1]);
        }
    }
    assert forall|k: int| 0 <= k < s.len() implies t[n + 2 + k] == s[k] by {
        assert(q[1 + k] == s[k]);
    }
    assert(t[n + 2 + m] == '"') by {
        assert(q[1 + m] == '"');
    }
}

/// `range_entry_line(a, b, s)` is one line, without a comment and without
/// surrounding white space, that starts an entry.
proof fn lemma_range_line_clean(a: u16, b: u16, s: Seq<char>)
    requires
        forall|i: int| 0 <= i < s.len() ==> s[i] != '"' && s[i] != '\\' && s[i] != '\n',
    ensures
        first_index(range_entry_line(a, b, s), '\n') == range_entry_line(a, b, s).len(),
        clean_line(range_entry_line(a, b, s)) == range_entry_line(a, b, s),
        is_header(range_entry_line(a, b, s)),
{
    let ports = decimal(a as nat) + seq!['-'] + decimal(b as nat);
    let t = range_entry_line(a, b, s);
    let n: int = 4 + ports.len() as int;
    let m: int = s.len() as int;
    lemma_range_line_chars(a, b, s);
    assert forall|k: int| 0 <= k < t.len() implies t[k] != '\n' by {
        if 4 <= k < n {
            assert(t[k] == ports[k - 4]);
        } else if n + 2 <= k < n + 2 + m {
            assert(t[k] == s[k - n - 2]);
        }
    }
    crate::text::lemma_first_index_at(t, '\n', t.len() as int);
    assert forall|k: int| 0 <= k < n + 1 implies t[k] != '"' && t[k] != '\\' && t[k] != '#' by {
        if 4 <= k < n {
            assert(t[k] == ports[k - 4]);
        }
    }
    lemma_comment_free(t, 0, n + 1, false);
    assert forall|k: int| n + 2 <= k < n + 2 + m implies t[k] != '"' && t[k] != '\\' by {
        assert(t[k] == s[k - n - 2]);
    }
    lemma_comment_free(t, n + 2, n + 2 + m, true);
    assert(comment_start(t, n + 1, false, false) == comment_start(t, n + 2, true, false));
    assert(comment_start(t, n + 3 + m, false, false) == t.len());
    assert(comment_start(t, n + 2 + m, true, false) == t.len());
    assert(without_comment_spec(t) =~= t);
    assert(trim_start(t) == t);
    assert(t.last() == '"');
    assert(trim_end(t) == t);
    crate::text::lemma_first_ws_index_at(t, 3);
    assert(t.take(3) =~= udp_word());
}

/// The record `range_entry_line(a, b, s)` and a line feed, as an entry.
proof fn lemma_range_record(a: u16, b: u16, s: Seq<char>, line: nat)
    requires
        a <= b,
        forall|i: int| 0 <= i < s.len() ==> s[i] != '"' && s[i] != '\\' && s[i] != '\n',
    ensures
        entry_spec(range_entry_line(a, b, s).push('\n'), line) == Ok::<EntryModel, Seq<char>>(
            EntryModel { ports: sorted_ports(port_range(a, b)), payload: encode_utf8(s) },
        ),
{
    let da = decimal(a as nat);
    let db = decimal(b as nat);
    let ports = da + seq!['-'] + db;
    let q = quote() + s + quote();
    let t = range_entry_line(a, b, s);
    let record = t.push('\n');
    let dl: int = da.len() as int;
    let pl: int = ports.len() as int;
    lemma_decimal(a as nat);
    lemma_decimal(b as nat);
    lemma_range_line_chars(a, b, s);
    let rest = ports + seq![' '] + q + seq!['\n'];
    assert(t =~= seq!['u', 'd', 'p'] + (seq![' '] + ports + seq![' '] + q));
    assert(record.skip(3) =~= seq![' '] + rest);
    assert((seq![' '] + rest).drop_first() =~= rest);
    assert(rest[0] == ports[0]);
    assert(trim_start(rest) == rest);
    assert(trim_start(record.skip(3)) == rest);
    assert forall|k: int| 0 <= k < pl implies !crate::text::is_unicode_ws(rest[k]) by {
        assert(rest[k] == ports[k]);
    }
    assert(rest[pl] == ' ');
    crate::text::lemma_first_ws_index_at(rest, pl);
    assert(rest.take(pl) =~= ports);
    assert(rest.skip(pl + 1) =~= q + seq!['\n']);
    assert forall|k: int| 0 <= k < pl implies ports[k] != ',' by {}
    crate::text::lemma_first_index_at(ports, ',', pl);
    assert forall|k: int| 0 <= k < dl implies ports[k] != '-' by {
        assert(is_digit(da[k]));
    }
    crate::text::lemma_first_index_at(ports, '-', dl);
    assert(ports.take(pl) =~= ports);
    assert(ports.take(dl) =~= da);
    assert(ports.skip(dl + 1) =~= db);
    assert(parse_u16_spec(da) == Some(a));
    assert(parse_u16_spec(db) == Some(b));
    assert(segment_ports(ports) == Ok::<Set<u16>, Seq<char>>(port_range(a, b)));
    assert(port_list(ports) == Ok::<Set<u16>, Seq<char>>(port_range(a, b)));
    law_plain_string(s);
    let nl = seq!['\n'];
    assert(nl.drop_first() =~= Seq::<char>::empty());
    assert(nl.len() == 1 && nl[0] == '\n');
    assert(crate::text::is_ascii_ws(nl[0]));
    assert(skip_ascii_ws(Seq::<char>::empty()) == Seq::<char>::empty());
    assert(skip_ascii_ws(nl) == skip_ascii_ws(nl.drop_first()));
    assert(skip_ascii_ws(nl) =~= Seq::<char>::empty());
    assert(is_metadata(seq!['\n']));
    law_metadata_ignored(q, seq!['\n']);
    assert(decode_payload_result(q + seq!['\n']) == Ok::<Seq<u8>, Seq<char>>(encode_utf8(s)));
    reveal(entry_spec);
}

/// A database of the one entry `udp a-b "s"` (the first port not above the
/// second, the string without quotes, backslashes or line feeds) reads as one
/// entry that applies to every port from `a` to `b`, both included, in
/// ascending order, with the string's UTF-8 bytes as its payload.
pub proof fn law_range_entry_lists_every_port(a: u16, b: u16, s: Seq<char>)
    requires
        a <= b,
        forall|i: int| 0 <= i < s.len() ==> s[i] != '"' && s[i] != '\\' && s[i] != '\n',
    ensures
        parse_spec(range_entry_line(a, b, s)) == Ok::<Seq<EntryModel>, Seq<char>>(
            seq![
                (EntryModel {
                    ports: Seq::new((b - a + 1) as nat, |i: int| (a + i) as u16),
                    payload: encode_utf8(s),
                }),
            ],
        ),
{
    let t = range_entry_line(a, b, s);
    lemma_range_line_clean(a, b, s);
    assert(t.take(t.len() as int) =~= t);
    let fresh = ReadState { current: Seq::empty(), start: 0, done: Seq::empty() };
    reveal(read_line);
    assert(read_line(t, 1, fresh) == Ok::<ReadState, Seq<char>>(
        ReadState { current: t.push('\n'), start: 1, done: Seq::empty() },
    ));
    lemma_range_record(a, b, s, 1);
    lemma_sorted_range(a, b);
    let e = EntryModel {
        ports: Seq::new((b - a + 1) as nat, |i: int| (a + i) as u16),
        payload: encode_utf8(s),
    };
    reveal(read_end);
    assert(Seq::<EntryModel>::empty().push(e) =~= seq![e]);
}

} // verus!
