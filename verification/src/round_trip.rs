//! Printing a parsed port list back in decimal reads as the same list.
use crate::input::{
    lemma_ports_list_positive, part_ports, parse_ports_and_ranges_spec, port_range_spec,
    ports_list, LOWEST_PORT_NUMBER,
};
use crate::ports::{lemma_sorted_ports, lemma_sorted_range, port_range, sorted_ports};
use crate::text::{
    all_digits, decimal, digit_char, digits_value, first_index, is_digit, parse_u16_spec, trim,
    trim_end, trim_start,
};
use vstd::prelude::*;

verus! {

/// Ports written in decimal and separated by commas, as `80,443,8080`.
pub open spec fn joined_decimals(v: Seq<u16>) -> Seq<char>
    decreases v.len(),
{
    if v.len() == 0 {
        Seq::empty()
    } else if v.len() == 1 {
        decimal(v[0] as nat)
    } else {
        decimal(v[0] as nat) + seq![','] + joined_decimals(v.drop_first())
    }
}

pub(crate) proof fn lemma_decimal(n: nat)
    ensures
        decimal(n).len() > 0,
        all_digits(decimal(n)),
        digits_value(decimal(n)) == n,
    decreases n,
{
    let d = decimal(n);
    if n < 10 {
        assert(d =~= seq![digit_char(n)]);
        assert(d.drop_last() =~= Seq::<char>::empty());
        assert(digits_value(Seq::<char>::empty()) == 0);
        assert(d.last() as u32 == 48 + n);
        assert(is_digit(d[0]));
    } else {
        lemma_decimal(n / 10);
        assert(d.drop_last() =~= decimal(n / 10));
        assert(d.last() == digit_char(n % 10));
        assert(d.last() as u32 == 48 + n % 10);
        vstd::arithmetic::div_mod::lemma_fundamental_div_mod(n as int, 10);
        assert(digits_value(d) == digits_value(decimal(n / 10)) * 10 + n % 10);
        assert((n / 10) * 10 + n % 10 == n);
        assert forall|i: int| 0 <= i < d.len() implies is_digit(#[trigger] d[i]) by {
            if i < d.len() - 1 {
                assert(d[i] == decimal(n / 10)[i]);
            }
        }
    }
}

/// A port written in decimal reads as itself.
proof fn lemma_decimal_port(p: u16)
    requires
        p >= LOWEST_PORT_NUMBER,
    ensures
        trim(decimal(p as nat)) == decimal(p as nat),
        first_index(decimal(p as nat), ',') == decimal(p as nat).len(),
        part_ports(decimal(p as nat)) == Ok::<Set<u16>, Seq<char>>(set![p]),
{
    let d = decimal(p as nat);
    lemma_decimal(p as nat);
    assert(is_digit(d[0]));
    assert(is_digit(d.last()));
    assert(trim_start(d) == d);
    assert(trim_end(d) == d);
    crate::text::lemma_first_index_at(d, ',', d.len() as int);
    crate::text::lemma_first_index_at(d, '-', d.len() as int);
    assert(parse_u16_spec(d) == Some(p));
}

proof fn lemma_to_set_first(v: Seq<u16>)
    requires
        v.len() > 0,
    ensures
        v.to_set() == set![v[0]] + v.drop_first().to_set(),
{
    let rest = v.drop_first();
    assert forall|q: u16| v.to_set().contains(q) implies (set![v[0]] + rest.to_set()).contains(
        q,
    ) by {
        let k = choose|k: int| 0 <= k < v.len() && v[k] == q;
        if k > 0 {
            assert(rest[k - 1] == q);
        }
    }
    assert forall|q: u16| (set![v[0]] + rest.to_set()).contains(q) implies v.to_set().contains(
        q,
    ) by {
        if q != v[0] {
            let k = choose|k: int| 0 <= k < rest.len() && rest[k] == q;
            assert(v[k + 1] == q);
        } else {
            assert(v[0] == q);
        }
    }
    assert(v.to_set() =~= set![v[0]] + rest.to_set());
}

proof fn lemma_joined_ports(v: Seq<u16>)
    requires
        v.len() > 0,
        forall|i: int| 0 <= i < v.len() ==> v[i] >= LOWEST_PORT_NUMBER,
    ensures
        ports_list(joined_decimals(v)) == Ok::<Set<u16>, Seq<char>>(v.to_set()),
    decreases v.len(),
{
    let p = v[0];
    let d = decimal(p as nat);
    lemma_decimal_port(p);
    lemma_decimal(p as nat);
    let j = joined_decimals(v);
    if v.len() == 1 {
        assert(j == d);
        assert(j.take(d.len() as int) =~= d);
        assert(v.to_set() =~= set![p]);
    } else {
        let rest = v.drop_first();
        lemma_joined_ports(rest);
        assert(j == d + seq![','] + joined_decimals(rest));
        assert forall|i: int| 0 <= i < d.len() implies j[i] != ',' by {
            assert(j[i] == d[i]);
            assert(is_digit(d[i]));
        }
        crate::text::lemma_first_index_at(j, ',', d.len() as int);
        assert(j.take(d.len() as int) =~= d);
        assert(j.skip((d.len() + 1) as int) =~= joined_decimals(rest));
        lemma_to_set_first(v);
    }
}

/// Printing a parsed port list in decimal, separated by commas, and parsing
/// it again gives the same list.
pub proof fn law_port_list_round_trip(s: Seq<char>, v: Seq<u16>)
    requires
        parse_ports_and_ranges_spec(s) == Ok::<Seq<u16>, Seq<char>>(v),
    ensures
        parse_ports_and_ranges_spec(joined_decimals(v)) == Ok::<Seq<u16>, Seq<char>>(v),
{
    let set = ports_list(s)->Ok_0;
    lemma_sorted_ports(set);
    lemma_ports_list_positive(s);
    assert(set != Set::<u16>::empty());
    assert(exists|q: u16| set.contains(q)) by {
        if !(exists|q: u16| set.contains(q)) {
            assert(set =~= Set::<u16>::empty());
        }
    }
    let q = choose|q: u16| set.contains(q);
    assert(sorted_ports(set).contains(q));
    assert forall|i: int| 0 <= i < v.len() implies v[i] >= LOWEST_PORT_NUMBER by {
        assert(v.contains(v[i]));
    }
    lemma_joined_ports(v);
    assert(v.to_set() =~= set);
}


/// A range `a-b` of valid ports, the first not above the second, lists
/// every port from `a` to `b`, both included, in ascending order.
pub proof fn law_range_lists_every_port(a: u16, b: u16)
    requires
        LOWEST_PORT_NUMBER <= a <= b,
    ensures
        parse_ports_and_ranges_spec(decimal(a as nat) + seq!['-'] + decimal(b as nat)) == Ok::<
            Seq<u16>,
            Seq<char>,
        >(Seq::new((b - a + 1) as nat, |i: int| (a + i) as u16)),
{
    let da = decimal(a as nat);
    let db = decimal(b as nat);
    let t = da + seq!['-'] + db;
    lemma_decimal(a as nat);
    lemma_decimal(b as nat);
    assert forall|i: int| 0 <= i < da.len() implies t[i] == da[i] && is_digit(t[i]) by {}
    assert forall|i: int| 0 <= i < db.len() implies t[da.len() + 1 + i] == db[i] && is_digit(
        db[i],
    ) by {}
    assert forall|i: int| 0 <= i < t.len() implies t[i] != ',' by {
        if i < da.len() {
        } else if i > da.len() {
            assert(t[i] == db[i - da.len() - 1]);
        }
    }
    crate::text::lemma_first_index_at(t, ',', t.len() as int);
    crate::text::lemma_first_index_at(t, '-', da.len() as int);
    crate::text::lemma_first_index_at(db, '-', db.len() as int);
    assert(t.take(t.len() as int) =~= t);
    assert(is_digit(t[0]));
    assert(t.last() == db.last());
    assert(is_digit(t.last()));
    assert(trim_start(t) == t);
    assert(trim_end(t) == t);
    assert(t.take(da.len() as int) =~= da);
    assert(t.skip((da.len() + 1) as int) =~= db);
    assert(parse_u16_spec(da) == Some(a));
    assert(parse_u16_spec(db) == Some(b));
    assert(port_range_spec(t) == Ok::<Set<u16>, Seq<char>>(port_range(a, b)));
    assert(ports_list(t) == Ok::<Set<u16>, Seq<char>>(port_range(a, b)));
    assert(port_range(a, b).contains(a));
    assert(port_range(a, b) != Set::<u16>::empty());
    lemma_sorted_range(a, b);
}

} // verus!
