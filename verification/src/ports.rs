//! Sets of 16-bit port numbers, kept as one flag per port and listed in
//! ascending order without repetition.
use vstd::prelude::*;

verus! {

/// The number of distinct 16-bit ports.
pub open spec fn port_space() -> nat {
    65536
}

/// All 16-bit numbers, in ascending order.
pub open spec fn all_ports() -> Seq<u16> {
    Seq::new(port_space(), |i: int| i as u16)
}

/// The ports of `set` in ascending order, each once.
pub open spec fn sorted_ports(set: Set<u16>) -> Seq<u16> {
    all_ports().filter(|p: u16| set.contains(p))
}

/// The ports from `start` to `end`, both included.
pub open spec fn port_range(start: u16, end: u16) -> Set<u16> {
    Set::new(|p: u16| start <= p <= end)
}

/// `flags` has one entry per port and marks exactly the ports of `set`.
pub open spec fn flags_hold(flags: Seq<bool>, set: Set<u16>) -> bool {
    &&& flags.len() == port_space()
    &&& forall|q: int| 0 <= q < port_space() ==> #[trigger] flags[q] == set.contains(q as u16)
}

/// A strictly increasing sequence.
pub open spec fn strictly_increasing(s: Seq<u16>) -> bool {
    forall|i: int, j: int| 0 <= i < j < s.len() ==> s[i] < s[j]
}

/// Flags of the empty set.
pub(crate) fn empty_flags() -> (flags: Vec<bool>)
    ensures
        flags_hold(flags@, Set::empty()),
{
    let mut flags: Vec<bool> = Vec::new();
    let mut i: usize = 0;
    while i < 65536
        invariant
            i <= 65536,
            flags@.len() == i,
            forall|q: int| 0 <= q < i ==> !#[trigger] flags@[q],
        decreases 65536 - i,
    {
        flags.push(false);
        i = i + 1;
    }
    flags
}

/// Adds the ports from `start` to `end` to the set that `flags` marks.
pub(crate) fn mark_range(flags: &mut Vec<bool>, start: u16, end: u16, Ghost(set): Ghost<Set<u16>>)
    requires
        flags_hold(old(flags)@, set),
        start <= end,
    ensures
        flags_hold(final(flags)@, set + port_range(start, end)),
{
    let mut p: usize = start as usize;
    let last: usize = end as usize;
    while p <= last
        invariant
            start <= p <= last + 1,
            last == end,
            last < 65536,
            flags@.len() == port_space(),
            forall|q: int|
                0 <= q < port_space() ==> #[trigger] flags@[q] == (set.contains(q as u16) || (
                start <= q < p)),
        decreases last + 1 - p,
    {
        flags.set(p, true);
        p = p + 1;
    }
    proof {
        assert forall|q: int| 0 <= q < port_space() implies #[trigger] flags@[q] == (set
            + port_range(start, end)).contains(q as u16) by {
            assert((q as u16) as int == q);
        }
    }
}

/// Adds one port to the set that `flags` marks.
pub(crate) fn mark_port(flags: &mut Vec<bool>, port: u16, Ghost(set): Ghost<Set<u16>>)
    requires
        flags_hold(old(flags)@, set),
    ensures
        flags_hold(final(flags)@, set.insert(port)),
{
    flags.set(port as usize, true);
    proof {
        assert forall|q: int| 0 <= q < port_space() implies #[trigger] flags@[q] == set.insert(
            port,
        ).contains(q as u16) by {
            assert((q as u16) as int == q);
        }
    }
}

/// The ports that `flags` marks, in ascending order.
pub(crate) fn flagged_ports(flags: &Vec<bool>, Ghost(set): Ghost<Set<u16>>) -> (ports: Vec<u16>)
    requires
        flags_hold(flags@, set),
    ensures
        ports@ == sorted_ports(set),
{
    let mut ports: Vec<u16> = Vec::new();
    let mut i: usize = 0;
    let ghost pred = |p: u16| set.contains(p);
    while i < 65536
        invariant
            i <= 65536,
            flags_hold(flags@, set),
            pred == (|p: u16| set.contains(p)),
            ports@ == Seq::new(i as nat, |j: int| j as u16).filter(pred),
        decreases 65536 - i,
    {
        let ghost before = Seq::new(i as nat, |j: int| j as u16);
        let ghost after = Seq::new((i + 1) as nat, |j: int| j as u16);
        proof {
            assert(after.drop_last() =~= before);
            assert(after.last() == i as u16);
            reveal(Seq::filter);
        }
        if flags[i] {
            ports.push(i as u16);
        }
        i = i + 1;
    }
    proof {
        assert(Seq::new(65536 as nat, |j: int| j as u16) =~= all_ports());
    }
    ports
}

/// The ascending listing of a set holds exactly its elements, each once, in
/// strictly increasing order.
pub proof fn lemma_sorted_ports(set: Set<u16>)
    ensures
        strictly_increasing(sorted_ports(set)),
        forall|p: u16| #[trigger] sorted_ports(set).contains(p) <==> set.contains(p),
{
    lemma_filtered_prefix(set, port_space());
    assert(Seq::new(port_space(), |j: int| j as u16) =~= all_ports());
}

proof fn lemma_filtered_prefix(set: Set<u16>, n: nat)
    requires
        n <= port_space(),
    ensures
        ({
            let s = Seq::new(n, |j: int| j as u16).filter(|p: u16| set.contains(p));
            &&& strictly_increasing(s)
            &&& forall|k: int| 0 <= k < s.len() ==> s[k] < n
            &&& forall|p: u16| #[trigger] s.contains(p) <==> (set.contains(p) && p < n)
        }),
    decreases n,
{
    reveal(Seq::filter);
    let pred = |p: u16| set.contains(p);
    let whole = Seq::new(n, |j: int| j as u16);
    let s = whole.filter(pred);
    if n > 0 {
        let prev = Seq::new((n - 1) as nat, |j: int| j as u16);
        lemma_filtered_prefix(set, (n - 1) as nat);
        assert(whole.drop_last() =~= prev);
        let t = prev.filter(pred);
        assert(whole.last() == (n - 1) as u16);
        if set.contains((n - 1) as u16) {
            assert(s == t.push((n - 1) as u16));
            assert forall|p: u16| #[trigger] s.contains(p) <==> (set.contains(p) && p < n) by {
                if s.contains(p) {
                    let k = choose|k: int| 0 <= k < s.len() && s[k] == p;
                    if k < t.len() {
                        assert(t.contains(p));
                    }
                }
                if set.contains(p) && p < n {
                    if p < n - 1 {
                        assert(t.contains(p));
                        let k = choose|k: int| 0 <= k < t.len() && t[k] == p;
                        assert(s[k] == p);
                    } else {
                        assert(s[s.len() - 1] == p);
                    }
                }
            }
        } else {
            assert(s == t);
            assert forall|p: u16| #[trigger] s.contains(p) <==> (set.contains(p) && p < n) by {
                if set.contains(p) && p < n {
                    assert(p != n - 1);
                }
            }
        }
    } else {
        assert(s =~= Seq::<u16>::empty());
    }
}


/// The ascending listing of the ports from `a` to `b` is `a, a + 1, ..., b`.
pub proof fn lemma_sorted_range(a: u16, b: u16)
    requires
        a <= b,
    ensures
        sorted_ports(port_range(a, b)) == Seq::new((b - a + 1) as nat, |i: int| (a + i) as u16),
{
    let s = sorted_ports(port_range(a, b));
    lemma_sorted_ports(port_range(a, b));
    assert forall|i: int| 0 <= i < s.len() implies s[i] == a + i by {
        lemma_range_index(s, a, b, i);
    }
    assert(s.len() == b - a + 1) by {
        if s.len() > 0 {
            lemma_range_index(s, a, b, s.len() - 1);
            assert(s.contains(s[s.len() - 1]));
        }
        assert(s.contains(b));
        let k = choose|k: int| 0 <= k < s.len() && s[k] == b;
        lemma_range_index(s, a, b, k);
    }
    assert(s =~= Seq::new((b - a + 1) as nat, |i: int| (a + i) as u16));
}

proof fn lemma_range_index(s: Seq<u16>, a: u16, b: u16, i: int)
    requires
        a <= b,
        strictly_increasing(s),
        forall|p: u16| #[trigger] s.contains(p) <==> a <= p <= b,
        0 <= i < s.len(),
    ensures
        s[i] == a + i,
    decreases i,
{
    assert(s.contains(s[i]));
    if i > 0 {
        lemma_range_index(s, a, b, i - 1);
        assert(s[i - 1] < s[i]);
        if s[i] > a + i {
            let q = (a + i) as u16;
            assert(s.contains(q));
            let k = choose|k: int| 0 <= k < s.len() && s[k] == q;
            if k < i - 1 {
                assert(s[k] < s[i - 1]);
            } else if k > i {
                assert(s[i] < s[k]);
            }
        }
    } else {
        assert(s.contains(a));
        let k = choose|k: int| 0 <= k < s.len() && s[k] == a;
        if k > 0 {
            assert(s[0] < s[k]);
        }
    }
}

} // verus!
