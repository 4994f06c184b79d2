//! The order in which the ports of a scan are visited.
use crate::input::{ScanOrder, LOWEST_PORT_NUMBER, TOP_PORT_NUMBER};
use rand::rngs::ThreadRng;
use rand::seq::SliceRandom;
use vstd::prelude::*;

verus! {

/// The ports from `start` to `end`, both included, ascending; none when
/// `start` is above `end`.
pub open spec fn range_seq(start: u16, end: u16) -> Seq<u16> {
    if start <= end {
        Seq::new((end - start + 1) as nat, |i: int| (start + i) as u16)
    } else {
        Seq::empty()
    }
}

/// How the ports of a scan are chosen and ordered.
#[derive(Debug)]
pub enum PortStrategy {
    /// The given ports, in the given order.
    Manual(Vec<u16>),
    /// A range of ports in ascending order.
    Serial(SerialRange),
    /// A range of ports in a random order.
    Random(RandomRange),
}

/// A range of ports that is scanned in ascending order.
#[derive(Debug)]
pub struct SerialRange {
    start: u16,
    end: u16,
}

/// A range of ports that is scanned in a random order: a uniform shuffle
/// of the range, which does not try to keep consecutive ports apart.
#[derive(Debug)]
pub struct RandomRange {
    start: u16,
    end: u16,
}

impl View for SerialRange {
    type V = (u16, u16);

    closed spec fn view(&self) -> (u16, u16) {
        (self.start, self.end)
    }
}

impl View for RandomRange {
    type V = (u16, u16);

    closed spec fn view(&self) -> (u16, u16) {
        (self.start, self.end)
    }
}

#[verifier::external_type_specification]
#[verifier::external_body]
pub struct ExThreadRng(ThreadRng);

/// The thread-local random generator.
///
/// Calls `rand::rng`; nothing is claimed of the generator it returns.
#[verifier::external_body]
fn thread_rng() -> ThreadRng {
    rand::rng()
}

/// The given ports in a random order.
///
/// Calls `SliceRandom::shuffle` of `rand` on the ports with the given
/// generator. The shuffle only swaps elements (a Fisher-Yates shuffle), so
/// the contract claims that the result holds the same ports, each as often
/// as before. Which order comes out is left unstated: it is random.
#[verifier::external_body]
fn shuffle(ports: Vec<u16>, rng: &mut ThreadRng) -> (out: Vec<u16>)
    ensures
        out@.to_multiset() == ports@.to_multiset(),
{
    let mut ports = ports;
    ports.shuffle(rng);
    ports
}

/// The given ports in a random order, from the thread-local generator.
fn shuffled(ports: Vec<u16>) -> (out: Vec<u16>)
    ensures
        out@.to_multiset() == ports@.to_multiset(),
{
    let mut rng = thread_rng();
    shuffle(ports, &mut rng)
}

/// The ports from `start` to `end`, both included, ascending.
fn range_ports(start: u16, end: u16) -> (ports: Vec<u16>)
    ensures
        ports@ == range_seq(start, end),
{
    let mut ports: Vec<u16> = Vec::new();
    if start > end {
        return ports;
    }
    let mut p: u16 = start;
    loop
        invariant_except_break
            start <= p <= end,
            ports@ == range_seq(start, end).take(p - start),
        ensures
            ports@ == range_seq(start, end),
        decreases end - p,
    {
        ports.push(p);
        proof {
            assert(range_seq(start, end).take(p - start + 1) =~= range_seq(start, end).take(
                p - start,
            ).push(p));
        }
        if p == end {
            proof {
                assert(range_seq(start, end).take(p - start + 1) =~= range_seq(start, end));
            }
            break ;
        }
        p = p + 1;
    }
    ports
}

impl SerialRange {
    /// The ports of the range in ascending order.
    pub fn generate(&self) -> (ports: Vec<u16>)
        ensures
            ports@ == range_seq(self@.0, self@.1),
    {
        range_ports(self.start, self.end)
    }
}

impl RandomRange {
    /// The ports of the range in a random order: each port of the range
    /// exactly once. The order is a uniform shuffle of the ascending range
    /// (rand's Fisher-Yates shuffle); no spacing between ports that follow
    /// one another is sought.
    pub fn generate(&self) -> (ports: Vec<u16>)
        ensures
            ports@.to_multiset() == range_seq(self@.0, self@.1).to_multiset(),
    {
        shuffled(range_ports(self.start, self.end))
    }
}

impl PortStrategy {
    /// The strategy for the given ports (every port when none are given)
    /// scanned in the given order.
    pub fn pick(ports: Option<Vec<u16>>, order: ScanOrder) -> (strategy: Self)
        ensures
            match ports {
                Some(p) => match order {
                    ScanOrder::Serial => strategy matches PortStrategy::Manual(v) && v@ == p@,
                    ScanOrder::Random => strategy matches PortStrategy::Manual(v)
                        && v@.to_multiset() == p@.to_multiset(),
                },
                None => match order {
                    ScanOrder::Serial => strategy matches PortStrategy::Serial(r) && r@ == (
                        LOWEST_PORT_NUMBER,
                        TOP_PORT_NUMBER,
                    ),
                    ScanOrder::Random => strategy matches PortStrategy::Random(r) && r@ == (
                        LOWEST_PORT_NUMBER,
                        TOP_PORT_NUMBER,
                    ),
                },
            },
    {
        match ports {
            Some(ports) => match order {
                ScanOrder::Serial => PortStrategy::Manual(ports),
                ScanOrder::Random => PortStrategy::Manual(shuffled(ports)),
            },
            None => match order {
                ScanOrder::Serial => PortStrategy::Serial(
                    SerialRange { start: LOWEST_PORT_NUMBER, end: TOP_PORT_NUMBER },
                ),
                ScanOrder::Random => PortStrategy::Random(
                    RandomRange { start: LOWEST_PORT_NUMBER, end: TOP_PORT_NUMBER },
                ),
            },
        }
    }

    /// The ports to scan, in the order to scan them.
    pub fn order(&self) -> (ports: Vec<u16>)
        ensures
            match self {
                PortStrategy::Manual(p) => ports@ == p@,
                PortStrategy::Serial(r) => ports@ == range_seq(r@.0, r@.1),
                PortStrategy::Random(r) => ports@.to_multiset() == range_seq(
                    r@.0,
                    r@.1,
                ).to_multiset(),
            },
    {
        match self {
            PortStrategy::Manual(ports) => ports.clone(),
            PortStrategy::Serial(range) => range.generate(),
            PortStrategy::Random(range) => range.generate(),
        }
    }
}

} // verus!
