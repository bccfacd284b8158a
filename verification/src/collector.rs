//! The collecting side of a scan: ports arrive in any order and leave in ascending order.

use vstd::prelude::*;
use vstd::relations::{sorted_by, total_ordering};
use vstd::seq_lib::{lemma_multiset_commutative, lemma_sorted_unique};

verus! {

/// Whether no element of `ports` is less than one before it.
pub open spec fn ascending(ports: Seq<u16>) -> bool {
    forall|i: int, j: int| 0 <= i < j < ports.len() ==> ports[i] <= ports[j]
}

/// Whether `sorted` holds the ports of `arrivals`, each as often as it arrived, in ascending
/// order.
pub open spec fn is_sorting_of(sorted: Seq<u16>, arrivals: Seq<u16>) -> bool {
    &&& ascending(sorted)
    &&& sorted.to_multiset() == arrivals.to_multiset()
}

/// Whatever arrived has one ascending order only.
pub proof fn lemma_sorting_is_unique(arrivals: Seq<u16>, first: Seq<u16>, second: Seq<u16>)
    requires
        is_sorting_of(first, arrivals),
        is_sorting_of(second, arrivals),
    ensures
        first == second,
{
    let leq = |a: u16, b: u16| a <= b;
    assert(total_ordering(leq));
    assert(sorted_by(first, leq));
    assert(sorted_by(second, leq));
    lemma_sorted_unique(first, second, leq);
}

/// Sorting is idempotent: sorting what is sorted already gives it back unchanged.
pub proof fn lemma_sorting_is_idempotent(arrivals: Seq<u16>, once: Seq<u16>, twice: Seq<u16>)
    requires
        is_sorting_of(once, arrivals),
        is_sorting_of(twice, once),
    ensures
        twice == once,
{
    lemma_sorting_is_unique(once, once, twice);
}

/// Merges two ascending runs into one.
fn merge(left: &Vec<u16>, right: &Vec<u16>) -> (merged: Vec<u16>)
    requires
        ascending(left@),
        ascending(right@),
    ensures
        ascending(merged@),
        merged@.to_multiset() == left@.to_multiset().add(right@.to_multiset()),
{
    let mut merged: Vec<u16> = Vec::new();
    let mut i: usize = 0;
    let mut j: usize = 0;
    proof {
        assert(left@.take(0) =~= Seq::<u16>::empty());
        assert(right@.take(0) =~= Seq::<u16>::empty());
        lemma_multiset_commutative(left@.take(0), right@.take(0));
    }
    while i < left.len() || j < right.len()
        invariant
            i <= left.len(),
            j <= right.len(),
            ascending(left@),
            ascending(right@),
            ascending(merged@),
            merged@.to_multiset() == left@.take(i as int).to_multiset().add(
                right@.take(j as int).to_multiset(),
            ),
            merged.len() > 0 && i < left.len() ==> merged@.last() <= left[i as int],
            merged.len() > 0 && j < right.len() ==> merged@.last() <= right[j as int],
        decreases left.len() - i + right.len() - j,
    {
        broadcast use vstd::seq_lib::group_to_multiset_ensures;

        let from_left = j >= right.len() || (i < left.len() && left[i] <= right[j]);
        if from_left {
            let port = left[i];
            assert(left@.take(i + 1) =~= left@.take(i as int).push(port));
            merged.push(port);
            i += 1;
        } else {
            let port = right[j];
            assert(right@.take(j + 1) =~= right@.take(j as int).push(port));
            merged.push(port);
            j += 1;
        }
    }
    assert(left@.take(i as int) =~= left@);
    assert(right@.take(j as int) =~= right@);
    merged
}

/// The ports of `ports[from..to]` in ascending order.
fn sorted_run(ports: &Vec<u16>, from: usize, to: usize) -> (run: Vec<u16>)
    requires
        from <= to <= ports.len(),
    ensures
        is_sorting_of(run@, ports@.subrange(from as int, to as int)),
    decreases to - from,
{
    let mut run: Vec<u16> = Vec::new();
    if to - from == 0 {
        assert(ports@.subrange(from as int, to as int) =~= run@);
        run
    } else if to - from == 1 {
        run.push(ports[from]);
        assert(ports@.subrange(from as int, to as int) =~= run@);
        run
    } else {
        let middle = from + (to - from) / 2;
        let left = sorted_run(ports, from, middle);
        let right = sorted_run(ports, middle, to);
        proof {
            let low = ports@.subrange(from as int, middle as int);
            let high = ports@.subrange(middle as int, to as int);
            assert(ports@.subrange(from as int, to as int) =~= low + high);
            lemma_multiset_commutative(low, high);
        }
        merge(&left, &right)
    }
}

/// Puts `ports` in ascending order. No port is added, lost or repeated, and ports that are
/// in ascending order already stay as they are.
pub fn sort_ports(ports: &mut Vec<u16>)
    ensures
        is_sorting_of(final(ports)@, old(ports)@),
        ascending(old(ports)@) ==> final(ports)@ == old(ports)@,
{
    let sorted = sorted_run(ports, 0, ports.len());
    proof {
        assert(ports@.subrange(0, ports.len() as int) =~= ports@);
        if ascending(ports@) {
            lemma_sorting_is_unique(ports@, ports@, sorted@);
        }
    }
    *ports = sorted;
}

/// The single consumer of what the workers report. Ports are recorded in the order in which
/// they arrive; the result is handed out in ascending order once the last one has arrived.
pub struct Collector {
    arrivals: Vec<u16>,
}

impl View for Collector {
    type V = Seq<u16>;

    /// The ports recorded so far, in their order of arrival.
    closed spec fn view(&self) -> Seq<u16> {
        self.arrivals@
    }
}

impl Collector {
    /// A collector that has recorded nothing yet.
    pub fn new() -> (collector: Collector)
        ensures
            collector@ == Seq::<u16>::empty(),
    {
        Collector { arrivals: Vec::new() }
    }

    /// Records one open port.
    pub fn record(&mut self, port: u16)
        ensures
            final(self)@ == old(self)@.push(port),
    {
        self.arrivals.push(port);
    }

    /// The number of ports recorded so far.
    pub fn len(&self) -> (count: usize)
        ensures
            count == self@.len(),
    {
        self.arrivals.len()
    }

    /// Ends the collection: the recorded ports, in ascending order.
    pub fn finish(self) -> (ports: Vec<u16>)
        ensures
            is_sorting_of(ports@, self@),
    {
        let mut ports = self.arrivals;
        sort_ports(&mut ports);
        ports
    }
}

} // verus!
