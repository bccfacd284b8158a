//! A scan as a whole: what its tasks examine and report between them, and what the
//! collector makes of it.

use crate::collector::{ascending, is_sorting_of, lemma_sorting_is_unique};
use crate::partition::{
    lemma_every_port_has_its_task, lemma_stride_is_finite_and_ascending,
    lemma_task_ports_are_owned, owner, ports_from, strictly_ascending, task_ports,
};
use vstd::multiset::Multiset;
use vstd::prelude::*;

verus! {

/// The ports that the first `workers` tasks of a scan examine, each as often as it is
/// examined.
pub open spec fn examined_by(workers: nat, stride: int) -> Multiset<u16>
    decreases workers,
{
    if workers == 0 {
        Multiset::empty()
    } else {
        examined_by((workers - 1) as nat, stride).add(
            task_ports(workers - 1, stride).to_multiset(),
        )
    }
}

/// The test that a port is among those that accept a connection.
pub open spec fn accepts(open: Set<u16>) -> spec_fn(u16) -> bool {
    |port: u16| open.contains(port)
}

/// What one task reports when the ports in `open` accept a connection and the others do
/// not: those of its ports that are in `open`, in the order in which it examines them.
pub open spec fn findings(offset: int, stride: int, open: Set<u16>) -> Seq<u16> {
    task_ports(offset, stride).filter(accepts(open))
}

/// What the first `workers` tasks of a scan report between them, each port as often as it
/// is reported.
pub open spec fn reported_by(workers: nat, stride: int, open: Set<u16>) -> Multiset<u16>
    decreases workers,
{
    if workers == 0 {
        Multiset::empty()
    } else {
        reported_by((workers - 1) as nat, stride, open).add(
            findings(workers - 1, stride, open).to_multiset(),
        )
    }
}

/// Whether `arrivals` is an order in which the reports of a scan by `workers` workers can
/// reach the collector: every finding of every task is there once, and nothing else. Every
/// interleaving of the tasks' reports is such an order.
pub open spec fn is_delivery(arrivals: Seq<u16>, workers: int, open: Set<u16>) -> bool {
    arrivals.to_multiset() == reported_by(workers as nat, workers, open)
}

/// Whether `arrivals` interleaves the `queues`: it takes every element of every queue once,
/// and those of one queue in that queue's order.
pub open spec fn interleaves(arrivals: Seq<u16>, queues: Seq<Seq<u16>>) -> bool
    decreases arrivals.len(),
{
    if arrivals.len() == 0 {
        forall|q: int| 0 <= q < queues.len() ==> (#[trigger] queues[q]).len() == 0
    } else {
        exists|q: int|
            0 <= q < queues.len() && (#[trigger] queues[q]).len() > 0 && queues[q][0]
                == arrivals[0] && interleaves(
                arrivals.skip(1),
                queues.update(q, queues[q].skip(1)),
            )
    }
}

/// The findings of each task of a scan, by offset.
pub open spec fn task_reports(workers: int, open: Set<u16>) -> Seq<Seq<u16>> {
    Seq::new(workers as nat, |offset: int| findings(offset, workers, open))
}

/// The elements of all `queues` together, each as often as it occurs.
pub open spec fn pooled(queues: Seq<Seq<u16>>) -> Multiset<u16>
    decreases queues.len(),
{
    if queues.len() == 0 {
        Multiset::empty()
    } else {
        pooled(queues.drop_last()).add(queues.last().to_multiset())
    }
}

/// The ports of `open` from 1 to `MAX_PORT`, in ascending order.
pub open spec fn open_ports(open: Set<u16>) -> Seq<u16> {
    ports_from(1, 1).filter(accepts(open))
}

/// Filtering a sequence keeps each element that passes the test as often as it occurs, and
/// none of the others.
proof fn lemma_filter_counts(ports: Seq<u16>, keep: spec_fn(u16) -> bool)
    ensures
        ports.filter(keep).to_multiset() == ports.to_multiset().filter(keep),
    decreases ports.len(),
{
    broadcast use vstd::multiset::group_multiset_axioms;
    broadcast use vstd::seq_lib::group_to_multiset_ensures;

    reveal(Seq::filter);
    if ports.len() == 0 {
        assert(ports.filter(keep).to_multiset() =~= ports.to_multiset().filter(keep));
    } else {
        let front = ports.drop_last();
        lemma_filter_counts(front, keep);
        assert(ports =~= front.push(ports.last()));
        assert(ports.to_multiset() =~= front.to_multiset().insert(ports.last()));
        assert(ports.filter(keep).to_multiset() =~= ports.to_multiset().filter(keep));
    }
}

/// Filtering a strictly ascending sequence leaves a strictly ascending sequence.
proof fn lemma_filter_keeps_order(ports: Seq<u16>, keep: spec_fn(u16) -> bool)
    requires
        strictly_ascending(ports),
    ensures
        strictly_ascending(ports.filter(keep)),
        forall|i: int|
            0 <= i < ports.filter(keep).len() ==> ports.contains(
                #[trigger] ports.filter(keep)[i],
            ),
    decreases ports.len(),
{
    reveal(Seq::filter);
    if ports.len() > 0 {
        let front = ports.drop_last();
        let kept = front.filter(keep);
        lemma_filter_keeps_order(front, keep);
        assert forall|i: int| 0 <= i < kept.len() implies kept[i] < ports.last()
            && ports.contains(kept[i]) by {
            assert(front.contains(kept[i]));
            let k = choose|k: int| 0 <= k < front.len() && front[k] == kept[i];
            assert(ports[k] == kept[i]);
        }
        if keep(ports.last()) {
            assert(ports[ports.len() - 1] == ports.last());
        }
    }
}

/// A port occurs in what one task examines once if the task owns it, and not at all if not.
proof fn lemma_task_count(offset: int, stride: int, port: u16)
    requires
        1 <= stride,
        0 <= offset < stride,
    ensures
        task_ports(offset, stride).to_multiset().count(port) == if 1 <= port && owner(
            stride,
            port as int,
        ) == offset {
            1nat
        } else {
            0nat
        },
{
    broadcast use vstd::seq_lib::group_to_multiset_ensures;

    let ports = task_ports(offset, stride);
    lemma_stride_is_finite_and_ascending(offset + 1, stride);
    ports.lemma_multiset_has_no_duplicates();
    lemma_task_ports_are_owned(offset, stride, port);
    assert(ports.contains(port) <==> ports.to_multiset().count(port) > 0);
    assert(ports.to_multiset().contains(port) <==> ports.to_multiset().count(port) > 0);
}

/// Among the first `workers` tasks, a port is examined once if its owner is one of them,
/// and not at all if not.
proof fn lemma_examined_count(workers: nat, stride: int, port: u16)
    requires
        1 <= stride,
        workers <= stride,
    ensures
        examined_by(workers, stride).count(port) == if 1 <= port && owner(stride, port as int)
            < workers {
            1nat
        } else {
            0nat
        },
    decreases workers,
{
    broadcast use vstd::multiset::group_multiset_axioms;

    if workers > 0 {
        lemma_examined_count((workers - 1) as nat, stride, port);
        lemma_task_count(workers - 1, stride, port);
        lemma_every_port_has_its_task(stride, port);
    }
}

/// What the tasks report is what they examine, less the ports that accept no connection.
proof fn lemma_reported_is_examined_and_open(workers: nat, stride: int, open: Set<u16>)
    ensures
        reported_by(workers, stride, open) == examined_by(workers, stride).filter(accepts(open)),
    decreases workers,
{
    broadcast use vstd::multiset::group_multiset_axioms;

    if workers > 0 {
        lemma_reported_is_examined_and_open((workers - 1) as nat, stride, open);
        lemma_filter_counts(task_ports(workers - 1, stride), accepts(open));
    }
    assert(reported_by(workers, stride, open) =~= examined_by(workers, stride).filter(
        accepts(open),
    ));
}

/// Taking the first element off one queue takes it out of the pool once.
proof fn lemma_pooled_without_head(queues: Seq<Seq<u16>>, q: int)
    requires
        0 <= q < queues.len(),
        queues[q].len() > 0,
    ensures
        pooled(queues) == pooled(queues.update(q, queues[q].skip(1))).insert(queues[q][0]),
    decreases queues.len(),
{
    broadcast use vstd::multiset::group_multiset_axioms;
    broadcast use vstd::seq_lib::group_to_multiset_ensures;

    let shorter = queues.update(q, queues[q].skip(1));
    if q == queues.len() - 1 {
        assert(shorter.drop_last() =~= queues.drop_last());
        let queue = queues[q];
        assert(queue =~= seq![queue[0]] + queue.skip(1));
        vstd::seq_lib::lemma_multiset_commutative(seq![queue[0]], queue.skip(1));
        assert(seq![queue[0]] =~= Seq::<u16>::empty().push(queue[0]));
        assert(seq![queue[0]].to_multiset() =~= Multiset::<u16>::empty().insert(queue[0]));
    } else {
        lemma_pooled_without_head(queues.drop_last(), q);
        assert(shorter.drop_last() =~= queues.drop_last().update(q, queues[q].skip(1)));
    }
    assert(pooled(queues) =~= pooled(shorter).insert(queues[q][0]));
}

/// Empty queues pool to nothing.
proof fn lemma_pooled_empty(queues: Seq<Seq<u16>>)
    requires
        forall|q: int| 0 <= q < queues.len() ==> (#[trigger] queues[q]).len() == 0,
    ensures
        pooled(queues) == Multiset::<u16>::empty(),
    decreases queues.len(),
{
    broadcast use vstd::multiset::group_multiset_axioms;
    broadcast use vstd::seq_lib::group_to_multiset_ensures;

    if queues.len() > 0 {
        lemma_pooled_empty(queues.drop_last());
        assert(queues.last().to_multiset() =~= Multiset::<u16>::empty());
        assert(pooled(queues) =~= Multiset::<u16>::empty());
    }
}

/// An interleaving holds what its queues hold, each element as often as they do.
pub proof fn lemma_interleaving_pools(arrivals: Seq<u16>, queues: Seq<Seq<u16>>)
    requires
        interleaves(arrivals, queues),
    ensures
        arrivals.to_multiset() == pooled(queues),
    decreases arrivals.len(),
{
    broadcast use vstd::multiset::group_multiset_axioms;
    broadcast use vstd::seq_lib::group_to_multiset_ensures;

    if arrivals.len() == 0 {
        lemma_pooled_empty(queues);
        assert(arrivals.to_multiset() =~= Multiset::<u16>::empty());
    } else {
        let q = choose|q: int|
            0 <= q < queues.len() && (#[trigger] queues[q]).len() > 0 && queues[q][0]
                == arrivals[0] && interleaves(
                arrivals.skip(1),
                queues.update(q, queues[q].skip(1)),
            );
        let rest = arrivals.skip(1);
        lemma_interleaving_pools(rest, queues.update(q, queues[q].skip(1)));
        lemma_pooled_without_head(queues, q);
        assert(arrivals =~= seq![arrivals[0]] + rest);
        vstd::seq_lib::lemma_multiset_commutative(seq![arrivals[0]], rest);
        assert(seq![arrivals[0]] =~= Seq::<u16>::empty().push(arrivals[0]));
        assert(seq![arrivals[0]].to_multiset() =~= Multiset::<u16>::empty().insert(arrivals[0]));
        assert(arrivals.to_multiset() =~= pooled(queues));
    }
}

/// The pool of the findings of the first `count` tasks is what those tasks report.
proof fn lemma_pooled_reports(count: nat, workers: int, open: Set<u16>)
    requires
        count <= workers,
    ensures
        pooled(task_reports(workers, open).take(count as int)) == reported_by(
            count,
            workers,
            open,
        ),
    decreases count,
{
    let queues = task_reports(workers, open).take(count as int);
    if count > 0 {
        lemma_pooled_reports((count - 1) as nat, workers, open);
        assert(queues.drop_last() =~= task_reports(workers, open).take(count - 1));
    }
}

/// Every interleaving of the tasks' reports is an order in which they can reach the
/// collector.
pub proof fn lemma_interleaving_is_delivery(workers: int, open: Set<u16>, arrivals: Seq<u16>)
    requires
        1 <= workers,
        interleaves(arrivals, task_reports(workers, open)),
    ensures
        is_delivery(arrivals, workers, open),
{
    let queues = task_reports(workers, open);
    lemma_interleaving_pools(arrivals, queues);
    lemma_pooled_reports(workers as nat, workers, open);
    assert(queues.take(workers) =~= queues);
}

/// A task's findings begin with its next port if that port accepts a connection, and go on
/// with the findings among the ports after it.
pub proof fn lemma_findings_unfold(remaining: Seq<u16>, open: Set<u16>)
    requires
        remaining.len() > 0,
    ensures
        remaining.filter(accepts(open)) == if open.contains(remaining[0]) {
            seq![remaining[0]] + remaining.skip(1).filter(accepts(open))
        } else {
            remaining.skip(1).filter(accepts(open))
        },
{
    let head = seq![remaining[0]];
    assert(remaining =~= head + remaining.skip(1));
    Seq::filter_distributes_over_add(head, remaining.skip(1), accepts(open));
    assert(head.filter(accepts(open)) =~= if open.contains(remaining[0]) {
        head
    } else {
        Seq::empty()
    }) by {
        reveal_with_fuel(Seq::filter, 2);
        assert(head.drop_last() =~= Seq::<u16>::empty());
    }
    assert(Seq::<u16>::empty() + remaining.skip(1).filter(accepts(open))
        =~= remaining.skip(1).filter(accepts(open)));
}

/// The partition is complete and exact: between them, the tasks of a scan examine every
/// port from 1 to `MAX_PORT` exactly once, and port 0 never.
pub proof fn lemma_partition_is_exact(workers: int)
    requires
        1 <= workers,
    ensures
        forall|port: u16|
            #[trigger] examined_by(workers as nat, workers).count(port) == if 1 <= port {
                1nat
            } else {
                0nat
            },
{
    assert forall|port: u16|
        #[trigger] examined_by(workers as nat, workers).count(port) == if 1 <= port {
            1nat
        } else {
            0nat
        } by {
        lemma_examined_count(workers as nat, workers, port);
        lemma_every_port_has_its_task(workers, port);
    }
}

/// The ports of `open` in ascending order: each port from 1 to `MAX_PORT` that is in `open`
/// occurs once, no other port occurs, and each is greater than the one before it.
pub proof fn lemma_open_ports(open: Set<u16>)
    ensures
        strictly_ascending(open_ports(open)),
        forall|port: u16|
            #[trigger] open_ports(open).to_multiset().count(port) == if 1 <= port
                && open.contains(port) {
                1nat
            } else {
                0nat
            },
        forall|port: u16|
            #[trigger] open_ports(open).contains(port) <==> 1 <= port && open.contains(port),
{
    broadcast use vstd::multiset::group_multiset_axioms;
    broadcast use vstd::seq_lib::group_to_multiset_ensures;

    lemma_stride_is_finite_and_ascending(1, 1);
    lemma_filter_keeps_order(ports_from(1, 1), accepts(open));
    lemma_filter_counts(ports_from(1, 1), accepts(open));
    assert forall|port: u16|
        #[trigger] open_ports(open).to_multiset().count(port) == if 1 <= port && open.contains(
            port,
        ) {
            1nat
        } else {
            0nat
        } by {
        lemma_task_count(0, 1, port);
    }
    assert forall|port: u16| #[trigger]
        open_ports(open).contains(port) <==> 1 <= port && open.contains(port) by {
        assert(open_ports(open).contains(port) <==> open_ports(open).to_multiset().count(port)
            > 0);
    }
}

/// No open port is lost and none is made up: whatever the number of workers, and in
/// whatever order their reports arrive, the sorted result is the list of the open ports in
/// ascending order.
pub proof fn lemma_scan_loses_nothing(
    workers: int,
    open: Set<u16>,
    arrivals: Seq<u16>,
    result: Seq<u16>,
)
    requires
        1 <= workers,
        is_delivery(arrivals, workers, open),
        is_sorting_of(result, arrivals),
    ensures
        result == open_ports(open),
        strictly_ascending(result),
        forall|port: u16| #[trigger] result.contains(port) <==> 1 <= port && open.contains(port),
{
    broadcast use vstd::multiset::group_multiset_axioms;

    lemma_open_ports(open);
    lemma_reported_is_examined_and_open(workers as nat, workers, open);
    lemma_partition_is_exact(workers);
    assert(open_ports(open).to_multiset() =~= arrivals.to_multiset()) by {
        assert forall|port: u16|
            open_ports(open).to_multiset().count(port) == arrivals.to_multiset().count(
                port,
            ) by {
            assert(examined_by(workers as nat, workers).count(port) == if 1 <= port {
                1nat
            } else {
                0nat
            });
        }
    }
    assert(ascending(open_ports(open)));
    lemma_sorting_is_unique(arrivals, result, open_ports(open));
}

} // verus!
