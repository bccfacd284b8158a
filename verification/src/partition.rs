//! The arithmetic of the stride partition: which ports a worker examines, and in what order.

use vstd::arithmetic::div_mod::{lemma_fundamental_div_mod, lemma_fundamental_div_mod_converse};
use vstd::prelude::*;

verus! {

/// The highest TCP port number. Port 0 is reserved and never examined.
pub const MAX_PORT: u16 = 65535;

/// How many ports lie on the stride that begins at `start`.
pub open spec fn stride_len(start: int, stride: int) -> nat {
    if 1 <= start <= MAX_PORT && 1 <= stride {
        ((MAX_PORT - start) / stride + 1) as nat
    } else {
        0
    }
}

/// The ports `start, start + stride, start + 2 * stride, ...` up to and including the last one
/// that does not exceed `MAX_PORT`.
pub open spec fn ports_from(start: int, stride: int) -> Seq<u16> {
    Seq::new(stride_len(start, stride), |k: int| (start + k * stride) as u16)
}

/// The ports that the worker with the given offset examines, in the order it examines them.
pub open spec fn task_ports(offset: int, stride: int) -> Seq<u16> {
    ports_from(offset + 1, stride)
}

/// Whether `port` belongs to the worker with the given offset.
pub open spec fn owns(offset: int, stride: int, port: int) -> bool {
    &&& 1 <= stride
    &&& 0 <= offset < stride
    &&& 1 <= port <= MAX_PORT
    &&& (port - 1) % stride == offset
}

/// The offset of the one task that owns `port`.
pub open spec fn owner(stride: int, port: int) -> int {
    (port - 1) % stride
}

/// Whether each element of `ports` is greater than the one before it.
pub open spec fn strictly_ascending(ports: Seq<u16>) -> bool {
    forall|i: int, j: int| 0 <= i < j < ports.len() ==> ports[i] < ports[j]
}

/// The port one stride after `port`, or `None` where that would pass `MAX_PORT`. The test
/// comes before the step, so the port number never wraps around.
pub fn next_on_stride(port: u16, stride: u16) -> (next: Option<u16>)
    ensures
        next == if port + stride <= MAX_PORT {
            Some((port + stride) as u16)
        } else {
            None
        },
{
    if MAX_PORT - port < stride {
        None
    } else {
        Some(port + stride)
    }
}

/// A quotient is at least `k` exactly when the dividend is at least `k` times the divisor.
proof fn lemma_quotient_at_least(x: int, d: int, k: int)
    by (nonlinear_arith)
    requires
        0 <= x,
        0 < d,
    ensures
        k <= x / d <==> k * d <= x,
{
}

/// The `k`-th step of a stride is one of its ports exactly when it does not pass `MAX_PORT`.
proof fn lemma_stride_index(start: int, stride: int, k: int)
    requires
        1 <= start <= MAX_PORT,
        1 <= stride,
    ensures
        0 <= k < stride_len(start, stride) <==> 0 <= k && start + k * stride <= MAX_PORT,
        0 <= k ==> 0 <= k * stride,
{
    lemma_quotient_at_least(MAX_PORT - start, stride, k);
    assert(0 <= k ==> 0 <= k * stride) by (nonlinear_arith)
        requires
            1 <= stride,
    ;
}

/// A stride begins at its start and goes on as the stride that begins one step later.
pub proof fn lemma_ports_from_unfold(start: int, stride: int)
    requires
        1 <= start <= MAX_PORT,
        1 <= stride,
    ensures
        ports_from(start, stride).len() >= 1,
        ports_from(start, stride)[0] == start,
        ports_from(start, stride).skip(1) == ports_from(start + stride, stride),
{
    let here = ports_from(start, stride);
    let rest = ports_from(start + stride, stride);
    lemma_stride_index(start, stride, 0);
    assert(0 * stride == 0);
    let m = rest.len() as int;
    assert(here.len() == m + 1) by {
        assert(1 * stride == stride);
        assert((m + 1) * stride == m * stride + stride) by (nonlinear_arith);
        lemma_stride_index(start, stride, 1);
        lemma_stride_index(start, stride, m);
        lemma_stride_index(start, stride, m + 1);
        if start + stride <= MAX_PORT {
            assert((m - 1) * stride == m * stride - stride) by (nonlinear_arith);
            lemma_stride_index(start + stride, stride, m - 1);
            lemma_stride_index(start + stride, stride, m);
        }
    }
    assert forall|k: int| 0 <= k < rest.len() implies here.skip(1)[k] == rest[k] by {
        assert((k + 1) * stride == k * stride + stride) by (nonlinear_arith);
    }
    assert(here.skip(1) =~= rest);
}

/// The `k`-th port of a stride is `k` strides past the start, and no port of a stride lies
/// outside `1..=MAX_PORT`.
pub proof fn lemma_ports_from_index(start: int, stride: int, k: int)
    requires
        0 <= k < ports_from(start, stride).len(),
    ensures
        ports_from(start, stride)[k] == start + k * stride,
        1 <= start <= ports_from(start, stride)[k] <= MAX_PORT,
{
    lemma_stride_index(start, stride, k);
}

/// Every task terminates: a stride has at most `MAX_PORT` ports, each later one is greater
/// than the ones before it, and none is port 0 or wraps past `MAX_PORT`.
pub proof fn lemma_stride_is_finite_and_ascending(start: int, stride: int)
    ensures
        ports_from(start, stride).len() <= MAX_PORT,
        strictly_ascending(ports_from(start, stride)),
        ports_from(start, stride).no_duplicates(),
        forall|k: int|
            0 <= k < ports_from(start, stride).len() ==> 1 <= #[trigger] ports_from(
                start,
                stride,
            )[k] <= MAX_PORT,
{
    let ports = ports_from(start, stride);
    if ports.len() > 0 {
        let last = ports.len() - 1;
        lemma_ports_from_index(start, stride, last);
        assert(last * stride >= last) by (nonlinear_arith)
            requires
                1 <= stride,
                0 <= last,
        ;
    }
    assert forall|i: int, j: int| 0 <= i < j < ports.len() implies ports[i] < ports[j] by {
        lemma_ports_from_index(start, stride, i);
        lemma_ports_from_index(start, stride, j);
        assert(i * stride < j * stride) by (nonlinear_arith)
            requires
                1 <= stride,
                i < j,
        ;
    }
    assert forall|k: int| 0 <= k < ports.len() implies 1 <= #[trigger] ports[k] <= MAX_PORT by {
        lemma_ports_from_index(start, stride, k);
    }
}

/// A task examines exactly the ports that it owns: those in `1..=MAX_PORT` that leave the
/// task's offset as remainder when one less than the port is divided by the stride.
pub proof fn lemma_task_ports_are_owned(offset: int, stride: int, port: u16)
    requires
        1 <= stride,
        0 <= offset < stride,
    ensures
        task_ports(offset, stride).contains(port) <==> owns(offset, stride, port as int),
{
    let ports = task_ports(offset, stride);
    let start = offset + 1;
    if ports.contains(port) {
        let k = choose|k: int| 0 <= k < ports.len() && ports[k] == port;
        lemma_ports_from_index(start, stride, k);
        lemma_fundamental_div_mod_converse(port - 1, stride, k, offset);
    }
    if owns(offset, stride, port as int) {
        let q = (port - 1) / stride;
        lemma_fundamental_div_mod(port - 1, stride);
        assert(q * stride == stride * q) by (nonlinear_arith);
        assert(0 <= q) by (nonlinear_arith)
            requires
                0 <= port - 1,
                1 <= stride,
                q == (port - 1) / stride,
        ;
        lemma_stride_index(start, stride, q);
        assert(ports[q] == port);
    }
}

/// Two different tasks of one scan never examine the same port.
pub proof fn lemma_tasks_are_disjoint(first: int, second: int, stride: int)
    requires
        0 <= first < stride,
        0 <= second < stride,
        first != second,
    ensures
        forall|port: u16|
            !(task_ports(first, stride).contains(port) && #[trigger] task_ports(
                second,
                stride,
            ).contains(port)),
{
    assert forall|port: u16|
        !(task_ports(first, stride).contains(port) && #[trigger] task_ports(
            second,
            stride,
        ).contains(port)) by {
        lemma_task_ports_are_owned(first, stride, port);
        lemma_task_ports_are_owned(second, stride, port);
    }
}

/// Every port from 1 to `MAX_PORT` is examined by a task of the scan, namely by its owner,
/// and port 0 by none.
pub proof fn lemma_every_port_has_its_task(stride: int, port: u16)
    requires
        1 <= stride,
    ensures
        1 <= port ==> 0 <= owner(stride, port as int) < stride && task_ports(
            owner(stride, port as int),
            stride,
        ).contains(port),
        forall|offset: int|
            0 <= offset < stride && #[trigger] task_ports(offset, stride).contains(port) ==> 1
                <= port && offset == owner(stride, port as int),
{
    if 1 <= port {
        lemma_fundamental_div_mod(port - 1, stride);
        assert(0 <= (port - 1) % stride < stride) by (nonlinear_arith)
            requires
                1 <= stride,
        ;
        lemma_task_ports_are_owned(owner(stride, port as int), stride, port);
    }
    assert forall|offset: int|
        0 <= offset < stride && #[trigger] task_ports(offset, stride).contains(port) implies 1
        <= port && offset == owner(stride, port as int) by {
        lemma_task_ports_are_owned(offset, stride, port);
    }
}

} // verus!
