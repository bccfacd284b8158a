//! One worker's walk along its stride, one probe at a time.

use crate::config::Target;
use crate::partition::{lemma_ports_from_unfold, next_on_stride, ports_from, task_ports};
use vstd::prelude::*;

verus! {

/// What a worker task is, to its callers.
pub struct TaskState {
    /// The host that the task probes.
    pub target: Target,
    /// The task's number among the workers, counted from zero.
    pub offset: int,
    /// The distance between two ports of the task: the number of workers.
    pub stride: int,
    /// The ports that the task has yet to settle, next one first.
    pub remaining: Seq<u16>,
}

/// One worker's share of a scan. The task hands out the port to probe next and is told how
/// each probe went; it never looks at a port of another task.
pub struct WorkerTask {
    target: Target,
    offset: u16,
    stride: u16,
    pending: Option<u16>,
}

/// The ports still to come when `pending` is the next one.
spec fn ports_ahead(pending: Option<u16>, stride: u16) -> Seq<u16> {
    match pending {
        Some(port) => ports_from(port as int, stride as int),
        None => Seq::empty(),
    }
}

impl View for WorkerTask {
    type V = TaskState;

    closed spec fn view(&self) -> TaskState {
        TaskState {
            target: self.target,
            offset: self.offset as int,
            stride: self.stride as int,
            remaining: ports_ahead(self.pending, self.stride),
        }
    }
}

impl WorkerTask {
    #[verifier::type_invariant]
    spec fn well_formed(&self) -> bool {
        &&& 1 <= self.stride
        &&& self.offset < self.stride
        &&& self.pending matches Some(port) ==> 1 <= port
    }

    /// The task with the given offset among `stride` workers, before its first probe.
    pub(crate) fn new(target: Target, offset: u16, stride: u16) -> (task: WorkerTask)
        requires
            offset < stride,
        ensures
            task@ == (TaskState {
                target,
                offset: offset as int,
                stride: stride as int,
                remaining: task_ports(offset as int, stride as int),
            }),
    {
        WorkerTask { target, offset, stride, pending: Some(offset + 1) }
    }

    /// The host that the task probes.
    pub fn target(&self) -> (target: Target)
        ensures
            target == self@.target,
    {
        self.target
    }

    /// The task's number among the workers.
    pub fn offset(&self) -> (offset: u16)
        ensures
            offset == self@.offset,
            offset < self@.stride,
    {
        proof {
            use_type_invariant(self);
        }
        self.offset
    }

    /// The distance between two ports of the task.
    pub fn stride(&self) -> (stride: u16)
        ensures
            stride == self@.stride,
            1 <= stride,
    {
        proof {
            use_type_invariant(self);
        }
        self.stride
    }

    /// The port to probe next, or `None` once the task has walked its whole stride.
    pub fn pending(&self) -> (port: Option<u16>)
        ensures
            port == if self@.remaining.len() > 0 {
                Some(self@.remaining[0])
            } else {
                None
            },
    {
        proof {
            use_type_invariant(self);
            if let Some(port) = self.pending {
                lemma_ports_from_unfold(port as int, self.stride as int);
            }
        }
        self.pending
    }

    /// The ports that the task has yet to settle, next one first.
    pub fn remaining(&self) -> (ports: Vec<u16>)
        ensures
            ports@ == self@.remaining,
    {
        proof {
            use_type_invariant(self);
        }
        let stride = self.stride;
        let mut ports: Vec<u16> = Vec::new();
        let mut cursor = self.pending;
        while cursor.is_some()
            invariant
                1 <= stride,
                cursor matches Some(port) ==> 1 <= port,
                ports@ + ports_ahead(cursor, stride) == ports_ahead(self.pending, self.stride),
            decreases ports_ahead(cursor, stride).len(),
        {
            let port = cursor.unwrap();
            let next = next_on_stride(port, stride);
            proof {
                lemma_ports_from_unfold(port as int, stride as int);
                let ahead = ports_ahead(cursor, stride);
                if next is None {
                    assert(ports_from(port + stride, stride as int) =~= Seq::empty());
                }
                assert(ahead.skip(1) == ports_ahead(next, stride));
                assert(ports@.push(port) + ahead.skip(1) =~= ports@ + ahead);
            }
            ports.push(port);
            cursor = next;
        }
        assert(ports@ + Seq::<u16>::empty() =~= ports@);
        ports
    }

    /// Takes note of how the probe of the pending port went and moves on to the next port.
    /// Returns the port to report as open: the probed port if the connection was made, and
    /// nothing if it was not. A finished task stays finished and reports nothing.
    pub fn settle(&mut self, connected: bool) -> (open: Option<u16>)
        ensures
            final(self)@.target == old(self)@.target,
            final(self)@.offset == old(self)@.offset,
            final(self)@.stride == old(self)@.stride,
            final(self)@.remaining == if old(self)@.remaining.len() > 0 {
                old(self)@.remaining.skip(1)
            } else {
                Seq::empty()
            },
            old(self)@.remaining.len() > 0 ==> final(self)@.remaining.len() + 1 == old(
                self,
            )@.remaining.len(),
            open == if connected && old(self)@.remaining.len() > 0 {
                Some(old(self)@.remaining[0])
            } else {
                None
            },
    {
        proof {
            use_type_invariant(&*self);
        }
        match self.pending {
            None => None,
            Some(port) => {
                proof {
                    lemma_ports_from_unfold(port as int, self.stride as int);
                }
                let next = next_on_stride(port, self.stride);
                proof {
                    if next is None {
                        assert(ports_from(port + self.stride, self.stride as int) =~= Seq::empty());
                    }
                }
                self.pending = next;
                if connected {
                    Some(port)
                } else {
                    None
                }
            },
        }
    }
}

} // verus!
