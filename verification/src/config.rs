//! What a scan is asked to do: the host to probe and the number of workers to split the work.

use crate::partition::task_ports;
use crate::task::{TaskState, WorkerTask};
use vstd::prelude::*;

verus! {

/// An IPv4 or IPv6 address, by its parts.
#[derive(Clone, Copy, Debug, PartialEq, Eq)]
pub enum Target {
    /// The four octets of an IPv4 address.
    V4([u8; 4]),
    /// The eight 16-bit segments of an IPv6 address.
    V6([u16; 8]),
}

/// Why a scan cannot be set up.
#[derive(Clone, Copy, Debug, PartialEq, Eq)]
pub enum ConfigError {
    /// A scan needs at least one worker.
    NoWorkers,
}

impl ConfigError {
    /// The message that goes with the error.
    pub open spec fn message_text(self) -> Seq<char> {
        match self {
            ConfigError::NoWorkers => "the thread number must be at least 1"@,
        }
    }

    /// The message that goes with the error.
    pub fn message(&self) -> (text: &'static str)
        ensures
            text@ == self.message_text(),
    {
        match self {
            ConfigError::NoWorkers => "the thread number must be at least 1",
        }
    }
}

/// A validated scan: a target and a worker count of at least one.
#[derive(Clone, Copy, Debug)]
pub struct ScanConfig {
    target: Target,
    worker_count: u16,
}

impl ScanConfig {
    #[verifier::type_invariant]
    spec fn well_formed(&self) -> bool {
        1 <= self.worker_count
    }

    /// The host to probe.
    pub closed spec fn spec_target(&self) -> Target {
        self.target
    }

    /// The number of workers.
    pub closed spec fn spec_worker_count(&self) -> u16 {
        self.worker_count
    }

    /// The task state that worker `offset` of this scan starts from.
    pub open spec fn initial_task(&self, offset: int) -> TaskState {
        TaskState {
            target: self.spec_target(),
            offset,
            stride: self.spec_worker_count() as int,
            remaining: task_ports(offset, self.spec_worker_count() as int),
        }
    }

    /// Sets up a scan of `target` by `worker_count` workers. A scan without workers is
    /// refused.
    pub fn new(target: Target, worker_count: u16) -> (config: Result<ScanConfig, ConfigError>)
        ensures
            worker_count == 0 <==> config == Err::<ScanConfig, ConfigError>(ConfigError::NoWorkers),
            worker_count >= 1 <==> config is Ok,
            config matches Ok(c) ==> c.spec_target() == target && c.spec_worker_count()
                == worker_count,
    {
        if worker_count == 0 {
            Err(ConfigError::NoWorkers)
        } else {
            Ok(ScanConfig { target, worker_count })
        }
    }

    /// The host to probe.
    #[verifier::when_used_as_spec(spec_target)]
    pub fn target(&self) -> (target: Target)
        ensures
            target == self.spec_target(),
    {
        self.target
    }

    /// The number of workers, which is at least one.
    #[verifier::when_used_as_spec(spec_worker_count)]
    pub fn worker_count(&self) -> (count: u16)
        ensures
            count == self.spec_worker_count(),
            1 <= count,
    {
        proof {
            use_type_invariant(self);
        }
        self.worker_count
    }

    /// The task of worker `offset`, or `None` where the scan has no such worker.
    pub fn task(&self, offset: u16) -> (task: Option<WorkerTask>)
        ensures
            task is Some <==> offset < self.spec_worker_count(),
            task matches Some(t) ==> t@ == self.initial_task(offset as int),
    {
        if offset < self.worker_count {
            Some(WorkerTask::new(self.target, offset, self.worker_count))
        } else {
            None
        }
    }

    /// The tasks of the scan, one for each worker, by offset.
    pub fn tasks(&self) -> (tasks: Vec<WorkerTask>)
        ensures
            tasks.len() == self.spec_worker_count(),
            forall|i: int| 0 <= i < tasks.len() ==> (#[trigger] tasks[i])@ == self.initial_task(i),
    {
        let mut tasks: Vec<WorkerTask> = Vec::new();
        let mut offset: u16 = 0;
        while offset < self.worker_count
            invariant
                offset <= self.worker_count,
                tasks.len() == offset,
                forall|i: int|
                    0 <= i < tasks.len() ==> (#[trigger] tasks[i])@ == self.initial_task(i),
            decreases self.worker_count - offset,
        {
            tasks.push(WorkerTask::new(self.target, offset, self.worker_count));
            offset += 1;
        }
        tasks
    }
}

} // verus!
