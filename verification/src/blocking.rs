//! Capacity and failures of the bounded pool that runs synchronous handlers.
use vstd::prelude::*;
use vstd::string::*;

verus! {

/// Capacity and worker count for synchronous blocking handlers.
#[derive(Clone, Copy, Debug, PartialEq, Eq, Structural)]
pub struct BlockingPoolConfig {
    workers: usize,
    queue_capacity: usize,
}

impl BlockingPoolConfig {
    /// A pool always has a worker and room for a job.
    #[verifier::type_invariant]
    spec fn well_formed(self) -> bool {
        self.workers > 0 && self.queue_capacity > 0
    }

    pub closed spec fn spec_workers(self) -> usize {
        self.workers
    }

    pub closed spec fn spec_queue_capacity(self) -> usize {
        self.queue_capacity
    }

    #[must_use]
    pub fn new(workers: usize, queue_capacity: usize) -> (config: Self)
        requires
            workers > 0,
            queue_capacity > 0,
        ensures
            config.spec_workers() == workers,
            config.spec_queue_capacity() == queue_capacity,
    {
        BlockingPoolConfig { workers, queue_capacity }
    }

    /// The configuration for a machine that runs `parallelism` threads at
    /// once: at least two workers, and a queue of 1024 jobs.
    #[must_use]
    pub fn for_parallelism(parallelism: usize) -> (config: Self)
        ensures
            config.spec_workers() == if parallelism < 2 {
                2
            } else {
                parallelism
            },
            config.spec_queue_capacity() == 1024,
    {
        let workers: usize = if parallelism < 2 {
            2
        } else {
            parallelism
        };
        BlockingPoolConfig { workers, queue_capacity: 1024 }
    }

    #[must_use]
    pub fn workers(self) -> (workers: usize)
        ensures
            workers == self.spec_workers(),
            workers > 0,
    {
        proof {
            use_type_invariant(self);
        }
        self.workers
    }

    #[must_use]
    pub fn queue_capacity(self) -> (capacity: usize)
        ensures
            capacity == self.spec_queue_capacity(),
            capacity > 0,
    {
        proof {
            use_type_invariant(self);
        }
        self.queue_capacity
    }
}

/// Failure to schedule or execute a synchronous blocking handler.
#[derive(Clone, Copy, Debug, PartialEq, Eq, Structural)]
pub enum BlockingError {
    Saturated,
    Unavailable,
    Panicked,
    AlreadyConfigured,
}

/// The message of a blocking failure.
pub open spec fn blocking_message(error: BlockingError) -> Seq<char> {
    match error {
        BlockingError::Saturated => "blocking handler queue is saturated"@,
        BlockingError::Unavailable => "blocking handler pool is unavailable"@,
        BlockingError::Panicked => "blocking handler panicked"@,
        BlockingError::AlreadyConfigured => "blocking handler pool is already configured"@,
    }
}

impl BlockingError {
    /// The message shown for the failure.
    #[must_use]
    pub fn to_string(&self) -> (text: String)
        ensures
            text@ == blocking_message(*self),
    {
        match self {
            BlockingError::Saturated => "blocking handler queue is saturated".to_owned(),
            BlockingError::Unavailable => "blocking handler pool is unavailable".to_owned(),
            BlockingError::Panicked => "blocking handler panicked".to_owned(),
            BlockingError::AlreadyConfigured => {
                "blocking handler pool is already configured".to_owned()
            },
        }
    }
}

} // verus!
