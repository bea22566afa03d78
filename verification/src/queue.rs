//! The dependency-graph-driven execution queue: a persisted adjacency
//! encoding of which execution units must wait on which, exposing the one
//! scheduling primitive a coordinator needs — the set of units whose full
//! dependency set is completed.

use vstd::prelude::*;

verus! {

/// A configuration failure reported before any execution begins.
#[derive(Clone, Copy, Debug, PartialEq, Eq, Structural)]
pub enum ConfigError {
    /// Parallel execution was selected without a queue store to drive it.
    MissingQueueStore,
    /// The persisted dependency graph references units inconsistently: a
    /// dependency must point at an earlier unit.
    MalformedQueue,
}

/// An adjacency encoding is well-formed when every dependency of a unit
/// points at an earlier unit; revisions then respect dependencies and the
/// graph is free of cycles.
pub open spec fn deps_well_formed(deps: Seq<Vec<usize>>) -> bool {
    forall|u: int, k: int| 0 <= u < deps.len() && 0 <= k < deps[u]@.len()
        ==> (#[trigger] deps[u]@[k]) < u
}

/// One window's dependency graph: unit `u` (whose revision is `u`) may only
/// run once every unit in `deps[u]` has completed.
pub struct ExecutionQueue {
    /// For each unit, the units it waits on.
    pub deps: Vec<Vec<usize>>,
}

impl ExecutionQueue {
    /// The number of execution units the window holds.
    pub open spec fn n_units(self) -> nat {
        self.deps@.len()
    }

    /// See [`deps_well_formed`].
    pub open spec fn well_formed(self) -> bool {
        deps_well_formed(self.deps@)
    }

    /// Validates a loaded adjacency encoding; an encoding whose dependencies
    /// do not all point backwards is a fatal configuration error, reported
    /// before any execution begins.
    pub fn new(deps: Vec<Vec<usize>>) -> (r: Result<ExecutionQueue, ConfigError>)
        ensures
            match r {
                Ok(q) => q.deps@ == deps@ && q.well_formed(),
                Err(e) => e == ConfigError::MalformedQueue && !deps_well_formed(deps@),
            },
    {
        let mut u: usize = 0;
        while u < deps.len()
            invariant
                u <= deps@.len(),
                forall|x: int, k: int| 0 <= x < u && 0 <= k < deps@[x]@.len()
                    ==> (#[trigger] deps@[x]@[k]) < x,
            decreases deps@.len() - u,
        {
            let du: &Vec<usize> = &deps[u];
            let mut k: usize = 0;
            while k < du.len()
                invariant
                    k <= du@.len(),
                    du@ == deps@[u as int]@,
                    u < deps@.len(),
                    forall|j: int| 0 <= j < k ==> (#[trigger] du@[j]) < u,
                decreases du@.len() - k,
            {
                if du[k] >= u {
                    return Err(ConfigError::MalformedQueue);
                }
                k += 1;
            }
            u += 1;
        }
        Ok(ExecutionQueue { deps })
    }

    /// Unit `u` is ready under a completed set when it has not completed
    /// itself and every unit it waits on has.
    pub open spec fn is_ready(self, completed: Seq<bool>, u: int) -> bool {
        &&& 0 <= u < self.deps@.len()
        &&& !completed[u]
        &&& forall|k: int| 0 <= k < self.deps@[u]@.len()
            ==> completed[#[trigger] self.deps@[u]@[k] as int]
    }

    /// The sole scheduling primitive: all not-yet-completed units whose full
    /// dependency set is a subset of `completed`, in increasing order. A
    /// correct coordinator needs nothing else for maximal safe parallelism.
    pub fn ready_units(&self, completed: &Vec<bool>) -> (r: Vec<usize>)
        requires
            self.well_formed(),
            completed@.len() == self.deps@.len(),
        ensures
            forall|x: int| 0 <= x < r@.len() ==> self.is_ready(completed@, (#[trigger] r@[x]) as int),
            forall|u: int| #[trigger] self.is_ready(completed@, u) ==> r@.contains(u as usize),
            forall|x: int, y: int| 0 <= x < y < r@.len() ==> (#[trigger] r@[x]) < (#[trigger] r@[y]),
    {
        let mut r: Vec<usize> = Vec::new();
        let mut u: usize = 0;
        while u < self.deps.len()
            invariant
                self.well_formed(),
                completed@.len() == self.deps@.len(),
                u <= self.deps@.len(),
                forall|x: int| 0 <= x < r@.len() ==> self.is_ready(completed@, (#[trigger] r@[x]) as int),
                forall|x: int| 0 <= x < r@.len() ==> (#[trigger] r@[x]) < u,
                forall|v: int| 0 <= v < u && #[trigger] self.is_ready(completed@, v)
                    ==> r@.contains(v as usize),
                forall|x: int, y: int| 0 <= x < y < r@.len() ==> (#[trigger] r@[x]) < (#[trigger] r@[y]),
            decreases self.deps@.len() - u,
        {
            if !completed[u] {
                let du: &Vec<usize> = &self.deps[u];
                let mut all_done = true;
                let mut k: usize = 0;
                while k < du.len()
                    invariant
                        k <= du@.len(),
                        du@ == self.deps@[u as int]@,
                        u < self.deps@.len(),
                        completed@.len() == self.deps@.len(),
                        self.well_formed(),
                        all_done == (forall|j: int| 0 <= j < k
                            ==> completed@[(#[trigger] du@[j]) as int]),
                    decreases du@.len() - k,
                {
                    proof {
                        assert(du@[k as int] < u);
                    }
                    if !completed[du[k]] {
                        all_done = false;
                    }
                    k += 1;
                }
                if all_done {
                    let ghost pre = r@;
                    r.push(u);
                    proof {
                        assert(self.is_ready(completed@, u as int));
                        assert forall|v: int| 0 <= v < u + 1 && #[trigger] self.is_ready(completed@, v)
                            implies r@.contains(v as usize) by {
                            if v < u {
                                assert(pre.contains(v as usize));
                                let x = choose|x: int| 0 <= x < pre.len() && pre[x] == v as usize;
                                assert(r@[x] == v as usize);
                            } else {
                                assert(r@[r@.len() - 1] == u);
                            }
                        }
                    }
                }
            }
            u += 1;
        }
        r
    }

    /// A well-formed graph can always schedule: while any unit is not yet
    /// completed, some unit is ready. The fatal no-ready-unit scheduling
    /// error can therefore only arise from a malformed encoding, which
    /// [`ExecutionQueue::new`] rejects.
    pub proof fn lemma_progress(self, completed: Seq<bool>, u: int)
        requires
            self.well_formed(),
            completed.len() == self.deps@.len(),
            0 <= u < completed.len(),
            !completed[u],
        ensures
            exists|w: int| self.is_ready(completed, w),
        decreases u,
    {
        if forall|j: int| 0 <= j < u ==> completed[j] {
            assert(self.is_ready(completed, u));
        } else {
            let j = choose|j: int| 0 <= j < u && !completed[j];
            self.lemma_progress(completed, j);
        }
    }
}

/// The persisted collection of execution queues, one per window of work,
/// loaded once and reused across runs.
pub struct BlockQueueStore {
    /// The stored queues, in window order.
    pub queues: Vec<ExecutionQueue>,
}

impl BlockQueueStore {
    /// Wraps loaded queues.
    pub fn new(queues: Vec<ExecutionQueue>) -> (r: Self)
        ensures
            r.queues@ == queues@,
    {
        BlockQueueStore { queues }
    }

    /// The number of stored queues.
    pub fn len(&self) -> (r: usize)
        ensures
            r == self.queues@.len(),
    {
        self.queues.len()
    }

    /// The queue for one window, if the store holds it.
    pub fn get_queue(&self, index: usize) -> (r: Option<&ExecutionQueue>)
        ensures
            match r {
                Some(q) => index < self.queues@.len() && *q == self.queues@[index as int],
                None => index >= self.queues@.len(),
            },
    {
        if index < self.queues.len() {
            Some(&self.queues[index])
        } else {
            None
        }
    }
}

} // verus!
