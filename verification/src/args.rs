//! Execution arguments: selecting the sequential or the parallel strategy
//! for historical sync, and the factories either one is driven through.

use vstd::prelude::*;

use crate::queue::{BlockQueueStore, ConfigError, ExecutionQueue, deps_well_formed};

verus! {

/// The slice of chain configuration the execution core consumes.
#[derive(Clone, Copy, Debug, PartialEq, Eq, Structural)]
pub struct ChainConfig {
    /// Whether the state-clearing policy is active for the processed range.
    pub has_state_clear: bool,
}

/// Parameters for historical execution.
pub struct ExecutionArgs {
    /// Run historical execution in parallel.
    pub parallel: bool,
    /// Path to the persisted block queues for parallel execution; required
    /// when `parallel` is set.
    pub queue_store: Option<String>,
}

/// Factory of the conventional one-unit-at-a-time strategy, the baseline the
/// parallel strategy must match transition set for transition set.
pub struct EVMProcessorFactory {
    /// Chain configuration handed to every executor the factory produces.
    pub chain: ChainConfig,
}

impl EVMProcessorFactory {
    /// A sequential executor factory for the given chain.
    pub fn new(chain: ChainConfig) -> (r: Self)
        ensures
            r.chain == chain,
    {
        EVMProcessorFactory { chain }
    }
}

/// Factory of the parallel strategy: the precomputed queue store drives the
/// dispatch of independent units to workers.
pub struct ParallelExecutorFactory {
    /// Chain configuration handed to every executor the factory produces.
    pub chain: ChainConfig,
    /// The persisted dependency graphs, one per window.
    pub store: BlockQueueStore,
}

impl ParallelExecutorFactory {
    /// A parallel executor factory over a loaded queue store.
    pub fn new(chain: ChainConfig, store: BlockQueueStore) -> (r: Self)
        ensures
            r.chain == chain,
            r.store.queues@ == store.queues@,
    {
        ParallelExecutorFactory { chain, store }
    }
}

/// A type that represents one of two possible executor factories; callers
/// can substitute one strategy for the other transparently.
pub enum EitherExecutorFactory<A, B> {
    /// The first factory variant.
    Left(A),
    /// The second factory variant.
    Right(B),
}

impl ExecutionArgs {
    /// Chooses the executor factory for historical sync. The parallel
    /// strategy needs the persisted queue store, handed in as one adjacency
    /// encoding per window: selecting parallel execution without it, or with
    /// an encoding whose dependencies do not all point at earlier units, is a
    /// configuration error reported before any execution begins.
    pub fn pipeline_executor_factory(
        &self,
        chain: ChainConfig,
        queues: Option<Vec<Vec<Vec<usize>>>>,
    ) -> (r: Result<EitherExecutorFactory<EVMProcessorFactory, ParallelExecutorFactory>, ConfigError>)
        ensures
            !self.parallel ==> (r matches Ok(EitherExecutorFactory::Left(f)) && f.chain == chain),
            self.parallel && queues is None ==> r == Err::<
                EitherExecutorFactory<EVMProcessorFactory, ParallelExecutorFactory>,
                ConfigError,
            >(ConfigError::MissingQueueStore),
            self.parallel ==> match queues {
                None => r is Err,
                Some(qs) => {
                    if forall|i: int| 0 <= i < qs@.len() ==> deps_well_formed((#[trigger] qs@[i])@) {
                        r matches Ok(EitherExecutorFactory::Right(f)) && f.chain == chain
                            && f.store.queues@.len() == qs@.len()
                            && (forall|i: int| 0 <= i < qs@.len()
                                ==> (#[trigger] f.store.queues@[i]).deps@ == qs@[i]@
                                    && f.store.queues@[i].well_formed())
                    } else {
                        r == Err::<
                            EitherExecutorFactory<EVMProcessorFactory, ParallelExecutorFactory>,
                            ConfigError,
                        >(ConfigError::MalformedQueue)
                    }
                },
            },
    {
        if !self.parallel {
            return Ok(EitherExecutorFactory::Left(EVMProcessorFactory::new(chain)));
        }
        match queues {
            None => Err(ConfigError::MissingQueueStore),
            Some(qs) => {
                let ghost qs0 = qs@;
                let mut remaining = qs;
                let mut built: Vec<ExecutionQueue> = Vec::new();
                while remaining.len() > 0
                    invariant
                        self.parallel,
                        (queues matches Some(q) && q@ == qs0),
                        built@.len() + remaining@.len() == qs0.len(),
                        forall|j: int| 0 <= j < remaining@.len()
                            ==> (#[trigger] remaining@[j])@ == qs0[built@.len() + j]@,
                        forall|i: int| 0 <= i < built@.len()
                            ==> (#[trigger] built@[i]).deps@ == qs0[i]@
                                && built@[i].well_formed(),
                    decreases remaining@.len(),
                {
                    let next = remaining.remove(0);
                    let ghost k = built@.len() as int;
                    proof {
                        assert(next@ == qs0[k]@);
                    }
                    match ExecutionQueue::new(next) {
                        Ok(q) => {
                            built.push(q);
                        },
                        Err(_) => {
                            proof {
                                assert(!deps_well_formed(qs0[k]@));
                            }
                            return Err(ConfigError::MalformedQueue);
                        },
                    }
                }
                proof {
                    assert forall|i: int| 0 <= i < qs0.len()
                        implies deps_well_formed((#[trigger] qs0[i])@) by {
                        assert(built@[i].deps@ == qs0[i]@);
                        assert(built@[i].well_formed());
                    }
                }
                Ok(EitherExecutorFactory::Right(ParallelExecutorFactory::new(
                    chain,
                    BlockQueueStore::new(built),
                )))
            },
        }
    }
}

} // verus!
