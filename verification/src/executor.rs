//! The parallel execution coordinator's decision kernel and the equivalence
//! theory behind it: units dispatched by the dependency graph complete in
//! arbitrary order, yet the merged history per address — and hence the
//! window's transition set — is the one strictly sequential execution
//! produces.

use vstd::prelude::*;

use crate::account::{
    AccountDelta, DeltaModel, clone_pairs, lemma_order_independent_merge, lemma_pairs_map_contains,
    lemma_pairs_map_index, pairs_map,
};
use crate::cache::{ApplyResult, SharedCacheState, Triple, apply_triples};
use crate::queue::ExecutionQueue;

verus! {

/// One execution unit's output: the per-address account deltas its run
/// produced against the pre-window state snapshot.
pub struct UnitOutput {
    /// `(address, delta)` pairs, at most one per address.
    pub deltas: Vec<(u64, AccountDelta)>,
}

/// The deltas a batch of triples aims at one address, keyed by revision.
/// When no two triples repeat an `(address, revision)` pair this is exactly
/// the batch's contribution to that address's history, whatever the order.
pub open spec fn triples_for(ts: Seq<Triple>, a: u64) -> Map<usize, DeltaModel>
    decreases ts.len(),
{
    if ts.len() == 0 {
        Map::empty()
    } else {
        let rest = triples_for(ts.drop_first(), a);
        if ts.first().1 == a {
            rest.insert(ts.first().0, ts.first().2)
        } else {
            rest
        }
    }
}

/// A revision is aimed at an address exactly when some triple carries both.
pub proof fn lemma_triples_for_dom(ts: Seq<Triple>, a: u64, k: usize)
    ensures
        triples_for(ts, a).dom().contains(k)
            <==> exists|i: int| 0 <= i < ts.len() && (#[trigger] ts[i]).1 == a && ts[i].0 == k,
    decreases ts.len(),
{
    if ts.len() > 0 {
        lemma_triples_for_dom(ts.drop_first(), a, k);
        if triples_for(ts, a).dom().contains(k) {
            if ts.first().1 == a && ts.first().0 == k {
                assert(ts[0].1 == a && ts[0].0 == k);
            } else {
                let i = choose|i: int| 0 <= i < ts.drop_first().len()
                    && (#[trigger] ts.drop_first()[i]).1 == a && ts.drop_first()[i].0 == k;
                assert(ts[i + 1].1 == a && ts[i + 1].0 == k);
            }
        }
        if exists|i: int| 0 <= i < ts.len() && (#[trigger] ts[i]).1 == a && ts[i].0 == k {
            let i = choose|i: int| 0 <= i < ts.len() && (#[trigger] ts[i]).1 == a && ts[i].0 == k;
            if i > 0 {
                assert(ts.drop_first()[i - 1] == ts[i]);
            }
        }
    }
}

/// A merge succeeds exactly when every triple aims at a loaded address with a
/// fresh revision, and the buffers then grow by precisely the batch's
/// per-address triples — a union, blind to the order the triples stood in.
pub proof fn lemma_apply_triples_union(bufs: Map<u64, Map<usize, DeltaModel>>, ts: Seq<Triple>)
    requires
        forall|i: int| 0 <= i < ts.len() ==> bufs.dom().contains((#[trigger] ts[i]).1),
        forall|i: int| 0 <= i < ts.len() ==> !bufs[(#[trigger] ts[i]).1].dom().contains(ts[i].0),
        forall|i: int, j: int| 0 <= i < j < ts.len() && (#[trigger] ts[i]).1 == (#[trigger] ts[j]).1
            ==> ts[i].0 != ts[j].0,
    ensures
        apply_triples(bufs, ts) is Merged,
        apply_triples(bufs, ts) matches ApplyResult::Merged { bufs: b2 } ==> b2.dom() == bufs.dom()
            && forall|a: u64| #[trigger] bufs.dom().contains(a)
                ==> b2[a] == bufs[a].union_prefer_right(triples_for(ts, a)),
    decreases ts.len(),
{
    if ts.len() == 0 {
        assert forall|a: u64| #[trigger] bufs.dom().contains(a)
            implies bufs[a] == bufs[a].union_prefer_right(triples_for(ts, a)) by {
            assert(bufs[a].union_prefer_right(Map::empty()) =~= bufs[a]);
        }
    } else {
        let t = ts.first();
        let tail = ts.drop_first();
        let bufs2 = bufs.insert(t.1, bufs[t.1].insert(t.0, t.2));
        assert(bufs2.dom() =~= bufs.dom());
        assert forall|i: int| 0 <= i < tail.len()
            implies !bufs2[(#[trigger] tail[i]).1].dom().contains(tail[i].0) by {
            assert(tail[i] == ts[i + 1]);
            if tail[i].1 == t.1 {
                assert(ts[0].0 != ts[i + 1].0);
            }
        }
        assert forall|i: int| 0 <= i < tail.len()
            implies bufs2.dom().contains((#[trigger] tail[i]).1) by {
            assert(tail[i] == ts[i + 1]);
        }
        assert forall|i: int, j: int| 0 <= i < j < tail.len()
            && (#[trigger] tail[i]).1 == (#[trigger] tail[j]).1 implies tail[i].0 != tail[j].0 by {
            assert(tail[i] == ts[i + 1] && tail[j] == ts[j + 1]);
        }
        lemma_apply_triples_union(bufs2, tail);
        assert(apply_triples(bufs, ts) == apply_triples(bufs2, tail));
        let b2 = match apply_triples(bufs2, tail) {
            ApplyResult::Merged { bufs: b } => b,
            _ => bufs,
        };
        assert forall|a: u64| #[trigger] bufs.dom().contains(a)
            implies b2[a] == bufs[a].union_prefer_right(triples_for(ts, a)) by {
            if a == t.1 {
                assert(!triples_for(tail, a).dom().contains(t.0)) by {
                    lemma_triples_for_dom(tail, a, t.0);
                    if exists|i: int| 0 <= i < tail.len() && (#[trigger] tail[i]).1 == a
                        && tail[i].0 == t.0 {
                        let i = choose|i: int| 0 <= i < tail.len() && (#[trigger] tail[i]).1 == a
                            && tail[i].0 == t.0;
                        assert(tail[i] == ts[i + 1]);
                        assert(ts[0].0 != ts[i + 1].0);
                    }
                }
                assert(triples_for(ts, a) == triples_for(tail, a).insert(t.0, t.2));
                assert(bufs2[a].union_prefer_right(triples_for(tail, a))
                    =~= bufs[a].union_prefer_right(triples_for(tail, a).insert(t.0, t.2)));
            } else {
                assert(bufs2[a] == bufs[a]);
                assert(triples_for(ts, a) == triples_for(tail, a));
            }
        }
    }
}

/// A successful merge certifies that every triple aimed at a loaded address
/// with a fresh revision and that no two triples repeated a pair.
pub proof fn lemma_merged_conditions(bufs: Map<u64, Map<usize, DeltaModel>>, ts: Seq<Triple>)
    requires
        apply_triples(bufs, ts) is Merged,
    ensures
        forall|i: int| 0 <= i < ts.len() ==> bufs.dom().contains((#[trigger] ts[i]).1),
        forall|i: int| 0 <= i < ts.len() ==> !bufs[(#[trigger] ts[i]).1].dom().contains(ts[i].0),
        forall|i: int, j: int| 0 <= i < j < ts.len() && (#[trigger] ts[i]).1 == (#[trigger] ts[j]).1
            ==> ts[i].0 != ts[j].0,
    decreases ts.len(),
{
    if ts.len() > 0 {
        let t = ts.first();
        let tail = ts.drop_first();
        let bufs2 = bufs.insert(t.1, bufs[t.1].insert(t.0, t.2));
        lemma_merged_conditions(bufs2, tail);
        assert(bufs2.dom() =~= bufs.dom());
        assert forall|i: int| 0 <= i < ts.len()
            implies bufs.dom().contains((#[trigger] ts[i]).1) by {
            if i > 0 {
                assert(tail[i - 1] == ts[i]);
            }
        }
        assert forall|i: int| 0 <= i < ts.len()
            implies !bufs[(#[trigger] ts[i]).1].dom().contains(ts[i].0) by {
            if i > 0 {
                assert(tail[i - 1] == ts[i]);
                assert(!bufs2[ts[i].1].dom().contains(ts[i].0));
                if ts[i].1 == t.1 {
                    assert(bufs2[t.1] == bufs[t.1].insert(t.0, t.2));
                }
            }
        }
        assert forall|i: int, j: int| 0 <= i < j < ts.len()
            && (#[trigger] ts[i]).1 == (#[trigger] ts[j]).1 implies ts[i].0 != ts[j].0 by {
            if i == 0 {
                assert(tail[j - 1] == ts[j]);
                assert(!bufs2[ts[j].1].dom().contains(ts[j].0));
                assert(bufs2[t.1] == bufs[t.1].insert(t.0, t.2));
            } else {
                assert(tail[i - 1] == ts[i] && tail[j - 1] == ts[j]);
            }
        }
    }
}

/// Equivalence of merge orders: two batches carrying the same per-address
/// revision-keyed deltas — one the strictly sequential order, the other any
/// interleaving a partition into independent groups produced — merge from the
/// same buffers to the same buffers, provided both merges succeed.
pub proof fn lemma_merge_order_equivalence(
    bufs: Map<u64, Map<usize, DeltaModel>>,
    ts1: Seq<Triple>,
    ts2: Seq<Triple>,
)
    requires
        apply_triples(bufs, ts1) is Merged,
        apply_triples(bufs, ts2) is Merged,
        forall|a: u64| #[trigger] triples_for(ts1, a) == triples_for(ts2, a),
    ensures
        apply_triples(bufs, ts1) == apply_triples(bufs, ts2),
{
    lemma_merged_conditions(bufs, ts1);
    lemma_merged_conditions(bufs, ts2);
    lemma_apply_triples_union(bufs, ts1);
    lemma_apply_triples_union(bufs, ts2);
    match (apply_triples(bufs, ts1), apply_triples(bufs, ts2)) {
        (ApplyResult::Merged { bufs: b1 }, ApplyResult::Merged { bufs: b2 }) => {
            assert(b1 =~= b2);
        },
        _ => {},
    }
}

/// Caches holding the same account states produce the same transition set:
/// the per-entry transition depends only on the pre-window snapshot and the
/// buffered revision map, never on arrival order or representation.
pub proof fn lemma_transitions_from_state(c1: SharedCacheState, c2: SharedCacheState)
    requires
        c1.wf(),
        c2.wf(),
        c1.has_state_clear == c2.has_state_clear,
        c1.table().dom() == c2.table().dom(),
        forall|a: u64| #[trigger] c1.table().dom().contains(a) ==> {
            &&& c1.table()[a].original_info == c2.table()[a].original_info
            &&& pairs_map(c1.table()[a].original_storage@) == pairs_map(c2.table()[a].original_storage@)
            &&& c1.table()[a].buffered_map() == c2.table()[a].buffered_map()
        },
    ensures
        c1.transitions_model() == c2.transitions_model(),
{
    assert forall|a: u64| #[trigger] c1.table().dom().contains(a) implies {
        &&& c1.table()[a].emits_transition(c1.has_state_clear)
            == c2.table()[a].emits_transition(c2.has_state_clear)
        &&& c1.table()[a].transition_model(c1.has_state_clear)
            == c2.table()[a].transition_model(c2.has_state_clear)
    } by {
        lemma_pairs_map_contains(c1.accounts@, a);
        let j1 = choose|j: int| 0 <= j < c1.accounts@.len() && (#[trigger] c1.accounts@[j]).0 == a;
        lemma_pairs_map_index(c1.accounts@, j1);
        lemma_pairs_map_contains(c2.accounts@, a);
        let j2 = choose|j: int| 0 <= j < c2.accounts@.len() && (#[trigger] c2.accounts@[j]).0 == a;
        lemma_pairs_map_index(c2.accounts@, j2);
        let e1 = c1.table()[a];
        let e2 = c2.table()[a];
        assert(e1.wf() && e2.wf());
        lemma_order_independent_merge(e1, e2, c1.has_state_clear);
        assert(e1.buffered@.len() == e2.buffered@.len()) by {
            crate::account::lemma_sorted_unique(crate::account::keyed(e1.buffered@));
            crate::account::lemma_sorted_unique(crate::account::keyed(e2.buffered@));
            crate::account::lemma_pairs_map_len(crate::account::keyed(e1.buffered@));
            crate::account::lemma_pairs_map_len(crate::account::keyed(e2.buffered@));
        }
    }
    assert(c1.transitions_model() =~= c2.transitions_model());
}

/// Equivalence of parallel and sequential execution, end to end: two caches
/// that began the window in the same state and merged the same per-address
/// revision-tagged deltas — one batch order the strictly sequential one, the
/// other any interleaving a partition into independent groups produced —
/// finalize to the same transition set.
pub proof fn lemma_parallel_sequential_equivalence(
    c1: SharedCacheState,
    c2: SharedCacheState,
    ts1: Seq<Triple>,
    ts2: Seq<Triple>,
    d1: SharedCacheState,
    d2: SharedCacheState,
)
    requires
        c1.wf(),
        c2.wf(),
        d1.wf(),
        d2.wf(),
        c1.has_state_clear == c2.has_state_clear,
        d1.has_state_clear == c1.has_state_clear,
        d2.has_state_clear == c2.has_state_clear,
        c1.table().dom() == c2.table().dom(),
        c1.bufs_of() == c2.bufs_of(),
        forall|a: u64| #[trigger] c1.table().dom().contains(a)
            ==> c1.table()[a].original_info == c2.table()[a].original_info
                && pairs_map(c1.table()[a].original_storage@)
                    == pairs_map(c2.table()[a].original_storage@),
        forall|a: u64| #[trigger] triples_for(ts1, a) == triples_for(ts2, a),
        apply_triples(c1.bufs_of(), ts1) == (ApplyResult::Merged { bufs: d1.bufs_of() }),
        apply_triples(c2.bufs_of(), ts2) == (ApplyResult::Merged { bufs: d2.bufs_of() }),
        d1.table().dom() == c1.table().dom(),
        d2.table().dom() == c2.table().dom(),
        forall|a: u64| #[trigger] c1.table().dom().contains(a)
            ==> d1.table()[a].original_info == c1.table()[a].original_info
                && d1.table()[a].original_storage@ == c1.table()[a].original_storage@,
        forall|a: u64| #[trigger] c2.table().dom().contains(a)
            ==> d2.table()[a].original_info == c2.table()[a].original_info
                && d2.table()[a].original_storage@ == c2.table()[a].original_storage@,
    ensures
        d1.bufs_of() == d2.bufs_of(),
        d1.transitions_model() == d2.transitions_model(),
{
    lemma_merge_order_equivalence(c1.bufs_of(), ts1, ts2);
    assert(d1.bufs_of() == d2.bufs_of());
    assert forall|a: u64| #[trigger] d1.table().dom().contains(a) implies {
        &&& d1.table()[a].original_info == d2.table()[a].original_info
        &&& pairs_map(d1.table()[a].original_storage@) == pairs_map(d2.table()[a].original_storage@)
        &&& d1.table()[a].buffered_map() == d2.table()[a].buffered_map()
    } by {
        assert(d1.bufs_of()[a] == d1.table()[a].buffered_map());
        assert(d2.bufs_of()[a] == d2.table()[a].buffered_map());
    }
    lemma_transitions_from_state(d1, d2);
}

/// An element-wise copy of one unit's deltas, preserving their values.
pub fn clone_deltas(v: &Vec<(u64, AccountDelta)>) -> (r: Vec<(u64, AccountDelta)>)
    ensures
        r@.len() == v@.len(),
        forall|j: int| 0 <= j < v@.len()
            ==> (#[trigger] r@[j]).0 == v@[j].0 && r@[j].1.model() == v@[j].1.model(),
{
    let mut r: Vec<(u64, AccountDelta)> = Vec::new();
    let mut i: usize = 0;
    while i < v.len()
        invariant
            i <= v@.len(),
            r@.len() == i,
            forall|j: int| 0 <= j < i
                ==> (#[trigger] r@[j]).0 == v@[j].0 && r@[j].1.model() == v@[j].1.model(),
        decreases v@.len() - i,
    {
        let p: &(u64, AccountDelta) = &v[i];
        let d = AccountDelta {
            post_info: p.1.post_info,
            storage_writes: clone_pairs(&p.1.storage_writes),
        };
        r.push((p.0, d));
        i += 1;
    }
    r
}

/// The coordinator's sequential decision point: it alone tracks which units
/// completed and asks the queue what may run next; workers themselves never
/// wait on each other. Dispatching, executing and merging are the caller's
/// loop — it performs each ready unit, merges its tagged output, marks it
/// completed, and finalizes exactly once when nothing remains.
pub struct ParallelCoordinator {
    /// The window's dependency graph.
    pub queue: ExecutionQueue,
    /// Which units have completed, by unit index.
    pub completed: Vec<bool>,
}

impl ParallelCoordinator {
    /// Coordinator well-formedness: a validated graph and one completion
    /// mark per unit.
    pub open spec fn wf(self) -> bool {
        &&& self.queue.well_formed()
        &&& self.completed@.len() == self.queue.n_units()
    }

    /// A coordinator for one window, with nothing completed yet.
    pub fn new(queue: ExecutionQueue) -> (r: Self)
        requires
            queue.well_formed(),
        ensures
            r.wf(),
            r.queue == queue,
            r.completed@.len() == queue.n_units(),
            forall|j: int| 0 <= j < r.completed@.len() ==> !(#[trigger] r.completed@[j]),
    {
        let n = queue.deps.len();
        let mut completed: Vec<bool> = Vec::new();
        let mut i: usize = 0;
        while i < n
            invariant
                i <= n,
                completed@.len() == i,
                forall|j: int| 0 <= j < i ==> !(#[trigger] completed@[j]),
            decreases n - i,
        {
            completed.push(false);
            i += 1;
        }
        ParallelCoordinator { queue, completed }
    }

    /// The units that may be dispatched now: exactly those not yet completed
    /// whose full dependency set is completed, in increasing order.
    pub fn next_batch(&self) -> (r: Vec<usize>)
        requires
            self.wf(),
        ensures
            forall|x: int| 0 <= x < r@.len()
                ==> self.queue.is_ready(self.completed@, (#[trigger] r@[x]) as int),
            forall|u: int| #[trigger] self.queue.is_ready(self.completed@, u)
                ==> r@.contains(u as usize),
            forall|x: int, y: int| 0 <= x < y < r@.len() ==> (#[trigger] r@[x]) < (#[trigger] r@[y]),
    {
        self.queue.ready_units(&self.completed)
    }

    /// Records that one unit's output has been merged.
    pub fn mark_completed(&mut self, unit: usize)
        requires
            old(self).wf(),
            unit < old(self).completed@.len(),
        ensures
            final(self).wf(),
            final(self).queue == old(self).queue,
            final(self).completed@ == old(self).completed@.update(unit as int, true),
    {
        let _ = self.completed.remove(unit);
        self.completed.insert(unit, true);
        proof {
            assert(self.completed@ =~= old(self).completed@.update(unit as int, true));
        }
    }

    /// Whether every unit of the window has completed; the window is then
    /// finalized exactly once.
    pub fn all_completed(&self) -> (r: bool)
        ensures
            r == (forall|j: int| 0 <= j < self.completed@.len() ==> (#[trigger] self.completed@[j])),
    {
        let mut i: usize = 0;
        while i < self.completed.len()
            invariant
                i <= self.completed@.len(),
                forall|j: int| 0 <= j < i ==> (#[trigger] self.completed@[j]),
            decreases self.completed@.len() - i,
        {
            if !self.completed[i] {
                return false;
            }
            i += 1;
        }
        true
    }
}

} // verus!
