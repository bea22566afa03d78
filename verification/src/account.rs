//! Account state, per-unit account deltas, and the per-account revision-merge
//! algorithm: one cache entry buffers the out-of-order outputs of execution
//! units and folds them in revision order into a single transition.

use vstd::prelude::*;

verus! {

/// One account's identity-independent state: balance, nonce and the hash of
/// its code. A 256-bit chain word is modelled by a 128-bit value and a code
/// hash by a 64-bit value; the merge logic never does arithmetic on them, it
/// only compares and copies.
#[derive(Clone, Copy, Debug, PartialEq, Eq, Structural)]
pub struct AccountInfo {
    pub balance: u128,
    pub nonce: u64,
    pub code_hash: u64,
}

/// Hash of the empty code blob; an account whose code hash equals it carries
/// no code.
pub const EMPTY_CODE_HASH: u64 = 0xc5d2460186f7233c;

impl AccountInfo {
    /// The canonical empty account: zero balance, zero nonce, empty code.
    pub open spec fn is_empty_spec(self) -> bool {
        self.balance == 0 && self.nonce == 0 && self.code_hash == EMPTY_CODE_HASH
    }

    /// Returns whether this is the canonical empty account, the state that an
    /// active state-clearing policy prunes.
    pub fn is_empty(&self) -> (r: bool)
        ensures
            r == self.is_empty_spec(),
    {
        self.balance == 0 && self.nonce == 0 && self.code_hash == EMPTY_CODE_HASH
    }

    /// The canonical empty account value.
    pub fn empty() -> (r: AccountInfo)
        ensures
            r.is_empty_spec(),
    {
        AccountInfo { balance: 0, nonce: 0, code_hash: EMPTY_CODE_HASH }
    }
}

/// The account state one execution unit leaves behind for one address:
/// the full post-state info (`None` means the unit destroyed the account)
/// plus the storage slots the unit wrote, later writes winning.
pub struct AccountDelta {
    /// Account info after the unit ran; `None` if the account no longer exists.
    pub post_info: Option<AccountInfo>,
    /// Storage writes `(slot, new value)` made by the unit, in program order.
    pub storage_writes: Vec<(u64, u128)>,
}

/// Mathematical value of an [`AccountDelta`].
pub struct DeltaModel {
    pub post_info: Option<AccountInfo>,
    pub writes: Seq<(u64, u128)>,
}

impl AccountDelta {
    /// The delta as a mathematical value.
    pub open spec fn model(self) -> DeltaModel {
        DeltaModel { post_info: self.post_info, writes: self.storage_writes@ }
    }
}

/// Mathematical value of one account's full state: its info (absent if the
/// account does not exist) and its storage.
pub struct AccountModel {
    pub info: Option<AccountInfo>,
    pub storage: Map<u64, u128>,
}

/// The map an association sequence denotes; a later pair overrides an
/// earlier one with the same key.
pub open spec fn pairs_map<K, V>(s: Seq<(K, V)>) -> Map<K, V>
    decreases s.len(),
{
    if s.len() == 0 {
        Map::empty()
    } else {
        pairs_map(s.drop_last()).insert(s.last().0, s.last().1)
    }
}

/// No two pairs of the sequence share a key.
pub open spec fn unique_keys<K, V>(s: Seq<(K, V)>) -> bool {
    forall|i: int, j: int| 0 <= i < j < s.len() ==> #[trigger] s[i].0 != #[trigger] s[j].0
}

/// A key is in the denoted map exactly when some pair carries it.
pub proof fn lemma_pairs_map_contains<K, V>(s: Seq<(K, V)>, k: K)
    ensures
        pairs_map(s).dom().contains(k) <==> exists|i: int| 0 <= i < s.len() && (#[trigger] s[i]).0 == k,
    decreases s.len(),
{
    if s.len() > 0 {
        lemma_pairs_map_contains(s.drop_last(), k);
        if s.last().0 == k {
            assert(s[s.len() - 1].0 == k);
        } else if pairs_map(s).dom().contains(k) {
            let i = choose|i: int| 0 <= i < s.drop_last().len() && (#[trigger] s.drop_last()[i]).0 == k;
            assert(s[i].0 == k);
        } else {
            assert forall|i: int| 0 <= i < s.len() implies (#[trigger] s[i]).0 != k by {
                if i < s.len() - 1 {
                    assert(s.drop_last()[i] == s[i]);
                }
            }
        }
    }
}

/// Under unique keys, the denoted map sends each pair's key to its value.
pub proof fn lemma_pairs_map_index<K, V>(s: Seq<(K, V)>, i: int)
    requires
        unique_keys(s),
        0 <= i < s.len(),
    ensures
        pairs_map(s).dom().contains(s[i].0),
        pairs_map(s)[s[i].0] == s[i].1,
    decreases s.len(),
{
    if i == s.len() - 1 {
    } else {
        assert(s.drop_last()[i] == s[i]);
        lemma_pairs_map_index(s.drop_last(), i);
        assert(s[s.len() - 1].0 != s[i].0);
    }
}

/// Replacing the value at one position, key kept, denotes a point update.
pub proof fn lemma_pairs_map_update<K, V>(s: Seq<(K, V)>, i: int, v: V)
    requires
        unique_keys(s),
        0 <= i < s.len(),
    ensures
        unique_keys(s.update(i, (s[i].0, v))),
        pairs_map(s.update(i, (s[i].0, v))) =~= pairs_map(s).insert(s[i].0, v),
    decreases s.len(),
{
    let t = s.update(i, (s[i].0, v));
    assert forall|p: int, q: int| 0 <= p < q < t.len() implies #[trigger] t[p].0 != #[trigger] t[q].0 by {
        assert(s[p].0 != s[q].0);
    }
    if i == s.len() - 1 {
        assert(t.drop_last() =~= s.drop_last());
    } else {
        assert(t.drop_last() =~= s.drop_last().update(i, (s[i].0, v)));
        assert(s.drop_last()[i] == s[i]);
        lemma_pairs_map_update(s.drop_last(), i, v);
        assert(s[s.len() - 1].0 != s[i].0);
    }
}

/// Inserting a pair with a fresh key at any position denotes a map insert.
pub proof fn lemma_pairs_map_insert_at<K, V>(s: Seq<(K, V)>, i: int, p: (K, V))
    requires
        unique_keys(s),
        0 <= i <= s.len(),
        forall|j: int| 0 <= j < s.len() ==> (#[trigger] s[j]).0 != p.0,
    ensures
        unique_keys(s.insert(i, p)),
        pairs_map(s.insert(i, p)) =~= pairs_map(s).insert(p.0, p.1),
    decreases s.len(),
{
    let t = s.insert(i, p);
    assert forall|x: int, y: int| 0 <= x < y < t.len() implies #[trigger] t[x].0 != #[trigger] t[y].0 by {
        if x < i && y < i {
            assert(s[x].0 != s[y].0);
        } else if x < i && y > i {
            assert(s[x].0 != s[y - 1].0);
        } else if x > i && y > i {
            assert(s[x - 1].0 != s[y - 1].0);
        } else if x == i {
            assert(t[y] == s[y - 1]);
        } else if y == i {
            assert(t[x] == s[x]);
        }
    }
    if i == s.len() {
        assert(t.drop_last() =~= s);
    } else {
        assert(t.drop_last() =~= s.drop_last().insert(i, p));
        assert(t.last() == s.last());
        lemma_pairs_map_insert_at(s.drop_last(), i, p);
        assert(s[s.len() - 1].0 != p.0);
    }
}

/// Strictly increasing revision keys.
pub open spec fn sorted_by_revision<V>(s: Seq<(usize, V)>) -> bool {
    forall|i: int, j: int| 0 <= i < j < s.len() ==> (#[trigger] s[i]).0 < (#[trigger] s[j]).0
}

/// Strictly increasing keys are in particular unique.
pub proof fn lemma_sorted_unique<V>(s: Seq<(usize, V)>)
    requires
        sorted_by_revision(s),
    ensures
        unique_keys(s),
{
}

/// Under unique keys the denoted map has exactly one entry per pair.
pub proof fn lemma_pairs_map_len<K, V>(s: Seq<(K, V)>)
    requires
        unique_keys(s),
    ensures
        pairs_map(s).dom().finite(),
        pairs_map(s).dom().len() == s.len(),
    decreases s.len(),
{
    if s.len() > 0 {
        lemma_pairs_map_len(s.drop_last());
        lemma_pairs_map_contains(s.drop_last(), s.last().0);
        assert(forall|i: int| 0 <= i < s.drop_last().len() ==> (#[trigger] s.drop_last()[i]).0 != s.last().0);
    }
}

/// Overlaying a sequence of storage writes onto a storage map; a later write
/// to the same slot wins.
pub open spec fn apply_writes(m: Map<u64, u128>, w: Seq<(u64, u128)>) -> Map<u64, u128>
    decreases w.len(),
{
    if w.len() == 0 {
        m
    } else {
        apply_writes(m, w.drop_last()).insert(w.last().0, w.last().1)
    }
}

/// The account state one delta leaves behind, given the state observed
/// immediately before it: destruction clears everything; otherwise the new
/// info replaces the old and the writes overlay the storage (an account that
/// did not exist starts from empty storage).
pub open spec fn apply_delta_model(s: AccountModel, d: DeltaModel) -> AccountModel {
    match d.post_info {
        None => AccountModel { info: None, storage: Map::empty() },
        Some(i) => AccountModel {
            info: Some(i),
            storage: apply_writes(
                match s.info {
                    None => Map::empty(),
                    Some(_) => s.storage,
                },
                d.writes,
            ),
        },
    }
}

/// Sequential application of deltas in the order given.
pub open spec fn fold_deltas(s: AccountModel, ds: Seq<DeltaModel>) -> AccountModel
    decreases ds.len(),
{
    if ds.len() == 0 {
        s
    } else {
        apply_delta_model(fold_deltas(s, ds.drop_last()), ds.last())
    }
}

/// State-clearing policy: when active, an account that ends a window in the
/// canonical empty state is treated as deleted, never kept as a present
/// empty account.
pub open spec fn clear_model(m: AccountModel, has_state_clear: bool) -> AccountModel {
    match m.info {
        Some(i) => if has_state_clear && i.is_empty_spec() {
            AccountModel { info: None, storage: Map::empty() }
        } else {
            m
        },
        None => m,
    }
}

/// The buffer entries with each delta replaced by its mathematical value.
pub open spec fn keyed(s: Seq<(usize, AccountDelta)>) -> Seq<(usize, DeltaModel)> {
    s.map_values(|p: (usize, AccountDelta)| (p.0, p.1.model()))
}

/// Life-cycle classification of a cache entry's currently-known state.
#[derive(Clone, Copy, Debug, PartialEq, Eq, Structural)]
pub enum AccountStatus {
    /// The address is known not to exist; the marker avoids redundant lookups.
    NotExisting,
    /// The account exists with non-empty info.
    Loaded,
    /// The account exists but carries the canonical empty info, so an active
    /// state-clearing policy prunes it at finalization.
    LoadedEmptyAndPrunable,
}

/// The net before/after effect of one processed window on one account.
pub struct Transition {
    /// Account info when the window began; `None` if the account did not exist.
    pub previous_info: Option<AccountInfo>,
    /// Account info when the window ended; `None` if it ended deleted.
    pub current_info: Option<AccountInfo>,
    /// Full storage at the end of the window, one pair per slot.
    pub current_storage: Vec<(u64, u128)>,
}

/// Mathematical value of a [`Transition`].
pub struct TransitionModel {
    pub previous_info: Option<AccountInfo>,
    pub current_info: Option<AccountInfo>,
    pub storage: Map<u64, u128>,
}

impl Transition {
    /// The transition as a mathematical value.
    pub open spec fn model(self) -> TransitionModel {
        TransitionModel {
            previous_info: self.previous_info,
            current_info: self.current_info,
            storage: pairs_map(self.current_storage@),
        }
    }
}

/// One address's cache entry: the pre-window snapshot plus the buffered,
/// revision-keyed deltas of the units that touched the address during the
/// in-flight window. The buffer is kept sorted by revision so that
/// finalization folds the deltas in their intended sequential order no
/// matter in which order they arrived.
pub struct SharedCacheAccount {
    /// Account info at the start of the window; `None` marks a known
    /// not-existing address.
    pub original_info: Option<AccountInfo>,
    /// Storage at the start of the window, one pair per slot.
    pub original_storage: Vec<(u64, u128)>,
    /// Revision-tagged deltas awaiting finalization, strictly increasing by
    /// revision.
    pub buffered: Vec<(usize, AccountDelta)>,
}

impl SharedCacheAccount {
    /// Entry well-formedness: the buffer is strictly sorted by revision and
    /// the storage snapshot has one pair per slot.
    pub open spec fn wf(self) -> bool {
        &&& sorted_by_revision(self.buffered@)
        &&& unique_keys(self.original_storage@)
    }

    /// The pre-window account state.
    pub open spec fn original_model(self) -> AccountModel {
        AccountModel { info: self.original_info, storage: pairs_map(self.original_storage@) }
    }

    /// The buffered deltas as a map from revision to delta value; this is
    /// all the merge result depends on, not the arrival order.
    pub open spec fn buffered_map(self) -> Map<usize, DeltaModel> {
        pairs_map(keyed(self.buffered@))
    }

    /// The buffered delta values in revision order.
    pub open spec fn delta_models(self) -> Seq<DeltaModel> {
        keyed(self.buffered@).map_values(|p: (usize, DeltaModel)| p.1)
    }

    /// The account state once every buffered delta is applied in revision
    /// order.
    pub open spec fn current_model(self) -> AccountModel {
        fold_deltas(self.original_model(), self.delta_models())
    }

    /// The state the account finalizes to under the given state-clearing
    /// policy.
    pub open spec fn final_model(self, has_state_clear: bool) -> AccountModel {
        clear_model(self.current_model(), has_state_clear)
    }

    /// Whether finalization emits a transition for this entry: it does when
    /// the window touched the account, or when state clearing prunes it.
    pub open spec fn emits_transition(self, has_state_clear: bool) -> bool {
        self.buffered@.len() > 0 || self.final_model(has_state_clear).info != self.original_info
    }

    /// The transition finalization emits when [`Self::emits_transition`] holds.
    pub open spec fn transition_model(self, has_state_clear: bool) -> TransitionModel {
        TransitionModel {
            previous_info: self.original_info,
            current_info: self.final_model(has_state_clear).info,
            storage: self.final_model(has_state_clear).storage,
        }
    }

    /// An entry recording that the address is known not to exist. Inserting
    /// it again is idempotent: the entry carries no other state.
    pub fn new_loaded_not_existing() -> (r: Self)
        ensures
            r.wf(),
            r.original_info == Option::<AccountInfo>::None,
            r.original_storage@.len() == 0,
            r.buffered@.len() == 0,
    {
        SharedCacheAccount { original_info: None, original_storage: Vec::new(), buffered: Vec::new() }
    }

    /// An entry for an account loaded with the given info and storage.
    pub fn new_loaded(info: AccountInfo, storage: Vec<(u64, u128)>) -> (r: Self)
        requires
            unique_keys(storage@),
        ensures
            r.wf(),
            r.original_info == Some(info),
            r.original_storage@ == storage@,
            r.buffered@.len() == 0,
    {
        SharedCacheAccount { original_info: Some(info), original_storage: storage, buffered: Vec::new() }
    }

    /// An entry for an account loaded with the canonical empty info, the one
    /// an active state-clearing policy may prune at finalization.
    pub fn new_loaded_empty_eip161(storage: Vec<(u64, u128)>) -> (r: Self)
        requires
            unique_keys(storage@),
        ensures
            r.wf(),
            r.original_info == Some(AccountInfo { balance: 0, nonce: 0, code_hash: EMPTY_CODE_HASH }),
            r.original_storage@ == storage@,
            r.buffered@.len() == 0,
    {
        SharedCacheAccount {
            original_info: Some(AccountInfo::empty()),
            original_storage: storage,
            buffered: Vec::new(),
        }
    }
}

/// Index of the pair carrying `key`, if any.
fn find_key_u64(v: &Vec<(u64, u128)>, key: u64) -> (r: Option<usize>)
    ensures
        match r {
            Some(i) => i < v@.len() && v@[i as int].0 == key,
            None => forall|j: int| 0 <= j < v@.len() ==> (#[trigger] v@[j]).0 != key,
        },
{
    let mut i: usize = 0;
    while i < v.len()
        invariant
            i <= v@.len(),
            forall|j: int| 0 <= j < i ==> (#[trigger] v@[j]).0 != key,
        decreases v@.len() - i,
    {
        if v[i].0 == key {
            return Some(i);
        }
        i += 1;
    }
    None
}

/// An element-wise copy of a slot vector.
pub fn clone_pairs(v: &Vec<(u64, u128)>) -> (r: Vec<(u64, u128)>)
    ensures
        r@ == v@,
{
    let mut r: Vec<(u64, u128)> = Vec::new();
    let mut i: usize = 0;
    while i < v.len()
        invariant
            i <= v@.len(),
            r@ == v@.take(i as int),
        decreases v@.len() - i,
    {
        r.push(v[i]);
        proof {
            assert(v@.take(i + 1) =~= v@.take(i as int).push(v@[i as int]));
        }
        i += 1;
    }
    proof {
        assert(v@.take(v@.len() as int) =~= v@);
    }
    r
}

/// Writes one storage slot, updating the pair that carries it or appending a
/// new one.
pub fn set_slot(storage: &mut Vec<(u64, u128)>, slot: u64, value: u128)
    requires
        unique_keys(old(storage)@),
    ensures
        unique_keys(final(storage)@),
        pairs_map(final(storage)@) == pairs_map(old(storage)@).insert(slot, value),
{
    match find_key_u64(storage, slot) {
        Some(i) => {
            let _ = storage.remove(i);
            storage.insert(i, (slot, value));
            proof {
                assert(final(storage)@ =~= old(storage)@.update(i as int, (slot, value)));
                lemma_pairs_map_update(old(storage)@, i as int, value);
            }
        },
        None => {
            storage.push((slot, value));
            proof {
                assert(final(storage)@ =~= old(storage)@.insert(old(storage)@.len() as int, (slot, value)));
                lemma_pairs_map_insert_at(old(storage)@, old(storage)@.len() as int, (slot, value));
            }
        },
    }
}

/// Applies one delta to an account state held as plain values, matching
/// [`apply_delta_model`] on the corresponding mathematical values.
fn apply_delta_exec(info: &mut Option<AccountInfo>, storage: &mut Vec<(u64, u128)>, delta: &AccountDelta)
    requires
        unique_keys(old(storage)@),
    ensures
        unique_keys(final(storage)@),
        ({
            let m = apply_delta_model(
                AccountModel { info: *old(info), storage: pairs_map(old(storage)@) },
                delta.model(),
            );
            *final(info) == m.info && pairs_map(final(storage)@) == m.storage
        }),
{
    match delta.post_info {
        None => {
            *info = None;
            storage.clear();
            proof {
                assert(pairs_map(storage@) =~= Map::<u64, u128>::empty());
            }
        },
        Some(pi) => {
            if info.is_none() {
                storage.clear();
                proof {
                    assert(pairs_map(storage@) =~= Map::<u64, u128>::empty());
                }
            }
            *info = Some(pi);
            let ghost base = match *old(info) {
                None => Map::<u64, u128>::empty(),
                Some(_) => pairs_map(old(storage)@),
            };
            let ghost writes = delta.storage_writes@;
            let mut k: usize = 0;
            while k < delta.storage_writes.len()
                invariant
                    k <= writes.len(),
                    writes == delta.storage_writes@,
                    unique_keys(storage@),
                    pairs_map(storage@) == apply_writes(base, writes.take(k as int)),
                decreases writes.len() - k,
            {
                let (sl, v) = delta.storage_writes[k];
                set_slot(storage, sl, v);
                proof {
                    assert(writes.take(k + 1).drop_last() =~= writes.take(k as int));
                    assert(writes.take(k + 1).last() == writes[k as int]);
                }
                k += 1;
            }
            proof {
                assert(writes.take(writes.len() as int) =~= writes);
            }
        },
    }
}

/// Structural equality of two optional account infos.
pub fn opt_info_eq(a: &Option<AccountInfo>, b: &Option<AccountInfo>) -> (r: bool)
    ensures
        r == (*a == *b),
{
    match (a, b) {
        (None, None) => true,
        (Some(x), Some(y)) => x.balance == y.balance && x.nonce == y.nonce && x.code_hash == y.code_hash,
        _ => false,
    }
}

/// Inserting a buffer pair at a position commutes with taking delta values.
proof fn lemma_keyed_insert(s: Seq<(usize, AccountDelta)>, i: int, p: (usize, AccountDelta))
    requires
        0 <= i <= s.len(),
    ensures
        keyed(s.insert(i, p)) =~= keyed(s).insert(i, (p.0, p.1.model())),
{
    let t = s.insert(i, p);
    assert forall|j: int| 0 <= j < t.len() implies keyed(t)[j] == keyed(s).insert(i, (p.0, p.1.model()))[j] by {
        if j < i {
            assert(t[j] == s[j]);
        } else if j == i {
            assert(t[j] == p);
        } else {
            assert(t[j] == s[j - 1]);
        }
    }
}

impl SharedCacheAccount {
    /// First buffer position whose revision is not below `revision`, or
    /// `None` when that revision is already buffered.
    fn find_insert_pos(&self, revision: usize) -> (r: Option<usize>)
        requires
            self.wf(),
        ensures
            match r {
                None => exists|j: int| 0 <= j < self.buffered@.len() && (#[trigger] self.buffered@[j]).0 == revision,
                Some(i) => {
                    &&& i <= self.buffered@.len()
                    &&& forall|j: int| 0 <= j < i ==> (#[trigger] self.buffered@[j]).0 < revision
                    &&& i < self.buffered@.len() ==> self.buffered@[i as int].0 > revision
                },
            },
    {
        let mut i: usize = 0;
        while i < self.buffered.len()
            invariant
                i <= self.buffered@.len(),
                forall|j: int| 0 <= j < i ==> (#[trigger] self.buffered@[j]).0 < revision,
            decreases self.buffered@.len() - i,
        {
            let r0 = self.buffered[i].0;
            if r0 == revision {
                return None;
            }
            if r0 > revision {
                return Some(i);
            }
            i += 1;
        }
        Some(i)
    }

    /// Buffers one revision-tagged delta for this address. Returns `false`,
    /// leaving the entry untouched, when the revision is already buffered —
    /// revisions for one address must be strictly increasing, so a duplicate
    /// is an invariant violation the caller turns into a fatal error.
    pub fn apply_account_revision(&mut self, delta: AccountDelta, revision: usize) -> (r: bool)
        requires
            old(self).wf(),
        ensures
            final(self).wf(),
            final(self).original_info == old(self).original_info,
            final(self).original_storage@ == old(self).original_storage@,
            r == !old(self).buffered_map().dom().contains(revision),
            r ==> final(self).buffered_map() == old(self).buffered_map().insert(revision, delta.model()),
            r ==> final(self).buffered@.len() == old(self).buffered@.len() + 1,
            !r ==> final(self).buffered@ == old(self).buffered@,
    {
        let ghost ks = keyed(old(self).buffered@);
        proof {
            lemma_pairs_map_contains(ks, revision);
        }
        match self.find_insert_pos(revision) {
            None => {
                proof {
                    let j = choose|j: int| 0 <= j < self.buffered@.len() && (#[trigger] self.buffered@[j]).0 == revision;
                    assert(ks[j].0 == revision);
                }
                false
            },
            Some(i) => {
                proof {
                    assert forall|j: int| 0 <= j < ks.len() implies (#[trigger] ks[j]).0 != revision by {
                        assert(ks[j].0 == old(self).buffered@[j].0);
                        if j >= i {
                            if i < old(self).buffered@.len() && j > i {
                                assert(old(self).buffered@[i as int].0 < old(self).buffered@[j].0);
                            }
                        }
                    }
                    lemma_sorted_unique(ks);
                    lemma_pairs_map_insert_at(ks, i as int, (revision, delta.model()));
                    lemma_keyed_insert(old(self).buffered@, i as int, (revision, delta));
                }
                self.buffered.insert(i, (revision, delta));
                proof {
                    assert forall|p: int, q: int| 0 <= p < q < self.buffered@.len()
                        implies (#[trigger] self.buffered@[p]).0 < (#[trigger] self.buffered@[q]).0 by {
                        let s = old(self).buffered@;
                        if p < i && q < i {
                            assert(self.buffered@[p] == s[p] && self.buffered@[q] == s[q]);
                        } else if p < i && q == i {
                            assert(self.buffered@[p] == s[p]);
                        } else if p < i && q > i {
                            assert(self.buffered@[p] == s[p] && self.buffered@[q] == s[q - 1]);
                            if q - 1 > p {
                            }
                        } else if p == i && q > i {
                            assert(self.buffered@[q] == s[q - 1]);
                        } else {
                            assert(self.buffered@[p] == s[p - 1] && self.buffered@[q] == s[q - 1]);
                        }
                    }
                }
                true
            },
        }
    }

    /// The entry's currently-known account state: the pre-window snapshot
    /// with every buffered delta applied in revision order.
    fn fold_buffered(&self) -> (r: (Option<AccountInfo>, Vec<(u64, u128)>))
        requires
            self.wf(),
        ensures
            r.0 == self.current_model().info,
            unique_keys(r.1@),
            pairs_map(r.1@) == self.current_model().storage,
    {
        let mut info = self.original_info;
        let mut storage = clone_pairs(&self.original_storage);
        let ghost models = self.delta_models();
        let ghost orig = self.original_model();
        let mut k: usize = 0;
        while k < self.buffered.len()
            invariant
                k <= self.buffered@.len(),
                models == self.delta_models(),
                orig == self.original_model(),
                models.len() == self.buffered@.len(),
                forall|j: int| 0 <= j < self.buffered@.len()
                    ==> models[j] == (#[trigger] self.buffered@[j]).1.model(),
                unique_keys(storage@),
                info == fold_deltas(orig, models.take(k as int)).info,
                pairs_map(storage@) == fold_deltas(orig, models.take(k as int)).storage,
            decreases self.buffered@.len() - k,
        {
            let d: &AccountDelta = &self.buffered[k].1;
            proof {
                assert(models.take(k + 1).drop_last() =~= models.take(k as int));
                assert(models.take(k + 1).last() == models[k as int]);
            }
            apply_delta_exec(&mut info, &mut storage, d);
            k += 1;
        }
        proof {
            assert(models.take(models.len() as int) =~= models);
        }
        (info, storage)
    }

    /// The account info the entry currently denotes, `None` when the account
    /// does not exist.
    pub fn account_info(&self) -> (r: Option<AccountInfo>)
        requires
            self.wf(),
        ensures
            r == self.current_model().info,
    {
        self.fold_buffered().0
    }

    /// Life-cycle classification of the currently-known state.
    pub open spec fn status_spec(self) -> AccountStatus {
        match self.current_model().info {
            None => AccountStatus::NotExisting,
            Some(i) => if i.is_empty_spec() {
                AccountStatus::LoadedEmptyAndPrunable
            } else {
                AccountStatus::Loaded
            },
        }
    }

    /// Returns the entry's life-cycle status.
    pub fn status(&self) -> (r: AccountStatus)
        requires
            self.wf(),
        ensures
            r == self.status_spec(),
    {
        match self.fold_buffered().0 {
            None => AccountStatus::NotExisting,
            Some(i) => if i.is_empty() {
                AccountStatus::LoadedEmptyAndPrunable
            } else {
                AccountStatus::Loaded
            },
        }
    }

    /// Folds the buffered history into the net transition for the window,
    /// honoring the state-clearing policy, and resets the entry so the next
    /// window starts from the state this one ended in. Returns `None` when
    /// the window neither touched nor reclassified the account.
    pub fn finalize_transition(&mut self, has_state_clear: bool) -> (r: Option<Transition>)
        requires
            old(self).wf(),
        ensures
            final(self).wf(),
            r is Some <==> old(self).emits_transition(has_state_clear),
            match r {
                Some(t) => t.model() == old(self).transition_model(has_state_clear)
                    && unique_keys(t.current_storage@),
                None => true,
            },
            final(self).original_info == old(self).final_model(has_state_clear).info,
            pairs_map(final(self).original_storage@) == old(self).final_model(has_state_clear).storage,
            final(self).buffered@.len() == 0,
    {
        let folded = self.fold_buffered();
        let mut info = folded.0;
        let mut storage = folded.1;
        if has_state_clear {
            let prune = match &info {
                Some(i) => i.is_empty(),
                None => false,
            };
            if prune {
                info = None;
                storage = Vec::new();
                proof {
                    assert(pairs_map(Seq::<(u64, u128)>::empty()) =~= Map::<u64, u128>::empty());
                }
            }
        }
        let emit = self.buffered.len() > 0 || !opt_info_eq(&info, &self.original_info);
        let r = if emit {
            Some(Transition {
                previous_info: self.original_info,
                current_info: info,
                current_storage: clone_pairs(&storage),
            })
        } else {
            None
        };
        self.original_info = info;
        self.original_storage = storage;
        self.buffered = Vec::new();
        r
    }
}

/// State-clearing correctness: an entry loaded with the canonical empty info
/// and never touched finalizes as explicitly deleted when the policy is
/// active — never as a present empty account — and stays present, unchanged
/// and emitting no transition, when the policy is inactive.
pub proof fn lemma_state_clearing_on_untouched_empty(e: SharedCacheAccount)
    requires
        e.wf(),
        (e.original_info matches Some(i) && i.is_empty_spec()),
        e.buffered@.len() == 0,
    ensures
        e.emits_transition(true),
        e.transition_model(true).current_info is None,
        e.transition_model(true).previous_info == e.original_info,
        !e.emits_transition(false),
        e.final_model(false).info == e.original_info,
{
    assert(e.delta_models() =~= Seq::<DeltaModel>::empty());
    assert(e.current_model() == e.original_model());
}

/// A strictly revision-sorted buffer is determined by the map it denotes:
/// two sorted buffers denoting the same revision map are the same sequence.
pub proof fn lemma_sorted_pairs_map_eq<V>(s1: Seq<(usize, V)>, s2: Seq<(usize, V)>)
    requires
        sorted_by_revision(s1),
        sorted_by_revision(s2),
        pairs_map(s1) == pairs_map(s2),
    ensures
        s1 == s2,
    decreases s1.len(),
{
    lemma_sorted_unique(s1);
    lemma_sorted_unique(s2);
    lemma_pairs_map_len(s1);
    lemma_pairs_map_len(s2);
    if s1.len() == 0 {
        assert(s1 =~= s2);
    } else {
        let k1 = s1.last().0;
        let k2 = s2.last().0;
        lemma_pairs_map_index(s1, s1.len() - 1);
        lemma_pairs_map_index(s2, s2.len() - 1);
        lemma_pairs_map_contains(s1, k2);
        lemma_pairs_map_contains(s2, k1);
        let j1 = choose|j: int| 0 <= j < s1.len() && (#[trigger] s1[j]).0 == k2;
        let j2 = choose|j: int| 0 <= j < s2.len() && (#[trigger] s2[j]).0 == k1;
        assert(k2 <= k1) by {
            if j1 < s1.len() - 1 {
                assert(s1[j1].0 < s1[s1.len() - 1].0);
            }
        }
        assert(k1 <= k2) by {
            if j2 < s2.len() - 1 {
                assert(s2[j2].0 < s2[s2.len() - 1].0);
            }
        }
        assert(s1.last().1 == pairs_map(s1)[k1]);
        assert(s2.last().1 == pairs_map(s2)[k1]);
        lemma_pairs_map_contains(s1.drop_last(), k1);
        lemma_pairs_map_contains(s2.drop_last(), k1);
        assert(forall|j: int| 0 <= j < s1.len() - 1 ==> (#[trigger] s1.drop_last()[j]).0 != k1);
        assert(forall|j: int| 0 <= j < s2.len() - 1 ==> (#[trigger] s2.drop_last()[j]).0 != k1);
        assert(pairs_map(s1.drop_last()) =~= pairs_map(s1).remove(k1));
        assert(pairs_map(s2.drop_last()) =~= pairs_map(s2).remove(k1));
        lemma_sorted_pairs_map_eq(s1.drop_last(), s2.drop_last());
        assert(s1 =~= s1.drop_last().push(s1.last()));
        assert(s2 =~= s2.drop_last().push(s2.last()));
    }
}

/// Order-independence of arrival: two cache entries that started the window
/// from the same account state and buffered the same set of revision-tagged
/// deltas — in whatever arrival order each saw them — finalize to the same
/// transition under any state-clearing policy.
pub proof fn lemma_order_independent_merge(
    e1: SharedCacheAccount,
    e2: SharedCacheAccount,
    has_state_clear: bool,
)
    requires
        e1.wf(),
        e2.wf(),
        e1.original_info == e2.original_info,
        pairs_map(e1.original_storage@) == pairs_map(e2.original_storage@),
        e1.buffered_map() == e2.buffered_map(),
    ensures
        e1.emits_transition(has_state_clear) == e2.emits_transition(has_state_clear),
        e1.transition_model(has_state_clear) == e2.transition_model(has_state_clear),
{
    assert(sorted_by_revision(keyed(e1.buffered@))) by {
        assert(forall|j: int| 0 <= j < e1.buffered@.len()
            ==> (#[trigger] keyed(e1.buffered@)[j]).0 == e1.buffered@[j].0);
    }
    assert(sorted_by_revision(keyed(e2.buffered@))) by {
        assert(forall|j: int| 0 <= j < e2.buffered@.len()
            ==> (#[trigger] keyed(e2.buffered@)[j]).0 == e2.buffered@[j].0);
    }
    lemma_sorted_pairs_map_eq(keyed(e1.buffered@), keyed(e2.buffered@));
    assert(e1.delta_models() == e2.delta_models());
    assert(e1.original_model() == e2.original_model());
}

} // verus!
