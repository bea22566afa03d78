//! The shared state cache: the table of account cache entries for the
//! in-flight execution window, plus the content-addressed bytecode table.
//! Mutation goes through `&mut self`, the single-writer discipline the merge
//! algorithm needs; the bytecode table is a concurrent map whose inserts are
//! safe to race because a given hash always maps to the same content.

use vstd::prelude::*;

use crate::account::{
    AccountDelta, AccountInfo, AccountStatus, DeltaModel, SharedCacheAccount, Transition,
    TransitionModel, lemma_pairs_map_contains, lemma_pairs_map_index, lemma_pairs_map_insert_at,
    lemma_pairs_map_update, pairs_map, unique_keys,
};

verus! {

/// Declares dashmap's concurrent hash map, the outside type holding the
/// bytecode table; its values are opaque here and reachable only through the
/// trusted functions below.
#[verifier::external_type_specification]
#[verifier::external_body]
#[verifier::reject_recursive_types(K)]
#[verifier::reject_recursive_types(V)]
#[verifier::reject_recursive_types(S)]
pub struct ExDashMap<K, V, S>(dashmap::DashMap<K, V, S>);

/// The concurrent map type backing the bytecode table.
pub type CodeTable = dashmap::DashMap<u64, Vec<u8>>;

/// What the concurrent bytecode table holds: the map from code hash to the
/// bytes stored under that hash.
pub uninterp spec fn dash_contents(m: CodeTable) -> Map<u64, Seq<u8>>;

/// Relies on dashmap::DashMap::new: a freshly created map holds nothing.
#[verifier::external_body]
fn dash_new() -> (r: CodeTable)
    ensures
        dash_contents(r) == (Map::<u64, Seq<u8>>::empty()),
{
    dashmap::DashMap::new()
}

/// Relies on dashmap::DashMap::entry and Entry::or_insert: an occupied entry
/// keeps the value it had, a vacant one receives the given value, and the
/// returned reference reads the entry's final value.
#[verifier::external_body]
fn dash_get_or_insert(m: &mut CodeTable, hash: u64, code: Vec<u8>) -> (r: Vec<u8>)
    ensures
        dash_contents(*final(m)) == (if dash_contents(*old(m)).dom().contains(hash) {
            dash_contents(*old(m))
        } else {
            dash_contents(*old(m)).insert(hash, code@)
        }),
        dash_contents(*final(m)).dom().contains(hash),
        r@ == dash_contents(*final(m))[hash],
{
    m.entry(hash).or_insert(code).value().clone()
}

/// Relies on dashmap::DashMap::get: returns the value stored under the key,
/// or nothing when the key is absent.
#[verifier::external_body]
fn dash_get(m: &CodeTable, hash: u64) -> (r: Option<Vec<u8>>)
    ensures
        match r {
            Some(v) => dash_contents(*m).dom().contains(hash) && v@ == dash_contents(*m)[hash],
            None => !dash_contents(*m).dom().contains(hash),
        },
{
    m.get(&hash).map(|v| v.value().clone())
}

/// Relies on dashmap::DashMap::len: the number of entries held across all
/// shards of the map.
#[verifier::external_body]
fn dash_len(m: &CodeTable) -> (r: usize)
    ensures
        r == dash_contents(*m).dom().len(),
{
    m.len()
}

/// A failure of the merge step; both kinds are invariant violations that are
/// fatal for the window rather than silently repaired.
#[derive(Clone, Copy, Debug, PartialEq, Eq, Structural)]
pub enum CacheError {
    /// A delta arrived for an address that was never loaded into the cache.
    MissingEntry { address: u64 },
    /// A second delta arrived for a revision already buffered at an address.
    DuplicateRevision { address: u64, revision: usize },
}

/// The net transitions of one processed window, one per touched account.
pub struct TransitionState {
    /// `(address, transition)` pairs, one per address.
    pub transitions: Vec<(u64, Transition)>,
}

/// The transition pairs with each transition replaced by its mathematical
/// value.
pub open spec fn keyed_transitions(s: Seq<(u64, Transition)>) -> Seq<(u64, TransitionModel)> {
    s.map_values(|p: (u64, Transition)| (p.0, p.1.model()))
}

impl TransitionState {
    /// The transition set as a map from address to transition value.
    pub open spec fn model(self) -> Map<u64, TransitionModel> {
        pairs_map(keyed_transitions(self.transitions@))
    }

    /// One pair per address.
    pub open spec fn wf(self) -> bool {
        unique_keys(self.transitions@)
    }

    /// The transition recorded for an address, if the window touched it.
    pub fn get(&self, address: u64) -> (r: Option<&Transition>)
        requires
            self.wf(),
        ensures
            match r {
                Some(t) => self.model().dom().contains(address) && t.model() == self.model()[address],
                None => !self.model().dom().contains(address),
            },
    {
        proof {
            lemma_transition_keys(self.transitions@, address);
        }
        let mut i: usize = 0;
        while i < self.transitions.len()
            invariant
                self.wf(),
                i <= self.transitions@.len(),
                forall|j: int| 0 <= j < i ==> (#[trigger] self.transitions@[j]).0 != address,
            decreases self.transitions@.len() - i,
        {
            if self.transitions[i].0 == address {
                proof {
                    lemma_transition_index(self.transitions@, i as int);
                }
                return Some(&self.transitions[i].1);
            }
            i += 1;
        }
        None
    }

    /// The number of accounts the window touched.
    pub fn len(&self) -> (r: usize)
        ensures
            r == self.transitions@.len(),
    {
        self.transitions.len()
    }
}

/// Address membership in a transition set follows the pairs.
proof fn lemma_transition_keys(s: Seq<(u64, Transition)>, address: u64)
    ensures
        pairs_map(keyed_transitions(s)).dom().contains(address)
            <==> exists|j: int| 0 <= j < s.len() && (#[trigger] s[j]).0 == address,
{
    let ks = keyed_transitions(s);
    lemma_pairs_map_contains(ks, address);
    assert forall|j: int| 0 <= j < s.len() implies (#[trigger] ks[j]).0 == s[j].0 by {
        assert(ks[j] == (s[j].0, s[j].1.model()));
    }
    if pairs_map(ks).dom().contains(address) {
        let j = choose|j: int| 0 <= j < ks.len() && (#[trigger] ks[j]).0 == address;
        assert(s[j].0 == address);
    }
    if exists|j: int| 0 <= j < s.len() && (#[trigger] s[j]).0 == address {
        let j = choose|j: int| 0 <= j < s.len() && (#[trigger] s[j]).0 == address;
        assert(ks[j].0 == address);
    }
}

/// Under unique addresses, the transition map sends each pair's address to
/// its transition's value.
proof fn lemma_transition_index(s: Seq<(u64, Transition)>, i: int)
    requires
        unique_keys(s),
        0 <= i < s.len(),
    ensures
        pairs_map(keyed_transitions(s)).dom().contains(s[i].0),
        pairs_map(keyed_transitions(s))[s[i].0] == s[i].1.model(),
{
    let ks = keyed_transitions(s);
    assert forall|p: int, q: int| 0 <= p < q < ks.len() implies (#[trigger] ks[p]).0 != (#[trigger] ks[q]).0 by {
        assert(ks[p] == (s[p].0, s[p].1.model()));
        assert(ks[q] == (s[q].0, s[q].1.model()));
        assert(s[p].0 != s[q].0);
    }
    lemma_pairs_map_index(ks, i);
    assert(ks[i] == (s[i].0, s[i].1.model()));
}

/// The shared, versioned account/bytecode cache for one in-flight execution
/// window. Holds every account cache entry plus the append-only table from
/// code hash to bytecode.
pub struct SharedCacheState {
    /// Account cache entries, one per address.
    pub accounts: Vec<(u64, SharedCacheAccount)>,
    /// Content-addressed bytecode table; racing inserts of the same hash are
    /// harmless because equal hashes carry identical bytes.
    pub contracts: CodeTable,
    /// Whether the state-clearing policy is active: accounts ending a window
    /// in the canonical empty state are then treated as deleted.
    pub has_state_clear: bool,
}

impl SharedCacheState {
    /// Cache well-formedness: one entry per address, every entry well-formed.
    pub open spec fn wf(self) -> bool {
        &&& unique_keys(self.accounts@)
        &&& forall|i: int| 0 <= i < self.accounts@.len() ==> (#[trigger] self.accounts@[i]).1.wf()
    }

    /// The account table as a map from address to its cache entry.
    pub open spec fn table(self) -> Map<u64, SharedCacheAccount> {
        pairs_map(self.accounts@)
    }

    /// The bytecode table as a map from code hash to bytes.
    pub open spec fn code_map(self) -> Map<u64, Seq<u8>> {
        dash_contents(self.contracts)
    }

    /// New cache with the given state-clearing flag and nothing loaded.
    pub fn new(has_state_clear: bool) -> (r: Self)
        ensures
            r.wf(),
            r.accounts@.len() == 0,
            r.code_map() == Map::<u64, Seq<u8>>::empty(),
            r.has_state_clear == has_state_clear,
    {
        SharedCacheState { accounts: Vec::new(), contracts: dash_new(), has_state_clear }
    }

    /// Set the state-clearing flag.
    pub fn set_state_clear_flag(&mut self, has_state_clear: bool)
        ensures
            final(self).accounts@ == old(self).accounts@,
            final(self).contracts == old(self).contracts,
            final(self).has_state_clear == has_state_clear,
    {
        self.has_state_clear = has_state_clear;
    }

    /// Index of the entry carrying `address`, if any.
    fn find_addr(&self, address: u64) -> (r: Option<usize>)
        ensures
            match r {
                Some(i) => i < self.accounts@.len() && self.accounts@[i as int].0 == address,
                None => forall|j: int| 0 <= j < self.accounts@.len()
                    ==> (#[trigger] self.accounts@[j]).0 != address,
            },
    {
        let mut i: usize = 0;
        while i < self.accounts.len()
            invariant
                i <= self.accounts@.len(),
                forall|j: int| 0 <= j < i ==> (#[trigger] self.accounts@[j]).0 != address,
            decreases self.accounts@.len() - i,
        {
            if self.accounts[i].0 == address {
                return Some(i);
            }
            i += 1;
        }
        None
    }

    /// Installs (or replaces) the entry for an address.
    fn put_entry(&mut self, address: u64, entry: SharedCacheAccount)
        requires
            old(self).wf(),
            entry.wf(),
        ensures
            final(self).wf(),
            final(self).table() == old(self).table().insert(address, entry),
            final(self).contracts == old(self).contracts,
            final(self).has_state_clear == old(self).has_state_clear,
    {
        match self.find_addr(address) {
            Some(i) => {
                let _ = self.accounts.remove(i);
                self.accounts.insert(i, (address, entry));
                proof {
                    assert(self.accounts@ =~= old(self).accounts@.update(i as int, (address, entry)));
                    lemma_pairs_map_update(old(self).accounts@, i as int, entry);
                }
            },
            None => {
                self.accounts.push((address, entry));
                proof {
                    assert(self.accounts@ =~= old(self).accounts@.insert(
                        old(self).accounts@.len() as int,
                        (address, entry),
                    ));
                    lemma_pairs_map_insert_at(
                        old(self).accounts@,
                        old(self).accounts@.len() as int,
                        (address, entry),
                    );
                }
            },
        }
    }

    /// Records that an address is known not to exist, so later lookups need
    /// not ask the backing store again. Idempotent.
    pub fn insert_not_existing(&mut self, address: u64)
        requires
            old(self).wf(),
        ensures
            final(self).wf(),
            final(self).table().dom() == old(self).table().dom().insert(address),
            ({
                let e = final(self).table()[address];
                e.original_info is None && e.original_storage@.len() == 0 && e.buffered@.len() == 0
            }),
            forall|a: u64| a != address && #[trigger] old(self).table().dom().contains(a)
                ==> final(self).table()[a] == old(self).table()[a],
            final(self).contracts == old(self).contracts,
            final(self).has_state_clear == old(self).has_state_clear,
    {
        self.put_entry(address, SharedCacheAccount::new_loaded_not_existing());
    }

    /// Seeds the cache with externally fetched account state and no known
    /// storage; an account carrying the canonical empty info becomes the
    /// prunable-empty variant.
    pub fn insert_account(&mut self, address: u64, info: AccountInfo)
        requires
            old(self).wf(),
        ensures
            final(self).wf(),
            final(self).table().dom() == old(self).table().dom().insert(address),
            ({
                let e = final(self).table()[address];
                e.original_info == Some(info) && e.original_storage@.len() == 0 && e.buffered@.len() == 0
            }),
            forall|a: u64| a != address && #[trigger] old(self).table().dom().contains(a)
                ==> final(self).table()[a] == old(self).table()[a],
            final(self).contracts == old(self).contracts,
            final(self).has_state_clear == old(self).has_state_clear,
    {
        let entry = if !info.is_empty() {
            SharedCacheAccount::new_loaded(info, Vec::new())
        } else {
            SharedCacheAccount::new_loaded_empty_eip161(Vec::new())
        };
        self.put_entry(address, entry);
    }

    /// Like [`Self::insert_account`], but with the account's storage.
    pub fn insert_account_with_storage(
        &mut self,
        address: u64,
        info: AccountInfo,
        storage: Vec<(u64, u128)>,
    )
        requires
            old(self).wf(),
            unique_keys(storage@),
        ensures
            final(self).wf(),
            final(self).table().dom() == old(self).table().dom().insert(address),
            ({
                let e = final(self).table()[address];
                e.original_info == Some(info) && e.original_storage@ == storage@ && e.buffered@.len() == 0
            }),
            forall|a: u64| a != address && #[trigger] old(self).table().dom().contains(a)
                ==> final(self).table()[a] == old(self).table()[a],
            final(self).contracts == old(self).contracts,
            final(self).has_state_clear == old(self).has_state_clear,
    {
        let entry = if !info.is_empty() {
            SharedCacheAccount::new_loaded(info, storage)
        } else {
            SharedCacheAccount::new_loaded_empty_eip161(storage)
        };
        self.put_entry(address, entry);
    }

    /// The currently-known info of a cached account: `None` when the address
    /// was never loaded, `Some(None)` when it is cached as not existing.
    pub fn account_info(&self, address: u64) -> (r: Option<Option<AccountInfo>>)
        requires
            self.wf(),
        ensures
            match r {
                Some(info) => self.table().dom().contains(address)
                    && info == self.table()[address].current_model().info,
                None => !self.table().dom().contains(address),
            },
    {
        proof {
            lemma_pairs_map_contains(self.accounts@, address);
        }
        match self.find_addr(address) {
            Some(i) => {
                proof {
                    lemma_pairs_map_index(self.accounts@, i as int);
                }
                Some(self.accounts[i].1.account_info())
            },
            None => None,
        }
    }

    /// The life-cycle status of a cached account.
    pub fn account_status(&self, address: u64) -> (r: Option<AccountStatus>)
        requires
            self.wf(),
        ensures
            match r {
                Some(st) => self.table().dom().contains(address)
                    && st == self.table()[address].status_spec(),
                None => !self.table().dom().contains(address),
            },
    {
        proof {
            lemma_pairs_map_contains(self.accounts@, address);
        }
        match self.find_addr(address) {
            Some(i) => {
                proof {
                    lemma_pairs_map_index(self.accounts@, i as int);
                }
                Some(self.accounts[i].1.status())
            },
            None => None,
        }
    }

    /// The effect one get-or-insert has on the bytecode table: an absent hash
    /// receives the bytes, a present one keeps what it had.
    pub open spec fn code_insert(m: Map<u64, Seq<u8>>, hash: u64, code: Seq<u8>) -> Map<u64, Seq<u8>> {
        if m.dom().contains(hash) {
            m
        } else {
            m.insert(hash, code)
        }
    }

    /// Bytecode access: stores `code` under `hash` unless the hash is already
    /// present, and returns the bytes the table holds for the hash afterwards.
    /// Concurrent use is safe because content addressing guarantees racing
    /// inserts of one hash carry identical bytes.
    pub fn get_or_insert_code(&mut self, hash: u64, code: Vec<u8>) -> (r: Vec<u8>)
        ensures
            final(self).code_map() == Self::code_insert(old(self).code_map(), hash, code@),
            final(self).code_map().dom().contains(hash),
            r@ == final(self).code_map()[hash],
            final(self).accounts@ == old(self).accounts@,
            final(self).has_state_clear == old(self).has_state_clear,
    {
        dash_get_or_insert(&mut self.contracts, hash, code)
    }

    /// The bytes stored under a code hash, if any.
    pub fn bytecode_by_hash(&self, hash: u64) -> (r: Option<Vec<u8>>)
        ensures
            match r {
                Some(v) => self.code_map().dom().contains(hash) && v@ == self.code_map()[hash],
                None => !self.code_map().dom().contains(hash),
            },
    {
        dash_get(&self.contracts, hash)
    }

    /// The number of bytecodes the table holds.
    pub fn code_count(&self) -> (r: usize)
        ensures
            r == self.code_map().dom().len(),
    {
        dash_len(&self.contracts)
    }
}

/// A revision-tagged delta aimed at one address: `(revision, address, delta)`.
pub type Triple = (usize, u64, DeltaModel);

/// The triples one unit's output contributes, in the order given.
pub open spec fn flat_state(revision: usize, st: Seq<(u64, AccountDelta)>) -> Seq<Triple> {
    st.map_values(|p: (u64, AccountDelta)| (revision, p.0, p.1.model()))
}

/// The triples a whole batch of unit outputs contributes, in the order given.
pub open spec fn flat_states(s: Seq<(usize, Vec<(u64, AccountDelta)>)>) -> Seq<Triple>
    decreases s.len(),
{
    if s.len() == 0 {
        Seq::empty()
    } else {
        flat_state(s.first().0, s.first().1@) + flat_states(s.drop_first())
    }
}

/// Outcome of merging a sequence of triples into the per-address revision
/// buffers: the new buffers, or the first precondition violation hit.
pub enum ApplyResult {
    /// Every triple was buffered.
    Merged { bufs: Map<u64, Map<usize, DeltaModel>> },
    /// A triple addressed an account that was never loaded.
    MissingEntry { address: u64 },
    /// A triple repeated a revision already buffered at its address.
    DuplicateRevision { address: u64, revision: usize },
}

/// Merges triples in order into the per-address revision buffers, stopping at
/// the first triple whose address was never loaded or whose revision its
/// address already buffered.
pub open spec fn apply_triples(bufs: Map<u64, Map<usize, DeltaModel>>, ts: Seq<Triple>) -> ApplyResult
    decreases ts.len(),
{
    if ts.len() == 0 {
        ApplyResult::Merged { bufs }
    } else {
        let t = ts.first();
        if !bufs.dom().contains(t.1) {
            ApplyResult::MissingEntry { address: t.1 }
        } else if bufs[t.1].dom().contains(t.0) {
            ApplyResult::DuplicateRevision { address: t.1, revision: t.0 }
        } else {
            apply_triples(bufs.insert(t.1, bufs[t.1].insert(t.0, t.2)), ts.drop_first())
        }
    }
}

impl SharedCacheState {
    /// The per-address revision buffers the cache currently holds.
    pub open spec fn bufs_of(self) -> Map<u64, Map<usize, DeltaModel>> {
        self.table().map_values(|e: SharedCacheAccount| e.buffered_map())
    }

    /// Applies the outputs of a batch of execution units, each tagged with
    /// its revision: the deltas are buffered per address, keyed by revision,
    /// whatever order they arrive in. Fails — fatally for the window — on a
    /// delta for an address that was never loaded, or on a duplicated
    /// revision; earlier triples of the batch stay buffered, but no
    /// transition set is ever produced from a failed window.
    pub fn apply_evm_states(&mut self, evm_states: Vec<(usize, Vec<(u64, AccountDelta)>)>) -> (r: Result<(), CacheError>)
        requires
            old(self).wf(),
        ensures
            final(self).wf(),
            final(self).has_state_clear == old(self).has_state_clear,
            final(self).contracts == old(self).contracts,
            final(self).table().dom() == old(self).table().dom(),
            forall|a: u64| #[trigger] old(self).table().dom().contains(a)
                ==> final(self).table()[a].original_info == old(self).table()[a].original_info
                    && final(self).table()[a].original_storage@ == old(self).table()[a].original_storage@,
            match apply_triples(old(self).bufs_of(), flat_states(evm_states@)) {
                ApplyResult::Merged { bufs } => r == Ok::<(), CacheError>(()) && final(self).bufs_of() == bufs,
                ApplyResult::MissingEntry { address } => r == Err::<(), CacheError>(
                    CacheError::MissingEntry { address },
                ),
                ApplyResult::DuplicateRevision { address, revision } => r == Err::<(), CacheError>(
                    CacheError::DuplicateRevision { address, revision },
                ),
            },
    {
        let ghost all = flat_states(evm_states@);
        let ghost bufs0 = old(self).bufs_of();
        let mut states = evm_states;
        while states.len() > 0
            invariant
                self.wf(),
                self.has_state_clear == old(self).has_state_clear,
                self.contracts == old(self).contracts,
                self.table().dom() == old(self).table().dom(),
                forall|a: u64| #[trigger] old(self).table().dom().contains(a)
                    ==> self.table()[a].original_info == old(self).table()[a].original_info
                        && self.table()[a].original_storage@ == old(self).table()[a].original_storage@,
                bufs0 == old(self).bufs_of(),
                all == flat_states(evm_states@),
                apply_triples(bufs0, all) == apply_triples(self.bufs_of(), flat_states(states@)),
            decreases states@.len(),
        {
            let ghost pre_states = states@;
            let (revision, st0) = states.remove(0);
            let mut st = st0;
            proof {
                assert(states@ =~= pre_states.drop_first());
                assert(flat_states(pre_states)
                    == flat_state(revision, st@) + flat_states(states@));
            }
            while st.len() > 0
                invariant
                    self.wf(),
                    self.has_state_clear == old(self).has_state_clear,
                    self.contracts == old(self).contracts,
                    self.table().dom() == old(self).table().dom(),
                    forall|a: u64| #[trigger] old(self).table().dom().contains(a)
                        ==> self.table()[a].original_info == old(self).table()[a].original_info
                            && self.table()[a].original_storage@ == old(self).table()[a].original_storage@,
                    bufs0 == old(self).bufs_of(),
                    all == flat_states(evm_states@),
                    apply_triples(bufs0, all)
                        == apply_triples(self.bufs_of(), flat_state(revision, st@) + flat_states(states@)),
                decreases st@.len(),
            {
                let ghost pre_st = st@;
                let ghost pre_bufs = self.bufs_of();
                let ghost pre_table = self.table();
                let ghost remaining = flat_state(revision, pre_st) + flat_states(states@);
                let (address, delta) = st.remove(0);
                let ghost dm = delta.model();
                proof {
                    assert(st@ =~= pre_st.drop_first());
                    assert(flat_state(revision, pre_st)[0] == (revision, address, dm));
                    assert(remaining[0] == (revision, address, dm));
                    assert(remaining.drop_first() =~= flat_state(revision, st@) + flat_states(states@)) by {
                        assert forall|j: int| 0 <= j < remaining.len() - 1
                            implies remaining.drop_first()[j]
                                == (flat_state(revision, st@) + flat_states(states@))[j] by {
                            if j < flat_state(revision, st@).len() {
                                assert(remaining[j + 1] == flat_state(revision, pre_st)[j + 1]);
                                assert(flat_state(revision, st@)[j] == (revision, pre_st[j + 1].0, pre_st[j + 1].1.model()));
                            }
                        }
                    }
                    assert(self.bufs_of().dom() =~= self.table().dom());
                }
                match self.find_addr(address) {
                    None => {
                        proof {
                            lemma_pairs_map_contains(self.accounts@, address);
                            assert(!self.bufs_of().dom().contains(address));
                            assert(apply_triples(self.bufs_of(), remaining)
                                == ApplyResult::MissingEntry { address });
                        }
                        return Err(CacheError::MissingEntry { address });
                    },
                    Some(i) => {
                        let ghost pre_accounts = self.accounts@;
                        let (a, mut e) = self.accounts.remove(i);
                        let ghost e0 = e;
                        let ok = e.apply_account_revision(delta, revision);
                        self.accounts.insert(i, (a, e));
                        proof {
                            assert(a == address);
                            assert(self.accounts@ =~= pre_accounts.update(i as int, (address, e)));
                            lemma_pairs_map_index(pre_accounts, i as int);
                            lemma_pairs_map_update(pre_accounts, i as int, e);
                            assert(self.table() == pre_table.insert(address, e));
                            assert(pre_table.dom().contains(address));
                            assert(self.table().dom() =~= pre_table.dom());
                            assert(pre_bufs[address] == e0.buffered_map());
                            assert(self.bufs_of() =~= pre_bufs.insert(address, e.buffered_map()));
                            assert forall|j: int| 0 <= j < self.accounts@.len()
                                implies (#[trigger] self.accounts@[j]).1.wf() by {
                                if j != i {
                                    assert(self.accounts@[j] == pre_accounts[j]);
                                }
                            }
                            assert forall|x: u64| #[trigger] old(self).table().dom().contains(x)
                                implies self.table()[x].original_info == old(self).table()[x].original_info
                                    && self.table()[x].original_storage@ == old(self).table()[x].original_storage@ by {
                                if x == address {
                                    assert(self.table()[x] == e);
                                    assert(pre_table[x] == e0);
                                } else {
                                    assert(self.table()[x] == pre_table[x]);
                                }
                            }
                        }
                        if !ok {
                            proof {
                                assert(e0.buffered_map().dom().contains(revision));
                                assert(apply_triples(pre_bufs, remaining)
                                    == ApplyResult::DuplicateRevision { address, revision });
                            }
                            return Err(CacheError::DuplicateRevision { address, revision });
                        }
                        proof {
                            assert(e.buffered_map() == e0.buffered_map().insert(revision, dm));
                            assert(!pre_bufs[address].dom().contains(revision));
                            assert(apply_triples(pre_bufs, remaining)
                                == apply_triples(
                                    pre_bufs.insert(address, pre_bufs[address].insert(revision, dm)),
                                    remaining.drop_first(),
                                ));
                            assert(self.bufs_of()
                                =~= pre_bufs.insert(address, pre_bufs[address].insert(revision, dm)));
                        }
                    },
                }
            }
            proof {
                assert(flat_state(revision, st@).len() == 0);
                assert(flat_state(revision, st@) + flat_states(states@) =~= flat_states(states@));
            }
        }
        proof {
            assert(flat_states(states@) =~= Seq::<Triple>::empty());
            assert(apply_triples(bufs0, all) == ApplyResult::Merged { bufs: self.bufs_of() });
        }
        Ok(())
    }
}

/// The transitions the entries of an account sequence emit, accumulated in
/// order.
spec fn trans_of_seq(s: Seq<(u64, SharedCacheAccount)>, flag: bool) -> Map<u64, TransitionModel>
    decreases s.len(),
{
    if s.len() == 0 {
        Map::empty()
    } else {
        let rest = trans_of_seq(s.drop_last(), flag);
        if s.last().1.emits_transition(flag) {
            rest.insert(s.last().0, s.last().1.transition_model(flag))
        } else {
            rest
        }
    }
}

/// Under unique addresses, the accumulated transitions are exactly those of
/// the emitting entries, each under its address.
proof fn lemma_trans_of_seq(s: Seq<(u64, SharedCacheAccount)>, flag: bool)
    requires
        unique_keys(s),
    ensures
        trans_of_seq(s, flag) =~= Map::new(
            |a: u64| pairs_map(s).dom().contains(a) && pairs_map(s)[a].emits_transition(flag),
            |a: u64| pairs_map(s)[a].transition_model(flag),
        ),
    decreases s.len(),
{
    if s.len() > 0 {
        lemma_trans_of_seq(s.drop_last(), flag);
        lemma_pairs_map_contains(s.drop_last(), s.last().0);
        assert(forall|j: int| 0 <= j < s.drop_last().len()
            ==> (#[trigger] s.drop_last()[j]).0 != s.last().0);
        assert(!pairs_map(s.drop_last()).dom().contains(s.last().0));
        assert forall|a: u64| pairs_map(s).dom().contains(a) && a != s.last().0
            implies pairs_map(s)[a] == pairs_map(s.drop_last())[a] by {}
        assert(pairs_map(s).dom() =~= pairs_map(s.drop_last()).dom().insert(s.last().0));
    }
}

impl SharedCacheState {
    /// The transition set one finalization of the cache produces: one
    /// transition per account the window touched or the state-clearing policy
    /// reclassified.
    pub open spec fn transitions_model(self) -> Map<u64, TransitionModel> {
        Map::new(
            |a: u64| self.table().dom().contains(a)
                && self.table()[a].emits_transition(self.has_state_clear),
            |a: u64| self.table()[a].transition_model(self.has_state_clear),
        )
    }

    /// Folds every entry's accumulated history into the window's transition
    /// set, honoring the active state-clearing policy, and resets each entry
    /// so the next window starts from the state this one ended in. Must not
    /// race with the merge step: it takes the cache exclusively.
    pub fn take_transitions(&mut self) -> (r: TransitionState)
        requires
            old(self).wf(),
        ensures
            final(self).wf(),
            r.wf(),
            r.model() == old(self).transitions_model(),
            final(self).has_state_clear == old(self).has_state_clear,
            final(self).contracts == old(self).contracts,
            final(self).table().dom() == old(self).table().dom(),
            forall|a: u64| #[trigger] old(self).table().dom().contains(a) ==> {
                &&& final(self).table()[a].original_info
                    == old(self).table()[a].final_model(old(self).has_state_clear).info
                &&& pairs_map(final(self).table()[a].original_storage@)
                    == old(self).table()[a].final_model(old(self).has_state_clear).storage
                &&& final(self).table()[a].buffered@.len() == 0
            },
    {
        let ghost orig = old(self).accounts@;
        let ghost flag0 = old(self).has_state_clear;
        let mut done: Vec<(u64, SharedCacheAccount)> = Vec::new();
        let mut out: Vec<(u64, Transition)> = Vec::new();
        while self.accounts.len() > 0
            invariant
                orig == old(self).accounts@,
                flag0 == old(self).has_state_clear,
                unique_keys(orig),
                self.has_state_clear == old(self).has_state_clear,
                self.contracts == old(self).contracts,
                done@.len() <= orig.len(),
                self.accounts@ == orig.skip(done@.len() as int),
                forall|j: int| 0 <= j < done@.len() ==> {
                    &&& (#[trigger] done@[j]).0 == orig[j].0
                    &&& done@[j].1.wf()
                    &&& done@[j].1.original_info == orig[j].1.final_model(flag0).info
                    &&& pairs_map(done@[j].1.original_storage@) == orig[j].1.final_model(flag0).storage
                    &&& done@[j].1.buffered@.len() == 0
                },
                forall|j: int| 0 <= j < orig.len() ==> (#[trigger] orig[j]).1.wf(),
                unique_keys(out@),
                forall|k: int| 0 <= k < out@.len()
                    ==> exists|j: int| 0 <= j < done@.len() && (#[trigger] out@[k]).0 == orig[j].0,
                pairs_map(keyed_transitions(out@)) == trans_of_seq(orig.take(done@.len() as int), flag0),
            decreases self.accounts@.len(),
        {
            let ghost i = done@.len() as int;
            let ghost pre_out = out@;
            let (a, mut e) = self.accounts.remove(0);
            proof {
                assert(orig.skip(i)[0] == orig[i]);
                assert(a == orig[i].0 && e == orig[i].1);
                assert(self.accounts@ =~= orig.skip(i + 1));
            }
            let t = e.finalize_transition(self.has_state_clear);
            proof {
                assert(orig.take(i + 1).drop_last() =~= orig.take(i));
                assert(orig.take(i + 1).last() == orig[i]);
                assert forall|j: int| 0 <= j < i implies (#[trigger] orig[j]).0 != a by {}
            }
            match t {
                Some(tr) => {
                    proof {
                        assert forall|k: int| 0 <= k < pre_out.len()
                            implies (#[trigger] pre_out[k]).0 != a by {
                            let j = choose|j: int| 0 <= j < i && pre_out[k].0 == orig[j].0;
                            assert(orig[j].0 != a);
                        }
                    }
                    out.push((a, tr));
                    proof {
                        assert(keyed_transitions(out@)
                            =~= keyed_transitions(pre_out).push((a, tr.model())));
                        assert(keyed_transitions(pre_out).push((a, tr.model())).drop_last()
                            =~= keyed_transitions(pre_out));
                        assert(pairs_map(keyed_transitions(out@))
                            == pairs_map(keyed_transitions(pre_out)).insert(a, tr.model()));
                        assert(tr.model() == orig[i].1.transition_model(flag0));
                    }
                },
                None => {
                    proof {
                        assert(!orig[i].1.emits_transition(flag0));
                        assert(trans_of_seq(orig.take(i + 1), flag0)
                            == trans_of_seq(orig.take(i), flag0));
                    }
                },
            }
            done.push((a, e));
        }
        proof {
            assert(orig.take(orig.len() as int) =~= orig);
            assert(done@.len() == orig.len());
        }
        self.accounts = done;
        proof {
            lemma_trans_of_seq(orig, flag0);
            assert(pairs_map(keyed_transitions(out@)) =~= old(self).transitions_model());
            assert forall|x: u64, j: int| 0 <= j < orig.len() && (#[trigger] orig[j]).0 == x
                implies #[trigger] old(self).table().dom().contains(x) by {
                lemma_pairs_map_contains(orig, x);
            }
            assert forall|p: int, q: int| 0 <= p < q < self.accounts@.len()
                implies (#[trigger] self.accounts@[p]).0 != (#[trigger] self.accounts@[q]).0 by {
                assert(self.accounts@[p].0 == orig[p].0 && self.accounts@[q].0 == orig[q].0);
            }
            assert forall|x: u64| #[trigger] old(self).table().dom().contains(x) implies {
                &&& self.table().dom().contains(x)
                &&& self.table()[x].original_info == old(self).table()[x].final_model(flag0).info
                &&& pairs_map(self.table()[x].original_storage@)
                    == old(self).table()[x].final_model(flag0).storage
                &&& self.table()[x].buffered@.len() == 0
            } by {
                lemma_pairs_map_contains(orig, x);
                let j = choose|j: int| 0 <= j < orig.len() && (#[trigger] orig[j]).0 == x;
                lemma_pairs_map_index(orig, j);
                assert(self.accounts@[j].0 == x);
                lemma_pairs_map_index(self.accounts@, j);
            }
            assert forall|x: u64| #[trigger] self.table().dom().contains(x)
                implies old(self).table().dom().contains(x) by {
                lemma_pairs_map_contains(self.accounts@, x);
                let j = choose|j: int| 0 <= j < self.accounts@.len()
                    && (#[trigger] self.accounts@[j]).0 == x;
                assert(orig[j].0 == x);
                lemma_pairs_map_contains(orig, x);
            }
            assert(self.table().dom() =~= old(self).table().dom());
        }
        TransitionState { transitions: out }
    }
}

impl Default for SharedCacheState {
    /// A cache with the state-clearing policy active and nothing loaded.
    fn default() -> (r: Self)
        ensures
            r.wf(),
            r.accounts@.len() == 0,
            r.code_map() == (Map::<u64, Seq<u8>>::empty()),
            r.has_state_clear == true,
    {
        SharedCacheState::new(true)
    }
}

/// Idempotent bytecode insertion: inserting a `(hash, bytes)` pair into a
/// table that already went through the same insertion changes nothing, so any
/// number of repeated insertions leaves exactly the one entry the first one
/// created.
pub proof fn lemma_idempotent_code_insert(m: Map<u64, Seq<u8>>, hash: u64, code: Seq<u8>)
    ensures
        SharedCacheState::code_insert(SharedCacheState::code_insert(m, hash, code), hash, code)
            == SharedCacheState::code_insert(m, hash, code),
        SharedCacheState::code_insert(m, hash, code).dom().contains(hash),
        !m.dom().contains(hash) ==> SharedCacheState::code_insert(m, hash, code)[hash] == code,
        m.dom().contains(hash) ==> SharedCacheState::code_insert(m, hash, code) == m,
{
}

} // verus!
