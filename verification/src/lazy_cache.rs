//! Expanded-state cache of the lazy WFST adapters, with the `CacheAll`,
//! `Lru` and `NoCache` policies.
//!
//! Under `Lru`, every cached state carries a distinct access tick and an
//! ordered index from tick to state, so the least recently used state is the
//! first entry of the index.
use vstd::prelude::*;
use std::collections::BTreeMap;
use rustc_hash::FxHashMap;
use lling_llang::wfst::StateId;
use crate::fx_map::{
    fx_capacity, fx_contains_key, fx_get, fx_insert, fx_keys, fx_len, fx_map_with_capacity, fx_remove, fx_reserve,
};
use crate::hints::capped_size_hint_capacity;

verus! {

/// Caching policy of a lazy WFST.
#[derive(Clone, Copy, Debug, PartialEq, Eq, Structural)]
pub enum CachePolicy {
    /// Cache all visited states.
    CacheAll,
    /// Keep at most `max_states` recently used states (zero: the configured bound).
    Lru { max_states: usize },
    /// Keep only the most recently expanded state as scratch.
    NoCache,
}

/// One cached state and its last access tick (zero outside `Lru`).
#[derive(Clone)]
pub struct CacheEntry<T> {
    pub cached: T,
    pub last_access: u64,
}

/// Calls `BTreeMap::first_key_value`: the entry with the least key, or `None`
/// for an empty map.
#[verifier::external_body]
fn first_tick(m: &BTreeMap<u64, StateId>) -> (r: Option<(u64, StateId)>)
    ensures
        match r {
            Some((k, v)) => m@.contains_key(k) && m@[k] == v
                && forall|k2: u64| #[trigger] m@.contains_key(k2) ==> k <= k2,
            None => m@.dom().is_empty(),
        },
{
    match m.first_key_value() {
        Some((k, v)) => Some((*k, *v)),
        None => None,
    }
}

/// Cache of expanded states keyed by `StateId`.
#[derive(Clone)]
pub struct LazyStateCache<T> {
    entries: FxHashMap<StateId, CacheEntry<T>>,
    recency: BTreeMap<u64, StateId>,
    scratch: Option<(StateId, T)>,
    clock: u64,
    policy: CachePolicy,
    max_lru_states: usize,
}

impl<T> LazyStateCache<T> {
    /// The cached states and their contents (the scratch state excluded).
    pub closed spec fn spec_entries(self) -> Map<StateId, T> {
        self.entries@.map_values(|e: CacheEntry<T>| e.cached)
    }

    /// The cache entries with their access ticks.
    pub closed spec fn spec_raw(self) -> Map<StateId, CacheEntry<T>> {
        self.entries@
    }

    /// The entries with ticks are exactly the cached states, each holding
    /// the cached contents, with its tick as last access.
    pub proof fn lemma_raw_matches_entries(self)
        ensures
            self.spec_raw().dom() == self.spec_entries().dom(),
            forall|s: StateId| #[trigger] self.spec_entries().contains_key(s)
                ==> self.spec_entries()[s] == self.spec_raw()[s].cached
                    && self.spec_tick(s) == self.spec_raw()[s].last_access,
    {
        assert(self.spec_raw().dom() =~= self.spec_entries().dom());
    }

    /// Last access tick of cached state `s`.
    pub closed spec fn spec_tick(self, s: StateId) -> u64 {
        self.entries@[s].last_access
    }

    /// The scratch state kept under `NoCache`.
    pub closed spec fn spec_scratch(self) -> Option<(StateId, T)> {
        self.scratch
    }

    /// The caching policy.
    pub closed spec fn spec_policy(self) -> CachePolicy {
        self.policy
    }

    /// The bound used by `Lru { max_states: 0 }`.
    pub closed spec fn spec_max_lru_states(self) -> usize {
        self.max_lru_states
    }

    /// The access clock.
    pub closed spec fn spec_clock(self) -> u64 {
        self.clock
    }

    /// The cached contents of `s`: a cache entry, else the scratch state.
    pub open spec fn spec_get(self, s: StateId) -> Option<T> {
        if self.spec_entries().contains_key(s) {
            Some(self.spec_entries()[s])
        } else {
            match self.spec_scratch() {
                Some((t, v)) => if t == s { Some(v) } else { None },
                None => None,
            }
        }
    }

    /// The bound on cached states of `Lru { max_states }` (zero: the configured
    /// bound), at most `usize::MAX - 1`, which no map can reach.
    pub open spec fn spec_lru_limit(self, max_states: usize) -> usize {
        let l = if max_states > 0 { max_states } else { self.spec_max_lru_states() };
        if l < usize::MAX { l } else { (usize::MAX - 1) as usize }
    }

    /// Internal consistency, apart from the size bound.
    pub closed spec fn wf_index(self) -> bool {
        &&& self.max_lru_states >= 1
        &&& self.entries@.dom().finite()
        &&& self.recency@.dom().finite()
        &&& forall|s: StateId| #[trigger] self.entries@.contains_key(s) ==> self.entries@[s].last_access <= self.clock
        &&& (self.policy is NoCache ==> self.entries@.dom().is_empty())
        &&& (!(self.policy is Lru) ==> self.recency@.dom().is_empty()
                && forall|s: StateId| #[trigger] self.entries@.contains_key(s) ==> self.entries@[s].last_access == 0)
        &&& (self.policy is Lru ==> {
                &&& forall|s: StateId| #[trigger] self.entries@.contains_key(s) ==> {
                        &&& self.entries@[s].last_access >= 1
                        &&& self.recency@.contains_key(self.entries@[s].last_access)
                        &&& self.recency@[self.entries@[s].last_access] == s
                    }
                &&& forall|t: u64| #[trigger] self.recency@.contains_key(t) ==> {
                        &&& self.entries@.contains_key(self.recency@[t])
                        &&& self.entries@[self.recency@[t]].last_access == t
                    }
                &&& self.entries@.len() < usize::MAX
            })
    }

    /// Internal consistency: the index, and the `Lru` size bound.
    pub open spec fn wf(self) -> bool {
        &&& self.wf_index()
        &&& (self.spec_policy() is NoCache ==> self.spec_entries().dom().is_empty())
        &&& (self.spec_policy() matches CachePolicy::Lru { max_states }
                ==> self.spec_entries().len() <= self.spec_lru_limit(max_states))
    }

    /// An empty `CacheAll` cache whose `Lru { max_states: 0 }` bound is `max_lru_states` (at least one).
    pub fn new(max_lru_states: usize) -> (r: Self)
        ensures
            r.wf(),
            r.spec_entries() == Map::<StateId, T>::empty(),
            r.spec_scratch() is None,
            r.spec_policy() == CachePolicy::CacheAll,
            r.spec_max_lru_states() == (if max_lru_states >= 1 { max_lru_states } else { 1 }),
            r.spec_clock() == 0,
    {
        let r = LazyStateCache {
            entries: fx_map_with_capacity(0),
            recency: BTreeMap::new(),
            scratch: None,
            clock: 0,
            policy: CachePolicy::CacheAll,
            max_lru_states: if max_lru_states >= 1 { max_lru_states } else { 1 },
        };
        assert(r.spec_entries() =~= Map::<StateId, T>::empty());
        r
    }

    /// The cached contents of `state`.
    pub fn get(&self, state: StateId) -> (r: Option<&T>)
        requires
            self.wf(),
        ensures
            match r {
                Some(v) => self.spec_get(state) == Some(*v),
                None => self.spec_get(state) is None,
            },
    {
        match fx_get(&self.entries, &state) {
            Some(entry) => Some(&entry.cached),
            None => match &self.scratch {
                Some((scratch_state, cached)) => if *scratch_state == state { Some(cached) } else { None },
                None => None,
            },
        }
    }

    /// Number of cached states (the scratch state excluded).
    pub fn len(&self) -> (r: usize)
        requires
            self.wf(),
        ensures
            r == self.spec_entries().len(),
    {
        assert(self.spec_entries().dom() =~= self.entries@.dom());
        fx_len(&self.entries)
    }

    /// The caching policy.
    pub fn policy(&self) -> (r: CachePolicy)
        ensures
            r == self.spec_policy(),
    {
        self.policy
    }

    /// The access clock: zero on a new, cleared or re-policied cache.
    pub fn clock(&self) -> (r: u64)
        ensures
            r == self.spec_clock(),
    {
        self.clock
    }

    /// The cached states (the scratch state excluded), each once, in the
    /// map's iteration order.
    pub fn cached_states(&self) -> (r: Vec<StateId>)
        requires
            self.wf(),
        ensures
            r@.no_duplicates(),
            r@.to_set() == self.spec_entries().dom(),
    {
        let r = fx_keys(&self.entries);
        proof {
            assert(self.spec_entries().dom() =~= self.entries@.dom());
        }
        r
    }

    /// The scratch state kept under `NoCache`, with its contents.
    pub fn scratch(&self) -> (r: Option<(StateId, &T)>)
        ensures
            match r {
                Some((s, t)) => self.spec_scratch() == Some((s, *t)),
                None => self.spec_scratch() is None,
            },
    {
        match &self.scratch {
            Some((s, t)) => Some((*s, t)),
            None => None,
        }
    }

    /// Whether `state` is cached as an expanded state (never under `NoCache`).
    pub fn is_expanded(&self, state: StateId) -> (r: bool)
        requires
            self.wf(),
        ensures
            r == (!(self.spec_policy() is NoCache) && self.spec_entries().contains_key(state)),
    {
        !matches!(self.policy, CachePolicy::NoCache) && fx_contains_key(&self.entries, &state)
    }

    /// Forget every cached state and restart the access clock.
    pub fn clear(&mut self)
        requires
            old(self).wf_index(),
        ensures
            final(self).wf(),
            final(self).spec_entries() == Map::<StateId, T>::empty(),
            final(self).spec_scratch() is None,
            final(self).spec_clock() == 0,
            final(self).spec_policy() == old(self).spec_policy(),
            final(self).spec_max_lru_states() == old(self).spec_max_lru_states(),
    {
        self.entries.clear();
        self.recency.clear();
        self.scratch = None;
        self.clock = 0;
        assert(self.spec_entries() =~= Map::<StateId, T>::empty());
    }

    /// How many entries the cache holds without reallocating.
    pub fn entry_capacity(&self) -> (r: usize)
        requires
            self.wf(),
        ensures
            r >= self.spec_entries().len(),
    {
        proof {
            assert(self.spec_entries().dom() =~= self.entries@.dom());
        }
        fx_capacity(&self.entries)
    }

    /// Switch to `policy`, forgetting every cached state.
    pub fn set_policy(&mut self, policy: CachePolicy)
        requires
            old(self).wf(),
        ensures
            final(self).wf(),
            final(self).spec_entries() == Map::<StateId, T>::empty(),
            final(self).spec_scratch() is None,
            final(self).spec_clock() == 0,
            final(self).spec_policy() == policy,
            final(self).spec_max_lru_states() == old(self).spec_max_lru_states(),
    {
        self.entries.clear();
        self.recency.clear();
        self.scratch = None;
        self.clock = 0;
        self.policy = policy;
        assert(self.spec_entries() =~= Map::<StateId, T>::empty());
        if let CachePolicy::Lru { max_states } = policy {
            let limit: usize = if max_states > 0 { max_states } else { self.max_lru_states };
            fx_reserve(&mut self.entries, capped_size_hint_capacity(limit));
        }
    }
    /// Remove the least recently used state, if any.
    fn evict_one_lru(&mut self) -> (r: bool)
        requires
            old(self).wf_index(),
            old(self).policy is Lru,
        ensures
            final(self).wf_index(),
            final(self).policy == old(self).policy,
            final(self).clock == old(self).clock,
            final(self).max_lru_states == old(self).max_lru_states,
            final(self).scratch == old(self).scratch,
            r == !old(self).entries@.dom().is_empty(),
            !r ==> final(self).entries@ == old(self).entries@,
            r ==> exists|v: StateId| {
                &&& #[trigger] old(self).entries@.contains_key(v)
                &&& final(self).entries@ == old(self).entries@.remove(v)
                &&& forall|s: StateId| #[trigger] old(self).entries@.contains_key(s)
                        ==> old(self).entries@[v].last_access <= old(self).entries@[s].last_access
            },
    {
        match first_tick(&self.recency) {
            Some((tick, victim)) => {
                self.recency.remove(&tick);
                let _ = fx_remove(&mut self.entries, &victim);
                proof {
                    assert forall|s: StateId| #[trigger] old(self).entries@.contains_key(s) implies
                        old(self).entries@[victim].last_access <= old(self).entries@[s].last_access by {
                        assert(old(self).recency@.contains_key(old(self).entries@[s].last_access));
                    }
                    assert(self.entries@.len() < old(self).entries@.len());
                }
                true
            },
            None => {
                proof {
                    if !old(self).entries@.dom().is_empty() {
                        let s = old(self).entries@.dom().choose();
                        assert(old(self).entries@.contains_key(s));
                        assert(old(self).recency@.contains_key(old(self).entries@[s].last_access));
                    }
                }
                false
            },
        }
    }

    /// Evict least recently used states until at most `limit` remain.
    fn evict_lru_until_at_most(&mut self, limit: usize)
        requires
            old(self).wf_index(),
            old(self).policy is Lru,
        ensures
            final(self).wf_index(),
            final(self).policy == old(self).policy,
            final(self).clock == old(self).clock,
            final(self).max_lru_states == old(self).max_lru_states,
            final(self).scratch == old(self).scratch,
            final(self).entries@.len() <= limit,
            final(self).entries@.len() == (if old(self).entries@.len() <= limit { old(self).entries@.len() } else { limit as nat }),
            old(self).entries@.len() <= limit ==> final(self).entries@ == old(self).entries@,
            Self::evicted_oldest(old(self).entries@, final(self).entries@),
    {
        while fx_len(&self.entries) > limit
            invariant
                self.wf_index(),
                self.policy is Lru,
                self.policy == old(self).policy,
                self.clock == old(self).clock,
                self.max_lru_states == old(self).max_lru_states,
                self.scratch == old(self).scratch,
                old(self).entries@.len() <= limit ==> self.entries@ == old(self).entries@,
                old(self).entries@.len() > limit ==> self.entries@.len() >= limit,
                Self::evicted_oldest(old(self).entries@, self.entries@),
            decreases self.entries@.len(),
        {
            let ghost before = self.entries@;
            let evicted: bool = self.evict_one_lru();
            proof {
                Self::lemma_evicted_oldest_step(old(self).entries@, before, self.entries@);
                let v = choose|v: StateId| {
                    &&& #[trigger] before.contains_key(v)
                    &&& self.entries@ == before.remove(v)
                    &&& forall|s: StateId| #[trigger] before.contains_key(s)
                            ==> before[v].last_access <= before[s].last_access
                };
                assert(self.entries@.dom() =~= before.dom().remove(v));
            }
        }
    }

    /// Evict least recently used states until fewer than `limit` remain.
    fn evict_lru_before_insert(&mut self, limit: usize)
        requires
            old(self).wf_index(),
            old(self).policy is Lru,
            limit >= 1,
        ensures
            final(self).wf_index(),
            final(self).policy == old(self).policy,
            final(self).clock == old(self).clock,
            final(self).max_lru_states == old(self).max_lru_states,
            final(self).scratch == old(self).scratch,
            final(self).entries@.len() < limit,
            final(self).entries@.len() == (if old(self).entries@.len() < limit { old(self).entries@.len() } else { (limit - 1) as nat }),
            old(self).entries@.len() < limit ==> final(self).entries@ == old(self).entries@,
            old(self).entries@.len() == limit ==> exists|v: StateId| {
                &&& #[trigger] old(self).entries@.contains_key(v)
                &&& final(self).entries@ == old(self).entries@.remove(v)
                &&& forall|s: StateId| #[trigger] old(self).entries@.contains_key(s)
                        ==> old(self).entries@[v].last_access <= old(self).entries@[s].last_access
            },
            Self::evicted_oldest(old(self).entries@, final(self).entries@),
    {
        let len: usize = fx_len(&self.entries);
        if len == limit {
            let _ = self.evict_one_lru();
            proof {
                Self::lemma_evicted_oldest_step(old(self).entries@, old(self).entries@, self.entries@);
                let v = choose|v: StateId| {
                    &&& #[trigger] old(self).entries@.contains_key(v)
                    &&& self.entries@ == old(self).entries@.remove(v)
                    &&& forall|s: StateId| #[trigger] old(self).entries@.contains_key(s)
                            ==> old(self).entries@[v].last_access <= old(self).entries@[s].last_access
                };
                assert(self.entries@.dom() =~= old(self).entries@.dom().remove(v));
            }
        } else {
            self.evict_lru_until_at_most(limit - 1);
        }
    }

    /// `new` is `old` with some entries removed, each older than every entry kept,
    /// and the kept entries unchanged.
    pub open spec fn evicted_oldest(old: Map<StateId, CacheEntry<T>>, new: Map<StateId, CacheEntry<T>>) -> bool {
        &&& forall|s: StateId| #[trigger] new.contains_key(s) ==> old.contains_key(s) && new[s] == old[s]
        &&& forall|e: StateId, k: StateId| #[trigger] old.contains_key(e) && !new.contains_key(e) && #[trigger] new.contains_key(k)
                ==> old[e].last_access <= old[k].last_access
    }

    proof fn lemma_evicted_oldest_step(
        orig: Map<StateId, CacheEntry<T>>, mid: Map<StateId, CacheEntry<T>>, last: Map<StateId, CacheEntry<T>>)
        requires
            Self::evicted_oldest(orig, mid),
            last == mid || exists|v: StateId| {
                &&& #[trigger] mid.contains_key(v)
                &&& last == mid.remove(v)
                &&& forall|s: StateId| #[trigger] mid.contains_key(s) ==> mid[v].last_access <= mid[s].last_access
            },
        ensures
            Self::evicted_oldest(orig, last),
    {
        if last != mid {
            let v = choose|v: StateId| {
                &&& #[trigger] mid.contains_key(v)
                &&& last == mid.remove(v)
                &&& forall|s: StateId| #[trigger] mid.contains_key(s) ==> mid[v].last_access <= mid[s].last_access
            };
            assert forall|e: StateId, k: StateId| #[trigger] orig.contains_key(e) && !last.contains_key(e) && #[trigger] last.contains_key(k)
                implies orig[e].last_access <= orig[k].last_access by {
                assert(mid.contains_key(k));
                if e == v {
                    assert(mid[v].last_access <= mid[k].last_access);
                } else {
                    assert(!mid.contains_key(e));
                }
            }
        }
    }
    /// Renumber the access ticks of the cached states `1..=n` in recency order.
    fn renumber_lru_ticks(&mut self)
        requires
            old(self).wf_index(),
            old(self).policy is Lru,
        ensures
            final(self).wf_index(),
            final(self).policy == old(self).policy,
            final(self).max_lru_states == old(self).max_lru_states,
            final(self).scratch == old(self).scratch,
            final(self).entries@.dom() == old(self).entries@.dom(),
            forall|s: StateId| #[trigger] final(self).entries@.contains_key(s)
                ==> final(self).entries@[s].cached == old(self).entries@[s].cached,
            final(self).clock == old(self).entries@.len(),
            forall|a: StateId, b: StateId| #[trigger] old(self).entries@.contains_key(a) && #[trigger] old(self).entries@.contains_key(b)
                ==> (old(self).entries@[a].last_access < old(self).entries@[b].last_access
                    <==> final(self).entries@[a].last_access < final(self).entries@[b].last_access),
    {
        let ghost old_e = self.entries@;
        let mut pending: BTreeMap<u64, StateId> = BTreeMap::new();
        std::mem::swap(&mut pending, &mut self.recency);
        let ghost mut processed: Set<StateId> = Set::empty();
        let mut next: u64 = 0;
        proof {
            assert forall|a: StateId, b: StateId| #[trigger] old_e.contains_key(a) && #[trigger] old_e.contains_key(b)
                && old_e[a].last_access == old_e[b].last_access implies a == b by {
                assert(pending@[old_e[a].last_access] == a);
            }
            vstd::set_lib::lemma_len_subset(processed, old_e.dom());
        }
        loop
            invariant_except_break
                pending@.dom().finite(),
            invariant
                self.policy is Lru,
                self.policy == old(self).policy,
                self.max_lru_states == old(self).max_lru_states,
                self.scratch == old(self).scratch,
                old(self).wf_index(),
                old_e == old(self).entries@,
                old_e.len() < usize::MAX,
                old_e.dom().finite(),
                forall|a: StateId, b: StateId| #[trigger] old_e.contains_key(a) && #[trigger] old_e.contains_key(b)
                    && old_e[a].last_access == old_e[b].last_access ==> a == b,
                self.entries@.dom() == old_e.dom(),
                self.recency@.dom().finite(),
                pending@.dom().finite(),
                forall|s: StateId| #[trigger] self.entries@.contains_key(s) ==> self.entries@[s].cached == old_e[s].cached,
                processed.finite(),
                processed.subset_of(old_e.dom()),
                processed.len() == next,
                forall|s: StateId| #[trigger] old_e.contains_key(s) && !processed.contains(s) ==> {
                    &&& self.entries@[s].last_access == old_e[s].last_access
                    &&& pending@.contains_key(old_e[s].last_access)
                    &&& pending@[old_e[s].last_access] == s
                },
                forall|t: u64| #[trigger] pending@.contains_key(t) ==> {
                    &&& old_e.contains_key(pending@[t])
                    &&& !processed.contains(pending@[t])
                    &&& old_e[pending@[t]].last_access == t
                },
                forall|s: StateId| #[trigger] processed.contains(s) ==> {
                    &&& 1 <= self.entries@[s].last_access <= next
                    &&& self.recency@.contains_key(self.entries@[s].last_access)
                    &&& self.recency@[self.entries@[s].last_access] == s
                },
                forall|t: u64| #[trigger] self.recency@.contains_key(t) ==> {
                    &&& processed.contains(self.recency@[t])
                    &&& self.entries@[self.recency@[t]].last_access == t
                },
                forall|a: StateId, b: StateId| #[trigger] processed.contains(a) && old_e.contains_key(b) && !#[trigger] processed.contains(b)
                    ==> old_e[a].last_access < old_e[b].last_access,
                forall|a: StateId, b: StateId| #[trigger] processed.contains(a) && #[trigger] processed.contains(b)
                    ==> (old_e[a].last_access < old_e[b].last_access
                        <==> self.entries@[a].last_access < self.entries@[b].last_access),
            ensures
                processed == old_e.dom(),
            decreases pending@.dom().len(),
        {
            match first_tick(&pending) {
                Some((tick, state)) => {
                    let ghost before = self.entries@;
                    pending.remove(&tick);
                    proof {
                        vstd::set_lib::lemma_len_subset(processed, old_e.dom());
                        assert(!processed.contains(state));
                        assert(processed.insert(state).subset_of(old_e.dom()));
                        vstd::set_lib::lemma_len_subset(processed.insert(state), old_e.dom());
                    }
                    next = next + 1;
                    match fx_remove(&mut self.entries, &state) {
                        Some(entry) => {
                            let _ = fx_insert(&mut self.entries, state, CacheEntry { cached: entry.cached, last_access: next });
                        },
                        None => {},
                    }
                    self.recency.insert(next, state);
                    proof {
                        assert forall|b: StateId| old_e.contains_key(b) && !processed.contains(b) && b != state implies
                            old_e[state].last_access < old_e[b].last_access by {
                            assert(pending@.contains_key(old_e[b].last_access) || old_e[b].last_access == tick);
                        }
                        processed = processed.insert(state);
                    }
                },
                None => {
                    proof {
                        assert forall|s: StateId| old_e.contains_key(s) implies processed.contains(s) by {
                            if !processed.contains(s) {
                                assert(pending@.contains_key(old_e[s].last_access));
                            }
                        }
                        assert(processed =~= old_e.dom());
                    }
                    break;
                },
            }
        }
        self.clock = next;
    }

    /// Advance the access clock, renumbering first when it is exhausted.
    fn next_tick(&mut self) -> (r: u64)
        requires
            old(self).wf_index(),
            old(self).policy is Lru,
        ensures
            final(self).wf_index(),
            r == final(self).clock,
            r >= 1,
            final(self).policy == old(self).policy,
            final(self).max_lru_states == old(self).max_lru_states,
            final(self).scratch == old(self).scratch,
            final(self).entries@.dom() == old(self).entries@.dom(),
            forall|s: StateId| #[trigger] final(self).entries@.contains_key(s) ==> {
                &&& final(self).entries@[s].cached == old(self).entries@[s].cached
                &&& final(self).entries@[s].last_access < r
            },
            forall|a: StateId, b: StateId| #[trigger] old(self).entries@.contains_key(a) && #[trigger] old(self).entries@.contains_key(b)
                ==> (old(self).entries@[a].last_access < old(self).entries@[b].last_access
                    <==> final(self).entries@[a].last_access < final(self).entries@[b].last_access),
    {
        if self.clock == u64::MAX {
            self.renumber_lru_ticks();
        }
        self.clock = self.clock + 1;
        self.clock
    }

    /// Mark cached state `state` as the most recently used.
    fn touch(&mut self, state: StateId)
        requires
            old(self).wf_index(),
            old(self).policy is Lru,
            old(self).entries@.contains_key(state),
        ensures
            final(self).wf_index(),
            final(self).policy == old(self).policy,
            final(self).max_lru_states == old(self).max_lru_states,
            final(self).scratch == old(self).scratch,
            final(self).entries@.dom() == old(self).entries@.dom(),
            forall|s: StateId| #[trigger] final(self).entries@.contains_key(s)
                ==> final(self).entries@[s].cached == old(self).entries@[s].cached,
            Self::touched_last(old(self).entries@, final(self).entries@, state),
    {
        let ghost before = self.entries@;
        let tick: u64 = self.next_tick();
        let ghost mid = self.entries@;
        match fx_remove(&mut self.entries, &state) {
            Some(entry) => {
                self.recency.remove(&entry.last_access);
                let _ = fx_insert(&mut self.entries, state, CacheEntry { cached: entry.cached, last_access: tick });
                self.recency.insert(tick, state);
                proof {
                    assert forall|t: u64| #[trigger] self.recency@.contains_key(t) implies {
                        &&& self.entries@.contains_key(self.recency@[t])
                        &&& self.entries@[self.recency@[t]].last_access == t
                    } by {
                        if t != tick {
                            assert(mid[state].last_access != t);
                        }
                    }
                    assert(self.entries@.len() == before.len()) by {
                        assert(self.entries@.dom() =~= before.dom());
                    }
                }
            },
            None => {},
        }
    }

    /// `new` ranks `state` after every other entry and keeps the relative
    /// order of the other entries of `old`.
    pub open spec fn touched_last(old: Map<StateId, CacheEntry<T>>, new: Map<StateId, CacheEntry<T>>, state: StateId) -> bool {
        &&& forall|s: StateId| #[trigger] new.contains_key(s) && s != state ==> new[s].last_access < new[state].last_access
        &&& forall|a: StateId, b: StateId| #[trigger] new.contains_key(a) && #[trigger] new.contains_key(b)
                && a != state && b != state && old.contains_key(a) && old.contains_key(b)
                ==> (old[a].last_access < old[b].last_access <==> new[a].last_access < new[b].last_access)
    }

    /// Mark `state` as recently used if it is cached, and report whether its
    /// expansion is available (as a cache entry or as the scratch state).
    pub fn touch_if_cached(&mut self, state: StateId) -> (r: bool)
        requires
            old(self).wf(),
        ensures
            final(self).wf(),
            r == (old(self).spec_get(state) is Some),
            final(self).spec_entries() == old(self).spec_entries(),
            final(self).spec_scratch() == old(self).spec_scratch(),
            final(self).spec_policy() == old(self).spec_policy(),
            final(self).spec_max_lru_states() == old(self).spec_max_lru_states(),
            old(self).spec_policy() is Lru && old(self).spec_entries().contains_key(state)
                ==> Self::touched_last(old(self).spec_raw(), final(self).spec_raw(), state),
    {
        if fx_contains_key(&self.entries, &state) {
            if let CachePolicy::Lru { .. } = self.policy {
                self.touch(state);
                proof {
                    assert(self.spec_entries() =~= old(self).spec_entries());
                }
            }
            return true;
        }
        match &self.scratch {
            Some((scratch_state, _)) => *scratch_state == state,
            None => false,
        }
    }

    /// Cache the expansion `cached` of `state` under the current policy.
    pub fn insert(&mut self, state: StateId, cached: T)
        requires
            old(self).wf(),
        ensures
            final(self).wf(),
            final(self).spec_get(state) == Some(cached),
            final(self).spec_policy() == old(self).spec_policy(),
            final(self).spec_max_lru_states() == old(self).spec_max_lru_states(),
            match old(self).spec_policy() {
                CachePolicy::NoCache => {
                    &&& final(self).spec_entries() == Map::<StateId, T>::empty()
                    &&& final(self).spec_scratch() == Some((state, cached))
                },
                CachePolicy::CacheAll => {
                    &&& final(self).spec_entries() == old(self).spec_entries().insert(state, cached)
                    &&& final(self).spec_scratch() is None
                },
                CachePolicy::Lru { max_states } => {
                    &&& final(self).spec_scratch() is None
                    &&& final(self).spec_entries().contains_key(state)
                    &&& final(self).spec_entries().len() <= old(self).spec_lru_limit(max_states)
                    &&& forall|s: StateId| #[trigger] final(self).spec_entries().contains_key(s) && s != state
                            ==> old(self).spec_entries().contains_key(s)
                                && final(self).spec_entries()[s] == old(self).spec_entries()[s]
                    &&& (old(self).spec_entries().contains_key(state)
                            || old(self).spec_entries().len() < old(self).spec_lru_limit(max_states))
                            ==> final(self).spec_entries().dom() == old(self).spec_entries().dom().insert(state)
                    &&& (!old(self).spec_entries().contains_key(state)
                            && old(self).spec_entries().len() >= old(self).spec_lru_limit(max_states))
                            ==> exists|v: StateId| {
                                &&& #[trigger] old(self).spec_entries().contains_key(v)
                                &&& forall|s: StateId| #[trigger] old(self).spec_entries().contains_key(s)
                                        ==> old(self).spec_raw()[v].last_access <= old(self).spec_raw()[s].last_access
                                &&& final(self).spec_entries().dom() == old(self).spec_entries().dom().remove(v).insert(state)
                            }
                    &&& Self::evicted_before(old(self).spec_raw(), final(self).spec_raw(), state)
                    &&& Self::touched_last(old(self).spec_raw(), final(self).spec_raw(), state)
                },
            },
    {
        match self.policy {
            CachePolicy::NoCache => {
                self.scratch = Some((state, cached));
                assert(self.spec_entries() =~= Map::<StateId, T>::empty());
            },
            CachePolicy::CacheAll => {
                let _ = fx_insert(&mut self.entries, state, CacheEntry { cached, last_access: 0 });
                self.scratch = None;
                assert(self.spec_entries() =~= old(self).spec_entries().insert(state, cached));
            },
            CachePolicy::Lru { max_states } => {
                let configured: usize = if max_states > 0 { max_states } else { self.max_lru_states };
                let limit: usize = if configured < usize::MAX { configured } else { usize::MAX - 1 };
                let ghost e0 = self.entries@;
                if !fx_contains_key(&self.entries, &state) {
                    self.evict_lru_before_insert(limit);
                }
                let ghost e1 = self.entries@;
                let tick: u64 = self.next_tick();
                let ghost e2 = self.entries@;
                let previous: Option<CacheEntry<T>> = fx_insert(&mut self.entries, state, CacheEntry { cached, last_access: tick });
                match previous {
                    Some(p) => {
                        self.recency.remove(&p.last_access);
                    },
                    None => {},
                }
                self.recency.insert(tick, state);
                self.scratch = None;
                proof {
                    assert(self.spec_entries().dom() =~= e2.dom().insert(state));
                    assert(e2.dom() == e1.dom());
                    if e0.contains_key(state) {
                        assert(e1 == e0);
                    }
                    assert forall|t: u64| #[trigger] self.recency@.contains_key(t) implies {
                        &&& self.entries@.contains_key(self.recency@[t])
                        &&& self.entries@[self.recency@[t]].last_access == t
                    } by {
                        if t != tick && e2.contains_key(state) {
                            assert(e2[state].last_access != t);
                        }
                    }
                    vstd::set_lib::lemma_len_subset(e1.dom(), e0.dom());
                    assert(self.spec_entries().dom() =~= self.entries@.dom());
                    assert(old(self).spec_entries().dom() =~= e0.dom());
                    if e0.contains_key(state) || e0.len() < limit {
                        assert(e1 == e0);
                    }
                    assert forall|s: StateId| #[trigger] self.spec_entries().contains_key(s) && s != state implies
                        old(self).spec_entries().contains_key(s) && self.spec_entries()[s] == old(self).spec_entries()[s] by {
                        assert(e1.contains_key(s));
                    }
                    if !e0.contains_key(state) && e0.len() >= limit {
                        assert(e0.len() == limit);
                        let v = choose|v: StateId| {
                            &&& #[trigger] e0.contains_key(v)
                            &&& e1 == e0.remove(v)
                            &&& forall|s: StateId| #[trigger] e0.contains_key(s)
                                    ==> e0[v].last_access <= e0[s].last_access
                        };
                        assert(self.spec_entries().dom() =~= old(self).spec_entries().dom().remove(v).insert(state));
                        assert(old(self).spec_entries().contains_key(v));
                    }
                }
            },
        }
    }

    /// Every entry of `old` missing from `new` (other than `state`) was older
    /// than every entry kept.
    pub open spec fn evicted_before(old: Map<StateId, CacheEntry<T>>, new: Map<StateId, CacheEntry<T>>, state: StateId) -> bool {
        forall|e: StateId, k: StateId| #[trigger] old.contains_key(e) && !new.contains_key(e) && #[trigger] new.contains_key(k)
            && k != state && e != state
            ==> old[e].last_access <= old[k].last_access
    }

    /// Change the bound used by `Lru { max_states: 0 }`, evicting least
    /// recently used states when that policy is active and the bound shrinks.
    pub fn set_max_lru_states(&mut self, max_lru_states: usize)
        requires
            old(self).wf(),
        ensures
            final(self).wf(),
            final(self).spec_max_lru_states() == (if max_lru_states >= 1 { max_lru_states } else { 1 }),
            final(self).spec_policy() == old(self).spec_policy(),
            final(self).spec_scratch() == old(self).spec_scratch(),
            forall|s: StateId| #[trigger] final(self).spec_entries().contains_key(s)
                ==> old(self).spec_entries().contains_key(s) && final(self).spec_entries()[s] == old(self).spec_entries()[s],
            !(old(self).spec_policy() == (CachePolicy::Lru { max_states: 0 }))
                ==> final(self).spec_entries() == old(self).spec_entries(),
            old(self).spec_policy() == (CachePolicy::Lru { max_states: 0 }) ==> {
                let bound = final(self).spec_lru_limit(0);
                final(self).spec_entries().len() == (if old(self).spec_entries().len() <= bound {
                    old(self).spec_entries().len()
                } else {
                    bound as nat
                })
            },
            Self::evicted_oldest(old(self).spec_raw(), final(self).spec_raw()),
    {
        self.max_lru_states = if max_lru_states >= 1 { max_lru_states } else { 1 };
        if self.policy == (CachePolicy::Lru { max_states: 0 }) {
            let limit: usize = if self.max_lru_states < usize::MAX { self.max_lru_states } else { usize::MAX - 1 };
            fx_reserve(&mut self.entries, capped_size_hint_capacity(limit));
            self.evict_lru_until_at_most(limit);
            proof {
                assert(self.spec_entries().dom() =~= self.entries@.dom());
                assert(old(self).spec_entries().dom() =~= old(self).entries@.dom());
            }
        }
    }
}

} // verus!
