//! The phonetic NFA as a lazily expanded identity transducer: each WFST state
//! is a registered NFA state set, and each candidate scalar leads to the
//! epsilon closure of the states it reaches.
use vstd::prelude::*;
use rustc_hash::{FxBuildHasher, FxHashMap};
use crate::phonetic_candidates::{collect_candidates, collect_successors, spec_candidates, spec_successors};
use crate::phonetic_nfa::{ClosureMode, PhoneticNfa};
use crate::phonetic_support::{
    default_phonetic_nfa_alphabet, dedup_first, lemma_canonical_form_unique, normalize_alphabet,
    phonetic_nfa_state_hint, strictly_increasing,
};

verus! {

/// The ID the next registered NFA state set receives when `len` are registered.
pub fn next_nfa_state_id(len: usize) -> (r: Option<u32>)
    ensures
        r == (if len <= u32::MAX { Some(len as u32) } else { None::<u32> }),
{
    if len <= 0xffff_ffffusize { Some(len as u32) } else { None }
}

/// A map from canonical NFA state lists to WFST state IDs.
pub type NfaKeyMap = FxHashMap<Vec<u32>, u32>;

/// The entries of a key map, by the lists' elements.
pub uninterp spec fn nfa_key_ids(m: NfaKeyMap) -> Map<Seq<u32>, u32>;

/// Calls `FxHashMap::with_capacity_and_hasher`: a new map holds no entries.
#[verifier::external_body]
pub(crate) fn nfa_key_map_with_capacity(capacity: usize) -> (r: NfaKeyMap)
    ensures
        nfa_key_ids(r).dom().is_empty(),
{
    FxHashMap::with_capacity_and_hasher(capacity, FxBuildHasher)
}

/// Calls `HashMap::get` with a slice key: the ID stored under the list, if any.
#[verifier::external_body]
pub(crate) fn nfa_key_map_get(m: &NfaKeyMap, key: &[u32]) -> (r: Option<u32>)
    ensures
        r == (if nfa_key_ids(*m).contains_key(key@) { Some(nfa_key_ids(*m)[key@]) } else { None::<u32> }),
{
    m.get(key).copied()
}

/// Calls `HashMap::insert`: the list maps to `id` afterwards.
#[verifier::external_body]
pub(crate) fn nfa_key_map_insert(m: &mut NfaKeyMap, key: Vec<u32>, id: u32)
    ensures
        nfa_key_ids(*final(m)) == nfa_key_ids(*old(m)).insert(key@, id),
{
    m.insert(key, id);
}

/// Stable WFST state IDs for NFA state sets, with each set's finality.
pub struct NfaStateRegistry {
    state_to_id: NfaKeyMap,
    sets: Vec<Vec<u32>>,
    finals: Vec<bool>,
}

impl NfaStateRegistry {
    /// The registered state lists, by ID.
    pub closed spec fn spec_sets(&self) -> Seq<Seq<u32>> {
        self.sets@.map_values(|v: Vec<u32>| v@)
    }

    /// Whether each registered state accepts, by ID.
    pub closed spec fn spec_finals(&self) -> Seq<bool> {
        self.finals@
    }

    /// The ID registered for `key`, if any.
    pub closed spec fn spec_lookup(&self, key: Seq<u32>) -> Option<u32> {
        if nfa_key_ids(self.state_to_id).contains_key(key) {
            Some(nfa_key_ids(self.state_to_id)[key])
        } else {
            None
        }
    }

    /// One finality per set, at least one and at most `u32::MAX + 1` sets, and
    /// the map sends exactly the registered lists to their IDs.
    pub closed spec fn wf(&self) -> bool {
        &&& self.sets@.len() == self.finals@.len()
        &&& 1 <= self.sets@.len() <= u32::MAX + 1
        &&& forall|key: Seq<u32>| #[trigger] nfa_key_ids(self.state_to_id).contains_key(key) ==>
                nfa_key_ids(self.state_to_id)[key] < self.sets@.len()
                && self.sets@[nfa_key_ids(self.state_to_id)[key] as int]@ == key
        &&& forall|i: int| 0 <= i < self.sets@.len() ==>
                nfa_key_ids(self.state_to_id).contains_key(#[trigger] self.sets@[i]@)
                && nfa_key_ids(self.state_to_id)[self.sets@[i]@] == i
    }

    /// A registered list looks up its own ID, and an unregistered one nothing.
    pub proof fn lemma_lookup(&self, key: Seq<u32>)
        requires
            self.wf(),
        ensures
            match self.spec_lookup(key) {
                Some(id) => id < self.spec_sets().len() && self.spec_sets()[id as int] == key,
                None => !self.spec_sets().contains(key),
            },
    {
        if self.spec_sets().contains(key) {
            let i = choose|i: int| 0 <= i < self.spec_sets().len() && self.spec_sets()[i] == key;
            assert(self.sets@[i]@ == key);
        }
    }

    /// Each registered list looks up its own ID.
    pub proof fn lemma_lookup_index(&self, i: int)
        requires
            self.wf(),
            0 <= i < self.spec_sets().len(),
        ensures
            self.spec_lookup(self.spec_sets()[i]) == Some(i as u32),
    {
        assert(self.spec_sets()[i] == self.sets@[i]@);
    }

    /// A registry holding only the start state list `initial`.
    pub fn new(initial: Vec<u32>, initial_is_final: bool) -> (r: Self)
        ensures
            r.wf(),
            r.spec_sets() == seq![initial@],
            r.spec_finals() == seq![initial_is_final],
    {
        let mut state_to_id: NfaKeyMap = nfa_key_map_with_capacity(1);
        let key: Vec<u32> = initial.clone();
        proof {
            assert(key@ =~= initial@);
        }
        nfa_key_map_insert(&mut state_to_id, key, 0);
        let mut sets: Vec<Vec<u32>> = Vec::new();
        sets.push(initial);
        let mut finals: Vec<bool> = Vec::new();
        finals.push(initial_is_final);
        let r = NfaStateRegistry { state_to_id, sets, finals };
        proof {
            assert(r.spec_sets() =~= seq![initial@]);
            assert forall|k: Seq<u32>| #[trigger] nfa_key_ids(r.state_to_id).contains_key(k) implies
                nfa_key_ids(r.state_to_id)[k] < r.sets@.len() && r.sets@[nfa_key_ids(r.state_to_id)[k] as int]@ == k by {
                assert(k == initial@);
            }
        }
        r
    }

    /// Number of registered states.
    pub fn len(&self) -> (r: usize)
        requires
            self.wf(),
        ensures
            r == self.spec_sets().len(),
    {
        self.sets.len()
    }

    /// The state list registered under `id`.
    pub fn state_set(&self, id: u32) -> (r: Option<&Vec<u32>>)
        requires
            self.wf(),
        ensures
            match r {
                Some(v) => id < self.spec_sets().len() && v@ == self.spec_sets()[id as int],
                None => id >= self.spec_sets().len(),
            },
    {
        if (id as usize) < self.sets.len() {
            Some(&self.sets[id as usize])
        } else {
            None
        }
    }

    /// Whether the state registered under `id` accepts; an unknown one does not.
    pub fn is_final(&self, id: u32) -> (r: bool)
        requires
            self.wf(),
        ensures
            r == (id < self.spec_finals().len() && self.spec_finals()[id as int]),
    {
        (id as usize) < self.finals.len() && self.finals[id as usize]
    }

    /// The ID registered for `key`, if any.
    pub fn id_for_key(&self, key: &[u32]) -> (r: Option<u32>)
        ensures
            r == self.spec_lookup(key@),
    {
        nfa_key_map_get(&self.state_to_id, key)
    }

    /// The ID of `key`, registering it with finality `is_final` when new;
    /// `None` once every ID is taken.
    pub fn get_or_create_with_key(&mut self, key: Vec<u32>, is_final: bool) -> (r: Option<u32>)
        requires
            old(self).wf(),
        ensures
            final(self).wf(),
            old(self).spec_lookup(key@) is Some ==> {
                &&& r == old(self).spec_lookup(key@)
                &&& final(self).spec_sets() == old(self).spec_sets()
                &&& final(self).spec_finals() == old(self).spec_finals()
            },
            old(self).spec_lookup(key@) is None && old(self).spec_sets().len() <= u32::MAX ==> {
                &&& r == Some(old(self).spec_sets().len() as u32)
                &&& final(self).spec_sets() == old(self).spec_sets().push(key@)
                &&& final(self).spec_finals() == old(self).spec_finals().push(is_final)
            },
            old(self).spec_lookup(key@) is None && old(self).spec_sets().len() > u32::MAX ==> {
                &&& r is None
                &&& final(self).spec_sets() == old(self).spec_sets()
                &&& final(self).spec_finals() == old(self).spec_finals()
            },
            forall|k: Seq<u32>| old(self).spec_lookup(k) is Some ==> #[trigger] final(self).spec_lookup(k) == old(self).spec_lookup(k),
    {
        match self.id_for_key(key.as_slice()) {
            Some(id) => Some(id),
            None => {
                let id: u32 = match next_nfa_state_id(self.sets.len()) {
                    Some(id) => id,
                    None => return None,
                };
                let stored: Vec<u32> = key.clone();
                proof {
                    assert(stored@ =~= key@);
                    if self.spec_sets().contains(key@) {
                        let i = choose|i: int| 0 <= i < self.spec_sets().len() && self.spec_sets()[i] == key@;
                        assert(self.sets@[i]@ == key@);
                    }
                }
                let ghost old_ids = nfa_key_ids(self.state_to_id);
                nfa_key_map_insert(&mut self.state_to_id, key, id);
                self.sets.push(stored);
                self.finals.push(is_final);
                proof {
                    assert(self.spec_sets() =~= old(self).spec_sets().push(key@));
                    assert forall|k: Seq<u32>| #[trigger] nfa_key_ids(self.state_to_id).contains_key(k) implies
                        nfa_key_ids(self.state_to_id)[k] < self.sets@.len()
                        && self.sets@[nfa_key_ids(self.state_to_id)[k] as int]@ == k by {
                        if k != key@ {
                            assert(old_ids.contains_key(k));
                        }
                    }
                    assert forall|i: int| 0 <= i < self.sets@.len() implies
                        nfa_key_ids(self.state_to_id).contains_key(#[trigger] self.sets@[i]@)
                        && nfa_key_ids(self.state_to_id)[self.sets@[i]@] == i by {
                        if i < old(self).sets@.len() {
                            assert(self.sets@[i] == old(self).sets@[i]);
                            assert(old_ids.contains_key(old(self).sets@[i]@));
                            if old(self).sets@[i]@ == key@ {
                                assert(old(self).spec_sets()[i] == key@);
                            }
                        }
                    }
                }
                Some(id)
            },
        }
    }
}

/// The strictly increasing list of the finite state set `s`.
pub open spec fn canonical(s: Set<u32>) -> Seq<u32> {
    choose|v: Seq<u32>| strictly_increasing(v) && v.to_set() == s
}

proof fn lemma_canonical(v: Seq<u32>, s: Set<u32>)
    requires
        strictly_increasing(v),
        v.to_set() == s,
    ensures
        canonical(s) == v,
{
    let c = canonical(s);
    assert(strictly_increasing(c) && c.to_set() == s);
    lemma_canonical_form_unique(c, v);
}

/// The targets a state list's candidates lead to: each candidate that
/// reaches some state, with the canonical epsilon closure of those states.
pub open spec fn spec_pending(nfa: PhoneticNfa, states: Seq<u32>, cs: Seq<char>) -> Seq<(char, Seq<u32>)>
    decreases cs.len(),
{
    if cs.len() == 0 {
        Seq::empty()
    } else {
        let prev = spec_pending(nfa, states, cs.drop_last());
        let succ = spec_successors(nfa, states, cs.last());
        if succ == Set::<u32>::empty() {
            prev
        } else {
            prev.push((cs.last(), canonical(nfa.spec_closure(ClosureMode::Epsilon, succ))))
        }
    }
}

/// The registered lists and finalities after registering `keys` in turn:
/// a new list gets the next ID unless every ID is taken.
pub open spec fn register_all(nfa: PhoneticNfa, sets: Seq<Seq<u32>>, finals: Seq<bool>, keys: Seq<Seq<u32>>) -> (Seq<Seq<u32>>, Seq<bool>)
    decreases keys.len(),
{
    if keys.len() == 0 {
        (sets, finals)
    } else {
        let prev = register_all(nfa, sets, finals, keys.drop_last());
        let k = keys.last();
        if prev.0.contains(k) || prev.0.len() > u32::MAX {
            prev
        } else {
            (prev.0.push(k), prev.1.push(nfa.spec_accepting(k.to_set())))
        }
    }
}

/// A transition of the NFA transducer: reads and writes `label`.
#[derive(Clone, Copy, Debug, PartialEq, Eq, Structural)]
pub struct NfaTransition {
    /// Source WFST state.
    pub from: u32,
    /// The scalar read and written.
    pub label: char,
    /// Target WFST state.
    pub to: u32,
}

/// The transitions from `from` to the registered targets of `pending`, in order.
pub open spec fn transitions_of(from: u32, pending: Seq<(char, Seq<u32>)>, reg: NfaStateRegistry) -> Seq<NfaTransition>
    decreases pending.len(),
{
    if pending.len() == 0 {
        Seq::empty()
    } else {
        let prev = transitions_of(from, pending.drop_last(), reg);
        match reg.spec_lookup(pending.last().1) {
            Some(id) => prev.push(NfaTransition { from, label: pending.last().0, to: id }),
            None => prev,
        }
    }
}

/// An expanded WFST state: whether it accepts and its transitions.
pub struct NfaExpansion {
    /// Whether the state accepts.
    pub is_final: bool,
    /// Its transitions, in candidate order.
    pub transitions: Vec<NfaTransition>,
}

/// The phonetic NFA as an identity transducer over registered NFA state sets.
pub struct PhoneticNfaWfst {
    nfa: PhoneticNfa,
    alphabet: Vec<char>,
    registry: NfaStateRegistry,
}

impl PhoneticNfaWfst {
    /// The NFA.
    pub closed spec fn spec_nfa(&self) -> PhoneticNfa {
        self.nfa
    }

    /// The finite alphabet that stands for wide labels.
    pub closed spec fn spec_alphabet(&self) -> Seq<char> {
        self.alphabet@
    }

    /// The registered states.
    pub closed spec fn spec_registry(&self) -> NfaStateRegistry {
        self.registry
    }

    /// The NFA and the registry are well formed.
    pub closed spec fn wf(&self) -> bool {
        self.nfa.wf() && self.registry.wf()
    }

    /// The transducer of `nfa` over the printable ASCII alphabet.
    pub fn new(nfa: PhoneticNfa) -> (r: Self)
        requires
            nfa.wf(),
        ensures
            r.wf(),
            r.spec_nfa() == nfa,
            r.spec_alphabet() == dedup_first(crate::phonetic_support::spec_default_alphabet()),
            r.spec_registry().spec_sets() == seq![canonical(nfa.spec_start_closure())],
            r.spec_registry().spec_finals() == seq![nfa.spec_accepting(nfa.spec_start_closure())],
    {
        Self::with_alphabet(nfa, default_phonetic_nfa_alphabet())
    }

    /// The transducer of `nfa` with `alphabet`, without repeats, standing for
    /// wildcards and classes; its start state is the initial position's state set.
    pub fn with_alphabet(nfa: PhoneticNfa, alphabet: Vec<char>) -> (r: Self)
        requires
            nfa.wf(),
        ensures
            r.wf(),
            r.spec_nfa() == nfa,
            r.spec_alphabet() == dedup_first(alphabet@),
            r.spec_registry().spec_sets() == seq![canonical(nfa.spec_start_closure())],
            r.spec_registry().spec_finals() == seq![nfa.spec_accepting(nfa.spec_start_closure())],
    {
        let initial_closure: Vec<u32> = nfa.start_anchor_closure();
        let initial_is_final: bool = nfa.state_set_can_reach_final_through_end_anchors(initial_closure.as_slice());
        proof {
            lemma_canonical(initial_closure@, nfa.spec_start_closure());
        }
        let registry: NfaStateRegistry = NfaStateRegistry::new(initial_closure, initial_is_final);
        PhoneticNfaWfst { nfa, alphabet: normalize_alphabet(alphabet), registry }
    }

    /// The alphabet standing for wildcards and classes.
    pub fn alphabet(&self) -> (r: &[char])
        ensures
            r@ == self.spec_alphabet(),
    {
        self.alphabet.as_slice()
    }

    /// The NFA.
    pub fn nfa(&self) -> (r: &PhoneticNfa)
        ensures
            *r == self.spec_nfa(),
    {
        &self.nfa
    }

    /// Number of registered states.
    pub fn num_states(&self) -> (r: usize)
        requires
            self.wf(),
        ensures
            r == self.spec_registry().spec_sets().len(),
    {
        self.registry.len()
    }

    /// Whether `state` is registered.
    pub fn is_registered_state(&self, state: u32) -> (r: bool)
        requires
            self.wf(),
        ensures
            r == (state < self.spec_registry().spec_sets().len()),
    {
        (state as usize) < self.registry.len()
    }

    /// Whether the registered `state` accepts; an unknown one does not.
    pub fn registered_state_is_final(&self, state: u32) -> (r: bool)
        requires
            self.wf(),
        ensures
            r == (state < self.spec_registry().spec_finals().len() && self.spec_registry().spec_finals()[state as int]),
    {
        self.registry.is_final(state)
    }

    /// The state-count hint: ten per NFA state, saturating, never below the
    /// registered states.
    pub fn num_states_hint(&self) -> (r: usize)
        requires
            self.wf(),
        ensures
            r == (if crate::state_encoding::saturating_mul_usize(self.spec_nfa().spec_num_states() as int, 10) < self.spec_registry().spec_sets().len() {
                self.spec_registry().spec_sets().len() as int
            } else {
                crate::state_encoding::saturating_mul_usize(self.spec_nfa().spec_num_states() as int, 10)
            }),
    {
        phonetic_nfa_state_hint(self.nfa.num_states(), self.registry.len())
    }

    /// The ID registered for each pending target, registering the new ones in
    /// order with their finality.
    fn resolve_transition_targets(&mut self, pending_sets: Vec<Vec<u32>>) -> (r: Vec<Option<u32>>)
        requires
            old(self).wf(),
        ensures
            final(self).wf(),
            final(self).spec_nfa() == old(self).spec_nfa(),
            final(self).spec_alphabet() == old(self).spec_alphabet(),
            (final(self).spec_registry().spec_sets(), final(self).spec_registry().spec_finals()) == register_all(
                old(self).spec_nfa(),
                old(self).spec_registry().spec_sets(),
                old(self).spec_registry().spec_finals(),
                pending_sets@.map_values(|v: Vec<u32>| v@),
            ),
            r@.len() == pending_sets@.len(),
            forall|j: int| 0 <= j < r@.len() ==> #[trigger] r@[j] == final(self).spec_registry().spec_lookup(pending_sets@[j]@),
    {
        let ghost keys = pending_sets@.map_values(|v: Vec<u32>| v@);
        let mut sets: Vec<Vec<u32>> = pending_sets;
        let mut resolved: Vec<Option<u32>> = Vec::new();
        let n: usize = sets.len();
        for i in 0..n
            invariant
                self.wf(),
                self.nfa == old(self).nfa,
                self.alphabet == old(self).alphabet,
                n == keys.len(),
                sets@.len() == n,
                forall|j: int| i <= j < n ==> (#[trigger] sets@[j])@ == keys[j],
                (self.registry.spec_sets(), self.registry.spec_finals()) == register_all(
                    self.nfa, old(self).registry.spec_sets(), old(self).registry.spec_finals(), keys.take(i as int)),
                resolved@.len() == i,
                forall|j: int| 0 <= j < i ==> #[trigger] resolved@[j] == self.registry.spec_lookup(keys[j]),
                forall|j: int| 0 <= j < i ==> (self.registry.spec_lookup(#[trigger] keys[j]) is None
                    ==> self.registry.spec_sets().len() > u32::MAX),
        {
            let mut key: Vec<u32> = Vec::new();
            std::mem::swap(&mut key, &mut sets[i]);
            proof {
                assert(key@ == keys[i as int]);
                assert(keys.take(i + 1).drop_last() =~= keys.take(i as int));
                assert(keys.take(i + 1).last() == keys[i as int]);
                self.registry.lemma_lookup(key@);
            }
            let ghost before = self.registry;
            let ghost k = keys[i as int];
            let found: Option<u32> = self.registry.id_for_key(key.as_slice());
            let id: Option<u32> = match found {
                Some(id) => Some(id),
                None => {
                    let is_final: bool = self.nfa.state_set_can_reach_final_through_end_anchors(key.as_slice());
                    self.registry.get_or_create_with_key(key, is_final)
                },
            };
            resolved.push(id);
            proof {
                let grew = before.spec_lookup(k) is None && before.spec_sets().len() <= u32::MAX;
                if grew {
                    self.registry.lemma_lookup_index(before.spec_sets().len() as int);
                    assert(self.registry.spec_sets()[before.spec_sets().len() as int] == k);
                } else {
                    assert(self.registry.spec_sets() == before.spec_sets());
                    before.lemma_lookup(k);
                    self.registry.lemma_lookup(k);
                }
                assert(id == self.registry.spec_lookup(k));
                assert forall|j: int| 0 <= j < i implies #[trigger] resolved@[j] == self.registry.spec_lookup(keys[j]) by {
                    assert(resolved@[j] == before.spec_lookup(keys[j]));
                    if before.spec_lookup(keys[j]) is None {
                        assert(before.spec_sets().len() > u32::MAX);
                        assert(self.registry.spec_sets() == before.spec_sets());
                        before.lemma_lookup(keys[j]);
                        self.registry.lemma_lookup(keys[j]);
                    }
                }
                assert forall|j: int| 0 <= j < i + 1 implies (self.registry.spec_lookup(#[trigger] keys[j]) is None
                    ==> self.registry.spec_sets().len() > u32::MAX) by {
                    if j < i {
                        if before.spec_lookup(keys[j]) is Some {
                            assert(self.registry.spec_lookup(keys[j]) == before.spec_lookup(keys[j]));
                        } else {
                            assert(before.spec_sets().len() > u32::MAX);
                        }
                    }
                }
            }
        }
        proof {
            assert(keys.take(n as int) =~= keys);
        }
        resolved
    }
}

impl PhoneticNfaWfst {
    /// Expand `state`: whether it accepts, and one transition per candidate
    /// scalar that reaches some NFA state, to the registered state of the
    /// epsilon closure of the states reached; new targets are registered in
    /// order. An unregistered state expands to nothing.
    pub fn compute_nfa_transitions(&mut self, state_id: u32) -> (r: NfaExpansion)
        requires
            old(self).wf(),
        ensures
            final(self).wf(),
            final(self).spec_nfa() == old(self).spec_nfa(),
            final(self).spec_alphabet() == old(self).spec_alphabet(),
            state_id >= old(self).spec_registry().spec_sets().len() ==> {
                &&& !r.is_final
                &&& r.transitions@.len() == 0
                &&& final(self).spec_registry() == old(self).spec_registry()
            },
            state_id < old(self).spec_registry().spec_sets().len() ==> {
                let nfa = old(self).spec_nfa();
                let states = old(self).spec_registry().spec_sets()[state_id as int];
                let pending = spec_pending(nfa, states, spec_candidates(nfa, old(self).spec_alphabet(), states));
                &&& (final(self).spec_registry().spec_sets(), final(self).spec_registry().spec_finals()) == register_all(
                    nfa,
                    old(self).spec_registry().spec_sets(),
                    old(self).spec_registry().spec_finals(),
                    pending.map_values(|p: (char, Seq<u32>)| p.1),
                )
                &&& r.is_final == old(self).spec_registry().spec_finals()[state_id as int]
                &&& r.transitions@ == transitions_of(state_id, pending, final(self).spec_registry())
            },
    {
        let states: Vec<u32> = match self.registry.state_set(state_id) {
            Some(v) => {
                let copy: Vec<u32> = v.clone();
                proof {
                    assert(copy@ =~= v@);
                }
                copy
            },
            None => return NfaExpansion { is_final: false, transitions: Vec::new() },
        };
        let is_final: bool = self.registry.is_final(state_id);
        let ghost nfa = self.nfa;
        let candidates = collect_candidates(&self.nfa, self.alphabet.as_slice(), states.as_slice());
        proof {
            candidates.lemma_distinct();
        }
        let successors = collect_successors(&self.nfa, states.as_slice(), candidates.as_slice());
        let (chars, targets) = successors.into_slots();
        let ghost cs = chars@;
        proof {
            assert(cs == spec_candidates(nfa, self.alphabet@, states@));
        }
        let mut pending_chars: Vec<char> = Vec::new();
        let mut pending_sets: Vec<Vec<u32>> = Vec::new();
        for i in 0..chars.len()
            invariant
                self.wf(),
                self.nfa == nfa,
                chars@ == cs,
                targets@.len() == cs.len(),
                forall|j: int| 0 <= j < cs.len() ==> (#[trigger] targets@[j])@.to_set() == spec_successors(nfa, states@, cs[j]),
                pending_chars@.len() == pending_sets@.len(),
                Seq::new(pending_chars@.len(), |j: int| (pending_chars@[j], pending_sets@[j]@))
                    == spec_pending(nfa, states@, cs.take(i as int)),
        {
            let ghost before = Seq::new(pending_chars@.len(), |j: int| (pending_chars@[j], pending_sets@[j]@));
            proof {
                assert(cs.take(i + 1).drop_last() =~= cs.take(i as int));
                assert(cs.take(i + 1).last() == cs[i as int]);
            }
            if targets[i].len() > 0 {
                let closure: Vec<u32> = self.nfa.closure(targets[i].as_slice(), ClosureMode::Epsilon);
                pending_chars.push(chars[i]);
                pending_sets.push(closure);
                proof {
                    let succ = spec_successors(nfa, states@, cs[i as int]);
                    assert(targets@[i as int]@.to_set().contains(targets@[i as int]@[0]));
                    assert(succ != Set::<u32>::empty());
                    lemma_canonical(closure@, nfa.spec_closure(ClosureMode::Epsilon, succ));
                    assert(Seq::new(pending_chars@.len(), |j: int| (pending_chars@[j], pending_sets@[j]@))
                        =~= before.push((cs[i as int], closure@)));
                }
            } else {
                proof {
                    assert(targets@[i as int]@.to_set() =~= Set::<u32>::empty());
                }
            }
        }
        proof {
            assert(cs.take(cs.len() as int) =~= cs);
        }
        let ghost pending = Seq::new(pending_chars@.len(), |j: int| (pending_chars@[j], pending_sets@[j]@));
        let ghost sets_view = pending_sets@;
        proof {
            assert(pending.map_values(|p: (char, Seq<u32>)| p.1) =~= pending_sets@.map_values(|v: Vec<u32>| v@));
        }
        let resolved: Vec<Option<u32>> = self.resolve_transition_targets(pending_sets);
        let ghost reg = self.registry;
        let mut transitions: Vec<NfaTransition> = Vec::new();
        for j in 0..resolved.len()
            invariant
                resolved@.len() == pending.len(),
                pending_chars@.len() == pending.len(),
                forall|t: int| 0 <= t < pending.len() ==> #[trigger] pending[t] == (pending_chars@[t], sets_view[t]@),
                forall|t: int| 0 <= t < resolved@.len() ==> #[trigger] resolved@[t] == reg.spec_lookup(sets_view[t]@),
                transitions@ == transitions_of(state_id, pending.take(j as int), reg),
        {
            proof {
                assert(pending.take(j + 1).drop_last() =~= pending.take(j as int));
                assert(pending.take(j + 1).last() == pending[j as int]);
            }
            match resolved[j] {
                Some(id) => {
                    transitions.push(NfaTransition { from: state_id, label: pending_chars[j], to: id });
                },
                None => {},
            }
        }
        proof {
            assert(pending.take(pending.len() as int) =~= pending);
        }
        NfaExpansion { is_final, transitions }
    }
}

} // verus!
