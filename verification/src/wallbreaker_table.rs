//! The WallBreaker transducer over its normalized results: a super-start state
//! with one free transition into each nonempty result term, then one state
//! per term character, each result accepting at its end with its distance.
use vstd::prelude::*;
use crate::hints::{is_exact_f64_count, spec_max_exact_f64_usize};
use crate::state_codec::{EditAlgorithm, usize_from_u32};
use crate::wallbreaker_results::{
    ResultCharArena, ScoredTerm, WallBreakerStateKey, SUPER_START_RESULT_INDEX, build_wallbreaker_state_index,
    empty_wallbreaker_result_best_distance, flatten, next_wallbreaker_char_position, next_wallbreaker_result_index,
    normalize_wallbreaker_results, spec_empty_best, spec_normalize, start_key, terms_of,
};

verus! {

/// Each result's distance, when it is exactly representable as a weight.
pub open spec fn spec_final_distances(results: Seq<ScoredTerm>) -> Seq<Option<usize>> {
    results.map_values(|r: ScoredTerm| if r.distance <= spec_max_exact_f64_usize() { Some(r.distance) } else { None })
}

/// Each result's distance, when it is exactly representable as a weight.
pub fn wallbreaker_result_final_distances(results: &[ScoredTerm]) -> (r: Vec<Option<usize>>)
    ensures
        r@ == spec_final_distances(results@),
{
    let mut out: Vec<Option<usize>> = Vec::new();
    for i in 0..results.len()
        invariant
            out@ == spec_final_distances(results@.take(i as int)),
    {
        let d: usize = results[i].distance;
        out.push(if is_exact_f64_count(d) { Some(d) } else { None });
        assert(spec_final_distances(results@.take(i + 1)) =~= spec_final_distances(results@.take(i as int)).push(
            if d <= spec_max_exact_f64_usize() { Some(d) } else { None }));
    }
    assert(results@.take(results@.len() as int) == results@);
    out
}

/// A transition of the WallBreaker transducer: it reads and writes `label` at no cost.
#[derive(Clone, Copy, Debug, PartialEq, Eq, Structural)]
pub struct WallBreakerTransition {
    pub from: u32,
    pub label: char,
    pub to: u32,
}

/// An expanded state: its transitions and, when it accepts, its distance.
pub struct WallBreakerExpansion {
    pub final_distance: Option<usize>,
    pub transitions: Vec<WallBreakerTransition>,
}

/// The WallBreaker transducer's tables.
pub struct WallBreakerTable {
    query: String,
    max_distance: usize,
    algorithm: EditAlgorithm,
    result_chars: ResultCharArena,
    result_final_distances: Vec<Option<usize>>,
    empty_result_distance: Option<usize>,
    id_to_state: Vec<WallBreakerStateKey>,
    results: Ghost<Seq<ScoredTerm>>,
}

impl WallBreakerTable {
    /// The normalized results.
    pub closed spec fn spec_results(self) -> Seq<ScoredTerm> { self.results@ }

    /// The result terms as scalars.
    pub open spec fn spec_terms(self) -> Seq<Seq<char>> { terms_of(self.spec_results()) }

    /// The state keys, by state ID.
    pub closed spec fn spec_index(self) -> Seq<WallBreakerStateKey> { self.id_to_state@ }

    /// The distance owed when the super-start accepts (the empty term matched).
    pub closed spec fn spec_empty_distance(self) -> Option<usize> { self.empty_result_distance }

    /// The query.
    pub closed spec fn spec_query(self) -> Seq<char> { self.query@ }

    /// The distance bound.
    pub closed spec fn spec_max_distance(self) -> usize { self.max_distance }

    /// Tables agree with the results.
    pub closed spec fn wf(self) -> bool {
        &&& self.result_chars.wf()
        &&& self.result_chars.spec_terms() == terms_of(self.results@)
        &&& self.result_final_distances@ == spec_final_distances(self.results@)
        &&& self.id_to_state@.len() >= 1
        &&& self.id_to_state@[0] == start_key()
        &&& self.id_to_state@.len() <= u32::MAX + 1
        &&& forall|k: int| 1 <= k < self.id_to_state@.len() ==> {
                let key = #[trigger] self.id_to_state@[k];
                &&& key.result_index < u32::MAX
                &&& key.result_index < self.results@.len()
                &&& 1 <= key.char_position <= terms_of(self.results@)[key.result_index as int].len()
                &&& flatten(terms_of(self.results@).take(key.result_index as int)).len() + key.char_position == k
            }
    }

    /// The tables over `raw` results of a query: normalized to the
    /// admissible results, one per term with its least distance.
    pub fn from_results(query: &str, max_distance: usize, algorithm: EditAlgorithm, raw: Vec<ScoredTerm>) -> (r: Self)
        ensures
            r.wf(),
            r.spec_results() == spec_normalize(raw@, max_distance),
            r.spec_empty_distance() == spec_empty_best(r.spec_results(), max_distance),
            r.spec_query() == query@,
            r.spec_max_distance() == max_distance,
    {
        let results: Vec<ScoredTerm> = normalize_wallbreaker_results(raw, max_distance);
        let result_chars: ResultCharArena = ResultCharArena::from_results(results.as_slice());
        let result_final_distances: Vec<Option<usize>> = wallbreaker_result_final_distances(results.as_slice());
        let empty_result_distance: Option<usize> = empty_wallbreaker_result_best_distance(results.as_slice(), max_distance);
        let id_to_state: Vec<WallBreakerStateKey> = build_wallbreaker_state_index(&result_chars);
        WallBreakerTable {
            query: query.to_owned(),
            max_distance,
            algorithm,
            result_chars,
            result_final_distances,
            empty_result_distance,
            id_to_state,
            results: Ghost(results@),
        }
    }

    /// The query.
    pub fn query(&self) -> (r: &str)
        ensures
            r@ == self.spec_query(),
    {
        self.query.as_str()
    }

    /// The distance bound.
    pub fn max_distance(&self) -> (r: usize)
        ensures
            r == self.spec_max_distance(),
    {
        self.max_distance
    }

    /// The edit-operation family the results were searched with.
    pub fn algorithm(&self) -> EditAlgorithm {
        self.algorithm
    }

    /// Number of normalized results.
    pub fn num_results(&self) -> (r: usize)
        requires
            self.wf(),
        ensures
            r == self.spec_results().len(),
    {
        self.result_chars.len()
    }

    /// Number of states.
    pub fn num_states(&self) -> (r: usize)
        ensures
            r == self.spec_index().len(),
    {
        self.id_to_state.len()
    }

    /// The ID of the state with key `key`.
    pub fn lookup_state(&self, key: WallBreakerStateKey) -> (r: Option<u32>)
        requires
            self.wf(),
        ensures
            match r {
                Some(id) => id < self.spec_index().len() && self.spec_index()[id as int] == key,
                None => forall|k: int| 0 <= k < self.spec_index().len() ==> #[trigger] self.spec_index()[k] != key,
            },
    {
        let candidate: Option<u32> = if key.result_index == SUPER_START_RESULT_INDEX {
            if key.char_position == 0 { Some(0) } else { None }
        } else {
            self.result_chars.state_id_for_position(usize_from_u32(key.result_index), usize_from_u32(key.char_position))
        };
        proof {
            assert forall|k: int| 0 <= k < self.id_to_state@.len() && #[trigger] self.id_to_state@[k] == key implies
                candidate == Some(k as u32) by {
                if k == 0 {
                    assert(key == start_key());
                } else {
                    let terms = terms_of(self.results@);
                    assert(key.result_index < u32::MAX);
                }
            }
        }
        match candidate {
            Some(id) => {
                let index: usize = usize_from_u32(id);
                if index < self.id_to_state.len() && self.id_to_state[index] == key {
                    Some(id)
                } else {
                    None
                }
            },
            None => None,
        }
    }

    /// The distance owed when `state` accepts: the super-start accepts with
    /// the empty term's distance, a result state at the end of its term with
    /// the result's distance.
    pub open spec fn spec_final_distance(self, state: u32) -> Option<usize> {
        if state >= self.spec_index().len() {
            None
        } else {
            let key = self.spec_index()[state as int];
            if key.result_index == SUPER_START_RESULT_INDEX {
                self.spec_empty_distance()
            } else if key.char_position < self.spec_terms()[key.result_index as int].len() {
                None
            } else {
                let d = self.spec_results()[key.result_index as int].distance;
                if d <= spec_max_exact_f64_usize() { Some(d) } else { None }
            }
        }
    }

    /// The distance owed when `state` accepts.
    pub fn final_distance_for_state(&self, state: u32) -> (r: Option<usize>)
        requires
            self.wf(),
        ensures
            r == self.spec_final_distance(state),
    {
        let index: usize = usize_from_u32(state);
        if index >= self.id_to_state.len() {
            return None;
        }
        let key: WallBreakerStateKey = self.id_to_state[index];
        if key.result_index == SUPER_START_RESULT_INDEX {
            return self.empty_result_distance;
        }
        let result_index: usize = usize_from_u32(key.result_index);
        let term_len: usize = match self.result_chars.term_len(result_index) {
            Some(l) => l,
            None => return None,
        };
        let position: usize = usize_from_u32(key.char_position);
        if position < term_len {
            return None;
        }
        proof {
            assert(self.result_final_distances@[result_index as int]
                == (if self.results@[result_index as int].distance <= spec_max_exact_f64_usize() {
                    Some(self.results@[result_index as int].distance)
                } else {
                    None
                }));
        }
        self.result_final_distances[result_index]
    }
}

impl WallBreakerTable {
    /// The ID of the state with key `key`, if any.
    pub open spec fn spec_lookup(self, key: WallBreakerStateKey) -> Option<u32> {
        if exists|k: int| 0 <= k < self.spec_index().len() && self.spec_index()[k] == key {
            Some((choose|k: int| 0 <= k < self.spec_index().len() && self.spec_index()[k] == key) as u32)
        } else {
            None
        }
    }

    /// The transitions out of the super-start into the first `n` results: one
    /// per nonempty term, labelled with its first character.
    pub open spec fn spec_start_arcs(self, n: int) -> Seq<WallBreakerTransition>
        decreases n,
    {
        if n <= 0 {
            Seq::empty()
        } else {
            self.spec_start_arcs(n - 1) + self.start_arc_of(n - 1)
        }
    }

    /// The transition out of the super-start into result `i`, if its term is nonempty.
    pub open spec fn start_arc_of(self, i: int) -> Seq<WallBreakerTransition> {
        if 0 <= i < u32::MAX {
            self.start_arc_at(i as u32)
        } else {
            Seq::empty()
        }
    }

    /// Character `p` of result term `r`.
    pub open spec fn term_char(self, r: int, p: int) -> char {
        self.spec_terms()[r][p]
    }

    /// The transition out of the super-start into result `r`, if its term is nonempty.
    pub open spec fn start_arc_at(self, r: u32) -> Seq<WallBreakerTransition> {
        if self.spec_terms()[r as int].len() > 0 {
            match self.spec_lookup(WallBreakerStateKey { result_index: r, char_position: 1 }) {
                Some(id) => seq![WallBreakerTransition { from: 0, label: self.term_char(r as int, 0), to: id }],
                None => Seq::empty(),
            }
        } else {
            Seq::empty()
        }
    }

    /// The transitions of result state `state` at position `key.char_position`
    /// of its term: one to the next position, labelled with the next character.
    pub open spec fn spec_result_arcs(self, state: u32, key: WallBreakerStateKey) -> Seq<WallBreakerTransition> {
        let term = self.spec_terms()[key.result_index as int];
        let pos = key.char_position as int;
        if pos < term.len() && pos + 1 <= u32::MAX {
            match self.spec_lookup(WallBreakerStateKey { result_index: key.result_index, char_position: (pos + 1) as u32 }) {
                Some(id) => seq![WallBreakerTransition { from: state, label: term[pos], to: id }],
                None => Seq::empty(),
            }
        } else {
            Seq::empty()
        }
    }

    /// The transitions of `state`.
    pub open spec fn spec_arcs(self, state: u32) -> Seq<WallBreakerTransition> {
        if state >= self.spec_index().len() {
            Seq::empty()
        } else {
            let key = self.spec_index()[state as int];
            if key.result_index == SUPER_START_RESULT_INDEX {
                self.spec_start_arcs(self.spec_results().len() as int)
            } else if self.spec_results()[key.result_index as int].distance > spec_max_exact_f64_usize() {
                Seq::empty()
            } else {
                self.spec_result_arcs(state, key)
            }
        }
    }

    proof fn lemma_lookup(self, key: WallBreakerStateKey, r: Option<u32>)
        requires
            self.wf(),
            match r {
                Some(id) => id < self.spec_index().len() && self.spec_index()[id as int] == key,
                None => forall|k: int| 0 <= k < self.spec_index().len() ==> #[trigger] self.spec_index()[k] != key,
            },
        ensures
            r == self.spec_lookup(key),
    {
        if let Some(id) = r {
            let k = choose|k: int| 0 <= k < self.spec_index().len() && self.spec_index()[k] == key;
            if k != id as int {
                if k >= 1 && id >= 1 {
                    assert(self.spec_index()[k] == self.id_to_state@[k]);
                } else if k == 0 {
                    assert(self.id_to_state@[id as int].result_index < u32::MAX);
                } else {
                    assert(self.id_to_state@[k].result_index < u32::MAX);
                }
            }
        }
    }

    /// Expand `state`: its transitions and, when it accepts, its distance.
    pub fn compute_state(&self, state: u32) -> (r: WallBreakerExpansion)
        requires
            self.wf(),
        ensures
            r.final_distance == (if state < self.spec_index().len()
                && self.spec_index()[state as int].result_index != SUPER_START_RESULT_INDEX
                && self.spec_results()[self.spec_index()[state as int].result_index as int].distance > spec_max_exact_f64_usize() {
                None
            } else {
                self.spec_final_distance(state)
            }),
            r.transitions@ == self.spec_arcs(state),
    {
        let index: usize = usize_from_u32(state);
        if index >= self.id_to_state.len() {
            return WallBreakerExpansion { final_distance: None, transitions: Vec::new() };
        }
        let key: WallBreakerStateKey = self.id_to_state[index];
        if key.result_index == SUPER_START_RESULT_INDEX {
            let transitions = self.compute_super_start_transitions();
            return WallBreakerExpansion { final_distance: self.empty_result_distance, transitions };
        }
        self.compute_result_state(state, key)
    }

    fn compute_super_start_transitions(&self) -> (r: Vec<WallBreakerTransition>)
        requires
            self.wf(),
        ensures
            r@ == self.spec_start_arcs(self.spec_results().len() as int),
    {
        let mut transitions: Vec<WallBreakerTransition> = Vec::new();
        let n: usize = self.result_chars.len();
        for result_idx in 0..n
            invariant
                self.wf(),
                n == self.spec_results().len(),
                transitions@ == self.spec_start_arcs(result_idx as int),
        {
            let ghost before = transitions@;
            let first: Option<char> = self.result_chars.first_char(result_idx);
            match first {
                Some(first_char) => {
                    match next_wallbreaker_result_index(result_idx) {
                        Some(result_index) => {
                            let new_key = WallBreakerStateKey { result_index, char_position: 1 };
                            let found: Option<u32> = self.lookup_state(new_key);
                            proof {
                                self.lemma_lookup(new_key, found);
                            }
                            match found {
                                Some(new_id) => {
                                    transitions.push(WallBreakerTransition { from: 0, label: first_char, to: new_id });
                                    assert(self.start_arc_of(result_idx as int)
                                        == seq![WallBreakerTransition { from: 0, label: first_char, to: new_id }]);
                                },
                                None => {},
                            }
                        },
                        None => {},
                    }
                },
                None => {},
            }
            proof {
                assert(transitions@ =~= before + self.start_arc_of(result_idx as int));
            }
        }
        transitions
    }

    fn compute_result_state(&self, state: u32, key: WallBreakerStateKey) -> (r: WallBreakerExpansion)
        requires
            self.wf(),
            (state as int) < self.spec_index().len(),
            self.spec_index()[state as int] == key,
            key.result_index != SUPER_START_RESULT_INDEX,
        ensures
            r.final_distance == (if self.spec_results()[key.result_index as int].distance > spec_max_exact_f64_usize() {
                None
            } else {
                self.spec_final_distance(state)
            }),
            r.transitions@ == self.spec_arcs(state),
    {
        let result_index: usize = usize_from_u32(key.result_index);
        proof {
            assert(key.result_index < self.results@.len());
        }
        let term_len: usize = match self.result_chars.term_len(result_index) {
            Some(l) => l,
            None => return WallBreakerExpansion { final_distance: None, transitions: Vec::new() },
        };
        let final_result_distance: usize = match self.result_final_distances[result_index] {
            Some(d) => d,
            None => return WallBreakerExpansion { final_distance: None, transitions: Vec::new() },
        };
        let position: usize = usize_from_u32(key.char_position);
        let next_char: Option<char> = self.result_chars.char_at(result_index, position);
        let is_final: bool = position >= term_len;
        let final_distance: Option<usize> = if is_final { Some(final_result_distance) } else { None };
        let mut transitions: Vec<WallBreakerTransition> = Vec::new();
        match next_char {
            Some(c) => {
                match next_wallbreaker_char_position(position + 1) {
                    Some(char_position) => {
                        let new_key = WallBreakerStateKey { result_index: key.result_index, char_position };
                        let found: Option<u32> = self.lookup_state(new_key);
                        proof {
                            self.lemma_lookup(new_key, found);
                        }
                        match found {
                            Some(new_id) => {
                                transitions.push(WallBreakerTransition { from: state, label: c, to: new_id });
                            },
                            None => {},
                        }
                    },
                    None => {},
                }
            },
            None => {},
        }
        proof {
            assert(transitions@ =~= self.spec_result_arcs(state, key));
        }
        WallBreakerExpansion { final_distance, transitions }
    }
}

/// Every indexed state key looks up its own ID.
pub proof fn lemma_index_lookup_roundtrip(table: WallBreakerTable, k: int)
    requires
        table.wf(),
        0 <= k < table.spec_index().len(),
    ensures
        table.spec_lookup(table.spec_index()[k]) == Some(k as u32),
{
    let key = table.spec_index()[k];
    let c = choose|c: int| 0 <= c < table.spec_index().len() && table.spec_index()[c] == key;
    table.lemma_lookup(key, Some(k as u32));
}

} // verus!
