//! Automaton-state numbering for the bounded Levenshtein product adapter.
//!
//! Normal automaton states are `(query_position, edit_cost)` pairs numbered
//! `query_position * stride + edit_cost`. Algorithms with multi-step edits
//! reserve further bands of the same width for continuation states.
use vstd::prelude::*;
use lling_llang::wfst::StateId;
use crate::state_encoding::{
    bounded_levenshtein_states, decode, decoded_state, encoded_state,
    spec_bounded_levenshtein_states, try_encode,
};

verus! {

/// The edit-operation family of a Levenshtein automaton.
#[derive(Clone, Copy, Debug, PartialEq, Eq, Structural)]
pub enum EditAlgorithm {
    /// Insert, delete and substitute.
    Standard,
    /// Standard operations plus adjacent transposition.
    Transposition,
    /// Standard operations plus transposition, merge and split.
    MergeAndSplit,
}

impl EditAlgorithm {
    /// Whether the algorithm has the adjacent-transposition operation.
    pub open spec fn spec_supports_transposition(self) -> bool {
        self is Transposition || self is MergeAndSplit
    }

    /// Whether the algorithm has the merge and split operations.
    pub open spec fn spec_supports_merge_split(self) -> bool {
        self is MergeAndSplit
    }

    /// Whether the algorithm has the adjacent-transposition operation.
    pub fn supports_transposition(&self) -> (r: bool)
        ensures
            r == self.spec_supports_transposition(),
    {
        match self {
            EditAlgorithm::Standard => false,
            EditAlgorithm::Transposition => true,
            EditAlgorithm::MergeAndSplit => true,
        }
    }

    /// Whether the algorithm has the merge and split operations.
    pub fn supports_merge_split(&self) -> (r: bool)
        ensures
            r == self.spec_supports_merge_split(),
    {
        match self {
            EditAlgorithm::MergeAndSplit => true,
            _ => false,
        }
    }
}

/// A decoded automaton state of the bounded Levenshtein adapter.
#[derive(Clone, Copy, Debug, PartialEq, Eq, Structural)]
pub enum AutomatonState {
    /// Ordinary `(query_pos, edit_cost)` state.
    Normal { query_pos: u32, edit_cost: u32 },
    /// Must emit the second half of an adjacent swap next.
    TransposeSecond { query_pos: u32, edit_cost: u32 },
    /// Must consume the second query character of a merge next.
    MergeSecond { query_pos: u32, edit_cost: u32 },
    /// Must emit the second dictionary character of a split next.
    SplitSecond { query_pos: u32, edit_cost: u32 },
}

/// Number of continuation bands the algorithm needs.
pub open spec fn spec_continuation_state_kinds(algorithm: EditAlgorithm) -> u32 {
    ((if algorithm.spec_supports_transposition() { 1u32 } else { 0u32 })
        + (if algorithm.spec_supports_merge_split() { 2u32 } else { 0u32 })) as u32
}

/// Band index of transposition continuations, when the algorithm has them.
pub open spec fn spec_transpose_second_slot(algorithm: EditAlgorithm) -> Option<u32> {
    if algorithm.spec_supports_transposition() { Some(1u32) } else { None }
}

/// Band index of merge continuations, when the algorithm has them.
pub open spec fn spec_merge_second_slot(algorithm: EditAlgorithm) -> Option<u32> {
    if algorithm.spec_supports_merge_split() {
        Some((1 + (if algorithm.spec_supports_transposition() { 1u32 } else { 0u32 })) as u32)
    } else {
        None
    }
}

/// Band index of split continuations, when the algorithm has them.
pub open spec fn spec_split_second_slot(algorithm: EditAlgorithm) -> Option<u32> {
    match spec_merge_second_slot(algorithm) {
        Some(slot) => Some((slot + 1) as u32),
        None => None,
    }
}

/// Number of continuation bands the algorithm needs.
pub fn continuation_state_kinds(algorithm: EditAlgorithm) -> (r: u32)
    ensures
        r == spec_continuation_state_kinds(algorithm),
        r <= 3,
{
    let mut count: u32 = 0;
    if algorithm.supports_transposition() {
        count += 1;
    }
    if algorithm.supports_merge_split() {
        count += 2;
    }
    count
}

/// Band index of transposition continuations.
pub fn transpose_second_slot(algorithm: EditAlgorithm) -> (r: Option<u32>)
    ensures
        r == spec_transpose_second_slot(algorithm),
{
    if algorithm.supports_transposition() { Some(1) } else { None }
}

/// Band index of merge continuations.
pub fn merge_second_slot(algorithm: EditAlgorithm) -> (r: Option<u32>)
    ensures
        r == spec_merge_second_slot(algorithm),
{
    if algorithm.supports_merge_split() {
        Some(1 + if algorithm.supports_transposition() { 1u32 } else { 0u32 })
    } else {
        None
    }
}

/// Band index of split continuations.
pub fn split_second_slot(algorithm: EditAlgorithm) -> (r: Option<u32>)
    ensures
        r == spec_split_second_slot(algorithm),
{
    match merge_second_slot(algorithm) {
        Some(slot) => Some(slot + 1),
        None => None,
    }
}

/// `value` as a `u32`, saturating at `u32::MAX`.
pub open spec fn spec_saturating_u32(value: int) -> u32 {
    if value > u32::MAX { u32::MAX } else { value as u32 }
}

/// `value` as a `u32`, saturating at `u32::MAX`.
pub fn saturating_u32(value: usize) -> (r: u32)
    ensures
        r == spec_saturating_u32(value as int),
{
    if value > 0xffff_ffffusize { u32::MAX } else { value as u32 }
}

/// Widen a `u32` to `usize`.
pub fn usize_from_u32(value: u32) -> (r: usize)
    ensures
        r == value,
{
    value as usize
}

/// `index + 1` when it is still a valid index below `len`.
pub fn next_index(index: usize, len: usize) -> (r: Option<usize>)
    ensures
        r == (if index + 1 < len { Some((index + 1) as usize) } else { None::<usize> }),
{
    match index.checked_add(1) {
        Some(next) => if next < len { Some(next) } else { None },
        None => None,
    }
}

/// Whether `edit_cost + remaining` stays within `max_distance`.
pub fn within_max_distance(edit_cost: u32, remaining: usize, max_distance: usize) -> (r: bool)
    ensures
        r == (edit_cost + remaining <= max_distance),
{
    match (edit_cost as usize).checked_add(remaining) {
        Some(cost) => cost <= max_distance,
        None => false,
    }
}

/// Query characters left after `query_pos`, or `None` past the end.
pub fn remaining_query_chars(query_len: usize, query_pos: u32) -> (r: Option<usize>)
    ensures
        r == (if query_pos <= query_len { Some((query_len - query_pos) as usize) } else { None::<usize> }),
{
    query_len.checked_sub(query_pos as usize)
}

/// `a * b` on `u32`, saturating at `u32::MAX`.
pub open spec fn spec_saturating_mul_u32(a: u32, b: u32) -> u32 {
    if a * b > u32::MAX { u32::MAX } else { (a * b) as u32 }
}

fn saturating_mul_u32(a: u32, b: u32) -> (r: u32)
    ensures
        r == spec_saturating_mul_u32(a, b),
{
    match a.checked_mul(b) {
        Some(p) => p,
        None => u32::MAX,
    }
}

/// Automaton and product-state numbering metadata of one query.
#[derive(Clone, Copy, Debug)]
pub struct LevenshteinStateCodec {
    query_len: usize,
    max_distance: usize,
    algorithm: EditAlgorithm,
    normal_automaton_states: u32,
    max_automaton_states: u32,
}

impl LevenshteinStateCodec {
    /// Query length in characters.
    pub closed spec fn spec_query_len(self) -> usize { self.query_len }

    /// Maximum edit distance.
    pub closed spec fn spec_max_distance(self) -> usize { self.max_distance }

    /// Edit-operation family.
    pub closed spec fn spec_algorithm(self) -> EditAlgorithm { self.algorithm }

    /// Width of one band: the number of normal automaton states.
    pub closed spec fn spec_normal_states(self) -> u32 { self.normal_automaton_states }

    /// Width of the product space: all bands together.
    pub closed spec fn spec_max_states(self) -> u32 { self.max_automaton_states }

    /// Well-formedness: the band widths follow from the query parameters.
    pub open spec fn wf(self) -> bool {
        &&& self.spec_normal_states() == spec_bounded_levenshtein_states(self.spec_query_len(), self.spec_max_distance())
        &&& self.spec_max_states() == spec_saturating_mul_u32(
                self.spec_normal_states(), (1 + spec_continuation_state_kinds(self.spec_algorithm())) as u32)
    }

    /// Distance between consecutive query positions in the numbering.
    pub open spec fn spec_stride(self) -> u32 {
        let d = spec_saturating_u32(self.spec_max_distance() as int);
        if d + 1 > u32::MAX { u32::MAX } else { (d + 1) as u32 }
    }

    /// Number of the normal state `(query_pos, edit_cost)`, when it is in range.
    pub open spec fn spec_encode_automaton_state(self, query_pos: u32, edit_cost: u32) -> Option<u32> {
        let state = query_pos * self.spec_stride() + edit_cost;
        if state > u32::MAX || state >= self.spec_normal_states() { None } else { Some(state as u32) }
    }

    /// Number of the continuation in band `slot` for `(query_pos, edit_cost)`, when in range.
    pub open spec fn spec_continuation_state(self, slot: u32, query_pos: u32, edit_cost: u32) -> Option<u32> {
        match self.spec_encode_automaton_state(query_pos, edit_cost) {
            Some(normal) => {
                let state = self.spec_normal_states() * slot + normal;
                if self.spec_normal_states() * slot > u32::MAX || state > u32::MAX || state >= self.spec_max_states() {
                    None
                } else {
                    Some(state as u32)
                }
            },
            None => None,
        }
    }

    /// The automaton state that number `id` stands for, if any.
    pub open spec fn spec_decode_automaton_state(self, id: u32) -> Option<AutomatonState> {
        if id >= self.spec_max_states() {
            None
        } else {
            let n = id % self.spec_normal_states();
            let query_pos = (n / self.spec_stride()) as u32;
            let edit_cost = (n % self.spec_stride()) as u32;
            let slot = id / self.spec_normal_states();
            if query_pos > self.spec_query_len() || edit_cost > self.spec_max_distance() {
                None
            } else if slot == 0 {
                Some(AutomatonState::Normal { query_pos, edit_cost })
            } else if spec_transpose_second_slot(self.spec_algorithm()) == Some(slot as u32) {
                Some(AutomatonState::TransposeSecond { query_pos, edit_cost })
            } else if spec_merge_second_slot(self.spec_algorithm()) == Some(slot as u32) {
                Some(AutomatonState::MergeSecond { query_pos, edit_cost })
            } else if spec_split_second_slot(self.spec_algorithm()) == Some(slot as u32) {
                Some(AutomatonState::SplitSecond { query_pos, edit_cost })
            } else {
                None
            }
        }
    }

    /// Codec for a query of `query_len` characters within `max_distance` edits.
    pub fn new(query_len: usize, max_distance: usize, algorithm: EditAlgorithm) -> (r: Self)
        ensures
            r.wf(),
            r.spec_query_len() == query_len,
            r.spec_max_distance() == max_distance,
            r.spec_algorithm() == algorithm,
    {
        let normal_automaton_states: u32 = bounded_levenshtein_states(query_len, max_distance);
        let max_automaton_states: u32 =
            saturating_mul_u32(normal_automaton_states, 1 + continuation_state_kinds(algorithm));
        LevenshteinStateCodec {
            query_len,
            max_distance,
            algorithm,
            normal_automaton_states,
            max_automaton_states,
        }
    }

    /// Maximum edit distance.
    pub fn max_distance(&self) -> (r: usize)
        ensures
            r == self.spec_max_distance(),
    {
        self.max_distance
    }

    /// Maximum edit distance as a `u32`, saturating.
    pub fn max_distance_u32(&self) -> (r: u32)
        ensures
            r == spec_saturating_u32(self.spec_max_distance() as int),
    {
        saturating_u32(self.max_distance)
    }

    /// Edit-operation family.
    pub fn algorithm(&self) -> (r: EditAlgorithm)
        ensures
            r == self.spec_algorithm(),
    {
        self.algorithm
    }

    /// Width of the product space.
    pub fn max_automaton_states(&self) -> (r: u32)
        ensures
            r == self.spec_max_states(),
    {
        self.max_automaton_states
    }

    /// Split a product state into `(dict_node_id, automaton_state_id)`.
    pub fn decode_product_state(&self, state: StateId) -> (r: Option<(u32, u32)>)
        ensures
            r == decoded_state(state, self.spec_max_states()),
    {
        decode(state, self.max_automaton_states)
    }

    /// Pack `(dict_node_id, automaton_state_id)` into a product state.
    pub fn encode_product_state(&self, dict_node_id: u32, automaton_state_id: u32) -> (r: Option<StateId>)
        ensures
            r == encoded_state(dict_node_id, automaton_state_id, self.spec_max_states()),
    {
        try_encode(dict_node_id, automaton_state_id, self.max_automaton_states)
    }

    /// Pack a transition target, when its automaton state exists.
    pub fn encode_transition_target(&self, dict_node_id: u32, automaton_state_id: Option<u32>) -> (r: Option<StateId>)
        ensures
            r == (match automaton_state_id {
                Some(a) => encoded_state(dict_node_id, a, self.spec_max_states()),
                None => None,
            }),
    {
        match automaton_state_id {
            Some(a) => self.encode_product_state(dict_node_id, a),
            None => None,
        }
    }

    fn automaton_stride(&self) -> (r: u32)
        ensures
            r == self.spec_stride(),
            r >= 1,
    {
        self.max_distance_u32().saturating_add(1)
    }

    /// Number of the normal state `(query_pos, edit_cost)`.
    pub fn encode_automaton_state(&self, query_pos: u32, edit_cost: u32) -> (r: Option<u32>)
        ensures
            r == self.spec_encode_automaton_state(query_pos, edit_cost),
    {
        let stride: u32 = self.automaton_stride();
        match query_pos.checked_mul(stride) {
            Some(base) => match base.checked_add(edit_cost) {
                Some(state) => if state < self.normal_automaton_states { Some(state) } else { None },
                None => None,
            },
            None => {
                assert(query_pos * stride + edit_cost > u32::MAX);
                None
            },
        }
    }

    /// Number of the transposition continuation of `(query_pos, edit_cost)`.
    pub fn encode_transpose_second_state(&self, query_pos: u32, edit_cost: u32) -> (r: Option<u32>)
        ensures
            r == self.spec_continuation_state(1, query_pos, edit_cost),
    {
        match self.encode_automaton_state(query_pos, edit_cost) {
            Some(normal) => match self.normal_automaton_states.checked_add(normal) {
                Some(state) => if state < self.max_automaton_states { Some(state) } else { None },
                None => None,
            },
            None => None,
        }
    }

    fn continuation_state(&self, slot: u32, query_pos: u32, edit_cost: u32) -> (r: Option<u32>)
        ensures
            r == self.spec_continuation_state(slot, query_pos, edit_cost),
    {
        match self.normal_automaton_states.checked_mul(slot) {
            Some(base) => match self.encode_automaton_state(query_pos, edit_cost) {
                Some(normal) => match base.checked_add(normal) {
                    Some(state) => if state < self.max_automaton_states { Some(state) } else { None },
                    None => None,
                },
                None => None,
            },
            None => {
                match self.encode_automaton_state(query_pos, edit_cost) {
                    Some(normal) => None,
                    None => None,
                }
            },
        }
    }

    /// Number of the merge continuation of `(query_pos, edit_cost)`.
    pub fn encode_merge_second_state(&self, query_pos: u32, edit_cost: u32) -> (r: Option<u32>)
        ensures
            r == (match spec_merge_second_slot(self.spec_algorithm()) {
                Some(slot) => self.spec_continuation_state(slot, query_pos, edit_cost),
                None => None,
            }),
    {
        match merge_second_slot(self.algorithm) {
            Some(slot) => self.continuation_state(slot, query_pos, edit_cost),
            None => None,
        }
    }

    /// Number of the split continuation of `(query_pos, edit_cost)`.
    pub fn encode_split_second_state(&self, query_pos: u32, edit_cost: u32) -> (r: Option<u32>)
        ensures
            r == (match spec_split_second_slot(self.spec_algorithm()) {
                Some(slot) => self.spec_continuation_state(slot, query_pos, edit_cost),
                None => None,
            }),
    {
        match split_second_slot(self.algorithm) {
            Some(slot) => self.continuation_state(slot, query_pos, edit_cost),
            None => None,
        }
    }

    /// The automaton state that number `automaton_state_id` stands for.
    pub fn decode_automaton_state(&self, automaton_state_id: u32) -> (r: Option<AutomatonState>)
        requires
            self.wf(),
        ensures
            r == self.spec_decode_automaton_state(automaton_state_id),
    {
        if automaton_state_id >= self.max_automaton_states {
            return None;
        }
        let normal_state_id: u32 = automaton_state_id % self.normal_automaton_states;
        let stride: u32 = self.automaton_stride();
        let query_pos: u32 = normal_state_id / stride;
        let edit_cost: u32 = normal_state_id % stride;
        if query_pos as usize > self.query_len || edit_cost as usize > self.max_distance {
            return None;
        }
        let slot: u32 = automaton_state_id / self.normal_automaton_states;
        if slot == 0 {
            Some(AutomatonState::Normal { query_pos, edit_cost })
        } else if transpose_second_slot(self.algorithm) == Some(slot) {
            Some(AutomatonState::TransposeSecond { query_pos, edit_cost })
        } else if merge_second_slot(self.algorithm) == Some(slot) {
            Some(AutomatonState::MergeSecond { query_pos, edit_cost })
        } else if split_second_slot(self.algorithm) == Some(slot) {
            Some(AutomatonState::SplitSecond { query_pos, edit_cost })
        } else {
            None
        }
    }
}

/// Every normal state that the codec numbers decodes back to itself.
pub proof fn lemma_normal_state_roundtrip(codec: LevenshteinStateCodec, query_pos: u32, edit_cost: u32)
    requires
        codec.wf(),
        codec.spec_encode_automaton_state(query_pos, edit_cost) is Some,
        query_pos <= codec.spec_query_len(),
        edit_cost <= codec.spec_max_distance(),
    ensures
        codec.spec_decode_automaton_state(codec.spec_encode_automaton_state(query_pos, edit_cost)->0)
            == Some(AutomatonState::Normal { query_pos, edit_cost }),
{
    let id = codec.spec_encode_automaton_state(query_pos, edit_cost)->0;
    let n = codec.spec_normal_states();
    let stride = codec.spec_stride();
    lemma_band_widths(codec);
    vstd::arithmetic::div_mod::lemma_fundamental_div_mod_converse(id as int, n as int, 0, id as int);
    vstd::arithmetic::div_mod::lemma_fundamental_div_mod_converse(
        id as int, stride as int, query_pos as int, edit_cost as int);
}

/// The band widths of a well-formed codec: `1 <= normal <= max`, and the band
/// `k` of the product space ends below `max` for every band the algorithm has.
pub proof fn lemma_band_widths(codec: LevenshteinStateCodec)
    requires
        codec.wf(),
    ensures
        1 <= codec.spec_normal_states() <= codec.spec_max_states(),
        codec.spec_stride() >= 1,
{
    let n = codec.spec_normal_states();
    let k = (1 + spec_continuation_state_kinds(codec.spec_algorithm())) as u32;
    assert(n * k >= n) by (nonlinear_arith) requires k >= 1, n >= 1;
}

/// Every continuation state that the codec numbers decodes back to the same
/// continuation kind and `(query_pos, edit_cost)`.
pub proof fn lemma_continuation_state_roundtrip(
    codec: LevenshteinStateCodec, slot: u32, query_pos: u32, edit_cost: u32)
    requires
        codec.wf(),
        slot >= 1,
        codec.spec_continuation_state(slot, query_pos, edit_cost) is Some,
        query_pos <= codec.spec_query_len(),
        edit_cost <= codec.spec_max_distance(),
    ensures
        ({
            let id = codec.spec_continuation_state(slot, query_pos, edit_cost)->0;
            let decoded = codec.spec_decode_automaton_state(id);
            &&& spec_transpose_second_slot(codec.spec_algorithm()) == Some(slot)
                    ==> decoded == Some(AutomatonState::TransposeSecond { query_pos, edit_cost })
            &&& spec_merge_second_slot(codec.spec_algorithm()) == Some(slot)
                    ==> decoded == Some(AutomatonState::MergeSecond { query_pos, edit_cost })
            &&& spec_split_second_slot(codec.spec_algorithm()) == Some(slot)
                    ==> decoded == Some(AutomatonState::SplitSecond { query_pos, edit_cost })
        }),
{
    let normal = codec.spec_encode_automaton_state(query_pos, edit_cost)->0;
    let id = codec.spec_continuation_state(slot, query_pos, edit_cost)->0;
    let n = codec.spec_normal_states();
    let stride = codec.spec_stride();
    lemma_band_widths(codec);
    assert(id == n * slot + normal);
    assert(id == slot * n + normal) by (nonlinear_arith) requires id == n * slot + normal;
    vstd::arithmetic::div_mod::lemma_fundamental_div_mod_converse(id as int, n as int, slot as int, normal as int);
    vstd::arithmetic::div_mod::lemma_fundamental_div_mod_converse(
        normal as int, stride as int, query_pos as int, edit_cost as int);
}

/// Every number that decodes to a normal state is that state's number.
pub proof fn lemma_decoded_normal_state_encodes_back(codec: LevenshteinStateCodec, id: u32)
    requires
        codec.wf(),
    ensures
        codec.spec_decode_automaton_state(id) matches Some(AutomatonState::Normal { query_pos, edit_cost })
            ==> codec.spec_encode_automaton_state(query_pos, edit_cost) == Some(id),
{
    if !(codec.spec_decode_automaton_state(id) matches Some(AutomatonState::Normal { .. })) { return; }
    let n = codec.spec_normal_states();
    let stride = codec.spec_stride();
    lemma_band_widths(codec);
    vstd::arithmetic::div_mod::lemma_fundamental_div_mod(id as int, n as int);
    let m = id % n;
    vstd::arithmetic::div_mod::lemma_fundamental_div_mod(m as int, stride as int);
    assert(id / n == 0);
    assert(n * 0 == 0);
    assert(m == id);
    let q = m / stride;
    let c = m % stride;
    assert(m == q * stride + c) by (nonlinear_arith) requires m == stride * (m / stride) + (m % stride), q == m / stride, c == m % stride;
    assert(codec.spec_encode_automaton_state(q as u32, c as u32) == Some(id));
}

} // verus!
