//! Composite state ID encoding for the dictionary x automaton product.
//!
//! A product state `(dict_node, automaton_state)` is packed into one
//! `StateId` as `dict_node * max_automaton_states + automaton_state`.
use vstd::prelude::*;
use lling_llang::wfst::StateId;

verus! {

/// The packed identifier of `(dict_node, automaton_state)` in a product space
/// of width `width`, when the pair is in range and fits in a `StateId`.
pub open spec fn encoded_state(dict_node: u32, automaton_state: u32, width: u32) -> Option<u32> {
    if width == 0 || automaton_state >= width {
        None
    } else if dict_node * width + automaton_state > u32::MAX {
        None
    } else {
        Some((dict_node * width + automaton_state) as u32)
    }
}

/// The pair that a packed identifier stands for in a product space of width `width`.
pub open spec fn decoded_state(state_id: u32, width: u32) -> Option<(u32, u32)> {
    if width == 0 {
        None
    } else {
        Some(((state_id / width) as u32, (state_id % width) as u32))
    }
}

/// Try to encode a `(dictionary_node, automaton_state)` pair.
///
/// Returns `None` if the automaton state is outside the product width or the
/// product state space cannot fit in a `u32` `StateId`.
pub fn try_encode(dict_node: u32, automaton_state: u32, max_automaton_states: u32) -> (r: Option<StateId>)
    ensures
        r == encoded_state(dict_node, automaton_state, max_automaton_states),
{
    if max_automaton_states == 0 || automaton_state >= max_automaton_states {
        return None;
    }
    match dict_node.checked_mul(max_automaton_states) {
        Some(base) => base.checked_add(automaton_state),
        None => {
            assert(dict_node * max_automaton_states + automaton_state > u32::MAX);
            None
        },
    }
}

/// Decode a `StateId` back into `(dictionary_node, automaton_state)`.
///
/// Returns `None` when `max_automaton_states` is zero.
pub fn decode(state_id: StateId, max_automaton_states: u32) -> (r: Option<(u32, u32)>)
    ensures
        r == decoded_state(state_id, max_automaton_states),
{
    if max_automaton_states == 0 {
        return None;
    }
    let automaton_state: u32 = state_id % max_automaton_states;
    let dict_node: u32 = state_id / max_automaton_states;
    Some((dict_node, automaton_state))
}

/// Decoding an encoded pair gives the pair back.
pub proof fn lemma_decode_encode_roundtrip(dict_node: u32, automaton_state: u32, width: u32)
    requires
        encoded_state(dict_node, automaton_state, width) is Some,
    ensures
        decoded_state(encoded_state(dict_node, automaton_state, width)->0, width)
            == Some((dict_node, automaton_state)),
{
    let id: int = dict_node * width + automaton_state;
    assert(id / (width as int) == dict_node as int && id % (width as int) == automaton_state as int) by (nonlinear_arith)
        requires
            id == dict_node * width + automaton_state,
            0 <= automaton_state < width,
            0 <= dict_node,
    {
        vstd::arithmetic::div_mod::lemma_fundamental_div_mod_converse(
            id, width as int, dict_node as int, automaton_state as int);
    }
}

/// Encoding a decoded identifier gives the identifier back.
pub proof fn lemma_encode_decode_roundtrip(state_id: u32, width: u32)
    requires
        width > 0,
    ensures
        encoded_state((decoded_state(state_id, width)->0).0, (decoded_state(state_id, width)->0).1, width)
            == Some(state_id),
{
    let q: int = (state_id as int) / (width as int);
    let r: int = (state_id as int) % (width as int);
    assert(q * width + r == state_id && 0 <= r < width && q >= 0) by (nonlinear_arith)
        requires width > 0, q == (state_id as int) / (width as int), r == (state_id as int) % (width as int), state_id >= 0,
    {
        vstd::arithmetic::div_mod::lemma_fundamental_div_mod(state_id as int, width as int);
    }
}

/// Two pairs that encode to the same identifier are the same pair.
pub proof fn lemma_encode_injective(n1: u32, a1: u32, n2: u32, a2: u32, width: u32)
    requires
        encoded_state(n1, a1, width) is Some,
        encoded_state(n1, a1, width) == encoded_state(n2, a2, width),
    ensures
        n1 == n2,
        a1 == a2,
{
    lemma_decode_encode_roundtrip(n1, a1, width);
    lemma_decode_encode_roundtrip(n2, a2, width);
}

/// `value` clamped to at least one and at most `u32::MAX`.
pub open spec fn saturating_nonzero(value: int) -> u32 {
    if value < 1 {
        1
    } else if value > u32::MAX {
        u32::MAX
    } else {
        value as u32
    }
}

/// The usize product `a * b`, saturating at `usize::MAX`.
pub open spec fn saturating_mul_usize(a: int, b: int) -> int {
    if a * b > usize::MAX { usize::MAX as int } else { a * b }
}

/// `a * b`, saturating at `usize::MAX`.
pub fn saturating_mul(a: usize, b: usize) -> (r: usize)
    ensures
        r == saturating_mul_usize(a as int, b as int),
{
    match a.checked_mul(b) {
        Some(p) => p,
        None => usize::MAX,
    }
}

fn saturating_nonzero_u32(value: usize) -> (r: u32)
    ensures
        r == saturating_nonzero(value as int),
{
    let v: usize = if value < 1 { 1 } else { value };
    if v > 0xffff_ffffusize {
        u32::MAX
    } else {
        v as u32
    }
}

/// Estimate of the automaton states for a query of `query_len` characters and
/// maximum distance `max_distance`: `(query_len + 1) * (2 * max_distance + 1)`,
/// each step saturating, clamped to `1..=u32::MAX`.
pub open spec fn spec_estimate_automaton_states(query_len: usize, max_distance: usize) -> u32 {
    let positions: int = if query_len + 1 > usize::MAX { usize::MAX as int } else { query_len + 1 };
    let doubled: int = saturating_mul_usize(max_distance as int, 2);
    let distances: int = if doubled + 1 > usize::MAX { usize::MAX as int } else { doubled + 1 };
    saturating_nonzero(saturating_mul_usize(positions, distances))
}

/// Estimate the maximum automaton states for a given query length and max distance.
///
/// The Levenshtein automaton for a query of length n with max distance k has
/// at most `(n+1) * (2k+1)` states.
pub fn estimate_automaton_states(query_len: usize, max_distance: usize) -> (r: u32)
    ensures
        r == spec_estimate_automaton_states(query_len, max_distance),
        1 <= r,
{
    let positions: usize = query_len.saturating_add(1);
    let distances: usize = saturating_mul(max_distance, 2).saturating_add(1);
    saturating_nonzero_u32(saturating_mul(positions, distances))
}

/// Exact state count of the bounded standard Levenshtein adapter:
/// `(query_len + 1) * (max_distance + 1)`, saturating, clamped to `1..=u32::MAX`.
pub open spec fn spec_bounded_levenshtein_states(query_len: usize, max_distance: usize) -> u32 {
    let positions: int = if query_len + 1 > usize::MAX { usize::MAX as int } else { query_len + 1 };
    let costs: int = if max_distance + 1 > usize::MAX { usize::MAX as int } else { max_distance + 1 };
    saturating_nonzero(saturating_mul_usize(positions, costs))
}

/// Exact state count for the bounded standard Levenshtein adapter.
///
/// The adapter encodes automaton states as `(query_position, edit_cost)`, so it
/// needs `(query_len + 1) * (max_distance + 1)` distinct IDs.
pub fn bounded_levenshtein_states(query_len: usize, max_distance: usize) -> (r: u32)
    ensures
        r == spec_bounded_levenshtein_states(query_len, max_distance),
        1 <= r,
{
    let positions: usize = query_len.saturating_add(1);
    let costs: usize = max_distance.saturating_add(1);
    saturating_nonzero_u32(saturating_mul(positions, costs))
}

} // verus!
