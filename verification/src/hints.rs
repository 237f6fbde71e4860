//! Capacity and state-count hints shared by the lazy adapters.
use vstd::prelude::*;
use crate::state_encoding::{saturating_mul, saturating_mul_usize};

verus! {

/// Largest speculative reservation made from an untrusted size hint.
pub const MAX_SPECULATIVE_PREALLOCATION: usize = 16_384;
/// Largest state-count hint reported for a dictionary product.
pub const MAX_NUM_STATES_HINT: usize = 1_000_000;

/// A size hint capped to the speculative reservation limit.
pub fn capped_size_hint_capacity(size_hint: usize) -> (r: usize)
    ensures
        r == (if size_hint < MAX_SPECULATIVE_PREALLOCATION { size_hint } else { MAX_SPECULATIVE_PREALLOCATION }),
{
    if size_hint < MAX_SPECULATIVE_PREALLOCATION { size_hint } else { MAX_SPECULATIVE_PREALLOCATION }
}

/// `dict_size * states_per_node`, saturating, capped at `MAX_NUM_STATES_HINT`.
pub open spec fn spec_product_hint(dict_size: usize, states_per_node: usize) -> usize {
    let p = saturating_mul_usize(dict_size as int, states_per_node as int);
    if p < MAX_NUM_STATES_HINT { p as usize } else { MAX_NUM_STATES_HINT }
}

/// State-count hint of a dictionary product: the dictionary size times the
/// automaton states per node, capped, or `None` for an unsized dictionary.
pub fn dictionary_product_states_hint(dictionary_len: Option<usize>, states_per_dictionary_node: usize) -> (r: Option<usize>)
    ensures
        r == (match dictionary_len {
            Some(d) => Some(spec_product_hint(d, states_per_dictionary_node)),
            None => None,
        }),
{
    match dictionary_len {
        Some(dict_size) => {
            let p: usize = saturating_mul(dict_size, states_per_dictionary_node);
            Some(if p < MAX_NUM_STATES_HINT { p } else { MAX_NUM_STATES_HINT })
        },
        None => None,
    }
}

/// Number of product IDs spanned by registered states: all bands of the
/// first `count - 1` nodes plus the used part of the last band, saturating.
pub open spec fn spec_state_id_span(count: usize, per_node: usize, last: usize) -> usize {
    if count == 0 || last == 0 {
        0
    } else {
        let full = saturating_mul_usize((count - 1) as int, per_node as int);
        if full + last > usize::MAX { usize::MAX } else { (full + last) as usize }
    }
}

/// Number of product IDs spanned by registered states.
pub fn registered_product_state_id_span(
    registered_node_count: usize,
    states_per_dictionary_node: usize,
    registered_states_in_last_node: usize,
) -> (r: usize)
    ensures
        r == spec_state_id_span(registered_node_count, states_per_dictionary_node, registered_states_in_last_node),
{
    if registered_node_count == 0 || registered_states_in_last_node == 0 {
        return 0;
    }
    saturating_mul(registered_node_count - 1, states_per_dictionary_node)
        .saturating_add(registered_states_in_last_node)
}

/// State-count hint that never underreports live states: the dictionary
/// estimate over `max(dict_size, registered)` nodes, raised to the span of
/// the registered states.
pub fn registered_dictionary_product_states_hint(
    dictionary_len: Option<usize>,
    registered_node_count: usize,
    states_per_dictionary_node: usize,
) -> (r: Option<usize>)
    ensures
        r == (match dictionary_len {
            Some(d) => {
                let nodes: usize = if d < registered_node_count { registered_node_count } else { d };
                let estimate = spec_product_hint(nodes, states_per_dictionary_node);
                let live = spec_state_id_span(registered_node_count, states_per_dictionary_node, states_per_dictionary_node);
                Some(if estimate < live { live } else { estimate })
            },
            None => None,
        }),
{
    let live: usize = registered_product_state_id_span(
        registered_node_count, states_per_dictionary_node, states_per_dictionary_node);
    let nodes: Option<usize> = match dictionary_len {
        Some(d) => Some(if d < registered_node_count { registered_node_count } else { d }),
        None => None,
    };
    match dictionary_product_states_hint(nodes, states_per_dictionary_node) {
        Some(estimate) => Some(if estimate < live { live } else { estimate }),
        None => None,
    }
}

/// Largest `usize` that an `f64` represents exactly, with every smaller one: `2^53`
/// (or `usize::MAX` on targets where that is smaller).
pub open spec fn spec_max_exact_f64_usize() -> usize {
    if 0x20_0000_0000_0000 > usize::MAX { usize::MAX } else { 0x20_0000_0000_0000int as usize }
}

/// Largest `usize` that an `f64` represents exactly, with every smaller one.
pub fn max_exact_f64_usize() -> (r: usize)
    ensures
        r == spec_max_exact_f64_usize(),
{
    if (usize::MAX as u64) < 0x20_0000_0000_0000u64 {
        usize::MAX
    } else {
        0x20_0000_0000_0000u64 as usize
    }
}

/// Whether `value` converts to `f64` without rounding.
pub fn is_exact_f64_count(value: usize) -> (r: bool)
    ensures
        r == (value <= spec_max_exact_f64_usize()),
{
    value <= max_exact_f64_usize()
}

} // verus!
