use duallity::hints::{
    capped_size_hint_capacity, dictionary_product_states_hint, max_exact_f64_usize,
    registered_dictionary_product_states_hint, registered_product_state_id_span,
    MAX_NUM_STATES_HINT, MAX_SPECULATIVE_PREALLOCATION,
};
use duallity::state_codec::{
    next_index, remaining_query_chars, saturating_u32, usize_from_u32, within_max_distance,
    AutomatonState, EditAlgorithm, LevenshteinStateCodec,
};
use duallity::state_encoding;

#[test]
fn test_state_encoding_roundtrip() {
    let max_states = 100u32;

    for dict_node in 0..10 {
        for auto_state in 0..10 {
            let decoded = state_encoding::try_encode(dict_node, auto_state, max_states)
                .and_then(|encoded| state_encoding::decode(encoded, max_states));

            assert_eq!(decoded, Some((dict_node, auto_state)));
        }
    }
}

#[test]
fn test_estimate_automaton_states() {
    let estimate = state_encoding::estimate_automaton_states(5, 2);
    assert!(estimate > 0);
    assert!(estimate <= 100);
}

#[test]
fn test_state_encoding_estimators_are_nonzero_and_saturating() {
    assert_eq!(state_encoding::estimate_automaton_states(0, 0), 1);
    assert_eq!(state_encoding::bounded_levenshtein_states(0, 0), 1);
    assert_eq!(
        state_encoding::estimate_automaton_states(usize::MAX, usize::MAX),
        u32::MAX
    );
    assert_eq!(
        state_encoding::bounded_levenshtein_states(usize::MAX, usize::MAX),
        u32::MAX
    );
}

#[test]
fn test_state_encoding_rejects_out_of_range_components() {
    assert_eq!(state_encoding::try_encode(0, 10, 10), None);
    assert_eq!(state_encoding::try_encode(0, 0, 0), None);
    assert_eq!(state_encoding::decode(0, 0), None);
}

#[test]
fn state_encoding_is_node_major() {
    assert_eq!(state_encoding::try_encode(3, 4, 10), Some(34));
    assert_eq!(state_encoding::decode(34, 10), Some((3, 4)));
    assert_eq!(state_encoding::try_encode(u32::MAX, 0, 2), None);
    assert_eq!(state_encoding::estimate_automaton_states(5, 2), 30);
}

#[test]
fn test_registered_dictionary_product_hint_uses_live_lower_bound() {
    assert_eq!(
        registered_dictionary_product_states_hint(Some(1), 2, MAX_NUM_STATES_HINT + 1),
        Some(2usize.saturating_mul(MAX_NUM_STATES_HINT + 1))
    );
    assert_eq!(registered_dictionary_product_states_hint(None, 2, 3), None);
}

#[test]
fn test_registered_product_state_id_span_covers_sparse_last_band() {
    assert_eq!(registered_product_state_id_span(0, 10, 1), 0);
    assert_eq!(registered_product_state_id_span(1, 10, 1), 1);
    assert_eq!(registered_product_state_id_span(2, 10, 3), 13);
    assert_eq!(
        registered_product_state_id_span(usize::MAX, 2, usize::MAX),
        usize::MAX
    );
}

#[test]
fn test_capped_size_hint_capacity_limits_speculative_reservations() {
    assert_eq!(capped_size_hint_capacity(0), 0);
    assert_eq!(
        capped_size_hint_capacity(MAX_SPECULATIVE_PREALLOCATION - 1),
        MAX_SPECULATIVE_PREALLOCATION - 1
    );
    assert_eq!(
        capped_size_hint_capacity(usize::MAX),
        MAX_SPECULATIVE_PREALLOCATION
    );
}

#[test]
fn dictionary_product_hint_is_capped() {
    assert_eq!(dictionary_product_states_hint(Some(10), 7), Some(70));
    assert_eq!(
        dictionary_product_states_hint(Some(usize::MAX), 2),
        Some(MAX_NUM_STATES_HINT)
    );
    assert_eq!(dictionary_product_states_hint(None, 7), None);
}

#[test]
fn exact_f64_range_is_two_to_the_fifty_third() {
    assert_eq!(max_exact_f64_usize() as u64, 1u64 << 53);
}

#[test]
fn test_saturating_u32_caps_unrepresentable_lengths() {
    assert_eq!(saturating_u32(0), 0);
    let Ok(max_u32) = usize::try_from(u32::MAX) else {
        return;
    };
    assert_eq!(saturating_u32(max_u32), u32::MAX);

    if let Some(above_max_u32) = max_u32.checked_add(1) {
        assert_eq!(saturating_u32(above_max_u32), u32::MAX);
    }
}

#[test]
fn test_next_index_rejects_overflow_and_bounds() {
    assert_eq!(next_index(0, 2), Some(1));
    assert_eq!(next_index(0, 1), None);
    assert_eq!(next_index(usize::MAX, usize::MAX), None);
}

#[test]
fn test_within_max_distance_checks_cost_sum_overflow() {
    assert!(within_max_distance(1, 2, 3));
    assert!(!within_max_distance(2, 2, 3));
    assert!(!within_max_distance(u32::MAX, usize::MAX, usize::MAX));
}

#[test]
fn test_remaining_query_chars_uses_full_usize_length() {
    assert_eq!(remaining_query_chars(5, 2), Some(3));
    assert_eq!(remaining_query_chars(2, 5), None);

    let Ok(max_u32) = usize::try_from(u32::MAX) else {
        return;
    };
    let Some(huge_query_len) = max_u32.checked_add(10) else {
        return;
    };

    assert_eq!(remaining_query_chars(huge_query_len, u32::MAX), Some(10));
}

#[test]
fn usize_from_u32_is_exact() {
    assert_eq!(usize_from_u32(7), 7);
    assert_eq!(usize_from_u32(u32::MAX) as u64, u32::MAX as u64);
}

#[test]
fn codec_normal_states_roundtrip() {
    let codec = LevenshteinStateCodec::new(4, 2, EditAlgorithm::Standard);
    for query_pos in 0..=4u32 {
        for edit_cost in 0..=2u32 {
            let id = codec
                .encode_automaton_state(query_pos, edit_cost)
                .expect("position and cost are in range");
            assert_eq!(
                codec.decode_automaton_state(id),
                Some(AutomatonState::Normal {
                    query_pos,
                    edit_cost
                })
            );
        }
    }
    assert_eq!(codec.encode_automaton_state(5, 0), None);
    assert_eq!(codec.encode_automaton_state(4, 3), None);
}

#[test]
fn codec_continuation_states_follow_the_algorithm() {
    let standard = LevenshteinStateCodec::new(4, 2, EditAlgorithm::Standard);
    assert_eq!(standard.encode_transpose_second_state(0, 1), None);
    assert_eq!(standard.encode_merge_second_state(0, 1), None);

    let transposition = LevenshteinStateCodec::new(4, 2, EditAlgorithm::Transposition);
    let id = transposition
        .encode_transpose_second_state(1, 1)
        .expect("transposition has a continuation band");
    assert!(matches!(
        transposition.decode_automaton_state(id),
        Some(AutomatonState::TransposeSecond { .. })
    ));
    assert_eq!(transposition.encode_split_second_state(1, 1), None);

    let merge_split = LevenshteinStateCodec::new(4, 2, EditAlgorithm::MergeAndSplit);
    let merge = merge_split.encode_merge_second_state(1, 1).expect("merge band");
    let split = merge_split.encode_split_second_state(1, 1).expect("split band");
    assert_ne!(merge, split);
    assert!(matches!(
        merge_split.decode_automaton_state(merge),
        Some(AutomatonState::MergeSecond { .. })
    ));
    assert!(matches!(
        merge_split.decode_automaton_state(split),
        Some(AutomatonState::SplitSecond { .. })
    ));
}

#[test]
fn codec_product_states_combine_node_and_automaton_state() {
    let codec = LevenshteinStateCodec::new(3, 1, EditAlgorithm::Standard);
    let width = codec.max_automaton_states();
    assert_eq!(width, 8);
    let id = codec.encode_product_state(2, 5).expect("in range");
    assert_eq!(id, 2 * width + 5);
    assert_eq!(codec.decode_product_state(id), Some((2, 5)));
    assert_eq!(codec.encode_transition_target(2, None), None);
}
