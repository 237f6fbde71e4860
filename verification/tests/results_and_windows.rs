use duallity::hints::max_exact_f64_usize;
use duallity::universal_support::{
    apply_i32_offset, next_universal_registry_id, precompute_relevant_subwords,
    relevant_subword_at, relevant_subword_chars, universal_query_state_factor,
};
use duallity::wallbreaker_results::{
    build_wallbreaker_state_index, empty_wallbreaker_result_best_distance,
    next_wallbreaker_char_position, next_wallbreaker_result_index, next_wallbreaker_state_id,
    normalize_wallbreaker_results, ResultCharArena, ScoredTerm, WallBreakerStateKey,
    SUPER_START_RESULT_INDEX,
};

fn scored(term: &str, distance: usize) -> ScoredTerm {
    ScoredTerm {
        term: term.to_owned(),
        distance,
    }
}

#[test]
fn checked_index_helpers_reject_overflow() {
    let Ok(max_state_id) = usize::try_from(u32::MAX) else {
        return;
    };
    let Ok(max_u32) = usize::try_from(u32::MAX) else {
        return;
    };

    assert_eq!(next_wallbreaker_state_id(max_state_id), Some(u32::MAX));
    assert_eq!(next_wallbreaker_char_position(max_u32), Some(u32::MAX));
    assert_eq!(next_wallbreaker_result_index(max_u32), None);
    assert_eq!(
        next_wallbreaker_result_index(max_u32 - 1),
        Some(SUPER_START_RESULT_INDEX - 1)
    );

    if let Some(overflowing_len) = max_state_id.checked_add(1) {
        assert_eq!(next_wallbreaker_state_id(overflowing_len), None);
    }
    if let Some(overflowing_index) = max_u32.checked_add(1) {
        assert_eq!(next_wallbreaker_result_index(overflowing_index), None);
        assert_eq!(next_wallbreaker_char_position(overflowing_index), None);
    }
}

#[test]
fn normalizes_results_to_bound_representable_unique_best_terms() {
    let mut raw_results = vec![
        scored("same", 3),
        scored("over-bound", 4),
        scored("same", 1),
        scored("other", 2),
    ];

    if let Some(unrepresentable_distance) = max_exact_f64_usize().checked_add(1) {
        raw_results.push(scored("unrepresentable", unrepresentable_distance));
    }

    let results = normalize_wallbreaker_results(raw_results, 3);

    assert_eq!(results.len(), 2);
    assert_eq!(results[0].term, "same");
    assert_eq!(results[0].distance, 1);
    assert_eq!(results[1].term, "other");
    assert_eq!(results[1].distance, 2);
}

#[test]
fn normalizes_results_treats_size_hint_as_speculative() {
    let raw_results = vec![scored("same", 2), scored("same", 1), scored("over-bound", 3)];

    let results = normalize_wallbreaker_results(raw_results, 2);

    assert_eq!(results.len(), 1);
    assert_eq!(results[0].term, "same");
    assert_eq!(results[0].distance, 1);
}

#[test]
fn empty_result_final_weight_respects_bound() {
    let results = vec![scored("", 3), scored("", 1), scored("x", 0)];

    assert_eq!(empty_wallbreaker_result_best_distance(&results, 1), Some(1));
    assert_eq!(empty_wallbreaker_result_best_distance(&results, 0), None);
}

#[test]
fn empty_result_final_weight_rejects_unrepresentable_distance() {
    let Some(unrepresentable_distance) = max_exact_f64_usize().checked_add(1) else {
        return;
    };
    let results = vec![scored("", unrepresentable_distance)];
    assert_eq!(
        empty_wallbreaker_result_best_distance(&results, unrepresentable_distance),
        None
    );
}

#[test]
fn result_char_arena_flattens_terms() {
    let results = vec![scored("é", 0), scored("ab", 1), scored("", 0)];

    let arena = ResultCharArena::from_results(&results);

    assert_eq!(arena.len(), 3);
    assert_eq!(arena.chars(), &['é', 'a', 'b']);
    assert_eq!(arena.term_len(0), Some(1));
    assert_eq!(arena.term_len(1), Some(2));
    assert_eq!(arena.term_len(2), Some(0));
    assert_eq!(arena.first_char(0), Some('é'));
    assert_eq!(arena.first_char(1), Some('a'));
    assert_eq!(arena.first_char(2), None);
    assert_eq!(arena.char_at(1, 1), Some('b'));
    assert_eq!(arena.state_count(), 4);
    assert_eq!(arena.start_transition_count(), 2);
    assert_eq!(arena.state_id_for_position(0, 1), Some(1));
    assert_eq!(arena.state_id_for_position(1, 1), Some(2));
    assert_eq!(arena.state_id_for_position(1, 2), Some(3));
    assert_eq!(arena.state_id_for_position(1, 0), None);
    assert_eq!(arena.state_id_for_position(2, 1), None);
}

#[test]
fn state_index_lists_every_result_position_after_the_start() {
    let results = vec![scored("é", 0), scored("ab", 1), scored("", 0)];
    let arena = ResultCharArena::from_results(&results);
    let index = build_wallbreaker_state_index(&arena);
    assert_eq!(
        index,
        vec![
            WallBreakerStateKey {
                result_index: SUPER_START_RESULT_INDEX,
                char_position: 0
            },
            WallBreakerStateKey {
                result_index: 0,
                char_position: 1
            },
            WallBreakerStateKey {
                result_index: 1,
                char_position: 1
            },
            WallBreakerStateKey {
                result_index: 1,
                char_position: 2
            },
        ]
    );
}

#[test]
fn test_universal_registry_id_helper_rejects_unrepresentable_len() {
    assert_eq!(next_universal_registry_id(0), Some(0));
    let Ok(max_u32) = usize::try_from(u32::MAX) else {
        return;
    };
    assert_eq!(next_universal_registry_id(max_u32), Some(u32::MAX));

    if let Some(overflowing_len) = max_u32.checked_add(1) {
        assert_eq!(next_universal_registry_id(overflowing_len), None);
    }
}

#[test]
fn test_universal_query_state_factor_saturates_at_u32_limit() {
    assert_eq!(universal_query_state_factor(0), 1);

    let Ok(max_u32) = usize::try_from(u32::MAX) else {
        return;
    };

    if let Some(max_exact_len) = max_u32.checked_sub(1) {
        assert_eq!(universal_query_state_factor(max_exact_len), u32::MAX);
    }
    assert_eq!(universal_query_state_factor(max_u32), u32::MAX);
}

#[test]
fn test_apply_i32_offset_rejects_usize_overflow_and_underflow() {
    assert_eq!(apply_i32_offset(10, 3), Some(13));
    assert_eq!(apply_i32_offset(10, -3), Some(7));
    assert_eq!(apply_i32_offset(usize::MAX, 1), None);
    assert_eq!(apply_i32_offset(0, -1), None);
}

#[test]
fn test_universal_relevant_subword_avoids_signed_position_wraparound() {
    let chars: Vec<char> = "abcdef".chars().collect();

    assert_eq!(relevant_subword_at(&chars, 2, 1), "$$abcd");
    assert_eq!(relevant_subword_at(&chars, 2, usize::MAX), "");
}

#[test]
fn relevant_windows_are_precomputed_per_position() {
    let chars: Vec<char> = "abcdef".chars().collect();
    let windows = precompute_relevant_subwords(&chars, 1);
    for (position, window) in windows.iter().enumerate() {
        let mut spelled: Vec<char> = vec!['$'; window.false_prefix];
        spelled.extend(window.units.iter().copied());
        assert_eq!(spelled, relevant_subword_chars(&chars, 1, position + 1));
    }
    assert_eq!(relevant_subword_chars(&chars, 1, 3), vec!['b', 'c', 'd', 'e']);
}
