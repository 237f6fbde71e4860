use duallity::hints::max_exact_f64_usize;
use duallity::state_codec::EditAlgorithm;
use duallity::wallbreaker_results::{ScoredTerm, WallBreakerStateKey};
use duallity::wallbreaker_table::{
    wallbreaker_result_final_distances, WallBreakerTable,
    WallBreakerTransition,
};

fn scored(term: &str, distance: usize) -> ScoredTerm {
    ScoredTerm {
        term: term.to_owned(),
        distance,
    }
}

fn key(result_index: u32, char_position: u32) -> WallBreakerStateKey {
    WallBreakerStateKey {
        result_index,
        char_position,
    }
}

#[test]
fn precomputes_result_final_weights() {
    let results = vec![scored("a", 0), scored("b", 2)];

    let weights = wallbreaker_result_final_distances(&results);

    assert_eq!(weights.len(), 2);
    assert_eq!(weights[0], Some(0));
    assert_eq!(weights[1], Some(2));
}

#[test]
fn result_final_weights_reject_unrepresentable_distance() {
    let Some(unrepresentable_distance) = max_exact_f64_usize().checked_add(1) else {
        return;
    };

    let results = vec![scored("oversized", unrepresentable_distance)];

    let weights = wallbreaker_result_final_distances(&results);

    assert_eq!(weights.len(), 1);
    assert!(weights[0].is_none());
}

#[test]
fn single_result_table_has_start_and_one_char_state() {
    let table = WallBreakerTable::from_results("a", 0, EditAlgorithm::Standard, vec![scored("a", 0)]);

    assert_eq!(table.query(), "a");
    assert_eq!(table.max_distance(), 0);
    assert_eq!(table.algorithm(), EditAlgorithm::Standard);
    assert_eq!(table.num_results(), 1);
    assert_eq!(table.num_states(), 2);
    assert_eq!(table.lookup_state(key(u32::MAX, 0)), Some(0));
    assert_eq!(table.lookup_state(key(0, 1)), Some(1));
    assert_eq!(table.lookup_state(key(0, 2)), None);
    assert_eq!(table.lookup_state(key(1, 1)), None);
}

#[test]
fn super_start_links_each_nonempty_result_by_its_first_char() {
    let table = WallBreakerTable::from_results(
        "helo",
        2,
        EditAlgorithm::Standard,
        vec![scored("hello", 1), scored("help", 1)],
    );

    assert_eq!(table.num_results(), 2);
    assert_eq!(table.num_states(), 1 + 5 + 4);
    let start = table.compute_state(0);
    assert_eq!(start.final_distance, None);
    assert_eq!(
        start.transitions,
        vec![
            WallBreakerTransition { from: 0, label: 'h', to: 1 },
            WallBreakerTransition { from: 0, label: 'h', to: 6 },
        ]
    );
}

#[test]
fn result_states_walk_their_term_and_accept_at_its_end() {
    let table = WallBreakerTable::from_results("ab", 1, EditAlgorithm::Transposition, vec![scored("ab", 1)]);

    let first = table.compute_state(1);
    assert_eq!(first.final_distance, None);
    assert_eq!(first.transitions, vec![WallBreakerTransition { from: 1, label: 'b', to: 2 }]);

    let last = table.compute_state(2);
    assert_eq!(last.final_distance, Some(1));
    assert!(last.transitions.is_empty());
    assert_eq!(table.final_distance_for_state(2), Some(1));
    assert_eq!(table.final_distance_for_state(1), None);
}

#[test]
fn unknown_state_expands_to_nothing() {
    let table = WallBreakerTable::from_results("a", 0, EditAlgorithm::Standard, vec![scored("a", 0)]);

    let expansion = table.compute_state(7);
    assert_eq!(expansion.final_distance, None);
    assert!(expansion.transitions.is_empty());
    assert_eq!(table.final_distance_for_state(7), None);
}

#[test]
fn empty_result_makes_the_super_start_accept() {
    let table = WallBreakerTable::from_results(
        "x",
        1,
        EditAlgorithm::Standard,
        vec![scored("", 1), scored("x", 0)],
    );

    let start = table.compute_state(0);
    assert_eq!(start.final_distance, Some(1));
    assert_eq!(start.transitions.len(), 1);
    assert_eq!(start.transitions[0].label, 'x');
}

#[test]
fn results_beyond_the_bound_are_dropped_and_duplicates_keep_their_best_distance() {
    let table = WallBreakerTable::from_results(
        "cat",
        1,
        EditAlgorithm::MergeAndSplit,
        vec![scored("cot", 1), scored("dog", 3), scored("cot", 0)],
    );

    assert_eq!(table.num_results(), 1);
    assert_eq!(table.final_distance_for_state(3), Some(0));
}

#[test]
fn utf8_result_chars_are_scalars() {
    let table = WallBreakerTable::from_results("é", 0, EditAlgorithm::Standard, vec![scored("é", 0)]);

    assert_eq!(table.num_states(), 2);
    let start = table.compute_state(0);
    assert_eq!(start.transitions, vec![WallBreakerTransition { from: 0, label: 'é', to: 1 }]);
}

#[test]
fn every_indexed_key_looks_up_its_own_state() {
    let table = WallBreakerTable::from_results(
        "ab",
        2,
        EditAlgorithm::Standard,
        vec![scored("ab", 0), scored("b", 1)],
    );

    assert_eq!(table.lookup_state(key(0, 1)), Some(1));
    assert_eq!(table.lookup_state(key(0, 2)), Some(2));
    assert_eq!(table.lookup_state(key(1, 1)), Some(3));
}
