use duallity::phonetic_candidates::{
    collect_candidates, collect_label_successors, collect_successors, push_bounded_char_range,
    CandidateChars, LabelSuccessors,
};
use duallity::phonetic_nfa::{normalize_full_string_anchors, ClosureMode, NfaCharClass, NfaLabel, PhoneticNfa};
use duallity::phonetic_nfa_wfst::{next_nfa_state_id, NfaStateRegistry, NfaTransition, PhoneticNfaWfst};

fn class(ranges: &[(char, char)], negated: bool) -> NfaCharClass {
    NfaCharClass {
        ranges: ranges.to_vec(),
        negated,
    }
}

/// `0 -a-> 1 -ε-> 2 -b-> 3`, with 3 accepting.
fn chain_nfa() -> PhoneticNfa {
    let mut nfa = PhoneticNfa::new();
    let s1 = nfa.add_state(false);
    let s2 = nfa.add_state(false);
    let s3 = nfa.add_state(true);
    nfa.add_transition(0, NfaLabel::Char('a'), s1);
    nfa.add_transition(s1, NfaLabel::Epsilon, s2);
    nfa.add_transition(s2, NfaLabel::Char('b'), s3);
    nfa
}

#[test]
fn next_nfa_state_id_rejects_unrepresentable_len() {
    let Ok(max_state_id) = usize::try_from(u32::MAX) else {
        return;
    };
    assert_eq!(next_nfa_state_id(max_state_id), Some(u32::MAX));

    if let Some(overflowing_len) = max_state_id.checked_add(1) {
        assert_eq!(next_nfa_state_id(overflowing_len), None);
    }
}

#[test]
fn candidate_chars_preserve_order_without_hashing_small_sets() {
    let mut chars = CandidateChars::with_capacity(3);

    chars.push_unique('b');
    chars.push_unique('a');
    chars.push_unique('b');

    assert_eq!(chars.as_slice(), &['b', 'a']);
    assert_eq!(chars.len(), 2);
    assert!(!chars.uses_hash_membership());
}

#[test]
fn candidate_chars_materialize_hash_membership_for_large_sets() {
    let mut chars = CandidateChars::with_capacity(32);

    for candidate in 'a'..='z' {
        chars.push_unique(candidate);
    }
    chars.push_unique('m');

    assert_eq!(chars.len(), 26);
    assert!(chars.uses_hash_membership());
    assert_eq!(chars.as_slice().first(), Some(&'a'));
    assert_eq!(chars.as_slice().last(), Some(&'z'));
}

#[test]
fn candidate_chars_treat_initial_capacity_as_speculative() {
    let mut chars = CandidateChars::with_capacity(usize::MAX);

    assert_eq!(chars.reserve_hint(), 16_384);

    for candidate in 'a'..='q' {
        chars.push_unique(candidate);
    }

    assert_eq!(chars.len(), 17);
    assert!(chars.uses_hash_membership());
}

#[test]
fn push_unique_char_preserves_first_seen_order() {
    let mut chars = CandidateChars::with_capacity(0);

    chars.push_unique('b');
    chars.push_unique('a');
    chars.push_unique('b');

    assert_eq!(chars.as_slice(), &['b', 'a']);
}

#[test]
fn push_bounded_char_range_enumerates_small_positive_classes() {
    let mut chars = CandidateChars::with_capacity(3);

    push_bounded_char_range(&mut chars, 'a', 'c');
    push_bounded_char_range(&mut chars, 'b', 'd');

    assert_eq!(chars.as_slice(), &['a', 'b', 'c', 'd']);
}

#[test]
fn push_bounded_char_range_reserves_large_exact_ranges() {
    let mut chars = CandidateChars::with_capacity(0);

    push_bounded_char_range(&mut chars, 'a', 'z');

    assert_eq!(chars.len(), 26);
    assert!(chars.uses_hash_membership());
}

#[test]
fn push_bounded_char_range_skips_large_ranges() {
    let mut chars = CandidateChars::with_capacity(0);

    push_bounded_char_range(&mut chars, '\u{0}', char::MAX);

    assert_eq!(chars.len(), 0);
}

#[test]
fn push_bounded_char_range_enumerates_up_to_the_surrogate_gap() {
    let mut chars = CandidateChars::with_capacity(0);

    push_bounded_char_range(&mut chars, '\u{d7fe}', '\u{d7ff}');
    push_bounded_char_range(&mut chars, '\u{d7ff}', '\u{e000}');

    assert_eq!(chars.as_slice(), &['\u{d7fe}', '\u{d7ff}']);
}

#[test]
fn collect_label_successors_groups_targets_by_candidate() {
    let candidates = ['b', 'a'];
    let mut successors = LabelSuccessors::new(&candidates);

    collect_label_successors(&NfaLabel::Char('a'), 3, &mut successors);
    collect_label_successors(&NfaLabel::CharClass(class(&[('b', 'b')], false)), 4, &mut successors);
    collect_label_successors(&NfaLabel::Any, 5, &mut successors);
    collect_label_successors(&NfaLabel::Epsilon, 6, &mut successors);

    let (chars, targets) = successors.into_slots();
    assert_eq!(chars, vec!['b', 'a']);
    let b_successors = &targets[0];
    let a_successors = &targets[1];
    assert!(a_successors.contains(&3));
    assert!(a_successors.contains(&5));
    assert!(!a_successors.contains(&6));
    assert!(b_successors.contains(&4));
    assert!(b_successors.contains(&5));
    assert!(!b_successors.contains(&6));
}

#[test]
fn label_successors_index_large_candidate_sets() {
    let candidates = ('a'..='z').collect::<Vec<char>>();
    let mut successors = LabelSuccessors::new(&candidates);

    collect_label_successors(&NfaLabel::Char('z'), 11, &mut successors);
    collect_label_successors(&NfaLabel::Char('a'), 13, &mut successors);

    let (chars, targets) = successors.into_slots();
    assert_eq!(chars.first(), Some(&'a'));
    assert_eq!(chars.last(), Some(&'z'));
    assert!(targets[0].contains(&13));
    assert!(targets[25].contains(&11));
}

#[test]
fn negated_class_matches_outside_its_ranges() {
    let digits = class(&[('0', '9')], true);
    assert!(digits.matches('a'));
    assert!(!digits.matches('5'));
}

#[test]
fn epsilon_closure_follows_only_epsilons() {
    let nfa = chain_nfa();
    assert_eq!(nfa.closure(&[1], ClosureMode::Epsilon), vec![1, 2]);
    assert_eq!(nfa.closure(&[0], ClosureMode::Epsilon), vec![0]);
    assert_eq!(nfa.closure(&[2, 1, 1], ClosureMode::Epsilon), vec![1, 2]);
}

#[test]
fn closure_keeps_states_beyond_the_automaton() {
    let nfa = chain_nfa();
    assert_eq!(nfa.closure(&[7, 1], ClosureMode::Epsilon), vec![1, 2, 7]);
}

#[test]
fn start_anchor_closure_folds_start_anchors_into_the_start() {
    let mut nfa = PhoneticNfa::new();
    let s1 = nfa.add_state(false);
    let s2 = nfa.add_state(true);
    nfa.add_transition(0, NfaLabel::StartOfInput, s1);
    nfa.add_transition(s1, NfaLabel::Char('x'), s2);

    assert_eq!(nfa.start_anchor_closure(), vec![0, 1]);
    assert_eq!(nfa.closure(&[0], ClosureMode::EndAnchors), vec![0]);
}

#[test]
fn end_anchors_make_a_state_set_accept() {
    let mut nfa = PhoneticNfa::new();
    let s1 = nfa.add_state(true);
    nfa.add_transition(0, NfaLabel::EndOfInput, s1);

    assert!(nfa.state_set_can_reach_final_through_end_anchors(&[0]));
    assert!(!nfa.state_set_can_reach_final_through_end_anchors(&[7]));
}

#[test]
fn candidates_and_successors_of_a_state_set() {
    let mut nfa = PhoneticNfa::new();
    let s1 = nfa.add_state(false);
    let s2 = nfa.add_state(true);
    nfa.add_transition(0, NfaLabel::Char('c'), s1);
    nfa.add_transition(0, NfaLabel::CharClass(class(&[('a', 'b')], false)), s2);
    nfa.add_transition(0, NfaLabel::Epsilon, s2);

    let candidates = collect_candidates(&nfa, &['z', 'a'], &[0]);
    assert_eq!(candidates.as_slice(), &['c', 'a', 'b']);

    let successors = collect_successors(&nfa, &[0], candidates.as_slice());
    let (_, targets) = successors.into_slots();
    assert_eq!(targets[0], vec![s1]);
    assert_eq!(targets[1], vec![s2]);
    assert_eq!(targets[2], vec![s2]);
}

#[test]
fn test_phonetic_nfa_registry_preallocates_and_reuses_start_state() {
    let mut registry = NfaStateRegistry::new(vec![0], true);

    assert!(registry.state_set(0).is_some());
    assert_eq!(registry.get_or_create_with_key(vec![0], false), Some(0));
    assert!(registry.is_final(0));

    let non_final_id = registry
        .get_or_create_with_key(vec![1], false)
        .expect("representable registry state");
    assert_eq!(non_final_id, 1);
    assert!(!registry.is_final(non_final_id));
    assert_eq!(registry.id_for_key(&[1]), Some(1));
    assert_eq!(registry.len(), 2);
}

#[test]
fn test_phonetic_nfa_wildcard_transitions_share_registered_successor() {
    let mut nfa = PhoneticNfa::new();
    let accept = nfa.add_state(true);
    nfa.add_transition(0, NfaLabel::Any, accept);
    let mut wfst = PhoneticNfaWfst::with_alphabet(nfa, vec!['x', 'y', 'z']);

    let expansion = wfst.compute_nfa_transitions(0);

    assert_eq!(expansion.transitions.len(), 3);
    let target = expansion.transitions[0].to;
    assert!(expansion.transitions.iter().all(|transition| transition.to == target));
    assert_eq!(wfst.num_states(), 2);
    assert!(wfst.registered_state_is_final(target));
}

#[test]
fn phonetic_nfa_transducer_walks_a_chain() {
    let mut wfst = PhoneticNfaWfst::new(chain_nfa());

    assert!(!wfst.registered_state_is_final(0));
    let first = wfst.compute_nfa_transitions(0);
    assert!(!first.is_final);
    assert_eq!(first.transitions, vec![NfaTransition { from: 0, label: 'a', to: 1 }]);

    let second = wfst.compute_nfa_transitions(1);
    assert_eq!(second.transitions, vec![NfaTransition { from: 1, label: 'b', to: 2 }]);

    let last = wfst.compute_nfa_transitions(2);
    assert!(last.is_final);
    assert!(last.transitions.is_empty());
    assert_eq!(wfst.num_states(), 3);
}

#[test]
fn unregistered_state_expands_to_nothing() {
    let mut wfst = PhoneticNfaWfst::new(chain_nfa());

    let expansion = wfst.compute_nfa_transitions(9);
    assert!(!expansion.is_final);
    assert!(expansion.transitions.is_empty());
    assert_eq!(wfst.num_states(), 1);
    assert!(!wfst.is_registered_state(9));
}

#[test]
fn default_alphabet_is_printable_ascii_and_hint_scales_nfa_states() {
    let wfst = PhoneticNfaWfst::new(chain_nfa());
    assert_eq!(wfst.alphabet().len(), 95);
    assert_eq!(wfst.alphabet()[0], ' ');
    assert_eq!(wfst.num_states_hint(), 40);
}

#[test]
fn custom_alphabet_drops_repeats() {
    let wfst = PhoneticNfaWfst::with_alphabet(chain_nfa(), vec!['b', 'a', 'b']);
    assert_eq!(wfst.alphabet(), &['b', 'a']);
}

#[test]
fn full_string_normalization_makes_anchors_explicit() {
    // 0 -^-> 1 -a-> 2 -$-> 3, with 3 accepting.
    let mut nfa = PhoneticNfa::new();
    let s1 = nfa.add_state(false);
    let s2 = nfa.add_state(false);
    let s3 = nfa.add_state(true);
    nfa.add_transition(0, NfaLabel::StartOfInput, s1);
    nfa.add_transition(s1, NfaLabel::Char('a'), s2);
    nfa.add_transition(s2, NfaLabel::EndOfInput, s3);
    let nfa = normalize_full_string_anchors(nfa);
    assert_eq!(nfa.num_states(), 4);
    assert_eq!(nfa.start(), 0);
    let arcs = nfa.transitions_from(0);
    assert_eq!(arcs.len(), 2);
    assert!(matches!(arcs[0].label, NfaLabel::StartOfInput));
    assert!(matches!(arcs[1].label, NfaLabel::Epsilon));
    assert_eq!(arcs[1].to, 1);
    assert_eq!(nfa.transitions_from(1).len(), 1);
    assert!(!nfa.is_final(0));
    assert!(!nfa.is_final(1));
    assert!(nfa.is_final(2));
    assert!(nfa.is_final(3));
}

#[test]
fn full_string_normalization_leaves_anchor_free_automata_alone() {
    let nfa = normalize_full_string_anchors(chain_nfa());
    assert_eq!(nfa.transitions_from(0).len(), 1);
    assert!(!nfa.is_final(0));
    assert!(!nfa.is_final(1));
    assert!(!nfa.is_final(2));
    assert!(nfa.is_final(3));
}
