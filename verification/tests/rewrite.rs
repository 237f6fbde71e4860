use duallity::rewrite::{
    prune_dominated_transitions, rewrite_state_count, CommonPhoneticRules, ContinuationState,
    InvalidCostKey, RewriteRule, RewriteTransition, RewriteWfst, HASH_PRUNE_THRESHOLD,
    MAX_FINITE_COST_KEY,
};

fn key(cost: f64) -> u64 {
    (cost + 0.0).to_bits()
}

fn rule(input: &str, output: &str, cost: f64) -> RewriteRule {
    RewriteRule::with_cost_key(input, output, key(cost)).expect("valid rewrite rule")
}

#[test]
fn test_rewrite_wfst_incremental_metadata_matches_bulk_rules() {
    let rules = vec![
        rule("ab", "x", 0.1),
        rule("c", "de", 0.2).with_priority(10),
        rule("pq", "rs", 0.3),
    ];

    let mut bulk = RewriteWfst::with_rules(rules.iter().map(RewriteRule::duplicate).collect())
        .expect("valid rewrite rules");
    let mut incremental = RewriteWfst::new();
    for rule in rules {
        incremental
            .add_rewrite_rule(rule)
            .expect("valid rewrite rule");
    }

    bulk.set_allow_identity(false);
    incremental.set_allow_identity(false);

    assert_eq!(incremental.num_rules(), bulk.num_rules());
    assert_eq!(
        incremental.continuation_end_offsets(),
        bulk.continuation_end_offsets()
    );
    assert_eq!(incremental.continuation_lookup(), bulk.continuation_lookup());
    assert_eq!(incremental.priority_order(), bulk.priority_order());
    assert_eq!(incremental.num_states(), bulk.num_states());

    let labels = |wfst: &RewriteWfst| {
        wfst.compute_transitions(0)
            .transitions
            .iter()
            .map(|transition| (transition.input, transition.output, transition.to))
            .collect::<Vec<_>>()
    };
    assert_eq!(labels(&incremental), labels(&bulk));

    assert_eq!(bulk.decode_continuation_state(1), Some((0, 1)));
    assert_eq!(bulk.decode_continuation_state(2), Some((1, 1)));
    assert_eq!(bulk.decode_continuation_state(3), Some((2, 1)));
    assert_eq!(bulk.decode_continuation_state(4), None);
}

#[test]
fn test_rewrite_metadata_preallocates_exact_continuation_lookup_capacity() {
    let rules = vec![rule("abcd", "x", 0.1), rule("e", "fghi", 0.2), rule("", "", 0.3)];

    let wfst = RewriteWfst::with_rules(rules).expect("valid rewrite rules");

    assert_eq!(wfst.continuation_lookup().len(), 6);
    assert_eq!(wfst.continuation_end_offsets(), &[3, 6, 6]);
    assert_eq!(wfst.num_states(), 7);
}

#[test]
fn test_rewrite_num_states_caps_to_representable_state_ids() {
    assert_eq!(rewrite_state_count(0), 1);

    let Ok(max_state_id) = usize::try_from(u32::MAX) else {
        return;
    };
    let Some(addressable_states) = max_state_id.checked_add(1) else {
        assert_eq!(rewrite_state_count(usize::MAX), usize::MAX);
        return;
    };

    assert_eq!(
        rewrite_state_count(addressable_states - 1),
        addressable_states
    );
    assert_eq!(rewrite_state_count(addressable_states), addressable_states);
    if let Some(unaddressable_continuations) = addressable_states.checked_add(10) {
        assert_eq!(
            rewrite_state_count(unaddressable_continuations),
            addressable_states
        );
    }
}

#[test]
fn test_rewrite_transition_pruning_keeps_singleton_unchanged() {
    let mut transitions = vec![RewriteTransition {
        from: 0,
        input: Some('a'),
        output: Some('b'),
        to: 0,
        weight_key: key(0.25),
    }];

    prune_dominated_transitions(&mut transitions);

    assert_eq!(transitions.len(), 1);
    assert_eq!(transitions[0].input, Some('a'));
    assert_eq!(transitions[0].output, Some('b'));
    assert_eq!(f64::from_bits(transitions[0].weight_key), 0.25);
}

#[test]
fn test_rewrite_transition_pruning_hash_path_keeps_best_weight_in_first_position() {
    let arc = |label: char, cost: f64| RewriteTransition {
        from: 0,
        input: Some(label),
        output: Some(label),
        to: 0,
        weight_key: key(cost),
    };
    let mut transitions = vec![arc('a', 0.7)];
    for offset in 0..HASH_PRUNE_THRESHOLD {
        let label = char::from(b'b' + u8::try_from(offset).unwrap_or(0));
        transitions.push(arc(label, 0.0));
    }
    transitions.push(arc('a', 0.1));

    assert!(transitions.len() > HASH_PRUNE_THRESHOLD);

    prune_dominated_transitions(&mut transitions);

    assert_eq!(transitions.len(), HASH_PRUNE_THRESHOLD + 1);
    assert_eq!(transitions[0].input, Some('a'));
    assert_eq!(f64::from_bits(transitions[0].weight_key), 0.1);
    assert_eq!(transitions[1].input, Some('b'));
}

#[test]
fn linear_pruning_keeps_the_earliest_of_equal_weights() {
    let arc = |to: u32, cost: f64| RewriteTransition {
        from: 0,
        input: Some('a'),
        output: None,
        to,
        weight_key: key(cost),
    };
    let mut transitions = vec![arc(1, 0.5), arc(2, 0.5), arc(1, 0.5), arc(1, 0.2)];
    prune_dominated_transitions(&mut transitions);
    assert_eq!(transitions, vec![arc(1, 0.2), arc(2, 0.5)]);
}

#[test]
fn multi_scalar_rules_spell_chains_through_continuations() {
    let mut wfst = RewriteWfst::new();
    wfst.set_allow_identity(false);
    wfst.add_rule("ph", "f", key(0.1)).expect("valid rule");
    wfst.add_rule("x", "ks", key(0.2)).expect("valid rule");
    assert_eq!(wfst.num_states(), 3);

    let start = wfst.compute_transitions(0);
    assert!(start.is_final);
    assert_eq!(
        start.transitions,
        vec![
            RewriteTransition {
                from: 0,
                input: Some('p'),
                output: Some('f'),
                to: 1,
                weight_key: key(0.1)
            },
            RewriteTransition {
                from: 0,
                input: Some('x'),
                output: Some('k'),
                to: 2,
                weight_key: key(0.2)
            },
        ]
    );
    let first = wfst.compute_transitions(1);
    assert!(!first.is_final);
    assert_eq!(
        first.transitions,
        vec![RewriteTransition {
            from: 1,
            input: Some('h'),
            output: None,
            to: 0,
            weight_key: 0
        }]
    );
    let second = wfst.compute_transitions(2);
    assert_eq!(
        second.transitions,
        vec![RewriteTransition {
            from: 2,
            input: None,
            output: Some('s'),
            to: 0,
            weight_key: 0
        }]
    );
    let unknown = wfst.compute_transitions(3);
    assert!(!unknown.is_final);
    assert!(unknown.transitions.is_empty());
}

#[test]
fn higher_priority_rules_are_enumerated_first() {
    let mut wfst = RewriteWfst::new();
    wfst.set_allow_identity(false);
    wfst.add_rewrite_rule(rule("a", "b", 0.1)).unwrap();
    wfst.add_rewrite_rule(rule("c", "d", 0.1).with_priority(5)).unwrap();
    wfst.add_rewrite_rule(rule("e", "f", 0.1).with_priority(5)).unwrap();
    assert_eq!(wfst.priority_order(), &[1, 2, 0]);
    let inputs: Vec<Option<char>> = wfst
        .compute_transitions(0)
        .transitions
        .iter()
        .map(|t| t.input)
        .collect();
    assert_eq!(inputs, vec![Some('c'), Some('e'), Some('a')]);
}

#[test]
fn identity_transitions_cover_printable_ascii_and_yield_to_cheaper_rules() {
    let mut wfst = RewriteWfst::new();
    wfst.add_rule("a", "a", key(0.0)).unwrap();
    wfst.add_rule("b", "b", key(0.5)).unwrap();
    let start = wfst.compute_transitions(0);
    assert_eq!(start.transitions.len(), 95);
    assert_eq!(start.transitions[0].input, Some('a'));
    assert_eq!(start.transitions[0].weight_key, 0);
    assert_eq!(start.transitions[1].input, Some('b'));
    assert_eq!(start.transitions[1].weight_key, 0);
    assert!(start
        .transitions
        .iter()
        .any(|t| t.input == Some(' ') && t.output == Some(' ')));
    assert!(start.transitions.iter().any(|t| t.input == Some('~')));
}

#[test]
fn invalid_cost_keys_are_rejected() {
    assert!(matches!(
        RewriteRule::with_cost_key("a", "b", key(f64::INFINITY)),
        Err(InvalidCostKey { .. })
    ));
    assert!(RewriteRule::with_cost_key("a", "b", key(-1.0)).is_err());
    assert!(RewriteRule::with_cost_key("a", "b", f64::NAN.to_bits()).is_err());
    assert!(RewriteRule::with_cost_key("a", "b", MAX_FINITE_COST_KEY).is_ok());
    assert_eq!(key(-0.0), 0);

    let mut wfst = RewriteWfst::new();
    assert_eq!(
        wfst.add_rule("a", "b", key(f64::INFINITY)),
        Err(InvalidCostKey {
            cost_key: key(f64::INFINITY)
        })
    );
    assert_eq!(wfst.num_rules(), 0);
    let mixed = vec![
        rule("a", "b", 0.1),
        RewriteRule {
            input: "c".to_owned(),
            output: "d".to_owned(),
            cost_key: key(f64::NAN),
            priority: 0,
        },
    ];
    assert!(RewriteWfst::with_rules(mixed).is_err());
}

#[test]
fn common_rule_sets_match_their_tables() {
    let english = CommonPhoneticRules::english();
    assert_eq!(english.len(), 7);
    assert_eq!(english[0].input, "ph");
    assert_eq!(english[0].output, "f");
    assert_eq!(f64::from_bits(english[0].cost_key), 0.1);
    assert_eq!(f64::from_bits(english[1].cost_key), 0.2);
    let german = CommonPhoneticRules::german();
    assert_eq!(german.len(), 6);
    assert_eq!(german[2].input, "ß");
    assert_eq!(german[2].output, "ss");
    let french = CommonPhoneticRules::french();
    assert_eq!(french.len(), 5);
    assert_eq!(french[0].input, "eau");
    assert!(RewriteWfst::with_rules(english).is_ok());
}

#[test]
fn continuation_states_decode_to_their_rule_and_step() {
    let wfst = RewriteWfst::with_rules(vec![rule("abc", "x", 0.1), rule("yz", "w", 0.1)])
        .expect("valid rewrite rules");
    assert_eq!(
        wfst.continuation_lookup(),
        &[
            ContinuationState {
                rule_index: 0,
                step: 1
            },
            ContinuationState {
                rule_index: 0,
                step: 2
            },
            ContinuationState {
                rule_index: 1,
                step: 1
            },
        ]
    );
    assert_eq!(wfst.decode_continuation_state(0), None);
    assert_eq!(wfst.decode_continuation_state(2), Some((0, 2)));
    assert_eq!(wfst.decode_continuation_state(3), Some((1, 1)));
}
