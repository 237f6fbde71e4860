use duallity::ffi_codes::{kind, DuallityStatus, WfstKind};
use duallity::generalized_limits::{
    checked_state_count, next_state_id, require_at_most, resolved_node, ExpansionBudget,
    GeneralizedWfstError, GeneralizedWfstLimits, GeneralizedWfstResource, PendingDictionaryNode,
};
use duallity::phonetic_support::{
    canonicalize_nfa_states, char_range_width, default_phonetic_nfa_alphabet,
    estimated_phonetic_product_states, next_phonetic_registry_id, normalize_alphabet,
    phonetic_nfa_state_hint,
};

#[test]
fn normalize_alphabet_treats_size_hint_as_speculative() {
    let alphabet = normalize_alphabet(vec!['b', 'a', 'b']);

    assert_eq!(alphabet.as_slice(), &['b', 'a']);
}

#[test]
fn normalize_alphabet_keeps_first_seen_order() {
    assert_eq!(
        normalize_alphabet(vec!['c', 'a', 'c', 'b', 'a']),
        vec!['c', 'a', 'b']
    );
    assert_eq!(normalize_alphabet(Vec::new()), Vec::<char>::new());
}

#[test]
fn default_alphabet_is_printable_ascii() {
    let alphabet = default_phonetic_nfa_alphabet();
    assert_eq!(alphabet.len(), 95);
    assert_eq!(alphabet.first(), Some(&' '));
    assert_eq!(alphabet.last(), Some(&'~'));
}

#[test]
fn test_phonetic_registry_id_helper_rejects_unrepresentable_len() {
    assert_eq!(next_phonetic_registry_id(0), Some(0));
    let Ok(max_u32) = usize::try_from(u32::MAX) else {
        return;
    };
    assert_eq!(next_phonetic_registry_id(max_u32), Some(u32::MAX));

    if let Some(overflowing_len) = max_u32.checked_add(1) {
        assert_eq!(next_phonetic_registry_id(overflowing_len), None);
    }
}

#[test]
fn test_phonetic_product_state_estimate_has_floor_and_scales() {
    assert_eq!(estimated_phonetic_product_states(0), 10_000);
    assert_eq!(estimated_phonetic_product_states(9), 10_000);
    assert_eq!(estimated_phonetic_product_states(10), 11_000);
    assert_eq!(estimated_phonetic_product_states(u8::MAX), 256_000);
}

#[test]
fn phonetic_nfa_state_hint_is_saturating_and_never_underreports_registered_states() {
    assert_eq!(phonetic_nfa_state_hint(3, 0), 30);
    assert_eq!(phonetic_nfa_state_hint(3, 45), 45);
    assert_eq!(phonetic_nfa_state_hint(usize::MAX, 1), usize::MAX);
}

#[test]
fn char_range_width_counts_inclusive_ranges() {
    assert_eq!(char_range_width('a', 'z'), Some(26));
    assert_eq!(char_range_width('a', 'a'), Some(1));
    assert_eq!(char_range_width('z', 'a'), None);
}

#[test]
fn canonical_state_lists_are_sorted_and_unique() {
    let mut states = vec![5, 1, 5, 3, 1];
    canonicalize_nfa_states(&mut states);
    assert_eq!(states, vec![1, 3, 5]);

    let mut canonical = vec![2, 4, 8];
    canonicalize_nfa_states(&mut canonical);
    assert_eq!(canonical, vec![2, 4, 8]);

    let mut reordered = vec![3, 1, 5, 1];
    canonicalize_nfa_states(&mut reordered);
    assert_eq!(reordered, states);
}

#[test]
fn default_limits_match_the_documented_ceilings() {
    let limits = GeneralizedWfstLimits::default();
    assert_eq!(limits.max_query_bytes, 1 << 20);
    assert_eq!(limits.max_query_scalars, 1 << 18);
    assert_eq!(limits.max_operation_source_scalars, 4_096);
    assert_eq!(limits.max_operation_query_scalars, 4_096);
    assert_eq!(limits.max_retained_dictionary_nodes, 1_000_000);
    assert_eq!(limits.max_retained_wfst_states, 1_000_000);
    assert_eq!(limits.max_paths_per_expansion, 262_144);
    assert_eq!(limits.max_work_units_per_expansion, 4_000_000);
}

#[test]
fn resource_names_are_human_readable() {
    assert_eq!(GeneralizedWfstResource::QueryBytes.name(), "query bytes");
    assert_eq!(
        GeneralizedWfstResource::RetainedWfstStates.name(),
        "retained WFST states"
    );
    assert_eq!(
        GeneralizedWfstResource::WorkUnitsPerExpansion.name(),
        "work units per expansion"
    );
}

#[test]
fn require_at_most_is_inclusive() {
    assert_eq!(
        require_at_most(GeneralizedWfstResource::QueryScalars, 4, 4),
        Ok(())
    );
    assert_eq!(
        require_at_most(GeneralizedWfstResource::QueryScalars, 5, 4),
        Err(GeneralizedWfstError::LimitExceeded {
            resource: GeneralizedWfstResource::QueryScalars,
            limit: 4,
            required: 5
        })
    );
    assert_eq!(
        GeneralizedWfstError::limit(GeneralizedWfstResource::QueryBytes, 1, 2),
        GeneralizedWfstError::LimitExceeded {
            resource: GeneralizedWfstResource::QueryBytes,
            limit: 1,
            required: 2
        }
    );
}

#[test]
fn expansion_budget_charges_paths_and_work_against_limits() {
    let limits = GeneralizedWfstLimits {
        max_paths_per_expansion: 1,
        max_work_units_per_expansion: 10,
        ..GeneralizedWfstLimits::default()
    };
    let mut budget = ExpansionBudget::new(limits);
    assert_eq!(budget.charge_work(10), Ok(()));
    assert_eq!(
        budget.charge_work(1),
        Err(GeneralizedWfstError::LimitExceeded {
            resource: GeneralizedWfstResource::WorkUnitsPerExpansion,
            limit: 10,
            required: 11
        })
    );
    assert_eq!(budget.work(), 11);
    assert_eq!(
        budget.charge_work(usize::MAX),
        Err(GeneralizedWfstError::ArithmeticOverflow(
            "counting expansion work"
        ))
    );
    assert_eq!(budget.work(), 11);

    assert_eq!(budget.charge_path(), Ok(()));
    assert_eq!(
        budget.charge_path(),
        Err(GeneralizedWfstError::LimitExceeded {
            resource: GeneralizedWfstResource::PathsPerExpansion,
            limit: 1,
            required: 2
        })
    );
    assert_eq!(budget.paths(), 2);
}

#[test]
fn pending_nodes_resolve_through_staged_ids() {
    let ids = [7u32, 9];
    assert_eq!(resolved_node(PendingDictionaryNode::Registered(3), &ids), 3);
    assert_eq!(resolved_node(PendingDictionaryNode::Staged(1), &ids), 9);
}

#[test]
fn state_ids_never_use_the_sentinel() {
    assert_eq!(next_state_id(0), Some(0));
    let Ok(max_u32) = usize::try_from(u32::MAX) else {
        return;
    };
    assert_eq!(next_state_id(max_u32 - 1), Some(u32::MAX - 1));
    assert_eq!(next_state_id(max_u32), None);
    assert_eq!(checked_state_count(3, 3), Ok(2));
    assert_eq!(
        checked_state_count(4, 3),
        Err(GeneralizedWfstError::LimitExceeded {
            resource: GeneralizedWfstResource::RetainedWfstStates,
            limit: 3,
            required: 4
        })
    );
    assert_eq!(
        checked_state_count(0, 3),
        Err(GeneralizedWfstError::ArithmeticOverflow(
            "encoding a WFST state ID without using NO_STATE"
        ))
    );
}

#[test]
fn wire_kinds_roundtrip() {
    let kinds = [
        WfstKind::Levenshtein,
        WfstKind::UniversalStandard,
        WfstKind::UniversalTransposition,
        WfstKind::UniversalMergeAndSplit,
        WfstKind::GeneralizedStandard,
        WfstKind::GeneralizedTransposition,
        WfstKind::GeneralizedMergeAndSplit,
        WfstKind::GeneralizedPhonetic,
        WfstKind::Fzf,
    ];
    for (code, expected) in kinds.iter().enumerate() {
        assert_eq!(expected.code(), code as u32);
        assert_eq!(kind(code as u32), Ok(*expected));
    }
    assert_eq!(kind(9), Err(DuallityStatus::InvalidArgument));
    assert_eq!(kind(u32::MAX), Err(DuallityStatus::InvalidArgument));
}

#[test]
fn status_codes_follow_declaration_order() {
    assert_eq!(DuallityStatus::Success.code(), 0);
    assert_eq!(DuallityStatus::InvalidArgument.code(), 1);
    assert_eq!(DuallityStatus::InvalidUtf8.code(), 2);
    assert_eq!(DuallityStatus::NullPointer.code(), 3);
    assert_eq!(DuallityStatus::Panic.code(), 4);
    assert_eq!(DuallityStatus::IncompatibleResource.code(), 5);
    assert_eq!(DuallityStatus::ProviderError.code(), 6);
    assert_eq!(DuallityStatus::LimitExceeded.code(), 7);
}

#[test]
fn state_set_key_sorts_states_and_stays_inline_for_small_closures() {
    let mut states = Vec::new();
    states.push(7);
    states.push(1);
    states.push(3);

    canonicalize_nfa_states(&mut states);

    assert_eq!(states.as_slice(), &[1, 3, 7]);
    assert!(states.len() <= 8);
}

#[test]
fn product_and_chain_preflight_never_allocate_the_no_state_sentinel() {
    let sentinel = usize::try_from(lling_llang::wfst::NO_STATE).expect("state ID fits usize");
    assert_eq!(next_state_id(sentinel - 1), Some(lling_llang::wfst::NO_STATE - 1));
    assert_eq!(next_state_id(sentinel), None);
    assert_eq!(
        checked_state_count(sentinel, usize::MAX).expect("last valid chain endpoint"),
        lling_llang::wfst::NO_STATE - 1
    );
    if let Some(includes_sentinel) = sentinel.checked_add(1) {
        assert!(checked_state_count(includes_sentinel, usize::MAX).is_err());
    }
    assert!(checked_state_count(2, 1).is_err());
}
