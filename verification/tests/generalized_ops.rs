use duallity::dictionary_paths::{dictionary_paths, DictionarySnapshot};
use duallity::generalized_limits::{
    ExpansionBudget, ExpansionError, GeneralizedWfstError, GeneralizedWfstLimits, GeneralizedWfstResource, PendingDictionaryNode,
};
use duallity::generalized_product::expand_generalized_product;
use duallity::generalized_states::ProductState;
use duallity::generalized_ops::{
    assign_width_slots, operation_applies, prepare_operations, validate_construction_limits, Applicability,
};
use liblevenshtein::transducer::{OperationSet, OperationSetBuilder, OperationType};

/// The widths of each operation, and its weight in a scale of one unit per
/// whole cost (the test weights are whole numbers).
fn dimensions(operations: &OperationSet) -> (Vec<(usize, usize)>, Vec<usize>) {
    let widths = operations.operations().iter().map(|op| (op.consume_x(), op.consume_y())).collect();
    let scaled = operations.operations().iter().map(|op| op.weight() as usize).collect();
    (widths, scaled)
}

#[test]
fn prepares_operation_dimensions_and_weights_once() {
    let operations = OperationSetBuilder::new()
        .with_operation(OperationType::new(1, 1, 0.0, "match"))
        .with_operation(OperationType::new(1, 1, 1.0, "substitute"))
        .with_operation(OperationType::new(2, 2, 1.0, "transpose"))
        .with_operation(OperationType::new(2, 1, 1.0, "merge"))
        .build();

    let (widths, scaled) = dimensions(&operations);
    let prepared = prepare_operations(&widths, &scaled);

    assert_eq!(prepared.len(), 4);
    assert_eq!(prepared[0].consume_x, 1);
    assert_eq!(prepared[0].consume_y, 1);
    assert_eq!(prepared[0].scaled_weight, 0);
    assert_eq!(operations.operations()[prepared[0].index].weight(), 0.0);
    assert_eq!(prepared[1].scaled_weight, 1);
    assert_eq!(operations.operations()[prepared[1].index].weight(), 1.0);
    assert_eq!(prepared[2].consume_x, 2);
    assert_eq!(prepared[2].consume_y, 2);
    assert_eq!(prepared[3].consume_x, 2);
    assert_eq!(prepared[3].consume_y, 1);
    assert_eq!(prepared.iter().map(|op| op.source_width_slot).collect::<Vec<_>>(), [0, 0, 1, 1]);
    assert_eq!(prepared.iter().map(|op| op.query_width_slot).collect::<Vec<_>>(), [0, 0, 1, 0]);
}

#[test]
fn maximum_width_uses_one_compact_slot_per_side() {
    for (source, query) in [(4096, 0), (0, 4096)] {
        let operations = OperationSetBuilder::new()
            .with_operation(OperationType::new(source, query, 1.0, "wide"))
            .build();
        let (widths, scaled) = dimensions(&operations);
        let prepared = prepare_operations(&widths, &scaled);
        assert_eq!(prepared[0].source_width_slot, 0);
        assert_eq!(prepared[0].query_width_slot, 0);
    }
}

#[test]
fn width_slots_follow_first_appearance() {
    assert_eq!(assign_width_slots(&[3, 1, 3, 0, 1, 7]), vec![0, 1, 0, 2, 1, 3]);
    assert_eq!(assign_width_slots(&[]), Vec::<usize>::new());
    assert_eq!(assign_width_slots(&[5]), vec![0]);
}

fn exceeded(resource: GeneralizedWfstResource, limit: usize, required: usize) -> Result<(), GeneralizedWfstError> {
    Err(GeneralizedWfstError::LimitExceeded { resource, limit, required })
}

#[test]
fn construction_limits_check_query_roots_and_operation_widths_in_order() {
    let defaults = GeneralizedWfstLimits::default();
    let widths = [(1, 1), (2, 1)];
    assert_eq!(validate_construction_limits("h\u{e9}llo", &widths, defaults), Ok(()));
    assert_eq!(
        validate_construction_limits("h\u{e9}llo", &widths, GeneralizedWfstLimits { max_query_bytes: 5, ..defaults }),
        exceeded(GeneralizedWfstResource::QueryBytes, 5, 6)
    );
    assert_eq!(
        validate_construction_limits("h\u{e9}llo", &widths, GeneralizedWfstLimits { max_query_scalars: 4, ..defaults }),
        exceeded(GeneralizedWfstResource::QueryScalars, 4, 5)
    );
    assert_eq!(
        validate_construction_limits("", &widths, GeneralizedWfstLimits { max_retained_dictionary_nodes: 0, ..defaults }),
        exceeded(GeneralizedWfstResource::RetainedDictionaryNodes, 0, 1)
    );
    assert_eq!(
        validate_construction_limits("", &widths, GeneralizedWfstLimits { max_retained_wfst_states: 0, ..defaults }),
        exceeded(GeneralizedWfstResource::RetainedWfstStates, 0, 1)
    );
    assert_eq!(
        validate_construction_limits("", &[(1, 1), (5000, 9000)], defaults),
        exceeded(GeneralizedWfstResource::OperationSourceScalars, 4096, 5000)
    );
    assert_eq!(
        validate_construction_limits("", &[(1, 4097), (5000, 1)], defaults),
        exceeded(GeneralizedWfstResource::OperationQueryScalars, 4096, 4097)
    );
}

fn snapshot(edges: Vec<Vec<(char, usize)>>) -> DictionarySnapshot {
    DictionarySnapshot { edges }
}

#[test]
fn dictionary_paths_follow_edges_depth_first_and_charge_the_budget() {
    let d = snapshot(vec![vec![('a', 1), ('b', 2)], vec![('c', 3)], vec![('d', 3), ('e', 3)], vec![]]);
    let mut budget = ExpansionBudget::new(GeneralizedWfstLimits::default());
    let found = dictionary_paths(&d, 0, 2, &mut budget).unwrap();
    let spelled: Vec<(String, usize)> =
        found.iter().map(|p| (p.output.iter().collect::<String>(), p.target)).collect();
    assert_eq!(spelled, vec![("ac".to_string(), 3), ("bd".to_string(), 3), ("be".to_string(), 3)]);
    // Each node read costs one unit, one per edge and one for the end; each
    // search turn one unit; each path one unit plus its scalars and bytes.
    assert_eq!(budget.work(), 34);
    assert_eq!(budget.paths(), 3);

    let mut fresh = ExpansionBudget::new(GeneralizedWfstLimits::default());
    let here = dictionary_paths(&d, 3, 0, &mut fresh).unwrap();
    assert_eq!(here.len(), 1);
    assert!(here[0].output.is_empty());
    assert_eq!(here[0].target, 3);
    assert!(dictionary_paths(&d, 3, 1, &mut fresh).unwrap().is_empty());
}

#[test]
fn dictionary_paths_fail_exactly_past_the_path_ceiling() {
    let d = snapshot(vec![vec![('a', 1), ('b', 2)], vec![('c', 3)], vec![('d', 3), ('e', 3)], vec![]]);
    let limits = GeneralizedWfstLimits { max_paths_per_expansion: 2, ..GeneralizedWfstLimits::default() };
    let mut budget = ExpansionBudget::new(limits);
    assert_eq!(
        dictionary_paths(&d, 0, 2, &mut budget),
        Err(ExpansionError::Resource(GeneralizedWfstError::LimitExceeded {
            resource: GeneralizedWfstResource::PathsPerExpansion,
            limit: 2,
            required: 3,
        }))
    );
    let limits = GeneralizedWfstLimits { max_paths_per_expansion: 3, max_work_units_per_expansion: 34, ..limits };
    assert!(dictionary_paths(&d, 0, 2, &mut ExpansionBudget::new(limits)).is_ok());
    let limits = GeneralizedWfstLimits { max_work_units_per_expansion: 33, ..limits };
    assert!(matches!(
        dictionary_paths(&d, 0, 2, &mut ExpansionBudget::new(limits)),
        Err(ExpansionError::Resource(GeneralizedWfstError::LimitExceeded {
            resource: GeneralizedWfstResource::WorkUnitsPerExpansion,
            ..
        }))
    ));
}

#[test]
fn dictionary_paths_carry_utf8_bytes_and_reject_unknown_nodes() {
    let d = snapshot(vec![vec![('é', 1)], vec![('b', 2)], vec![]]);
    let mut budget = ExpansionBudget::new(GeneralizedWfstLimits::default());
    let found = dictionary_paths(&d, 0, 2, &mut budget).unwrap();
    assert_eq!(found.len(), 1);
    assert_eq!(found[0].bytes, "éb".as_bytes().to_vec());
    assert_eq!(found[0].target, 2);

    let mut untouched = ExpansionBudget::new(GeneralizedWfstLimits::default());
    assert_eq!(dictionary_paths(&d, 3, 1, &mut untouched), Err(ExpansionError::InvalidState));
    assert_eq!(untouched.work(), 0);
    assert_eq!(untouched.paths(), 0);
}

fn applies(applicability: Applicability, dictionary: &str, query: &str) -> bool {
    let dictionary_chars: Vec<char> = dictionary.chars().collect();
    let query_chars: Vec<char> = query.chars().collect();
    operation_applies(&applicability, &dictionary_chars, dictionary.as_bytes(), &query_chars, query.as_bytes())
}

fn listed(pairs: &[(&str, &str)]) -> Applicability {
    Applicability::Listed(pairs.iter().map(|(a, b)| (a.as_bytes().to_vec(), b.as_bytes().to_vec())).collect())
}

#[test]
fn any_applicability_includes_equal_and_unequal_slices() {
    assert!(applies(Applicability::Any, "a", "a"));
    assert!(applies(Applicability::Any, "a", "b"));
    assert!(applies(Applicability::Any, "a", "b"));
}

#[test]
fn equal_applicability_is_independent_of_weight_and_supports_unicode_widths() {
    assert!(applies(Applicability::Equal, "éa", "éa"));
    assert!(!applies(Applicability::Equal, "éa", "éb"));
}

#[test]
fn adjacent_transpose_is_tagged_not_named_and_allows_repeated_scalars() {
    assert!(applies(Applicability::AdjacentTranspose, "ab", "ba"));
    assert!(applies(Applicability::AdjacentTranspose, "aa", "aa"));
    assert!(!applies(Applicability::AdjacentTranspose, "ab", "cd"));
    // An operation merely named "transpose" is unrestricted.
    assert!(applies(Applicability::Any, "ab", "cd"));
}

#[test]
fn listed_applicability_is_directional_and_empty_lists_apply_nowhere() {
    assert!(applies(listed(&[("ph", "f")]), "ph", "f"));
    assert!(!applies(listed(&[("ph", "f")]), "f", "ph"));
    assert!(!applies(listed(&[]), "a", "b"));
    assert!(applies(listed(&[("a", "b")]), "a", "b"));
}

#[test]
fn transposition_applies_only_to_swapped_pairs_of_two_scalars() {
    assert!(applies(Applicability::AdjacentTranspose, "éa", "aé"));
    assert!(!applies(Applicability::AdjacentTranspose, "abc", "bac"));
    assert!(!applies(Applicability::AdjacentTranspose, "a", "a"));
}

#[test]
fn product_expansion_offers_every_path_to_every_affordable_operation() {
    let operations = [Applicability::Equal, Applicability::Any];
    let prepared = prepare_operations(&[(1, 1), (1, 1)], &[0, 1]);
    let d = snapshot(vec![vec![('a', 1), ('x', 2)], vec![], vec![]]);
    let product = ProductState { dict_node_id: 0, query_byte_pos: 0, cost: 0 };
    let mut budget = ExpansionBudget::new(GeneralizedWfstLimits::default());
    let expansion =
        expand_generalized_product(&prepared, &operations, "ab", product, 1, &d, 0, false, 1, 1, &mut budget).unwrap();
    assert!(!expansion.is_final);
    let arcs = expansion.arcs;
    let seen: Vec<(PendingDictionaryNode, usize, usize, String, String, usize)> = arcs
        .iter()
        .map(|a| {
            (a.target_node, a.query_byte_pos, a.cost, a.input.iter().collect(), a.output.iter().collect(), a.operation)
        })
        .collect();
    assert_eq!(
        seen,
        vec![
            (PendingDictionaryNode::Staged(1), 1, 0, "a".to_string(), "a".to_string(), 0),
            (PendingDictionaryNode::Staged(1), 1, 1, "a".to_string(), "a".to_string(), 1),
            (PendingDictionaryNode::Staged(2), 1, 1, "a".to_string(), "x".to_string(), 1),
        ]
    );

    // Above the cost bound nothing but the free operation is tried.
    let mut budget = ExpansionBudget::new(GeneralizedWfstLimits::default());
    let expansion =
        expand_generalized_product(&prepared, &operations, "ab", product, 0, &d, 0, true, 1, 1, &mut budget).unwrap();
    assert_eq!(expansion.arcs.len(), 1);
    assert!(!expansion.is_final);
    // At the end of the query no segment of width one exists.
    let end = ProductState { dict_node_id: 0, query_byte_pos: 2, cost: 0 };
    let mut budget = ExpansionBudget::new(GeneralizedWfstLimits::default());
    let expansion =
        expand_generalized_product(&prepared, &operations, "ab", end, 1, &d, 0, true, 1, 1, &mut budget).unwrap();
    assert!(expansion.arcs.is_empty());
    assert!(expansion.is_final);
    let mut budget = ExpansionBudget::new(GeneralizedWfstLimits::default());
    let expansion =
        expand_generalized_product(&prepared, &operations, "ab", end, 1, &d, 0, false, 1, 1, &mut budget).unwrap();
    assert!(!expansion.is_final);
}

#[test]
fn product_expansion_reports_states_out_of_range_without_charging() {
    let operations = [Applicability::Equal];
    let prepared = prepare_operations(&[(1, 1)], &[0]);
    let d = snapshot(vec![vec![('a', 1)], vec![]]);
    let expand = |product: ProductState, max_cost: usize, start: usize| {
        let mut budget = ExpansionBudget::new(GeneralizedWfstLimits::default());
        let r = expand_generalized_product(&prepared, &operations, "éa", product, max_cost, &d, start, false, 1, 1,
            &mut budget);
        (r.map(|e| e.arcs.len()), budget.work())
    };
    let inside = ProductState { dict_node_id: 0, query_byte_pos: 0, cost: 0 };
    assert_eq!(expand(inside, 1, 0).0, Ok(0));
    assert_eq!(expand(inside, 1, 2), (Err(ExpansionError::InvalidState), 0));
    let costly = ProductState { dict_node_id: 0, query_byte_pos: 0, cost: 2 };
    assert_eq!(expand(costly, 1, 0), (Err(ExpansionError::InvalidState), 0));
    let mid_scalar = ProductState { dict_node_id: 0, query_byte_pos: 1, cost: 0 };
    assert_eq!(expand(mid_scalar, 1, 0), (Err(ExpansionError::InvalidState), 0));
    let past_end = ProductState { dict_node_id: 0, query_byte_pos: 4, cost: 0 };
    assert_eq!(expand(past_end, 1, 0), (Err(ExpansionError::InvalidState), 0));
}

#[test]
fn product_expansion_applies_each_operation_by_its_applicability() {
    // A transposition of two scalars applies only to the swapped dictionary pair.
    let operations = [Applicability::AdjacentTranspose];
    let prepared = prepare_operations(&[(2, 2)], &[1]);
    let d = snapshot(vec![vec![('b', 1), ('a', 3)], vec![('a', 2)], vec![], vec![('b', 4)], vec![]]);
    let product = ProductState { dict_node_id: 0, query_byte_pos: 0, cost: 0 };
    let mut budget = ExpansionBudget::new(GeneralizedWfstLimits::default());
    let expansion =
        expand_generalized_product(&prepared, &operations, "ab", product, 1, &d, 0, false, 1, 1, &mut budget).unwrap();
    assert_eq!(expansion.arcs.len(), 1);
    assert_eq!(expansion.arcs[0].target_node, PendingDictionaryNode::Staged(2));
    assert_eq!(expansion.arcs[0].output, vec!['b', 'a']);
    assert_eq!(expansion.arcs[0].input, vec!['a', 'b']);

    // A listed rewrite applies only to its listed pair.
    let operations = [listed(&[("ph", "f")])];
    let prepared = prepare_operations(&[(2, 1)], &[1]);
    let d = snapshot(vec![vec![('p', 1), ('f', 3)], vec![('h', 2)], vec![], vec![('x', 4)], vec![]]);
    let mut budget = ExpansionBudget::new(GeneralizedWfstLimits::default());
    let expansion =
        expand_generalized_product(&prepared, &operations, "f", product, 1, &d, 0, false, 1, 1, &mut budget).unwrap();
    assert_eq!(expansion.arcs.len(), 1);
    assert_eq!(expansion.arcs[0].output, vec!['p', 'h']);
    assert_eq!(expansion.arcs[0].query_byte_pos, 1);
}

#[test]
fn product_expansion_fails_exactly_past_the_work_ceiling() {
    let operations = [Applicability::Any];
    let prepared = prepare_operations(&[(1, 1)], &[0]);
    let d = snapshot(vec![vec![('a', 1)], vec![]]);
    let product = ProductState { dict_node_id: 0, query_byte_pos: 0, cost: 0 };
    let mut budget = ExpansionBudget::new(GeneralizedWfstLimits::default());
    expand_generalized_product(&prepared, &operations, "a", product, 0, &d, 0, false, 1, 1, &mut budget).unwrap();
    let needed = budget.work();
    let limits = GeneralizedWfstLimits { max_work_units_per_expansion: needed, ..GeneralizedWfstLimits::default() };
    let mut exact = ExpansionBudget::new(limits);
    assert!(expand_generalized_product(&prepared, &operations, "a", product, 0, &d, 0, false, 1, 1, &mut exact).is_ok());
    let limits = GeneralizedWfstLimits { max_work_units_per_expansion: needed - 1, ..limits };
    let mut short = ExpansionBudget::new(limits);
    assert!(matches!(
        expand_generalized_product(&prepared, &operations, "a", product, 0, &d, 0, false, 1, 1, &mut short),
        Err(ExpansionError::Resource(GeneralizedWfstError::LimitExceeded {
            resource: GeneralizedWfstResource::WorkUnitsPerExpansion,
            ..
        }))
    ));
}
