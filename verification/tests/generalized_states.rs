use duallity::generalized_expansion::{stage_operation_arcs, OperationTransition, PendingOperationArc};
use duallity::generalized_limits::{
    ExpansionBudget, GeneralizedWfstError, GeneralizedWfstLimits, GeneralizedWfstResource, PendingDictionaryNode,
};
use duallity::generalized_states::{EmissionChain, ProductState, RegisteredState, StateBatch, StateRegistry};

fn product(node: u32, pos: usize, cost: usize) -> ProductState {
    ProductState { dict_node_id: node, query_byte_pos: pos, cost }
}

fn chain(input: &str, output: &str, target: u32) -> EmissionChain {
    EmissionChain { input: input.chars().collect(), output: output.chars().collect(), target }
}

#[test]
fn registry_starts_with_the_start_product_under_id_zero() {
    let registry = StateRegistry::new();
    assert_eq!(registry.len(), 1);
    assert_eq!(registry.product_id(product(0, 0, 0)), Some(0));
    assert_eq!(registry.product_id(product(1, 0, 0)), None);
    assert!(matches!(registry.get(0), Some(RegisteredState::Product(p)) if *p == product(0, 0, 0)));
    assert!(registry.get(1).is_none());
    assert_eq!(registry.chain_id(&chain("ab", "c", 0)), None);
}

#[test]
fn batch_products_reuse_registered_and_staged_ids() {
    let registry = StateRegistry::new();
    let mut batch = StateBatch::new();
    assert_eq!(batch.product(&registry, product(0, 0, 0), 100), Ok(0));
    assert_eq!(batch.len(), 0);
    assert_eq!(batch.product(&registry, product(3, 1, 2), 100), Ok(1));
    assert_eq!(batch.product(&registry, product(4, 1, 2), 100), Ok(2));
    assert_eq!(batch.product(&registry, product(3, 1, 2), 100), Ok(1));
    assert_eq!(batch.len(), 2);
}

#[test]
fn batch_products_respect_the_retained_state_limit() {
    let registry = StateRegistry::new();
    let mut batch = StateBatch::new();
    assert_eq!(
        batch.product(&registry, product(3, 1, 2), 1),
        Err(GeneralizedWfstError::LimitExceeded {
            resource: GeneralizedWfstResource::RetainedWfstStates,
            limit: 1,
            required: 2,
        })
    );
    assert_eq!(batch.len(), 0);
    assert_eq!(batch.product(&registry, product(3, 1, 2), 2), Ok(1));
}

#[test]
fn single_pair_chains_lead_straight_to_their_target() {
    let registry = StateRegistry::new();
    let mut batch = StateBatch::new();
    assert_eq!(batch.chain(&registry, chain("a", "b", 7), 100), Ok(7));
    assert_eq!(batch.chain(&registry, chain("", "", 9), 100), Ok(9));
    assert_eq!(batch.len(), 0);
}

#[test]
fn multi_pair_chains_stage_one_continuation_per_extra_pair() {
    let mut registry = StateRegistry::new();
    let mut batch = StateBatch::new();
    let target = batch.product(&registry, product(5, 3, 1), 100).unwrap();
    assert_eq!(target, 1);
    assert_eq!(batch.chain(&registry, chain("abc", "x", target), 100), Ok(2));
    assert_eq!(batch.len(), 3);
    assert_eq!(batch.chain(&registry, chain("abc", "x", target), 100), Ok(2));
    assert_eq!(batch.len(), 3);
    assert_eq!(batch.prepare_registry(&mut registry), Ok(()));
    registry.commit_prepared(batch.into_states());
    assert_eq!(registry.len(), 4);
    match registry.get(2) {
        Some(RegisteredState::Emit(e)) => {
            assert_eq!(e.position, 1);
            assert_eq!(e.next, 3);
            assert_eq!(e.chain.target, 1);
        }
        other => panic!("expected a continuation, got {other:?}"),
    }
    match registry.get(3) {
        Some(RegisteredState::Emit(e)) => {
            assert_eq!(e.position, 2);
            assert_eq!(e.next, 1);
        }
        other => panic!("expected a continuation, got {other:?}"),
    }
}

#[test]
fn committing_a_batch_keeps_every_staged_id() {
    let mut registry = StateRegistry::new();
    let mut batch = StateBatch::new();
    let a = batch.product(&registry, product(2, 1, 0), 100).unwrap();
    let b = batch.product(&registry, product(2, 2, 1), 100).unwrap();
    let c = batch.chain(&registry, chain("xy", "z", b), 100).unwrap();
    registry.commit_prepared(batch.into_states());
    assert_eq!(registry.product_id(product(2, 1, 0)), Some(a));
    assert_eq!(registry.product_id(product(2, 2, 1)), Some(b));
    assert_eq!(registry.chain_id(&chain("xy", "z", b)), Some(c));
    assert_eq!(registry.product_id(product(0, 0, 0)), Some(0));
    let mut next = StateBatch::new();
    assert_eq!(next.product(&registry, product(2, 1, 0), 100), Ok(a));
    assert_eq!(next.chain(&registry, chain("xy", "z", b), 100), Ok(c));
    assert_eq!(next.product(&registry, product(9, 9, 9), 100), Ok(4));
}

#[test]
fn chains_that_would_pass_the_limit_stage_nothing() {
    let registry = StateRegistry::new();
    let mut batch = StateBatch::new();
    assert_eq!(
        batch.chain(&registry, chain("abcd", "", 0), 3),
        Err(GeneralizedWfstError::LimitExceeded {
            resource: GeneralizedWfstResource::RetainedWfstStates,
            limit: 3,
            required: 4,
        })
    );
    assert_eq!(batch.len(), 0);
    assert_eq!(batch.chain(&registry, chain("abcd", "", 0), 4), Ok(1));
    assert_eq!(batch.len(), 3);
}

fn arc(
    target_node: PendingDictionaryNode,
    query_byte_pos: usize,
    cost: usize,
    input: &str,
    output: &str,
    operation: usize,
) -> PendingOperationArc {
    PendingOperationArc {
        target_node,
        query_byte_pos,
        cost,
        input: input.chars().collect(),
        output: output.chars().collect(),
        operation,
    }
}

#[test]
fn pending_arcs_become_transitions_into_staged_states() {
    let mut registry = StateRegistry::new();
    let mut batch = StateBatch::new();
    let mut budget = ExpansionBudget::new(GeneralizedWfstLimits::default());
    let arcs = vec![
        arc(PendingDictionaryNode::Registered(0), 1, 2, "a", "b", 3),
        arc(PendingDictionaryNode::Staged(0), 2, 0, "ab", "c", 1),
        arc(PendingDictionaryNode::Registered(0), 0, 0, "", "", 4),
        arc(PendingDictionaryNode::Registered(0), 1, 2, "a", "", 5),
    ];
    let transitions = stage_operation_arcs(&registry, &mut batch, arcs, &[5], 100, &mut budget).unwrap();
    assert_eq!(
        transitions,
        vec![
            OperationTransition { input: Some('a'), output: Some('b'), to: 1, operation: 3 },
            OperationTransition { input: Some('a'), output: Some('c'), to: 3, operation: 1 },
            OperationTransition { input: None, output: None, to: 0, operation: 4 },
            OperationTransition { input: Some('a'), output: None, to: 1, operation: 5 },
        ]
    );
    assert_eq!(budget.work(), (1 + 8 * 2) + (1 + 8 * 3) + 1 + (1 + 8));
    assert_eq!(batch.len(), 3);
    registry.commit_prepared(batch.into_states());
    assert_eq!(registry.product_id(product(5, 2, 0)), Some(2));
    assert_eq!(registry.chain_id(&chain("ab", "c", 2)), Some(3));
}

#[test]
fn pending_arcs_stop_at_the_work_ceiling() {
    let registry = StateRegistry::new();
    let mut batch = StateBatch::new();
    let limits = GeneralizedWfstLimits { max_work_units_per_expansion: 10, ..GeneralizedWfstLimits::default() };
    let mut budget = ExpansionBudget::new(limits);
    let arcs = vec![arc(PendingDictionaryNode::Registered(0), 1, 2, "a", "b", 3)];
    assert_eq!(
        stage_operation_arcs(&registry, &mut batch, arcs, &[], 100, &mut budget),
        Err(GeneralizedWfstError::LimitExceeded {
            resource: GeneralizedWfstResource::WorkUnitsPerExpansion,
            limit: 10,
            required: 17,
        })
    );
    assert_eq!(batch.len(), 0);
}
