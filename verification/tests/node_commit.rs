use duallity::generalized_expansion::PendingOperationArc;
use duallity::generalized_limits::{
    ExpansionBudget, GeneralizedWfstError, GeneralizedWfstLimits, GeneralizedWfstResource, PendingDictionaryNode,
};
use duallity::generalized_states::StateRegistry;
use duallity::node_commit::{commit_expansion, commit_node_additions, resolve_staged_nodes, StagedNode};
use duallity::node_key::DictionaryNodeKey;
use duallity::node_registry::DictionaryNodeRegistry;

fn staged_nodes() -> Vec<StagedNode<&'static str>> {
    vec![
        StagedNode { parent: PendingDictionaryNode::Registered(0), label: 'a', node: "a" },
        StagedNode { parent: PendingDictionaryNode::Staged(0), label: 'b', node: "ab" },
        StagedNode { parent: PendingDictionaryNode::Registered(0), label: 'a', node: "a again" },
    ]
}

fn arc_into(target: PendingDictionaryNode) -> PendingOperationArc {
    PendingOperationArc {
        target_node: target,
        query_byte_pos: 1,
        cost: 0,
        input: vec!['a'],
        output: vec!['b'],
        operation: 0,
    }
}

#[test]
fn staged_nodes_receive_dense_ids_once_per_path_key() {
    let registry = DictionaryNodeRegistry::new("root");
    let mut budget = ExpansionBudget::new(GeneralizedWfstLimits::default());
    let (ids, additions) = resolve_staged_nodes(&registry, staged_nodes(), 10, &mut budget).unwrap();
    assert_eq!(ids, vec![1, 2, 1]);
    assert_eq!(additions.len(), 2);
    assert_eq!(additions[0].0, DictionaryNodeKey::child(0, 'a'));
    assert_eq!(additions[1].0, DictionaryNodeKey::child(1, 'b'));
    assert_eq!(additions[1].1, "ab");
    assert_eq!(budget.work(), 3);
    // Nothing is registered until the additions are committed.
    assert_eq!(registry.len(), 1);

    let mut registry = registry;
    commit_node_additions(&mut registry, additions);
    assert_eq!(registry.len(), 3);
    assert_eq!(registry.get_id(DictionaryNodeKey::child(0, 'a')), Some(1));
    assert_eq!(registry.get_id(DictionaryNodeKey::child(1, 'b')), Some(2));
    assert_eq!(registry.get_node(2), Some(&"ab"));
}

#[test]
fn staged_nodes_reuse_registered_ids() {
    let mut registry = DictionaryNodeRegistry::new("root");
    assert_eq!(registry.register_node("a", DictionaryNodeKey::child(0, 'a')), Some(1));
    let mut budget = ExpansionBudget::new(GeneralizedWfstLimits::default());
    let (ids, additions) = resolve_staged_nodes(&registry, staged_nodes(), 10, &mut budget).unwrap();
    assert_eq!(ids, vec![1, 2, 1]);
    assert_eq!(additions.len(), 1);
    assert_eq!(additions[0].0, DictionaryNodeKey::child(1, 'b'));
}

#[test]
fn staged_nodes_stop_at_the_retained_node_ceiling() {
    let registry = DictionaryNodeRegistry::new("root");
    let mut budget = ExpansionBudget::new(GeneralizedWfstLimits::default());
    assert_eq!(
        resolve_staged_nodes(&registry, staged_nodes(), 2, &mut budget).map(|(ids, _)| ids),
        Err(GeneralizedWfstError::LimitExceeded {
            resource: GeneralizedWfstResource::RetainedDictionaryNodes,
            limit: 2,
            required: 3,
        })
    );
    let limits = GeneralizedWfstLimits { max_work_units_per_expansion: 2, ..GeneralizedWfstLimits::default() };
    let mut short = ExpansionBudget::new(limits);
    assert_eq!(
        resolve_staged_nodes(&registry, staged_nodes(), 10, &mut short).map(|(ids, _)| ids),
        Err(GeneralizedWfstError::LimitExceeded {
            resource: GeneralizedWfstResource::WorkUnitsPerExpansion,
            limit: 2,
            required: 3,
        })
    );
}

#[test]
fn commit_publishes_nodes_and_states_together() {
    let mut nodes = DictionaryNodeRegistry::new("root");
    let mut states = StateRegistry::new();
    let mut budget = ExpansionBudget::new(GeneralizedWfstLimits::default());
    let arcs = vec![arc_into(PendingDictionaryNode::Staged(1)), arc_into(PendingDictionaryNode::Registered(0))];
    let transitions =
        commit_expansion(&mut nodes, &mut states, staged_nodes(), arcs, 10, 10, &mut budget).unwrap();
    assert_eq!(transitions.len(), 2);
    assert_eq!(nodes.len(), 3);
    assert_eq!(states.len(), 3);
    assert_eq!(transitions[0].to, 1);
    assert_eq!(transitions[1].to, 2);
    assert_eq!(transitions[0].input, Some('a'));
    assert_eq!(transitions[0].output, Some('b'));
}

#[test]
fn failed_commit_publishes_nothing() {
    // The node ceiling refuses the batch.
    let mut nodes = DictionaryNodeRegistry::new("root");
    let mut states = StateRegistry::new();
    let mut budget = ExpansionBudget::new(GeneralizedWfstLimits::default());
    let arcs = vec![arc_into(PendingDictionaryNode::Staged(1))];
    assert!(commit_expansion(&mut nodes, &mut states, staged_nodes(), arcs, 2, 10, &mut budget).is_err());
    assert_eq!(nodes.len(), 1);
    assert_eq!(states.len(), 1);

    // The state ceiling refuses the batch after the nodes resolved.
    let mut budget = ExpansionBudget::new(GeneralizedWfstLimits::default());
    let arcs = vec![arc_into(PendingDictionaryNode::Staged(1))];
    assert!(commit_expansion(&mut nodes, &mut states, staged_nodes(), arcs, 10, 1, &mut budget).is_err());
    assert_eq!(nodes.len(), 1);
    assert_eq!(states.len(), 1);
}

#[test]
fn multi_label_transitions_enter_their_emission_chain() {
    let mut nodes = DictionaryNodeRegistry::new("root");
    let mut states = StateRegistry::new();
    let mut budget = ExpansionBudget::new(GeneralizedWfstLimits::default());
    let arc = PendingOperationArc {
        target_node: PendingDictionaryNode::Staged(1),
        query_byte_pos: 2,
        cost: 1,
        input: vec!['a', 'b'],
        output: vec!['x'],
        operation: 3,
    };
    let transitions =
        commit_expansion(&mut nodes, &mut states, staged_nodes(), vec![arc], 10, 10, &mut budget).unwrap();
    assert_eq!(transitions.len(), 1);
    // The target product is staged first, then the chain's continuation.
    assert_eq!(states.len(), 3);
    assert_eq!(transitions[0].to, 2);
    assert_eq!(transitions[0].input, Some('a'));
    assert_eq!(transitions[0].output, Some('x'));
    assert_eq!(transitions[0].operation, 3);
}
