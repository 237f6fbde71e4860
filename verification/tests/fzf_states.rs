use duallity::fzf_scorer::FzfScorer;
use duallity::fzf_states::{compute_registered_state, fzf_transition_deltas_fit, FzfStateRegistry};
use duallity::fzf_support::{FzfConfig, FzfCore};
use libdictenstein::dynamic_dawg::char::DynamicDawgChar;
use libdictenstein::{Dictionary, DictionaryNode};

type Node = <DynamicDawgChar<()> as Dictionary>::Node;

fn edges_of(registry: &FzfStateRegistry<Node>, state: u32) -> (bool, Vec<(char, Node)>) {
    let registered = registry.get(state).expect("registered state");
    let edges = registered.node.edges().map(|(unit, child)| (unit.into(), child)).collect();
    (registered.node.is_final(), edges)
}

#[test]
fn registry_keys_children_by_full_parent_path_state() {
    let dictionary = DynamicDawgChar::<()>::from_terms(["a"]);
    let core = FzfCore::new("a", FzfConfig::default()).expect("short query is valid");
    let root = dictionary.root();
    let child = root.edges().next().expect("fixture has one edge").1;
    let column = core.advance(&core.initial_column(), 'a');
    let mut registry = FzfStateRegistry::new(root, core.initial_column());
    assert_eq!(registry.register_child(0, 'a', child.clone(), column.clone()), Some(1));
    assert_eq!(registry.register_child(0, 'a', child, column), Some(1));
    assert_eq!(registry.len(), 2);
}

#[test]
fn transition_weights_telescope_to_exact_score() {
    let dictionary = DynamicDawgChar::<()>::from_terms(["foo/bar/baz"]);
    let core = FzfCore::new("fbb", FzfConfig::default()).expect("short query is valid");
    let mut registry = FzfStateRegistry::new(dictionary.root(), core.initial_column());
    let mut state = 0;
    let mut accumulated: i64 = 0;
    for expected in "foo/bar/baz".chars() {
        let (node_is_final, edges) = edges_of(&registry, state);
        assert!(fzf_transition_deltas_fit(&core, &registry, state, &edges));
        let expansion = compute_registered_state(&core, &mut registry, state, node_is_final, edges)
            .expect("registered state expands");
        let transition = expansion
            .transitions
            .iter()
            .find(|transition| transition.label == expected)
            .expect("fixture path is present");
        accumulated += i64::from(transition.delta);
        state = transition.to;
    }
    let (node_is_final, edges) = edges_of(&registry, state);
    let last = compute_registered_state(&core, &mut registry, state, node_is_final, edges).expect("registered");
    assert!(last.is_final);
    let expected = FzfScorer::new("fbb")
        .expect("short query is valid")
        .score("foo/bar/baz")
        .expect("candidate is bounded")
        .expect("candidate matches")
        .score;
    assert_eq!(accumulated, i64::from(expected));
    assert_eq!(i64::from(registry.get(state).expect("registered").path_score), accumulated);
}

#[test]
fn unregistered_fzf_state_expands_to_nothing() {
    let dictionary = DynamicDawgChar::<()>::from_terms(["ab"]);
    let core = FzfCore::new("a", FzfConfig::default()).expect("short query is valid");
    let mut registry = FzfStateRegistry::new(dictionary.root(), core.initial_column());
    assert!(compute_registered_state(&core, &mut registry, 5, false, Vec::new()).is_none());
    assert_eq!(registry.len(), 1);
}

#[test]
fn fzf_states_are_shared_by_equal_path_steps_and_accept_only_matches() {
    let dictionary = DynamicDawgChar::<()>::from_terms(["ab", "b"]);
    let core = FzfCore::new("b", FzfConfig::default()).expect("short query is valid");
    let mut registry = FzfStateRegistry::new(dictionary.root(), core.initial_column());
    let (node_is_final, edges) = edges_of(&registry, 0);
    let first = compute_registered_state(&core, &mut registry, 0, node_is_final, edges).expect("root expands");
    assert!(!first.is_final);
    assert_eq!(first.transitions.len(), 2);
    let (node_is_final, edges) = edges_of(&registry, 0);
    let again = compute_registered_state(&core, &mut registry, 0, node_is_final, edges).expect("root expands");
    assert_eq!(
        again.transitions.iter().map(|t| t.to).collect::<Vec<_>>(),
        first.transitions.iter().map(|t| t.to).collect::<Vec<_>>()
    );
    assert_eq!(registry.len(), 3);

    let via_a = first.transitions.iter().find(|t| t.label == 'a').expect("edge a");
    assert_eq!(via_a.delta, 0);
    let (node_is_final, edges) = edges_of(&registry, via_a.to);
    let after_a = compute_registered_state(&core, &mut registry, via_a.to, node_is_final, edges).expect("expands");
    assert!(!after_a.is_final);
    let via_b = after_a.transitions.iter().find(|t| t.label == 'b').expect("edge b");
    assert!(via_b.delta > 0);
    let (node_is_final, edges) = edges_of(&registry, via_b.to);
    let end = compute_registered_state(&core, &mut registry, via_b.to, node_is_final, edges).expect("expands");
    assert!(end.is_final);
}

#[test]
fn expanded_children_hold_their_edge_nodes() {
    let dictionary = DynamicDawgChar::<()>::from_terms(["ab", "b"]);
    let core = FzfCore::new("b", FzfConfig::default()).expect("short query is valid");
    let mut registry = FzfStateRegistry::new(dictionary.root(), core.initial_column());
    let (node_is_final, edges) = edges_of(&registry, 0);
    let expected: Vec<(char, bool)> = edges.iter().map(|(label, node)| (*label, node.is_final())).collect();
    let expansion = compute_registered_state(&core, &mut registry, 0, node_is_final, edges).expect("root expands");
    assert_eq!(expansion.transitions.len(), expected.len());
    for (transition, (label, is_final)) in expansion.transitions.iter().zip(expected) {
        assert_eq!(transition.label, label);
        assert_eq!(registry.get(transition.to).expect("registered child").node.is_final(), is_final);
    }
}
