use duallity::node_registry::DictionaryNodeRegistry;
use duallity::successor_commit::{
    commit_pending_successors, PendingSuccessor, SuccessorRegistry, SuccessorTransition,
};

fn pending(label: char, node: &'static str, key: Vec<u32>, successor: &'static str) -> PendingSuccessor<&'static str, &'static str> {
    PendingSuccessor { label, node, key, successor }
}

#[test]
fn pending_successors_register_only_encodable_pairs() {
    let mut nodes = DictionaryNodeRegistry::new("root");
    let mut successors = SuccessorRegistry::new(vec![0], "start");
    let edges = vec![
        pending('a', "a-node", vec![1], "one"),
        pending('b', "b-node", vec![0], "start again"),
        pending('c', "c-node", vec![2], "two"),
    ];
    let transitions = commit_pending_successors(&mut nodes, &mut successors, 0, 2, Some('q'), edges);
    assert_eq!(
        transitions,
        vec![
            SuccessorTransition { input: Some('q'), output: 'a', to: 3 },
            SuccessorTransition { input: Some('q'), output: 'b', to: 4 },
        ]
    );
    assert_eq!(nodes.len(), 3);
    assert_eq!(successors.len(), 2);
    assert_eq!(successors.get(0), Some(&"start"));
    assert_eq!(successors.get(1), Some(&"one"));
    assert_eq!(successors.candidate_id(&vec![2]), Some(2));
}

#[test]
fn successor_registry_reuses_known_keys() {
    let mut successors = SuccessorRegistry::new(vec![7, 8], "start");
    assert_eq!(successors.register(vec![7, 8], "other"), Some(0));
    assert_eq!(successors.register(vec![9], "nine"), Some(1));
    assert_eq!(successors.register(vec![9], "again"), Some(1));
    assert_eq!(successors.get(1), Some(&"nine"));
    assert_eq!(successors.get(2), None);
}
