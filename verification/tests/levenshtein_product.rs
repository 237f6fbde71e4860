use duallity::levenshtein_expansion::{
    expand_product_state, expansion_reads_edges, expansion_target, final_distance_for_state,
    is_valid_product_state, product_states_hint, transposition_probe, DictionaryEdge,
    LevenshteinExpansion, LevenshteinTransition,
};
use duallity::node_registry::DictionaryNodeRegistry;
use duallity::state_codec::{EditAlgorithm, LevenshteinStateCodec};
use libdictenstein::dynamic_dawg::char::DynamicDawgChar;
use libdictenstein::{Dictionary, DictionaryNode};

struct Product<N> {
    codec: LevenshteinStateCodec,
    query: Vec<char>,
    registry: DictionaryNodeRegistry<N>,
}

fn product<D: Dictionary>(dict: &D, query: &str, max_distance: usize, algorithm: EditAlgorithm) -> Product<D::Node>
where
    <D::Node as DictionaryNode>::Unit: Into<char> + TryFrom<char> + Copy,
{
    let query: Vec<char> = query.chars().collect();
    Product {
        codec: LevenshteinStateCodec::new(query.len(), max_distance, algorithm),
        query,
        registry: DictionaryNodeRegistry::new(dict.root()),
    }
}

fn expand<N: DictionaryNode>(p: &mut Product<N>, state: u32) -> LevenshteinExpansion
where
    N::Unit: Into<char> + TryFrom<char> + Copy,
{
    let (node_is_final, edges) = match expansion_target(&p.codec, &p.registry, state) {
        None => (false, Vec::new()),
        Some((node_id, kind)) => {
            let node = p.registry.get_node(node_id).expect("registered").clone();
            let probe = transposition_probe(&p.codec, &p.query, kind);
            let edges = if expansion_reads_edges(&p.codec, &p.query, kind) {
                node.edges()
                    .map(|(unit, child)| {
                        let child_has_probe = probe
                            .and_then(|c| N::Unit::try_from(c).ok())
                            .is_some_and(|u| child.has_edge(u));
                        let child_has_edges = child.edges().next().is_some();
                        DictionaryEdge {
                            label: unit.into(),
                            child,
                            child_has_probe,
                            child_has_edges,
                        }
                    })
                    .collect()
            } else {
                Vec::new()
            };
            (node.is_final(), edges)
        }
    };
    expand_product_state(&p.codec, &p.query, &mut p.registry, state, node_is_final, edges)
}

fn arcs(e: &LevenshteinExpansion, input: Option<char>, output: Option<char>, cost: u32) -> Vec<u32> {
    e.transitions
        .iter()
        .filter(|t| t.input == input && t.output == output && t.cost == cost)
        .map(|t| t.to)
        .collect()
}

#[test]
fn test_state_source_does_not_register_pruned_normal_edges_at_max_distance() {
    let dict = DynamicDawgChar::<()>::from_terms(vec!["b"]);
    let mut p = product(&dict, "a", 0, EditAlgorithm::Standard);
    assert_eq!(p.registry.len(), 1);
    let start = expand(&mut p, 0);
    assert!(!start.transitions.iter().any(|t| t.output == Some('b')));
    assert_eq!(p.registry.len(), 1);
}

#[test]
fn exact_match_accepts_with_no_remaining_edits() {
    let dict = DynamicDawgChar::<()>::from_terms(vec!["ab"]);
    let mut p = product(&dict, "ab", 0, EditAlgorithm::Standard);
    let start = expand(&mut p, 0);
    assert_eq!(start.final_distance, None);
    let first = arcs(&start, Some('a'), Some('a'), 0);
    assert_eq!(first.len(), 1);
    let second_state = expand(&mut p, first[0]);
    let second = arcs(&second_state, Some('b'), Some('b'), 0);
    assert_eq!(second.len(), 1);
    let end = expand(&mut p, second[0]);
    assert_eq!(end.final_distance, Some(0));
    assert!(end.transitions.is_empty());
    assert_eq!(p.registry.len(), 3);
}

#[test]
fn all_transitions_leave_the_expanded_state() {
    let dict = DynamicDawgChar::<()>::from_terms(vec!["hello", "help", "world"]);
    let mut p = product(&dict, "helo", 2, EditAlgorithm::Standard);
    let start = expand(&mut p, 0);
    assert!(!start.transitions.is_empty());
    assert!(start.transitions.iter().all(|t: &LevenshteinTransition| t.from == 0));
    for t in &start.transitions {
        assert!(is_valid_product_state(&p.codec, &p.registry, t.to));
        assert!(t.cost <= 1);
    }
}

#[test]
fn deletion_stays_on_the_node_and_final_weights_count_remaining_query() {
    let dict = DynamicDawgChar::<()>::from_terms(vec!["a"]);
    let mut p = product(&dict, "abc", 2, EditAlgorithm::Standard);
    let start = expand(&mut p, 0);
    let matched = arcs(&start, Some('a'), Some('a'), 0);
    assert_eq!(matched.len(), 1);
    let after_a = expand(&mut p, matched[0]);
    assert_eq!(after_a.final_distance, Some(2));
    assert_eq!(
        final_distance_for_state(&p.codec, p.query.len(), &p.registry, matched[0], true),
        Some(2)
    );
    let deleted = arcs(&after_a, Some('b'), None, 1);
    assert_eq!(deleted.len(), 1);
    let after_delete = expand(&mut p, deleted[0]);
    assert_eq!(after_delete.final_distance, Some(1));
}

#[test]
fn test_levenshtein_wfst_transposition_reaches_final_state() {
    let dict = DynamicDawgChar::<()>::from_terms(vec!["ab"]);
    let mut p = product(&dict, "ba", 1, EditAlgorithm::Transposition);
    let start = expand(&mut p, 0);
    let mut reaches_final = false;
    for first in arcs(&start, Some('b'), Some('a'), 1) {
        let middle = expand(&mut p, first);
        for second in arcs(&middle, Some('a'), Some('b'), 0) {
            reaches_final |= expand(&mut p, second).final_distance == Some(0);
        }
    }
    assert!(reaches_final, "adjacent swap should accept at distance 1");
}

#[test]
fn test_levenshtein_wfst_merge_and_split_reaches_final_state() {
    let dict = DynamicDawgChar::<()>::from_terms(vec!["m"]);
    let mut p = product(&dict, "rn", 1, EditAlgorithm::MergeAndSplit);
    let start = expand(&mut p, 0);
    let mut reaches_final = false;
    for first in arcs(&start, Some('r'), Some('m'), 1) {
        let middle = expand(&mut p, first);
        for second in arcs(&middle, Some('n'), None, 0) {
            reaches_final |= expand(&mut p, second).final_distance == Some(0);
        }
    }
    assert!(reaches_final, "merge should accept at distance 1");
}

#[test]
fn split_emits_two_dictionary_characters_for_one_query_character() {
    let dict = DynamicDawgChar::<()>::from_terms(vec!["rn"]);
    let mut p = product(&dict, "m", 1, EditAlgorithm::MergeAndSplit);
    let start = expand(&mut p, 0);
    let mut reaches_final = false;
    for first in arcs(&start, Some('m'), Some('r'), 1) {
        let middle = expand(&mut p, first);
        for second in arcs(&middle, None, Some('n'), 0) {
            reaches_final |= expand(&mut p, second).final_distance == Some(0);
        }
    }
    assert!(reaches_final, "split should accept at distance 1");
}

#[test]
fn test_levenshtein_wfst_utf8_support() {
    let dict = DynamicDawgChar::<()>::from_terms(vec!["café", "naïve", "北京"]);
    let mut p = product(&dict, "cafe", 1, EditAlgorithm::Standard);
    let start = expand(&mut p, 0);
    assert!(!start.transitions.is_empty());
    assert!(p.registry.len() > 1);
}

#[test]
fn test_levenshtein_wfst_rejects_invalid_state_without_caching() {
    let dict = DynamicDawgChar::<()>::from_terms(vec!["test"]);
    let mut p = product(&dict, "test", 1, EditAlgorithm::Standard);
    let invalid_state = u32::MAX;
    assert!(!is_valid_product_state(&p.codec, &p.registry, invalid_state));
    let expansion = expand(&mut p, invalid_state);
    assert!(expansion.transitions.is_empty());
    assert_eq!(expansion.final_distance, None);
    assert_eq!(p.registry.len(), 1);
}

#[test]
fn test_state_source_hint_uses_registered_node_lower_bound() {
    let dict = DynamicDawgChar::<()>::from_terms(vec!["abcd"]);
    let mut p = product(&dict, "a", 0, EditAlgorithm::Standard);
    let _ = expand(&mut p, 0);
    let registered_nodes = p.registry.len();
    let automaton_states = p.codec.max_automaton_states() as usize;
    assert!(registered_nodes > dict.len().unwrap_or(0));
    assert_eq!(
        product_states_hint(&p.codec, &p.registry, dict.len()),
        Some(registered_nodes.saturating_mul(automaton_states))
    );
}
