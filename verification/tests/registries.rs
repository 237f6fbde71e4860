use duallity::node_key::DictionaryNodeKey;
use duallity::node_registry::{next_registry_id, DepthDictionaryNodeRegistry, DictionaryNodeRegistry};
use libdictenstein::dynamic_dawg::char::DynamicDawgChar;
use libdictenstein::Dictionary;

#[test]
fn child_keys_are_distinct_from_root() {
    assert_ne!(DictionaryNodeKey::root(), DictionaryNodeKey::child(0, '\0'));
    assert_ne!(
        DictionaryNodeKey::root(),
        DictionaryNodeKey::child(u32::MAX, char::MAX)
    );
}

#[test]
fn child_keys_encode_parent_and_label() {
    assert_ne!(
        DictionaryNodeKey::child(1, 'a'),
        DictionaryNodeKey::child(2, 'a')
    );
    assert_ne!(
        DictionaryNodeKey::child(1, 'a'),
        DictionaryNodeKey::child(1, 'b')
    );
    assert_eq!(
        DictionaryNodeKey::child(1, 'a'),
        DictionaryNodeKey::child(1, 'a')
    );
}

#[test]
fn child_key_packs_parent_above_the_label() {
    assert_eq!(DictionaryNodeKey::child(1, 'a').raw(), (1u64 << 21) | 97);
    assert_eq!(DictionaryNodeKey::root().raw(), u64::MAX);
}

#[test]
fn dictionary_node_registry_preallocates_and_reuses_root_id() {
    let dict = DynamicDawgChar::<()>::from_terms(vec!["a"]);
    let root = dict.root();
    let mut registry = DictionaryNodeRegistry::new(root.clone());

    assert!(registry.get_node(0).is_some());
    assert_eq!(registry.len(), 1);
    assert!(registry.node_capacity() >= 1);
    assert!(registry.key_capacity() >= 1);
    assert_eq!(
        registry.register_node(root, DictionaryNodeKey::root()),
        Some(0)
    );
}

#[test]
fn depth_registry_reuses_existing_depth_for_existing_key() {
    let dict = DynamicDawgChar::<()>::from_terms(vec!["a"]);
    let root = dict.root();
    let mut registry = DepthDictionaryNodeRegistry::new(root.clone());

    assert_eq!(registry.len(), 1);
    assert_eq!(
        registry.register_node(root, DictionaryNodeKey::root(), 99),
        Some(0)
    );
    assert_eq!(registry.len(), 1);
    assert_eq!(registry.get_depth(0), Some(0));
}

#[test]
fn depth_registry_records_new_depths() {
    let mut registry = DepthDictionaryNodeRegistry::new("root");
    assert_eq!(
        registry.register_node("child", DictionaryNodeKey::child(0, 'x'), 1),
        Some(1)
    );
    assert_eq!(registry.get_depth(1), Some(1));
    assert_eq!(registry.get_node(1), Some(&"child"));
    assert_eq!(registry.get_depth(2), None);
}

#[test]
fn next_registry_id_rejects_unrepresentable_len() {
    let Ok(max_u32) = usize::try_from(u32::MAX) else {
        return;
    };
    assert_eq!(next_registry_id(max_u32), Some(u32::MAX));

    if let Some(above_max_u32) = max_u32.checked_add(1) {
        assert_eq!(next_registry_id(above_max_u32), None);
    }
}

#[test]
fn candidate_id_reuses_existing_or_reports_next_insert_id() {
    let dict = DynamicDawgChar::<()>::from_terms(vec!["a"]);
    let root = dict.root();
    let mut registry = DictionaryNodeRegistry::new(root.clone());

    assert_eq!(registry.candidate_id(DictionaryNodeKey::root()), Some(0));
    assert_eq!(
        registry.candidate_id(DictionaryNodeKey::child(0, 'a')),
        Some(1)
    );

    assert_eq!(
        registry.register_node(root, DictionaryNodeKey::child(0, 'a')),
        Some(1)
    );
    assert_eq!(
        registry.candidate_id(DictionaryNodeKey::child(0, 'b')),
        Some(2)
    );
}

#[test]
fn registered_key_resolves_to_its_id_and_node() {
    let mut registry = DictionaryNodeRegistry::new(10u32);
    let key = DictionaryNodeKey::child(0, 'q');
    let predicted = registry.candidate_id(key);
    let id = registry.register_node(20u32, key);
    assert_eq!(id, predicted);
    assert_eq!(registry.get_id(key), id);
    assert_eq!(registry.get_node(id.unwrap()), Some(&20u32));
    assert_eq!(registry.register_node(30u32, key), id);
    assert_eq!(registry.get_node(id.unwrap()), Some(&20u32));
}
