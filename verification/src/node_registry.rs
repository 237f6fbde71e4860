//! Stable dense IDs for dictionary nodes.
//!
//! Nodes are interned by the exact path step that discovers them: a forward
//! key-to-ID map, and the reverse ID-to-node vector used by later expansion.
use vstd::prelude::*;
use rustc_hash::FxHashMap;
use crate::fx_map::{fx_capacity, fx_get, fx_insert, fx_map_with_capacity, vec_capacity};
use crate::node_key::DictionaryNodeKey;

verus! {

/// The ID the next registered entry receives when `len` are registered:
/// `len` itself, when it fits in a `u32`.
pub fn next_registry_id(len: usize) -> (r: Option<u32>)
    ensures
        r == (if len <= u32::MAX { Some(len as u32) } else { None::<u32> }),
{
    if len <= 0xffff_ffffusize { Some(len as u32) } else { None }
}

/// Registry of dictionary nodes by path key.
pub struct DictionaryNodeRegistry<N> {
    node_to_id: FxHashMap<u64, u32>,
    id_to_node: Vec<N>,
}

impl<N> DictionaryNodeRegistry<N> {
    /// The registered keys and their IDs.
    pub closed spec fn spec_ids(self) -> Map<u64, u32> {
        self.node_to_id@
    }

    /// The registered nodes, by ID.
    pub closed spec fn spec_nodes(self) -> Seq<N> {
        self.id_to_node@
    }

    /// IDs are dense: every key maps to a distinct ID below the node count,
    /// and every ID belongs to one key.
    pub closed spec fn wf(self) -> bool {
        &&& self.node_to_id@.dom().finite()
        &&& self.node_to_id@.len() == self.id_to_node@.len()
        &&& self.id_to_node@.len() <= u32::MAX + 1
        &&& forall|k: u64| #[trigger] self.node_to_id@.contains_key(k) ==> self.node_to_id@[k] < self.id_to_node@.len()
        &&& forall|k1: u64, k2: u64| #[trigger] self.node_to_id@.contains_key(k1) && #[trigger] self.node_to_id@.contains_key(k2)
                && self.node_to_id@[k1] == self.node_to_id@[k2] ==> k1 == k2
    }

    /// The registry that holds only `root`, under the root key, with ID 0.
    pub fn new(root: N) -> (r: Self)
        ensures
            r.wf(),
            r.spec_ids() == Map::<u64, u32>::empty().insert(u64::MAX, 0),
            r.spec_nodes() == seq![root],
    {
        let mut registry = DictionaryNodeRegistry { node_to_id: fx_map_with_capacity(1), id_to_node: Vec::with_capacity(1) };
        assert(registry.node_to_id@ =~= Map::<u64, u32>::empty());
        let _ = registry.register_node(root, DictionaryNodeKey::root());
        registry
    }

    /// Register `node` under `key`: the existing ID when the key is known
    /// (the registry is then unchanged), otherwise the next dense ID, or
    /// `None` when IDs are exhausted.
    pub fn register_node(&mut self, node: N, key: DictionaryNodeKey) -> (r: Option<u32>)
        requires
            old(self).wf(),
        ensures
            final(self).wf(),
            if old(self).spec_ids().contains_key(key.0) {
                &&& r == Some(old(self).spec_ids()[key.0])
                &&& final(self).spec_ids() == old(self).spec_ids()
                &&& final(self).spec_nodes() == old(self).spec_nodes()
            } else if old(self).spec_nodes().len() <= u32::MAX {
                &&& r == Some(old(self).spec_nodes().len() as u32)
                &&& final(self).spec_ids() == old(self).spec_ids().insert(key.0, old(self).spec_nodes().len() as u32)
                &&& final(self).spec_nodes() == old(self).spec_nodes().push(node)
            } else {
                &&& r is None
                &&& final(self).spec_ids() == old(self).spec_ids()
                &&& final(self).spec_nodes() == old(self).spec_nodes()
            },
    {
        if let Some(id) = self.get_id(key) {
            return Some(id);
        }
        let id: u32 = match next_registry_id(self.id_to_node.len()) {
            Some(id) => id,
            None => return None,
        };
        let _ = fx_insert(&mut self.node_to_id, key.0, id);
        self.id_to_node.push(node);
        proof {
            assert forall|k1: u64, k2: u64| #[trigger] self.node_to_id@.contains_key(k1) && #[trigger] self.node_to_id@.contains_key(k2)
                && self.node_to_id@[k1] == self.node_to_id@[k2] implies k1 == k2 by {
                if k1 != key.0 && k2 != key.0 {
                    assert(old(self).node_to_id@.contains_key(k1) && old(self).node_to_id@.contains_key(k2));
                }
            }
        }
        Some(id)
    }

    /// The ID `key` has, or would receive if registered now.
    pub fn candidate_id(&self, key: DictionaryNodeKey) -> (r: Option<u32>)
        requires
            self.wf(),
        ensures
            r == (if self.spec_ids().contains_key(key.0) {
                Some(self.spec_ids()[key.0])
            } else if self.spec_nodes().len() <= u32::MAX {
                Some(self.spec_nodes().len() as u32)
            } else {
                None::<u32>
            }),
    {
        match self.get_id(key) {
            Some(id) => Some(id),
            None => next_registry_id(self.id_to_node.len()),
        }
    }

    /// The node registered with ID `id`.
    pub fn get_node(&self, id: u32) -> (r: Option<&N>)
        ensures
            match r {
                Some(n) => id < self.spec_nodes().len() && *n == self.spec_nodes()[id as int],
                None => id >= self.spec_nodes().len(),
            },
    {
        let index: usize = id as usize;
        if index < self.id_to_node.len() { Some(&self.id_to_node[index]) } else { None }
    }

    /// The ID registered for `key`.
    pub fn get_id(&self, key: DictionaryNodeKey) -> (r: Option<u32>)
        ensures
            r == (if self.spec_ids().contains_key(key.0) { Some(self.spec_ids()[key.0]) } else { None::<u32> }),
    {
        match fx_get(&self.node_to_id, &key.0) {
            Some(id) => Some(*id),
            None => None,
        }
    }

    /// A well-formed registry numbers its nodes within `u32`, and every
    /// registered key names one of them.
    pub proof fn lemma_ids_name_nodes(self)
        requires
            self.wf(),
        ensures
            self.spec_nodes().len() <= u32::MAX + 1,
            forall|k: u64| #[trigger] self.spec_ids().contains_key(k) ==> self.spec_ids()[k] < self.spec_nodes().len(),
    {
    }

    /// Number of registered nodes.
    pub fn len(&self) -> (r: usize)
        ensures
            r == self.spec_nodes().len(),
    {
        self.id_to_node.len()
    }

    /// Nodes the reverse vector holds without reallocating.
    pub fn node_capacity(&self) -> (r: usize)
        ensures
            r >= self.spec_nodes().len(),
    {
        vec_capacity(&self.id_to_node)
    }

    /// Keys the forward map holds without reallocating.
    pub fn key_capacity(&self) -> (r: usize)
        requires
            self.wf(),
        ensures
            r >= self.spec_ids().len(),
    {
        fx_capacity(&self.node_to_id)
    }
}

/// Registering a node makes its key resolve to its ID and its ID to the node
/// kept for the key; the ID is the one `candidate_id` predicted.
pub proof fn lemma_register_then_lookup<N>(
    before: DictionaryNodeRegistry<N>, after: DictionaryNodeRegistry<N>, node: N, key: u64, r: Option<u32>)
    requires
        before.wf(),
        after.wf(),
        !before.spec_ids().contains_key(key),
        before.spec_nodes().len() <= u32::MAX,
        r == Some(before.spec_nodes().len() as u32),
        after.spec_ids() == before.spec_ids().insert(key, before.spec_nodes().len() as u32),
        after.spec_nodes() == before.spec_nodes().push(node),
    ensures
        after.spec_ids()[key] == r->0,
        after.spec_nodes()[r->0 as int] == node,
        forall|k: u64| #[trigger] before.spec_ids().contains_key(k)
            ==> after.spec_ids()[k] == before.spec_ids()[k]
                && after.spec_nodes()[after.spec_ids()[k] as int] == before.spec_nodes()[before.spec_ids()[k] as int],
{
}

/// Dictionary-node registry that also tracks each node's character depth.
pub struct DepthDictionaryNodeRegistry<N> {
    nodes: DictionaryNodeRegistry<N>,
    id_to_depth: Vec<usize>,
}

impl<N> DepthDictionaryNodeRegistry<N> {
    /// The node registry.
    pub closed spec fn spec_registry(self) -> DictionaryNodeRegistry<N> {
        self.nodes
    }

    /// The depth of each registered node, by ID.
    pub closed spec fn spec_depths(self) -> Seq<usize> {
        self.id_to_depth@
    }

    /// One depth per registered node.
    pub closed spec fn wf(self) -> bool {
        &&& self.nodes.wf()
        &&& self.id_to_depth@.len() == self.nodes.spec_nodes().len()
    }

    /// The registry that holds only `root`, with ID 0 and depth 0.
    pub fn new(root: N) -> (r: Self)
        ensures
            r.wf(),
            r.spec_registry().spec_ids() == Map::<u64, u32>::empty().insert(u64::MAX, 0),
            r.spec_registry().spec_nodes() == seq![root],
            r.spec_depths() == seq![0usize],
    {
        let nodes = DictionaryNodeRegistry::new(root);
        let mut id_to_depth: Vec<usize> = Vec::new();
        id_to_depth.push(0);
        DepthDictionaryNodeRegistry { nodes, id_to_depth }
    }

    /// Register `node` at `depth` under `key`; a known key keeps its ID and
    /// the depth it was first registered at.
    pub fn register_node(&mut self, node: N, key: DictionaryNodeKey, depth: usize) -> (r: Option<u32>)
        requires
            old(self).wf(),
        ensures
            final(self).wf(),
            if old(self).spec_registry().spec_ids().contains_key(key.0) {
                &&& r == Some(old(self).spec_registry().spec_ids()[key.0])
                &&& *final(self) == *old(self)
            } else if old(self).spec_registry().spec_nodes().len() <= u32::MAX {
                &&& r == Some(old(self).spec_registry().spec_nodes().len() as u32)
                &&& final(self).spec_registry().spec_ids()
                        == old(self).spec_registry().spec_ids().insert(key.0, old(self).spec_registry().spec_nodes().len() as u32)
                &&& final(self).spec_registry().spec_nodes() == old(self).spec_registry().spec_nodes().push(node)
                &&& final(self).spec_depths() == old(self).spec_depths().push(depth)
            } else {
                &&& r is None
                &&& final(self).spec_registry().spec_ids() == old(self).spec_registry().spec_ids()
                &&& final(self).spec_registry().spec_nodes() == old(self).spec_registry().spec_nodes()
                &&& final(self).spec_depths() == old(self).spec_depths()
            },
    {
        if let Some(id) = self.nodes.get_id(key) {
            return Some(id);
        }
        match self.nodes.register_node(node, key) {
            Some(id) => {
                self.id_to_depth.push(depth);
                Some(id)
            },
            None => None,
        }
    }

    /// The ID `key` has, or would receive if registered now.
    pub fn candidate_id(&self, key: DictionaryNodeKey) -> (r: Option<u32>)
        requires
            self.wf(),
        ensures
            r == (if self.spec_registry().spec_ids().contains_key(key.0) {
                Some(self.spec_registry().spec_ids()[key.0])
            } else if self.spec_registry().spec_nodes().len() <= u32::MAX {
                Some(self.spec_registry().spec_nodes().len() as u32)
            } else {
                None::<u32>
            }),
    {
        self.nodes.candidate_id(key)
    }

    /// The node registered with ID `id`.
    pub fn get_node(&self, id: u32) -> (r: Option<&N>)
        ensures
            match r {
                Some(n) => id < self.spec_registry().spec_nodes().len() && *n == self.spec_registry().spec_nodes()[id as int],
                None => id >= self.spec_registry().spec_nodes().len(),
            },
    {
        self.nodes.get_node(id)
    }

    /// The depth of the node registered with ID `id`.
    pub fn get_depth(&self, id: u32) -> (r: Option<usize>)
        ensures
            r == (if id < self.spec_depths().len() { Some(self.spec_depths()[id as int]) } else { None::<usize> }),
    {
        let index: usize = id as usize;
        if index < self.id_to_depth.len() { Some(self.id_to_depth[index]) } else { None }
    }

    /// Number of registered nodes.
    pub fn len(&self) -> (r: usize)
        ensures
            r == self.spec_registry().spec_nodes().len(),
    {
        self.nodes.len()
    }
}

} // verus!
