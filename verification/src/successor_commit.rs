//! Registration of the dictionary edges a product automaton can follow, as
//! the Universal Levenshtein and phonetic product adapters do it: each edge
//! whose automaton successor exists gets the child node's ID and the
//! successor's ID, registered only when both fit the product encoding, and a
//! transition into the encoded product state. Successor states are keyed by
//! a canonical list of plain values.
use vstd::prelude::*;
use crate::node_key::{spec_child_key, DictionaryNodeKey};
use crate::node_registry::DictionaryNodeRegistry;
use crate::phonetic_nfa_wfst::{nfa_key_ids, nfa_key_map_get, nfa_key_map_insert, nfa_key_map_with_capacity, NfaKeyMap};
use crate::state_encoding::{encoded_state, try_encode};

verus! {

/// Stable IDs for automaton successor states, by their canonical keys.
pub struct SuccessorRegistry<T> {
    key_to_id: NfaKeyMap,
    states: Vec<T>,
}

impl<T> SuccessorRegistry<T> {
    /// The IDs of the registered keys.
    pub closed spec fn spec_ids(&self) -> Map<Seq<u32>, u32> {
        nfa_key_ids(self.key_to_id)
    }

    /// The registered states, by ID.
    pub closed spec fn spec_states(&self) -> Seq<T> {
        self.states@
    }

    /// Every key's ID names a registered state, and IDs stay representable.
    pub closed spec fn wf(&self) -> bool {
        &&& forall|k: Seq<u32>| #[trigger] self.spec_ids().contains_key(k) ==> self.spec_ids()[k] < self.states@.len()
        &&& self.states@.len() <= u32::MAX + 1
    }

    /// A registry holding `start` under `key`, with ID 0.
    pub fn new(key: Vec<u32>, start: T) -> (r: Self)
        ensures
            r.wf(),
            r.spec_ids() == Map::<Seq<u32>, u32>::empty().insert(key@, 0),
            r.spec_states() == seq![start],
    {
        let mut key_to_id: NfaKeyMap = nfa_key_map_with_capacity(1);
        nfa_key_map_insert(&mut key_to_id, key, 0);
        let mut states: Vec<T> = Vec::new();
        states.push(start);
        let r = SuccessorRegistry { key_to_id, states };
        proof {
            assert(r.spec_states() =~= seq![start]);
        }
        r
    }

    /// The ID `key` has, or would receive if registered now.
    pub fn candidate_id(&self, key: &Vec<u32>) -> (r: Option<u32>)
        requires
            self.wf(),
        ensures
            r == candidate(self.spec_ids(), self.spec_states().len(), key@),
    {
        match nfa_key_map_get(&self.key_to_id, key.as_slice()) {
            Some(id) => Some(id),
            None => if self.states.len() <= 0xffff_ffffusize { Some(self.states.len() as u32) } else { None },
        }
    }

    /// Register `state` under `key`: the existing ID when the key is known,
    /// otherwise the next ID, or `None` once IDs are exhausted.
    pub fn register(&mut self, key: Vec<u32>, state: T) -> (r: Option<u32>)
        requires
            old(self).wf(),
        ensures
            final(self).wf(),
            r == candidate(old(self).spec_ids(), old(self).spec_states().len(), key@),
            if old(self).spec_ids().contains_key(key@) || r is None {
                &&& final(self).spec_ids() == old(self).spec_ids()
                &&& final(self).spec_states() == old(self).spec_states()
            } else {
                &&& final(self).spec_ids() == old(self).spec_ids().insert(key@, r->0)
                &&& final(self).spec_states() == old(self).spec_states().push(state)
            },
    {
        match nfa_key_map_get(&self.key_to_id, key.as_slice()) {
            Some(id) => return Some(id),
            None => {},
        }
        if self.states.len() > 0xffff_ffffusize {
            return None;
        }
        let id: u32 = self.states.len() as u32;
        nfa_key_map_insert(&mut self.key_to_id, key, id);
        self.states.push(state);
        Some(id)
    }

    /// The state registered under `id`.
    pub fn get(&self, id: u32) -> (r: Option<&T>)
        ensures
            match r {
                Some(s) => id < self.spec_states().len() && *s == self.spec_states()[id as int],
                None => id >= self.spec_states().len(),
            },
    {
        if (id as usize) < self.states.len() { Some(&self.states[id as usize]) } else { None }
    }

    /// Number of registered states.
    pub fn len(&self) -> (r: usize)
        ensures
            r == self.spec_states().len(),
    {
        self.states.len()
    }
}

/// The ID a key has in `ids`, or the next one among `len` states if representable.
pub open spec fn candidate<K>(ids: Map<K, u32>, len: nat, key: K) -> Option<u32> {
    if ids.contains_key(key) {
        Some(ids[key])
    } else if len <= u32::MAX {
        Some(len as u32)
    } else {
        None
    }
}

/// A dictionary edge whose automaton successor exists: the label, the child
/// node, and the successor's canonical key and value.
pub struct PendingSuccessor<N, T> {
    /// The edge's label.
    pub label: char,
    /// The child node.
    pub node: N,
    /// The successor's canonical key.
    pub key: Vec<u32>,
    /// The successor state.
    pub successor: T,
}

/// A transition into a product state.
#[derive(Clone, Copy, Debug, PartialEq, Eq)]
pub struct SuccessorTransition {
    /// The query label read, if any.
    pub input: Option<char>,
    /// The dictionary label written.
    pub output: char,
    /// The product state entered.
    pub to: u32,
}

/// The registries and transitions after committing one pending edge from
/// node `parent`: skipped unless the child's and the successor's IDs (as
/// they are or would be) encode a product state under `width`.
pub open spec fn commit_step<N, T>(parent: u32, width: u32, input: Option<char>,
    acc: (Map<u64, u32>, Seq<N>, Map<Seq<u32>, u32>, Seq<T>, Seq<SuccessorTransition>),
    e: PendingSuccessor<N, T>) -> (Map<u64, u32>, Seq<N>, Map<Seq<u32>, u32>, Seq<T>, Seq<SuccessorTransition>) {
    let ck = spec_child_key(parent, e.label);
    match (candidate(acc.0, acc.1.len(), ck), candidate(acc.2, acc.3.len(), e.key@)) {
        (Some(child), Some(succ)) => match encoded_state(child, succ, width) {
            Some(to) => (
                if acc.0.contains_key(ck) { acc.0 } else { acc.0.insert(ck, child) },
                if acc.0.contains_key(ck) { acc.1 } else { acc.1.push(e.node) },
                if acc.2.contains_key(e.key@) { acc.2 } else { acc.2.insert(e.key@, succ) },
                if acc.2.contains_key(e.key@) { acc.3 } else { acc.3.push(e.successor) },
                acc.4.push(SuccessorTransition { input, output: e.label, to }),
            ),
            None => acc,
        },
        _ => acc,
    }
}

/// Committing the pending edges in order.
pub open spec fn commit_fold<N, T>(parent: u32, width: u32, input: Option<char>,
    start: (Map<u64, u32>, Seq<N>, Map<Seq<u32>, u32>, Seq<T>, Seq<SuccessorTransition>),
    edges: Seq<PendingSuccessor<N, T>>) -> (Map<u64, u32>, Seq<N>, Map<Seq<u32>, u32>, Seq<T>, Seq<SuccessorTransition>)
    decreases edges.len(),
{
    if edges.len() == 0 {
        start
    } else {
        commit_step(parent, width, input, commit_fold(parent, width, input, start, edges.drop_last()), edges.last())
    }
}

/// Commit one pending edge, as `commit_step` says.
fn commit_one<N, T>(nodes: &mut DictionaryNodeRegistry<N>, successors: &mut SuccessorRegistry<T>,
    parent: u32, width: u32, input: Option<char>, e: PendingSuccessor<N, T>, transitions: &mut Vec<SuccessorTransition>)
    requires
        old(nodes).wf(),
        old(successors).wf(),
    ensures
        final(nodes).wf(),
        final(successors).wf(),
        ({
            let step = commit_step(parent, width, input, (old(nodes).spec_ids(), old(nodes).spec_nodes(),
                old(successors).spec_ids(), old(successors).spec_states(), old(transitions)@), e);
            &&& final(nodes).spec_ids() == step.0
            &&& final(nodes).spec_nodes() == step.1
            &&& final(successors).spec_ids() == step.2
            &&& final(successors).spec_states() == step.3
            &&& final(transitions)@ == step.4
        }),
{
    let key = DictionaryNodeKey::child(parent, e.label);
    let child: u32 = match nodes.candidate_id(key) {
        Some(id) => id,
        None => return,
    };
    let succ: u32 = match successors.candidate_id(&e.key) {
        Some(id) => id,
        None => return,
    };
    if try_encode(child, succ, width).is_none() {
        return;
    }
    let label: char = e.label;
    let child_id: u32 = match nodes.register_node(e.node, key) {
        Some(id) => id,
        None => return,
    };
    let succ_id: u32 = match successors.register(e.key, e.successor) {
        Some(id) => id,
        None => return,
    };
    match try_encode(child_id, succ_id, width) {
        Some(to) => transitions.push(SuccessorTransition { input, output: label, to }),
        None => {},
    }
}

/// Commit the pending edges of node `parent` in order: an edge whose child
/// ID and successor ID (existing or next) encode a product state under
/// `width` registers both and yields a transition reading `input` and
/// writing its label into that state; any other edge is skipped.
pub fn commit_pending_successors<N, T>(nodes: &mut DictionaryNodeRegistry<N>, successors: &mut SuccessorRegistry<T>,
    parent: u32, width: u32, input: Option<char>, edges: Vec<PendingSuccessor<N, T>>) -> (r: Vec<SuccessorTransition>)
    requires
        old(nodes).wf(),
        old(successors).wf(),
    ensures
        final(nodes).wf(),
        final(successors).wf(),
        ({
            let fold = commit_fold(parent, width, input, (old(nodes).spec_ids(), old(nodes).spec_nodes(),
                old(successors).spec_ids(), old(successors).spec_states(), Seq::empty()), edges@);
            &&& final(nodes).spec_ids() == fold.0
            &&& final(nodes).spec_nodes() == fold.1
            &&& final(successors).spec_ids() == fold.2
            &&& final(successors).spec_states() == fold.3
            &&& r@ == fold.4
        }),
{
    let ghost all = edges@;
    let ghost start = (nodes.spec_ids(), nodes.spec_nodes(), successors.spec_ids(), successors.spec_states(),
        Seq::<SuccessorTransition>::empty());
    let mut transitions: Vec<SuccessorTransition> = Vec::new();
    for e in it: edges.into_iter()
        invariant
            it.seq() == all,
            start == (old(nodes).spec_ids(), old(nodes).spec_nodes(), old(successors).spec_ids(),
                old(successors).spec_states(), Seq::<SuccessorTransition>::empty()),
            nodes.wf(),
            successors.wf(),
            ({
                let fold = commit_fold(parent, width, input, start, all.take(it.index() as int));
                &&& nodes.spec_ids() == fold.0
                &&& nodes.spec_nodes() == fold.1
                &&& successors.spec_ids() == fold.2
                &&& successors.spec_states() == fold.3
                &&& transitions@ == fold.4
            }),
    {
        let ghost i: int = it.index() as int;
        proof {
            assert(all.take(i + 1).drop_last() =~= all.take(i));
            assert(all.take(i + 1).last() == e);
        }
        commit_one(nodes, successors, parent, width, input, e, &mut transitions);
    }
    proof {
        assert(all.take(all.len() as int) =~= all);
    }
    transitions
}

} // verus!
