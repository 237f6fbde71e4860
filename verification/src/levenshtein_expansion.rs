//! Lazy expansion of the dictionary x Levenshtein-automaton product.
//!
//! A product state pairs a registered dictionary node with an automaton state
//! `(query_pos, edit_cost)` or one of its continuations. Expanding it reads the
//! node's outgoing edges (given as plain values by the caller), registers each
//! child node that some transition reaches, and lists the transitions:
//! match/substitute, insert, delete, and, by algorithm, transposition, merge
//! and split. Costs are whole edit counts.
use vstd::prelude::*;
use crate::hints::{is_exact_f64_count, spec_max_exact_f64_usize};
use crate::node_key::{DictionaryNodeKey, spec_child_key};
use crate::node_registry::DictionaryNodeRegistry;
use crate::state_codec::{
    AutomatonState, LevenshteinStateCodec, next_index, remaining_query_chars, spec_merge_second_slot,
    spec_saturating_u32, spec_split_second_slot, usize_from_u32, within_max_distance, lemma_band_widths,
    lemma_continuation_state_roundtrip, lemma_normal_state_roundtrip,
};
use crate::state_encoding::{decoded_state, encoded_state};

verus! {

/// One transition of the product: `cost` is the number of edits it spends.
#[derive(Clone, Copy, Debug, PartialEq, Eq, Structural)]
pub struct LevenshteinTransition {
    pub from: u32,
    pub input: Option<char>,
    pub output: Option<char>,
    pub to: u32,
    pub cost: u32,
}

/// One outgoing dictionary edge, as the expansion reads it: the label, the
/// child node, whether the child has an edge labelled with the state's
/// transposition probe, and whether the child has any edge.
pub struct DictionaryEdge<N> {
    pub label: char,
    pub child: N,
    pub child_has_probe: bool,
    pub child_has_edges: bool,
}

/// The ID `key` has in a registry with entries `ids` and `nodes`, or would
/// receive if registered now.
pub open spec fn spec_candidate<N>(ids: Map<u64, u32>, nodes: Seq<N>, key: u64) -> Option<u32> {
    if ids.contains_key(key) {
        Some(ids[key])
    } else if nodes.len() <= u32::MAX {
        Some(nodes.len() as u32)
    } else {
        None
    }
}

/// The registry after registering `node` under `key`.
pub open spec fn spec_register<N>(ids: Map<u64, u32>, nodes: Seq<N>, node: N, key: u64) -> (Map<u64, u32>, Seq<N>) {
    if ids.contains_key(key) {
        (ids, nodes)
    } else if nodes.len() <= u32::MAX {
        (ids.insert(key, nodes.len() as u32), nodes.push(node))
    } else {
        (ids, nodes)
    }
}

/// `a + b` on `u32`, saturating.
pub open spec fn sat_add_u32(a: u32, b: u32) -> u32 {
    if a + b > u32::MAX { u32::MAX } else { (a + b) as u32 }
}

/// Merge continuation of `(query_pos, edit_cost)`, when the algorithm has merges.
pub open spec fn spec_merge_state(codec: LevenshteinStateCodec, query_pos: u32, edit_cost: u32) -> Option<u32> {
    match spec_merge_second_slot(codec.spec_algorithm()) {
        Some(slot) => codec.spec_continuation_state(slot, query_pos, edit_cost),
        None => None,
    }
}

/// Split continuation of `(query_pos, edit_cost)`, when the algorithm has splits.
pub open spec fn spec_split_state(codec: LevenshteinStateCodec, query_pos: u32, edit_cost: u32) -> Option<u32> {
    match spec_split_second_slot(codec.spec_algorithm()) {
        Some(slot) => codec.spec_continuation_state(slot, query_pos, edit_cost),
        None => None,
    }
}

/// What a normal state `(query_pos, edit_cost)` can do, before looking at edges.
#[derive(Clone, Copy)]
pub struct NormalContext {
    /// The query character at `query_pos`, if any is left.
    pub query_char: Option<char>,
    /// `query_pos + 1`, when it fits.
    pub next_query_pos: Option<u32>,
    /// Automaton state after inserting a dictionary character.
    pub insert: Option<u32>,
    /// Query characters at `query_pos` and `query_pos + 1`, and the transposition continuation.
    pub transpose: Option<(char, char, u32)>,
    /// Query character at `query_pos` and the merge continuation.
    pub merge: Option<(char, u32)>,
    /// Query character at `query_pos` and the split continuation.
    pub split: Option<(char, u32)>,
    /// Automaton state after deleting the query character.
    pub delete: Option<u32>,
    /// Edits spent so far.
    pub edit_cost: u32,
    /// Edit budget.
    pub max_distance: u32,
    /// Whether the state reads dictionary edges at all.
    pub reads_edges: bool,
}

/// The context of normal state `(query_pos, edit_cost)` for `query`.
pub open spec fn spec_normal_context(codec: LevenshteinStateCodec, query: Seq<char>, query_pos: u32, edit_cost: u32) -> NormalContext {
    let max_distance = spec_saturating_u32(codec.spec_max_distance() as int);
    let can_edit = edit_cost < max_distance;
    let can_read = query_pos < query.len();
    let has_next = query_pos + 1 < query.len();
    let next_edit_cost = sat_add_u32(edit_cost, 1);
    let query_char = if can_read { Some(query[query_pos as int]) } else { None };
    let next_query_pos = if query_pos < u32::MAX { Some((query_pos + 1) as u32) } else { None };
    let transposes = codec.spec_algorithm().spec_supports_transposition();
    let merges = codec.spec_algorithm().spec_supports_merge_split();
    NormalContext {
        query_char,
        next_query_pos,
        insert: if can_edit { codec.spec_encode_automaton_state(query_pos, next_edit_cost) } else { None },
        transpose: if transposes && can_edit && has_next {
            match codec.spec_continuation_state(1, query_pos, next_edit_cost) {
                Some(s) => Some((query[query_pos as int], query[query_pos + 1], s)),
                None => None,
            }
        } else {
            None
        },
        merge: if merges && can_edit && has_next {
            match spec_merge_state(codec, query_pos, next_edit_cost) {
                Some(s) => Some((query[query_pos as int], s)),
                None => None,
            }
        } else {
            None
        },
        split: if merges && can_edit && can_read {
            match spec_split_state(codec, query_pos, next_edit_cost) {
                Some(s) => Some((query[query_pos as int], s)),
                None => None,
            }
        } else {
            None
        },
        delete: if can_read && can_edit {
            match next_query_pos {
                Some(np) => codec.spec_encode_automaton_state(np, next_edit_cost),
                None => None,
            }
        } else {
            None
        },
        edit_cost,
        max_distance,
        reads_edges: can_read || can_edit,
    }
}

/// The context of normal state `(query_pos, edit_cost)`.
pub fn normal_context(codec: &LevenshteinStateCodec, query: &[char], query_pos: u32, edit_cost: u32) -> (r: NormalContext)
    ensures
        r == spec_normal_context(*codec, query@, query_pos, edit_cost),
{
    let max_distance: u32 = codec.max_distance_u32();
    let pos: usize = usize_from_u32(query_pos);
    let len: usize = query.len();
    let can_edit: bool = edit_cost < max_distance;
    let can_read: bool = pos < len;
    let next_pos: Option<usize> = next_index(pos, len);
    let next_edit_cost: u32 = edit_cost.saturating_add(1);
    let query_char: Option<char> = if can_read { Some(query[pos]) } else { None };
    let next_query_pos: Option<u32> = query_pos.checked_add(1);
    let algorithm = codec.algorithm();
    let transposes: bool = algorithm.supports_transposition();
    let merges: bool = algorithm.supports_merge_split();
    let insert: Option<u32> = if can_edit { codec.encode_automaton_state(query_pos, next_edit_cost) } else { None };
    let transpose: Option<(char, char, u32)> = if transposes && can_edit {
        match next_pos {
            Some(np) => match codec.encode_transpose_second_state(query_pos, next_edit_cost) {
                Some(s) => Some((query[pos], query[np], s)),
                None => None,
            },
            None => None,
        }
    } else {
        None
    };
    let merge: Option<(char, u32)> = if merges && can_edit {
        match next_pos {
            Some(_) => match codec.encode_merge_second_state(query_pos, next_edit_cost) {
                Some(s) => Some((query[pos], s)),
                None => None,
            },
            None => None,
        }
    } else {
        None
    };
    let split: Option<(char, u32)> = if merges && can_edit && can_read {
        match codec.encode_split_second_state(query_pos, next_edit_cost) {
            Some(s) => Some((query[pos], s)),
            None => None,
        }
    } else {
        None
    };
    let delete: Option<u32> = if can_read && can_edit {
        match next_query_pos {
            Some(np) => codec.encode_automaton_state(np, next_edit_cost),
            None => None,
        }
    } else {
        None
    };
    NormalContext {
        query_char,
        next_query_pos,
        insert,
        transpose,
        merge,
        split,
        delete,
        edit_cost,
        max_distance,
        reads_edges: can_read || can_edit,
    }
}

/// Match or substitution along an edge labelled `label`: the query
/// character, the cost (0 on equal characters), and the automaton target.
pub open spec fn spec_match(codec: LevenshteinStateCodec, ctx: NormalContext, label: char) -> Option<(char, u32, u32)> {
    match ctx.query_char {
        None => None,
        Some(qc) => {
            let oc: u32 = if qc == label { 0 } else { 1 };
            let nc = sat_add_u32(ctx.edit_cost, oc);
            if nc <= ctx.max_distance {
                match ctx.next_query_pos {
                    Some(nq) => match codec.spec_encode_automaton_state(nq, nc) {
                        Some(t) => Some((qc, oc, t)),
                        None => None,
                    },
                    None => None,
                }
            } else {
                None
            }
        },
    }
}

/// Transposition along an edge: it must carry the second query character,
/// the two characters must differ, and the child must continue with the first.
pub open spec fn spec_transpose_on<N>(ctx: NormalContext, e: DictionaryEdge<N>) -> Option<(char, u32)> {
    match ctx.transpose {
        Some((f, s, st)) => if e.label == s && f != s && e.child_has_probe { Some((f, st)) } else { None },
        None => None,
    }
}

/// Split along an edge: only into a child that has an edge to continue with.
pub open spec fn spec_split_on<N>(ctx: NormalContext, e: DictionaryEdge<N>) -> Option<(char, u32)> {
    if e.child_has_edges { ctx.split } else { None }
}

/// The optional value as a sequence.
pub open spec fn opt_u32(o: Option<u32>) -> Seq<u32> {
    match o {
        Some(x) => seq![x],
        None => Seq::empty(),
    }
}

/// The automaton states an edge leads to, in transition order.
pub open spec fn spec_edge_targets<N>(codec: LevenshteinStateCodec, ctx: NormalContext, e: DictionaryEdge<N>) -> Seq<u32> {
    opt_u32(match spec_match(codec, ctx, e.label) { Some((_, _, t)) => Some(t), None => None })
        + opt_u32(ctx.insert)
        + opt_u32(match spec_transpose_on(ctx, e) { Some((_, t)) => Some(t), None => None })
        + opt_u32(match ctx.merge { Some((_, t)) => Some(t), None => None })
        + opt_u32(match spec_split_on(ctx, e) { Some((_, t)) => Some(t), None => None })
}

/// Whether some automaton target forms a product state with node `candidate`.
pub open spec fn some_target_encodes(codec: LevenshteinStateCodec, candidate: u32, targets: Seq<u32>) -> bool {
    exists|i: int| 0 <= i < targets.len() && (#[trigger] encoded_state(candidate, targets[i], codec.spec_max_states())) is Some
}

/// The transition to `(child, target)`, when that product state exists.
#[verifier::opaque]
pub open spec fn target_arc(codec: LevenshteinStateCodec, from: u32, child: u32, input: Option<char>, output: Option<char>, target: u32, cost: u32) -> Seq<LevenshteinTransition> {
    match encoded_state(child, target, codec.spec_max_states()) {
        Some(to) => seq![LevenshteinTransition { from, input, output, to, cost }],
        None => Seq::empty(),
    }
}

/// The transitions into child `child` along an edge labelled `label`, for the
/// given match, insert, transposition, merge and split.
pub open spec fn spec_plan_arcs(codec: LevenshteinStateCodec, from: u32, child: u32, label: char,
    matched: Option<(char, u32, u32)>, insert: Option<u32>, transposed: Option<(char, u32)>,
    merge: Option<(char, u32)>, split: Option<(char, u32)>) -> Seq<LevenshteinTransition>
{
    let dc = Some(label);
    (match matched { Some((qc, oc, t)) => target_arc(codec, from, child, Some(qc), dc, t, oc), None => Seq::empty() })
        + (match insert { Some(t) => target_arc(codec, from, child, None, dc, t, 1), None => Seq::empty() })
        + (match transposed { Some((f, t)) => target_arc(codec, from, child, Some(f), dc, t, 1), None => Seq::empty() })
        + (match merge { Some((q, t)) => target_arc(codec, from, child, Some(q), dc, t, 1), None => Seq::empty() })
        + (match split { Some((q, t)) => target_arc(codec, from, child, Some(q), dc, t, 1), None => Seq::empty() })
}

/// The transitions along an edge into child `child`.
pub open spec fn spec_edge_arcs<N>(codec: LevenshteinStateCodec, ctx: NormalContext, from: u32, child: u32, e: DictionaryEdge<N>) -> Seq<LevenshteinTransition> {
    spec_plan_arcs(codec, from, child, e.label, spec_match(codec, ctx, e.label), ctx.insert,
        spec_transpose_on(ctx, e), ctx.merge, spec_split_on(ctx, e))
}

/// Registration of the child reached by `label` from `parent`: its candidate
/// ID, when some target forms a product state with it.
pub open spec fn spec_registered_child<N>(codec: LevenshteinStateCodec, ids: Map<u64, u32>, nodes: Seq<N>, parent: u32, label: char, targets: Seq<u32>) -> Option<u32> {
    match spec_candidate(ids, nodes, spec_child_key(parent, label)) {
        Some(c) => if some_target_encodes(codec, c, targets) { Some(c) } else { None },
        None => None,
    }
}

/// One edge of a normal state: the registry afterwards and the transitions.
pub open spec fn spec_normal_step<N>(codec: LevenshteinStateCodec, ctx: NormalContext, node_id: u32, from: u32,
    ids: Map<u64, u32>, nodes: Seq<N>, e: DictionaryEdge<N>) -> (Map<u64, u32>, Seq<N>, Seq<LevenshteinTransition>)
{
    let targets = spec_edge_targets(codec, ctx, e);
    match spec_registered_child(codec, ids, nodes, node_id, e.label, targets) {
        Some(c) => {
            let reg = spec_register(ids, nodes, e.child, spec_child_key(node_id, e.label));
            (reg.0, reg.1, spec_edge_arcs(codec, ctx, from, c, e))
        },
        None => (ids, nodes, Seq::empty()),
    }
}

/// The edges of a normal state in order, threading the registry.
pub open spec fn spec_normal_fold<N>(codec: LevenshteinStateCodec, ctx: NormalContext, node_id: u32, from: u32,
    ids: Map<u64, u32>, nodes: Seq<N>, edges: Seq<DictionaryEdge<N>>) -> (Map<u64, u32>, Seq<N>, Seq<LevenshteinTransition>)
    decreases edges.len(),
{
    if edges.len() == 0 {
        (ids, nodes, Seq::empty())
    } else {
        let prev = spec_normal_fold(codec, ctx, node_id, from, ids, nodes, edges.drop_last());
        let step = spec_normal_step(codec, ctx, node_id, from, prev.0, prev.1, edges.last());
        (step.0, step.1, prev.2 + step.2)
    }
}

/// Register the child reached by `label` from `parent_id` when some target
/// forms a product state with its ID; that ID.
fn register_for_targets<N>(codec: &LevenshteinStateCodec, registry: &mut DictionaryNodeRegistry<N>,
    parent_id: u32, label: char, node: N, targets: &Vec<u32>) -> (r: Option<u32>)
    requires
        old(registry).wf(),
    ensures
        final(registry).wf(),
        r == spec_registered_child(*codec, old(registry).spec_ids(), old(registry).spec_nodes(), parent_id, label, targets@),
        r is Some ==> (final(registry).spec_ids(), final(registry).spec_nodes())
            == spec_register(old(registry).spec_ids(), old(registry).spec_nodes(), node, spec_child_key(parent_id, label)),
        r is None ==> final(registry).spec_ids() == old(registry).spec_ids() && final(registry).spec_nodes() == old(registry).spec_nodes(),
{
    let key: DictionaryNodeKey = DictionaryNodeKey::child(parent_id, label);
    let candidate: u32 = match registry.candidate_id(key) {
        Some(c) => c,
        None => return None,
    };
    let mut any: bool = false;
    for i in 0..targets.len()
        invariant
            any == exists|k: int| 0 <= k < i && (#[trigger] encoded_state(candidate, targets@[k], codec.spec_max_states())) is Some,
    {
        if codec.encode_product_state(candidate, targets[i]).is_some() {
            any = true;
        }
    }
    if !any {
        return None;
    }
    let r: Option<u32> = registry.register_node(node, key);
    r
}

fn push_target_arc(codec: &LevenshteinStateCodec, transitions: &mut Vec<LevenshteinTransition>, from: u32, child: u32,
    input: Option<char>, output: Option<char>, target: u32, cost: u32)
    ensures
        final(transitions)@ == old(transitions)@ + target_arc(*codec, from, child, input, output, target, cost),
{
    reveal(target_arc);
    match codec.encode_product_state(child, target) {
        Some(to) => {
            transitions.push(LevenshteinTransition { from, input, output, to, cost });
        },
        None => {
            assert(old(transitions)@ + Seq::<LevenshteinTransition>::empty() =~= old(transitions)@);
        },
    }
}

fn push_some(v: &mut Vec<u32>, o: Option<u32>)
    ensures
        final(v)@ == old(v)@ + opt_u32(o),
{
    match o {
        Some(x) => v.push(x),
        None => {
            assert(old(v)@ + Seq::<u32>::empty() =~= old(v)@);
        },
    }
}

/// The match, transposition and split an edge allows.
fn edge_plan<N>(codec: &LevenshteinStateCodec, ctx: &NormalContext, edge: &DictionaryEdge<N>)
    -> (r: (Option<(char, u32, u32)>, Option<(char, u32)>, Option<(char, u32)>))
    ensures
        r.0 == spec_match(*codec, *ctx, edge.label),
        r.1 == spec_transpose_on(*ctx, *edge),
        r.2 == spec_split_on(*ctx, *edge),
{
    let label: char = edge.label;
    let matched: Option<(char, u32, u32)> = match ctx.query_char {
        None => None,
        Some(qc) => {
            let oc: u32 = if qc == label { 0 } else { 1 };
            let nc: u32 = ctx.edit_cost.saturating_add(oc);
            if nc <= ctx.max_distance {
                match ctx.next_query_pos {
                    Some(nq) => match codec.encode_automaton_state(nq, nc) {
                        Some(t) => Some((qc, oc, t)),
                        None => None,
                    },
                    None => None,
                }
            } else {
                None
            }
        },
    };
    let transposed: Option<(char, u32)> = match ctx.transpose {
        Some((f, sc, st)) => if label == sc && f != sc && edge.child_has_probe { Some((f, st)) } else { None },
        None => None,
    };
    let split: Option<(char, u32)> = if edge.child_has_edges { ctx.split } else { None };
    (matched, transposed, split)
}

/// Append the transitions along an edge into child `child`.
fn push_edge_arcs(codec: &LevenshteinStateCodec, from: u32, child: u32, label: char,
    matched: Option<(char, u32, u32)>, insert: Option<u32>, transposed: Option<(char, u32)>,
    merge: Option<(char, u32)>, split: Option<(char, u32)>, transitions: &mut Vec<LevenshteinTransition>)
    ensures
        final(transitions)@ == old(transitions)@
            + spec_plan_arcs(*codec, from, child, label, matched, insert, transposed, merge, split),
{
    let dc: Option<char> = Some(label);
    let ghost start = transitions@;
    let ghost p1 = match matched { Some((qc, oc, t)) => target_arc(*codec, from, child, Some(qc), dc, t, oc), None => Seq::empty() };
    let ghost p2 = match insert { Some(t) => target_arc(*codec, from, child, None, dc, t, 1), None => Seq::empty() };
    let ghost p3 = match transposed { Some((f, t)) => target_arc(*codec, from, child, Some(f), dc, t, 1), None => Seq::empty() };
    let ghost p4 = match merge { Some((q, t)) => target_arc(*codec, from, child, Some(q), dc, t, 1), None => Seq::empty() };
    let ghost p5 = match split { Some((q, t)) => target_arc(*codec, from, child, Some(q), dc, t, 1), None => Seq::empty() };
    match matched {
        Some((qc, oc, t)) => push_target_arc(codec, transitions, from, child, Some(qc), dc, t, oc),
        None => {},
    }
    assert(transitions@ =~= start + p1);
    match insert {
        Some(t) => push_target_arc(codec, transitions, from, child, None, dc, t, 1),
        None => {},
    }
    assert(transitions@ =~= start + p1 + p2);
    match transposed {
        Some((f, t)) => push_target_arc(codec, transitions, from, child, Some(f), dc, t, 1),
        None => {},
    }
    assert(transitions@ =~= start + p1 + p2 + p3);
    match merge {
        Some((q, t)) => push_target_arc(codec, transitions, from, child, Some(q), dc, t, 1),
        None => {},
    }
    assert(transitions@ =~= start + p1 + p2 + p3 + p4);
    match split {
        Some((q, t)) => push_target_arc(codec, transitions, from, child, Some(q), dc, t, 1),
        None => {},
    }
    assert(transitions@ =~= start + p1 + p2 + p3 + p4 + p5);
}

/// Expand one edge of a normal state.
fn expand_normal_edge<N>(codec: &LevenshteinStateCodec, ctx: &NormalContext, node_id: u32, from: u32,
    registry: &mut DictionaryNodeRegistry<N>, edge: DictionaryEdge<N>, transitions: &mut Vec<LevenshteinTransition>)
    requires
        old(registry).wf(),
    ensures
        final(registry).wf(),
        ({
            let step = spec_normal_step(*codec, *ctx, node_id, from, old(registry).spec_ids(), old(registry).spec_nodes(), edge);
            &&& final(registry).spec_ids() == step.0
            &&& final(registry).spec_nodes() == step.1
            &&& final(transitions)@ == old(transitions)@ + step.2
        }),
{
    let plan = edge_plan(codec, ctx, &edge);
    let mut targets: Vec<u32> = Vec::new();
    push_some(&mut targets, match plan.0 { Some((_, _, t)) => Some(t), None => None });
    push_some(&mut targets, ctx.insert);
    push_some(&mut targets, match plan.1 { Some((_, t)) => Some(t), None => None });
    push_some(&mut targets, match ctx.merge { Some((_, t)) => Some(t), None => None });
    push_some(&mut targets, match plan.2 { Some((_, t)) => Some(t), None => None });
    proof {
        assert(targets@ =~= spec_edge_targets(*codec, *ctx, edge));
    }
    let ghost e = edge;
    let view: DictionaryEdge<()> = DictionaryEdge {
        label: edge.label,
        child: (),
        child_has_probe: edge.child_has_probe,
        child_has_edges: edge.child_has_edges,
    };
    let child_id: u32 = match register_for_targets(codec, registry, node_id, edge.label, edge.child, &targets) {
        Some(c) => c,
        None => {
            assert(old(transitions)@ + Seq::<LevenshteinTransition>::empty() =~= old(transitions)@);
            return;
        },
    };
    push_edge_arcs(codec, from, child_id, view.label, plan.0, ctx.insert, plan.1, ctx.merge, plan.2, transitions);
}

/// An expanded product state: its transitions and, for an accepting state,
/// the edits still owed at the end (the remaining query characters).
pub struct LevenshteinExpansion {
    pub final_distance: Option<usize>,
    pub transitions: Vec<LevenshteinTransition>,
}

/// The remaining query characters owed when a normal state accepts: the node
/// is final, the total stays within the budget, and the count is exact as a weight.
pub open spec fn spec_normal_final(codec: LevenshteinStateCodec, query_len: usize, node_is_final: bool, query_pos: u32, edit_cost: u32) -> Option<usize> {
    if !node_is_final || query_pos > query_len {
        None
    } else {
        let remaining = (query_len - query_pos) as usize;
        if edit_cost + remaining <= codec.spec_max_distance() && remaining <= spec_max_exact_f64_usize() {
            Some(remaining)
        } else {
            None
        }
    }
}

fn normal_final(codec: &LevenshteinStateCodec, query_len: usize, node_is_final: bool, query_pos: u32, edit_cost: u32) -> (r: Option<usize>)
    ensures
        r == spec_normal_final(*codec, query_len, node_is_final, query_pos, edit_cost),
{
    if !node_is_final {
        return None;
    }
    let remaining: usize = match remaining_query_chars(query_len, query_pos) {
        Some(n) => n,
        None => return None,
    };
    if within_max_distance(edit_cost, remaining, codec.max_distance()) && is_exact_f64_count(remaining) {
        Some(remaining)
    } else {
        None
    }
}

/// The delete transition of a normal state: read the query character and stay on the node.
pub open spec fn spec_delete_arc(codec: LevenshteinStateCodec, ctx: NormalContext, node_id: u32, from: u32) -> Seq<LevenshteinTransition> {
    match ctx.delete {
        Some(t) => target_arc(codec, from, node_id, ctx.query_char, None, t, 1),
        None => Seq::empty(),
    }
}

/// Expand normal state `(query_pos, edit_cost)` on node `node_id`, from
/// product state `from`, over the node's `edges`.
pub fn expand_normal<N>(codec: &LevenshteinStateCodec, query: &[char], registry: &mut DictionaryNodeRegistry<N>,
    node_id: u32, from: u32, query_pos: u32, edit_cost: u32, node_is_final: bool, edges: Vec<DictionaryEdge<N>>)
    -> (r: LevenshteinExpansion)
    requires
        old(registry).wf(),
    ensures
        final(registry).wf(),
        ({
            let ctx = spec_normal_context(*codec, query@, query_pos, edit_cost);
            let fold = spec_normal_fold(*codec, ctx, node_id, from, old(registry).spec_ids(), old(registry).spec_nodes(), edges@);
            &&& r.final_distance == spec_normal_final(*codec, query@.len() as usize, node_is_final, query_pos, edit_cost)
            &&& ctx.reads_edges ==> {
                &&& final(registry).spec_ids() == fold.0
                &&& final(registry).spec_nodes() == fold.1
                &&& r.transitions@ == fold.2 + spec_delete_arc(*codec, ctx, node_id, from)
            }
            &&& !ctx.reads_edges ==> {
                &&& final(registry).spec_ids() == old(registry).spec_ids()
                &&& final(registry).spec_nodes() == old(registry).spec_nodes()
                &&& r.transitions@ == spec_delete_arc(*codec, ctx, node_id, from)
            }
        }),
{
    let ctx: NormalContext = normal_context(codec, query, query_pos, edit_cost);
    let mut transitions: Vec<LevenshteinTransition> = Vec::new();
    if ctx.reads_edges {
        let ghost ids0 = registry.spec_ids();
        let ghost nodes0 = registry.spec_nodes();
        let ghost all = edges@;
        for edge in it: edges.into_iter()
            invariant
                it.seq() == all,
                registry.wf(),
                ({
                    let fold = spec_normal_fold(*codec, ctx, node_id, from, ids0, nodes0, all.take(it.index() as int));
                    &&& registry.spec_ids() == fold.0
                    &&& registry.spec_nodes() == fold.1
                    &&& transitions@ == fold.2
                }),
        {
            proof {
                assert(all.take(it.index() + 1).drop_last() == all.take(it.index() as int));
                assert(all.take(it.index() + 1).last() == edge);
            }
            expand_normal_edge(codec, &ctx, node_id, from, registry, edge, &mut transitions);
        }
        proof {
            assert(all.take(all.len() as int) == all);
        }
    } else {
        assert(transitions@ =~= Seq::<LevenshteinTransition>::empty());
    }
    let ghost before_delete = transitions@;
    match ctx.delete {
        Some(t) => push_target_arc(codec, &mut transitions, from, node_id, ctx.query_char, None, t, 1),
        None => {
            assert(transitions@ + Seq::<LevenshteinTransition>::empty() =~= transitions@);
        },
    }
    let final_distance: Option<usize> = normal_final(codec, query.len(), node_is_final, query_pos, edit_cost);
    LevenshteinExpansion { final_distance, transitions }
}

/// One edge of a continuation state that leads to a single automaton target:
/// edges other than `required` (when given) are skipped, and a reachable
/// child gets the free transition reading `input` and writing the label.
pub open spec fn spec_single_step<N>(codec: LevenshteinStateCodec, node_id: u32, from: u32, ids: Map<u64, u32>, nodes: Seq<N>,
    e: DictionaryEdge<N>, required: Option<char>, input: Option<char>, target: u32) -> (Map<u64, u32>, Seq<N>, Seq<LevenshteinTransition>)
{
    if required matches Some(c) && e.label != c {
        (ids, nodes, Seq::empty())
    } else {
        match spec_registered_child(codec, ids, nodes, node_id, e.label, seq![target]) {
            Some(c) => {
                let reg = spec_register(ids, nodes, e.child, spec_child_key(node_id, e.label));
                (reg.0, reg.1, target_arc(codec, from, c, input, Some(e.label), target, 0))
            },
            None => (ids, nodes, Seq::empty()),
        }
    }
}

/// The edges of a single-target continuation state in order, threading the registry.
pub open spec fn spec_single_fold<N>(codec: LevenshteinStateCodec, node_id: u32, from: u32, ids: Map<u64, u32>, nodes: Seq<N>,
    edges: Seq<DictionaryEdge<N>>, required: Option<char>, input: Option<char>, target: u32) -> (Map<u64, u32>, Seq<N>, Seq<LevenshteinTransition>)
    decreases edges.len(),
{
    if edges.len() == 0 {
        (ids, nodes, Seq::empty())
    } else {
        let prev = spec_single_fold(codec, node_id, from, ids, nodes, edges.drop_last(), required, input, target);
        let step = spec_single_step(codec, node_id, from, prev.0, prev.1, edges.last(), required, input, target);
        (step.0, step.1, prev.2 + step.2)
    }
}

fn expand_single_edge<N>(codec: &LevenshteinStateCodec, node_id: u32, from: u32, registry: &mut DictionaryNodeRegistry<N>,
    edge: DictionaryEdge<N>, required: Option<char>, input: Option<char>, target: u32, transitions: &mut Vec<LevenshteinTransition>)
    requires
        old(registry).wf(),
    ensures
        final(registry).wf(),
        ({
            let step = spec_single_step(*codec, node_id, from, old(registry).spec_ids(), old(registry).spec_nodes(), edge, required, input, target);
            &&& final(registry).spec_ids() == step.0
            &&& final(registry).spec_nodes() == step.1
            &&& final(transitions)@ == old(transitions)@ + step.2
        }),
{
    let label: char = edge.label;
    match required {
        Some(c) => {
            if label != c {
                assert(old(transitions)@ + Seq::<LevenshteinTransition>::empty() =~= old(transitions)@);
                return;
            }
        },
        None => {},
    }
    let mut targets: Vec<u32> = Vec::new();
    targets.push(target);
    assert(targets@ =~= seq![target]);
    let child_id: u32 = match register_for_targets(codec, registry, node_id, label, edge.child, &targets) {
        Some(c) => c,
        None => {
            assert(old(transitions)@ + Seq::<LevenshteinTransition>::empty() =~= old(transitions)@);
            return;
        },
    };
    push_target_arc(codec, transitions, from, child_id, input, Some(label), target, 0);
}

fn expand_single<N>(codec: &LevenshteinStateCodec, node_id: u32, from: u32, registry: &mut DictionaryNodeRegistry<N>,
    edges: Vec<DictionaryEdge<N>>, required: Option<char>, input: Option<char>, target: u32) -> (r: Vec<LevenshteinTransition>)
    requires
        old(registry).wf(),
    ensures
        final(registry).wf(),
        ({
            let fold = spec_single_fold(*codec, node_id, from, old(registry).spec_ids(), old(registry).spec_nodes(), edges@, required, input, target);
            &&& final(registry).spec_ids() == fold.0
            &&& final(registry).spec_nodes() == fold.1
            &&& r@ == fold.2
        }),
{
    let mut transitions: Vec<LevenshteinTransition> = Vec::new();
    let ghost ids0 = registry.spec_ids();
    let ghost nodes0 = registry.spec_nodes();
    let ghost all = edges@;
    for edge in it: edges.into_iter()
        invariant
            it.seq() == all,
            registry.wf(),
            ({
                let fold = spec_single_fold(*codec, node_id, from, ids0, nodes0, all.take(it.index() as int), required, input, target);
                &&& registry.spec_ids() == fold.0
                &&& registry.spec_nodes() == fold.1
                &&& transitions@ == fold.2
            }),
    {
        proof {
            assert(all.take(it.index() + 1).drop_last() == all.take(it.index() as int));
            assert(all.take(it.index() + 1).last() == edge);
        }
        expand_single_edge(codec, node_id, from, registry, edge, required, input, target, &mut transitions);
    }
    proof {
        assert(all.take(all.len() as int) == all);
    }
    transitions
}

/// The transposition continuation's plan: it must write the query character
/// at `query_pos` while reading the one after it, reaching `(query_pos + 2, edit_cost)`.
pub open spec fn spec_transpose_second_plan(codec: LevenshteinStateCodec, query: Seq<char>, query_pos: u32, edit_cost: u32) -> Option<(char, char, u32)> {
    if query_pos + 1 < query.len() && query_pos + 2 <= u32::MAX {
        match codec.spec_encode_automaton_state((query_pos + 2) as u32, edit_cost) {
            Some(t) => Some((query[query_pos as int], query[query_pos + 1], t)),
            None => None,
        }
    } else {
        None
    }
}

/// The split continuation's target: `(query_pos + 1, edit_cost)`, when a query character is left.
pub open spec fn spec_split_second_target(codec: LevenshteinStateCodec, query: Seq<char>, query_pos: u32, edit_cost: u32) -> Option<u32> {
    if query_pos < query.len() && query_pos + 1 <= u32::MAX {
        codec.spec_encode_automaton_state((query_pos + 1) as u32, edit_cost)
    } else {
        None
    }
}

/// The merge continuation's transition: read the query character after
/// `query_pos` for free and stay on the node at `(query_pos + 2, edit_cost)`.
pub open spec fn spec_merge_second_arcs(codec: LevenshteinStateCodec, query: Seq<char>, node_id: u32, from: u32, query_pos: u32, edit_cost: u32) -> Seq<LevenshteinTransition> {
    if query_pos + 1 < query.len() && query_pos + 2 <= u32::MAX {
        match codec.spec_encode_automaton_state((query_pos + 2) as u32, edit_cost) {
            Some(t) => target_arc(codec, from, node_id, Some(query[query_pos + 1]), None, t, 0),
            None => Seq::empty(),
        }
    } else {
        Seq::empty()
    }
}

fn transpose_second_plan(codec: &LevenshteinStateCodec, query: &[char], query_pos: u32, edit_cost: u32) -> (r: Option<(char, char, u32)>)
    ensures
        r == spec_transpose_second_plan(*codec, query@, query_pos, edit_cost),
{
    let pos: usize = usize_from_u32(query_pos);
    let next_pos: usize = match next_index(pos, query.len()) {
        Some(np) => np,
        None => return None,
    };
    let target: u32 = match query_pos.checked_add(2) {
        Some(np) => match codec.encode_automaton_state(np, edit_cost) {
            Some(t) => t,
            None => return None,
        },
        None => return None,
    };
    Some((query[pos], query[next_pos], target))
}

fn split_second_target(codec: &LevenshteinStateCodec, query: &[char], query_pos: u32, edit_cost: u32) -> (r: Option<u32>)
    ensures
        r == spec_split_second_target(*codec, query@, query_pos, edit_cost),
{
    let pos: usize = usize_from_u32(query_pos);
    if pos >= query.len() {
        return None;
    }
    match query_pos.checked_add(1) {
        Some(np) => codec.encode_automaton_state(np, edit_cost),
        None => None,
    }
}

/// Expand a transposition continuation on node `node_id`: each edge labelled
/// with the query character at `query_pos` reads the next query character for free.
pub fn expand_transpose_second<N>(codec: &LevenshteinStateCodec, query: &[char], registry: &mut DictionaryNodeRegistry<N>,
    node_id: u32, from: u32, query_pos: u32, edit_cost: u32, edges: Vec<DictionaryEdge<N>>) -> (r: LevenshteinExpansion)
    requires
        old(registry).wf(),
    ensures
        final(registry).wf(),
        r.final_distance is None,
        match spec_transpose_second_plan(*codec, query@, query_pos, edit_cost) {
            Some((required, second, target)) => {
                let fold = spec_single_fold(*codec, node_id, from, old(registry).spec_ids(), old(registry).spec_nodes(),
                    edges@, Some(required), Some(second), target);
                &&& final(registry).spec_ids() == fold.0
                &&& final(registry).spec_nodes() == fold.1
                &&& r.transitions@ == fold.2
            },
            None => {
                &&& final(registry).spec_ids() == old(registry).spec_ids()
                &&& final(registry).spec_nodes() == old(registry).spec_nodes()
                &&& r.transitions@ == Seq::<LevenshteinTransition>::empty()
            },
        },
{
    match transpose_second_plan(codec, query, query_pos, edit_cost) {
        Some((required, second, target)) => {
            let transitions = expand_single(codec, node_id, from, registry, edges, Some(required), Some(second), target);
            LevenshteinExpansion { final_distance: None, transitions }
        },
        None => LevenshteinExpansion { final_distance: None, transitions: Vec::new() },
    }
}

/// Expand a split continuation on node `node_id`: every edge writes its label
/// for free and reaches `(query_pos + 1, edit_cost)`.
pub fn expand_split_second<N>(codec: &LevenshteinStateCodec, query: &[char], registry: &mut DictionaryNodeRegistry<N>,
    node_id: u32, from: u32, query_pos: u32, edit_cost: u32, edges: Vec<DictionaryEdge<N>>) -> (r: LevenshteinExpansion)
    requires
        old(registry).wf(),
    ensures
        final(registry).wf(),
        r.final_distance is None,
        match spec_split_second_target(*codec, query@, query_pos, edit_cost) {
            Some(target) => {
                let fold = spec_single_fold(*codec, node_id, from, old(registry).spec_ids(), old(registry).spec_nodes(),
                    edges@, None, None, target);
                &&& final(registry).spec_ids() == fold.0
                &&& final(registry).spec_nodes() == fold.1
                &&& r.transitions@ == fold.2
            },
            None => {
                &&& final(registry).spec_ids() == old(registry).spec_ids()
                &&& final(registry).spec_nodes() == old(registry).spec_nodes()
                &&& r.transitions@ == Seq::<LevenshteinTransition>::empty()
            },
        },
{
    match split_second_target(codec, query, query_pos, edit_cost) {
        Some(target) => {
            let transitions = expand_single(codec, node_id, from, registry, edges, None, None, target);
            LevenshteinExpansion { final_distance: None, transitions }
        },
        None => LevenshteinExpansion { final_distance: None, transitions: Vec::new() },
    }
}

/// Expand a merge continuation on node `node_id`.
pub fn expand_merge_second(codec: &LevenshteinStateCodec, query: &[char], node_id: u32, from: u32, query_pos: u32, edit_cost: u32)
    -> (r: LevenshteinExpansion)
    ensures
        r.final_distance is None,
        r.transitions@ == spec_merge_second_arcs(*codec, query@, node_id, from, query_pos, edit_cost),
{
    let mut transitions: Vec<LevenshteinTransition> = Vec::new();
    let pos: usize = usize_from_u32(query_pos);
    let next_pos: usize = match next_index(pos, query.len()) {
        Some(np) => np,
        None => return LevenshteinExpansion { final_distance: None, transitions },
    };
    let target: u32 = match query_pos.checked_add(2) {
        Some(np) => match codec.encode_automaton_state(np, edit_cost) {
            Some(t) => t,
            None => return LevenshteinExpansion { final_distance: None, transitions },
        },
        None => return LevenshteinExpansion { final_distance: None, transitions },
    };
    push_target_arc(codec, &mut transitions, from, node_id, Some(query[next_pos]), None, target, 0);
    assert(transitions@ =~= spec_merge_second_arcs(*codec, query@, node_id, from, query_pos, edit_cost));
    LevenshteinExpansion { final_distance: None, transitions }
}

/// The registered node and automaton state of product state `state`, when it
/// decodes, its automaton state exists, its node is registered, and the pair
/// encodes back.
pub open spec fn spec_expansion_target(codec: LevenshteinStateCodec, node_count: nat, state: u32) -> Option<(u32, AutomatonState)> {
    match decoded_state(state, codec.spec_max_states()) {
        Some((node_id, automaton_state_id)) => match codec.spec_decode_automaton_state(automaton_state_id) {
            Some(kind) => if node_id < node_count && encoded_state(node_id, automaton_state_id, codec.spec_max_states()) is Some {
                Some((node_id, kind))
            } else {
                None
            },
            None => None,
        },
        None => None,
    }
}

/// The registered node and automaton state of product state `state`.
pub fn expansion_target<N>(codec: &LevenshteinStateCodec, registry: &DictionaryNodeRegistry<N>, state: u32) -> (r: Option<(u32, AutomatonState)>)
    requires
        codec.wf(),
    ensures
        r == spec_expansion_target(*codec, registry.spec_nodes().len(), state),
{
    let (node_id, automaton_state_id) = match codec.decode_product_state(state) {
        Some(pair) => pair,
        None => return None,
    };
    let kind: AutomatonState = match codec.decode_automaton_state(automaton_state_id) {
        Some(k) => k,
        None => return None,
    };
    if registry.get_node(node_id).is_none() {
        return None;
    }
    if codec.encode_product_state(node_id, automaton_state_id).is_none() {
        return None;
    }
    Some((node_id, kind))
}

/// Whether expanding an automaton state reads the node's edges.
pub open spec fn spec_reads_edges(codec: LevenshteinStateCodec, query: Seq<char>, kind: AutomatonState) -> bool {
    match kind {
        AutomatonState::Normal { query_pos, edit_cost } => spec_normal_context(codec, query, query_pos, edit_cost).reads_edges,
        AutomatonState::TransposeSecond { query_pos, edit_cost } => spec_transpose_second_plan(codec, query, query_pos, edit_cost) is Some,
        AutomatonState::SplitSecond { query_pos, edit_cost } => spec_split_second_target(codec, query, query_pos, edit_cost) is Some,
        AutomatonState::MergeSecond { .. } => false,
    }
}

/// Whether expanding an automaton state reads the node's edges.
pub fn expansion_reads_edges(codec: &LevenshteinStateCodec, query: &[char], kind: AutomatonState) -> (r: bool)
    ensures
        r == spec_reads_edges(*codec, query@, kind),
{
    match kind {
        AutomatonState::Normal { query_pos, edit_cost } => normal_context(codec, query, query_pos, edit_cost).reads_edges,
        AutomatonState::TransposeSecond { query_pos, edit_cost } => transpose_second_plan(codec, query, query_pos, edit_cost).is_some(),
        AutomatonState::SplitSecond { query_pos, edit_cost } => split_second_target(codec, query, query_pos, edit_cost).is_some(),
        AutomatonState::MergeSecond { .. } => false,
    }
}

/// The label whose presence among a child's edges decides a transposition
/// into that child: the query character at `query_pos` of a normal state
/// that can transpose.
pub open spec fn spec_transposition_probe(codec: LevenshteinStateCodec, query: Seq<char>, kind: AutomatonState) -> Option<char> {
    match kind {
        AutomatonState::Normal { query_pos, edit_cost } => match spec_normal_context(codec, query, query_pos, edit_cost).transpose {
            Some((f, _, _)) => Some(f),
            None => None,
        },
        _ => None,
    }
}

/// The label whose presence among a child's edges decides a transposition.
pub fn transposition_probe(codec: &LevenshteinStateCodec, query: &[char], kind: AutomatonState) -> (r: Option<char>)
    ensures
        r == spec_transposition_probe(*codec, query@, kind),
{
    match kind {
        AutomatonState::Normal { query_pos, edit_cost } => match normal_context(codec, query, query_pos, edit_cost).transpose {
            Some((f, _, _)) => Some(f),
            None => None,
        },
        _ => None,
    }
}

/// Expand product state `state`, whose node is final when `node_is_final`
/// and has the outgoing `edges`. An ill-formed state expands to nothing.
pub fn expand_product_state<N>(codec: &LevenshteinStateCodec, query: &[char], registry: &mut DictionaryNodeRegistry<N>,
    state: u32, node_is_final: bool, edges: Vec<DictionaryEdge<N>>) -> (r: LevenshteinExpansion)
    requires
        codec.wf(),
        old(registry).wf(),
    ensures
        final(registry).wf(),
        match spec_expansion_target(*codec, old(registry).spec_nodes().len(), state) {
            None => {
                &&& r.final_distance is None
                &&& r.transitions@ == Seq::<LevenshteinTransition>::empty()
                &&& final(registry).spec_ids() == old(registry).spec_ids()
                &&& final(registry).spec_nodes() == old(registry).spec_nodes()
            },
            Some((node_id, AutomatonState::Normal { query_pos, edit_cost })) => {
                let ctx = spec_normal_context(*codec, query@, query_pos, edit_cost);
                let fold = spec_normal_fold(*codec, ctx, node_id, state, old(registry).spec_ids(), old(registry).spec_nodes(), edges@);
                &&& r.final_distance == spec_normal_final(*codec, query@.len() as usize, node_is_final, query_pos, edit_cost)
                &&& ctx.reads_edges ==> {
                    &&& final(registry).spec_ids() == fold.0
                    &&& final(registry).spec_nodes() == fold.1
                    &&& r.transitions@ == fold.2 + spec_delete_arc(*codec, ctx, node_id, state)
                }
                &&& !ctx.reads_edges ==> {
                    &&& final(registry).spec_ids() == old(registry).spec_ids()
                    &&& final(registry).spec_nodes() == old(registry).spec_nodes()
                    &&& r.transitions@ == spec_delete_arc(*codec, ctx, node_id, state)
                }
            },
            Some((node_id, AutomatonState::TransposeSecond { query_pos, edit_cost })) => {
                &&& r.final_distance is None
                &&& match spec_transpose_second_plan(*codec, query@, query_pos, edit_cost) {
                    Some((required, second, target)) => {
                        let fold = spec_single_fold(*codec, node_id, state, old(registry).spec_ids(), old(registry).spec_nodes(),
                            edges@, Some(required), Some(second), target);
                        &&& final(registry).spec_ids() == fold.0
                        &&& final(registry).spec_nodes() == fold.1
                        &&& r.transitions@ == fold.2
                    },
                    None => {
                        &&& final(registry).spec_ids() == old(registry).spec_ids()
                        &&& final(registry).spec_nodes() == old(registry).spec_nodes()
                        &&& r.transitions@ == Seq::<LevenshteinTransition>::empty()
                    },
                }
            },
            Some((node_id, AutomatonState::SplitSecond { query_pos, edit_cost })) => {
                &&& r.final_distance is None
                &&& match spec_split_second_target(*codec, query@, query_pos, edit_cost) {
                    Some(target) => {
                        let fold = spec_single_fold(*codec, node_id, state, old(registry).spec_ids(), old(registry).spec_nodes(),
                            edges@, None, None, target);
                        &&& final(registry).spec_ids() == fold.0
                        &&& final(registry).spec_nodes() == fold.1
                        &&& r.transitions@ == fold.2
                    },
                    None => {
                        &&& final(registry).spec_ids() == old(registry).spec_ids()
                        &&& final(registry).spec_nodes() == old(registry).spec_nodes()
                        &&& r.transitions@ == Seq::<LevenshteinTransition>::empty()
                    },
                }
            },
            Some((node_id, AutomatonState::MergeSecond { query_pos, edit_cost })) => {
                &&& r.final_distance is None
                &&& r.transitions@ == spec_merge_second_arcs(*codec, query@, node_id, state, query_pos, edit_cost)
                &&& final(registry).spec_ids() == old(registry).spec_ids()
                &&& final(registry).spec_nodes() == old(registry).spec_nodes()
            },
        },
{
    let (node_id, kind) = match expansion_target(codec, registry, state) {
        Some(t) => t,
        None => {
            return LevenshteinExpansion { final_distance: None, transitions: Vec::new() };
        },
    };
    proof {
        crate::state_encoding::lemma_encode_decode_roundtrip(state, codec.spec_max_states());
    }
    match kind {
        AutomatonState::Normal { query_pos, edit_cost } =>
            expand_normal(codec, query, registry, node_id, state, query_pos, edit_cost, node_is_final, edges),
        AutomatonState::TransposeSecond { query_pos, edit_cost } =>
            expand_transpose_second(codec, query, registry, node_id, state, query_pos, edit_cost, edges),
        AutomatonState::SplitSecond { query_pos, edit_cost } =>
            expand_split_second(codec, query, registry, node_id, state, query_pos, edit_cost, edges),
        AutomatonState::MergeSecond { query_pos, edit_cost } =>
            expand_merge_second(codec, query, node_id, state, query_pos, edit_cost),
    }
}

/// Whether `state` is a product state of a registered node and an existing automaton state.
pub fn is_valid_product_state<N>(codec: &LevenshteinStateCodec, registry: &DictionaryNodeRegistry<N>, state: u32) -> (r: bool)
    requires
        codec.wf(),
    ensures
        r == (match decoded_state(state, codec.spec_max_states()) {
            Some((node_id, automaton_state_id)) => codec.spec_decode_automaton_state(automaton_state_id) is Some
                && node_id < registry.spec_nodes().len(),
            None => false,
        }),
{
    let (node_id, automaton_state_id) = match codec.decode_product_state(state) {
        Some(pair) => pair,
        None => return false,
    };
    if codec.decode_automaton_state(automaton_state_id).is_none() {
        return false;
    }
    registry.get_node(node_id).is_some()
}

/// The edits still owed when `state` accepts: only normal states on a final
/// node accept (`node_is_final` is the finality of the state's node).
pub fn final_distance_for_state<N>(codec: &LevenshteinStateCodec, query_len: usize, registry: &DictionaryNodeRegistry<N>,
    state: u32, node_is_final: bool) -> (r: Option<usize>)
    requires
        codec.wf(),
    ensures
        r == (match decoded_state(state, codec.spec_max_states()) {
            Some((node_id, automaton_state_id)) => match codec.spec_decode_automaton_state(automaton_state_id) {
                Some(AutomatonState::Normal { query_pos, edit_cost }) => if node_id < registry.spec_nodes().len() {
                    spec_normal_final(*codec, query_len, node_is_final, query_pos, edit_cost)
                } else {
                    None
                },
                _ => None,
            },
            None => None,
        }),
{
    let (node_id, automaton_state_id) = match codec.decode_product_state(state) {
        Some(pair) => pair,
        None => return None,
    };
    match codec.decode_automaton_state(automaton_state_id) {
        Some(AutomatonState::Normal { query_pos, edit_cost }) => {
            if registry.get_node(node_id).is_none() {
                return None;
            }
            normal_final(codec, query_len, node_is_final, query_pos, edit_cost)
        },
        _ => None,
    }
}

/// Number of product IDs the registered nodes span.
pub fn registered_state_id_span<N>(codec: &LevenshteinStateCodec, registry: &DictionaryNodeRegistry<N>) -> (r: usize)
    ensures
        r == crate::hints::spec_state_id_span(registry.spec_nodes().len() as usize, codec.spec_max_states() as usize,
            codec.spec_max_states() as usize),
{
    let automaton_states: usize = usize_from_u32(codec.max_automaton_states());
    crate::hints::registered_product_state_id_span(registry.len(), automaton_states, automaton_states)
}

/// State-count hint of the product: the dictionary estimate, never below the
/// IDs the registered nodes span.
pub fn product_states_hint<N>(codec: &LevenshteinStateCodec, registry: &DictionaryNodeRegistry<N>, dictionary_len: Option<usize>) -> (r: Option<usize>)
    ensures
        r == (match dictionary_len {
            Some(d) => {
                let count = registry.spec_nodes().len() as usize;
                let width = codec.spec_max_states() as usize;
                let nodes: usize = if d < count { count } else { d };
                let estimate = crate::hints::spec_product_hint(nodes, width);
                let live = crate::hints::spec_state_id_span(count, width, width);
                Some(if estimate < live { live } else { estimate })
            },
            None => None,
        }),
{
    let automaton_states: usize = usize_from_u32(codec.max_automaton_states());
    crate::hints::registered_dictionary_product_states_hint(dictionary_len, registry.len(), automaton_states)
}

/// Edit accounting of a normal state `(query_pos, edit_cost)`: an insertion
/// stays at the query position and spends one edit; a deletion advances one
/// query position and spends one edit; a transposition, merge or split
/// enters its continuation at the same position with one edit spent; a
/// match advances one position and spends nothing when the labels agree and
/// one edit otherwise. No move leaves the edit budget, none is offered once
/// it is spent, and each move that fits the budget and the numbering is offered.
pub proof fn lemma_normal_moves_spend_their_cost(codec: LevenshteinStateCodec, query: Seq<char>, query_pos: u32,
    edit_cost: u32, label: char)
    requires
        codec.wf(),
        query.len() == codec.spec_query_len(),
        query_pos <= query.len(),
        edit_cost <= codec.spec_max_distance(),
    ensures
        ({
            let ctx = spec_normal_context(codec, query, query_pos, edit_cost);
            let max = codec.spec_max_distance();
            &&& ctx.insert matches Some(t) ==> edit_cost + 1 <= max
                && codec.spec_decode_automaton_state(t)
                    == Some(AutomatonState::Normal { query_pos, edit_cost: (edit_cost + 1) as u32 })
            &&& ctx.delete matches Some(t) ==> query_pos < query.len() && edit_cost + 1 <= max
                && codec.spec_decode_automaton_state(t)
                    == Some(AutomatonState::Normal { query_pos: (query_pos + 1) as u32, edit_cost: (edit_cost + 1) as u32 })
            &&& ctx.transpose matches Some((first, second, t)) ==> query_pos + 1 < query.len() && edit_cost + 1 <= max
                && first == query[query_pos as int] && second == query[query_pos + 1]
                && codec.spec_decode_automaton_state(t)
                    == Some(AutomatonState::TransposeSecond { query_pos, edit_cost: (edit_cost + 1) as u32 })
            &&& ctx.merge matches Some((first, t)) ==> query_pos + 1 < query.len() && edit_cost + 1 <= max
                && first == query[query_pos as int]
                && codec.spec_decode_automaton_state(t)
                    == Some(AutomatonState::MergeSecond { query_pos, edit_cost: (edit_cost + 1) as u32 })
            &&& ctx.split matches Some((first, t)) ==> query_pos < query.len() && edit_cost + 1 <= max
                && first == query[query_pos as int]
                && codec.spec_decode_automaton_state(t)
                    == Some(AutomatonState::SplitSecond { query_pos, edit_cost: (edit_cost + 1) as u32 })
            &&& spec_match(codec, ctx, label) matches Some((qc, oc, t)) ==> {
                    &&& query_pos < query.len()
                    &&& qc == query[query_pos as int]
                    &&& oc == (if qc == label { 0u32 } else { 1u32 })
                    &&& edit_cost + oc <= max
                    &&& codec.spec_decode_automaton_state(t) == Some(AutomatonState::Normal {
                            query_pos: (query_pos + 1) as u32, edit_cost: (edit_cost + oc) as u32 })
                }
            &&& edit_cost >= max ==> ctx.insert is None && ctx.delete is None && ctx.transpose is None
                && ctx.merge is None && ctx.split is None
            &&& edit_cost < max && edit_cost < u32::MAX
                && codec.spec_encode_automaton_state(query_pos, (edit_cost + 1) as u32) is Some
                ==> ctx.insert is Some
            &&& edit_cost < max && edit_cost < u32::MAX && query_pos < query.len() && query_pos < u32::MAX
                && codec.spec_encode_automaton_state((query_pos + 1) as u32, (edit_cost + 1) as u32) is Some
                ==> ctx.delete is Some
            &&& query_pos < query.len() && query_pos < u32::MAX && {
                    let oc: u32 = if query[query_pos as int] == label { 0u32 } else { 1u32 };
                    edit_cost + oc <= max && edit_cost + oc <= u32::MAX
                        && codec.spec_encode_automaton_state((query_pos + 1) as u32, (edit_cost + oc) as u32) is Some
                } ==> spec_match(codec, ctx, label) is Some
        }),
{
    let ctx = spec_normal_context(codec, query, query_pos, edit_cost);
    let max = codec.spec_max_distance();
    let next = (edit_cost + 1) as u32;
    lemma_band_widths(codec);
    if let Some(t) = ctx.insert {
        lemma_normal_state_roundtrip(codec, query_pos, next);
    }
    if let Some(t) = ctx.delete {
        lemma_normal_state_roundtrip(codec, (query_pos + 1) as u32, next);
    }
    if let Some((_, _, t)) = ctx.transpose {
        lemma_continuation_state_roundtrip(codec, 1, query_pos, next);
    }
    if let Some((_, t)) = ctx.merge {
        let slot = spec_merge_second_slot(codec.spec_algorithm())->0;
        lemma_continuation_state_roundtrip(codec, slot, query_pos, next);
    }
    if let Some((_, t)) = ctx.split {
        let slot = spec_split_second_slot(codec.spec_algorithm())->0;
        lemma_continuation_state_roundtrip(codec, slot, query_pos, next);
    }
    if let Some((qc, oc, t)) = spec_match(codec, ctx, label) {
        lemma_normal_state_roundtrip(codec, (query_pos + 1) as u32, (edit_cost + oc) as u32);
    }
}

} // verus!
