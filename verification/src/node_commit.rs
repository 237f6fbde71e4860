//! Identities for the dictionary nodes an expansion reaches: each staged
//! node, reached by an edge label from a registered or earlier staged
//! parent, receives the ID its path key already has, the ID an earlier node
//! of the same batch received, or the next dense ID within the
//! retained-node ceiling; the new nodes are then registered together.
use vstd::prelude::*;
use rustc_hash::FxHashMap;
use crate::fx_map::{fx_get, fx_insert, fx_map_with_capacity};
use crate::generalized_expansion::{
    arc_entry, arc_ok, arc_product, arc_width, arcs_fold, first_label, stage_operation_arcs, BatchView,
    OperationTransition, PendingOperationArc,
};
use crate::generalized_states::{
    chains_after, product_key, products_after, ChainKey, StateBatch, StateRegistry,
};
use crate::generalized_limits::{
    require_at_most, ExpansionBudget, GeneralizedWfstError, GeneralizedWfstResource, PendingDictionaryNode,
};
use crate::node_key::{spec_child_key, DictionaryNodeKey};
use crate::node_registry::{next_registry_id, DictionaryNodeRegistry};

verus! {

/// A dictionary node reached by the edge `label` from `parent`, before it
/// has an ID.
pub struct StagedNode<N> {
    /// The node the edge leaves: registered, or staged at an earlier offset.
    pub parent: PendingDictionaryNode,
    /// The edge's label.
    pub label: char,
    /// The node reached.
    pub node: N,
}

/// Every staged node's parent is registered or staged before it.
pub open spec fn parents_precede<N>(staged: Seq<StagedNode<N>>) -> bool {
    forall|j: int| 0 <= j < staged.len() ==> match (#[trigger] staged[j]).parent {
        PendingDictionaryNode::Registered(_) => true,
        PendingDictionaryNode::Staged(i) => i < j,
    }
}

/// The ID of a parent, given the IDs resolved so far.
pub open spec fn parent_id(parent: PendingDictionaryNode, resolved: Seq<u32>) -> u32 {
    match parent {
        PendingDictionaryNode::Registered(id) => id,
        PendingDictionaryNode::Staged(i) => resolved[i as int],
    }
}

/// The IDs given to new keys, in order from `base`.
pub open spec fn fresh_ids(keys: Seq<u64>, base: nat) -> Map<u64, u32>
    decreases keys.len(),
{
    if keys.len() == 0 {
        Map::empty()
    } else {
        fresh_ids(keys.drop_last(), base).insert(keys.last(), (base + keys.len() - 1) as u32)
    }
}

/// The keys of new (key, node) pairs.
pub open spec fn addition_keys<N>(added: Seq<(u64, N)>) -> Seq<u64> {
    added.map_values(|a: (u64, N)| a.0)
}

/// New (key, node) pairs by the keys' packed values.
pub open spec fn addition_view<N>(additions: Seq<(DictionaryNodeKey, N)>) -> Seq<(u64, N)> {
    additions.map_values(|a: (DictionaryNodeKey, N)| (a.0.0, a.1))
}

/// Charging one work unit when `work` are charged under `limit`: the error, if any.
pub open spec fn charge_one(work: nat, limit: usize) -> Option<GeneralizedWfstError> {
    if work + 1 > usize::MAX {
        Some(GeneralizedWfstError::ArithmeticOverflow("counting expansion work"))
    } else if work + 1 > limit {
        Some(GeneralizedWfstError::LimitExceeded {
            resource: GeneralizedWfstResource::WorkUnitsPerExpansion,
            limit,
            required: (work + 1) as usize,
        })
    } else {
        None
    }
}

/// The IDs resolved so far and the new (key, node) pairs.
pub type Resolution<N> = (Seq<u32>, Seq<(u64, N)>);

/// One staged node: one work unit; then the ID of its key in the registry
/// `ids` (of `base` nodes), else among this batch's new keys, else the next
/// ID, if the node count and the ceiling `max_nodes` allow one.
pub open spec fn resolve_step<N>(ids: Map<u64, u32>, base: nat, max_nodes: usize, work: nat, max_work: usize,
    acc: Resolution<N>, s: StagedNode<N>) -> Result<Resolution<N>, GeneralizedWfstError> {
    match charge_one(work, max_work) {
        Some(e) => Err(e),
        None => {
            let key = spec_child_key(parent_id(s.parent, acc.0), s.label);
            let fresh = fresh_ids(addition_keys(acc.1), base);
            if ids.contains_key(key) {
                Ok((acc.0.push(ids[key]), acc.1))
            } else if fresh.contains_key(key) {
                Ok((acc.0.push(fresh[key]), acc.1))
            } else {
                let count = base + acc.1.len();
                if count + 1 > usize::MAX {
                    Err(GeneralizedWfstError::ArithmeticOverflow("counting dictionary nodes"))
                } else if count + 1 > max_nodes {
                    Err(GeneralizedWfstError::LimitExceeded {
                        resource: GeneralizedWfstResource::RetainedDictionaryNodes,
                        limit: max_nodes,
                        required: (count + 1) as usize,
                    })
                } else if count > u32::MAX {
                    Err(GeneralizedWfstError::ArithmeticOverflow("encoding a dictionary node ID"))
                } else {
                    Ok((acc.0.push(count as u32), acc.1.push((key, s.node))))
                }
            }
        }
    }
}

/// The staged nodes resolved in order, `work` units charged before the first.
pub open spec fn resolve_fold<N>(ids: Map<u64, u32>, base: nat, max_nodes: usize, work: nat, max_work: usize,
    staged: Seq<StagedNode<N>>) -> Result<Resolution<N>, GeneralizedWfstError>
    decreases staged.len(),
{
    if staged.len() == 0 {
        Ok((Seq::empty(), Seq::empty()))
    } else {
        match resolve_fold(ids, base, max_nodes, work, max_work, staged.drop_last()) {
            Err(e) => Err(e),
            Ok(acc) => resolve_step(ids, base, max_nodes, (work + staged.len() - 1) as nat, max_work, acc,
                staged.last()),
        }
    }
}

/// Once a prefix fails, the whole resolution fails with the same error.
proof fn lemma_resolve_error_persists<N>(ids: Map<u64, u32>, base: nat, max_nodes: usize, work: nat,
    max_work: usize, staged: Seq<StagedNode<N>>, k: int)
    requires
        0 <= k <= staged.len(),
        resolve_fold(ids, base, max_nodes, work, max_work, staged.take(k)) is Err,
    ensures
        resolve_fold(ids, base, max_nodes, work, max_work, staged)
            == resolve_fold(ids, base, max_nodes, work, max_work, staged.take(k)),
    decreases staged.len() - k,
{
    if k < staged.len() {
        assert(staged.take(k + 1).drop_last() =~= staged.take(k));
        lemma_resolve_error_persists(ids, base, max_nodes, work, max_work, staged, k + 1);
    } else {
        assert(staged.take(k) =~= staged);
    }
}

/// A new key's ID is `base` plus its position, below `base` plus the count.
proof fn lemma_fresh_ids(keys: Seq<u64>, base: nat)
    ensures
        fresh_ids(keys, base).dom() == keys.to_set(),
        base + keys.len() <= u32::MAX + 1 ==> forall|k: u64| #[trigger] fresh_ids(keys, base).contains_key(k)
            ==> base <= fresh_ids(keys, base)[k] < base + keys.len(),
    decreases keys.len(),
{
    if keys.len() > 0 {
        lemma_fresh_ids(keys.drop_last(), base);
        assert(keys.to_set() =~= keys.drop_last().to_set().insert(keys.last())) by {
            assert forall|k: u64| keys.to_set().contains(k) <==> keys.drop_last().to_set().insert(keys.last()).contains(k) by {
                if keys.contains(k) && k != keys.last() {
                    let i = choose|i: int| 0 <= i < keys.len() && keys[i] == k;
                    assert(keys.drop_last()[i] == k);
                }
                if keys.drop_last().contains(k) {
                    let i = choose|i: int| 0 <= i < keys.drop_last().len() && keys.drop_last()[i] == k;
                    assert(keys[i] == k);
                }
            }
        }
    } else {
        assert(keys.to_set() =~= Set::<u64>::empty());
    }
}

/// Resolve the staged nodes in order against `registry`: each is charged one
/// work unit, then receives the ID its path key has in the registry or among
/// this batch's new keys, or else the next dense ID, within `max_retained_nodes`
/// retained nodes. Exactly `resolve_fold`'s outcome; on success the new
/// (key, node) pairs are returned in order, their keys distinct and
/// unregistered, and every staged node's key maps, in the registry extended
/// by them, to its resolved ID.
pub fn resolve_staged_nodes<N>(registry: &DictionaryNodeRegistry<N>, staged: Vec<StagedNode<N>>,
    max_retained_nodes: usize, budget: &mut ExpansionBudget)
    -> (r: Result<(Vec<u32>, Vec<(DictionaryNodeKey, N)>), GeneralizedWfstError>)
    requires
        registry.wf(),
        parents_precede(staged@),
    ensures
        final(budget).spec_limits() == old(budget).spec_limits(),
        match resolve_fold(registry.spec_ids(), registry.spec_nodes().len(), max_retained_nodes,
            old(budget).spec_work(), old(budget).spec_limits().max_work_units_per_expansion, staged@) {
            Ok((resolved, added)) => r matches Ok((ids, additions)) && {
                let keys = addition_keys(added);
                let all_ids = registry.spec_ids().union_prefer_right(fresh_ids(keys, registry.spec_nodes().len()));
                &&& ids@ == resolved
                &&& ids@.len() == staged@.len()
                &&& registry.spec_nodes().len() + additions@.len() <= u32::MAX + 1
                &&& addition_view(additions@) == added
                &&& final(budget).spec_work() == old(budget).spec_work() + staged@.len()
                &&& keys.no_duplicates()
                &&& forall|k: u64| #[trigger] keys.contains(k) ==> !registry.spec_ids().contains_key(k)
                &&& forall|j: int| 0 <= j < staged@.len() ==> {
                        let key = spec_child_key(parent_id((#[trigger] staged@[j]).parent, resolved), staged@[j].label);
                        all_ids.contains_key(key) && all_ids[key] == resolved[j]
                    }
            },
            Err(e) => r == Err::<(Vec<u32>, Vec<(DictionaryNodeKey, N)>), GeneralizedWfstError>(e),
        },
{
    let ghost all = staged@;
    let ghost ids0 = registry.spec_ids();
    let ghost base = registry.spec_nodes().len();
    let ghost w0 = budget.spec_work();
    let ghost max_work = budget.spec_limits().max_work_units_per_expansion;
    let mut resolved: Vec<u32> = Vec::new();
    let mut additions: Vec<(DictionaryNodeKey, N)> = Vec::new();
    let mut fresh: FxHashMap<u64, u32> = fx_map_with_capacity(0);
    proof {
        registry.lemma_ids_name_nodes();
        assert(all.take(0) =~= Seq::<StagedNode<N>>::empty());
        assert(addition_view(additions@) =~= Seq::<(u64, N)>::empty());
        assert(addition_keys(addition_view(additions@)) =~= Seq::<u64>::empty());
        assert(fresh@ =~= fresh_ids(Seq::<u64>::empty(), base));
    }
    for s in it: staged.into_iter()
        invariant
            it.seq() == all,
            registry.wf(),
            parents_precede(all),
            ids0 == registry.spec_ids(),
            base == registry.spec_nodes().len(),
            max_work == old(budget).spec_limits().max_work_units_per_expansion,
            w0 == old(budget).spec_work(),
            budget.spec_limits() == old(budget).spec_limits(),
            budget.spec_work() == w0 + it.index(),
            resolve_fold(ids0, base, max_retained_nodes, w0, max_work, all.take(it.index() as int))
                == Ok::<Resolution<N>, GeneralizedWfstError>(
                    (resolved@, addition_view(additions@))),
            fresh@ == fresh_ids(addition_keys(addition_view(additions@)), base),
            resolved@.len() == it.index(),
            base + additions@.len() <= u32::MAX + 1,
            addition_keys(addition_view(additions@)).no_duplicates(),
            forall|k: u64| #[trigger] addition_keys(addition_view(additions@)).contains(k)
                ==> !ids0.contains_key(k),
            forall|j: int| 0 <= j < it.index() ==> {
                let key = spec_child_key(parent_id((#[trigger] all[j]).parent, resolved@), all[j].label);
                let all_ids = ids0.union_prefer_right(fresh@);
                all_ids.contains_key(key) && all_ids[key] == resolved@[j]
            },
    {
        let ghost j = it.index();
        let ghost added = addition_view(additions@);
        let ghost acc = (resolved@, added);
        proof {
            assert(all.take(j + 1).drop_last() =~= all.take(j as int));
            assert(all.take(j + 1).last() == s);
            assert(all[j as int] == s);
            budget.lemma_counts_fit();
        }
        match budget.charge_work(1) {
            Ok(()) => {},
            Err(e) => {
                proof {
                    lemma_resolve_error_persists(ids0, base, max_retained_nodes, w0, max_work, all, j + 1);
                }
                return Err(e);
            },
        }
        let parent: u32 = match s.parent {
            PendingDictionaryNode::Registered(id) => id,
            PendingDictionaryNode::Staged(i) => resolved[i],
        };
        let key: DictionaryNodeKey = DictionaryNodeKey::child(parent, s.label);
        let ghost step = resolve_step(ids0, base, max_retained_nodes, (w0 + j) as nat, max_work, acc, s);
        let known: Option<u32> = match registry.get_id(key) {
            Some(id) => Some(id),
            None => match fx_get(&fresh, &key.0) {
                Some(id) => Some(*id),
                None => None,
            },
        };
        let ghost resolved0 = resolved@;
        let ghost fresh0 = fresh@;
        let ghost keys0 = addition_keys(added);
        proof {
            assert(key.0 == spec_child_key(parent_id(s.parent, resolved0), s.label));
            assert((w0 + all.take(j + 1).len() - 1) as nat == w0 + j);
            assert(resolve_fold(ids0, base, max_retained_nodes, w0, max_work, all.take(j + 1)) == step);
            lemma_fresh_ids(keys0, base);
        }
        match known {
            Some(id) => {
                resolved.push(id);
                proof {
                    assert(ids0.union_prefer_right(fresh0).contains_key(key.0));
                    assert(ids0.union_prefer_right(fresh0)[key.0] == id);
                    assert(step == Ok::<Resolution<N>, GeneralizedWfstError>((resolved@, added)));
                }
            },
            None => {
                let count: usize = match registry.len().checked_add(additions.len()) {
                    Some(c) => c,
                    None => {
                        proof {
                            lemma_resolve_error_persists(ids0, base, max_retained_nodes, w0, max_work, all, j + 1);
                        }
                        return Err(GeneralizedWfstError::ArithmeticOverflow("counting dictionary nodes"));
                    },
                };
                let required: usize = match count.checked_add(1) {
                    Some(c) => c,
                    None => {
                        proof {
                            lemma_resolve_error_persists(ids0, base, max_retained_nodes, w0, max_work, all, j + 1);
                        }
                        return Err(GeneralizedWfstError::ArithmeticOverflow("counting dictionary nodes"));
                    },
                };
                match require_at_most(GeneralizedWfstResource::RetainedDictionaryNodes, required, max_retained_nodes) {
                    Ok(()) => {},
                    Err(e) => {
                        proof {
                            lemma_resolve_error_persists(ids0, base, max_retained_nodes, w0, max_work, all, j + 1);
                        }
                        return Err(e);
                    },
                }
                let id: u32 = match next_registry_id(count) {
                    Some(id) => id,
                    None => {
                        proof {
                            lemma_resolve_error_persists(ids0, base, max_retained_nodes, w0, max_work, all, j + 1);
                        }
                        return Err(GeneralizedWfstError::ArithmeticOverflow("encoding a dictionary node ID"));
                    },
                };
                let _ = fx_insert(&mut fresh, key.0, id);
                additions.push((key, s.node));
                resolved.push(id);
                proof {
                    let added1 = addition_view(additions@);
                    assert(added1 =~= added.push((key.0, s.node)));
                    assert(addition_keys(added1) =~= keys0.push(key.0));
                    assert(keys0.push(key.0).drop_last() =~= keys0);
                    assert(keys0.len() == added.len());
                    assert(id == (base + keys0.len()) as u32);
                    assert(fresh@ =~= fresh_ids(keys0.push(key.0), base));
                    assert(fresh@ == fresh_ids(addition_keys(added1), base));
                    assert(!keys0.contains(key.0));
                    assert(step == Ok::<Resolution<N>, GeneralizedWfstError>((resolved@, added1)));
                    assert forall|k: u64| #[trigger] addition_keys(added1).contains(k) implies !ids0.contains_key(k) by {
                        if k != key.0 {
                            let i = choose|i: int| 0 <= i < addition_keys(added1).len() && addition_keys(added1)[i] == k;
                            assert(i < keys0.len());
                            assert(keys0[i] == k);
                            assert(keys0.contains(k));
                        }
                    }
                }
            },
        }
        proof {
            let added1 = addition_view(additions@);
            let all_ids = ids0.union_prefer_right(fresh@);
            assert forall|jj: int| 0 <= jj < j + 1 implies {
                let kk = spec_child_key(parent_id((#[trigger] all[jj]).parent, resolved@), all[jj].label);
                all_ids.contains_key(kk) && all_ids[kk] == resolved@[jj]
            } by {
                if jj < j {
                    assert(parent_id(all[jj].parent, resolved@) == parent_id(all[jj].parent, resolved0));
                    let kk = spec_child_key(parent_id(all[jj].parent, resolved0), all[jj].label);
                    assert(ids0.union_prefer_right(fresh0).contains_key(kk));
                    assert(resolved@[jj] == resolved0[jj]);
                } else {
                    assert(parent_id(all[jj].parent, resolved@) == parent_id(s.parent, resolved0));
                }
            }
        }
    }
    proof {
        assert(all.take(all.len() as int) =~= all);
    }
    Ok((resolved, additions))
}

/// Register the new (key, node) pairs in order: each key receives the next
/// dense ID, so the registry's keys grow by `fresh_ids` and its nodes by
/// theirs.
pub fn commit_node_additions<N>(registry: &mut DictionaryNodeRegistry<N>, additions: Vec<(DictionaryNodeKey, N)>)
    requires
        old(registry).wf(),
        addition_keys(addition_view(additions@)).no_duplicates(),
        forall|k: u64| #[trigger] addition_keys(addition_view(additions@)).contains(k)
            ==> !old(registry).spec_ids().contains_key(k),
        old(registry).spec_nodes().len() + additions@.len() <= u32::MAX + 1,
    ensures
        final(registry).wf(),
        final(registry).spec_ids() == old(registry).spec_ids().union_prefer_right(
            fresh_ids(addition_keys(addition_view(additions@)), old(registry).spec_nodes().len())),
        final(registry).spec_nodes() == old(registry).spec_nodes() + additions@.map_values(
            |a: (DictionaryNodeKey, N)| a.1),
{
    let ghost all = additions@;
    let ghost keys = addition_keys(addition_view(all));
    let ghost base = registry.spec_nodes().len();
    let ghost ids0 = registry.spec_ids();
    let ghost nodes0 = registry.spec_nodes();
    proof {
        assert(keys.take(0) =~= Seq::<u64>::empty());
        assert(ids0.union_prefer_right(fresh_ids(keys.take(0), base)) =~= ids0);
        assert(all.take(0).map_values(|a: (DictionaryNodeKey, N)| a.1) =~= Seq::<N>::empty());
        assert(nodes0 + Seq::<N>::empty() =~= nodes0);
    }
    for addition in it: additions.into_iter()
        invariant
            it.seq() == all,
            keys == addition_keys(addition_view(all)),
            keys.no_duplicates(),
            forall|k: u64| #[trigger] keys.contains(k) ==> !ids0.contains_key(k),
            base + all.len() <= u32::MAX + 1,
            base == nodes0.len(),
            registry.wf(),
            registry.spec_ids() == ids0.union_prefer_right(fresh_ids(keys.take(it.index() as int), base)),
            registry.spec_nodes() == nodes0 + all.take(it.index() as int).map_values(|a: (DictionaryNodeKey, N)| a.1),
    {
        let ghost i = it.index();
        let (key, node) = addition;
        proof {
            assert(all[i as int] == (key, node));
            assert(keys[i as int] == key.0);
            lemma_fresh_ids(keys.take(i as int), base);
            assert(!keys.take(i as int).contains(key.0)) by {
                if keys.take(i as int).contains(key.0) {
                    let m = choose|m: int| 0 <= m < i && keys.take(i as int)[m] == key.0;
                    assert(keys[m] == keys[i as int]);
                }
            }
            assert(keys.contains(key.0));
            assert(!registry.spec_ids().contains_key(key.0));
        }
        let _ = registry.register_node(node, key);
        proof {
            assert(keys.take(i + 1).drop_last() =~= keys.take(i as int));
            assert(keys.take(i + 1).last() == key.0);
            assert(registry.spec_ids() =~= ids0.union_prefer_right(fresh_ids(keys.take(i + 1), base)));
            assert(all.take(i + 1).map_values(|a: (DictionaryNodeKey, N)| a.1)
                =~= all.take(i as int).map_values(|a: (DictionaryNodeKey, N)| a.1).push(node));
            assert(registry.spec_nodes() =~= nodes0 + all.take(i + 1).map_values(|a: (DictionaryNodeKey, N)| a.1));
        }
    }
    proof {
        assert(keys.take(all.len() as int) =~= keys);
        assert(all.take(all.len() as int) =~= all);
    }
}

/// The batch before any arc is staged.
pub open spec fn empty_batch_view() -> BatchView {
    (Seq::empty(), Map::empty(), Map::empty())
}

/// The state an arc enters, given the registry and the staged batch `v`:
/// its product's ID (the registry's, else the batch's), or for an arc of
/// several label pairs the first continuation of its emission chain.
pub open spec fn staged_entry(registry: &StateRegistry, v: BatchView, arc: PendingOperationArc,
    resolved: Seq<u32>) -> Option<u32> {
    let k = product_key(arc_product(arc, resolved));
    let target: Option<u32> = if registry.spec_products().contains_key(k) {
        Some(registry.spec_products()[k])
    } else if v.1.contains_key(k) {
        Some(v.1[k])
    } else {
        None
    };
    match target {
        None => None,
        Some(t) => if arc_width(arc) <= 1 {
            Some(t)
        } else {
            let ck: ChainKey = (arc.input@, arc.output@, t);
            if registry.spec_chains().contains_key(ck) {
                Some(registry.spec_chains()[ck])
            } else if v.2.contains_key(ck) {
                Some(v.2[ck])
            } else {
                None
            }
        },
    }
}

/// The arcs staged, from `work` units charged, against the registry
/// `states` and the resolved node IDs.
pub open spec fn stage_fold(states: &StateRegistry, max_states: usize, max_work: usize, work: nat,
    arcs: Seq<PendingOperationArc>, resolved: Seq<u32>) -> Result<(nat, BatchView), GeneralizedWfstError> {
    arcs_fold(states, max_states, max_work, (work, empty_batch_view()), arcs, resolved)
}

/// Register a prepared expansion once the state registry has been reserved:
/// when `reserved` is an error nothing changes and that error is returned;
/// otherwise the new nodes and the batch's states are registered together
/// and the transitions are returned.
pub fn publish_expansion<N>(nodes: &mut DictionaryNodeRegistry<N>, states: &mut StateRegistry,
    additions: Vec<(DictionaryNodeKey, N)>, batch: StateBatch, transitions: Vec<OperationTransition>,
    reserved: Result<(), GeneralizedWfstError>) -> (r: Result<Vec<OperationTransition>, GeneralizedWfstError>)
    requires
        old(nodes).wf(),
        batch.wf_for(old(states)),
        addition_keys(addition_view(additions@)).no_duplicates(),
        forall|k: u64| #[trigger] addition_keys(addition_view(additions@)).contains(k)
            ==> !old(nodes).spec_ids().contains_key(k),
        old(nodes).spec_nodes().len() + additions@.len() <= u32::MAX + 1,
    ensures
        final(nodes).wf(),
        final(states).wf(),
        reserved matches Err(e) ==> {
            &&& r == Err::<Vec<OperationTransition>, GeneralizedWfstError>(e)
            &&& *final(nodes) == *old(nodes)
            &&& *final(states) == *old(states)
        },
        reserved is Ok ==> {
            &&& r == Ok::<Vec<OperationTransition>, GeneralizedWfstError>(transitions)
            &&& final(nodes).spec_ids() == old(nodes).spec_ids().union_prefer_right(
                    fresh_ids(addition_keys(addition_view(additions@)), old(nodes).spec_nodes().len()))
            &&& final(nodes).spec_nodes() == old(nodes).spec_nodes() + additions@.map_values(
                    |a: (DictionaryNodeKey, N)| a.1)
            &&& final(states).spec_states() == old(states).spec_states() + batch.spec_states()
            &&& final(states).spec_products() == products_after(old(states).spec_products(), batch.spec_states(),
                    old(states).spec_states().len() as int)
            &&& final(states).spec_chains() == chains_after(old(states).spec_chains(), batch.spec_states(),
                    old(states).spec_states().len() as int)
        },
{
    match reserved {
        Err(e) => Err(e),
        Ok(()) => {
            let new_states = batch.into_states();
            commit_node_additions(nodes, additions);
            states.commit_prepared(new_states);
            Ok(transitions)
        },
    }
}

/// Publish an expansion: resolve the staged dictionary nodes, stage every
/// pending arc's transition against the resolved IDs, reserve the state
/// registry, and only then register the new nodes and the new states
/// together. The outcome is the first error of the resolution, else of the
/// staging, else an allocation failure of a reservation, else success; on
/// an error neither registry changes. On success every staged node's key
/// names the ID it was resolved to, the registry gains exactly the staged
/// states, and each transition enters its arc's product, or the first
/// continuation of its arc's emission chain.
pub fn commit_expansion<N>(nodes: &mut DictionaryNodeRegistry<N>, states: &mut StateRegistry,
    staged: Vec<StagedNode<N>>, arcs: Vec<PendingOperationArc>, max_retained_nodes: usize,
    max_retained_states: usize, budget: &mut ExpansionBudget)
    -> (r: Result<Vec<OperationTransition>, GeneralizedWfstError>)
    requires
        old(nodes).wf(),
        old(states).wf(),
        parents_precede(staged@),
        forall|i: int| 0 <= i < arcs@.len() ==> {
            &&& ((#[trigger] arcs@[i]).target_node matches PendingDictionaryNode::Staged(index)
                    ==> index < staged@.len())
            &&& 1 + 8 * (arcs@[i].input@.len() + arcs@[i].output@.len()) <= usize::MAX
        },
    ensures
        final(nodes).wf(),
        final(states).wf(),
        final(budget).spec_limits() == old(budget).spec_limits(),
        r is Err ==> {
            &&& final(nodes).spec_ids() == old(nodes).spec_ids()
            &&& final(nodes).spec_nodes() == old(nodes).spec_nodes()
            &&& final(states).spec_states() == old(states).spec_states()
            &&& final(states).spec_products() == old(states).spec_products()
            &&& final(states).spec_chains() == old(states).spec_chains()
        },
        match resolve_fold(old(nodes).spec_ids(), old(nodes).spec_nodes().len(), max_retained_nodes,
            old(budget).spec_work(), old(budget).spec_limits().max_work_units_per_expansion, staged@) {
            Err(e) => r == Err::<Vec<OperationTransition>, GeneralizedWfstError>(e),
            Ok((resolved, added)) => match stage_fold(old(states), max_retained_states,
                old(budget).spec_limits().max_work_units_per_expansion,
                (old(budget).spec_work() + staged@.len()) as nat, arcs@, resolved) {
                Err(e) => r == Err::<Vec<OperationTransition>, GeneralizedWfstError>(e)
                    || r == Err::<Vec<OperationTransition>, GeneralizedWfstError>(
                        GeneralizedWfstError::AllocationFailed("staging an emission chain")),
                Ok((work, v)) => {
                    &&& (r is Ok || r == Err::<Vec<OperationTransition>, GeneralizedWfstError>(
                            GeneralizedWfstError::AllocationFailed("staging an emission chain"))
                        || r == Err::<Vec<OperationTransition>, GeneralizedWfstError>(
                            GeneralizedWfstError::AllocationFailed("reserving WFST identities")))
                    &&& r matches Ok(transitions) ==> {
                        let base = old(states).spec_states().len() as int;
                        &&& final(budget).spec_work() == work
                        &&& final(nodes).spec_ids() == old(nodes).spec_ids().union_prefer_right(
                                fresh_ids(addition_keys(added), old(nodes).spec_nodes().len()))
                        &&& final(nodes).spec_nodes() == old(nodes).spec_nodes() + added.map_values(|a: (u64, N)| a.1)
                        &&& forall|j: int| 0 <= j < staged@.len() ==> {
                                let key = spec_child_key(parent_id((#[trigger] staged@[j]).parent, resolved),
                                    staged@[j].label);
                                final(nodes).spec_ids().contains_key(key) && final(nodes).spec_ids()[key] == resolved[j]
                                    && resolved[j] < final(nodes).spec_nodes().len()
                            }
                        &&& final(states).spec_states() == old(states).spec_states() + v.0
                        &&& final(states).spec_products() == products_after(old(states).spec_products(), v.0, base)
                        &&& final(states).spec_chains() == chains_after(old(states).spec_chains(), v.0, base)
                        &&& transitions@.len() == arcs@.len()
                        &&& forall|i: int| 0 <= i < arcs@.len() ==> {
                                let t = #[trigger] transitions@[i];
                                &&& t.input == first_label(arcs@[i].input@)
                                &&& t.output == first_label(arcs@[i].output@)
                                &&& t.operation == arcs@[i].operation
                                &&& staged_entry(old(states), v, arcs@[i], resolved) == Some(t.to)
                                &&& t.to < final(states).spec_states().len()
                            }
                    }
                },
            },
        },
{
    let ghost fold = resolve_fold(nodes.spec_ids(), nodes.spec_nodes().len(), max_retained_nodes,
        budget.spec_work(), budget.spec_limits().max_work_units_per_expansion, staged@);
    let ghost arcs_all = arcs@;
    let (resolved, additions) = match resolve_staged_nodes(nodes, staged, max_retained_nodes, budget) {
        Ok(found) => found,
        Err(e) => return Err(e),
    };
    let ghost added = addition_view(additions@);
    proof {
        assert(fold is Ok);
        assert(fold->Ok_0.0 == resolved@);
        assert(fold->Ok_0.1 == added);
    }
    let mut batch = StateBatch::new();
    proof {
        states.lemma_indexes_point_into_states();
        assert(batch.wf_for(states));
        assert(batch.spec_view() =~= empty_batch_view());
        assert forall|i: int| 0 <= i < arcs@.len() implies arc_ok(#[trigger] arcs@[i], resolved@) by {}
    }
    let transitions = match stage_operation_arcs(states, &mut batch, arcs, resolved.as_slice(), max_retained_states,
        budget) {
        Ok(transitions) => transitions,
        Err(e) => return Err(e),
    };
    let ghost base = states.spec_states().len();
    let ghost staged_states = batch.spec_states();
    proof {
        states.lemma_indexes_point_into_states();
        assert forall|i: int| 0 <= i < transitions@.len() implies {
            &&& transitions@[i].to < base + staged_states.len()
            &&& staged_entry(states, batch.spec_view(), arcs_all[i], resolved@) == Some(#[trigger] transitions@[i].to)
        } by {
            let arc = arcs_all[i];
            assert(arc_entry(states, &batch, arc, resolved@) == Some(transitions@[i].to));
        }
    }
    let reserved = batch.prepare_registry(states);
    proof {
        nodes.lemma_ids_name_nodes();
    }
    let r = publish_expansion(nodes, states, additions, batch, transitions, reserved);
    proof {
        nodes.lemma_ids_name_nodes();
    }
    r
}

} // verus!
