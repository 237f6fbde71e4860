//! Turning the pending arcs of a product expansion into transitions: each
//! arc's target product, and for a multi-label arc its emission chain, is
//! found in the registry or staged in the expansion's batch.
use vstd::prelude::*;
use crate::generalized_limits::{resolved_node, ExpansionBudget, GeneralizedWfstError, GeneralizedWfstResource, PendingDictionaryNode};
use crate::generalized_states::{emit_run, next_id_result, product_key, state_count_result, ChainKey, EmissionChain, ProductState, StateBatch, StateRegistry, StateView};

verus! {

/// An arc found while expanding a product state, before its target has an ID.
pub struct PendingOperationArc {
    /// The dictionary node the arc leads to.
    pub target_node: PendingDictionaryNode,
    /// The query offset after the labels read.
    pub query_byte_pos: usize,
    /// The scaled cost after the operation.
    pub cost: usize,
    /// Labels read from the query.
    pub input: Vec<char>,
    /// Labels written from the dictionary.
    pub output: Vec<char>,
    /// The operation applied, by its index; it gives the arc's weight.
    pub operation: usize,
}

/// A transition of an expanded product state.
#[derive(Clone, Copy, Debug, PartialEq, Eq)]
pub struct OperationTransition {
    /// The first label read, if any.
    pub input: Option<char>,
    /// The first label written, if any.
    pub output: Option<char>,
    /// The state entered.
    pub to: u32,
    /// The operation applied, by its index.
    pub operation: usize,
}

/// The first label of `labels`, if any.
pub open spec fn first_label(labels: Seq<char>) -> Option<char> {
    if labels.len() > 0 { Some(labels[0]) } else { None }
}

/// The product an arc leads to, with staged nodes resolved through `resolved`.
pub open spec fn arc_product(arc: PendingOperationArc, resolved: Seq<u32>) -> ProductState {
    ProductState {
        dict_node_id: match arc.target_node {
            PendingDictionaryNode::Registered(id) => id,
            PendingDictionaryNode::Staged(index) => resolved[index as int],
        },
        query_byte_pos: arc.query_byte_pos,
        cost: arc.cost,
    }
}

/// The ID of a product: the registry's, else the batch's.
pub open spec fn known_product(registry: &StateRegistry, batch: &StateBatch, p: ProductState) -> Option<u32> {
    let k = product_key(p);
    if registry.spec_products().contains_key(k) {
        Some(registry.spec_products()[k])
    } else if batch.spec_products().contains_key(k) {
        Some(batch.spec_products()[k])
    } else {
        None
    }
}

/// The ID of a chain's first continuation: the registry's, else the batch's.
pub open spec fn known_chain(registry: &StateRegistry, batch: &StateBatch, k: ChainKey) -> Option<u32> {
    if registry.spec_chains().contains_key(k) {
        Some(registry.spec_chains()[k])
    } else if batch.spec_chains().contains_key(k) {
        Some(batch.spec_chains()[k])
    } else {
        None
    }
}

/// The number of label pairs of an arc: the longer of its label lists.
pub open spec fn arc_width(arc: PendingOperationArc) -> nat {
    if arc.input@.len() >= arc.output@.len() { arc.input@.len() } else { arc.output@.len() }
}

/// The state an arc enters: its target product, or the first continuation of
/// its emission chain when it carries more than one label pair.
pub open spec fn arc_entry(registry: &StateRegistry, batch: &StateBatch, arc: PendingOperationArc,
    resolved: Seq<u32>) -> Option<u32> {
    match known_product(registry, batch, arc_product(arc, resolved)) {
        None => None,
        Some(target) => if arc_width(arc) <= 1 {
            Some(target)
        } else {
            known_chain(registry, batch, (arc.input@, arc.output@, target))
        },
    }
}

/// `new` holds everything `old` held, under the same IDs.
pub open spec fn batch_extends(new: &StateBatch, old: &StateBatch) -> bool {
    &&& old.spec_products().submap_of(new.spec_products())
    &&& old.spec_chains().submap_of(new.spec_chains())
}

proof fn lemma_extends_trans(c: &StateBatch, b: &StateBatch, a: &StateBatch)
    requires
        batch_extends(c, b),
        batch_extends(b, a),
    ensures
        batch_extends(c, a),
{
    let (pa, pb, pc) = (a.spec_products(), b.spec_products(), c.spec_products());
    assert forall|k| #[trigger] pa.dom().contains(k) implies pc.dom().contains(k) && pa[k] == pc[k] by {
        assert(pb.dom().contains(k));
        assert(pc.dom().contains(k));
    }
    let (ca, cb, cc) = (a.spec_chains(), b.spec_chains(), c.spec_chains());
    assert forall|k| #[trigger] ca.dom().contains(k) implies cc.dom().contains(k) && ca[k] == cc[k] by {
        assert(cb.dom().contains(k));
        assert(cc.dom().contains(k));
    }
}

/// The arc's staged node, if any, has a resolved ID, and its work charge fits.
pub open spec fn arc_ok(arc: PendingOperationArc, resolved: Seq<u32>) -> bool {
    &&& arc.target_node matches PendingDictionaryNode::Staged(index) ==> index < resolved.len()
    &&& 1 + 8 * (arc.input@.len() + arc.output@.len()) <= usize::MAX
}

/// A batch by its staged states, products and chains.
pub type BatchView = (Seq<StateView>, Map<(u32, usize, usize), u32>, Map<ChainKey, u32>);

/// What staging the product `p` does to the batch `v`: the registry's ID,
/// the batch's, or a new one, unless no ID is left.
pub open spec fn product_step(registry: &StateRegistry, v: BatchView, p: ProductState, limit: usize)
    -> Result<(u32, BatchView), GeneralizedWfstError> {
    let k = product_key(p);
    if registry.spec_products().contains_key(k) {
        Ok((registry.spec_products()[k], v))
    } else if v.1.contains_key(k) {
        Ok((v.1[k], v))
    } else {
        match next_id_result(registry.spec_states().len() as int, v.0.len() as int, limit) {
            Err(e) => Err(e),
            Ok(id) => Ok((id, (v.0.push(StateView::Product(p)), v.1.insert(k, id), v.2))),
        }
    }
}

/// What staging the chain `key` of `width` label pairs does to the batch
/// `v` when its continuations can be allocated.
pub open spec fn chain_step(registry: &StateRegistry, v: BatchView, key: ChainKey, width: int, limit: usize)
    -> Result<(u32, BatchView), GeneralizedWfstError> {
    let base = registry.spec_states().len() as int;
    let staged = v.0.len() as int;
    if registry.spec_chains().contains_key(key) {
        Ok((registry.spec_chains()[key], v))
    } else if v.2.contains_key(key) {
        Ok((v.2[key], v))
    } else {
        match next_id_result(base, staged, limit) {
            Err(e) => Err(e),
            Ok(first) => if base + staged + (width - 1) > usize::MAX {
                Err(GeneralizedWfstError::ArithmeticOverflow("counting a complete emission chain"))
            } else {
                match state_count_result(base + staged + (width - 1), limit) {
                    Err(e) => Err(e),
                    Ok(_) => Ok((first, (v.0 + emit_run(key, first as int, width), v.1, v.2.insert(key, first)))),
                }
            },
        }
    }
}

/// One arc's work charge and staging, from `work` units charged and batch `v`.
pub open spec fn arc_step(registry: &StateRegistry, limit: usize, max_work: usize, acc: (nat, BatchView),
    arc: PendingOperationArc, resolved: Seq<u32>) -> Result<(nat, BatchView), GeneralizedWfstError> {
    let units = 1 + 8 * (arc.input@.len() + arc.output@.len());
    let work = acc.0 + units;
    if work > usize::MAX {
        Err(GeneralizedWfstError::ArithmeticOverflow("counting expansion work"))
    } else if work > max_work {
        Err(GeneralizedWfstError::LimitExceeded {
            resource: GeneralizedWfstResource::WorkUnitsPerExpansion,
            limit: max_work,
            required: work as usize,
        })
    } else {
        match product_step(registry, acc.1, arc_product(arc, resolved), limit) {
            Err(e) => Err(e),
            Ok((target, v1)) => if arc_width(arc) <= 1 {
                Ok((work as nat, v1))
            } else {
                match chain_step(registry, v1, (arc.input@, arc.output@, target), arc_width(arc) as int, limit) {
                    Err(e) => Err(e),
                    Ok((_, v2)) => Ok((work as nat, v2)),
                }
            },
        }
    }
}

/// The arcs charged and staged in order: the work and batch after all of
/// them, or the first budget, limit or identifier error.
pub open spec fn arcs_fold(registry: &StateRegistry, limit: usize, max_work: usize, start: (nat, BatchView),
    arcs: Seq<PendingOperationArc>, resolved: Seq<u32>) -> Result<(nat, BatchView), GeneralizedWfstError>
    decreases arcs.len(),
{
    if arcs.len() == 0 {
        Ok(start)
    } else {
        match arcs_fold(registry, limit, max_work, start, arcs.drop_last(), resolved) {
            Err(e) => Err(e),
            Ok(acc) => arc_step(registry, limit, max_work, acc, arcs.last(), resolved),
        }
    }
}

/// An error of a prefix of the arcs is the error of all of them.
proof fn lemma_fold_error_persists(registry: &StateRegistry, limit: usize, max_work: usize, start: (nat, BatchView),
    arcs: Seq<PendingOperationArc>, resolved: Seq<u32>, n: int)
    requires
        0 <= n <= arcs.len(),
        arcs_fold(registry, limit, max_work, start, arcs.take(n), resolved) is Err,
    ensures
        arcs_fold(registry, limit, max_work, start, arcs, resolved)
            == arcs_fold(registry, limit, max_work, start, arcs.take(n), resolved),
    decreases arcs.len() - n,
{
    if n < arcs.len() {
        assert(arcs.take(n + 1).drop_last() =~= arcs.take(n));
        lemma_fold_error_persists(registry, limit, max_work, start, arcs, resolved, n + 1);
    } else {
        assert(arcs.take(n) =~= arcs);
    }
}

/// Give every pending arc its transition, in order: its target product and,
/// for a multi-label arc, its emission chain are looked up in `registry` or
/// staged in `batch`; each arc is charged its work first.
pub fn stage_operation_arcs(registry: &StateRegistry, batch: &mut StateBatch, arcs: Vec<PendingOperationArc>,
    resolved: &[u32], limit: usize, budget: &mut ExpansionBudget) -> (r: Result<Vec<OperationTransition>, GeneralizedWfstError>)
    requires
        old(batch).wf_for(registry),
        forall|i: int| 0 <= i < arcs@.len() ==> arc_ok(#[trigger] arcs@[i], resolved@),
    ensures
        final(batch).wf_for(registry),
        batch_extends(final(batch), old(batch)),
        final(budget).spec_limits() == old(budget).spec_limits(),
        arcs@.len() == 0 ==> (r matches Ok(transitions) && transitions@.len() == 0),
        ({
            let fold = arcs_fold(registry, limit, old(budget).spec_limits().max_work_units_per_expansion,
                (old(budget).spec_work(), old(batch).spec_view()), arcs@, resolved@);
            &&& r is Ok ==> fold == Ok::<(nat, BatchView), GeneralizedWfstError>(
                    (final(budget).spec_work(), final(batch).spec_view()))
            &&& fold is Err ==> r is Err
            &&& r matches Err(e) ==> (fold == Err::<(nat, BatchView), GeneralizedWfstError>(e)
                    || e == GeneralizedWfstError::AllocationFailed("staging an emission chain"))
        }),
        r matches Ok(transitions) ==> {
            &&& transitions@.len() == arcs@.len()
            &&& forall|i: int| 0 <= i < arcs@.len() ==> {
                    let arc = #[trigger] arcs@[i];
                    let t = transitions@[i];
                    &&& t.input == first_label(arc.input@)
                    &&& t.output == first_label(arc.output@)
                    &&& t.operation == arc.operation
                    &&& arc_entry(registry, final(batch), arc, resolved@) == Some(t.to)
                }
        },
{
    let ghost all = arcs@;
    let ghost batch0 = *batch;
    let ghost max_work = budget.spec_limits().max_work_units_per_expansion;
    let ghost start = (budget.spec_work(), batch.spec_view());
    let mut transitions: Vec<OperationTransition> = Vec::new();
    for arc in it: arcs.into_iter()
        invariant
            it.seq() == all,
            max_work == old(budget).spec_limits().max_work_units_per_expansion,
            start == (old(budget).spec_work(), old(batch).spec_view()),
            arcs_fold(registry, limit, max_work, start, all.take(it.index() as int), resolved@)
                == Ok::<(nat, BatchView), GeneralizedWfstError>((budget.spec_work(), batch.spec_view())),
            batch.wf_for(registry),
            batch_extends(batch, &batch0),
            batch0 == *old(batch),
            budget.spec_limits() == old(budget).spec_limits(),
            forall|i: int| 0 <= i < all.len() ==> arc_ok(#[trigger] all[i], resolved@),
            transitions@.len() == it.index(),
            forall|i: int| 0 <= i < it.index() ==> {
                let arc = #[trigger] all[i];
                let t = transitions@[i];
                &&& t.input == first_label(arc.input@)
                &&& t.output == first_label(arc.output@)
                &&& t.operation == arc.operation
                &&& arc_entry(registry, batch, arc, resolved@) == Some(t.to)
            },
    {
        let ghost i: int = it.index() as int;
        let ghost acc = (budget.spec_work(), batch.spec_view());
        proof {
            assert(arc == all[i]);
            assert(arc_ok(all[i], resolved@));
            assert(all.take(i + 1).drop_last() =~= all.take(i));
            assert(all.take(i + 1).last() == arc);
        }
        let ghost step = arc_step(registry, limit, max_work, acc, arc, resolved@);
        let units: usize = 1 + 8 * (arc.input.len() + arc.output.len());
        match budget.charge_work(units) {
            Ok(()) => {},
            Err(e) => {
                proof {
                    lemma_fold_error_persists(registry, limit, max_work, start, all, resolved@, i + 1);
                }
                return Err(e);
            },
        }
        let ghost before = *batch;
        let product = ProductState {
            dict_node_id: resolved_node(arc.target_node, resolved),
            query_byte_pos: arc.query_byte_pos,
            cost: arc.cost,
        };
        let staged_product = batch.product(registry, product, limit);
        proof {
            assert(batch_extends(batch, &before));
            lemma_extends_trans(batch, &before, &batch0);
        }
        let target: u32 = match staged_product {
            Ok(id) => id,
            Err(e) => {
                proof {
                    assert(product == arc_product(arc, resolved@));
                    lemma_fold_error_persists(registry, limit, max_work, start, all, resolved@, i + 1);
                }
                return Err(e);
            },
        };
        let ghost mid = *batch;
        proof {
            assert(product == arc_product(arc, resolved@));
            assert(known_product(registry, batch, product) == Some(target));
        }
        let input: Option<char> = if arc.input.len() > 0 { Some(arc.input[0]) } else { None };
        let output: Option<char> = if arc.output.len() > 0 { Some(arc.output[0]) } else { None };
        let width: usize = if arc.input.len() >= arc.output.len() { arc.input.len() } else { arc.output.len() };
        let operation: usize = arc.operation;
        let to: u32 = if width <= 1 {
            target
        } else {
            let chain = EmissionChain { input: arc.input, output: arc.output, target };
            let ghost mid2 = *batch;
            let staged_chain = batch.chain(registry, chain, limit);
            proof {
                assert(batch_extends(batch, &mid2));
                lemma_extends_trans(batch, &mid2, &batch0);
                lemma_extends_trans(batch, &mid2, &before);
            }
            match staged_chain {
                Ok(id) => id,
                Err(e) => {
                    proof {
                        assert(product == arc_product(arc, resolved@));
                        if e != GeneralizedWfstError::AllocationFailed("staging an emission chain") {
                            lemma_fold_error_persists(registry, limit, max_work, start, all, resolved@, i + 1);
                        }
                    }
                    return Err(e);
                },
            }
        };
        proof {
            assert(known_product(registry, batch, product) == Some(target));
            assert(arc_entry(registry, batch, all[i], resolved@) == Some(to));
            assert forall|j: int| 0 <= j < i implies arc_entry(registry, batch, #[trigger] all[j], resolved@)
                == arc_entry(registry, &before, all[j], resolved@) by {
                let a = all[j];
                let p = arc_product(a, resolved@);
                if known_product(registry, &before, p) is Some {
                    let t = known_product(registry, &before, p)->0;
                    assert(known_product(registry, batch, p) == Some(t));
                    if arc_width(a) > 1 {
                        let k = (a.input@, a.output@, t);
                        if known_chain(registry, &before, k) is Some {
                            assert(known_chain(registry, batch, k) == known_chain(registry, &before, k));
                        }
                    }
                }
            }
        }
        transitions.push(OperationTransition { input, output, to, operation });
        proof {
            assert(product == arc_product(all[i], resolved@));
        }
    }
    proof {
        assert(all.take(all.len() as int) =~= all);
    }
    Ok(transitions)
}

} // verus!
