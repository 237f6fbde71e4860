//! Expansion of one product state of the generalized WFST: every prepared
//! operation within the cost bound is tried against the query segment it
//! reads and every dictionary path of the width it writes, and each pair the
//! operation applies to becomes a pending arc.
use vstd::prelude::*;
use vstd::string::StringSliceAdditionalSpecFns;
use vstd::utf8::{decode_utf8, encode_utf8, is_char_boundary};
use crate::dictionary_paths::{dictionary_paths, fits, spec_paths, DictionaryPath, DictionarySnapshot};
use crate::generalized_expansion::PendingOperationArc;
use crate::generalized_limits::{ExpansionBudget, ExpansionError, PendingDictionaryNode};
use crate::generalized_ops::{operation_applies, spec_applies, Applicability, PreparedOperation};
use crate::generalized_states::ProductState;
use crate::text::{advance_scalars, chars_of, str_segment_by_char_width};

verus! {

/// A pending arc as plain values: target, query offset after it, cost,
/// labels read, labels written, operation index.
pub type ArcView = (PendingDictionaryNode, usize, usize, Seq<char>, Seq<char>, usize);

/// The plain values of a pending arc.
pub open spec fn arc_view(a: PendingOperationArc) -> ArcView {
    (a.target_node, a.query_byte_pos, a.cost, a.input@, a.output@, a.operation)
}

/// The query segment of `width` scalars at byte `pos`: the byte offset after
/// it and its scalars, if the query has that many there.
pub open spec fn query_segment(query: Seq<u8>, pos: int, width: nat) -> Option<(int, Seq<char>)> {
    match advance_scalars(query, pos, width) {
        Some(end) => Some((end, decode_utf8(query.subrange(pos, end)))),
        None => None,
    }
}

/// `x`, or `usize::MAX` when it is larger: a saturating sum.
pub open spec fn sat_sum(x: int) -> nat {
    if x > usize::MAX { usize::MAX as nat } else if x < 0 { 0 } else { x as nat }
}

/// The arcs an operation of applicability `a` yields over `paths`, reading
/// the segment `chars` (bytes `qbytes`) that ends at `end`.
pub open spec fn path_arcs(paths: Seq<(Seq<char>, usize)>, a: Applicability, chars: Seq<char>, qbytes: Seq<u8>,
    end: usize, cost: usize, index: usize) -> Seq<ArcView>
    decreases paths.len(),
{
    if paths.len() == 0 {
        Seq::empty()
    } else {
        let rest = path_arcs(paths.drop_last(), a, chars, qbytes, end, cost, index);
        let p = paths.last();
        if spec_applies(a, p.0, encode_utf8(p.0), chars, qbytes) {
            rest.push((PendingDictionaryNode::Staged(p.1), end, cost, chars, p.0, index))
        } else {
            rest
        }
    }
}

/// The work charged over `paths`: each path offered, and each path applied to.
pub open spec fn path_work(paths: Seq<(Seq<char>, usize)>, a: Applicability, chars: Seq<char>, qbytes: Seq<u8>) -> nat
    decreases paths.len(),
{
    if paths.len() == 0 {
        0
    } else {
        let p = paths.last();
        path_work(paths.drop_last(), a, chars, qbytes)
            + sat_sum((1 + encode_utf8(p.0).len() + qbytes.len()) as int)
            + (if spec_applies(a, p.0, encode_utf8(p.0), chars, qbytes) { sat_sum((1 + p.0.len() + chars.len()) as int) } else { 0 })
    }
}

/// Work, paths, filled query slots, filled source slots, and arcs.
pub type Tally = (nat, nat, Set<usize>, Set<usize>, Seq<ArcView>);

/// One operation's charges and arcs: one unit; past the cost bound nothing
/// more; the query segment of its width, charged twice its width the first
/// time its slot is used; without a segment nothing more; its source width's
/// paths, charged the first time their slot is used; then each path.
pub open spec fn operation_step(acc: Tally, p: PreparedOperation, apps: Seq<Applicability>, query: Seq<u8>,
    product: ProductState, max_cost: usize, d: &DictionarySnapshot, start: int) -> Tally {
    let w = acc.0 + 1;
    if p.scaled_weight > max_cost - product.cost {
        (w, acc.1, acc.2, acc.3, acc.4)
    } else {
        let qc: nat = if acc.2.contains(p.query_width_slot) { 0 } else { sat_sum(2 * p.consume_y) };
        let queries = acc.2.insert(p.query_width_slot);
        match query_segment(query, product.query_byte_pos as int, p.consume_y as nat) {
            None => (w + qc, acc.1, queries, acc.3, acc.4),
            Some((end, chars)) => {
                let sp = spec_paths(d, start, p.consume_x as nat);
                let pw: nat = if acc.3.contains(p.source_width_slot) { 0 } else { sp.1 };
                let pp: nat = if acc.3.contains(p.source_width_slot) { 0 } else { sp.2 };
                let qbytes = query.subrange(product.query_byte_pos as int, end);
                let a = apps[p.index as int];
                (w + qc + pw + path_work(sp.0, a, chars, qbytes), acc.1 + pp, queries,
                    acc.3.insert(p.source_width_slot),
                    acc.4 + path_arcs(sp.0, a, chars, qbytes, end as usize, (product.cost + p.scaled_weight) as usize, p.index))
            },
        }
    }
}

/// The operations' charges and arcs, in operation order.
pub open spec fn expansion_tally(start_tally: Tally, prepared: Seq<PreparedOperation>, apps: Seq<Applicability>,
    query: Seq<u8>, product: ProductState, max_cost: usize, d: &DictionarySnapshot, start: int) -> Tally
    decreases prepared.len(),
{
    if prepared.len() == 0 {
        start_tally
    } else {
        operation_step(expansion_tally(start_tally, prepared.drop_last(), apps, query, product, max_cost, d, start),
            prepared.last(), apps, query, product, max_cost, d, start)
    }
}

/// The tally before any operation: one unit and one per cache slot.
pub open spec fn initial_tally(source_slots: usize, query_slots: usize) -> Tally {
    ((1 + source_slots + query_slots) as nat, 0, Set::empty(), Set::empty(), Seq::empty())
}

/// The work over a prefix of the paths is at most the work over all of them.
proof fn lemma_path_work_prefix(paths: Seq<(Seq<char>, usize)>, a: Applicability, chars: Seq<char>, qbytes: Seq<u8>, k: int)
    requires
        0 <= k <= paths.len(),
    ensures
        path_work(paths.take(k), a, chars, qbytes) <= path_work(paths, a, chars, qbytes),
    decreases paths.len() - k,
{
    if k < paths.len() {
        lemma_path_work_prefix(paths, a, chars, qbytes, k + 1);
        assert(paths.take(k + 1).drop_last() =~= paths.take(k));
    } else {
        assert(paths.take(k) =~= paths);
    }
}

/// Tallies only grow along the operations.
proof fn lemma_tally_grows(t: Tally, prepared: Seq<PreparedOperation>, apps: Seq<Applicability>, query: Seq<u8>,
    product: ProductState, max_cost: usize, d: &DictionarySnapshot, start: int, k: int)
    requires
        0 <= k <= prepared.len(),
    ensures
        expansion_tally(t, prepared.take(k), apps, query, product, max_cost, d, start).0
            <= expansion_tally(t, prepared, apps, query, product, max_cost, d, start).0,
        expansion_tally(t, prepared.take(k), apps, query, product, max_cost, d, start).1
            <= expansion_tally(t, prepared, apps, query, product, max_cost, d, start).1,
    decreases prepared.len() - k,
{
    if k < prepared.len() {
        lemma_tally_grows(t, prepared, apps, query, product, max_cost, d, start, k + 1);
        assert(prepared.take(k + 1).drop_last() =~= prepared.take(k));
    } else {
        assert(prepared.take(k) =~= prepared);
    }
}

/// Operations that share a width slot share the width.
pub open spec fn slots_agree(prepared: Seq<PreparedOperation>, source_slots: usize, query_slots: usize) -> bool {
    &&& forall|k: int| 0 <= k < prepared.len() ==> (#[trigger] prepared[k]).source_width_slot < source_slots
            && prepared[k].query_width_slot < query_slots
    &&& forall|k: int, l: int| 0 <= k < prepared.len() && 0 <= l < prepared.len()
            && (#[trigger] prepared[k]).source_width_slot == (#[trigger] prepared[l]).source_width_slot
            ==> prepared[k].consume_x == prepared[l].consume_x
    &&& forall|k: int, l: int| 0 <= k < prepared.len() && 0 <= l < prepared.len()
            && (#[trigger] prepared[k]).query_width_slot == (#[trigger] prepared[l]).query_width_slot
            ==> prepared[k].consume_y == prepared[l].consume_y
}

/// The state `product` standing on a snapshot node is out of range: no such
/// node, a cost past the bound, or an offset that is no character boundary.
pub open spec fn invalid_product(query: Seq<u8>, product: ProductState, max_cost: usize, d: &DictionarySnapshot,
    start: usize) -> bool {
    ||| start >= d.edges@.len()
    ||| product.cost > max_cost
    ||| product.query_byte_pos > query.len()
    ||| !is_char_boundary(query, product.query_byte_pos as int)
}

/// A cached query segment: the byte offset after it, its scalars and bytes.
struct SegmentEntry {
    end: usize,
    chars: Vec<char>,
    bytes: Vec<u8>,
}

/// A cache slot, once filled, holds the query segment of `width` scalars at
/// byte `pos`, or its absence.
spec fn segment_cached(qb: Seq<u8>, pos: int, width: nat, slot: Option<Option<SegmentEntry>>) -> bool {
    slot matches Some(entry) ==> match entry {
        None => query_segment(qb, pos, width) is None,
        Some(seg) => query_segment(qb, pos, width) == Some((seg.end as int, seg.chars@))
            && seg.bytes@ == qb.subrange(pos, seg.end as int),
    }
}

/// A cache slot, once filled, holds the paths of `width` labels from `start`.
spec fn paths_cached(d: &DictionarySnapshot, start: int, width: nat, slot: Option<Vec<DictionaryPath>>) -> bool {
    slot matches Some(found) ==> {
        let sp = spec_paths(d, start, width).0;
        &&& found@.len() == sp.len()
        &&& forall|m: int| 0 <= m < sp.len() ==> {
                &&& (#[trigger] found@[m]).output@ == sp[m].0
                &&& found@[m].bytes@ == encode_utf8(sp[m].0)
                &&& found@[m].target == sp[m].1
            }
    }
}

/// The expansion of a product state: whether it accepts, and its arcs.
pub struct ProductExpansion {
    /// Whether the state accepts: the query is read and the node is final.
    pub is_final: bool,
    /// The pending arcs, in operation order, then path order.
    pub arcs: Vec<PendingOperationArc>,
}

/// Expand the product state `product` standing on snapshot node `start`,
/// whose dictionary node is final when `node_is_final`: an invalid-state
/// error when the state is out of range; otherwise one unit and one per
/// width-cache slot are charged, then each prepared operation in turn as
/// `operation_step` says, and each dictionary path an operation applies to
/// becomes a pending arc into the path's node, staged by its snapshot index.
/// `Ok` exactly when the budget holds all the charges.
#[verifier::rlimit(100)]
#[verifier::spinoff_prover]
pub fn expand_generalized_product(prepared: &[PreparedOperation], applicability: &[Applicability], query: &str,
    product: ProductState, max_cost: usize, dictionary: &DictionarySnapshot, start: usize, node_is_final: bool,
    source_slots: usize, query_slots: usize, budget: &mut ExpansionBudget)
    -> (r: Result<ProductExpansion, ExpansionError>)
    requires
        dictionary.wf(),
        slots_agree(prepared@, source_slots, query_slots),
        forall|k: int| 0 <= k < prepared@.len() ==> (#[trigger] prepared@[k]).index < applicability@.len(),
    ensures
        final(budget).spec_limits() == old(budget).spec_limits(),
        invalid_product(query.spec_bytes(), product, max_cost, dictionary, start)
            ==> r == Err::<ProductExpansion, ExpansionError>(ExpansionError::InvalidState) && *final(budget) == *old(budget),
        !invalid_product(query.spec_bytes(), product, max_cost, dictionary, start) ==> ({
            let t = expansion_tally(initial_tally(source_slots, query_slots), prepared@, applicability@,
                query.spec_bytes(), product, max_cost, dictionary, start as int);
            &&& r is Ok <==> fits(old(budget), t.0, t.1)
            &&& r matches Err(e) ==> (e matches ExpansionError::Resource(x) && (x is LimitExceeded || x is ArithmeticOverflow))
            &&& r matches Ok(expansion) ==> {
                &&& expansion.is_final == (product.query_byte_pos == query.spec_bytes().len() && node_is_final)
                &&& expansion.arcs@.map_values(|a: PendingOperationArc| arc_view(a)) == t.4
                &&& final(budget).spec_work() == old(budget).spec_work() + t.0
                &&& final(budget).spec_paths() == old(budget).spec_paths() + t.1
            }
        }),
{
    let ghost qb = query.spec_bytes();
    let ghost b0 = *budget;
    let raw: &[u8] = query.as_bytes();
    let query_len: usize = raw.len();
    if start >= dictionary.edges.len() || product.cost > max_cost || product.query_byte_pos > query_len
        || !query.is_char_boundary(product.query_byte_pos) {
        return Err(ExpansionError::InvalidState);
    }
    let ghost apps = applicability@;
    let ghost all = prepared@;
    let ghost total = expansion_tally(initial_tally(source_slots, query_slots), all, apps, qb, product, max_cost,
        dictionary, start as int);
    proof {
        budget.lemma_counts_fit();
        lemma_tally_grows(initial_tally(source_slots, query_slots), all, apps, qb, product, max_cost, dictionary,
            start as int, 0);
        assert(all.take(0) =~= Seq::<PreparedOperation>::empty());
    }
    match budget.charge_work(1) {
        Ok(()) => {},
        Err(e) => return Err(ExpansionError::Resource(e)),
    }
    proof {
        budget.lemma_counts_fit();
    }
    match budget.charge_work(source_slots) {
        Ok(()) => {},
        Err(e) => return Err(ExpansionError::Resource(e)),
    }
    proof {
        budget.lemma_counts_fit();
    }
    match budget.charge_work(query_slots) {
        Ok(()) => {},
        Err(e) => return Err(ExpansionError::Resource(e)),
    }
    let mut segments: Vec<Option<Option<SegmentEntry>>> = Vec::new();
    let mut q: usize = 0;
    while q < query_slots
        invariant
            q <= query_slots,
            segments@.len() == q,
            forall|j: int| 0 <= j < q ==> segments@[j] is None,
        decreases query_slots - q,
    {
        segments.push(None);
        q = q + 1;
    }
    let mut paths: Vec<Option<Vec<DictionaryPath>>> = Vec::new();
    let mut s: usize = 0;
    while s < source_slots
        invariant
            s <= source_slots,
            paths@.len() == s,
            forall|j: int| 0 <= j < s ==> paths@[j] is None,
        decreases source_slots - s,
    {
        paths.push(None);
        s = s + 1;
    }
    let mut arcs: Vec<PendingOperationArc> = Vec::new();
    let ghost init = initial_tally(source_slots, query_slots);
    let mut k: usize = 0;
    while k < prepared.len()
        invariant
            k <= all.len(),
            all == prepared@,
            apps == applicability@,
            dictionary.wf(),
            start < dictionary.edges@.len(),
            product.cost <= max_cost,
            qb == query.spec_bytes(),
            query_len == qb.len(),
            product.query_byte_pos <= qb.len(),
            is_char_boundary(qb, product.query_byte_pos as int),
            slots_agree(all, source_slots, query_slots),
            forall|j: int| 0 <= j < all.len() ==> (#[trigger] all[j]).index < apps.len(),
            init == initial_tally(source_slots, query_slots),
            total == expansion_tally(init, all, apps, qb, product, max_cost, dictionary, start as int),
            b0 == *old(budget),
            budget.spec_limits() == b0.spec_limits(),
            segments@.len() == query_slots,
            paths@.len() == source_slots,
            ({
                let t = expansion_tally(init, all.take(k as int), apps, qb, product, max_cost, dictionary, start as int);
                &&& budget.spec_work() == b0.spec_work() + t.0
                &&& budget.spec_paths() == b0.spec_paths() + t.1
                &&& fits(&b0, t.0, t.1)
                &&& t.0 > 0
                &&& arcs@.map_values(|a: PendingOperationArc| arc_view(a)) == t.4
                &&& forall|slot: usize| slot < query_slots ==> (#[trigger] segments@[slot as int] is Some <==> t.2.contains(slot))
                &&& forall|slot: usize| slot < source_slots ==> (#[trigger] paths@[slot as int] is Some <==> t.3.contains(slot))
            }),
            forall|j: int| 0 <= j < all.len() ==> {
                let p = #[trigger] all[j];
                &&& segment_cached(qb, product.query_byte_pos as int, p.consume_y as nat, segments@[p.query_width_slot as int])
                &&& paths_cached(dictionary, start as int, p.consume_x as nat, paths@[p.source_width_slot as int])
            },
        decreases all.len() - k,
    {
        let p: PreparedOperation = prepared[k];
        let ghost acc = expansion_tally(init, all.take(k as int), apps, qb, product, max_cost, dictionary, start as int);
        let ghost next = operation_step(acc, p, apps, qb, product, max_cost, dictionary, start as int);
        proof {
            assert(all.take(k + 1).drop_last() =~= all.take(k as int));
            assert(all.take(k + 1).last() == p);
            assert(next == expansion_tally(init, all.take(k + 1), apps, qb, product, max_cost, dictionary, start as int));
            lemma_tally_grows(init, all, apps, qb, product, max_cost, dictionary, start as int, k + 1);
            assert(next.0 <= total.0 && next.1 <= total.1);
            assert(next.0 >= acc.0 + 1);
            budget.lemma_counts_fit();
        }
        match budget.charge_work(1) {
            Ok(()) => {},
            Err(e) => {
                proof {
                    assert(b0.spec_work() + total.0 > b0.spec_limits().max_work_units_per_expansion);
                }
                return Err(ExpansionError::Resource(e));
            },
        }
        if p.scaled_weight > max_cost - product.cost {
            proof {
                assert(next == (acc.0 + 1, acc.1, acc.2, acc.3, acc.4));
            }
            k = k + 1;
            continue;
        }
        let cost: usize = product.cost + p.scaled_weight;
        let qslot: usize = p.query_width_slot;
        let ghost filled_query = segments@[qslot as int] is Some;
        let ghost qc: nat = if acc.2.contains(qslot) { 0 } else { sat_sum(2 * p.consume_y) };
        proof {
            assert(filled_query == acc.2.contains(qslot));
            assert(next.0 >= acc.0 + 1 + qc);
        }
        let ghost segs_start = segments@;
        if segments[qslot].is_none() {
            let units: usize = if p.consume_y <= usize::MAX / 2 { p.consume_y * 2 } else { usize::MAX };
            proof {
                budget.lemma_counts_fit();
                assert(units == qc);
            }
            match budget.charge_work(units) {
                Ok(()) => {},
                Err(e) => {
                    proof {
                        assert(b0.spec_work() + total.0 > b0.spec_limits().max_work_units_per_expansion);
                    }
                    return Err(ExpansionError::Resource(e));
                },
            }
            let entry: Option<SegmentEntry> = match str_segment_by_char_width(query, product.query_byte_pos, p.consume_y) {
                Some((segment, end)) => {
                    let chars: Vec<char> = chars_of(segment);
                    let bytes: Vec<u8> = vstd::slice::slice_to_vec(segment.as_bytes());
                    proof {
                        vstd::utf8::encode_utf8_decode_utf8(segment@);
                    }
                    let found = SegmentEntry { end, chars, bytes };
                    proof {
                        assert(segment_cached(qb, product.query_byte_pos as int, p.consume_y as nat, Some(Some(found))));
                    }
                    Some(found)
                },
                None => {
                    proof {
                        assert(segment_cached(qb, product.query_byte_pos as int, p.consume_y as nat, Some(None)));
                    }
                    None
                },
            };
            let ghost segs0 = segments@;
            segments.set(qslot, Some(entry));
            proof {
                assert forall|j: int| 0 <= j < all.len() implies segment_cached(qb, product.query_byte_pos as int,
                    (#[trigger] all[j]).consume_y as nat, segments@[all[j].query_width_slot as int]) by {
                    if all[j].query_width_slot == qslot {
                        assert(all[j].consume_y == all[k as int].consume_y);
                    } else {
                        assert(segments@[all[j].query_width_slot as int] == segs0[all[j].query_width_slot as int]);
                    }
                }
            }
        } else {
            proof {
                assert(segments@ == segs_start);
            }
        }
        proof {
            assert(budget.spec_work() == b0.spec_work() + acc.0 + 1 + qc);
            assert(budget.spec_work() <= b0.spec_limits().max_work_units_per_expansion);
            assert forall|slot: usize| slot < query_slots implies
                (#[trigger] segments@[slot as int] is Some <==> acc.2.insert(qslot).contains(slot)) by {
                if slot != qslot {
                    assert(acc.2.insert(qslot).contains(slot) == acc.2.contains(slot));
                    assert(segments@[slot as int] == segs_start[slot as int]);
                }
            }
            assert(segment_cached(qb, product.query_byte_pos as int, p.consume_y as nat, segments@[qslot as int]));
            assert(segments@[qslot as int] is Some);
        }
        let seg: &SegmentEntry = match &segments[qslot] {
            Some(Some(entry)) => entry,
            _ => {
                proof {
                    assert(query_segment(qb, product.query_byte_pos as int, p.consume_y as nat) is None);
                    assert(next == (acc.0 + 1 + qc, acc.1, acc.2.insert(qslot), acc.3, acc.4));
                }
                k = k + 1;
                continue;
            },
        };
        let sslot: usize = p.source_width_slot;
        let ghost sfull = spec_paths(dictionary, start as int, p.consume_x as nat);
        let ghost sp = sfull.0;
        let ghost pw: nat = if acc.3.contains(sslot) { 0 } else { sfull.1 };
        let ghost pp: nat = if acc.3.contains(sslot) { 0 } else { sfull.2 };
        let ghost qbytes = qb.subrange(product.query_byte_pos as int, seg.end as int);
        let ghost a = apps[p.index as int];
        proof {
            assert(query_segment(qb, product.query_byte_pos as int, p.consume_y as nat)
                == Some((seg.end as int, seg.chars@)));
            assert(next == (acc.0 + 1 + qc + pw + path_work(sp, a, seg.chars@, qbytes), acc.1 + pp,
                acc.2.insert(qslot), acc.3.insert(sslot),
                acc.4 + path_arcs(sp, a, seg.chars@, qbytes, seg.end, cost, p.index)));
        }
        let ghost paths_start = paths@;
        if paths[sslot].is_none() {
            proof {
                budget.lemma_counts_fit();
                assert(!acc.3.contains(sslot));
            }
            let found: Vec<DictionaryPath> = match dictionary_paths(dictionary, start, p.consume_x, budget) {
                Ok(found) => found,
                Err(e) => {
                    proof {
                        assert(!fits(&b0, total.0, total.1));
                    }
                    return Err(e);
                },
            };
            proof {
                assert(paths_cached(dictionary, start as int, p.consume_x as nat, Some(found)));
            }
            let ghost ps0 = paths@;
            paths.set(sslot, Some(found));
            proof {
                assert forall|j: int| 0 <= j < all.len() implies paths_cached(dictionary, start as int,
                    (#[trigger] all[j]).consume_x as nat, paths@[all[j].source_width_slot as int]) by {
                    if all[j].source_width_slot == sslot {
                        assert(all[j].consume_x == all[k as int].consume_x);
                    } else {
                        assert(paths@[all[j].source_width_slot as int] == ps0[all[j].source_width_slot as int]);
                    }
                }
            }
        } else {
            proof {
                assert(acc.3.contains(sslot));
                assert(paths@ == paths_start);
            }
        }
        proof {
            assert(budget.spec_work() == b0.spec_work() + acc.0 + 1 + qc + pw);
            assert(budget.spec_paths() == b0.spec_paths() + acc.1 + pp);
            assert(budget.spec_work() <= b0.spec_limits().max_work_units_per_expansion);
            assert(acc.1 + pp == 0 || budget.spec_paths() <= b0.spec_limits().max_paths_per_expansion);
            assert forall|slot: usize| slot < source_slots implies
                (#[trigger] paths@[slot as int] is Some <==> acc.3.insert(sslot).contains(slot)) by {
                if slot != sslot {
                    assert(acc.3.insert(sslot).contains(slot) == acc.3.contains(slot));
                    assert(paths@[slot as int] == paths_start[slot as int]);
                }
            }
            assert(paths_cached(dictionary, start as int, p.consume_x as nat, paths@[sslot as int]));
        }
        let entries: &Vec<DictionaryPath> = match &paths[sslot] {
            Some(entries) => entries,
            None => {
                proof {
                    assert(false);
                }
                return Err(ExpansionError::InvalidState);
            },
        };
        let ghost work_before = budget.spec_work();
        let ghost paths_before = budget.spec_paths();
        let ghost arcs_before = arcs@.map_values(|x: PendingOperationArc| arc_view(x));
        proof {
            assert(arcs_before == acc.4);
        }
        let mut m: usize = 0;
        #[verifier::loop_isolation(false)]
        while m < entries.len()
            invariant
                m <= entries@.len(),
                budget.spec_limits() == b0.spec_limits(),
                budget.spec_paths() == paths_before,
                budget.spec_work() == work_before + path_work(sp.take(m as int), a, seg.chars@, qbytes),
                budget.spec_work() <= b0.spec_limits().max_work_units_per_expansion,
                arcs@.map_values(|x: PendingOperationArc| arc_view(x)) == arcs_before
                    + path_arcs(sp.take(m as int), a, seg.chars@, qbytes, seg.end, cost, p.index),
            decreases entries@.len() - m,
        {
            let entry: &DictionaryPath = &entries[m];
            proof {
                assert(sp.take(m + 1).drop_last() =~= sp.take(m as int));
                assert(sp.take(m + 1).last() == sp[m as int]);
                lemma_path_work_prefix(sp, a, seg.chars@, qbytes, m + 1);
                assert(entry.output@ == sp[m as int].0);
                assert(entry.bytes@ == encode_utf8(sp[m as int].0));
                assert(entry.target == sp[m as int].1);
                budget.lemma_counts_fit();
            }
            let units: usize = 1usize.saturating_add(entry.bytes.len()).saturating_add(seg.bytes.len());
            proof {
                assert(units == sat_sum((1 + encode_utf8(sp[m as int].0).len() + qbytes.len()) as int));
            }
            match budget.charge_work(units) {
                Ok(()) => {},
                Err(e) => {
                    proof {
                        assert(b0.spec_work() + total.0 > b0.spec_limits().max_work_units_per_expansion);
                    }
                    return Err(ExpansionError::Resource(e));
                },
            }
            let applies: bool = operation_applies(&applicability[p.index], entry.output.as_slice(),
                entry.bytes.as_slice(), seg.chars.as_slice(), seg.bytes.as_slice());
            proof {
                assert(applies == spec_applies(a, sp[m as int].0, encode_utf8(sp[m as int].0), seg.chars@, qbytes));
            }
            if applies {
                proof {
                    budget.lemma_counts_fit();
                }
                let units2: usize = 1usize.saturating_add(entry.output.len()).saturating_add(seg.chars.len());
                proof {
                    assert(units2 == sat_sum((1 + sp[m as int].0.len() + seg.chars@.len()) as int));
                }
                match budget.charge_work(units2) {
                    Ok(()) => {},
                    Err(e) => {
                        proof {
                            assert(b0.spec_work() + total.0 > b0.spec_limits().max_work_units_per_expansion);
                        }
                        return Err(ExpansionError::Resource(e));
                    },
                }
                let input: Vec<char> = seg.chars.clone();
                let output: Vec<char> = entry.output.clone();
                proof {
                    assert(input@ =~= seg.chars@);
                    assert(output@ =~= entry.output@);
                }
                let ghost prev = arcs@;
                arcs.push(PendingOperationArc {
                    target_node: PendingDictionaryNode::Staged(entry.target),
                    query_byte_pos: seg.end,
                    cost,
                    input,
                    output,
                    operation: p.index,
                });
                proof {
                    assert(arcs@.map_values(|x: PendingOperationArc| arc_view(x))
                        =~= prev.map_values(|x: PendingOperationArc| arc_view(x)).push(
                            (PendingDictionaryNode::Staged(sp[m as int].1), seg.end, cost, seg.chars@, sp[m as int].0, p.index)));
                }
            }
            m = m + 1;
        }
        proof {
            assert(sp.take(sp.len() as int) =~= sp);
            assert(budget.spec_work() == b0.spec_work() + next.0);
            assert(budget.spec_paths() == b0.spec_paths() + next.1);
        }
        k = k + 1;
    }
    proof {
        assert(all.take(all.len() as int) =~= all);
    }
    Ok(ProductExpansion {
        is_final: product.query_byte_pos == query_len && node_is_final,
        arcs,
    })
}

} // verus!
