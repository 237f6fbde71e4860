//! Per-operation dimensions of the generalized WFST, computed once: each
//! distinct source width and query width gets a compact cache slot, in the
//! order the widths first appear.
use vstd::prelude::*;
use vstd::string::{StrSliceExecFns, StringSliceAdditionalSpecFns};
use crate::generalized_limits::{require_at_most, GeneralizedWfstError, GeneralizedWfstLimits, GeneralizedWfstResource};

verus! {

/// An operation with its widths, cache slots and scaled cost.
#[derive(Clone, Copy, Debug, PartialEq, Eq)]
pub struct PreparedOperation {
    /// Position of the operation in its set.
    pub index: usize,
    /// Dictionary scalars consumed.
    pub consume_x: usize,
    /// Query scalars consumed.
    pub consume_y: usize,
    /// Compact slot of `consume_x` among the distinct source widths.
    pub source_width_slot: usize,
    /// Compact slot of `consume_y` among the distinct query widths.
    pub query_width_slot: usize,
    /// The cost in the WFST's fixed-point domain.
    pub scaled_weight: usize,
}

/// The distinct values of `xs`, in the order they first appear.
pub open spec fn distinct_in_order(xs: Seq<usize>) -> Seq<usize>
    decreases xs.len(),
{
    if xs.len() == 0 {
        Seq::empty()
    } else {
        let d = distinct_in_order(xs.drop_last());
        if d.contains(xs.last()) { d } else { d.push(xs.last()) }
    }
}

/// Slot `slot` of the compact numbering of `xs` holds `x`.
pub open spec fn is_slot_of(xs: Seq<usize>, x: usize, slot: int) -> bool {
    0 <= slot < distinct_in_order(xs).len() && distinct_in_order(xs)[slot] == x
}

/// The compact numbering lists every value of `xs` exactly once, so each
/// width has exactly one slot.
pub proof fn lemma_distinct_in_order(xs: Seq<usize>)
    ensures
        distinct_in_order(xs).no_duplicates(),
        forall|x: usize| distinct_in_order(xs).contains(x) <==> xs.contains(x),
        distinct_in_order(xs).len() <= xs.len(),
    decreases xs.len(),
{
    if xs.len() > 0 {
        lemma_distinct_in_order(xs.drop_last());
        let d = distinct_in_order(xs.drop_last());
        assert forall|x: usize| xs.contains(x) <==> (xs.drop_last().contains(x) || x == xs.last()) by {
            if xs.contains(x) {
                let i = choose|i: int| 0 <= i < xs.len() && xs[i] == x;
                if i < xs.len() - 1 {
                    assert(xs.drop_last()[i] == x);
                }
            }
            if xs.drop_last().contains(x) {
                let i = choose|i: int| 0 <= i < xs.drop_last().len() && xs.drop_last()[i] == x;
                assert(xs[i] == x);
            }
            if x == xs.last() {
                assert(xs[xs.len() - 1] == x);
            }
        }
        if !d.contains(xs.last()) {
            assert forall|x: usize| d.push(xs.last()).contains(x) <==> (d.contains(x) || x == xs.last()) by {
                if d.push(xs.last()).contains(x) {
                    let i = choose|i: int| 0 <= i < d.push(xs.last()).len() && d.push(xs.last())[i] == x;
                    if i < d.len() {
                        assert(d[i] == x);
                    }
                }
                if d.contains(x) {
                    let i = choose|i: int| 0 <= i < d.len() && d[i] == x;
                    assert(d.push(xs.last())[i] == x);
                }
                if x == xs.last() {
                    assert(d.push(xs.last())[d.len() as int] == x);
                }
            }
        }
    }
}

/// The slot of every width of `widths`, slots counted from 0 in the order
/// the distinct widths first appear.
pub fn assign_width_slots(widths: &[usize]) -> (r: Vec<usize>)
    requires
        forall|i: int| 0 <= i < widths@.len() ==> widths@[i] < usize::MAX,
    ensures
        r@.len() == widths@.len(),
        forall|i: int| 0 <= i < widths@.len() ==> is_slot_of(widths@, widths@[i], #[trigger] r@[i] as int),
{
    let ghost xs = widths@;
    let mut max: usize = 0;
    let mut i: usize = 0;
    while i < widths.len()
        invariant
            i <= xs.len(),
            xs == widths@,
            forall|j: int| 0 <= j < i ==> xs[j] <= max,
            forall|j: int| 0 <= j < xs.len() ==> xs[j] < usize::MAX,
            i > 0 ==> max < usize::MAX,
            max == 0 || max < usize::MAX,
        decreases xs.len() - i,
    {
        if widths[i] > max {
            max = widths[i];
        }
        i = i + 1;
    }
    let mut table: Vec<usize> = vec![usize::MAX; max + 1];
    let mut count: usize = 0;
    let mut slots: Vec<usize> = Vec::new();
    let mut k: usize = 0;
    while k < widths.len()
        invariant
            k <= xs.len(),
            xs == widths@,
            forall|j: int| 0 <= j < xs.len() ==> xs[j] <= max,
            table@.len() == max + 1,
            count == distinct_in_order(xs.take(k as int)).len(),
            count <= k,
            forall|w: int| 0 <= w <= max ==> {
                let d = distinct_in_order(xs.take(k as int));
                &&& (#[trigger] table@[w] == usize::MAX <==> !d.contains(w as usize))
                &&& table@[w] != usize::MAX ==> table@[w] < d.len() && d[table@[w] as int] == w
            },
            slots@.len() == k,
            forall|j: int| 0 <= j < k ==> is_slot_of(xs, xs[j], #[trigger] slots@[j] as int),
            forall|j: int| 0 <= j < k ==> is_slot_of(xs.take(k as int), xs[j], #[trigger] slots@[j] as int),
        decreases xs.len() - k,
    {
        let w: usize = widths[k];
        let ghost before = distinct_in_order(xs.take(k as int));
        proof {
            assert(xs.take(k + 1).drop_last() =~= xs.take(k as int));
            assert(xs.take(k + 1).last() == w);
        }
        if table[w] == usize::MAX {
            table.set(w, count);
            count = count + 1;
        }
        let slot: usize = table[w];
        slots.push(slot);
        proof {
            let after = distinct_in_order(xs.take(k + 1));
            assert(after == (if before.contains(w) { before } else { before.push(w) }));
            assert forall|j: int| 0 <= j < k + 1 implies is_slot_of(xs.take(k + 1), xs[j], #[trigger] slots@[j] as int) by {
                if j < k {
                    assert(is_slot_of(xs.take(k as int), xs[j], slots@[j] as int));
                    assert(after[slots@[j] as int] == before[slots@[j] as int]);
                }
            }
            assert forall|j: int| 0 <= j < k + 1 implies is_slot_of(xs, xs[j], #[trigger] slots@[j] as int) by {
                lemma_distinct_prefix(xs, k + 1);
                assert(is_slot_of(xs.take(k + 1), xs[j], slots@[j] as int));
            }
            assert forall|v: int| 0 <= v <= max implies {
                &&& (#[trigger] table@[v] == usize::MAX <==> !after.contains(v as usize))
                &&& table@[v] != usize::MAX ==> table@[v] < after.len() && after[table@[v] as int] == v
            } by {
                if !before.contains(w) {
                    lemma_push_contains_usize(before, w, v as usize);
                    if v != w {
                        if table@[v] != usize::MAX {
                            assert(after[table@[v] as int] == before[table@[v] as int]);
                        }
                    }
                } else if table@[v] != usize::MAX {
                    assert(after[table@[v] as int] == before[table@[v] as int]);
                }
            }
        }
        k = k + 1;
    }
    slots
}

proof fn lemma_push_contains_usize(s: Seq<usize>, v: usize, x: usize)
    ensures
        s.push(v).contains(x) <==> (s.contains(x) || x == v),
{
    if s.push(v).contains(x) {
        let i = choose|i: int| 0 <= i < s.push(v).len() && s.push(v)[i] == x;
        if i < s.len() {
            assert(s[i] == x);
        }
    }
    if s.contains(x) {
        let i = choose|i: int| 0 <= i < s.len() && s[i] == x;
        assert(s.push(v)[i] == x);
    }
    if x == v {
        assert(s.push(v)[s.len() as int] == x);
    }
}

/// The compact numbering of a prefix is a prefix of the whole numbering.
proof fn lemma_distinct_prefix(xs: Seq<usize>, n: int)
    requires
        0 <= n <= xs.len(),
    ensures
        distinct_in_order(xs.take(n)).len() <= distinct_in_order(xs).len(),
        forall|j: int| 0 <= j < distinct_in_order(xs.take(n)).len()
            ==> #[trigger] distinct_in_order(xs.take(n))[j] == distinct_in_order(xs)[j],
    decreases xs.len() - n,
{
    if n < xs.len() {
        lemma_distinct_prefix(xs, n + 1);
        assert(xs.take(n + 1).drop_last() =~= xs.take(n));
        let dn = distinct_in_order(xs.take(n));
        let dn1 = distinct_in_order(xs.take(n + 1));
        assert(dn1 == (if dn.contains(xs.take(n + 1).last()) { dn } else { dn.push(xs.take(n + 1).last()) }));
        assert forall|j: int| 0 <= j < dn.len() implies #[trigger] dn[j] == distinct_in_order(xs)[j] by {
            assert(dn1[j] == dn[j]);
        }
    } else {
        assert(xs.take(n) =~= xs);
    }
}

/// Prepare every operation once: its widths, the compact slots of both
/// widths, and its scaled cost.
pub fn prepare_operations(widths: &[(usize, usize)], scaled_weights: &[usize]) -> (r: Vec<PreparedOperation>)
    requires
        scaled_weights@.len() == widths@.len(),
        forall|i: int| 0 <= i < widths@.len() ==> (#[trigger] widths@[i]).0 < usize::MAX && widths@[i].1 < usize::MAX,
    ensures
        r@.len() == widths@.len(),
        forall|i: int| 0 <= i < widths@.len() ==> {
            let p = #[trigger] r@[i];
            &&& p.index == i
            &&& p.consume_x == widths@[i].0
            &&& p.consume_y == widths@[i].1
            &&& p.scaled_weight == scaled_weights@[i]
            &&& is_slot_of(widths@.map_values(|w: (usize, usize)| w.0), widths@[i].0, p.source_width_slot as int)
            &&& is_slot_of(widths@.map_values(|w: (usize, usize)| w.1), widths@[i].1, p.query_width_slot as int)
        },
{
    let ghost xs = widths@.map_values(|w: (usize, usize)| w.0);
    let ghost ys = widths@.map_values(|w: (usize, usize)| w.1);
    let mut sources: Vec<usize> = Vec::new();
    let mut queries: Vec<usize> = Vec::new();
    let mut i: usize = 0;
    while i < widths.len()
        invariant
            i <= widths@.len(),
            sources@ == xs.take(i as int),
            queries@ == ys.take(i as int),
            xs == widths@.map_values(|w: (usize, usize)| w.0),
            ys == widths@.map_values(|w: (usize, usize)| w.1),
        decreases widths@.len() - i,
    {
        sources.push(widths[i].0);
        queries.push(widths[i].1);
        proof {
            assert(sources@ =~= xs.take(i + 1));
            assert(queries@ =~= ys.take(i + 1));
        }
        i = i + 1;
    }
    proof {
        assert(sources@ =~= xs);
        assert(queries@ =~= ys);
    }
    let source_slots: Vec<usize> = assign_width_slots(sources.as_slice());
    let query_slots: Vec<usize> = assign_width_slots(queries.as_slice());
    let mut prepared: Vec<PreparedOperation> = Vec::new();
    let mut j: usize = 0;
    while j < widths.len()
        invariant
            j <= widths@.len(),
            scaled_weights@.len() == widths@.len(),
            xs == widths@.map_values(|w: (usize, usize)| w.0),
            ys == widths@.map_values(|w: (usize, usize)| w.1),
            source_slots@.len() == widths@.len(),
            query_slots@.len() == widths@.len(),
            forall|k: int| 0 <= k < widths@.len() ==> is_slot_of(xs, xs[k], #[trigger] source_slots@[k] as int),
            forall|k: int| 0 <= k < widths@.len() ==> is_slot_of(ys, ys[k], #[trigger] query_slots@[k] as int),
            prepared@.len() == j,
            forall|k: int| 0 <= k < j ==> {
                let p = #[trigger] prepared@[k];
                &&& p.index == k
                &&& p.consume_x == widths@[k].0
                &&& p.consume_y == widths@[k].1
                &&& p.scaled_weight == scaled_weights@[k]
                &&& is_slot_of(xs, widths@[k].0, p.source_width_slot as int)
                &&& is_slot_of(ys, widths@[k].1, p.query_width_slot as int)
            },
        decreases widths@.len() - j,
    {
        let (consume_x, consume_y) = widths[j];
        proof {
            assert(is_slot_of(xs, xs[j as int], source_slots@[j as int] as int));
            assert(is_slot_of(ys, ys[j as int], query_slots@[j as int] as int));
        }
        prepared.push(PreparedOperation {
            index: j,
            consume_x,
            consume_y,
            source_width_slot: source_slots[j],
            query_width_slot: query_slots[j],
            scaled_weight: scaled_weights[j],
        });
        j = j + 1;
    }
    prepared
}


/// The limit-exceeded error, or `Ok` when `required` fits under `limit`.
pub open spec fn within(resource: GeneralizedWfstResource, required: int, limit: usize) -> Result<(), GeneralizedWfstError> {
    if required <= limit {
        Ok(())
    } else {
        Err(GeneralizedWfstError::LimitExceeded { resource, limit, required: required as usize })
    }
}

/// The first operation, in order, whose source or query width passes its
/// ceiling, as the error naming that ceiling; `Ok` when none does.
pub open spec fn widths_within(widths: Seq<(usize, usize)>, limits: GeneralizedWfstLimits) -> Result<(), GeneralizedWfstError>
    decreases widths.len(),
{
    if widths.len() == 0 {
        Ok(())
    } else if widths[0].0 > limits.max_operation_source_scalars {
        within(GeneralizedWfstResource::OperationSourceScalars, widths[0].0 as int, limits.max_operation_source_scalars)
    } else if widths[0].1 > limits.max_operation_query_scalars {
        within(GeneralizedWfstResource::OperationQueryScalars, widths[0].1 as int, limits.max_operation_query_scalars)
    } else {
        widths_within(widths.drop_first(), limits)
    }
}

/// The construction check of a generalized WFST: the query's bytes and
/// scalars, room for the dictionary root and the start state, then every
/// operation's widths; the first ceiling passed is reported.
pub open spec fn construction_within(query_bytes: int, query_scalars: int, widths: Seq<(usize, usize)>,
    limits: GeneralizedWfstLimits) -> Result<(), GeneralizedWfstError> {
    if query_bytes > limits.max_query_bytes {
        within(GeneralizedWfstResource::QueryBytes, query_bytes, limits.max_query_bytes)
    } else if query_scalars > limits.max_query_scalars {
        within(GeneralizedWfstResource::QueryScalars, query_scalars, limits.max_query_scalars)
    } else if 1 > limits.max_retained_dictionary_nodes {
        within(GeneralizedWfstResource::RetainedDictionaryNodes, 1, limits.max_retained_dictionary_nodes)
    } else if 1 > limits.max_retained_wfst_states {
        within(GeneralizedWfstResource::RetainedWfstStates, 1, limits.max_retained_wfst_states)
    } else {
        widths_within(widths, limits)
    }
}

/// Check a query and the operations' widths (dictionary side, query side)
/// against the construction ceilings, reporting the first one passed.
pub fn validate_construction_limits(query: &str, widths: &[(usize, usize)], limits: GeneralizedWfstLimits)
    -> (r: Result<(), GeneralizedWfstError>)
    ensures
        r == construction_within(query.len() as int, query@.len() as int, widths@, limits),
{
    match require_at_most(GeneralizedWfstResource::QueryBytes, query.len(), limits.max_query_bytes) {
        Ok(()) => {},
        Err(e) => return Err(e),
    }
    match require_at_most(GeneralizedWfstResource::QueryScalars, query.unicode_len(), limits.max_query_scalars) {
        Ok(()) => {},
        Err(e) => return Err(e),
    }
    match require_at_most(GeneralizedWfstResource::RetainedDictionaryNodes, 1, limits.max_retained_dictionary_nodes) {
        Ok(()) => {},
        Err(e) => return Err(e),
    }
    match require_at_most(GeneralizedWfstResource::RetainedWfstStates, 1, limits.max_retained_wfst_states) {
        Ok(()) => {},
        Err(e) => return Err(e),
    }
    let mut i: usize = 0;
    assert(widths@.subrange(0, widths@.len() as int) =~= widths@);
    while i < widths.len()
        invariant
            i <= widths@.len(),
            widths_within(widths@, limits) == widths_within(widths@.subrange(i as int, widths@.len() as int), limits),
            construction_within(query.len() as int, query@.len() as int, widths@, limits) == widths_within(widths@, limits),
        decreases widths@.len() - i,
    {
        let (consume_x, consume_y) = widths[i];
        let ghost rest = widths@.subrange(i as int, widths@.len() as int);
        proof {
            assert(rest[0] == widths@[i as int]);
            assert(rest.drop_first() =~= widths@.subrange(i + 1, widths@.len() as int));
        }
        match require_at_most(GeneralizedWfstResource::OperationSourceScalars, consume_x, limits.max_operation_source_scalars) {
            Ok(()) => {},
            Err(e) => return Err(e),
        }
        match require_at_most(GeneralizedWfstResource::OperationQueryScalars, consume_y, limits.max_operation_query_scalars) {
            Ok(()) => {},
            Err(e) => return Err(e),
        }
        i = i + 1;
    }
    Ok(())
}


/// Where an operation applies, as plain values.
#[derive(Clone, Debug, PartialEq, Eq)]
pub enum Applicability {
    /// Two scalars read in swapped order: `ab` for `ba`.
    AdjacentTranspose,
    /// Any slices of the operation's widths.
    Any,
    /// Equal scalar slices.
    Equal,
    /// Only the listed pairs of (dictionary bytes, query bytes).
    Listed(Vec<(Vec<u8>, Vec<u8>)>),
}

/// Whether an operation of applicability `a` rewrites the dictionary
/// scalars `dc` (bytes `db`) as the query scalars `qc` (bytes `qb`).
pub open spec fn spec_applies(a: Applicability, dc: Seq<char>, db: Seq<u8>, qc: Seq<char>, qb: Seq<u8>) -> bool {
    match a {
        Applicability::AdjacentTranspose => dc.len() == 2 && qc.len() == 2 && dc[0] == qc[1] && dc[1] == qc[0],
        Applicability::Any => true,
        Applicability::Equal => dc == qc,
        Applicability::Listed(pairs) => exists|i: int| 0 <= i < pairs@.len() && (#[trigger] pairs@[i]).0@ == db
            && pairs@[i].1@ == qb,
    }
}

/// Whether two scalar slices are equal.
fn chars_equal(a: &[char], b: &[char]) -> (r: bool)
    ensures
        r == (a@ == b@),
{
    if a.len() != b.len() {
        return false;
    }
    let mut i: usize = 0;
    while i < a.len()
        invariant
            i <= a@.len(),
            a@.len() == b@.len(),
            forall|j: int| 0 <= j < i ==> a@[j] == b@[j],
        decreases a@.len() - i,
    {
        if a[i] != b[i] {
            return false;
        }
        i = i + 1;
    }
    assert(a@ =~= b@);
    true
}

/// Whether two byte slices are equal.
fn bytes_equal(a: &[u8], b: &[u8]) -> (r: bool)
    ensures
        r == (a@ == b@),
{
    if a.len() != b.len() {
        return false;
    }
    let mut i: usize = 0;
    while i < a.len()
        invariant
            i <= a@.len(),
            a@.len() == b@.len(),
            forall|j: int| 0 <= j < i ==> a@[j] == b@[j],
        decreases a@.len() - i,
    {
        if a[i] != b[i] {
            return false;
        }
        i = i + 1;
    }
    assert(a@ =~= b@);
    true
}

/// Whether an operation of applicability `applicability` rewrites the
/// dictionary scalars `dict_chars` as the query scalars `query_chars`.
pub fn operation_applies(applicability: &Applicability, dict_chars: &[char], dict_bytes: &[u8],
    query_chars: &[char], query_bytes: &[u8]) -> (r: bool)
    ensures
        r == spec_applies(*applicability, dict_chars@, dict_bytes@, query_chars@, query_bytes@),
{
    match applicability {
        Applicability::AdjacentTranspose => {
            dict_chars.len() == 2 && query_chars.len() == 2 && dict_chars[0] == query_chars[1]
                && dict_chars[1] == query_chars[0]
        },
        Applicability::Any => true,
        Applicability::Equal => chars_equal(dict_chars, query_chars),
        Applicability::Listed(pairs) => {
            let mut i: usize = 0;
            while i < pairs.len()
                invariant
                    *applicability == Applicability::Listed(*pairs),
                    i <= pairs@.len(),
                    forall|j: int| 0 <= j < i ==> !((#[trigger] pairs@[j]).0@ == dict_bytes@ && pairs@[j].1@ == query_bytes@),
                decreases pairs@.len() - i,
            {
                let found_dict = bytes_equal(pairs[i].0.as_slice(), dict_bytes);
                let found_query = bytes_equal(pairs[i].1.as_slice(), query_bytes);
                if found_dict && found_query {
                    proof {
                        let w = pairs@[i as int];
                        assert(w.0@ == dict_bytes@ && w.1@ == query_bytes@);
                        assert(applicability->Listed_0 == *pairs);
                        assert(applicability->Listed_0@[i as int] == w);
                        assert(spec_applies(*applicability, dict_chars@, dict_bytes@, query_chars@, query_bytes@));
                    }
                    return true;
                }
                i = i + 1;
            }
            false
        },
    }
}

} // verus!
