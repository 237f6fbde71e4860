//! Numeric helpers, alphabets and canonical NFA state sets of the phonetic adapters.
use vstd::prelude::*;
use rustc_hash::FxHashMap;
use crate::fx_map::{fx_insert, fx_map_with_capacity};
use crate::hints::capped_size_hint_capacity;
use crate::state_encoding::{saturating_mul, saturating_mul_usize};

verus! {

/// Widest character-class range that is expanded scalar by scalar.
pub const MAX_EXACT_CLASS_RANGE_CHARS: usize = 256;

/// The ID the next registered phonetic product state receives when `len` are registered.
pub fn next_phonetic_registry_id(len: usize) -> (r: Option<u32>)
    ensures
        r == (if len <= u32::MAX { Some(len as u32) } else { None::<u32> }),
{
    if len <= 0xffff_ffffusize { Some(len as u32) } else { None }
}

/// Product-state estimate of the phonetic adapter: `(max_distance + 1) * 1000`, at least 10000.
pub fn estimated_phonetic_product_states(max_distance: u8) -> (r: u32)
    ensures
        r == (if (max_distance + 1) * 1000 < 10_000 { 10_000 } else { (max_distance + 1) * 1000 }),
{
    let scaled: u32 = (max_distance as u32 + 1) * 1000;
    if scaled < 10_000 { 10_000 } else { scaled }
}

/// State-count hint of the phonetic NFA adapter: ten states per NFA state,
/// saturating, and never below the registered states.
pub fn phonetic_nfa_state_hint(nfa_state_count: usize, registered_states: usize) -> (r: usize)
    ensures
        r == (if saturating_mul_usize(nfa_state_count as int, 10) < registered_states {
            registered_states as int
        } else {
            saturating_mul_usize(nfa_state_count as int, 10)
        }),
{
    let scaled: usize = saturating_mul(nfa_state_count, 10);
    if scaled < registered_states { registered_states } else { scaled }
}

/// Number of scalar values in `start..=end`, or `None` for an empty range.
pub fn char_range_width(start: char, end: char) -> (r: Option<usize>)
    ensures
        r == (if (start as u32) <= (end as u32) { Some(((end as u32) - (start as u32) + 1) as usize) } else { None::<usize> }),
{
    let s: u32 = start as u32;
    let e: u32 = end as u32;
    if s > e {
        return None;
    }
    assert(e <= 0x10ffff);
    Some((e - s + 1) as usize)
}

/// The scalars of `s` without repeats, each at its first occurrence.
pub open spec fn dedup_first(s: Seq<char>) -> Seq<char>
    decreases s.len(),
{
    if s.len() == 0 {
        Seq::empty()
    } else {
        let d = dedup_first(s.drop_last());
        if d.contains(s.last()) { d } else { d.push(s.last()) }
    }
}

/// Remove repeated scalars from an alphabet, keeping first-seen order.
pub fn normalize_alphabet(alphabet: Vec<char>) -> (r: Vec<char>)
    ensures
        r@ == dedup_first(alphabet@),
{
    let reserve: usize = capped_size_hint_capacity(alphabet.len());
    let reserve: usize = if reserve < MAX_EXACT_CLASS_RANGE_CHARS { reserve } else { MAX_EXACT_CLASS_RANGE_CHARS };
    let mut seen: FxHashMap<u32, ()> = fx_map_with_capacity(reserve);
    let mut deduped: Vec<char> = Vec::new();
    for i in 0..alphabet.len()
        invariant
            deduped@ == dedup_first(alphabet@.take(i as int)),
            forall|k: u32| #[trigger] seen@.contains_key(k) <==>
                exists|j: int| 0 <= j < deduped@.len() && deduped@[j] as u32 == k,
    {
        proof {
            assert(alphabet@.take(i + 1).drop_last() == alphabet@.take(i as int));
        }
        let candidate: char = alphabet[i];
        let ghost before = seen@;
        let previous: Option<()> = fx_insert(&mut seen, candidate as u32, ());
        match previous {
            None => {
                proof {
                    assert(!before.contains_key(candidate as u32));
                    if deduped@.contains(candidate) {
                        let j = choose|j: int| 0 <= j < deduped@.len() && deduped@[j] == candidate;
                        assert(deduped@[j] as u32 == candidate as u32);
                        assert(before.contains_key(candidate as u32));
                    }
                }
                let ghost prior = deduped@;
                deduped.push(candidate);
                proof {
                    assert forall|k: u32| #[trigger] seen@.contains_key(k) <==>
                        exists|j: int| 0 <= j < deduped@.len() && deduped@[j] as u32 == k by {
                        if k == candidate as u32 {
                            assert(deduped@[deduped@.len() - 1] as u32 == k);
                        } else {
                            if seen@.contains_key(k) {
                                assert(before.contains_key(k));
                                let j = choose|j: int| 0 <= j < prior.len() && prior[j] as u32 == k;
                                assert(deduped@[j] as u32 == k);
                            }
                            if exists|j: int| 0 <= j < deduped@.len() && deduped@[j] as u32 == k {
                                let j = choose|j: int| 0 <= j < deduped@.len() && deduped@[j] as u32 == k;
                                assert(j < prior.len());
                                assert(prior[j] as u32 == k);
                                assert(before.contains_key(k));
                            }
                        }
                    }
                }
            },
            Some(_) => {
                proof {
                    assert(before.contains_key(candidate as u32));
                    let j = choose|j: int| 0 <= j < deduped@.len() && deduped@[j] as u32 == candidate as u32;
                    lemma_scalar_code_injective(deduped@[j], candidate);
                    assert(deduped@.contains(candidate));
                    assert(seen@ =~= before);
                }
            },
        }
    }
    assert(alphabet@.take(alphabet@.len() as int) == alphabet@);
    deduped
}

/// Distinct scalars have distinct code points.
pub proof fn lemma_scalar_code_injective(a: char, b: char)
    requires
        a as u32 == b as u32,
    ensures
        a == b,
{
    assert(0 <= a as int <= 0x10ffff);
    assert(0 <= b as int <= 0x10ffff);
}

/// The printable ASCII scalars `' '..='~'`, in order.
pub open spec fn spec_default_alphabet() -> Seq<char> {
    Seq::new(95, |i: int| (32 + i) as char)
}

/// The default phonetic NFA alphabet: the printable ASCII scalars `' '..='~'`.
pub fn default_phonetic_nfa_alphabet() -> (r: Vec<char>)
    ensures
        r@ == spec_default_alphabet(),
{
    let mut out: Vec<char> = Vec::new();
    let mut b: u8 = 32;
    while b <= 126
        invariant
            32 <= b <= 127,
            out@ == Seq::new((b - 32) as nat, |i: int| (32 + i) as char),
        decreases 127 - b,
    {
        out.push(b as char);
        b = b + 1;
        assert(out@ =~= Seq::new((b - 32) as nat, |i: int| (32 + i) as char));
    }
    out
}

/// Strictly increasing.
pub open spec fn strictly_increasing(s: Seq<u32>) -> bool {
    forall|i: int, j: int| 0 <= i < j < s.len() ==> s[i] < s[j]
}

/// Non-decreasing.
pub open spec fn nondecreasing(s: Seq<u32>) -> bool {
    forall|i: int, j: int| 0 <= i <= j < s.len() ==> s[i] <= s[j]
}

/// Calls `slice::sort_unstable`: the elements in non-decreasing order, as a permutation.
#[verifier::external_body]
fn sort_unstable_u32(v: &mut Vec<u32>)
    ensures
        nondecreasing(final(v)@),
        final(v)@.to_multiset() == old(v)@.to_multiset(),
{
    v.sort_unstable()
}

/// Calls `Vec::dedup`: consecutive repeats removed; on a sorted vector this
/// leaves each distinct element once, in order.
#[verifier::external_body]
fn dedup_u32(v: &mut Vec<u32>)
    requires
        nondecreasing(old(v)@),
    ensures
        strictly_increasing(final(v)@),
        final(v)@.to_set() == old(v)@.to_set(),
{
    v.dedup()
}

/// Whether the states are already strictly increasing.
fn is_strictly_increasing(states: &Vec<u32>) -> (r: bool)
    ensures
        r == strictly_increasing(states@),
{
    let n: usize = states.len();
    if n < 2 {
        return true;
    }
    let mut i: usize = 1;
    while i < n
        invariant
            n == states@.len(),
            1 <= i <= n,
            strictly_increasing(states@.take(i as int)),
        decreases n - i,
    {
        if states[i - 1] >= states[i] {
            return false;
        }
        i = i + 1;
        assert forall|a: int, b: int| 0 <= a < b < i implies states@.take(i as int)[a] < states@.take(i as int)[b] by {
            if b < i - 1 {
                assert(states@.take(i - 1)[a] < states@.take(i - 1)[b]);
            } else if a < i - 2 {
                assert(states@.take(i - 1)[a] < states@.take(i - 1)[i - 2]);
            }
        }
    }
    assert(states@.take(n as int) == states@);
    true
}

/// Sort the NFA states and drop repeats, leaving an already canonical list unchanged.
pub fn canonicalize_nfa_states(states: &mut Vec<u32>)
    ensures
        strictly_increasing(final(states)@),
        final(states)@.to_set() == old(states)@.to_set(),
        strictly_increasing(old(states)@) ==> final(states)@ == old(states)@,
{
    if is_strictly_increasing(states) {
        return;
    }
    sort_unstable_u32(states);
    let ghost sorted = states@;
    proof {
        sorted.to_multiset_ensures();
        old(states)@.to_multiset_ensures();
        assert forall|x: u32| sorted.contains(x) <==> old(states)@.contains(x) by {
            assert(sorted.contains(x) <==> sorted.to_multiset().count(x) > 0);
            assert(old(states)@.contains(x) <==> old(states)@.to_multiset().count(x) > 0);
        }
        assert(sorted.to_set() =~= old(states)@.to_set());
    }
    dedup_u32(states);
}

/// Two canonical state lists with the same elements are equal: a state set
/// has exactly one canonical form.
pub proof fn lemma_canonical_form_unique(a: Seq<u32>, b: Seq<u32>)
    requires
        strictly_increasing(a),
        strictly_increasing(b),
        a.to_set() == b.to_set(),
    ensures
        a == b,
    decreases a.len() + b.len(),
{
    if a.len() == 0 || b.len() == 0 {
        if a.len() > 0 {
            assert(a.to_set().contains(a[0]));
        }
        if b.len() > 0 {
            assert(b.to_set().contains(b[0]));
        }
        assert(a =~= b);
    } else {
        let la = a.last();
        let lb = b.last();
        assert(a.to_set().contains(la));
        assert(b.to_set().contains(lb));
        let ia = choose|i: int| 0 <= i < a.len() && a[i] == lb;
        let ib = choose|i: int| 0 <= i < b.len() && b[i] == la;
        assert(la == lb);
        let a2 = a.drop_last();
        let b2 = b.drop_last();
        assert forall|x: u32| a2.to_set().contains(x) <==> b2.to_set().contains(x) by {
            if a2.to_set().contains(x) {
                let i = choose|i: int| 0 <= i < a2.len() && a2[i] == x;
                assert(a.to_set().contains(x));
                let j = choose|j: int| 0 <= j < b.len() && b[j] == x;
                assert(x < la);
                assert(j != b.len() - 1);
                assert(b2[j] == x);
            }
            if b2.to_set().contains(x) {
                let i = choose|i: int| 0 <= i < b2.len() && b2[i] == x;
                assert(b.to_set().contains(x));
                let j = choose|j: int| 0 <= j < a.len() && a[j] == x;
                assert(x < lb);
                assert(j != a.len() - 1);
                assert(a2[j] == x);
            }
        }
        assert(a2.to_set() =~= b2.to_set());
        lemma_canonical_form_unique(a2, b2);
        assert(a =~= b2.push(lb));
        assert(b =~= b2.push(lb));
    }
}

} // verus!
