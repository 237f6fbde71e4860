//! Scalar label buffers of rewrite rules, kept inline for short labels by
//! `smallvec::SmallVec`.
use vstd::prelude::*;
use smallvec::SmallVec;

verus! {

/// A rule label: its scalars in a `SmallVec<[char; 4]>`, opaque to proofs and
/// known through `label_units`.
#[verifier::external_body]
pub struct RuleLabel {
    units: SmallVec<[char; 4]>,
}

/// The scalars a label buffer holds, in order.
pub uninterp spec fn label_units(v: RuleLabel) -> Seq<char>;

/// Collects `str::chars` into a `SmallVec`: the scalars of `s`, in order.
#[verifier::external_body]
pub fn label_from_str(s: &str) -> (r: RuleLabel)
    ensures
        label_units(r) == s@,
{
    RuleLabel { units: s.chars().collect() }
}

/// Calls `SmallVec::len`: the number of scalars held.
#[verifier::external_body]
pub fn label_len(v: &RuleLabel) -> (r: usize)
    ensures
        r == label_units(*v).len(),
{
    v.units.len()
}

/// Calls `<[char]>::get` on the `SmallVec`: the scalar at `index`, if any.
#[verifier::external_body]
pub fn label_get(v: &RuleLabel, index: usize) -> (r: Option<char>)
    ensures
        r == (if index < label_units(*v).len() { Some(label_units(*v)[index as int]) } else { None::<char> }),
{
    v.units.get(index).copied()
}

} // verus!
