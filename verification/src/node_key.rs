//! Compact exact key for dictionary nodes discovered by path traversal.
//!
//! Dictionary nodes expose no stable identity, so a child is identified by
//! the path step `(parent_node_id, edge_label)` that reached it. A Unicode
//! scalar needs at most 21 bits, so a 32-bit parent ID and the label pack
//! into one `u64`; `u64::MAX` is reserved for the root and no child reaches it.
use vstd::prelude::*;

verus! {

/// Key of a dictionary node: the root, or the packed path step of a child.
#[derive(Clone, Copy, Debug, PartialEq, Eq, Hash, Structural)]
pub struct DictionaryNodeKey(pub u64);

/// Number of bits reserved for the edge label.
pub const CHAR_BITS: u64 = 21;

/// The packed value of the child reached from `parent_id` by `edge_label`.
pub open spec fn spec_child_key(parent_id: u32, edge_label: char) -> u64 {
    (parent_id as int * 0x20_0000 + edge_label as int) as u64
}

impl DictionaryNodeKey {
    /// The key of the dictionary root: `u64::MAX`.
    pub fn root() -> (r: Self)
        ensures
            r.0 == u64::MAX,
    {
        DictionaryNodeKey(u64::MAX)
    }

    /// The key of the child reached from `parent_id` by the edge `edge_label`.
    pub fn child(parent_id: u32, edge_label: char) -> (r: Self)
        ensures
            r.0 == spec_child_key(parent_id, edge_label),
    {
        let codepoint: u64 = edge_label as u64;
        let parent: u64 = parent_id as u64;
        assert(codepoint <= 0x10ffff);
        assert((parent << 21u64) | codepoint == parent * 0x20_0000 + codepoint) by (bit_vector)
            requires
                parent <= 0xffff_ffff,
                codepoint <= 0x10ffff,
        ;
        DictionaryNodeKey((parent << 21u64) | codepoint)
    }

    /// The raw packed value.
    pub fn raw(&self) -> (r: u64)
        ensures
            r == self.0,
    {
        self.0
    }
}

/// No child key is the root key.
pub proof fn lemma_child_is_not_root(parent_id: u32, edge_label: char)
    ensures
        spec_child_key(parent_id, edge_label) != 0xffff_ffff_ffff_ffffu64,
{
    assert(edge_label as int <= 0x10ffff);
}

/// Distinct path steps give distinct child keys.
pub proof fn lemma_child_key_injective(p1: u32, c1: char, p2: u32, c2: char)
    requires
        spec_child_key(p1, c1) == spec_child_key(p2, c2),
    ensures
        p1 == p2,
        c1 == c2,
{
    let a1: int = c1 as int;
    let a2: int = c2 as int;
    assert(0 <= a1 <= 0x10ffff && 0 <= a2 <= 0x10ffff);
    vstd::arithmetic::div_mod::lemma_fundamental_div_mod_converse(
        p1 as int * 0x20_0000 + a1, 0x20_0000, p1 as int, a1);
    vstd::arithmetic::div_mod::lemma_fundamental_div_mod_converse(
        p2 as int * 0x20_0000 + a2, 0x20_0000, p2 as int, a2);
}

} // verus!
