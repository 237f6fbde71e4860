//! Acceptance of one page of a paged edge listing: a provider reports, for a
//! node, how many edges it has in all and fills a page of at most
//! `capacity` edges from `offset`; the consumer accepts the page only when
//! the reply is consistent and every label is a Unicode scalar.
use vstd::prelude::*;
use crate::phonetic_candidates::{char_from_code, spec_is_scalar};

verus! {

/// What one reply of the provider leads to.
#[derive(Clone, Debug, PartialEq, Eq)]
pub enum EdgePageStep {
    /// The provider reported a failure of its own.
    ProviderFailed,
    /// The reply is inconsistent or carries a code that is no scalar.
    Malformed,
    /// The page is accepted: its labels in order, the offset after it, and
    /// whether that offset reaches the total.
    Accepted { labels: Vec<char>, next_offset: usize, done: bool },
}

/// A reply that claims more than the page holds, starts or ends past the
/// total, or makes no progress before the end.
pub open spec fn page_inconsistent(offset: usize, total: usize, capacity: usize, written: usize) -> bool {
    ||| written > capacity
    ||| offset > total
    ||| offset + written > total
    ||| (written == 0 && offset < total)
}

/// The labels of the first `written` codes, when every one is a scalar.
pub open spec fn page_labels(codes: Seq<u32>, written: nat) -> Option<Seq<char>> {
    if forall|i: int| 0 <= i < written ==> spec_is_scalar(#[trigger] codes[i]) {
        Some(Seq::new(written, |i: int| codes[i] as char))
    } else {
        None
    }
}

/// Judge one reply: the provider's failure, a malformed reply, or the
/// accepted page of `written` labels read from the page `codes` of
/// `capacity` entries, with the offset after it.
pub fn next_edge_page(offset: usize, total: usize, capacity: usize, status_ok: bool, written: usize,
    codes: &[u32]) -> (r: EdgePageStep)
    requires
        codes@.len() == capacity,
    ensures
        !status_ok ==> r == EdgePageStep::ProviderFailed,
        status_ok && page_inconsistent(offset, total, capacity, written) ==> r == EdgePageStep::Malformed,
        status_ok && !page_inconsistent(offset, total, capacity, written) ==> match page_labels(codes@, written as nat) {
            None => r == EdgePageStep::Malformed,
            Some(labels) => r matches EdgePageStep::Accepted { labels: got, next_offset, done } && {
                &&& got@ == labels
                &&& next_offset == offset + written
                &&& done == (offset + written == total)
            },
        },
{
    if !status_ok {
        return EdgePageStep::ProviderFailed;
    }
    if written > capacity || offset > total || written > total - offset || (written == 0 && offset < total) {
        return EdgePageStep::Malformed;
    }
    let mut labels: Vec<char> = Vec::new();
    let mut i: usize = 0;
    while i < written
        invariant
            i <= written,
            written <= codes@.len(),
            status_ok,
            !page_inconsistent(offset, total, capacity, written),
            labels@.len() == i,
            forall|j: int| 0 <= j < i ==> spec_is_scalar(#[trigger] codes@[j]) && labels@[j] == codes@[j] as char,
        decreases written - i,
    {
        match char_from_code(codes[i]) {
            Some(c) => labels.push(c),
            None => {
                proof {
                    assert(!spec_is_scalar(codes@[i as int]));
                    assert(page_labels(codes@, written as nat) is None);
                }
                return EdgePageStep::Malformed;
            },
        }
        i = i + 1;
    }
    proof {
        assert(labels@ =~= Seq::new(written as nat, |j: int| codes@[j] as char));
    }
    EdgePageStep::Accepted { labels, next_offset: offset + written, done: offset + written == total }
}

} // verus!
