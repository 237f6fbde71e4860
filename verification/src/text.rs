//! Unicode scalar helpers shared by the scorers and WFST adapters.
use vstd::prelude::*;
use vstd::string::StringSliceAdditionalSpecFns;
use vstd::utf8::{is_char_boundary, valid_utf8};

verus! {

/// The Unicode scalar values of `s`, in order.
pub fn chars_of(s: &str) -> (r: Vec<char>)
    ensures
        r@ == s@,
{
    let mut out: Vec<char> = Vec::new();
    for c in it: s.chars()
        invariant
            out@ == it.seq().take(it.index() as int),
            it.seq() == s@,
    {
        out.push(c);
    }
    out
}

/// The first character boundary at or after byte `j` (the end when none is).
pub open spec fn boundary_at_or_after(bytes: Seq<u8>, j: int) -> int
    decreases bytes.len() - j,
{
    if j >= bytes.len() {
        bytes.len() as int
    } else if is_char_boundary(bytes, j) {
        j
    } else {
        boundary_at_or_after(bytes, j + 1)
    }
}

/// The byte offset `k` scalars after `start`, if the text has that many.
pub open spec fn advance_scalars(bytes: Seq<u8>, start: int, k: nat) -> Option<int>
    decreases k,
{
    if k == 0 {
        Some(start)
    } else if start >= bytes.len() {
        None
    } else {
        advance_scalars(bytes, boundary_at_or_after(bytes, start + 1), (k - 1) as nat)
    }
}

proof fn lemma_boundary_at_or_after(bytes: Seq<u8>, j: int)
    requires
        valid_utf8(bytes),
        0 <= j,
    ensures
        j <= boundary_at_or_after(bytes, j) <= bytes.len() || (j > bytes.len() && boundary_at_or_after(bytes, j) == bytes.len()),
        is_char_boundary(bytes, boundary_at_or_after(bytes, j)),
    decreases bytes.len() - j,
{
    vstd::utf8::is_char_boundary_start_end_of_seq(bytes);
    if j < bytes.len() && !is_char_boundary(bytes, j) {
        lemma_boundary_at_or_after(bytes, j + 1);
    }
}

/// A boundary of a text is a boundary of every prefix that ends on a boundary after it.
proof fn lemma_boundary_in_prefix(bytes: Seq<u8>, start: int, end: int)
    requires
        valid_utf8(bytes),
        0 <= start <= end <= bytes.len(),
        is_char_boundary(bytes, start),
        is_char_boundary(bytes, end),
    ensures
        is_char_boundary(bytes.subrange(0, end), start),
{
    let head = bytes.subrange(0, end);
    vstd::utf8::valid_utf8_split(bytes, end);
    vstd::utf8::is_char_boundary_start_end_of_seq(head);
    if start < end {
        vstd::utf8::is_char_boundary_iff_not_is_continuation_byte(bytes, start);
        vstd::utf8::is_char_boundary_iff_not_is_continuation_byte(head, start);
        assert(head[start] == bytes[start]);
    } else {
        assert(head.len() == end);
    }
}

/// The part of `input` that starts at byte `start` and spans `char_len`
/// scalars, with the byte offset just past it; `None` when `start` is not a
/// character boundary of `input` or fewer scalars follow it.
pub fn str_segment_by_char_width<'a>(input: &'a str, start: usize, char_len: usize) -> (r: Option<(&'a str, usize)>)
    ensures
        r is Some <==> (start <= input.spec_bytes().len() && is_char_boundary(input.spec_bytes(), start as int)
            && advance_scalars(input.spec_bytes(), start as int, char_len as nat) is Some),
        r matches Some((segment, end)) ==> {
            &&& advance_scalars(input.spec_bytes(), start as int, char_len as nat) == Some(end as int)
            &&& segment.spec_bytes() == input.spec_bytes().subrange(start as int, end as int)
        },
{
    let ghost bytes = input.spec_bytes();
    proof {
        vstd::utf8::encode_utf8_valid_utf8(input@);
        vstd::utf8::is_char_boundary_start_end_of_seq(bytes);
    }
    let raw: &[u8] = input.as_bytes();
    let len: usize = raw.len();
    if start > len || !input.is_char_boundary(start) {
        return None;
    }
    let mut end: usize = start;
    let mut k: usize = 0;
    while k < char_len
        invariant
            bytes == input.spec_bytes(),
            valid_utf8(bytes),
            len == bytes.len(),
            start <= end <= len,
            k <= char_len,
            is_char_boundary(bytes, end as int),
            advance_scalars(bytes, start as int, char_len as nat)
                == advance_scalars(bytes, end as int, (char_len - k) as nat),
        decreases char_len - k,
    {
        if end >= len {
            return None;
        }
        let ghost target = boundary_at_or_after(bytes, end + 1);
        end = end + 1;
        while end < len && !input.is_char_boundary(end)
            invariant
                bytes == input.spec_bytes(),
                valid_utf8(bytes),
                len == bytes.len(),
                start < end <= len,
                boundary_at_or_after(bytes, end as int) == target,
            decreases len - end,
        {
            end = end + 1;
        }
        proof {
            lemma_boundary_at_or_after(bytes, end as int);
            assert(boundary_at_or_after(bytes, end as int) == end);
        }
        k = k + 1;
    }
    proof {
        lemma_boundary_in_prefix(bytes, start as int, end as int);
    }
    let (head, _) = input.split_at(end);
    let (_, segment) = head.split_at(start);
    proof {
        assert(segment.spec_bytes() =~= bytes.subrange(start as int, end as int));
    }
    Some((segment, end))
}

} // verus!
