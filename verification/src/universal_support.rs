//! Query windows and numeric helpers of the Universal Levenshtein adapter.
use vstd::prelude::*;

verus! {

/// The ID the next registered universal state receives when `len` are registered.
pub fn next_universal_registry_id(len: usize) -> (r: Option<u32>)
    ensures
        r == (if len <= u32::MAX { Some(len as u32) } else { None::<u32> }),
{
    if len <= 0xffff_ffffusize { Some(len as u32) } else { None }
}

/// Number of query positions, `query_len + 1`, saturating at `u32::MAX`.
pub fn universal_query_state_factor(query_len: usize) -> (r: u32)
    ensures
        r == (if query_len + 1 > u32::MAX { u32::MAX } else { (query_len + 1) as u32 }),
{
    let positions: usize = query_len.saturating_add(1);
    if positions > 0xffff_ffffusize { u32::MAX } else { positions as u32 }
}

/// `base + offset`, or `None` when the result leaves the `usize` range.
pub fn apply_i32_offset(base: usize, offset: i32) -> (r: Option<usize>)
    ensures
        r == (if 0 <= base + offset <= usize::MAX { Some((base + offset) as usize) } else { None::<usize> }),
{
    if offset >= 0 {
        base.checked_add(offset as usize)
    } else {
        let magnitude: u64 = (-(offset as i64)) as u64;
        if magnitude as u128 > usize::MAX as u128 {
            None
        } else {
            base.checked_sub(magnitude as usize)
        }
    }
}

/// The part of the query relevant at a dictionary position: `false_prefix`
/// virtual characters before the start, then the query scalars in reach.
#[derive(Clone, Debug, PartialEq, Eq)]
pub struct UniversalQueryWindow {
    pub false_prefix: usize,
    pub units: Vec<char>,
}

/// `a - b`, or zero when `b > a`.
pub open spec fn sat_sub(a: int, b: int) -> int {
    if a > b { a - b } else { 0 }
}

/// `a + b`, saturating at `usize::MAX`.
pub open spec fn sat_add(a: int, b: int) -> int {
    if a + b > usize::MAX { usize::MAX as int } else { a + b }
}

/// Number of virtual characters before the query at `position`.
pub open spec fn spec_false_prefix(max_distance: usize, position: usize) -> int {
    sat_sub(sat_add(max_distance as int, 1), position as int)
}

/// First query position (1-based) in reach of `position`.
pub open spec fn spec_first_word_pos(max_distance: usize, position: usize) -> int {
    let p = sat_sub(position as int, max_distance as int);
    if p < 1 { 1 } else { p }
}

/// One past the last query position in reach of `position`.
pub open spec fn spec_end_pos(len: int, max_distance: usize, position: usize) -> int {
    let e = sat_add(sat_add(position as int, max_distance as int), 1);
    if e < len { e } else { len }
}

/// The query scalars in reach of dictionary `position` (1-based) within `max_distance`.
pub open spec fn spec_window_units(word: Seq<char>, max_distance: usize, position: usize) -> Seq<char> {
    let first = spec_first_word_pos(max_distance, position);
    let end = spec_end_pos(word.len() as int, max_distance, position);
    if first <= end { word.subrange(first - 1, end) } else { Seq::empty() }
}

/// The relevant window of `word` at dictionary `position` (1-based): the
/// positions `position - max_distance ..= position + max_distance + 1`
/// clipped to the word, after `max_distance + 1 - position` virtual characters.
pub fn relevant_window_at(word: &[char], max_distance: usize, position: usize) -> (r: UniversalQueryWindow)
    ensures
        r.false_prefix == spec_false_prefix(max_distance, position),
        r.units@ == spec_window_units(word@, max_distance, position),
{
    let false_prefix: usize = max_distance.saturating_add(1).saturating_sub(position);
    let lower: usize = position.saturating_sub(max_distance);
    let first_word_pos: usize = if lower < 1 { 1 } else { lower };
    let upper: usize = position.saturating_add(max_distance).saturating_add(1);
    let end_pos: usize = if upper < word.len() { upper } else { word.len() };
    let mut units: Vec<char> = Vec::new();
    if first_word_pos <= end_pos {
        let mut i: usize = first_word_pos - 1;
        while i < end_pos
            invariant
                first_word_pos >= 1,
                first_word_pos - 1 <= i <= end_pos,
                end_pos <= word@.len(),
                units@ == word@.subrange(first_word_pos - 1, i as int),
            decreases end_pos - i,
        {
            units.push(word[i]);
            i = i + 1;
            assert(units@ =~= word@.subrange(first_word_pos - 1, i as int));
        }
    }
    UniversalQueryWindow { false_prefix, units }
}

/// The windows of every dictionary depth `0..query_len + max_distance`
/// (position `depth + 1`).
pub fn precompute_relevant_subwords(query_chars: &[char], max_distance: usize) -> (r: Vec<UniversalQueryWindow>)
    ensures
        r@.len() == sat_add(query_chars@.len() as int, max_distance as int),
        forall|d: int| 0 <= d < r@.len() ==> {
            &&& (#[trigger] r@[d]).false_prefix == spec_false_prefix(max_distance, (d + 1) as usize)
            &&& r@[d].units@ == spec_window_units(query_chars@, max_distance, (d + 1) as usize)
        },
{
    let cached_depths: usize = query_chars.len().saturating_add(max_distance);
    let mut windows: Vec<UniversalQueryWindow> = Vec::new();
    let mut depth: usize = 0;
    while depth < cached_depths
        invariant
            depth <= cached_depths,
            cached_depths == sat_add(query_chars@.len() as int, max_distance as int),
            windows@.len() == depth,
            forall|d: int| 0 <= d < depth ==> {
                &&& (#[trigger] windows@[d]).false_prefix == spec_false_prefix(max_distance, (d + 1) as usize)
                &&& windows@[d].units@ == spec_window_units(query_chars@, max_distance, (d + 1) as usize)
            },
        decreases cached_depths - depth,
    {
        windows.push(relevant_window_at(query_chars, max_distance, depth + 1));
        depth = depth + 1;
    }
    windows
}

/// The window at `position` spelled out: one `$` per virtual character, then the query scalars.
pub fn relevant_subword_chars(word: &[char], max_distance: usize, position: usize) -> (r: Vec<char>)
    ensures
        r@ == Seq::new(spec_false_prefix(max_distance, position) as nat, |i: int| '$')
            + spec_window_units(word@, max_distance, position),
{
    let window = relevant_window_at(word, max_distance, position);
    let mut out: Vec<char> = Vec::new();
    let mut i: usize = 0;
    while i < window.false_prefix
        invariant
            i <= window.false_prefix,
            out@ == Seq::new(i as nat, |j: int| '$'),
        decreases window.false_prefix - i,
    {
        out.push('$');
        i = i + 1;
        assert(out@ =~= Seq::new(i as nat, |j: int| '$'));
    }
    let ghost prefix = out@;
    let mut k: usize = 0;
    while k < window.units.len()
        invariant
            k <= window.units@.len(),
            out@ == prefix + window.units@.take(k as int),
        decreases window.units@.len() - k,
    {
        out.push(window.units[k]);
        k = k + 1;
        assert(out@ =~= prefix + window.units@.take(k as int));
    }
    assert(window.units@.take(window.units@.len() as int) == window.units@);
    out
}

/// Calls `String::from_iter` on scalars: the string of exactly those scalars.
#[verifier::external_body]
pub(crate) fn string_from_chars(chars: &Vec<char>) -> (r: String)
    ensures
        r@ == chars@,
{
    String::from_iter(chars.iter())
}

/// The window at `position` spelled out as a string.
pub fn relevant_subword_at(word: &[char], max_distance: usize, position: usize) -> (r: String)
    ensures
        r@ == Seq::new(spec_false_prefix(max_distance, position) as nat, |i: int| '$')
            + spec_window_units(word@, max_distance, position),
{
    let chars: Vec<char> = relevant_subword_chars(word, max_distance, position);
    string_from_chars(&chars)
}

} // verus!
