//! Flattened result tables of the WallBreaker adapter.
//!
//! WallBreaker returns complete scored terms; the adapter exposes them as a
//! trie-less WFST whose state `k` is the `k`-th character of the flattened
//! result table and state 0 is a super-start state.
use vstd::prelude::*;
use crate::hints::{max_exact_f64_usize, spec_max_exact_f64_usize};
use crate::text::chars_of;

verus! {

/// Result index of the super-start state.
pub const SUPER_START_RESULT_INDEX: u32 = 0xffff_ffff;

/// One scored dictionary term.
#[derive(Clone, Debug, PartialEq, Eq)]
pub struct ScoredTerm {
    /// The matched dictionary term.
    pub term: String,
    /// Edit distance from the query to the term.
    pub distance: usize,
}

/// State key of the WallBreaker WFST: a result and a character position in it.
#[derive(Clone, Copy, Debug, PartialEq, Eq, Hash, Structural)]
pub struct WallBreakerStateKey {
    /// Index into the results list.
    pub result_index: u32,
    /// Character position within the result term.
    pub char_position: u32,
}

/// Concatenation of the terms.
pub open spec fn flatten(terms: Seq<Seq<char>>) -> Seq<char>
    decreases terms.len(),
{
    if terms.len() == 0 { Seq::empty() } else { flatten(terms.drop_last()) + terms.last() }
}

/// Number of nonempty terms.
pub open spec fn count_nonempty(terms: Seq<Seq<char>>) -> nat
    decreases terms.len(),
{
    if terms.len() == 0 { 0 } else { count_nonempty(terms.drop_last()) + (if terms.last().len() > 0 { 1nat } else { 0nat }) }
}

/// The terms of a result list as scalar sequences.
pub open spec fn terms_of(results: Seq<ScoredTerm>) -> Seq<Seq<char>> {
    results.map_values(|r: ScoredTerm| r.term@)
}

proof fn lemma_flatten_take_push(terms: Seq<Seq<char>>, i: int)
    requires
        0 <= i < terms.len(),
    ensures
        flatten(terms.take(i + 1)) == flatten(terms.take(i)) + terms[i],
{
    assert(terms.take(i + 1).drop_last() == terms.take(i));
}

proof fn lemma_flatten_index(terms: Seq<Seq<char>>, i: int, p: int)
    requires
        0 <= i < terms.len(),
        0 <= p < terms[i].len(),
    ensures
        flatten(terms.take(i)).len() + p < flatten(terms).len(),
        flatten(terms)[flatten(terms.take(i)).len() + p] == terms[i][p],
    decreases terms.len(),
{
    if i == terms.len() - 1 {
        assert(terms.take(i) == terms.drop_last());
    } else {
        lemma_flatten_index(terms.drop_last(), i, p);
        assert(terms.drop_last().take(i) == terms.take(i));
    }
}

proof fn lemma_flatten_take_len(terms: Seq<Seq<char>>, i: int)
    requires
        0 <= i <= terms.len(),
    ensures
        flatten(terms.take(i)).len() <= flatten(terms).len(),
    decreases terms.len() - i,
{
    if i < terms.len() {
        lemma_flatten_take_push(terms, i);
        lemma_flatten_take_len(terms, i + 1);
    } else {
        assert(terms.take(i) == terms);
    }
}

/// All result terms flattened into one character table, with each term's span.
#[derive(Clone)]
pub struct ResultCharArena {
    chars: Vec<char>,
    starts: Vec<usize>,
    lens: Vec<usize>,
    state_count: usize,
    non_empty_terms: usize,
    terms: Ghost<Seq<Seq<char>>>,
}

impl ResultCharArena {
    /// The terms, in order.
    pub closed spec fn spec_terms(self) -> Seq<Seq<char>> { self.terms@ }

    /// The flattened character table.
    pub closed spec fn spec_chars(self) -> Seq<char> { self.chars@ }

    /// Spans, counts and table agree with the terms.
    pub closed spec fn wf(self) -> bool {
        &&& self.chars@ == flatten(self.terms@)
        &&& self.starts@.len() == self.terms@.len()
        &&& self.lens@.len() == self.terms@.len()
        &&& forall|i: int| 0 <= i < self.terms@.len() ==> {
                &&& #[trigger] self.starts@[i] == flatten(self.terms@.take(i)).len()
                &&& self.lens@[i] == self.terms@[i].len()
            }
        &&& self.state_count == (if 1 + self.chars@.len() > usize::MAX { usize::MAX as int } else { 1 + self.chars@.len() as int })
        &&& self.non_empty_terms == count_nonempty(self.terms@)
    }

    /// The flattened character table.
    pub fn chars(&self) -> (r: &[char])
        ensures
            r@ == self.spec_chars(),
    {
        self.chars.as_slice()
    }

    /// Flatten the terms of `results`.
    pub fn from_results(results: &[ScoredTerm]) -> (r: Self)
        ensures
            r.wf(),
            r.spec_terms() == terms_of(results@),
    {
        let mut chars: Vec<char> = Vec::new();
        let mut starts: Vec<usize> = Vec::new();
        let mut lens: Vec<usize> = Vec::new();
        let mut state_count: usize = 1;
        let mut non_empty_terms: usize = 0;
        let ghost all = terms_of(results@);
        for i in 0..results.len()
            invariant
                all == terms_of(results@),
                all.len() == results@.len(),
                chars@ == flatten(all.take(i as int)),
                starts@.len() == i,
                lens@.len() == i,
                forall|j: int| 0 <= j < i ==> {
                    &&& #[trigger] starts@[j] == flatten(all.take(j)).len()
                    &&& lens@[j] == all[j].len()
                },
                state_count == (if 1 + chars@.len() > usize::MAX { usize::MAX as int } else { 1 + chars@.len() as int }),
                non_empty_terms == count_nonempty(all.take(i as int)),
                non_empty_terms <= i,
        {
            let start: usize = chars.len();
            let term: Vec<char> = chars_of(results[i].term.as_str());
            proof {
                lemma_flatten_take_push(all, i as int);
                assert(all[i as int] == results@[i as int].term@);
                assert(all.take(i + 1).drop_last() == all.take(i as int));
            }
            let ghost before = chars@;
            for k in 0..term.len()
                invariant
                    chars@ == before + term@.take(k as int),
            {
                chars.push(term[k]);
                assert(chars@ =~= before + term@.take(k + 1));
            }
            assert(term@.take(term@.len() as int) == term@);
            let len: usize = term.len();
            state_count = state_count.saturating_add(len);
            if len > 0 {
                non_empty_terms = non_empty_terms + 1;
            }
            starts.push(start);
            lens.push(len);
        }
        assert(all.take(results@.len() as int) == all);
        ResultCharArena { chars, starts, lens, state_count, non_empty_terms, terms: Ghost(all) }
    }

    /// Number of results.
    pub fn len(&self) -> (r: usize)
        requires
            self.wf(),
        ensures
            r == self.spec_terms().len(),
    {
        self.starts.len()
    }

    /// Length of term `result_index`, if it exists.
    pub fn term_len(&self, result_index: usize) -> (r: Option<usize>)
        requires
            self.wf(),
        ensures
            r == (if result_index < self.spec_terms().len() {
                Some(self.spec_terms()[result_index as int].len() as usize)
            } else {
                None::<usize>
            }),
            r matches Some(l) ==> l == self.spec_terms()[result_index as int].len(),
    {
        if result_index < self.lens.len() {
            proof {
                assert(self.starts@[result_index as int] == flatten(self.terms@.take(result_index as int)).len());
            }
            Some(self.lens[result_index])
        } else {
            None
        }
    }

    /// Character `char_position` of term `result_index`, if it exists.
    pub fn char_at(&self, result_index: usize, char_position: usize) -> (r: Option<char>)
        requires
            self.wf(),
        ensures
            r == (if result_index < self.spec_terms().len() && char_position < self.spec_terms()[result_index as int].len() {
                Some(self.spec_terms()[result_index as int][char_position as int])
            } else {
                None::<char>
            }),
    {
        if result_index >= self.lens.len() {
            return None;
        }
        proof {
            assert(self.starts@[result_index as int] == flatten(self.terms@.take(result_index as int)).len());
        }
        let len: usize = self.lens[result_index];
        if char_position >= len {
            return None;
        }
        let total: usize = self.chars.len();
        proof {
            lemma_flatten_index(self.terms@, result_index as int, char_position as int);
            assert(self.starts@[result_index as int] + char_position < total);
        }
        let index: usize = self.starts[result_index] + char_position;
        Some(self.chars[index])
    }

    /// First character of term `result_index`, if any.
    pub fn first_char(&self, result_index: usize) -> (r: Option<char>)
        requires
            self.wf(),
        ensures
            r == (if result_index < self.spec_terms().len() && 0 < self.spec_terms()[result_index as int].len() {
                Some(self.spec_terms()[result_index as int][0])
            } else {
                None::<char>
            }),
    {
        self.char_at(result_index, 0)
    }

    /// Number of WFST states: the super-start plus one per table character, saturating.
    pub fn state_count(&self) -> (r: usize)
        requires
            self.wf(),
        ensures
            r == (if 1 + flatten(self.spec_terms()).len() > usize::MAX { usize::MAX as int } else { 1 + flatten(self.spec_terms()).len() as int }),
    {
        self.state_count
    }

    /// Number of transitions out of the super-start: one per nonempty term.
    pub fn start_transition_count(&self) -> (r: usize)
        requires
            self.wf(),
        ensures
            r == count_nonempty(self.spec_terms()),
    {
        self.non_empty_terms
    }

    /// The state reached after `char_position` characters of term
    /// `result_index`: its table offset, when the position is inside the term,
    /// the result index is below the super-start index and the ID fits.
    pub fn state_id_for_position(&self, result_index: usize, char_position: usize) -> (r: Option<u32>)
        requires
            self.wf(),
        ensures
            r == (if result_index < u32::MAX && result_index < self.spec_terms().len() && 1 <= char_position
                    && char_position <= self.spec_terms()[result_index as int].len()
                    && flatten(self.spec_terms().take(result_index as int)).len() + char_position <= u32::MAX {
                Some((flatten(self.spec_terms().take(result_index as int)).len() + char_position) as u32)
            } else {
                None::<u32>
            }),
    {
        if next_wallbreaker_result_index(result_index).is_none() {
            return None;
        }
        if char_position == 0 {
            return None;
        }
        if result_index >= self.lens.len() {
            return None;
        }
        proof {
            assert(self.starts@[result_index as int] == flatten(self.terms@.take(result_index as int)).len());
        }
        if char_position > self.lens[result_index] {
            return None;
        }
        proof {
            if char_position >= 1 {
                lemma_flatten_index(self.terms@, result_index as int, char_position - 1);
            }
        }
        match self.starts[result_index].checked_add(char_position) {
            Some(id) => next_wallbreaker_state_id(id),
            None => None,
        }
    }
}

/// `len` as a state ID, when it fits.
pub fn next_wallbreaker_state_id(len: usize) -> (r: Option<u32>)
    ensures
        r == (if len <= u32::MAX { Some(len as u32) } else { None::<u32> }),
{
    if len <= 0xffff_ffffusize { Some(len as u32) } else { None }
}

/// `index` as a result index, when it fits below the super-start index.
pub fn next_wallbreaker_result_index(index: usize) -> (r: Option<u32>)
    ensures
        r == (if index < u32::MAX { Some(index as u32) } else { None::<u32> }),
{
    if index < 0xffff_ffffusize { Some(index as u32) } else { None }
}

/// `position` as a character position, when it fits.
pub fn next_wallbreaker_char_position(position: usize) -> (r: Option<u32>)
    ensures
        r == (if position <= u32::MAX { Some(position as u32) } else { None::<u32> }),
{
    if position <= 0xffff_ffffusize { Some(position as u32) } else { None }
}

/// Whether a result is kept: within the distance bound and exactly representable as a weight.
pub open spec fn admissible(r: ScoredTerm, max_distance: usize) -> bool {
    r.distance <= max_distance && r.distance <= spec_max_exact_f64_usize()
}

/// The normalized results: admissible results only, one per term at the
/// position of its first admissible occurrence, with its least distance.
pub open spec fn spec_normalize(results: Seq<ScoredTerm>, max_distance: usize) -> Seq<ScoredTerm>
    decreases results.len(),
{
    if results.len() == 0 {
        Seq::empty()
    } else {
        let n = spec_normalize(results.drop_last(), max_distance);
        let x = results.last();
        if !admissible(x, max_distance) {
            n
        } else if exists|j: int| 0 <= j < n.len() && n[j].term@ == x.term@ {
            let j = choose|j: int| 0 <= j < n.len() && n[j].term@ == x.term@;
            if x.distance < n[j].distance {
                n.update(j, ScoredTerm { term: n[j].term, distance: x.distance })
            } else {
                n
            }
        } else {
            n.push(x)
        }
    }
}

/// Distinct terms in a result list.
pub open spec fn distinct_terms(s: Seq<ScoredTerm>) -> bool {
    forall|a: int, b: int| 0 <= a < s.len() && 0 <= b < s.len() && a != b ==> (#[trigger] s[a]).term@ != (#[trigger] s[b]).term@
}

proof fn lemma_normalize_distinct(results: Seq<ScoredTerm>, max_distance: usize)
    ensures
        distinct_terms(spec_normalize(results, max_distance)),
    decreases results.len(),
{
    if results.len() > 0 {
        lemma_normalize_distinct(results.drop_last(), max_distance);
    }
}

/// Keep the admissible results, one per term, with each term's least distance.
pub fn normalize_wallbreaker_results(results: Vec<ScoredTerm>, max_distance: usize) -> (r: Vec<ScoredTerm>)
    ensures
        r@ == spec_normalize(results@, max_distance),
        distinct_terms(r@),
{
    let mut normalized: Vec<ScoredTerm> = Vec::new();
    let max_exact: usize = max_exact_f64_usize();
    for i in 0..results.len()
        invariant
            max_exact == spec_max_exact_f64_usize(),
            normalized@ == spec_normalize(results@.take(i as int), max_distance),
    {
        proof {
            assert(results@.take(i + 1).drop_last() == results@.take(i as int));
            lemma_normalize_distinct(results@.take(i as int), max_distance);
        }
        let result: &ScoredTerm = &results[i];
        if result.distance <= max_distance && result.distance <= max_exact {
        let mut found: Option<usize> = None;
        for j in 0..normalized.len()
            invariant
                normalized@ == spec_normalize(results@.take(i as int), max_distance),
                found is None ==> forall|k: int| 0 <= k < j ==> (#[trigger] normalized@[k]).term@ != result.term@,
                found matches Some(f) ==> f < normalized@.len() && normalized@[f as int].term@ == result.term@,
        {
            if found.is_none() && normalized[j].term == result.term {
                found = Some(j);
            }
        }
        match found {
            Some(j) => {
                proof {
                    let n = spec_normalize(results@.take(i as int), max_distance);
                    let c = choose|c: int| 0 <= c < n.len() && n[c].term@ == result.term@;
                    assert(c == j as int);
                }
                if result.distance < normalized[j].distance {
                    let term: String = normalized[j].term.clone();
                    normalized.set(j, ScoredTerm { term, distance: result.distance });
                }
            },
            None => {
                normalized.push(ScoredTerm { term: result.term.clone(), distance: result.distance });
            },
        }
        }
    }
    assert(results@.take(results@.len() as int) == results@);
    proof {
        lemma_normalize_distinct(results@, max_distance);
    }
    normalized
}

/// Least distance of an empty-term admissible result.
pub open spec fn spec_empty_best(results: Seq<ScoredTerm>, max_distance: usize) -> Option<usize>
    decreases results.len(),
{
    if results.len() == 0 {
        None
    } else {
        let rest = spec_empty_best(results.drop_last(), max_distance);
        let x = results.last();
        if x.term@.len() == 0 && admissible(x, max_distance) {
            match rest {
                Some(b) => Some(if x.distance < b { x.distance } else { b }),
                None => Some(x.distance),
            }
        } else {
            rest
        }
    }
}

/// The least distance among admissible results with an empty term; the final
/// weight of the super-start state.
pub fn empty_wallbreaker_result_best_distance(results: &[ScoredTerm], max_distance: usize) -> (r: Option<usize>)
    ensures
        r == spec_empty_best(results@, max_distance),
{
    let max_exact: usize = max_exact_f64_usize();
    let mut best: Option<usize> = None;
    for i in 0..results.len()
        invariant
            max_exact == spec_max_exact_f64_usize(),
            best == spec_empty_best(results@.take(i as int), max_distance),
    {
        proof {
            assert(results@.take(i + 1).drop_last() == results@.take(i as int));
        }
        let result: &ScoredTerm = &results[i];
        if result.term.as_str().is_empty() && result.distance <= max_distance && result.distance <= max_exact {
            best = match best {
                Some(b) => Some(if result.distance < b { result.distance } else { b }),
                None => Some(result.distance),
            };
        }
    }
    assert(results@.take(results@.len() as int) == results@);
    best
}

/// The super-start key.
pub open spec fn start_key() -> WallBreakerStateKey {
    WallBreakerStateKey { result_index: SUPER_START_RESULT_INDEX, char_position: 0 }
}

/// State index of the WallBreaker WFST: entry 0 is the super-start, entry
/// `k` the position in the results that state `k` stands for. Stops at the
/// first state or result index that cannot be represented.
pub fn build_wallbreaker_state_index(result_chars: &ResultCharArena) -> (r: Vec<WallBreakerStateKey>)
    requires
        result_chars.wf(),
    ensures
        r@.len() >= 1,
        r@[0] == start_key(),
        r@.len() <= u32::MAX + 1,
        forall|k: int| 1 <= k < r@.len() ==> {
            let key = #[trigger] r@[k];
            &&& key.result_index < u32::MAX
            &&& key.result_index < result_chars.spec_terms().len()
            &&& 1 <= key.char_position <= result_chars.spec_terms()[key.result_index as int].len()
            &&& flatten(result_chars.spec_terms().take(key.result_index as int)).len() + key.char_position == k
        },
        result_chars.spec_terms().len() < u32::MAX && flatten(result_chars.spec_terms()).len() <= u32::MAX
            ==> r@.len() == 1 + flatten(result_chars.spec_terms()).len(),
{
    let mut id_to_state: Vec<WallBreakerStateKey> = Vec::new();
    id_to_state.push(WallBreakerStateKey { result_index: SUPER_START_RESULT_INDEX, char_position: 0 });
    let n: usize = result_chars.len();
    let ghost terms = result_chars.spec_terms();
    let mut result_idx: usize = 0;
    while result_idx < n
        invariant
            result_chars.wf(),
            terms == result_chars.spec_terms(),
            n == terms.len(),
            result_idx <= n,
            id_to_state@.len() == 1 + flatten(terms.take(result_idx as int)).len(),
            id_to_state@.len() <= u32::MAX + 1,
            id_to_state@[0] == start_key(),
            forall|k: int| 1 <= k < id_to_state@.len() ==> {
                let key = #[trigger] id_to_state@[k];
                &&& key.result_index < u32::MAX
                &&& key.result_index < terms.len()
                &&& 1 <= key.char_position <= terms[key.result_index as int].len()
                &&& flatten(terms.take(key.result_index as int)).len() + key.char_position == k
            },
        decreases n - result_idx,
    {
        proof {
            lemma_flatten_take_push(terms, result_idx as int);
        }
        let result_index: u32 = match next_wallbreaker_result_index(result_idx) {
            Some(i) => i,
            None => return id_to_state,
        };
        let term_len: usize = match result_chars.term_len(result_idx) {
            Some(l) => l,
            None => return id_to_state,
        };
        let mut offset: usize = 0;
        while offset < term_len
            invariant
                result_chars.wf(),
                terms == result_chars.spec_terms(),
                n == terms.len(),
                result_idx < n,
                result_index == result_idx,
                result_index < u32::MAX,
                term_len == terms[result_idx as int].len(),
                0 <= offset <= term_len,
                id_to_state@.len() == 1 + flatten(terms.take(result_idx as int)).len() + offset,
                id_to_state@.len() <= u32::MAX + 1,
                id_to_state@[0] == start_key(),
                forall|k: int| 1 <= k < id_to_state@.len() ==> {
                    let key = #[trigger] id_to_state@[k];
                    &&& key.result_index < u32::MAX
                    &&& key.result_index < terms.len()
                    &&& 1 <= key.char_position <= terms[key.result_index as int].len()
                    &&& flatten(terms.take(key.result_index as int)).len() + key.char_position == k
                },
            decreases term_len - offset,
        {
            proof {
                lemma_flatten_take_len(terms, result_idx as int + 1);
                lemma_flatten_take_push(terms, result_idx as int);
            }
            if next_wallbreaker_state_id(id_to_state.len()).is_none() {
                return id_to_state;
            }
            let char_position: u32 = match next_wallbreaker_char_position(offset + 1) {
                Some(p) => p,
                None => return id_to_state,
            };
            id_to_state.push(WallBreakerStateKey { result_index, char_position });
            offset = offset + 1;
        }
        result_idx = result_idx + 1;
    }
    assert(terms.take(n as int) == terms);
    id_to_state
}

/// `r` carries the term and the distance of an admissible result of `results`.
pub open spec fn drawn_from(results: Seq<ScoredTerm>, max_distance: usize, r: ScoredTerm) -> bool {
    exists|k: int| 0 <= k < results.len() && admissible(#[trigger] results[k], max_distance)
        && results[k].term@ == r.term@ && results[k].distance == r.distance
}

/// Every normalized result stands for an admissible raw result: its term
/// and its distance are those of an admissible result of the input.
pub proof fn lemma_normalize_from_input(results: Seq<ScoredTerm>, max_distance: usize)
    ensures
        forall|i: int| 0 <= i < spec_normalize(results, max_distance).len()
            ==> drawn_from(results, max_distance, #[trigger] spec_normalize(results, max_distance)[i]),
    decreases results.len(),
{
    if results.len() == 0 {
        return;
    }
    let prev = results.drop_last();
    lemma_normalize_from_input(prev, max_distance);
    let n = spec_normalize(prev, max_distance);
    let x = results.last();
    let last = results.len() - 1;
    let p = spec_normalize(results, max_distance);
    assert forall|i: int| 0 <= i < n.len() implies drawn_from(results, max_distance, #[trigger] n[i]) by {
        assert(drawn_from(prev, max_distance, n[i]));
        let k = choose|k: int| 0 <= k < prev.len() && admissible(#[trigger] prev[k], max_distance)
            && prev[k].term@ == n[i].term@ && prev[k].distance == n[i].distance;
        assert(results[k] == prev[k]);
    }
    if admissible(x, max_distance) {
        assert(results[last] == x);
        assert(drawn_from(results, max_distance, x));
    }
    if !admissible(x, max_distance) {
        assert(p == n);
    } else if exists|j: int| 0 <= j < n.len() && n[j].term@ == x.term@ {
        let j = choose|j: int| 0 <= j < n.len() && n[j].term@ == x.term@;
        let upd = x.distance < n[j].distance;
        assert(p == (if upd { n.update(j, ScoredTerm { term: n[j].term, distance: x.distance }) } else { n }));
        assert forall|i: int| 0 <= i < p.len() implies drawn_from(results, max_distance, #[trigger] p[i]) by {
            if i == j && upd {
                assert(p[i].term@ == x.term@ && p[i].distance == x.distance);
                assert(admissible(results[last], max_distance));
            } else {
                assert(p[i] == n[i]);
            }
        }
    } else {
        assert(p == n.push(x));
        assert forall|i: int| 0 <= i < p.len() implies drawn_from(results, max_distance, #[trigger] p[i]) by {
            if i < n.len() {
                assert(p[i] == n[i]);
            }
        }
    }
}

/// Every admissible raw result's term is normalized, at a distance no
/// greater than the result's: each term keeps its least admissible
/// distance, and inadmissible results are dropped.
pub proof fn lemma_normalize_keeps_least(results: Seq<ScoredTerm>, max_distance: usize)
    ensures
        forall|k: int| #![trigger results[k]] 0 <= k < results.len() && admissible(results[k], max_distance)
            ==> exists|i: int| 0 <= i < spec_normalize(results, max_distance).len()
                && (#[trigger] spec_normalize(results, max_distance)[i]).term@ == results[k].term@,
        forall|i: int, k: int| 0 <= i < spec_normalize(results, max_distance).len() && 0 <= k < results.len()
            && admissible(results[k], max_distance)
            && (#[trigger] spec_normalize(results, max_distance)[i]).term@ == (#[trigger] results[k]).term@
            ==> spec_normalize(results, max_distance)[i].distance <= results[k].distance,
        forall|i: int| 0 <= i < spec_normalize(results, max_distance).len()
            ==> admissible(#[trigger] spec_normalize(results, max_distance)[i], max_distance),
    decreases results.len(),
{
    lemma_normalize_distinct(results, max_distance);
    if results.len() == 0 {
        return;
    }
    let prev = results.drop_last();
    lemma_normalize_keeps_least(prev, max_distance);
    lemma_normalize_distinct(prev, max_distance);
    let n = spec_normalize(prev, max_distance);
    let x = results.last();
    let last = results.len() - 1;
    let p = spec_normalize(results, max_distance);
    if !admissible(x, max_distance) {
        assert(p == n);
        assert forall|k: int| #![trigger results[k]] 0 <= k < results.len() && admissible(results[k], max_distance)
            implies exists|i: int| 0 <= i < p.len() && (#[trigger] p[i]).term@ == results[k].term@ by {
            assert(k < last);
            assert(prev[k] == results[k]);
        }
        assert forall|i: int, k: int| 0 <= i < p.len() && 0 <= k < results.len() && admissible(results[k], max_distance)
            && (#[trigger] p[i]).term@ == (#[trigger] results[k]).term@ implies p[i].distance <= results[k].distance by {
            assert(k < last);
            assert(prev[k] == results[k]);
        }
    } else if exists|j: int| 0 <= j < n.len() && n[j].term@ == x.term@ {
        let j = choose|j: int| 0 <= j < n.len() && n[j].term@ == x.term@;
        let upd = x.distance < n[j].distance;
        assert(p == (if upd { n.update(j, ScoredTerm { term: n[j].term, distance: x.distance }) } else { n }));
        assert forall|k: int| #![trigger results[k]] 0 <= k < results.len() && admissible(results[k], max_distance)
            implies exists|i: int| 0 <= i < p.len() && (#[trigger] p[i]).term@ == results[k].term@ by {
            if k < last {
                assert(prev[k] == results[k]);
                let i = choose|i: int| 0 <= i < n.len() && (#[trigger] n[i]).term@ == prev[k].term@;
                assert(p[i].term@ == n[i].term@);
            } else {
                assert(p[j].term@ == n[j].term@);
            }
        }
        assert forall|i: int, k: int| 0 <= i < p.len() && 0 <= k < results.len() && admissible(results[k], max_distance)
            && (#[trigger] p[i]).term@ == (#[trigger] results[k]).term@ implies p[i].distance <= results[k].distance by {
            if k < last {
                assert(prev[k] == results[k]);
                if i == j && upd {
                    assert(n[j].term@ == prev[k].term@);
                } else {
                    assert(p[i] == n[i]);
                }
            } else if i != j {
                assert(p[i] == n[i]);
                assert(n[i].term@ == n[j].term@);
            }
        }
        assert forall|i: int| 0 <= i < p.len() implies admissible(#[trigger] p[i], max_distance) by {
            if !(i == j && upd) {
                assert(p[i] == n[i]);
            }
        }
    } else {
        assert(p == n.push(x));
        assert forall|k: int| #![trigger results[k]] 0 <= k < results.len() && admissible(results[k], max_distance)
            implies exists|i: int| 0 <= i < p.len() && (#[trigger] p[i]).term@ == results[k].term@ by {
            if k < last {
                assert(prev[k] == results[k]);
                let i = choose|i: int| 0 <= i < n.len() && (#[trigger] n[i]).term@ == prev[k].term@;
                assert(p[i] == n[i]);
            } else {
                assert(p[n.len() as int] == x);
            }
        }
        assert forall|i: int, k: int| 0 <= i < p.len() && 0 <= k < results.len() && admissible(results[k], max_distance)
            && (#[trigger] p[i]).term@ == (#[trigger] results[k]).term@ implies p[i].distance <= results[k].distance by {
            if k < last {
                assert(prev[k] == results[k]);
                if i == n.len() {
                    let m = choose|m: int| 0 <= m < n.len() && (#[trigger] n[m]).term@ == prev[k].term@;
                    assert(n[m].term@ == x.term@);
                } else {
                    assert(p[i] == n[i]);
                }
            } else if i < n.len() {
                assert(p[i] == n[i]);
                assert(n[i].term@ == x.term@);
            }
        }
        assert forall|i: int| 0 <= i < p.len() implies admissible(#[trigger] p[i], max_distance) by {
            if i < n.len() {
                assert(p[i] == n[i]);
            }
        }
    }
}

} // verus!
