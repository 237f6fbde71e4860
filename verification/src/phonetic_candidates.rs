//! The scalars a phonetic NFA state set can read next, in first-seen order,
//! and the successor states of each of them.
use vstd::prelude::*;
use rustc_hash::FxHashMap;
use crate::fx_map::{fx_insert, fx_map_with_capacity, fx_reserve};
use crate::hints::{capped_size_hint_capacity, MAX_SPECULATIVE_PREALLOCATION};
use crate::phonetic_nfa::{lemma_push_contains, NfaArc, NfaCharClass, NfaLabel, PhoneticNfa};
use crate::phonetic_support::{char_range_width, lemma_scalar_code_injective, MAX_EXACT_CLASS_RANGE_CHARS};

verus! {

/// Candidates kept inline before the buffer grows.
pub const CANDIDATE_INLINE_CAPACITY: usize = 64;
/// From this many candidates on, membership goes through a hash set.
pub const CANDIDATE_HASH_THRESHOLD: usize = 16;

/// `s` with `c` appended unless it already holds it.
pub open spec fn push_uniq(s: Seq<char>, c: char) -> Seq<char> {
    if s.contains(c) { s } else { s.push(c) }
}

/// `s` with each scalar of `xs` appended in turn unless already held.
pub open spec fn push_all(s: Seq<char>, xs: Seq<char>) -> Seq<char>
    decreases xs.len(),
{
    if xs.len() == 0 { s } else { push_uniq(push_all(s, xs.drop_last()), xs.last()) }
}

/// Appending two runs of scalars is appending the first, then the second.
pub proof fn lemma_push_all_concat(s: Seq<char>, xs: Seq<char>, ys: Seq<char>)
    ensures
        push_all(s, xs + ys) == push_all(push_all(s, xs), ys),
    decreases ys.len(),
{
    if ys.len() == 0 {
        assert(xs + ys =~= xs);
    } else {
        assert((xs + ys).drop_last() =~= xs + ys.drop_last());
        lemma_push_all_concat(s, xs, ys.drop_last());
    }
}

/// Whether `code` is a Unicode scalar value.
pub open spec fn spec_is_scalar(code: u32) -> bool {
    code <= 0x10ffff && !(0xd800 <= code <= 0xdfff)
}

/// Calls `char::from_u32`: the scalar with code `code`, if it is one.
#[verifier::external_body]
pub(crate) fn char_from_code(code: u32) -> (r: Option<char>)
    ensures
        r == (if spec_is_scalar(code) { Some(code as char) } else { None::<char> }),
{
    char::from_u32(code)
}

/// The scalars with codes in `lo..hi`, in order.
pub open spec fn code_chars(lo: u32, hi: int) -> Seq<char>
    decreases hi - lo,
{
    if hi <= lo {
        Seq::empty()
    } else {
        code_chars(lo, hi - 1) + if spec_is_scalar((hi - 1) as u32) {
            seq![((hi - 1) as u32) as char]
        } else {
            Seq::empty()
        }
    }
}

/// The scalars of `start..=end` when the range is nonempty and at most
/// `MAX_EXACT_CLASS_RANGE_CHARS` wide; none otherwise.
pub open spec fn range_chars(start: char, end: char) -> Seq<char> {
    if (start as u32) <= (end as u32) && (end as u32) - (start as u32) + 1 <= MAX_EXACT_CLASS_RANGE_CHARS {
        code_chars(start as u32, (end as u32) + 1)
    } else {
        Seq::empty()
    }
}

/// The scalars a set of candidates is offered, in order, from scalar ranges.
pub open spec fn ranges_chars(ranges: Seq<(char, char)>) -> Seq<char>
    decreases ranges.len(),
{
    if ranges.len() == 0 {
        Seq::empty()
    } else {
        ranges_chars(ranges.drop_last()) + range_chars(ranges.last().0, ranges.last().1)
    }
}

/// Scalars collected once, in first-seen order.
pub struct CandidateChars {
    ordered: Vec<char>,
    seen: Option<FxHashMap<u32, ()>>,
    reserve_hint: usize,
}

impl CandidateChars {
    /// The collected scalars, in first-seen order.
    pub closed spec fn spec_chars(&self) -> Seq<char> {
        self.ordered@
    }

    /// Whether membership goes through the hash set.
    pub closed spec fn spec_hashed(&self) -> bool {
        self.seen is Some
    }

    /// The speculative reservation the collection grows to.
    pub closed spec fn spec_reserve_hint(&self) -> usize {
        self.reserve_hint
    }

    /// No scalar is held twice, and the hash set, once built, holds the codes
    /// of exactly the collected scalars.
    pub closed spec fn wf(&self) -> bool {
        &&& self.ordered@.no_duplicates()
        &&& self.reserve_hint <= MAX_SPECULATIVE_PREALLOCATION
        &&& match self.seen {
            Some(m) => forall|k: u32| #[trigger] m@.contains_key(k) <==>
                exists|j: int| 0 <= j < self.ordered@.len() && self.ordered@[j] as u32 == k,
            None => true,
        }
    }

    /// A well-formed collection holds no scalar twice.
    pub proof fn lemma_distinct(&self)
        requires
            self.wf(),
        ensures
            self.spec_chars().no_duplicates(),
    {
    }

    /// An empty collection expecting about `capacity` scalars.
    pub fn with_capacity(capacity: usize) -> (r: Self)
        ensures
            r.wf(),
            r.spec_chars() == Seq::<char>::empty(),
            !r.spec_hashed(),
            r.spec_reserve_hint() == (if capacity < MAX_SPECULATIVE_PREALLOCATION { capacity } else { MAX_SPECULATIVE_PREALLOCATION }),
    {
        let inline: usize = if capacity < CANDIDATE_INLINE_CAPACITY { capacity } else { CANDIDATE_INLINE_CAPACITY };
        CandidateChars {
            ordered: Vec::with_capacity(inline),
            seen: None,
            reserve_hint: capped_size_hint_capacity(capacity),
        }
    }

    /// The collected scalars, in first-seen order.
    pub fn as_slice(&self) -> (r: &[char])
        ensures
            r@ == self.spec_chars(),
    {
        self.ordered.as_slice()
    }

    /// Number of collected scalars.
    pub fn len(&self) -> (r: usize)
        ensures
            r == self.spec_chars().len(),
    {
        self.ordered.len()
    }

    /// Whether membership goes through the hash set.
    pub fn uses_hash_membership(&self) -> (r: bool)
        ensures
            r == self.spec_hashed(),
    {
        self.seen.is_some()
    }

    /// The speculative reservation the collection grows to.
    pub fn reserve_hint(&self) -> (r: usize)
        ensures
            r == self.spec_reserve_hint(),
    {
        self.reserve_hint
    }

    fn ordered_contains(&self, candidate: char) -> (r: bool)
        ensures
            r == self.ordered@.contains(candidate),
    {
        let mut i: usize = 0;
        while i < self.ordered.len()
            invariant
                i <= self.ordered@.len(),
                forall|j: int| 0 <= j < i ==> self.ordered@[j] != candidate,
            decreases self.ordered@.len() - i,
        {
            if self.ordered[i] == candidate {
                return true;
            }
            i = i + 1;
        }
        false
    }

    fn materialize_seen(&mut self)
        requires
            old(self).wf(),
        ensures
            final(self).wf(),
            final(self).spec_hashed(),
            final(self).spec_chars() == old(self).spec_chars(),
            final(self).spec_reserve_hint() == old(self).spec_reserve_hint(),
    {
        let wanted: usize = capped_size_hint_capacity(self.reserve_hint);
        let floor: usize = if self.ordered.len() < usize::MAX { self.ordered.len() + 1 } else { usize::MAX };
        let capacity: usize = if wanted < floor { floor } else { wanted };
        let mut seen: FxHashMap<u32, ()> = fx_map_with_capacity(capacity);
        let mut i: usize = 0;
        while i < self.ordered.len()
            invariant
                i <= self.ordered@.len(),
                self.ordered@ == old(self).ordered@,
                self.reserve_hint == old(self).reserve_hint,
                old(self).wf(),
                forall|k: u32| #[trigger] seen@.contains_key(k) <==>
                    exists|j: int| 0 <= j < i && self.ordered@[j] as u32 == k,
            decreases self.ordered@.len() - i,
        {
            let code: u32 = self.ordered[i] as u32;
            fx_insert(&mut seen, code, ());
            i = i + 1;
            proof {
                assert forall|k: u32| #[trigger] seen@.contains_key(k) <==>
                    exists|j: int| 0 <= j < i && self.ordered@[j] as u32 == k by {
                    if k == code {
                        assert(self.ordered@[i - 1] as u32 == k);
                    }
                }
            }
        }
        proof {
            assert forall|k: u32| #[trigger] seen@.contains_key(k) <==>
                exists|j: int| 0 <= j < self.ordered@.len() && self.ordered@[j] as u32 == k by {
                if seen@.contains_key(k) {
                    let j = choose|j: int| 0 <= j < i && self.ordered@[j] as u32 == k;
                }
            }
        }
        self.seen = Some(seen);
    }

    /// Append `candidate` unless it is already collected.
    pub fn push_unique(&mut self, candidate: char)
        requires
            old(self).wf(),
        ensures
            final(self).wf(),
            final(self).spec_chars() == push_uniq(old(self).spec_chars(), candidate),
            final(self).spec_reserve_hint() == old(self).spec_reserve_hint(),
            old(self).spec_hashed() ==> final(self).spec_hashed(),
            final(self).spec_hashed() == (old(self).spec_hashed()
                || (!old(self).spec_chars().contains(candidate) && old(self).spec_chars().len() >= CANDIDATE_HASH_THRESHOLD)),
    {
        let code: u32 = candidate as u32;
        if self.seen.is_none() {
            if self.ordered_contains(candidate) {
                return;
            }
            if self.ordered.len() >= CANDIDATE_HASH_THRESHOLD {
                self.materialize_seen();
            } else {
                self.ordered.push(candidate);
                proof {
                    assert forall|a: int, b: int| 0 <= a < b < self.ordered@.len() implies self.ordered@[a] != self.ordered@[b] by {
                        if b == self.ordered@.len() - 1 {
                            assert(old(self).ordered@.contains(self.ordered@[a]));
                        } else {
                            assert(old(self).ordered@[a] != old(self).ordered@[b]);
                        }
                    }
                }
                return;
            }
        }
        let ghost before = self.ordered@;
        let mut seen: FxHashMap<u32, ()> = match self.seen.take() {
            Some(m) => m,
            None => fx_map_with_capacity(0),
        };
        let ghost seen_before = seen@;
        proof {
            assert forall|k: u32| #[trigger] seen_before.contains_key(k) <==>
                exists|j: int| 0 <= j < before.len() && before[j] as u32 == k by {
            }
        }
        let previous: Option<()> = fx_insert(&mut seen, code, ());
        match previous {
            None => {
                proof {
                    if before.contains(candidate) {
                        let j = choose|j: int| 0 <= j < before.len() && before[j] == candidate;
                        assert(before[j] as u32 == code);
                    }
                }
                self.ordered.push(candidate);
                proof {
                    assert forall|a: int, b: int| 0 <= a < b < self.ordered@.len() implies self.ordered@[a] != self.ordered@[b] by {
                        if b == self.ordered@.len() - 1 {
                            assert(before.contains(self.ordered@[a]));
                        } else {
                            assert(before[a] != before[b]);
                        }
                    }
                    assert forall|k: u32| #[trigger] seen@.contains_key(k) <==>
                        exists|j: int| 0 <= j < self.ordered@.len() && self.ordered@[j] as u32 == k by {
                        if k == code {
                            assert(self.ordered@[self.ordered@.len() - 1] as u32 == k);
                        } else {
                            if seen@.contains_key(k) {
                                assert(seen_before.contains_key(k));
                                let j = choose|j: int| 0 <= j < before.len() && before[j] as u32 == k;
                                assert(self.ordered@[j] as u32 == k);
                            }
                            if exists|j: int| 0 <= j < self.ordered@.len() && self.ordered@[j] as u32 == k {
                                let j = choose|j: int| 0 <= j < self.ordered@.len() && self.ordered@[j] as u32 == k;
                                assert(j < before.len());
                                assert(before[j] as u32 == k);
                            }
                        }
                    }
                }
            },
            Some(_) => {
                proof {
                    assert(seen_before.contains_key(code));
                    let j = choose|j: int| 0 <= j < before.len() && before[j] as u32 == code;
                    lemma_scalar_code_injective(before[j], candidate);
                    assert(before.contains(candidate));
                    assert(seen@ =~= seen_before);
                    assert(self.ordered@ == before);
                    assert forall|k: u32| #[trigger] seen@.contains_key(k) <==>
                        exists|j: int| 0 <= j < self.ordered@.len() && self.ordered@[j] as u32 == k by {
                        assert(seen@.contains_key(k) == seen_before.contains_key(k));
                    }
                }
            },
        }
        self.seen = Some(seen);
    }

    fn reserve_additional(&mut self, additional: usize)
        requires
            old(self).wf(),
            additional <= MAX_EXACT_CLASS_RANGE_CHARS,
        ensures
            final(self).wf(),
            final(self).spec_chars() == old(self).spec_chars(),
            final(self).spec_hashed() == old(self).spec_hashed(),
    {
        if additional == 0 {
            return;
        }
        let wanted: usize = if self.ordered.len() <= usize::MAX - additional {
            self.ordered.len() + additional
        } else {
            usize::MAX
        };
        let grown: usize = if self.reserve_hint < wanted { wanted } else { self.reserve_hint };
        self.reserve_hint = if grown < MAX_SPECULATIVE_PREALLOCATION { grown } else { MAX_SPECULATIVE_PREALLOCATION };
        self.ordered.reserve(additional);
        let mut seen: Option<FxHashMap<u32, ()>> = self.seen.take();
        match &mut seen {
            Some(m) => {
                fx_reserve(m, additional);
            },
            None => {},
        }
        self.seen = seen;
    }
}

/// Offer the scalars of `start..=end` when the range is at most
/// `MAX_EXACT_CLASS_RANGE_CHARS` wide; wider or empty ranges offer none.
pub fn push_bounded_char_range(chars: &mut CandidateChars, start: char, end: char)
    requires
        old(chars).wf(),
    ensures
        final(chars).wf(),
        final(chars).spec_chars() == push_all(old(chars).spec_chars(), range_chars(start, end)),
{
    let width: usize = match char_range_width(start, end) {
        Some(w) => w,
        None => return,
    };
    if width > MAX_EXACT_CLASS_RANGE_CHARS {
        return;
    }
    chars.reserve_additional(width);
    let ghost base = chars.spec_chars();
    let mut code: u32 = start as u32;
    let last: u32 = end as u32;
    while code <= last
        invariant
            chars.wf(),
            start as u32 <= code <= last + 1,
            last == end as u32,
            last <= 0x10ffff,
            chars.spec_chars() == push_all(base, code_chars(start as u32, code as int)),
        decreases last + 1 - code,
    {
        let ghost prefix = code_chars(start as u32, code as int);
        match char_from_code(code) {
            Some(candidate) => {
                chars.push_unique(candidate);
                proof {
                    assert(code_chars(start as u32, code + 1) =~= prefix.push(candidate));
                    assert(prefix.push(candidate).drop_last() =~= prefix);
                }
            },
            None => {
                proof {
                    assert(code_chars(start as u32, code + 1) =~= prefix);
                }
            },
        }
        code = code + 1;
    }
}

/// The alphabet scalars a class matches, in alphabet order.
pub open spec fn matching_chars(alphabet: Seq<char>, class: NfaCharClass) -> Seq<char>
    decreases alphabet.len(),
{
    if alphabet.len() == 0 {
        Seq::empty()
    } else {
        matching_chars(alphabet.drop_last(), class) + if class.spec_matches(alphabet.last()) {
            seq![alphabet.last()]
        } else {
            Seq::empty()
        }
    }
}

/// The scalars a class label offers: the matching alphabet scalars, then,
/// unless the class is negated, the scalars of its bounded ranges.
pub open spec fn class_offered(alphabet: Seq<char>, class: NfaCharClass) -> Seq<char> {
    matching_chars(alphabet, class) + if class.negated { Seq::empty() } else { ranges_chars(class.ranges@) }
}

/// The scalars a label offers, in order: its own scalar, its class's, the
/// whole alphabet for a wildcard, none for the rest.
pub open spec fn label_offered(alphabet: Seq<char>, label: NfaLabel) -> Seq<char> {
    match label {
        NfaLabel::Char(c) => seq![c],
        NfaLabel::CharClass(class) => class_offered(alphabet, class),
        NfaLabel::Any => alphabet,
        _ => Seq::empty(),
    }
}

/// The scalars consuming transitions offer, in transition order.
pub open spec fn arcs_offered(alphabet: Seq<char>, arcs: Seq<NfaArc>) -> Seq<char>
    decreases arcs.len(),
{
    if arcs.len() == 0 {
        Seq::empty()
    } else {
        arcs_offered(alphabet, arcs.drop_last()) + if arcs.last().label.spec_consumes_input() {
            label_offered(alphabet, arcs.last().label)
        } else {
            Seq::empty()
        }
    }
}

/// The scalars the transitions of `states` offer, state by state.
pub open spec fn states_offered(nfa: PhoneticNfa, alphabet: Seq<char>, states: Seq<u32>) -> Seq<char>
    decreases states.len(),
{
    if states.len() == 0 {
        Seq::empty()
    } else {
        states_offered(nfa, alphabet, states.drop_last()) + arcs_offered(alphabet, nfa.spec_arcs(states.last()))
    }
}

/// The candidate scalars of `states`: each offered scalar once, in first-offered order.
pub open spec fn spec_candidates(nfa: PhoneticNfa, alphabet: Seq<char>, states: Seq<u32>) -> Seq<char> {
    push_all(Seq::empty(), states_offered(nfa, alphabet, states))
}

/// Offer the scalars of `class`: the matching alphabet scalars, then the
/// bounded ranges of a class that is not negated.
pub fn collect_char_class_candidates(alphabet: &[char], class: &NfaCharClass, chars: &mut CandidateChars)
    requires
        old(chars).wf(),
    ensures
        final(chars).wf(),
        final(chars).spec_chars() == push_all(old(chars).spec_chars(), class_offered(alphabet@, *class)),
{
    let ghost base = chars.spec_chars();
    for i in 0..alphabet.len()
        invariant
            chars.wf(),
            chars.spec_chars() == push_all(base, matching_chars(alphabet@.take(i as int), *class)),
    {
        let candidate: char = alphabet[i];
        proof {
            assert(alphabet@.take(i + 1).drop_last() =~= alphabet@.take(i as int));
        }
        if class.matches(candidate) {
            chars.push_unique(candidate);
            proof {
                let prev = matching_chars(alphabet@.take(i as int), *class);
                assert(matching_chars(alphabet@.take(i + 1), *class) =~= prev.push(candidate));
                assert(prev.push(candidate).drop_last() =~= prev);
            }
        } else {
            proof {
                assert(matching_chars(alphabet@.take(i + 1), *class) =~= matching_chars(alphabet@.take(i as int), *class));
            }
        }
    }
    proof {
        assert(alphabet@.take(alphabet@.len() as int) =~= alphabet@);
    }
    let ghost matched = chars.spec_chars();
    if !class.negated {
        for r in 0..class.ranges.len()
            invariant
                chars.wf(),
                !class.negated,
                chars.spec_chars() == push_all(matched, ranges_chars(class.ranges@.take(r as int))),
        {
            let (start, end) = class.ranges[r];
            let ghost before = chars.spec_chars();
            push_bounded_char_range(chars, start, end);
            proof {
                let prev = ranges_chars(class.ranges@.take(r as int));
                assert(class.ranges@.take(r + 1).drop_last() =~= class.ranges@.take(r as int));
                assert(ranges_chars(class.ranges@.take(r + 1)) == prev + range_chars(start, end));
                lemma_push_all_concat(matched, prev, range_chars(start, end));
            }
        }
        proof {
            assert(class.ranges@.take(class.ranges@.len() as int) =~= class.ranges@);
        }
    }
    proof {
        let m = matching_chars(alphabet@, *class);
        let rest = if class.negated { Seq::<char>::empty() } else { ranges_chars(class.ranges@) };
        lemma_push_all_concat(base, m, rest);
        if class.negated {
            assert(push_all(matched, rest) == matched);
        }
    }
}

/// Offer every scalar of `alphabet`, in order.
fn collect_alphabet(alphabet: &[char], chars: &mut CandidateChars)
    requires
        old(chars).wf(),
    ensures
        final(chars).wf(),
        final(chars).spec_chars() == push_all(old(chars).spec_chars(), alphabet@),
{
    let ghost base = chars.spec_chars();
    for i in 0..alphabet.len()
        invariant
            chars.wf(),
            chars.spec_chars() == push_all(base, alphabet@.take(i as int)),
    {
        proof {
            assert(alphabet@.take(i + 1).drop_last() =~= alphabet@.take(i as int));
        }
        chars.push_unique(alphabet[i]);
    }
    proof {
        assert(alphabet@.take(alphabet@.len() as int) =~= alphabet@);
    }
}

/// Offer the scalars `label` reads.
pub fn collect_label_candidates(alphabet: &[char], label: &NfaLabel, chars: &mut CandidateChars)
    requires
        old(chars).wf(),
    ensures
        final(chars).wf(),
        final(chars).spec_chars() == push_all(old(chars).spec_chars(), label_offered(alphabet@, *label)),
{
    match label {
        NfaLabel::Char(c) => {
            let ghost base = chars.spec_chars();
            chars.push_unique(*c);
            proof {
                let one = seq![*c];
                assert(one.drop_last() =~= Seq::<char>::empty());
                assert(one.len() == 1 && one.last() == *c);
                assert(push_all(base, one.drop_last()) == base);
                assert(push_all(base, one) == push_uniq(base, *c));
            }
        },
        NfaLabel::CharClass(class) => collect_char_class_candidates(alphabet, class, chars),
        NfaLabel::Any => collect_alphabet(alphabet, chars),
        _ => {},
    }
}

/// The candidate scalars of the NFA states `states`, each once, in the
/// order their consuming transitions first offer them.
pub fn collect_candidates(nfa: &PhoneticNfa, alphabet: &[char], states: &[u32]) -> (r: CandidateChars)
    requires
        nfa.wf(),
    ensures
        r.wf(),
        r.spec_chars() == spec_candidates(*nfa, alphabet@, states@),
{
    let mut chars: CandidateChars = CandidateChars::with_capacity(alphabet.len());
    for i in 0..states.len()
        invariant
            nfa.wf(),
            chars.wf(),
            chars.spec_chars() == push_all(Seq::empty(), states_offered(*nfa, alphabet@, states@.take(i as int))),
    {
        let state: u32 = states[i];
        let arcs: &[NfaArc] = nfa.transitions_from(state);
        let ghost state_base = chars.spec_chars();
        let ghost before_offered = states_offered(*nfa, alphabet@, states@.take(i as int));
        for k in 0..arcs.len()
            invariant
                chars.wf(),
                arcs@ == nfa.spec_arcs(state),
                chars.spec_chars() == push_all(state_base, arcs_offered(alphabet@, arcs@.take(k as int))),
        {
            let arc: &NfaArc = &arcs[k];
            proof {
                assert(arcs@.take(k + 1).drop_last() =~= arcs@.take(k as int));
            }
            if arc.label.consumes_input() {
                collect_label_candidates(alphabet, &arc.label, &mut chars);
                proof {
                    lemma_push_all_concat(state_base, arcs_offered(alphabet@, arcs@.take(k as int)), label_offered(alphabet@, arc.label));
                }
            } else {
                proof {
                    assert(arcs_offered(alphabet@, arcs@.take(k + 1)) =~= arcs_offered(alphabet@, arcs@.take(k as int)));
                }
            }
        }
        proof {
            assert(arcs@.take(arcs@.len() as int) =~= arcs@);
            assert(states@.take(i + 1).drop_last() =~= states@.take(i as int));
            assert(states@.take(i + 1).last() == state);
            lemma_push_all_concat(Seq::empty(), before_offered, arcs_offered(alphabet@, nfa.spec_arcs(state)));
        }
    }
    proof {
        assert(states@.take(states@.len() as int) =~= states@);
    }
    chars
}

/// The targets of the transitions among `arcs` that accept `c`.
pub open spec fn arc_targets(arcs: Seq<NfaArc>, c: char) -> Set<u32> {
    Set::new(|t: u32| exists|k: int| 0 <= k < arcs.len() && #[trigger] arcs[k].to == t && arcs[k].label.spec_accepts(c))
}

/// The states the NFA states `states` reach by reading `c`.
pub open spec fn spec_successors(nfa: PhoneticNfa, states: Seq<u32>, c: char) -> Set<u32> {
    Set::new(|t: u32| exists|i: int| 0 <= i < states.len() && #[trigger] arc_targets(nfa.spec_arcs(states[i]), c).contains(t))
}

/// For each candidate scalar, the NFA states reached by reading it.
pub struct LabelSuccessors {
    chars: Vec<char>,
    targets: Vec<Vec<u32>>,
    index_by_char: Option<FxHashMap<u32, usize>>,
}

impl LabelSuccessors {
    /// The candidate scalars, in order.
    pub closed spec fn spec_chars(&self) -> Seq<char> {
        self.chars@
    }

    /// The states reached so far by reading candidate `i`.
    pub closed spec fn spec_targets(&self, i: int) -> Set<u32> {
        self.targets@[i]@.to_set()
    }

    /// Whether candidates are found through the hash index.
    pub closed spec fn spec_indexed(&self) -> bool {
        self.index_by_char is Some
    }

    /// One target list per candidate, no candidate twice, and an index, once
    /// built, from each candidate's code to its slot.
    pub closed spec fn wf(&self) -> bool {
        &&& self.chars@.len() == self.targets@.len()
        &&& self.chars@.no_duplicates()
        &&& match self.index_by_char {
            Some(m) => forall|k: u32| #[trigger] m@.contains_key(k) <==>
                exists|j: int| 0 <= j < self.chars@.len() && self.chars@[j] as u32 == k,
            None => true,
        }
        &&& match self.index_by_char {
            Some(m) => forall|k: u32| #[trigger] m@.contains_key(k) ==>
                m@[k] < self.chars@.len() && self.chars@[m@[k] as int] as u32 == k,
            None => true,
        }
    }

    /// Empty target sets for the distinct `candidates`; indexed from
    /// `CANDIDATE_HASH_THRESHOLD` candidates on.
    pub fn new(candidates: &[char]) -> (r: Self)
        requires
            candidates@.no_duplicates(),
        ensures
            r.wf(),
            r.spec_chars() == candidates@,
            forall|i: int| 0 <= i < candidates@.len() ==> r.spec_targets(i) == Set::<u32>::empty(),
            r.spec_indexed() == (candidates@.len() >= CANDIDATE_HASH_THRESHOLD),
    {
        let mut chars: Vec<char> = Vec::new();
        let mut targets: Vec<Vec<u32>> = Vec::new();
        for i in 0..candidates.len()
            invariant
                chars@ == candidates@.take(i as int),
                targets@.len() == i,
                forall|j: int| 0 <= j < i ==> (#[trigger] targets@[j])@ == Seq::<u32>::empty(),
        {
            chars.push(candidates[i]);
            targets.push(Vec::new());
            proof {
                assert(candidates@.take(i + 1) =~= candidates@.take(i as int).push(candidates@[i as int]));
            }
        }
        proof {
            assert(candidates@.take(candidates@.len() as int) =~= candidates@);
        }
        let index_by_char: Option<FxHashMap<u32, usize>> = if candidates.len() >= CANDIDATE_HASH_THRESHOLD {
            let mut index: FxHashMap<u32, usize> = fx_map_with_capacity(candidates.len());
            for slot in 0..candidates.len()
                invariant
                    chars@ == candidates@,
                    candidates@.no_duplicates(),
                    forall|k: u32| #[trigger] index@.contains_key(k) <==>
                        exists|j: int| 0 <= j < slot && candidates@[j] as u32 == k,
                    forall|k: u32| #[trigger] index@.contains_key(k) ==>
                        index@[k] < slot && candidates@[index@[k] as int] as u32 == k,
            {
                let code: u32 = candidates[slot] as u32;
                proof {
                    if index@.contains_key(code) {
                        let j = choose|j: int| 0 <= j < slot && candidates@[j] as u32 == code;
                        lemma_scalar_code_injective(candidates@[j], candidates@[slot as int]);
                    }
                }
                fx_insert(&mut index, code, slot);
                proof {
                    assert forall|k: u32| #[trigger] index@.contains_key(k) <==>
                        exists|j: int| 0 <= j < slot + 1 && candidates@[j] as u32 == k by {
                        if k == code {
                            assert(candidates@[slot as int] as u32 == k);
                        }
                    }
                }
            }
            Some(index)
        } else {
            None
        };
        let r = LabelSuccessors { chars, targets, index_by_char };
        proof {
            assert forall|i: int| 0 <= i < candidates@.len() implies r.spec_targets(i) == Set::<u32>::empty() by {
                assert(r.targets@[i]@.to_set() =~= Set::<u32>::empty());
            }
        }
        r
    }

    /// Number of candidates.
    pub fn len(&self) -> (r: usize)
        requires
            self.wf(),
        ensures
            r == self.spec_chars().len(),
    {
        self.chars.len()
    }

    fn slot_of(&self, candidate: char) -> (r: Option<usize>)
        requires
            self.wf(),
        ensures
            match r {
                Some(i) => i < self.spec_chars().len() && self.spec_chars()[i as int] == candidate,
                None => !self.spec_chars().contains(candidate),
            },
    {
        match &self.index_by_char {
            Some(index) => {
                let code: u32 = candidate as u32;
                match crate::fx_map::fx_get(index, &code) {
                    Some(slot) => {
                        proof {
                            lemma_scalar_code_injective(self.chars@[*slot as int], candidate);
                        }
                        Some(*slot)
                    },
                    None => {
                        proof {
                            if self.chars@.contains(candidate) {
                                let j = choose|j: int| 0 <= j < self.chars@.len() && self.chars@[j] == candidate;
                                assert(self.chars@[j] as u32 == code);
                            }
                        }
                        None
                    },
                }
            },
            None => {
                let mut i: usize = 0;
                while i < self.chars.len()
                    invariant
                        i <= self.chars@.len(),
                        forall|j: int| 0 <= j < i ==> self.chars@[j] != candidate,
                    decreases self.chars@.len() - i,
                {
                    if self.chars[i] == candidate {
                        return Some(i);
                    }
                    i = i + 1;
                }
                None
            },
        }
    }

    fn insert_target(&mut self, slot: usize, target: u32)
        requires
            old(self).wf(),
            slot < old(self).spec_chars().len(),
        ensures
            final(self).wf(),
            final(self).spec_chars() == old(self).spec_chars(),
            final(self).spec_indexed() == old(self).spec_indexed(),
            forall|i: int| 0 <= i < final(self).spec_chars().len() ==> #[trigger] final(self).spec_targets(i) == if i == slot {
                old(self).spec_targets(i).insert(target)
            } else {
                old(self).spec_targets(i)
            },
    {
        let mut row: Vec<u32> = Vec::new();
        std::mem::swap(&mut row, &mut self.targets[slot]);
        let ghost old_row = row@;
        let mut present: bool = false;
        let mut j: usize = 0;
        while j < row.len()
            invariant
                j <= row@.len(),
                present == row@.take(j as int).contains(target),
            decreases row@.len() - j,
        {
            proof {
                assert(row@.take(j + 1) =~= row@.take(j as int).push(row@[j as int]));
                lemma_push_contains(row@.take(j as int), row@[j as int], target);
            }
            if row[j] == target {
                present = true;
            }
            j = j + 1;
        }
        proof {
            assert(row@.take(row@.len() as int) =~= row@);
        }
        if !present {
            row.push(target);
        }
        proof {
            assert(row@.to_set() =~= old_row.to_set().insert(target)) by {
                assert forall|x: u32| row@.contains(x) <==> (old_row.contains(x) || x == target) by {
                    if !present {
                        lemma_push_contains(old_row, target, x);
                    }
                }
            }
        }
        std::mem::swap(&mut row, &mut self.targets[slot]);
    }

    /// The candidates and, for each, the states reached by reading it.
    pub fn into_slots(self) -> (r: (Vec<char>, Vec<Vec<u32>>))
        requires
            self.wf(),
        ensures
            r.0@ == self.spec_chars(),
            r.1@.len() == r.0@.len(),
            forall|i: int| 0 <= i < r.1@.len() ==> (#[trigger] r.1@[i])@.to_set() == self.spec_targets(i),
    {
        (self.chars, self.targets)
    }
}

/// Record `target` as reached by every candidate `label` accepts.
pub fn collect_label_successors(label: &NfaLabel, target: u32, successors: &mut LabelSuccessors)
    requires
        old(successors).wf(),
    ensures
        final(successors).wf(),
        final(successors).spec_chars() == old(successors).spec_chars(),
        forall|i: int| 0 <= i < final(successors).spec_chars().len() ==> #[trigger] final(successors).spec_targets(i) == if label.spec_accepts(
            old(successors).spec_chars()[i],
        ) {
            old(successors).spec_targets(i).insert(target)
        } else {
            old(successors).spec_targets(i)
        },
{
    match label {
        NfaLabel::Char(candidate) => {
            match successors.slot_of(*candidate) {
                Some(slot) => {
                    successors.insert_target(slot, target);
                    proof {
                        assert forall|i: int| 0 <= i < successors.spec_chars().len() && i != slot implies
                            !label.spec_accepts(old(successors).spec_chars()[i]) by {
                            assert(old(successors).spec_chars()[i] != old(successors).spec_chars()[slot as int]);
                        }
                    }
                },
                None => {},
            }
        },
        NfaLabel::CharClass(class) => {
            let n: usize = successors.len();
            for i in 0..n
                invariant
                    successors.wf(),
                    n == successors.spec_chars().len(),
                    successors.spec_chars() == old(successors).spec_chars(),
                    forall|j: int| 0 <= j < n ==> #[trigger] successors.spec_targets(j) == if j < i && class.spec_matches(
                        old(successors).spec_chars()[j],
                    ) {
                        old(successors).spec_targets(j).insert(target)
                    } else {
                        old(successors).spec_targets(j)
                    },
            {
                let candidate: char = successors.chars[i];
                if class.matches(candidate) {
                    successors.insert_target(i, target);
                }
            }
        },
        NfaLabel::Any => {
            let n: usize = successors.len();
            for i in 0..n
                invariant
                    successors.wf(),
                    n == successors.spec_chars().len(),
                    successors.spec_chars() == old(successors).spec_chars(),
                    forall|j: int| 0 <= j < n ==> #[trigger] successors.spec_targets(j) == if j < i {
                        old(successors).spec_targets(j).insert(target)
                    } else {
                        old(successors).spec_targets(j)
                    },
            {
                successors.insert_target(i, target);
            }
        },
        _ => {},
    }
}

proof fn lemma_arc_targets_step(arcs: Seq<NfaArc>, k: int, c: char)
    requires
        0 <= k < arcs.len(),
    ensures
        arc_targets(arcs.take(k + 1), c) == if arcs[k].label.spec_accepts(c) {
            arc_targets(arcs.take(k), c).insert(arcs[k].to)
        } else {
            arc_targets(arcs.take(k), c)
        },
{
    let a = arcs.take(k + 1);
    let b = arcs.take(k);
    let rhs = if arcs[k].label.spec_accepts(c) { arc_targets(b, c).insert(arcs[k].to) } else { arc_targets(b, c) };
    assert forall|t: u32| arc_targets(a, c).contains(t) <==> rhs.contains(t) by {
        if arc_targets(a, c).contains(t) {
            let w = choose|w: int| 0 <= w < a.len() && #[trigger] a[w].to == t && a[w].label.spec_accepts(c);
            if w < k {
                assert(b[w].to == t);
            }
        }
        if arc_targets(b, c).contains(t) {
            let w = choose|w: int| 0 <= w < b.len() && #[trigger] b[w].to == t && b[w].label.spec_accepts(c);
            assert(a[w].to == t);
        }
        if arcs[k].label.spec_accepts(c) && t == arcs[k].to {
            assert(a[k].to == t);
        }
    }
    assert(arc_targets(a, c) =~= rhs);
}

proof fn lemma_successors_step(nfa: PhoneticNfa, states: Seq<u32>, i: int, c: char)
    requires
        0 <= i < states.len(),
    ensures
        spec_successors(nfa, states.take(i + 1), c)
            == spec_successors(nfa, states.take(i), c).union(arc_targets(nfa.spec_arcs(states[i]), c)),
{
    let a = states.take(i + 1);
    let b = states.take(i);
    assert forall|t: u32| spec_successors(nfa, a, c).contains(t) <==>
        spec_successors(nfa, b, c).union(arc_targets(nfa.spec_arcs(states[i]), c)).contains(t) by {
        if spec_successors(nfa, a, c).contains(t) {
            let w = choose|w: int| 0 <= w < a.len() && #[trigger] arc_targets(nfa.spec_arcs(a[w]), c).contains(t);
            if w < i {
                assert(arc_targets(nfa.spec_arcs(b[w]), c).contains(t));
            }
        }
        if spec_successors(nfa, b, c).contains(t) {
            let w = choose|w: int| 0 <= w < b.len() && #[trigger] arc_targets(nfa.spec_arcs(b[w]), c).contains(t);
            assert(arc_targets(nfa.spec_arcs(a[w]), c).contains(t));
        }
        if arc_targets(nfa.spec_arcs(states[i]), c).contains(t) {
            assert(arc_targets(nfa.spec_arcs(a[i]), c).contains(t));
        }
    }
    assert(spec_successors(nfa, a, c) =~= spec_successors(nfa, b, c).union(arc_targets(nfa.spec_arcs(states[i]), c)));
}

/// For each of the distinct `candidates`, the states the NFA states
/// `states` reach by reading it.
pub fn collect_successors(nfa: &PhoneticNfa, states: &[u32], candidates: &[char]) -> (r: LabelSuccessors)
    requires
        nfa.wf(),
        candidates@.no_duplicates(),
    ensures
        r.wf(),
        r.spec_chars() == candidates@,
        forall|i: int| 0 <= i < candidates@.len() ==> #[trigger] r.spec_targets(i) == spec_successors(*nfa, states@, candidates@[i]),
{
    let mut successors: LabelSuccessors = LabelSuccessors::new(candidates);
    let n: usize = candidates.len();
    for i in 0..states.len()
        invariant
            nfa.wf(),
            successors.wf(),
            n == candidates@.len(),
            successors.spec_chars() == candidates@,
            forall|j: int| 0 <= j < n ==> #[trigger] successors.spec_targets(j) == spec_successors(*nfa, states@.take(i as int), candidates@[j]),
    {
        let state: u32 = states[i];
        let arcs: &[NfaArc] = nfa.transitions_from(state);
        let ghost before = successors;
        for k in 0..arcs.len()
            invariant
                successors.wf(),
                n == candidates@.len(),
                arcs@ == nfa.spec_arcs(state),
                successors.spec_chars() == candidates@,
                forall|j: int| 0 <= j < n ==> #[trigger] successors.spec_targets(j)
                    == before.spec_targets(j).union(arc_targets(arcs@.take(k as int), candidates@[j])),
        {
            let arc: &NfaArc = &arcs[k];
            let ghost mid = successors;
            collect_label_successors(&arc.label, arc.to, &mut successors);
            proof {
                assert forall|j: int| 0 <= j < n implies #[trigger] successors.spec_targets(j)
                    == before.spec_targets(j).union(arc_targets(arcs@.take(k + 1), candidates@[j])) by {
                    lemma_arc_targets_step(arcs@, k as int, candidates@[j]);
                    assert(mid.spec_targets(j) == before.spec_targets(j).union(arc_targets(arcs@.take(k as int), candidates@[j])));
                    if arcs@[k as int].label.spec_accepts(candidates@[j]) {
                        assert(successors.spec_targets(j) =~= before.spec_targets(j).union(arc_targets(arcs@.take(k + 1), candidates@[j])));
                    } else {
                        assert(successors.spec_targets(j) == mid.spec_targets(j));
                    }
                }
            }
        }
        proof {
            assert(arcs@.take(arcs@.len() as int) =~= arcs@);
            assert forall|j: int| 0 <= j < n implies #[trigger] successors.spec_targets(j)
                == spec_successors(*nfa, states@.take(i + 1), candidates@[j]) by {
                lemma_successors_step(*nfa, states@, i as int, candidates@[j]);
                assert(states@.take(i + 1)[i as int] == state);
            }
        }
    }
    proof {
        assert(states@.take(states@.len() as int) =~= states@);
    }
    successors
}

} // verus!
