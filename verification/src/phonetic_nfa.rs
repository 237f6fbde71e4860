//! A phonetic NFA over characters, as plain values: labelled transitions per
//! state, an initial state and the accepting states, with the label tests,
//! the epsilon and anchor closures, and acceptance through end anchors.
use vstd::prelude::*;
use crate::phonetic_support::{canonicalize_nfa_states, strictly_increasing};

verus! {

/// A character class: inclusive scalar ranges, possibly negated.
#[derive(Debug)]
pub struct NfaCharClass {
    /// Inclusive `(start, end)` ranges.
    pub ranges: Vec<(char, char)>,
    /// Whether the class matches the scalars outside the ranges.
    pub negated: bool,
}

/// Whether `c` lies in the inclusive range `range`.
pub open spec fn in_range(range: (char, char), c: char) -> bool {
    (range.0 as u32) <= (c as u32) <= (range.1 as u32)
}

/// Whether `c` lies in one of `ranges`.
pub open spec fn in_ranges(ranges: Seq<(char, char)>, c: char) -> bool {
    exists|i: int| 0 <= i < ranges.len() && #[trigger] in_range(ranges[i], c)
}

impl NfaCharClass {
    /// Whether the class matches `c`.
    pub open spec fn spec_matches(&self, c: char) -> bool {
        in_ranges(self.ranges@, c) != self.negated
    }

    /// Whether the class matches `c`.
    pub fn matches(&self, c: char) -> (r: bool)
        ensures
            r == self.spec_matches(c),
    {
        let code: u32 = c as u32;
        let mut found: bool = false;
        let mut i: usize = 0;
        while i < self.ranges.len()
            invariant
                i <= self.ranges@.len(),
                code == c as u32,
                found == exists|j: int| 0 <= j < i && #[trigger] in_range(self.ranges@[j], c),
            decreases self.ranges@.len() - i,
        {
            let (start, end) = self.ranges[i];
            let hit: bool = (start as u32) <= code && code <= (end as u32);
            proof {
                assert(hit == in_range(self.ranges@[i as int], c));
            }
            if hit {
                found = true;
            }
            i = i + 1;
        }
        found != self.negated
    }
}

/// The label of an NFA transition.
#[derive(Debug)]
pub enum NfaLabel {
    /// Consumes nothing.
    Epsilon,
    /// Consumes exactly this scalar.
    Char(char),
    /// Consumes one scalar of the class.
    CharClass(NfaCharClass),
    /// Consumes any one scalar.
    Any,
    /// Zero-width: start of a line.
    StartOfLine,
    /// Zero-width: end of a line.
    EndOfLine,
    /// Zero-width: start of the input.
    StartOfInput,
    /// Zero-width: end of the input, before an optional final newline.
    EndOfInput,
    /// Zero-width: the very end of the input.
    EndOfInputStrict,
}

impl NfaLabel {
    /// Epsilon labels consume nothing and assert nothing.
    pub open spec fn spec_is_epsilon(&self) -> bool {
        self is Epsilon
    }

    /// Labels that assert a position at the start.
    pub open spec fn spec_is_start_anchor(&self) -> bool {
        self is StartOfLine || self is StartOfInput
    }

    /// Labels that assert a position at the end.
    pub open spec fn spec_is_end_anchor(&self) -> bool {
        self is EndOfLine || self is EndOfInput || self is EndOfInputStrict
    }

    /// Labels that consume one scalar.
    pub open spec fn spec_consumes_input(&self) -> bool {
        self is Char || self is CharClass || self is Any
    }

    /// Whether a consuming label accepts the scalar `c`.
    pub open spec fn spec_accepts(&self, c: char) -> bool {
        match self {
            NfaLabel::Char(expected) => *expected == c,
            NfaLabel::CharClass(class) => class.spec_matches(c),
            NfaLabel::Any => true,
            _ => false,
        }
    }

    /// Whether the label is an epsilon.
    pub fn is_epsilon(&self) -> (r: bool)
        ensures
            r == self.spec_is_epsilon(),
    {
        match self {
            NfaLabel::Epsilon => true,
            _ => false,
        }
    }

    /// Whether the label consumes one scalar.
    pub fn consumes_input(&self) -> (r: bool)
        ensures
            r == self.spec_consumes_input(),
    {
        match self {
            NfaLabel::Char(_) | NfaLabel::CharClass(_) | NfaLabel::Any => true,
            _ => false,
        }
    }
}

/// A transition of the NFA: its label and its target state.
#[derive(Debug)]
pub struct NfaArc {
    /// What the transition reads.
    pub label: NfaLabel,
    /// The state it leads to.
    pub to: u32,
}

/// A character NFA: states `0..n`, their outgoing transitions in insertion
/// order, the accepting states and the initial state.
pub struct PhoneticNfa {
    start: u32,
    finals: Vec<bool>,
    arcs: Vec<Vec<NfaArc>>,
}

impl PhoneticNfa {
    /// The initial state.
    pub closed spec fn spec_start(&self) -> u32 {
        self.start
    }

    /// Number of states.
    pub closed spec fn spec_num_states(&self) -> nat {
        self.arcs@.len()
    }

    /// The transitions out of `state`, in order; none for an unknown state.
    pub closed spec fn spec_arcs(&self, state: u32) -> Seq<NfaArc> {
        if state < self.arcs@.len() { self.arcs@[state as int]@ } else { Seq::empty() }
    }

    /// Whether `state` accepts; an unknown state does not.
    pub closed spec fn spec_is_final(&self, state: u32) -> bool {
        state < self.finals@.len() && self.finals@[state as int]
    }

    /// The states are numbered `0..n`, every transition stays among them and
    /// the initial state is one of them.
    pub closed spec fn wf(&self) -> bool {
        &&& self.finals@.len() == self.arcs@.len()
        &&& 1 <= self.arcs@.len() <= u32::MAX
        &&& self.start < self.arcs@.len()
        &&& forall|q: int, k: int| 0 <= q < self.arcs@.len() && 0 <= k < self.arcs@[q]@.len()
                ==> #[trigger] self.arcs@[q]@[k].to < self.arcs@.len()
    }

    /// An NFA with the single non-accepting initial state `0` and no transitions.
    pub fn new() -> (r: Self)
        ensures
            r.wf(),
            r.spec_num_states() == 1,
            r.spec_start() == 0,
            !r.spec_is_final(0),
            r.spec_arcs(0).len() == 0,
    {
        let mut arcs: Vec<Vec<NfaArc>> = Vec::new();
        arcs.push(Vec::new());
        let mut finals: Vec<bool> = Vec::new();
        finals.push(false);
        PhoneticNfa { start: 0, finals, arcs }
    }

    /// Add a state without transitions; its ID is the previous state count.
    pub fn add_state(&mut self, is_final: bool) -> (r: u32)
        requires
            old(self).wf(),
            old(self).spec_num_states() < u32::MAX,
        ensures
            final(self).wf(),
            r == old(self).spec_num_states(),
            final(self).spec_num_states() == old(self).spec_num_states() + 1,
            final(self).spec_start() == old(self).spec_start(),
            final(self).spec_is_final(r) == is_final,
            final(self).spec_arcs(r).len() == 0,
            forall|q: u32| q != r ==> final(self).spec_is_final(q) == old(self).spec_is_final(q)
                && final(self).spec_arcs(q) == old(self).spec_arcs(q),
    {
        let id: u32 = self.arcs.len() as u32;
        self.arcs.push(Vec::new());
        self.finals.push(is_final);
        proof {
            assert forall|q: int, k: int| 0 <= q < self.arcs@.len() && 0 <= k < self.arcs@[q]@.len()
                implies #[trigger] self.arcs@[q]@[k].to < self.arcs@.len() by {
                assert(q < old(self).arcs@.len());
                assert(old(self).arcs@[q]@[k].to < old(self).arcs@.len());
            }
        }
        id
    }

    /// Make `state` the initial state.
    pub fn set_start(&mut self, state: u32)
        requires
            old(self).wf(),
            state < old(self).spec_num_states(),
        ensures
            final(self).wf(),
            final(self).spec_start() == state,
            final(self).spec_num_states() == old(self).spec_num_states(),
            forall|q: u32| final(self).spec_arcs(q) == old(self).spec_arcs(q),
            forall|q: u32| final(self).spec_is_final(q) == old(self).spec_is_final(q),
    {
        self.start = state;
    }

    /// Mark `state` accepting or not; an unknown state is left alone.
    pub fn set_final(&mut self, state: u32, is_final: bool)
        requires
            old(self).wf(),
        ensures
            final(self).wf(),
            final(self).spec_num_states() == old(self).spec_num_states(),
            final(self).spec_start() == old(self).spec_start(),
            forall|q: u32| final(self).spec_arcs(q) == old(self).spec_arcs(q),
            forall|q: u32| #[trigger] final(self).spec_is_final(q) == (if q == state && state < old(self).spec_num_states() {
                is_final
            } else {
                old(self).spec_is_final(q)
            }),
    {
        if (state as usize) < self.finals.len() {
            self.finals.set(state as usize, is_final);
        }
    }

    /// Append a transition from `from` to `to` after the existing ones of `from`.
    pub fn add_transition(&mut self, from: u32, label: NfaLabel, to: u32)
        requires
            old(self).wf(),
            from < old(self).spec_num_states(),
            to < old(self).spec_num_states(),
        ensures
            final(self).wf(),
            final(self).spec_num_states() == old(self).spec_num_states(),
            final(self).spec_start() == old(self).spec_start(),
            forall|q: u32| final(self).spec_is_final(q) == old(self).spec_is_final(q),
            forall|q: u32| q != from ==> final(self).spec_arcs(q) == old(self).spec_arcs(q),
            final(self).spec_arcs(from) == old(self).spec_arcs(from).push(NfaArc { label, to }),
    {
        let i: usize = from as usize;
        let mut row: Vec<NfaArc> = Vec::new();
        std::mem::swap(&mut row, &mut self.arcs[i]);
        row.push(NfaArc { label, to });
        std::mem::swap(&mut row, &mut self.arcs[i]);
        proof {
            assert forall|q: int, k: int| 0 <= q < self.arcs@.len() && 0 <= k < self.arcs@[q]@.len()
                implies #[trigger] self.arcs@[q]@[k].to < self.arcs@.len() by {
                if q != i {
                    assert(self.arcs@[q] == old(self).arcs@[q]);
                    assert(old(self).arcs@[q]@[k].to < old(self).arcs@.len());
                } else if k < old(self).arcs@[q]@.len() {
                    assert(old(self).arcs@[q]@[k].to < old(self).arcs@.len());
                }
            }
        }
    }

    /// The initial state.
    pub fn start(&self) -> (r: u32)
        ensures
            r == self.spec_start(),
    {
        self.start
    }

    /// Number of states.
    pub fn num_states(&self) -> (r: usize)
        ensures
            r == self.spec_num_states(),
    {
        self.arcs.len()
    }

    /// Whether `state` accepts.
    pub fn is_final(&self, state: u32) -> (r: bool)
        ensures
            r == self.spec_is_final(state),
    {
        (state as usize) < self.finals.len() && self.finals[state as usize]
    }

    /// The transitions out of `state`, in order.
    pub fn transitions_from(&self, state: u32) -> (r: &[NfaArc])
        ensures
            r@ == self.spec_arcs(state),
    {
        if (state as usize) < self.arcs.len() {
            self.arcs[state as usize].as_slice()
        } else {
            &[]
        }
    }
}

/// Which transitions a closure follows besides epsilons.
#[derive(Clone, Copy, Debug, PartialEq, Eq, Structural)]
pub enum ClosureMode {
    /// Epsilon transitions only.
    Epsilon,
    /// Epsilon transitions and start anchors.
    StartAnchors,
    /// Epsilon transitions and end anchors.
    EndAnchors,
}

/// Whether a closure in `mode` follows a transition labelled `label`.
pub open spec fn follows(mode: ClosureMode, label: NfaLabel) -> bool {
    match mode {
        ClosureMode::Epsilon => label.spec_is_epsilon(),
        ClosureMode::StartAnchors => label.spec_is_epsilon() || label.spec_is_start_anchor(),
        ClosureMode::EndAnchors => label.spec_is_epsilon() || label.spec_is_end_anchor(),
    }
}

/// Whether a closure in `mode` follows a transition labelled `label`.
pub fn mode_follows(mode: ClosureMode, label: &NfaLabel) -> (r: bool)
    ensures
        r == follows(mode, *label),
{
    match label {
        NfaLabel::Epsilon => true,
        NfaLabel::StartOfLine | NfaLabel::StartOfInput => mode == ClosureMode::StartAnchors,
        NfaLabel::EndOfLine | NfaLabel::EndOfInput | NfaLabel::EndOfInputStrict => mode == ClosureMode::EndAnchors,
        _ => false,
    }
}

/// The number of `true` entries.
pub open spec fn count_true(s: Seq<bool>) -> nat
    decreases s.len(),
{
    if s.len() == 0 {
        0
    } else {
        count_true(s.drop_last()) + if s.last() { 1nat } else { 0nat }
    }
}

proof fn lemma_count_true_bound(s: Seq<bool>)
    ensures
        count_true(s) <= s.len(),
    decreases s.len(),
{
    if s.len() > 0 {
        lemma_count_true_bound(s.drop_last());
    }
}

proof fn lemma_count_true_none(s: Seq<bool>)
    requires
        forall|j: int| 0 <= j < s.len() ==> !s[j],
    ensures
        count_true(s) == 0,
    decreases s.len(),
{
    if s.len() > 0 {
        lemma_count_true_none(s.drop_last());
    }
}

proof fn lemma_count_true_set(s: Seq<bool>, i: int)
    requires
        0 <= i < s.len(),
        !s[i],
    ensures
        count_true(s.update(i, true)) == count_true(s) + 1,
    decreases s.len(),
{
    let t = s.update(i, true);
    if i == s.len() - 1 {
        assert(t.drop_last() =~= s.drop_last());
    } else {
        lemma_count_true_set(s.drop_last(), i);
        assert(t.drop_last() =~= s.drop_last().update(i, true));
    }
}

impl PhoneticNfa {
    /// A transition from `p` to `q` that a closure in `mode` follows.
    pub open spec fn spec_step(&self, mode: ClosureMode, p: u32, q: u32) -> bool {
        exists|k: int| 0 <= k < self.spec_arcs(p).len() && #[trigger] self.spec_arcs(p)[k].to == q
            && follows(mode, self.spec_arcs(p)[k].label)
    }

    /// Step `i` of `path` is a followed transition.
    pub open spec fn path_step(&self, mode: ClosureMode, path: Seq<u32>, i: int) -> bool {
        self.spec_step(mode, path[i], path[i + 1])
    }

    /// A nonempty sequence of states, each reached from the previous one by a followed transition.
    pub open spec fn is_path(&self, mode: ClosureMode, path: Seq<u32>) -> bool {
        &&& path.len() >= 1
        &&& forall|i: int| 0 <= i < path.len() - 1 ==> #[trigger] self.path_step(mode, path, i)
    }

    /// `q` is reached from a state of `init` by followed transitions.
    pub open spec fn spec_reachable(&self, mode: ClosureMode, init: Set<u32>, q: u32) -> bool {
        exists|path: Seq<u32>| #[trigger] self.is_path(mode, path) && init.contains(path[0]) && path.last() == q
    }

    /// No followed transition leaves `s`.
    pub open spec fn spec_closed(&self, mode: ClosureMode, s: Set<u32>) -> bool {
        forall|p: u32, q: u32| #![trigger s.contains(p), self.spec_step(mode, p, q)]
            s.contains(p) && self.spec_step(mode, p, q) ==> s.contains(q)
    }

    /// The closure of `init` in `mode`: every state reached from it.
    pub open spec fn spec_closure(&self, mode: ClosureMode, init: Set<u32>) -> Set<u32> {
        Set::new(|q: u32| self.spec_reachable(mode, init, q))
    }

    proof fn lemma_reach_start(&self, mode: ClosureMode, init: Set<u32>, q: u32)
        requires
            init.contains(q),
        ensures
            self.spec_reachable(mode, init, q),
    {
        let path = seq![q];
        assert(self.is_path(mode, path));
    }

    proof fn lemma_reach_step(&self, mode: ClosureMode, init: Set<u32>, p: u32, q: u32)
        requires
            self.spec_reachable(mode, init, p),
            self.spec_step(mode, p, q),
        ensures
            self.spec_reachable(mode, init, q),
    {
        let path = choose|path: Seq<u32>| #[trigger] self.is_path(mode, path) && init.contains(path[0]) && path.last() == p;
        let longer = path.push(q);
        assert forall|i: int| 0 <= i < longer.len() - 1 implies #[trigger] self.path_step(mode, longer, i) by {
            if i < path.len() - 1 {
                assert(self.path_step(mode, path, i));
                assert(longer[i] == path[i] && longer[i + 1] == path[i + 1]);
            } else {
                assert(longer[i] == p && longer[i + 1] == q);
            }
        }
        assert(self.is_path(mode, longer));
        assert(longer[0] == path[0]);
    }

    proof fn lemma_path_in_closed(&self, mode: ClosureMode, s: Set<u32>, path: Seq<u32>, j: int)
        requires
            self.spec_closed(mode, s),
            self.is_path(mode, path),
            s.contains(path[0]),
            0 <= j < path.len(),
        ensures
            s.contains(path[j]),
        decreases j,
    {
        if j > 0 {
            self.lemma_path_in_closed(mode, s, path, j - 1);
            assert(self.path_step(mode, path, j - 1));
        }
    }

    /// A closed set that holds `init` holds every state reached from it:
    /// the closure is the least such set.
    pub proof fn lemma_closure_least(&self, mode: ClosureMode, init: Set<u32>, s: Set<u32>)
        requires
            self.spec_closed(mode, s),
            init.subset_of(s),
        ensures
            self.spec_closure(mode, init).subset_of(s),
    {
        assert forall|q: u32| self.spec_closure(mode, init).contains(q) implies s.contains(q) by {
            let path = choose|path: Seq<u32>| #[trigger] self.is_path(mode, path) && init.contains(path[0]) && path.last() == q;
            self.lemma_path_in_closed(mode, s, path, path.len() - 1);
        }
    }
}

pub proof fn lemma_push_contains(s: Seq<u32>, v: u32, x: u32)
    ensures
        s.push(v).contains(x) <==> (s.contains(x) || x == v),
{
    if s.push(v).contains(x) {
        let w = choose|w: int| 0 <= w < s.push(v).len() && s.push(v)[w] == x;
        if w < s.len() {
            assert(s[w] == x);
        }
    }
    if s.contains(x) {
        let w = choose|w: int| 0 <= w < s.len() && s[w] == x;
        assert(s.push(v)[w] == x);
    }
    if x == v {
        assert(s.push(v)[s.len() as int] == v);
    }
}

proof fn lemma_drop_last_contains(s: Seq<u32>, x: u32)
    requires
        s.len() > 0,
    ensures
        s.contains(x) <==> (s.drop_last().contains(x) || x == s.last()),
{
    lemma_push_contains(s.drop_last(), s.last(), x);
    assert(s.drop_last().push(s.last()) =~= s);
}

impl PhoneticNfa {
    /// The closure of `initial` in `mode`: the states reached from it by
    /// followed transitions, as a strictly increasing list.
    pub fn closure(&self, initial: &[u32], mode: ClosureMode) -> (r: Vec<u32>)
        requires
            self.wf(),
        ensures
            strictly_increasing(r@),
            r@.to_set() == self.spec_closure(mode, initial@.to_set()),
    {
        let n: usize = self.arcs.len();
        let ghost init = initial@.to_set();
        let mut visited: Vec<bool> = Vec::new();
        let mut i: usize = 0;
        while i < n
            invariant
                i <= n,
                visited@.len() == i,
                forall|j: int| 0 <= j < i ==> !visited@[j],
            decreases n - i,
        {
            visited.push(false);
            i = i + 1;
        }
        proof {
            lemma_count_true_none(visited@);
        }
        let mut members: Vec<u32> = Vec::new();
        let mut stack: Vec<u32> = Vec::new();
        for k in 0..initial.len()
            invariant
                self.wf(),
                n == self.arcs@.len(),
                visited@.len() == n,
                init == initial@.to_set(),
                forall|q: int| 0 <= q < n ==> (visited@[q] <==> members@.contains(q as u32)),
                forall|j: int| 0 <= j < k ==> members@.contains(#[trigger] initial@[j]),
                forall|q: u32| members@.contains(q) ==> init.contains(q),
                forall|q: u32| members@.contains(q) && q < n ==> stack@.contains(q),
                forall|q: u32| stack@.contains(q) ==> q < n && members@.contains(q),
                count_true(visited@) <= n,
        {
            let s: u32 = initial[k];
            proof {
                assert(init.contains(initial@[k as int]));
            }
            let ghost prior = members@;
            let ghost prior_stack = stack@;
            if (s as usize) < n {
                if !visited[s as usize] {
                    proof {
                        lemma_count_true_set(visited@, s as int);
                    }
                    visited.set(s as usize, true);
                    members.push(s);
                    stack.push(s);
                    proof {
                        lemma_count_true_bound(visited@);
                        assert forall|x: u32| members@.contains(x) <==> (prior.contains(x) || x == s) by {
                            lemma_push_contains(prior, s, x);
                        }
                        assert forall|x: u32| stack@.contains(x) <==> (prior_stack.contains(x) || x == s) by {
                            lemma_push_contains(prior_stack, s, x);
                        }
                        assert forall|q: int| 0 <= q < n implies (visited@[q] <==> members@.contains(q as u32)) by {
                            if q != s as int {
                                assert(prior.contains(q as u32) <==> members@.contains(q as u32));
                            }
                        }
                        assert forall|x: u32| members@.contains(x) && x < n implies stack@.contains(x) by {
                            if x != s {
                                assert(prior.contains(x));
                                assert(prior_stack.contains(x));
                            }
                        }
                        assert forall|x: u32| stack@.contains(x) implies x < n && members@.contains(x) by {
                            if x != s {
                                assert(prior_stack.contains(x));
                                assert(prior.contains(x));
                            }
                        }
                    }
                }
            } else {
                let mut present: bool = false;
                let mut m: usize = 0;
                while m < members.len()
                    invariant
                        m <= members@.len(),
                        present == members@.take(m as int).contains(s),
                    decreases members@.len() - m,
                {
                    proof {
                        assert(members@.take(m + 1) =~= members@.take(m as int).push(members@[m as int]));
                        lemma_push_contains(members@.take(m as int), members@[m as int], s);
                    }
                    if members[m] == s {
                        present = true;
                    }
                    m = m + 1;
                }
                proof {
                    assert(members@.take(members@.len() as int) =~= members@);
                }
                if !present {
                    members.push(s);
                }
                proof {
                    assert forall|x: u32| members@.contains(x) <==> (prior.contains(x) || x == s) by {
                        if !present {
                            lemma_push_contains(prior, s, x);
                        }
                    }
                    assert forall|x: u32| members@.contains(x) && x < n implies stack@.contains(x) by {
                        assert(prior.contains(x));
                    }
                    assert forall|x: u32| stack@.contains(x) implies x < n && members@.contains(x) by {
                        assert(prior.contains(x));
                    }
                }
            }
        }
        proof {
            assert forall|q: u32| init.contains(q) implies members@.contains(q) by {
                let j = choose|j: int| 0 <= j < initial@.len() && initial@[j] == q;
                assert(members@.contains(initial@[j]));
            }
            assert forall|q: u32| members@.contains(q) implies self.spec_reachable(mode, init, q) by {
                self.lemma_reach_start(mode, init, q);
            }
        }
        while stack.len() > 0
            invariant
                self.wf(),
                n == self.arcs@.len(),
                visited@.len() == n,
                forall|q: int| 0 <= q < n ==> (visited@[q] <==> members@.contains(q as u32)),
                forall|q: u32| init.contains(q) ==> members@.contains(q),
                forall|q: u32| members@.contains(q) ==> self.spec_reachable(mode, init, q),
                forall|q: u32| stack@.contains(q) ==> q < n && members@.contains(q),
                forall|p: u32, q: u32| members@.contains(p) && !stack@.contains(p) && self.spec_step(mode, p, q)
                    ==> members@.contains(q),
                count_true(visited@) <= n,
            decreases 2 * (n - count_true(visited@)) + stack@.len(),
        {
            let ghost measure = 2 * (n - count_true(visited@)) + stack@.len();
            let ghost before = stack@;
            let q: u32 = stack.pop().unwrap();
            proof {
                assert(before.contains(q));
                assert(stack@ =~= before.drop_last());
                assert forall|x: u32| before.contains(x) <==> (stack@.contains(x) || x == q) by {
                    lemma_drop_last_contains(before, x);
                }
                assert forall|x: u32| stack@.contains(x) implies x < n && members@.contains(x) by {
                    assert(before.contains(x));
                }
                assert forall|p: u32, x: u32| members@.contains(p) && !stack@.contains(p) && p != q && self.spec_step(mode, p, x)
                    implies members@.contains(x) by {
                    assert(!before.contains(p));
                }
            }
            let row: &Vec<NfaArc> = &self.arcs[q as usize];
            let mut k: usize = 0;
            while k < row.len()
                invariant
                    self.wf(),
                    n == self.arcs@.len(),
                    (q as int) < n,
                    row@ == self.spec_arcs(q),
                    members@.contains(q),
                    visited@.len() == n,
                    k <= row@.len(),
                    forall|x: int| 0 <= x < n ==> (visited@[x] <==> members@.contains(x as u32)),
                    forall|x: u32| init.contains(x) ==> members@.contains(x),
                    forall|x: u32| members@.contains(x) ==> self.spec_reachable(mode, init, x),
                    forall|x: u32| stack@.contains(x) ==> x < n && members@.contains(x),
                    forall|p: u32, x: u32| members@.contains(p) && !stack@.contains(p) && p != q && self.spec_step(mode, p, x)
                        ==> members@.contains(x),
                    forall|j: int| 0 <= j < k && follows(mode, row@[j].label) ==> members@.contains(#[trigger] row@[j].to),
                    count_true(visited@) <= n,
                    2 * (n - count_true(visited@)) + stack@.len() < measure,
                decreases row@.len() - k,
            {
                let arc: &NfaArc = &row[k];
                let to: u32 = arc.to;
                proof {
                    assert(self.spec_arcs(q)[k as int].to < n);
                }
                if mode_follows(mode, &arc.label) && !visited[to as usize] {
                    proof {
                        lemma_count_true_set(visited@, to as int);
                        assert(self.spec_step(mode, q, to));
                        self.lemma_reach_step(mode, init, q, to);
                    }
                    let ghost old_members = members@;
                    let ghost old_stack = stack@;
                    visited.set(to as usize, true);
                    members.push(to);
                    stack.push(to);
                    proof {
                        lemma_count_true_bound(visited@);
                        assert forall|x: u32| members@.contains(x) <==> (old_members.contains(x) || x == to) by {
                            lemma_push_contains(old_members, to, x);
                        }
                        assert forall|x: u32| stack@.contains(x) <==> (old_stack.contains(x) || x == to) by {
                            lemma_push_contains(old_stack, to, x);
                        }
                        assert forall|x: int| 0 <= x < n implies (visited@[x] <==> members@.contains(x as u32)) by {
                            if x != to as int {
                                assert(old_members.contains(x as u32) <==> members@.contains(x as u32));
                            }
                        }
                        assert forall|x: u32| members@.contains(x) implies self.spec_reachable(mode, init, x) by {
                            if x != to {
                                assert(old_members.contains(x));
                            }
                        }
                        assert forall|x: u32| stack@.contains(x) implies x < n && members@.contains(x) by {
                            if x != to {
                                assert(old_stack.contains(x));
                                assert(old_members.contains(x));
                            }
                        }
                        assert forall|p: u32, x: u32| members@.contains(p) && !stack@.contains(p) && p != q && self.spec_step(mode, p, x)
                            implies members@.contains(x) by {
                            assert(old_members.contains(p));
                            assert(!old_stack.contains(p));
                            assert(old_members.contains(x));
                        }
                        assert forall|j: int| 0 <= j <= k && follows(mode, row@[j].label) implies members@.contains(#[trigger] row@[j].to) by {
                            if j < k {
                                assert(old_members.contains(row@[j].to));
                            }
                        }
                    }
                }
                k = k + 1;
            }
            proof {
                assert forall|p: u32, x: u32| members@.contains(p) && !stack@.contains(p) && self.spec_step(mode, p, x)
                    implies members@.contains(x) by {
                    if p == q {
                        let j = choose|j: int| 0 <= j < self.spec_arcs(p).len() && #[trigger] self.spec_arcs(p)[j].to == x
                            && follows(mode, self.spec_arcs(p)[j].label);
                        assert(members@.contains(row@[j].to));
                    }
                }
            }
        }
        proof {
            let vs = members@.to_set();
            assert forall|p: u32, x: u32| #![trigger vs.contains(p), self.spec_step(mode, p, x)]
                vs.contains(p) && self.spec_step(mode, p, x) implies vs.contains(x) by {
                assert(members@.contains(p));
                assert(!stack@.contains(p));
            }
            assert(self.spec_closed(mode, vs));
            assert(init.subset_of(vs));
            self.lemma_closure_least(mode, init, vs);
            assert forall|x: u32| vs.contains(x) <==> self.spec_closure(mode, init).contains(x) by {
                if vs.contains(x) {
                    assert(members@.contains(x));
                }
                if self.spec_closure(mode, init).contains(x) {
                    assert(self.spec_closure(mode, init).subset_of(vs));
                }
            }
            assert(vs =~= self.spec_closure(mode, init));
        }
        canonicalize_nfa_states(&mut members);
        members
    }
}

impl PhoneticNfa {
    /// The states of the initial position: the epsilon closure of the initial
    /// state, closed again under epsilons and start anchors.
    pub open spec fn spec_start_closure(&self) -> Set<u32> {
        self.spec_closure(ClosureMode::StartAnchors, self.spec_closure(ClosureMode::Epsilon, set![self.spec_start()]))
    }

    /// A state set accepts when an accepting state lies in its closure under
    /// epsilons and end anchors.
    pub open spec fn spec_accepting(&self, states: Set<u32>) -> bool {
        exists|q: u32| #[trigger] self.spec_closure(ClosureMode::EndAnchors, states).contains(q) && self.spec_is_final(q)
    }

    /// The states of the initial position, as a strictly increasing list.
    pub fn start_anchor_closure(&self) -> (r: Vec<u32>)
        requires
            self.wf(),
        ensures
            strictly_increasing(r@),
            r@.to_set() == self.spec_start_closure(),
    {
        let start: Vec<u32> = vec![self.start];
        proof {
            assert(start@.to_set() =~= set![self.spec_start()]) by {
                assert forall|x: u32| start@.to_set().contains(x) <==> x == self.start by {
                    if x == self.start {
                        assert(start@[0] == x);
                    }
                }
            }
        }
        let initial: Vec<u32> = self.closure(start.as_slice(), ClosureMode::Epsilon);
        self.closure(initial.as_slice(), ClosureMode::StartAnchors)
    }

    /// Whether the state set `states` accepts through end anchors.
    pub fn state_set_can_reach_final_through_end_anchors(&self, states: &[u32]) -> (r: bool)
        requires
            self.wf(),
        ensures
            r == self.spec_accepting(states@.to_set()),
    {
        let terminal: Vec<u32> = self.closure(states, ClosureMode::EndAnchors);
        let mut i: usize = 0;
        while i < terminal.len()
            invariant
                self.wf(),
                i <= terminal@.len(),
                terminal@.to_set() == self.spec_closure(ClosureMode::EndAnchors, states@.to_set()),
                forall|j: int| 0 <= j < i ==> !self.spec_is_final(terminal@[j]),
            decreases terminal@.len() - i,
        {
            if self.is_final(terminal[i]) {
                proof {
                    assert(terminal@.to_set().contains(terminal@[i as int]));
                }
                return true;
            }
            i = i + 1;
        }
        proof {
            assert forall|q: u32| #[trigger] self.spec_closure(ClosureMode::EndAnchors, states@.to_set()).contains(q)
                implies !self.spec_is_final(q) by {
                assert(terminal@.to_set().contains(q));
                let j = choose|j: int| 0 <= j < terminal@.len() && terminal@[j] == q;
            }
        }
        false
    }
}


/// The targets of `arcs`, in order.
pub open spec fn arc_targets_seq(arcs: Seq<NfaArc>) -> Seq<u32> {
    arcs.map_values(|a: NfaArc| a.to)
}

/// `q` accepts for full-string traversal: a state of `finals` lies in the
/// closure of `q` under epsilons and end anchors.
pub open spec fn accepts_at_end(nfa: &PhoneticNfa, finals: spec_fn(u32) -> bool, q: u32) -> bool {
    exists|f: u32| #[trigger] finals(f) && nfa.spec_closure(ClosureMode::EndAnchors, set![q]).contains(f)
}

impl PhoneticNfa {
    /// Closures are closed under the transitions they follow.
    proof fn lemma_closure_closed(&self, mode: ClosureMode, init: Set<u32>)
        ensures
            self.spec_closed(mode, self.spec_closure(mode, init)),
    {
        assert forall|p: u32, q: u32| #![trigger self.spec_closure(mode, init).contains(p), self.spec_step(mode, p, q)]
            self.spec_closure(mode, init).contains(p) && self.spec_step(mode, p, q)
            implies self.spec_closure(mode, init).contains(q) by {
            self.lemma_reach_step(mode, init, p, q);
        }
    }

    /// What a closure reaches from one of its states, it already holds.
    proof fn lemma_closure_transitive(&self, mode: ClosureMode, p: u32, f: u32)
        requires
            self.spec_closure(mode, set![p]).contains(f),
        ensures
            self.spec_closure(mode, set![f]).subset_of(self.spec_closure(mode, set![p])),
    {
        self.lemma_closure_closed(mode, set![p]);
        self.lemma_closure_least(mode, set![f], self.spec_closure(mode, set![p]));
    }

    /// Closures of known states hold known states only.
    proof fn lemma_closure_in_range(&self, mode: ClosureMode, init: Set<u32>)
        requires
            self.wf(),
            forall|x: u32| init.contains(x) ==> x < self.spec_num_states(),
        ensures
            forall|q: u32| self.spec_closure(mode, init).contains(q) ==> q < self.spec_num_states(),
    {
        let known = Set::new(|x: u32| x < self.spec_num_states());
        assert forall|p: u32, q: u32| #![trigger known.contains(p), self.spec_step(mode, p, q)]
            known.contains(p) && self.spec_step(mode, p, q) implies known.contains(q) by {
            let k = choose|k: int| 0 <= k < self.spec_arcs(p).len() && #[trigger] self.spec_arcs(p)[k].to == q
                && follows(mode, self.spec_arcs(p)[k].label);
            assert(self.arcs@[p as int]@[k].to < self.arcs@.len());
        }
        self.lemma_closure_least(mode, init, known);
    }

    /// A state lies in its own closure.
    proof fn lemma_closure_holds_start(&self, mode: ClosureMode, q: u32)
        ensures
            self.spec_closure(mode, set![q]).contains(q),
    {
        self.lemma_reach_start(mode, set![q], q);
    }

    /// Closures depend on the transitions only.
    proof fn lemma_same_arcs_same_closure(&self, other: &PhoneticNfa, mode: ClosureMode, init: Set<u32>)
        requires
            forall|q: u32| self.spec_arcs(q) == other.spec_arcs(q),
        ensures
            self.spec_closure(mode, init) == other.spec_closure(mode, init),
    {
        assert forall|path: Seq<u32>| self.is_path(mode, path) == other.is_path(mode, path) by {
            assert forall|i: int| self.path_step(mode, path, i) == other.path_step(mode, path, i) by {
                assert(self.spec_arcs(path[i]) == other.spec_arcs(path[i]));
            }
        }
        assert forall|q: u32| self.spec_reachable(mode, init, q) == other.spec_reachable(mode, init, q) by {
            if self.spec_reachable(mode, init, q) {
                let path = choose|path: Seq<u32>| #[trigger] self.is_path(mode, path) && init.contains(path[0]) && path.last() == q;
                assert(other.is_path(mode, path));
            }
            if other.spec_reachable(mode, init, q) {
                let path = choose|path: Seq<u32>| #[trigger] other.is_path(mode, path) && init.contains(path[0]) && path.last() == q;
                assert(self.is_path(mode, path));
            }
        }
        assert(self.spec_closure(mode, init) =~= other.spec_closure(mode, init));
    }
}

/// Make zero-width anchors explicit for full-string traversal: the initial
/// state gets an epsilon to every other state of its start-anchor closure
/// (start anchors hold only before the first character), and every state
/// that reaches an accepting state through epsilons and end anchors accepts
/// (end anchors hold only where a term ends).
pub fn normalize_full_string_anchors(input: PhoneticNfa) -> (r: PhoneticNfa)
    requires
        input.wf(),
    ensures
        r.wf(),
        r.spec_num_states() == input.spec_num_states(),
        r.spec_start() == input.spec_start(),
        forall|q: u32| q != input.spec_start() ==> r.spec_arcs(q) == input.spec_arcs(q),
        ({
            let s = input.spec_start();
            let base = input.spec_arcs(s);
            let added = r.spec_arcs(s).subrange(base.len() as int, r.spec_arcs(s).len() as int);
            &&& base.len() <= r.spec_arcs(s).len()
            &&& r.spec_arcs(s).subrange(0, base.len() as int) == base
            &&& forall|k: int| 0 <= k < added.len() ==> (#[trigger] added[k]).label == NfaLabel::Epsilon
            &&& strictly_increasing(arc_targets_seq(added))
            &&& arc_targets_seq(added).to_set() == input.spec_start_closure().remove(s)
        }),
        forall|q: u32| #[trigger] r.spec_is_final(q) <==> q < input.spec_num_states()
            && accepts_at_end(&r, |f: u32| input.spec_is_final(f), q),
{
    let ghost orig = input;
    let mut nfa = input;
    let start: u32 = nfa.start();
    let initial_closure: Vec<u32> = nfa.start_anchor_closure();
    let ghost base = orig.spec_arcs(start);
    let ghost mut added: Seq<NfaArc> = Seq::empty();
    let mut i: usize = 0;
    while i < initial_closure.len()
        invariant
            nfa.wf(),
            orig.wf(),
            start == orig.spec_start(),
            i <= initial_closure@.len(),
            strictly_increasing(initial_closure@),
            initial_closure@.to_set() == orig.spec_start_closure(),
            nfa.spec_num_states() == orig.spec_num_states(),
            nfa.spec_start() == start,
            forall|q: u32| nfa.spec_is_final(q) == orig.spec_is_final(q),
            forall|q: u32| q != start ==> nfa.spec_arcs(q) == orig.spec_arcs(q),
            base == orig.spec_arcs(start),
            nfa.spec_arcs(start) == base + added,
            forall|k: int| 0 <= k < added.len() ==> (#[trigger] added[k]).label == NfaLabel::Epsilon,
            strictly_increasing(arc_targets_seq(added)),
            forall|t: u32| arc_targets_seq(added).contains(t) <==> (initial_closure@.take(i as int).contains(t) && t != start),
        decreases initial_closure@.len() - i,
    {
        let state: u32 = initial_closure[i];
        proof {
            assert(orig.spec_start_closure().contains(state)) by {
                assert(initial_closure@.to_set().contains(state));
            }
            assert(initial_closure@.take(i + 1) =~= initial_closure@.take(i as int).push(state));
        }
        if state != start {
            proof {
                orig.lemma_closure_in_range(ClosureMode::Epsilon, set![start]);
                orig.lemma_closure_in_range(ClosureMode::StartAnchors,
                    orig.spec_closure(ClosureMode::Epsilon, set![start]));
            }
            let ghost prev_targets = arc_targets_seq(added);
            nfa.add_transition(start, NfaLabel::Epsilon, state);
            proof {
                let arc = NfaArc { label: NfaLabel::Epsilon, to: state };
                assert((base + added).push(arc) =~= base + added.push(arc));
                assert(arc_targets_seq(added.push(arc)) =~= prev_targets.push(state));
                assert forall|t: u32| prev_targets.contains(t) implies t < state by {
                    let k = choose|k: int| 0 <= k < prev_targets.len() && prev_targets[k] == t;
                    assert(initial_closure@.take(i as int).contains(t));
                    let j = choose|j: int| 0 <= j < i && initial_closure@.take(i as int)[j] == t;
                    assert(initial_closure@[j] < initial_closure@[i as int]);
                }
                assert forall|a: int, b: int| 0 <= a < b < prev_targets.push(state).len()
                    implies prev_targets.push(state)[a] < prev_targets.push(state)[b] by {
                    if b == prev_targets.len() {
                        assert(prev_targets.contains(prev_targets[a]));
                    }
                }
                lemma_push_contains(prev_targets, state, state);
                assert forall|t: u32| prev_targets.push(state).contains(t) <==>
                    (initial_closure@.take(i + 1).contains(t) && t != start) by {
                    lemma_push_contains(prev_targets, state, t);
                    lemma_push_contains(initial_closure@.take(i as int), state, t);
                }
                added = added.push(arc);
            }
        } else {
            proof {
                assert forall|t: u32| arc_targets_seq(added).contains(t) <==>
                    (initial_closure@.take(i + 1).contains(t) && t != start) by {
                    lemma_push_contains(initial_closure@.take(i as int), state, t);
                }
            }
        }
        i = i + 1;
    }
    proof {
        assert(initial_closure@.take(initial_closure@.len() as int) =~= initial_closure@);
        assert(arc_targets_seq(added).to_set() =~= orig.spec_start_closure().remove(start)) by {
            assert forall|t: u32| arc_targets_seq(added).to_set().contains(t) <==> orig.spec_start_closure().remove(start).contains(t) by {
                assert(initial_closure@.to_set().contains(t) <==> initial_closure@.contains(t));
            }
        }
        assert(nfa.spec_arcs(start).subrange(0, base.len() as int) =~= base);
        assert(nfa.spec_arcs(start).subrange(base.len() as int, nfa.spec_arcs(start).len() as int) =~= added);
    }
    let ghost mid = nfa;
    let ghost finals = |f: u32| orig.spec_is_final(f);
    let n: usize = nfa.num_states();
    let mut q: usize = 0;
    while q < n
        invariant
            nfa.wf(),
            mid.wf(),
            n == nfa.spec_num_states(),
            nfa.spec_num_states() == mid.spec_num_states(),
            nfa.spec_start() == mid.spec_start(),
            forall|p: u32| nfa.spec_arcs(p) == mid.spec_arcs(p),
            forall|p: u32| mid.spec_is_final(p) == orig.spec_is_final(p),
            finals == (|f: u32| orig.spec_is_final(f)),
            q <= n,
            forall|p: u32| p < q ==> (nfa.spec_is_final(p) <==> accepts_at_end(&mid, finals, p)),
            forall|p: u32| q <= p ==> nfa.spec_is_final(p) == orig.spec_is_final(p),
        decreases n - q,
    {
        let state: u32 = q as u32;
        let single: Vec<u32> = vec![state];
        let accepting: bool = nfa.state_set_can_reach_final_through_end_anchors(single.as_slice());
        proof {
            assert(single@.to_set() =~= set![state]) by {
                assert forall|x: u32| single@.to_set().contains(x) <==> x == state by {
                    if x == state {
                        assert(single@[0] == x);
                    }
                }
            }
            nfa.lemma_same_arcs_same_closure(&mid, ClosureMode::EndAnchors, set![state]);
            mid.lemma_closure_holds_start(ClosureMode::EndAnchors, state);
            let c = mid.spec_closure(ClosureMode::EndAnchors, set![state]);
            if accepting {
                let f = choose|f: u32| #[trigger] nfa.spec_closure(ClosureMode::EndAnchors, set![state]).contains(f) && nfa.spec_is_final(f);
                if f >= q {
                    assert(finals(f));
                } else {
                    assert(accepts_at_end(&mid, finals, f));
                    let g = choose|g: u32| #[trigger] finals(g) && mid.spec_closure(ClosureMode::EndAnchors, set![f]).contains(g);
                    mid.lemma_closure_transitive(ClosureMode::EndAnchors, state, f);
                    assert(c.contains(g));
                }
            } else {
                if accepts_at_end(&mid, finals, state) {
                    let g = choose|g: u32| #[trigger] finals(g) && c.contains(g);
                    if g >= q {
                        assert(nfa.spec_is_final(g));
                    } else {
                        mid.lemma_closure_holds_start(ClosureMode::EndAnchors, g);
                        assert(accepts_at_end(&mid, finals, g));
                        assert(nfa.spec_is_final(g));
                    }
                    assert(false);
                }
                assert(!finals(state));
            }
        }
        if accepting {
            nfa.set_final(state, true);
        }
        q = q + 1;
    }
    proof {
        assert forall|p: u32| #[trigger] nfa.spec_is_final(p) <==> p < orig.spec_num_states()
            && accepts_at_end(&nfa, |f: u32| orig.spec_is_final(f), p) by {
            nfa.lemma_same_arcs_same_closure(&mid, ClosureMode::EndAnchors, set![p]);
            assert(finals == (|f: u32| orig.spec_is_final(f)));
            if p >= n {
                assert(!nfa.spec_is_final(p));
            }
        }
    }
    nfa
}

impl PhoneticNfa {
    /// The start-anchor closure follows every epsilon and every start
    /// anchor, of a line or of the input: from a state of the closure of
    /// `init`, such a transition leads into the closure again.
    pub proof fn lemma_start_closure_follows_start_anchors(&self, init: Set<u32>, p: u32, k: int)
        requires
            self.spec_closure(ClosureMode::StartAnchors, init).contains(p),
            0 <= k < self.spec_arcs(p).len(),
            self.spec_arcs(p)[k].label is Epsilon || self.spec_arcs(p)[k].label is StartOfLine
                || self.spec_arcs(p)[k].label is StartOfInput,
        ensures
            self.spec_closure(ClosureMode::StartAnchors, init).contains(self.spec_arcs(p)[k].to),
    {
        let q = self.spec_arcs(p)[k].to;
        assert(self.spec_step(ClosureMode::StartAnchors, p, q));
        self.lemma_reach_step(ClosureMode::StartAnchors, init, p, q);
    }

    /// The end-anchor closure follows every epsilon and every end anchor, of
    /// a line or of the input.
    pub proof fn lemma_end_closure_follows_end_anchors(&self, init: Set<u32>, p: u32, k: int)
        requires
            self.spec_closure(ClosureMode::EndAnchors, init).contains(p),
            0 <= k < self.spec_arcs(p).len(),
            self.spec_arcs(p)[k].label is Epsilon || self.spec_arcs(p)[k].label is EndOfLine
                || self.spec_arcs(p)[k].label is EndOfInput || self.spec_arcs(p)[k].label is EndOfInputStrict,
        ensures
            self.spec_closure(ClosureMode::EndAnchors, init).contains(self.spec_arcs(p)[k].to),
    {
        let q = self.spec_arcs(p)[k].to;
        assert(self.spec_step(ClosureMode::EndAnchors, p, q));
        self.lemma_reach_step(ClosureMode::EndAnchors, init, p, q);
    }

    /// Closures never consume input: a step of a closure in any mode is an
    /// arc that reads no scalar, and an epsilon closure follows epsilons only.
    pub proof fn lemma_closure_steps_read_nothing(&self, mode: ClosureMode, p: u32, q: u32)
        requires
            self.spec_step(mode, p, q),
        ensures
            exists|k: int| 0 <= k < self.spec_arcs(p).len() && #[trigger] self.spec_arcs(p)[k].to == q
                && !self.spec_arcs(p)[k].label.spec_consumes_input()
                && (mode is Epsilon ==> self.spec_arcs(p)[k].label is Epsilon)
                && (mode is StartAnchors ==> (self.spec_arcs(p)[k].label is Epsilon
                    || self.spec_arcs(p)[k].label is StartOfLine || self.spec_arcs(p)[k].label is StartOfInput))
                && (mode is EndAnchors ==> (self.spec_arcs(p)[k].label is Epsilon
                    || self.spec_arcs(p)[k].label is EndOfLine || self.spec_arcs(p)[k].label is EndOfInput
                    || self.spec_arcs(p)[k].label is EndOfInputStrict)),
    {
        let k = choose|k: int| 0 <= k < self.spec_arcs(p).len() && #[trigger] self.spec_arcs(p)[k].to == q
            && follows(mode, self.spec_arcs(p)[k].label);
        assert(self.spec_arcs(p)[k].to == q);
    }
}

} // verus!
