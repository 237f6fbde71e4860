//! Exact fzf V2 scoring with a prefix-shared, branch-and-bound traversal hook.
use vstd::prelude::*;
use crate::fzf_support::{FzfColumn, FzfConfig, FzfCore, FzfError, max_i32};
use crate::text::chars_of;
use crate::fzf_bounds::lemma_prefix_bound_dominates_descendants;

verus! {

/// Work counters for incremental fzf scoring.
#[derive(Clone, Copy, Debug, PartialEq, Eq, Structural)]
pub struct FzfStats {
    /// DP columns constructed: one per visited dictionary edge.
    pub columns_computed: usize,
    /// Complete candidates scored.
    pub candidates_scored: usize,
    /// Total prefixes rejected by either resource or score bounds.
    pub prefixes_pruned: usize,
    /// Prefixes rejected because no completion can reach the kth exact score.
    pub score_bound_prefixes_pruned: usize,
    /// Prefixes rejected because they exceed the candidate-length limit.
    pub length_prefixes_pruned: usize,
    /// Capacity-sensitive score bounds evaluated after the length check.
    pub upper_bounds_computed: usize,
}

impl FzfStats {
    /// All counters zero.
    pub open spec fn zero() -> FzfStats {
        FzfStats {
            columns_computed: 0,
            candidates_scored: 0,
            prefixes_pruned: 0,
            score_bound_prefixes_pruned: 0,
            length_prefixes_pruned: 0,
            upper_bounds_computed: 0,
        }
    }
}

impl Default for FzfStats {
    fn default() -> (r: Self)
        ensures
            r == FzfStats::zero(),
    {
        FzfStats {
            columns_computed: 0,
            candidates_scored: 0,
            prefixes_pruned: 0,
            score_bound_prefixes_pruned: 0,
            length_prefixes_pruned: 0,
            upper_bounds_computed: 0,
        }
    }
}

/// A counter after one more event; it stops at `usize::MAX`.
pub open spec fn bumped(x: usize) -> usize {
    if x < usize::MAX { (x + 1) as usize } else { x }
}

/// The counters after entering a prefix at `depth`: one more column, then
/// either a length rejection past `max_chars`, or one more bound evaluation
/// and, when the prefix does not survive, one more score-bound rejection.
pub open spec fn stats_after_enter(st: FzfStats, depth: usize, max_chars: usize, survives: bool) -> FzfStats {
    let st1 = FzfStats { columns_computed: bumped(st.columns_computed), ..st };
    if depth > max_chars {
        FzfStats {
            length_prefixes_pruned: bumped(st1.length_prefixes_pruned),
            prefixes_pruned: bumped(st1.prefixes_pruned),
            ..st1
        }
    } else if survives {
        FzfStats { upper_bounds_computed: bumped(st1.upper_bounds_computed), ..st1 }
    } else {
        FzfStats {
            upper_bounds_computed: bumped(st1.upper_bounds_computed),
            score_bound_prefixes_pruned: bumped(st1.score_bound_prefixes_pruned),
            prefixes_pruned: bumped(st1.prefixes_pruned),
            ..st1
        }
    }
}

/// One counted call of a traversal: a prefix entered at `depth`, surviving
/// or pruned, or a candidate accepted with a score.
pub enum TraversalStep {
    /// `enter(_, depth)` returned `survives`.
    Entered { depth: usize, survives: bool },
    /// `accept()` returned a score.
    Scored,
}

/// The counters after `steps`, from zero.
pub open spec fn stats_after_steps(steps: Seq<TraversalStep>, max_chars: usize) -> FzfStats
    decreases steps.len(),
{
    if steps.len() == 0 {
        FzfStats::zero()
    } else {
        let st = stats_after_steps(steps.drop_last(), max_chars);
        match steps.last() {
            TraversalStep::Entered { depth, survives } => stats_after_enter(st, depth, max_chars, survives),
            TraversalStep::Scored => FzfStats { candidates_scored: bumped(st.candidates_scored), ..st },
        }
    }
}

/// How many of `steps` entered a prefix.
pub open spec fn entered_count(steps: Seq<TraversalStep>) -> nat
    decreases steps.len(),
{
    if steps.len() == 0 {
        0
    } else {
        entered_count(steps.drop_last()) + (if steps.last() is Entered { 1nat } else { 0nat })
    }
}

/// How many of `steps` accepted a scored candidate.
pub open spec fn scored_count(steps: Seq<TraversalStep>) -> nat
    decreases steps.len(),
{
    if steps.len() == 0 {
        0
    } else {
        scored_count(steps.drop_last()) + (if steps.last() is Scored { 1nat } else { 0nat })
    }
}

/// Over any sequence of fewer than `usize::MAX` entries and acceptances
/// since the counters were zero: every pruned prefix was pruned by the score
/// bound or by the length limit; every entered prefix computed one column,
/// and either had its bound evaluated or was pruned by length; and one
/// candidate was scored per acceptance.
pub proof fn lemma_stats_follow_steps(steps: Seq<TraversalStep>, max_chars: usize)
    requires
        steps.len() < usize::MAX,
    ensures
        stats_after_steps(steps, max_chars).prefixes_pruned == stats_after_steps(steps, max_chars).score_bound_prefixes_pruned
            + stats_after_steps(steps, max_chars).length_prefixes_pruned,
        stats_after_steps(steps, max_chars).columns_computed == stats_after_steps(steps, max_chars).upper_bounds_computed
            + stats_after_steps(steps, max_chars).length_prefixes_pruned,
        stats_after_steps(steps, max_chars).columns_computed == entered_count(steps),
        stats_after_steps(steps, max_chars).candidates_scored == scored_count(steps),
        stats_after_steps(steps, max_chars).score_bound_prefixes_pruned
            <= stats_after_steps(steps, max_chars).upper_bounds_computed,
        entered_count(steps) + scored_count(steps) == steps.len(),
    decreases steps.len(),
{
    if steps.len() > 0 {
        lemma_stats_follow_steps(steps.drop_last(), max_chars);
    }
}

/// `top` keeps the `k` greatest of the observed scores `obs`: all of them
/// while fewer than `k` were observed, otherwise `k` of them, and no score
/// left out exceeds a score kept.
pub open spec fn keeps_greatest(top: Seq<i32>, obs: Seq<i32>, k: usize) -> bool {
    &&& top.len() == (if obs.len() < k { obs.len() } else { k as nat })
    &&& (top.len() < k ==> top.to_multiset() == obs.to_multiset())
    &&& forall|v: i32| #[trigger] top.to_multiset().count(v) <= obs.to_multiset().count(v)
    &&& forall|x: i32, y: i32| #[trigger] top.to_multiset().count(x) > 0
            && top.to_multiset().count(y) < #[trigger] obs.to_multiset().count(y) ==> y <= x
}

/// Nothing observed, nothing kept.
pub proof fn lemma_keeps_greatest_empty(k: usize)
    ensures
        keeps_greatest(Seq::empty(), Seq::empty(), k),
{
    broadcast use vstd::multiset::group_multiset_axioms;
    Seq::<i32>::empty().to_multiset_ensures();
}

/// Observing a score keeps the `k` greatest: the retained scores after
/// `observed` are the `k` greatest of the scores seen, this one included.
pub proof fn lemma_observed_keeps_greatest(top: Seq<i32>, obs: Seq<i32>, k: usize, score: i32, result: Seq<i32>)
    requires
        keeps_greatest(top, obs, k),
        FzfScorer::observed(top, k, score, result),
    ensures
        keeps_greatest(result, obs.push(score), k),
{
    broadcast use vstd::multiset::group_multiset_axioms;
    broadcast use vstd::seq_lib::to_multiset_update;
    top.to_multiset_ensures();
    obs.to_multiset_ensures();
    let mo = obs.to_multiset();
    let mt = top.to_multiset();
    let mo2 = obs.push(score).to_multiset();
    assert(mo2 =~= mo.insert(score));
    if k == 0 {
        assert(top =~= Seq::<i32>::empty());
        assert(mt =~= vstd::multiset::Multiset::<i32>::empty());
    } else if top.len() < k {
        result.to_multiset_ensures();
        assert(result.to_multiset() =~= mt.insert(score));
        assert(mt.len() == mo.len());
    } else if score > seq_min(top) {
        lemma_seq_min(top);
        let m = seq_min(top);
        let i = choose|i: int| 0 <= i < top.len() && top[i] == m && result == top.update(i, score);
        let mr = result.to_multiset();
        assert(mr == mt.insert(score).remove(m));
        assert(mt.count(m) > 0);
        assert forall|x: i32| #[trigger] mt.count(x) > 0 implies m <= x by {
            assert(top.contains(x));
            let j = choose|j: int| 0 <= j < top.len() && top[j] == x;
        }
        assert forall|x: i32, y: i32| #[trigger] mr.count(x) > 0 && mr.count(y) < #[trigger] mo2.count(y) implies y <= x by {
            if y != m {
                assert(mt.count(y) < mo.count(y));
                if x != score {
                    assert(mt.count(x) > 0);
                }
            } else if x != score {
                assert(mt.count(x) > 0);
            }
        }
        result.to_multiset_ensures();
    } else {
        lemma_seq_min(top);
        let m = seq_min(top);
        assert forall|x: i32| #[trigger] mt.count(x) > 0 implies m <= x by {
            assert(top.contains(x));
            let j = choose|j: int| 0 <= j < top.len() && top[j] == x;
        }
        assert forall|x: i32, y: i32| #[trigger] mt.count(x) > 0 && mt.count(y) < #[trigger] mo2.count(y) implies y <= x by {
            if y != score {
                assert(mt.count(y) < mo.count(y));
            }
        }
    }
}

/// With `k` scores kept, the cutoff, their least, is the `k`-th greatest
/// observed score: every kept score is at least it, and every observed score
/// left out is at most it.
pub proof fn lemma_cutoff_is_kth_greatest(top: Seq<i32>, obs: Seq<i32>, k: usize)
    requires
        keeps_greatest(top, obs, k),
        k > 0,
        top.len() == k,
    ensures
        forall|i: int| 0 <= i < top.len() ==> seq_min(top) <= #[trigger] top[i],
        top.contains(seq_min(top)),
        forall|y: i32| #[trigger] obs.to_multiset().count(y) > top.to_multiset().count(y) ==> y <= seq_min(top),
{
    lemma_seq_min(top);
    top.to_multiset_ensures();
    assert(top.to_multiset().count(seq_min(top)) > 0);
}

/// An exact `FuzzyMatchV2` score; higher is better.
#[derive(Clone, Copy, Debug, PartialEq, Eq, PartialOrd, Ord, Hash, Structural)]
pub struct FzfMatch {
    /// Higher is better.
    pub score: i32,
}

/// The least element of a nonempty sequence of scores.
pub open spec fn seq_min(s: Seq<i32>) -> i32
    decreases s.len(),
{
    if s.len() <= 1 {
        s[0]
    } else {
        let rest = seq_min(s.drop_last());
        if s.last() < rest { s.last() } else { rest }
    }
}

/// `seq_min` is an element of the sequence and no element is smaller.
pub proof fn lemma_seq_min(s: Seq<i32>)
    requires
        s.len() > 0,
    ensures
        s.contains(seq_min(s)),
        forall|i: int| 0 <= i < s.len() ==> seq_min(s) <= #[trigger] s[i],
    decreases s.len(),
{
    if s.len() > 1 {
        lemma_seq_min(s.drop_last());
        assert(forall|i: int| 0 <= i < s.len() - 1 ==> s.drop_last()[i] == s[i]);
        if s.last() < seq_min(s.drop_last()) {
            assert(s[s.len() - 1] == s.last());
        } else {
            let j = choose|j: int| 0 <= j < s.drop_last().len() && s.drop_last()[j] == seq_min(s.drop_last());
            assert(s[j] == seq_min(s));
        }
    } else {
        assert(s[0] == seq_min(s));
    }
}

/// Incremental fzf scorer and balanced prefix visitor.
///
/// The scorer keeps one DP column per active depth of a depth-first traversal:
/// `enter` pushes the column of the extended prefix and `leave` pops it.
/// `top_k == 0` computes scores without maintaining an internal threshold.
#[derive(Clone)]
pub struct FzfScorer {
    core: FzfCore,
    columns: Vec<FzfColumn>,
    top_scores: Vec<i32>,
    stats: FzfStats,
    prefix: Ghost<Seq<char>>,
    observed: Ghost<Seq<i32>>,
    steps: Ghost<Seq<TraversalStep>>,
}

impl FzfScorer {
    /// The scoring core.
    pub closed spec fn spec_core(self) -> FzfCore { self.core }

    /// The candidate prefix the traversal currently stands on.
    pub closed spec fn spec_prefix(self) -> Seq<char> { self.prefix@ }

    /// The exact scores retained for the top-k threshold.
    pub closed spec fn spec_top_scores(self) -> Seq<i32> { self.top_scores@ }

    /// The work counters.
    pub closed spec fn spec_stats(self) -> FzfStats { self.stats }

    /// The scores observed since construction or the last reset, in order.
    pub closed spec fn spec_observed(self) -> Seq<i32> { self.observed@ }

    /// The counted calls since construction or the last reset, in order.
    pub closed spec fn spec_steps(self) -> Seq<TraversalStep> { self.steps@ }

    /// The column of the current prefix.
    pub closed spec fn spec_current_column(self) -> crate::fzf_support::FzfColumnModel {
        self.columns@.last()@
    }

    /// Internal consistency: one column per prefix of the current prefix, and
    /// at most `top_k` retained scores.
    pub closed spec fn wf(self) -> bool {
        &&& self.core.wf()
        &&& self.columns@.len() == self.prefix@.len() + 1
        &&& forall|i: int| 0 <= i < self.columns@.len() ==>
                #[trigger] self.columns@[i]@ == self.core.spec_column_after(self.prefix@.take(i))
        &&& forall|i: int| 0 <= i < self.columns@.len() ==>
                (#[trigger] self.columns@[i])@.cells.len() == self.core.spec_query().len()
        &&& self.top_scores@.len() <= self.core.spec_config().top_k
        &&& keeps_greatest(self.top_scores@, self.observed@, self.core.spec_config().top_k)
        &&& self.stats == stats_after_steps(self.steps@, self.core.spec_config().max_candidate_chars)
    }

    /// The traversal stands on a prefix: the current column is that prefix's
    /// column, over a well-formed core.
    pub open spec fn on_prefix(self) -> bool {
        &&& self.spec_core().wf()
        &&& self.spec_current_column() == self.spec_core().spec_column_after(self.spec_prefix())
    }

    /// A well-formed scorer stands on its prefix.
    pub proof fn lemma_on_prefix(self)
        requires
            self.wf(),
        ensures
            self.on_prefix(),
    {
        assert(self.prefix@.take(self.prefix@.len() as int) =~= self.prefix@);
    }

    /// The `top_k` threshold: the least retained score once `top_k` scores are retained.
    pub open spec fn spec_cutoff(self) -> Option<i32> {
        let k = self.spec_core().spec_config().top_k;
        if k > 0 && self.spec_top_scores().len() == k {
            Some(seq_min(self.spec_top_scores()))
        } else {
            None
        }
    }

    /// The retained scores after observing `score`: unchanged without top-k,
    /// appended while fewer than `top_k` are kept, otherwise `score` replaces
    /// one least retained score when it is greater.
    pub open spec fn observed(top: Seq<i32>, k: usize, score: i32, result: Seq<i32>) -> bool {
        if k == 0 {
            result == top
        } else if top.len() < k {
            result == top.push(score)
        } else if score > seq_min(top) {
            exists|i: int| 0 <= i < top.len() && top[i] == seq_min(top) && result == top.update(i, score)
        } else {
            result == top
        }
    }

    fn from_core(core: FzfCore) -> (r: Self)
        requires
            core.wf(),
        ensures
            r.wf(),
            r.spec_core() == core,
            r.spec_prefix() == Seq::<char>::empty(),
            r.spec_top_scores() == Seq::<i32>::empty(),
            r.spec_stats() == FzfStats::zero(),
            r.spec_observed() == Seq::<i32>::empty(),
            r.spec_steps() == Seq::<TraversalStep>::empty(),
    {
        let mut columns: Vec<FzfColumn> = Vec::new();
        columns.push(core.initial_column());
        let r = FzfScorer {
            core,
            columns,
            top_scores: Vec::new(),
            stats: FzfStats::default(),
            prefix: Ghost(Seq::empty()),
            observed: Ghost(Seq::empty()),
            steps: Ghost(Seq::empty()),
        };
        proof {
            lemma_keeps_greatest_empty(core.spec_config().top_k);
        }
        assert(Seq::<char>::empty().take(0) == Seq::<char>::empty());
        r
    }

    /// Create a case-insensitive default-scheme scorer.
    pub fn new(query: &str) -> (r: Result<Self, FzfError>)
        ensures
            ({
                let q = query@.map_values(|c: char| crate::fzf_support::spec_comparable_char(c, false));
                match r {
                    Ok(s) => {
                        &&& s.wf()
                        &&& q.len() <= 1000
                        &&& s.spec_core().spec_query() == q
                        &&& s.spec_core().spec_config() == FzfConfig::spec_default()
                        &&& s.on_prefix()
                        &&& s.spec_current_column() == s.spec_core().spec_initial_column()
                        &&& s.spec_prefix() == Seq::<char>::empty()
                        &&& s.spec_top_scores() == Seq::<i32>::empty()
                        &&& s.spec_stats() == FzfStats::zero()
                    },
                    Err(e) => q.len() > 1000 && e == FzfError::QueryTooLong { actual: q.len() as usize, maximum: 1000 },
                }
            }),
    {
        Self::with_config(query, FzfConfig::default())
    }

    /// Create a scorer with explicit matching and resource limits.
    pub fn with_config(query: &str, config: FzfConfig) -> (r: Result<Self, FzfError>)
        ensures
            ({
                let q = query@.map_values(|c: char| crate::fzf_support::spec_comparable_char(c, config.case_sensitive));
                match r {
                    Ok(s) => {
                        &&& s.wf()
                        &&& q.len() <= config.max_query_chars
                        &&& s.spec_core().spec_query() == q
                        &&& s.spec_core().spec_config() == config
                        &&& s.on_prefix()
                        &&& s.spec_current_column() == s.spec_core().spec_initial_column()
                        &&& s.spec_prefix() == Seq::<char>::empty()
                        &&& s.spec_top_scores() == Seq::<i32>::empty()
                        &&& s.spec_stats() == FzfStats::zero()
                    },
                    Err(e) => q.len() > config.max_query_chars
                        && e == FzfError::QueryTooLong { actual: q.len() as usize, maximum: config.max_query_chars },
                }
            }),
    {
        match FzfCore::new(query, config) {
            Ok(core) => {
                let r = Self::from_core(core);
                proof {
                    r.lemma_on_prefix();
                }
                Ok(r)
            },
            Err(e) => Err(e),
        }
    }

    /// Score one candidate independently of the traversal.
    pub fn score(&self, candidate: &str) -> (r: Result<Option<FzfMatch>, FzfError>)
        ensures
            r == (match self.spec_core().spec_score(candidate@) {
                Ok(Some(s)) => Ok(Some(FzfMatch { score: s })),
                Ok(None) => Ok(None),
                Err(e) => Err(e),
            }),
    {
        let chars: Vec<char> = chars_of(candidate);
        match self.core.score_chars(chars.as_slice()) {
            Ok(Some(s)) => Ok(Some(FzfMatch { score: s })),
            Ok(None) => Ok(None),
            Err(e) => Err(e),
        }
    }

    /// The comparable query scalars a subsequence walker should look for.
    pub fn query_units(&self) -> (r: Vec<char>)
        ensures
            r@ == self.spec_core().spec_query(),
    {
        vstd::slice::slice_to_vec(self.core.query())
    }

    /// Current kth score, once `top_k` exact candidates have been seen.
    pub fn cutoff(&self) -> (r: Option<i32>)
        ensures
            r == self.spec_cutoff(),
    {
        let top_k: usize = self.core.config().top_k;
        if top_k > 0 && self.top_scores.len() == top_k {
            Some(self.top_scores[self.min_index()])
        } else {
            None
        }
    }

    fn min_index(&self) -> (r: usize)
        requires
            self.top_scores@.len() > 0,
        ensures
            r < self.spec_top_scores().len(),
            self.spec_top_scores()[r as int] == seq_min(self.spec_top_scores()),
    {
        let n: usize = self.top_scores.len();
        let mut best: usize = 0;
        let mut i: usize = 1;
        while i < n
            invariant
                n == self.top_scores@.len(),
                1 <= i <= n,
                best < i,
                self.top_scores@[best as int] == seq_min(self.top_scores@.take(i as int)),
            decreases n - i,
        {
            assert(self.top_scores@.take(i + 1).drop_last() == self.top_scores@.take(i as int));
            if self.top_scores[i] < self.top_scores[best] {
                best = i;
            }
            i = i + 1;
        }
        assert(self.top_scores@.take(n as int) == self.top_scores@);
        best
    }

    /// Sound upper bound for every accepted descendant of the current prefix.
    /// `None` means that the candidate budget cannot contain a completion.
    pub fn current_upper_bound(&self) -> (r: Option<i32>)
        requires
            self.wf(),
        ensures
            r == self.spec_core().spec_upper_bound(self.spec_current_column()),
    {
        let last: usize = self.columns.len() - 1;
        self.core.upper_bound(&self.columns[last])
    }

    /// Maximum score any candidate can attain for this query and scheme.
    pub fn maximum_score(&self) -> (r: i32)
        requires
            self.wf(),
        ensures
            r == self.spec_core().spec_maximum_score(),
    {
        self.core.maximum_score()
    }

    /// Snapshot of the work counters.
    pub fn stats(&self) -> (r: FzfStats)
        ensures
            r == self.spec_stats(),
    {
        self.stats
    }

    /// Clear accumulated top-k scores and counters while retaining the query
    /// and the traversal position.
    pub fn reset_observations(&mut self)
        requires
            old(self).wf(),
        ensures
            final(self).wf(),
            final(self).spec_top_scores() == Seq::<i32>::empty(),
            final(self).spec_stats() == FzfStats::zero(),
            final(self).spec_core() == old(self).spec_core(),
            final(self).spec_prefix() == old(self).spec_prefix(),
            final(self).spec_current_column() == old(self).spec_current_column(),
            final(self).spec_observed() == Seq::<i32>::empty(),
            final(self).spec_steps() == Seq::<TraversalStep>::empty(),
    {
        self.top_scores.clear();
        self.stats = FzfStats::default();
        self.observed = Ghost(Seq::empty());
        self.steps = Ghost(Seq::empty());
        proof {
            lemma_keeps_greatest_empty(self.core.spec_config().top_k);
        }
    }

    /// Record one exact score for the top-k threshold.
    pub fn observe_score(&mut self, score: i32)
        requires
            old(self).wf(),
        ensures
            final(self).wf(),
            Self::observed(old(self).spec_top_scores(), old(self).spec_core().spec_config().top_k, score,
                final(self).spec_top_scores()),
            final(self).spec_core() == old(self).spec_core(),
            final(self).spec_prefix() == old(self).spec_prefix(),
            final(self).spec_stats() == old(self).spec_stats(),
            final(self).spec_current_column() == old(self).spec_current_column(),
            final(self).spec_observed() == old(self).spec_observed().push(score),
            final(self).spec_steps() == old(self).spec_steps(),
    {
        let ghost top0 = self.top_scores@;
        let ghost obs0 = self.observed@;
        let top_k: usize = self.core.config().top_k;
        if top_k == 0 {
        } else if self.top_scores.len() < top_k {
            self.top_scores.push(score);
        } else {
            let i: usize = self.min_index();
            if score > self.top_scores[i] {
                self.top_scores.set(i, score);
            }
        }
        self.observed = Ghost(obs0.push(score));
        proof {
            assert(Self::observed(top0, top_k, score, self.top_scores@));
            lemma_observed_keeps_greatest(top0, obs0, top_k, score, self.top_scores@);
        }
    }

    /// Extend the current prefix by `unit` at `depth` and report whether any
    /// descendant can still be accepted: false past the candidate limit, or
    /// when the prefix bound cannot reach the top-k cutoff.
    pub fn enter(&mut self, unit: char, depth: usize) -> (r: bool)
        requires
            old(self).wf(),
            depth == old(self).spec_prefix().len() + 1,
        ensures
            final(self).wf(),
            final(self).spec_prefix() == old(self).spec_prefix().push(unit),
            final(self).spec_core() == old(self).spec_core(),
            final(self).spec_top_scores() == old(self).spec_top_scores(),
            final(self).on_prefix(),
            final(self).spec_stats() == stats_after_enter(old(self).spec_stats(), depth,
                old(self).spec_core().spec_config().max_candidate_chars, r),
            final(self).spec_steps() == old(self).spec_steps().push(TraversalStep::Entered { depth, survives: r }),
            final(self).spec_observed() == old(self).spec_observed(),
            r == (depth <= old(self).spec_core().spec_config().max_candidate_chars
                && match (final(self).spec_core().spec_upper_bound(final(self).spec_current_column()), old(self).spec_cutoff()) {
                    (None, _) => false,
                    (Some(_), None) => true,
                    (Some(upper), Some(threshold)) => upper >= threshold,
                }),
    {
        let last: usize = self.columns.len() - 1;
        let next: FzfColumn = self.core.advance(&self.columns[last], unit);
        self.columns.push(next);
        self.prefix = Ghost(self.prefix@.push(unit));
        proof {
            let p = self.prefix@;
            assert(p.take(p.len() as int).drop_last() == p.take(p.len() - 1));
            assert forall|i: int| 0 <= i < self.columns@.len() - 1 implies
                #[trigger] p.take(i) == old(self).prefix@.take(i) by {
                assert(p.take(i) =~= old(self).prefix@.take(i));
            }
            assert(p.take(p.len() as int) == p);
        }
        proof {
            self.lemma_on_prefix();
        }
        let too_long: bool = depth > self.core.config().max_candidate_chars;
        let survives: bool = if too_long {
            false
        } else {
            let bound: Option<i32> = self.current_upper_bound();
            match (bound, self.cutoff()) {
                (None, _) => false,
                (Some(_), None) => true,
                (Some(upper), Some(threshold)) => upper >= threshold,
            }
        };
        let ghost steps0 = self.steps@;
        self.stats.columns_computed = self.stats.columns_computed.saturating_add(1);
        if too_long {
            self.stats.length_prefixes_pruned = self.stats.length_prefixes_pruned.saturating_add(1);
            self.stats.prefixes_pruned = self.stats.prefixes_pruned.saturating_add(1);
        } else {
            self.stats.upper_bounds_computed = self.stats.upper_bounds_computed.saturating_add(1);
            if !survives {
                self.stats.score_bound_prefixes_pruned = self.stats.score_bound_prefixes_pruned.saturating_add(1);
                self.stats.prefixes_pruned = self.stats.prefixes_pruned.saturating_add(1);
            }
        }
        self.steps = Ghost(steps0.push(TraversalStep::Entered { depth, survives }));
        proof {
            assert(self.steps@.drop_last() =~= steps0);
        }
        survives
    }

    /// Drop the last character of the current prefix.
    pub fn leave(&mut self)
        requires
            old(self).wf(),
            old(self).spec_prefix().len() > 0,
        ensures
            final(self).wf(),
            final(self).spec_prefix() == old(self).spec_prefix().drop_last(),
            final(self).spec_core() == old(self).spec_core(),
            final(self).spec_top_scores() == old(self).spec_top_scores(),
            final(self).spec_stats() == old(self).spec_stats(),
            final(self).spec_steps() == old(self).spec_steps(),
            final(self).spec_observed() == old(self).spec_observed(),
            final(self).on_prefix(),
            final(self).spec_current_column()
                == old(self).spec_core().spec_column_after(old(self).spec_prefix().drop_last()),
    {
        let _ = self.columns.pop();
        self.prefix = Ghost(self.prefix@.drop_last());
        proof {
            assert forall|i: int| 0 <= i < self.columns@.len() implies
                #[trigger] self.prefix@.take(i) == old(self).prefix@.take(i) by {
                assert(self.prefix@.take(i) =~= old(self).prefix@.take(i));
            }
            self.lemma_on_prefix();
        }
    }

    /// Whether the current prefix itself completes an alignment of the query.
    pub fn permits_accept(&self) -> (r: bool)
        requires
            self.wf(),
        ensures
            r == (self.spec_current_column().best_full_score is Some),
    {
        let last: usize = self.columns.len() - 1;
        self.columns[last].best_full_score().is_some()
    }

    /// Accept the current prefix as a candidate: its exact score, recorded for
    /// the top-k threshold, or `None` when it does not contain the query.
    pub fn accept(&mut self) -> (r: Option<i32>)
        requires
            old(self).wf(),
        ensures
            final(self).wf(),
            r == old(self).spec_current_column().best_full_score,
            r == old(self).spec_core().spec_column_after(old(self).spec_prefix()).best_full_score,
            final(self).on_prefix(),
            final(self).spec_stats() == (if r is Some {
                FzfStats { candidates_scored: bumped(old(self).spec_stats().candidates_scored), ..old(self).spec_stats() }
            } else {
                old(self).spec_stats()
            }),
            final(self).spec_prefix() == old(self).spec_prefix(),
            final(self).spec_core() == old(self).spec_core(),
            match r {
                Some(s) => Self::observed(old(self).spec_top_scores(), old(self).spec_core().spec_config().top_k, s,
                    final(self).spec_top_scores()),
                None => final(self).spec_top_scores() == old(self).spec_top_scores(),
            },
            match r {
                Some(s) => {
                    &&& final(self).spec_observed() == old(self).spec_observed().push(s)
                    &&& final(self).spec_steps() == old(self).spec_steps().push(TraversalStep::Scored)
                },
                None => {
                    &&& final(self).spec_observed() == old(self).spec_observed()
                    &&& final(self).spec_steps() == old(self).spec_steps()
                },
            },
    {
        proof {
            self.lemma_on_prefix();
        }
        let last: usize = self.columns.len() - 1;
        let score: i32 = match self.columns[last].best_full_score() {
            Some(s) => s,
            None => return None,
        };
        let ghost steps0 = self.steps@;
        self.stats.candidates_scored = self.stats.candidates_scored.saturating_add(1);
        self.steps = Ghost(steps0.push(TraversalStep::Scored));
        proof {
            assert(self.steps@.drop_last() =~= steps0);
        }
        self.observe_score(score);
        proof {
            self.lemma_on_prefix();
        }
        Some(score)
    }
}

/// The `top_k` cutoff over the whole history: with no top-k or fewer than
/// `top_k` scores observed since construction or the last reset there is
/// none; otherwise it is the `top_k`-th greatest observed score: the least of
/// `top_k` observed scores kept, with every observed score left out at most it.
pub proof fn lemma_cutoff_over_history(s: FzfScorer)
    requires
        s.wf(),
    ensures
        ({
            let k = s.spec_core().spec_config().top_k;
            let obs = s.spec_observed();
            let top = s.spec_top_scores();
            &&& (k == 0 || obs.len() < k) <==> s.spec_cutoff() is None
            &&& s.spec_cutoff() matches Some(x) ==> {
                    &&& top.len() == k
                    &&& top.contains(x)
                    &&& forall|i: int| 0 <= i < top.len() ==> x <= #[trigger] top[i]
                    &&& forall|v: i32| #[trigger] top.to_multiset().count(v) <= obs.to_multiset().count(v)
                    &&& forall|y: i32| #[trigger] obs.to_multiset().count(y) > top.to_multiset().count(y) ==> y <= x
                }
        }),
{
    let k = s.spec_core().spec_config().top_k;
    if k > 0 && s.spec_top_scores().len() == k {
        lemma_cutoff_is_kth_greatest(s.spec_top_scores(), s.spec_observed(), k);
    }
}

/// The work counters over the whole history: after fewer than `usize::MAX`
/// entries and acceptances since construction or the last reset, every
/// pruned prefix was pruned by the score bound or by length, every entered
/// prefix computed one column and had its bound evaluated unless pruned by
/// length, and one candidate was scored per acceptance that returned a score.
pub proof fn lemma_stats_over_history(s: FzfScorer)
    requires
        s.wf(),
        s.spec_steps().len() < usize::MAX,
    ensures
        s.spec_stats().prefixes_pruned == s.spec_stats().score_bound_prefixes_pruned
            + s.spec_stats().length_prefixes_pruned,
        s.spec_stats().columns_computed == s.spec_stats().upper_bounds_computed
            + s.spec_stats().length_prefixes_pruned,
        s.spec_stats().columns_computed == entered_count(s.spec_steps()),
        s.spec_stats().candidates_scored == scored_count(s.spec_steps()),
{
    lemma_stats_follow_steps(s.spec_steps(), s.spec_core().spec_config().max_candidate_chars);
}

/// Branch-and-bound soundness of the traversal: once the scorer stands on a
/// prefix, no candidate extending it within the candidate limit scores above
/// the scorer's current upper bound.
pub proof fn lemma_current_bound_dominates(s: FzfScorer, suffix: Seq<char>)
    requires
        s.on_prefix(),
        s.spec_prefix().len() + suffix.len() <= s.spec_core().spec_config().max_candidate_chars,
        s.spec_core().spec_score(s.spec_prefix() + suffix) matches Ok(Some(_)),
    ensures
        s.spec_core().spec_upper_bound(s.spec_current_column()) is Some,
        s.spec_core().spec_score(s.spec_prefix() + suffix)->Ok_0->0
            <= s.spec_core().spec_upper_bound(s.spec_current_column())->0,
{
    lemma_prefix_bound_dominates_descendants(s.spec_core(), s.spec_prefix(), suffix);
}

/// Observing a score never lowers the top-k cutoff.
pub proof fn lemma_cutoff_never_decreases(top: Seq<i32>, k: usize, score: i32, result: Seq<i32>)
    requires
        FzfScorer::observed(top, k, score, result),
        k > 0,
        top.len() == k,
    ensures
        result.len() == k,
        seq_min(top) <= seq_min(result),
{
    lemma_seq_min(top);
    if score > seq_min(top) {
        let i = choose|i: int| 0 <= i < top.len() && top[i] == seq_min(top) && result == top.update(i, score);
        lemma_seq_min(result);
        let j = choose|j: int| 0 <= j < result.len() && result[j] == seq_min(result);
        if j != i {
            assert(result[j] == top[j]);
        }
    }
}

} // verus!
