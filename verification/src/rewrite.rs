//! Rule-based phonetic rewrite transducer: unconditional `input -> output`
//! rules spelled out as chains of single-scalar transitions.
//!
//! State 0 is the home state; every rule whose input or output has more than
//! one scalar owns a run of continuation states, numbered consecutively after
//! those of the rules before it. Rule costs are carried by their cost keys:
//! the bit pattern of a finite non-negative `f64` cost (negative zero written
//! as zero), which orders exactly as the costs do; key 0 is the free cost.
use vstd::prelude::*;
use crate::small_labels::{RuleLabel, label_units, label_from_str, label_len, label_get};
use crate::fx_map::{fx_get, fx_insert, fx_map_with_capacity};
use rustc_hash::FxHashMap;

verus! {

/// Largest key of a finite non-negative cost: the bit pattern of `f64::MAX`.
pub const MAX_FINITE_COST_KEY: u64 = 0x7fef_ffff_ffff_ffff;

/// Transition lists at least this long are pruned through a hash index.
pub const HASH_PRUNE_THRESHOLD: usize = 16;

/// A phonetic rewrite rule.
#[derive(Clone, Debug)]
pub struct RewriteRule {
    /// Input pattern (characters to match)
    pub input: String,
    /// Output pattern (replacement characters)
    pub output: String,
    /// Key of the cost of applying this rule
    pub cost_key: u64,
    /// Priority (higher = applied first when multiple rules match)
    pub priority: i32,
}

/// A rejected cost key: not the key of a finite non-negative cost.
#[derive(Clone, Copy, Debug, PartialEq, Eq, Structural)]
pub struct InvalidCostKey {
    /// The rejected key.
    pub cost_key: u64,
}

/// Whether `key` is the key of a finite non-negative cost.
pub open spec fn valid_cost_key(key: u64) -> bool {
    key <= MAX_FINITE_COST_KEY
}

impl RewriteRule {
    /// A free, priority-0 rule.
    pub fn new(input: &str, output: &str) -> (r: Self)
        ensures
            r.input@ == input@,
            r.output@ == output@,
            r.cost_key == 0,
            r.priority == 0,
    {
        RewriteRule { input: input.to_owned(), output: output.to_owned(), cost_key: 0, priority: 0 }
    }

    /// A priority-0 rule with the cost whose key is `cost_key`, when that is
    /// the key of a finite non-negative cost.
    pub fn with_cost_key(input: &str, output: &str, cost_key: u64) -> (r: Result<Self, InvalidCostKey>)
        ensures
            valid_cost_key(cost_key) <==> r is Ok,
            match r {
                Ok(rule) => rule.input@ == input@ && rule.output@ == output@
                    && rule.cost_key == cost_key && rule.priority == 0,
                Err(e) => e.cost_key == cost_key,
            },
    {
        if cost_key <= MAX_FINITE_COST_KEY {
            Ok(RewriteRule { input: input.to_owned(), output: output.to_owned(), cost_key, priority: 0 })
        } else {
            Err(InvalidCostKey { cost_key })
        }
    }

    /// The same rule with priority `priority`.
    pub fn with_priority(self, priority: i32) -> (r: Self)
        ensures
            r.input == self.input,
            r.output == self.output,
            r.cost_key == self.cost_key,
            r.priority == priority,
    {
        RewriteRule { input: self.input, output: self.output, cost_key: self.cost_key, priority }
    }
}

/// `Ok` when every rule's cost key is valid, else the first invalid key.
pub fn validate_rewrite_rules(rules: &[RewriteRule]) -> (r: Result<(), InvalidCostKey>)
    ensures
        r is Ok <==> forall|i: int| 0 <= i < rules@.len() ==> valid_cost_key(#[trigger] rules@[i].cost_key),
        match r {
            Ok(()) => true,
            Err(e) => exists|i: int| 0 <= i < rules@.len() && rules@[i].cost_key == e.cost_key
                && !valid_cost_key(e.cost_key)
                && forall|j: int| 0 <= j < i ==> valid_cost_key(#[trigger] rules@[j].cost_key),
        },
{
    for i in 0..rules.len()
        invariant
            forall|j: int| 0 <= j < i ==> valid_cost_key(#[trigger] rules@[j].cost_key),
    {
        if rules[i].cost_key > MAX_FINITE_COST_KEY {
            return Err(InvalidCostKey { cost_key: rules[i].cost_key });
        }
    }
    Ok(())
}

/// Number of transition steps of a rule: the longer of its two sides.
pub open spec fn rule_steps(rule: RewriteRule) -> nat {
    if rule.input@.len() >= rule.output@.len() { rule.input@.len() } else { rule.output@.len() }
}

/// Number of continuation states of a rule: one per step after the first.
pub open spec fn rule_continuations(rule: RewriteRule) -> nat {
    if rule_steps(rule) > 0 { (rule_steps(rule) - 1) as nat } else { 0 }
}

/// Continuation states owned by the rules of `rules`.
pub open spec fn continuation_count(rules: Seq<RewriteRule>) -> nat
    decreases rules.len(),
{
    if rules.len() == 0 { 0 } else { continuation_count(rules.drop_last()) + rule_continuations(rules.last()) }
}

/// A continuation state: the rule it belongs to and the step it resumes at.
#[derive(Clone, Copy, Debug, PartialEq, Eq, Structural)]
pub struct ContinuationState {
    /// Index of the rule.
    pub rule_index: usize,
    /// Step of the rule, at least 1.
    pub step: usize,
}

/// The continuation states of `rules`, in state order: for each rule, its
/// steps `1..steps`.
pub open spec fn continuation_table(rules: Seq<RewriteRule>) -> Seq<ContinuationState>
    decreases rules.len(),
{
    if rules.len() == 0 {
        Seq::empty()
    } else {
        let n = (rules.len() - 1) as int;
        continuation_table(rules.drop_last())
            + Seq::new(rule_continuations(rules.last()), |k: int| ContinuationState { rule_index: n as usize, step: (k + 1) as usize })
    }
}

/// Whether rule `a` is enumerated before rule `b`: higher priority first,
/// then insertion order.
pub open spec fn rule_before(rules: Seq<RewriteRule>, a: int, b: int) -> bool {
    rules[a].priority > rules[b].priority || (rules[a].priority == rules[b].priority && a < b)
}

/// `order` lists every rule index once, in enumeration order.
pub open spec fn priority_sorted(rules: Seq<RewriteRule>, order: Seq<usize>) -> bool {
    &&& order.len() == rules.len()
    &&& forall|i: int| 0 <= i < order.len() ==> (#[trigger] order[i]) < rules.len()
    &&& forall|i: int, j: int| 0 <= i < j < order.len() ==> rule_before(rules, #[trigger] order[i] as int, #[trigger] order[j] as int)
    &&& forall|k: usize| k < rules.len() ==> #[trigger] order.contains(k)
}

/// A rule split into scalars, ready for transition enumeration.
pub struct PreparedRewriteRule {
    input: RuleLabel,
    output: RuleLabel,
    cost_key: u64,
    steps: usize,
}

impl PreparedRewriteRule {
    /// The rule's input scalars.
    pub closed spec fn spec_input(self) -> Seq<char> { label_units(self.input) }

    /// The rule's output scalars.
    pub closed spec fn spec_output(self) -> Seq<char> { label_units(self.output) }

    /// The rule's cost key.
    pub closed spec fn spec_cost_key(self) -> u64 { self.cost_key }

    /// The rule's step count.
    pub closed spec fn spec_steps(self) -> nat { self.steps as nat }

    /// The prepared form of `rule`.
    pub open spec fn prepares(self, rule: RewriteRule) -> bool {
        &&& self.spec_input() == rule.input@
        &&& self.spec_output() == rule.output@
        &&& self.spec_cost_key() == rule.cost_key
        &&& self.spec_steps() == rule_steps(rule)
    }

    /// Split `rule` into scalars.
    pub fn new(rule: &RewriteRule) -> (r: Self)
        ensures
            r.prepares(*rule),
    {
        let input: RuleLabel = label_from_str(rule.input.as_str());
        let output: RuleLabel = label_from_str(rule.output.as_str());
        let in_len: usize = label_len(&input);
        let out_len: usize = label_len(&output);
        let steps: usize = if in_len >= out_len { in_len } else { out_len };
        PreparedRewriteRule { input, output, cost_key: rule.cost_key, steps }
    }

    /// Number of continuation states the rule owns.
    pub fn continuation_steps(&self) -> (r: usize)
        ensures
            r == (if self.spec_steps() > 0 { self.spec_steps() - 1 } else { 0 }),
    {
        if self.steps > 0 { self.steps - 1 } else { 0 }
    }
}

impl RewriteRule {
    /// A copy of the rule.
    pub fn duplicate(&self) -> (r: Self)
        ensures
            r == *self,
    {
        RewriteRule {
            input: self.input.clone(),
            output: self.output.clone(),
            cost_key: self.cost_key,
            priority: self.priority,
        }
    }
}

/// The continuation table has one entry per continuation state.
pub proof fn lemma_continuation_table_len(rules: Seq<RewriteRule>)
    ensures
        continuation_table(rules).len() == continuation_count(rules),
    decreases rules.len(),
{
    if rules.len() > 0 {
        lemma_continuation_table_len(rules.drop_last());
    }
}

/// The rewrite transducer: its rules, their prepared forms, the enumeration
/// order, and the numbering of continuation states.
pub struct RewriteWfst {
    rules: Vec<RewriteRule>,
    prepared_rules: Vec<PreparedRewriteRule>,
    priority_order: Vec<usize>,
    continuation_end_offsets: Vec<usize>,
    continuation_lookup: Vec<ContinuationState>,
    continuation_states: usize,
    allow_identity: bool,
}

impl RewriteWfst {
    /// The rules, in insertion order.
    pub closed spec fn spec_rules(self) -> Seq<RewriteRule> { self.rules@ }

    /// Whether unmatched printable ASCII passes through the home state.
    pub closed spec fn spec_allow_identity(self) -> bool { self.allow_identity }

    /// The enumeration order of the rules.
    pub closed spec fn spec_priority_order(self) -> Seq<usize> { self.priority_order@ }

    /// The continuation state table, indexed by state ID minus one.
    pub closed spec fn spec_continuation_lookup(self) -> Seq<ContinuationState> { self.continuation_lookup@ }

    /// Cumulative continuation-state counts after each rule.
    pub closed spec fn spec_continuation_end_offsets(self) -> Seq<usize> { self.continuation_end_offsets@ }

    /// The prepared rules.
    pub closed spec fn spec_prepared(self) -> Seq<PreparedRewriteRule> { self.prepared_rules@ }

    /// Prepared rules, order and continuation tables agree with the rules.
    pub closed spec fn wf(self) -> bool {
        &&& self.prepared_rules@.len() == self.rules@.len()
        &&& forall|i: int| 0 <= i < self.rules@.len() ==> (#[trigger] self.prepared_rules@[i]).prepares(self.rules@[i])
        &&& priority_sorted(self.rules@, self.priority_order@)
        &&& self.continuation_lookup@ == continuation_table(self.rules@)
        &&& self.continuation_end_offsets@.len() == self.rules@.len()
        &&& forall|i: int| 0 <= i < self.rules@.len() ==>
                #[trigger] self.continuation_end_offsets@[i] == continuation_count(self.rules@.take(i + 1))
        &&& self.continuation_states == self.continuation_lookup@.len()
    }

    /// The continuation-state count.
    pub closed spec fn spec_continuation_states(self) -> nat { self.continuation_states as nat }

    /// The enumeration order and the continuation tables are those of the
    /// rules: rules by descending priority, then insertion order; for each
    /// rule its steps after the first, numbered in rule order; the running
    /// continuation counts; and the continuation-state count.
    pub open spec fn metadata_agrees(self) -> bool {
        &&& priority_sorted(self.spec_rules(), self.spec_priority_order())
        &&& self.spec_continuation_lookup() == continuation_table(self.spec_rules())
        &&& self.spec_continuation_end_offsets().len() == self.spec_rules().len()
        &&& forall|i: int| 0 <= i < self.spec_rules().len() ==>
                #[trigger] self.spec_continuation_end_offsets()[i] == continuation_count(self.spec_rules().take(i + 1))
        &&& self.spec_continuation_states() == continuation_table(self.spec_rules()).len()
    }

    /// A well-formed rule set's metadata agree with its rules.
    pub proof fn lemma_metadata_agrees(self)
        requires
            self.wf(),
        ensures
            self.metadata_agrees(),
    {
    }

    /// An empty rule set with identity transitions allowed.
    pub fn new() -> (r: Self)
        ensures
            r.wf(),
            r.metadata_agrees(),
            r.spec_rules() == Seq::<RewriteRule>::empty(),
            r.spec_allow_identity(),
    {
        let r = RewriteWfst {
            rules: Vec::new(),
            prepared_rules: Vec::new(),
            priority_order: Vec::new(),
            continuation_end_offsets: Vec::new(),
            continuation_lookup: Vec::new(),
            continuation_states: 0,
            allow_identity: true,
        };
        assert(r.continuation_lookup@ =~= continuation_table(r.rules@));
        r
    }

    /// The position at which a new rule of priority `priority` enters the
    /// enumeration order: after every rule of at least that priority.
    fn priority_insertion_index(&self, priority: i32) -> (r: usize)
        requires
            self.wf(),
        ensures
            r <= self.spec_priority_order().len(),
            forall|i: int| 0 <= i < r ==> self.spec_rules()[#[trigger] self.spec_priority_order()[i] as int].priority >= priority,
            forall|i: int| r <= i < self.spec_priority_order().len() ==>
                self.spec_rules()[#[trigger] self.spec_priority_order()[i] as int].priority < priority,
    {
        let n: usize = self.priority_order.len();
        let mut i: usize = 0;
        while i < n
            invariant
                self.wf(),
                n == self.priority_order@.len(),
                i <= n,
                forall|k: int| 0 <= k < i ==> self.rules@[#[trigger] self.priority_order@[k] as int].priority >= priority,
            decreases n - i,
        {
            let e: usize = self.priority_order[i];
            if self.rules[e].priority < priority {
                proof {
                    assert forall|k: int| i <= k < n implies
                        self.rules@[#[trigger] self.priority_order@[k] as int].priority < priority by {
                        if k > i {
                            assert(rule_before(self.rules@, self.priority_order@[i as int] as int, self.priority_order@[k] as int));
                        }
                    }
                }
                return i;
            }
            i = i + 1;
        }
        n
    }

    /// Append `rule`: prepare it, number its continuation states after all
    /// others, and place it in the enumeration order after every rule of at
    /// least its priority.
    fn append_validated_rule(&mut self, rule: RewriteRule)
        requires
            old(self).wf(),
        ensures
            final(self).wf(),
            final(self).spec_rules() == old(self).spec_rules().push(rule),
            final(self).spec_allow_identity() == old(self).spec_allow_identity(),
    {
        let rule_index: usize = self.rules.len();
        let insertion_index: usize = self.priority_insertion_index(rule.priority);
        let prepared: PreparedRewriteRule = PreparedRewriteRule::new(&rule);
        let ghost old_lookup = self.continuation_lookup@;
        let ghost new_rules = self.rules@.push(rule);
        proof {
            assert(new_rules.drop_last() == self.rules@);
            assert(new_rules.last() == rule);
            assert(old_lookup == continuation_table(self.rules@));
            lemma_continuation_table_len(self.rules@);
        }
        let steps: usize = prepared.steps;
        let mut step: usize = 1;
        while step < steps
            invariant
                1 <= step,
                steps > 0 ==> step <= steps,
                steps == 0 ==> step == 1,
                steps == rule_steps(rule),
                self.rules@ == old(self).rules@,
                self.prepared_rules@ == old(self).prepared_rules@,
                self.priority_order@ == old(self).priority_order@,
                self.continuation_end_offsets@ == old(self).continuation_end_offsets@,
                self.allow_identity == old(self).allow_identity,
                rule_index == old(self).rules@.len(),
                self.continuation_lookup@ == old_lookup
                    + Seq::new((step - 1) as nat, |k: int| ContinuationState { rule_index: rule_index, step: (k + 1) as usize }),
            decreases steps - step,
        {
            self.continuation_lookup.push(ContinuationState { rule_index, step });
            step = step + 1;
            assert(self.continuation_lookup@ =~= old_lookup
                + Seq::new((step - 1) as nat, |k: int| ContinuationState { rule_index: rule_index, step: (k + 1) as usize }));
        }
        proof {
            let tail = Seq::new(rule_continuations(rule), |k: int| ContinuationState { rule_index: rule_index, step: (k + 1) as usize });
            assert((step - 1) as nat == rule_continuations(rule));
            assert(self.continuation_lookup@ =~= old_lookup + tail);
            assert(continuation_table(new_rules) == continuation_table(new_rules.drop_last())
                + Seq::new(rule_continuations(new_rules.last()),
                    |k: int| ContinuationState { rule_index: (new_rules.len() - 1) as usize, step: (k + 1) as usize }));
            assert(continuation_table(new_rules) =~= old_lookup + tail);
            lemma_continuation_table_len(new_rules);
        }
        self.continuation_states = self.continuation_lookup.len();
        self.continuation_end_offsets.push(self.continuation_states);
        self.prepared_rules.push(prepared);
        let ghost old_order = self.priority_order@;
        self.priority_order.insert(insertion_index, rule_index);
        self.rules.push(rule);
        proof {
            let order = self.priority_order@;
            let rules = self.rules@;
            assert(rules == new_rules);
            assert forall|i: int| 0 <= i < rules.len() implies (#[trigger] self.prepared_rules@[i]).prepares(rules[i]) by {
                if i < rule_index {
                    assert(old(self).prepared_rules@[i].prepares(old(self).rules@[i]));
                }
            }
            assert forall|i: int| 0 <= i < order.len() implies (#[trigger] order[i]) < rules.len() by {
                if i < insertion_index {
                    assert(order[i] == old_order[i]);
                } else if i > insertion_index {
                    assert(order[i] == old_order[i - 1]);
                }
            }
            assert forall|i: int, j: int| 0 <= i < j < order.len() implies
                rule_before(rules, #[trigger] order[i] as int, #[trigger] order[j] as int) by {
                if j < insertion_index {
                    assert(rule_before(old(self).rules@, old_order[i] as int, old_order[j] as int));
                } else if j == insertion_index {
                    assert(old(self).rules@[old_order[i] as int].priority >= rule.priority);
                } else if i < insertion_index {
                    assert(rule_before(old(self).rules@, old_order[i] as int, old_order[j - 1] as int));
                } else if i == insertion_index {
                    assert(old(self).rules@[old_order[j - 1] as int].priority < rule.priority);
                } else {
                    assert(rule_before(old(self).rules@, old_order[i - 1] as int, old_order[j - 1] as int));
                }
            }
            assert forall|k: usize| k < rules.len() implies #[trigger] order.contains(k) by {
                if k == rule_index {
                    assert(order[insertion_index as int] == k);
                } else {
                    assert(old_order.contains(k));
                    let i = choose|i: int| 0 <= i < old_order.len() && old_order[i] == k;
                    if i < insertion_index {
                        assert(order[i] == k);
                    } else {
                        assert(order[i + 1] == k);
                    }
                }
            }
            assert forall|i: int| 0 <= i < rules.len() implies
                #[trigger] self.continuation_end_offsets@[i] == continuation_count(rules.take(i + 1)) by {
                if i < rule_index {
                    assert(rules.take(i + 1) == old(self).rules@.take(i + 1));
                } else {
                    assert(rules.take(i + 1) == rules);
                }
            }
        }
    }

    /// A rule set holding `rules`, whose cost keys the caller has validated.
    fn from_validated_rules(rules: Vec<RewriteRule>) -> (r: Self)
        ensures
            r.wf(),
            r.spec_rules() == rules@,
            r.spec_allow_identity(),
    {
        let mut wfst: RewriteWfst = RewriteWfst::new();
        for i in 0..rules.len()
            invariant
                wfst.wf(),
                wfst.spec_rules() == rules@.take(i as int),
                wfst.spec_allow_identity(),
        {
            let rule: RewriteRule = rules[i].duplicate();
            wfst.append_validated_rule(rule);
            assert(rules@.take(i + 1) == rules@.take(i as int).push(rules@[i as int]));
        }
        assert(rules@.take(rules@.len() as int) == rules@);
        wfst
    }

    /// A rule set holding `rules`, or the first invalid cost key.
    pub fn with_rules(rules: Vec<RewriteRule>) -> (r: Result<Self, InvalidCostKey>)
        ensures
            (forall|i: int| 0 <= i < rules@.len() ==> valid_cost_key(#[trigger] rules@[i].cost_key)) <==> r is Ok,
            match r {
                Ok(w) => w.wf() && w.metadata_agrees() && w.spec_rules() == rules@ && w.spec_allow_identity(),
                Err(e) => exists|i: int| 0 <= i < rules@.len() && rules@[i].cost_key == e.cost_key
                    && !valid_cost_key(e.cost_key)
                    && forall|j: int| 0 <= j < i ==> valid_cost_key(#[trigger] rules@[j].cost_key),
            },
    {
        match validate_rewrite_rules(rules.as_slice()) {
            Err(e) => Err(e),
            Ok(()) => Ok(Self::from_validated_rules(rules)),
        }
    }

    /// Add the rule `input -> output` with cost key `cost_key`, or reject the key.
    pub fn add_rule(&mut self, input: &str, output: &str, cost_key: u64) -> (r: Result<(), InvalidCostKey>)
        requires
            old(self).wf(),
        ensures
            final(self).wf(),
            final(self).metadata_agrees(),
            final(self).spec_allow_identity() == old(self).spec_allow_identity(),
            valid_cost_key(cost_key) <==> r is Ok,
            match r {
                Ok(()) => final(self).spec_rules().len() == old(self).spec_rules().len() + 1
                    && final(self).spec_rules().drop_last() == old(self).spec_rules()
                    && final(self).spec_rules().last().input@ == input@
                    && final(self).spec_rules().last().output@ == output@
                    && final(self).spec_rules().last().cost_key == cost_key
                    && final(self).spec_rules().last().priority == 0,
                Err(e) => e.cost_key == cost_key && final(self).spec_rules() == old(self).spec_rules(),
            },
    {
        match RewriteRule::with_cost_key(input, output, cost_key) {
            Err(e) => Err(e),
            Ok(rule) => {
                self.append_validated_rule(rule);
                assert(self.spec_rules().drop_last() == old(self).spec_rules());
                Ok(())
            },
        }
    }

    /// Add a pre-built rule, or reject its cost key.
    pub fn add_rewrite_rule(&mut self, rule: RewriteRule) -> (r: Result<(), InvalidCostKey>)
        requires
            old(self).wf(),
        ensures
            final(self).wf(),
            final(self).metadata_agrees(),
            final(self).spec_allow_identity() == old(self).spec_allow_identity(),
            valid_cost_key(rule.cost_key) <==> r is Ok,
            match r {
                Ok(()) => final(self).spec_rules() == old(self).spec_rules().push(rule),
                Err(e) => e.cost_key == rule.cost_key && final(self).spec_rules() == old(self).spec_rules(),
            },
    {
        if rule.cost_key > MAX_FINITE_COST_KEY {
            return Err(InvalidCostKey { cost_key: rule.cost_key });
        }
        self.append_validated_rule(rule);
        Ok(())
    }

    /// Allow or forbid identity transitions for unmatched printable ASCII.
    pub fn set_allow_identity(&mut self, allow: bool)
        requires
            old(self).wf(),
        ensures
            final(self).wf(),
            final(self).metadata_agrees(),
            final(self).spec_rules() == old(self).spec_rules(),
            final(self).spec_allow_identity() == allow,
    {
        self.allow_identity = allow;
    }

    /// Whether identity transitions are allowed.
    pub fn allow_identity(&self) -> (r: bool)
        ensures
            r == self.spec_allow_identity(),
    {
        self.allow_identity
    }

    /// Number of rules.
    pub fn num_rules(&self) -> (r: usize)
        ensures
            r == self.spec_rules().len(),
    {
        self.rules.len()
    }

    /// The enumeration order of the rules.
    pub fn priority_order(&self) -> (r: &[usize])
        ensures
            r@ == self.spec_priority_order(),
    {
        self.priority_order.as_slice()
    }

    /// The continuation state table.
    pub fn continuation_lookup(&self) -> (r: &[ContinuationState])
        ensures
            r@ == self.spec_continuation_lookup(),
    {
        self.continuation_lookup.as_slice()
    }

    /// Cumulative continuation-state counts after each rule.
    pub fn continuation_end_offsets(&self) -> (r: &[usize])
        ensures
            r@ == self.spec_continuation_end_offsets(),
    {
        self.continuation_end_offsets.as_slice()
    }
}

/// `count(take(i))` grows with `i`.
pub proof fn lemma_continuation_count_monotone(rules: Seq<RewriteRule>, i: int, j: int)
    requires
        0 <= i <= j <= rules.len(),
    ensures
        continuation_count(rules.take(i)) <= continuation_count(rules.take(j)),
    decreases j - i,
{
    if i < j {
        lemma_continuation_count_monotone(rules, i, j - 1);
        assert(rules.take(j).drop_last() == rules.take(j - 1));
    }
}

/// The continuation of rule `i` at `step` has ID `count(take(i)) + step`:
/// entry `count(take(i)) + step - 1` of the table.
pub proof fn lemma_continuation_table_entry(rules: Seq<RewriteRule>, i: int, step: int)
    requires
        0 <= i < rules.len(),
        1 <= step < rule_steps(rules[i]),
    ensures
        continuation_count(rules.take(i)) + step - 1 < continuation_table(rules).len(),
        continuation_table(rules)[continuation_count(rules.take(i)) + step - 1]
            == (ContinuationState { rule_index: i as usize, step: step as usize }),
    decreases rules.len(),
{
    let n = rules.len() - 1;
    let prefix = rules.drop_last();
    lemma_continuation_table_len(prefix);
    lemma_continuation_table_len(rules);
    if i < n {
        lemma_continuation_table_entry(prefix, i, step);
        assert(prefix.take(i) == rules.take(i));
        assert(prefix.take(i + 1).drop_last() == prefix.take(i));
        assert(prefix[i] == rules[i]);
        lemma_continuation_count_monotone(prefix, i + 1, prefix.len() as int);
        assert(prefix.take(prefix.len() as int) == prefix);
    } else {
        assert(rules.take(i) == prefix);
    }
}

/// Every table entry is the continuation of its rule at its step, at the
/// position that rule and step determine.
pub proof fn lemma_continuation_table_inverse(rules: Seq<RewriteRule>, z: int)
    requires
        0 <= z < continuation_table(rules).len(),
        rules.len() <= usize::MAX,
        continuation_count(rules) <= usize::MAX,
    ensures
        ({
            let c = continuation_table(rules)[z];
            &&& c.rule_index < rules.len()
            &&& 1 <= c.step < rule_steps(rules[c.rule_index as int])
            &&& z == continuation_count(rules.take(c.rule_index as int)) + c.step - 1
        }),
    decreases rules.len(),
{
    let n = rules.len() - 1;
    let prefix = rules.drop_last();
    lemma_continuation_table_len(prefix);
    if z < continuation_table(prefix).len() {
        lemma_continuation_table_inverse(prefix, z);
        let c = continuation_table(prefix)[z];
        assert(prefix.take(c.rule_index as int) == rules.take(c.rule_index as int));
        assert(prefix[c.rule_index as int] == rules[c.rule_index as int]);
    } else {
        assert(rules.take(n) == prefix);
        assert(rules[n] == rules.last());
        let k = z - continuation_table(prefix).len();
        assert(continuation_table(rules)[z] == ContinuationState { rule_index: n as usize, step: (k + 1) as usize });
    }
}

/// A transition of the rewrite transducer; `weight_key` is the key of its
/// cost (0 for free steps).
#[derive(Clone, Copy, Debug, PartialEq, Eq, Structural)]
pub struct RewriteTransition {
    pub from: u32,
    pub input: Option<char>,
    pub output: Option<char>,
    pub to: u32,
    pub weight_key: u64,
}

/// Two transitions with the same endpoints and labels.
pub open spec fn same_arc(a: RewriteTransition, b: RewriteTransition) -> bool {
    a.from == b.from && a.input == b.input && a.output == b.output && a.to == b.to
}

/// Transitions without parallel duplicates: per endpoints and labels, the
/// first occurrence's position keeps the cheapest transition (the earliest
/// among equally cheap ones).
pub open spec fn spec_prune(ts: Seq<RewriteTransition>) -> Seq<RewriteTransition>
    decreases ts.len(),
{
    if ts.len() == 0 {
        Seq::empty()
    } else {
        let n = spec_prune(ts.drop_last());
        let x = ts.last();
        if exists|j: int| 0 <= j < n.len() && same_arc(n[j], x) {
            let j = choose|j: int| 0 <= j < n.len() && same_arc(n[j], x);
            if x.weight_key < n[j].weight_key { n.update(j, x) } else { n }
        } else {
            n.push(x)
        }
    }
}

/// No two transitions share endpoints and labels.
pub open spec fn distinct_arcs(ts: Seq<RewriteTransition>) -> bool {
    forall|a: int, b: int| 0 <= a < ts.len() && 0 <= b < ts.len() && a != b ==> !same_arc(#[trigger] ts[a], #[trigger] ts[b])
}

/// Pruning leaves at most one transition per endpoints and labels.
pub proof fn lemma_prune_distinct(ts: Seq<RewriteTransition>)
    ensures
        distinct_arcs(spec_prune(ts)),
    decreases ts.len(),
{
    if ts.len() > 0 {
        lemma_prune_distinct(ts.drop_last());
    }
}

/// Lists of fewer than two transitions are already pruned.
proof fn lemma_prune_short(ts: Seq<RewriteTransition>)
    requires
        ts.len() < 2,
    ensures
        spec_prune(ts) == ts,
{
    if ts.len() == 1 {
        assert(ts.drop_last() =~= Seq::<RewriteTransition>::empty());
        assert(spec_prune(ts.drop_last()) =~= Seq::<RewriteTransition>::empty());
        assert(spec_prune(ts) =~= ts);
    } else {
        assert(ts =~= Seq::<RewriteTransition>::empty());
    }
}

/// Encoding of an optional label below `2^21`: the scalar, or `0x110000` for none.
pub open spec fn label_code(c: Option<char>) -> int {
    match c {
        Some(ch) => (ch as u32) as int,
        None => 0x110000,
    }
}

proof fn lemma_label_code(a: Option<char>, b: Option<char>)
    ensures
        0 <= label_code(a) < 0x20_0000,
        label_code(a) == label_code(b) ==> a == b,
{
    match a {
        Some(x) => {
            vstd::utf8::char_is_scalar(x);
            vstd::utf8::char_u32_cast(x, x as u32);
        },
        None => {},
    }
    match b {
        Some(y) => {
            vstd::utf8::char_is_scalar(y);
            vstd::utf8::char_u32_cast(y, y as u32);
        },
        None => {},
    }
}

/// Packed hash key of a transition's endpoints and labels.
pub open spec fn arc_key(t: RewriteTransition) -> int {
    t.from as int * 0x4_0000_0000_0000_0000_0000 + t.to as int * 0x400_0000_0000 + label_code(t.input) * 0x20_0000
        + label_code(t.output)
}

/// Distinct endpoints or labels give distinct packed keys.
proof fn lemma_arc_key_injective(a: RewriteTransition, b: RewriteTransition)
    ensures
        arc_key(a) == arc_key(b) <==> same_arc(a, b),
        0 <= arc_key(a) <= u128::MAX,
{
    let ai = label_code(a.input);
    let ao = label_code(a.output);
    let bi = label_code(b.input);
    let bo = label_code(b.output);
    lemma_label_code(a.input, b.input);
    lemma_label_code(a.output, b.output);
    lemma_label_code(b.input, a.input);
    lemma_label_code(b.output, a.output);
    if arc_key(a) == arc_key(b) {
        assert(ao == bo && ai == bi && a.to == b.to && a.from == b.from) by (nonlinear_arith)
            requires
                a.from as int * 0x4_0000_0000_0000_0000_0000 + a.to as int * 0x400_0000_0000 + ai * 0x20_0000 + ao
                    == b.from as int * 0x4_0000_0000_0000_0000_0000 + b.to as int * 0x400_0000_0000 + bi * 0x20_0000 + bo,
                0 <= ai < 0x20_0000, 0 <= ao < 0x20_0000, 0 <= bi < 0x20_0000, 0 <= bo < 0x20_0000,
                0 <= a.to <= 0xffff_ffff, 0 <= b.to <= 0xffff_ffff,
                0 <= a.from <= 0xffff_ffff, 0 <= b.from <= 0xffff_ffff,
        ;
    }
}

fn label_code_exec(c: Option<char>) -> (r: u128)
    ensures
        r == label_code(c),
{
    proof {
        lemma_label_code(c, c);
    }
    match c {
        Some(ch) => (ch as u32) as u128,
        None => 0x110000,
    }
}

fn arc_key_exec(t: &RewriteTransition) -> (r: u128)
    ensures
        r == arc_key(*t),
{
    let from: u128 = t.from as u128;
    let to: u128 = t.to as u128;
    let i: u128 = label_code_exec(t.input);
    let o: u128 = label_code_exec(t.output);
    proof {
        lemma_label_code(t.input, t.input);
        lemma_label_code(t.output, t.output);
    }
    assert(from * 0x4_0000_0000_0000_0000_0000 + to * 0x400_0000_0000 + i * 0x20_0000 + o <= u128::MAX) by (nonlinear_arith)
        requires
            from <= 0xffff_ffff, to <= 0xffff_ffff, i < 0x20_0000, o < 0x20_0000,
    ;
    from * 0x4_0000_0000_0000_0000_0000 + to * 0x400_0000_0000 + i * 0x20_0000 + o
}

/// Keep one transition per endpoints and labels: the cheapest, at the
/// position of the first occurrence.
pub fn prune_dominated_transitions(transitions: &mut Vec<RewriteTransition>)
    ensures
        final(transitions)@ == spec_prune(old(transitions)@),
        distinct_arcs(final(transitions)@),
{
    proof {
        lemma_prune_distinct(old(transitions)@);
    }
    if transitions.len() < 2 {
        proof {
            lemma_prune_short(old(transitions)@);
        }
        return;
    }
    if transitions.len() < HASH_PRUNE_THRESHOLD {
        prune_dominated_transitions_linear(transitions);
        return;
    }
    let source: &Vec<RewriteTransition> = transitions;
    let mut pruned: Vec<RewriteTransition> = Vec::new();
    let mut index_by_key: FxHashMap<u128, usize> = fx_map_with_capacity(source.len());
    for i in 0..source.len()
        invariant
            pruned@ == spec_prune(source@.take(i as int)),
            forall|k: u128| #[trigger] index_by_key@.contains_key(k) ==>
                index_by_key@[k] < pruned@.len() && arc_key(pruned@[index_by_key@[k] as int]) == k,
            forall|j: int| 0 <= j < pruned@.len() ==> #[trigger] index_by_key@.contains_key(arc_key(pruned@[j]) as u128),
    {
        proof {
            assert(source@.take(i + 1).drop_last() == source@.take(i as int));
            lemma_prune_distinct(source@.take(i as int));
        }
        let transition: RewriteTransition = source[i];
        let key: u128 = arc_key_exec(&transition);
        match fx_get(&index_by_key, &key) {
            Some(existing) => {
                let e: usize = *existing;
                proof {
                    let n = spec_prune(source@.take(i as int));
                    lemma_arc_key_injective(n[e as int], transition);
                    let c = choose|c: int| 0 <= c < n.len() && same_arc(n[c], transition);
                    if c != e as int {
                        assert(same_arc(n[c], n[e as int]));
                    }
                }
                if transition.weight_key < pruned[e].weight_key {
                    let ghost before = pruned@;
                    pruned.set(e, transition);
                    proof {
                        lemma_arc_key_injective(before[e as int], transition);
                        assert forall|j: int| 0 <= j < pruned@.len() implies
                            #[trigger] index_by_key@.contains_key(arc_key(pruned@[j]) as u128) by {
                            if j != e as int {
                                assert(pruned@[j] == before[j]);
                            }
                        }
                    }
                }
            },
            None => {
                proof {
                    let n = spec_prune(source@.take(i as int));
                    if exists|c: int| 0 <= c < n.len() && same_arc(n[c], transition) {
                        let c = choose|c: int| 0 <= c < n.len() && same_arc(n[c], transition);
                        lemma_arc_key_injective(n[c], transition);
                        assert(index_by_key@.contains_key(arc_key(n[c]) as u128));
                    }
                }
                let _ = fx_insert(&mut index_by_key, key, pruned.len());
                pruned.push(transition);
                proof {
                    assert forall|k: u128| #[trigger] index_by_key@.contains_key(k) implies
                        index_by_key@[k] < pruned@.len() && arc_key(pruned@[index_by_key@[k] as int]) == k by {
                    }
                    assert forall|j: int| 0 <= j < pruned@.len() implies
                        #[trigger] index_by_key@.contains_key(arc_key(pruned@[j]) as u128) by {
                        if j < pruned@.len() - 1 {
                            assert(pruned@[j] == spec_prune(source@.take(i as int))[j]);
                        }
                    }
                }
            },
        }
    }
    proof {
        assert(source@.take(source@.len() as int) == source@);
    }
    *transitions = pruned;
}

/// The linear-scan form of `prune_dominated_transitions`, for short lists.
fn prune_dominated_transitions_linear(transitions: &mut Vec<RewriteTransition>)
    ensures
        final(transitions)@ == spec_prune(old(transitions)@),
{
    let source: &Vec<RewriteTransition> = transitions;
    let mut pruned: Vec<RewriteTransition> = Vec::new();
    for i in 0..source.len()
        invariant
            pruned@ == spec_prune(source@.take(i as int)),
    {
        proof {
            assert(source@.take(i + 1).drop_last() == source@.take(i as int));
            lemma_prune_distinct(source@.take(i as int));
        }
        let transition: RewriteTransition = source[i];
        let mut found: Option<usize> = None;
        for j in 0..pruned.len()
            invariant
                pruned@ == spec_prune(source@.take(i as int)),
                found is None ==> forall|k: int| 0 <= k < j ==> !same_arc(#[trigger] pruned@[k], transition),
                found matches Some(f) ==> f < pruned@.len() && same_arc(pruned@[f as int], transition),
        {
            if found.is_none() {
                let candidate: RewriteTransition = pruned[j];
                if candidate.from == transition.from && candidate.input == transition.input
                    && candidate.output == transition.output && candidate.to == transition.to {
                    found = Some(j);
                }
            }
        }
        match found {
            Some(e) => {
                proof {
                    let n = spec_prune(source@.take(i as int));
                    let c = choose|c: int| 0 <= c < n.len() && same_arc(n[c], transition);
                    if c != e as int {
                        assert(same_arc(n[c], n[e as int]));
                    }
                }
                if transition.weight_key < pruned[e].weight_key {
                    pruned.set(e, transition);
                }
            },
            None => {
                pruned.push(transition);
            },
        }
    }
    proof {
        assert(source@.take(source@.len() as int) == source@);
    }
    *transitions = pruned;
}

/// Number of state IDs a `u32` can address, or `usize::MAX` when that does not fit.
pub open spec fn addressable_states() -> int {
    if u32::MAX + 1 <= usize::MAX { u32::MAX + 1 } else { usize::MAX as int }
}

/// Number of states of a transducer with `continuations` continuation states:
/// the home state plus one per continuation, capped at the addressable IDs.
pub open spec fn spec_rewrite_state_count(continuations: int) -> int {
    let all = if continuations + 1 > usize::MAX { usize::MAX as int } else { continuations + 1 };
    if all < addressable_states() { all } else { addressable_states() }
}

/// Number of states of a transducer with `continuation_states` continuation states.
pub fn rewrite_state_count(continuation_states: usize) -> (r: usize)
    ensures
        r == spec_rewrite_state_count(continuation_states as int),
{
    let addressable: usize = match 0xffff_ffffusize.checked_add(1) {
        Some(a) => a,
        None => usize::MAX,
    };
    let all: usize = continuation_states.saturating_add(1);
    if all < addressable { all } else { addressable }
}

/// One transition, or none.
pub open spec fn opt_seq(t: Option<RewriteTransition>) -> Seq<RewriteTransition> {
    match t {
        Some(x) => seq![x],
        None => Seq::empty(),
    }
}

/// The identity transitions of the home state: printable ASCII `' '..='~'`.
pub open spec fn identity_arcs() -> Seq<RewriteTransition> {
    Seq::new(95, |k: int| RewriteTransition {
        from: 0,
        input: Some((32 + k) as char),
        output: Some((32 + k) as char),
        to: 0,
        weight_key: 0,
    })
}

/// An expanded state: whether it is final, and its pruned transitions.
pub struct RewriteExpansion {
    pub is_final: bool,
    pub transitions: Vec<RewriteTransition>,
}

impl RewriteWfst {
    /// Number of states.
    pub open spec fn spec_num_states(self) -> int {
        spec_rewrite_state_count(self.spec_continuation_states() as int)
    }

    /// Whether `state` is a state ID of the transducer.
    pub open spec fn spec_known(self, state: u32) -> bool {
        (state as int) < self.spec_num_states()
    }

    /// ID of the continuation state of rule `rule_index` at `step`, when it fits a `u32`.
    pub open spec fn spec_continuation_state(self, rule_index: int, step: int) -> Option<u32> {
        let raw = continuation_count(self.spec_rules().take(rule_index)) + step;
        let sat = if raw > usize::MAX { usize::MAX as int } else { raw };
        if sat <= u32::MAX { Some(sat as u32) } else { None }
    }

    /// The transition of rule `rule_index` at `step`: from the home state or its
    /// continuation, to its next continuation or home, reading and writing the
    /// scalars at `step` (none past a side's end), charging the rule's cost on
    /// the first step only.
    pub open spec fn spec_step_transition(self, rule_index: int, step: int) -> Option<RewriteTransition> {
        let rules = self.spec_rules();
        if !(0 <= rule_index < rules.len()) {
            None
        } else {
            let rule = rules[rule_index];
            let steps = rule_steps(rule);
            if steps == 0 || step < 0 || step >= steps {
                None
            } else {
                let from = if step == 0 { Some(0u32) } else { self.spec_continuation_state(rule_index, step) };
                let to = if step + 1 == steps { Some(0u32) } else { self.spec_continuation_state(rule_index, step + 1) };
                match (from, to) {
                    (Some(f), Some(t)) => Some(RewriteTransition {
                        from: f,
                        input: if step < rule.input@.len() { Some(rule.input@[step]) } else { None },
                        output: if step < rule.output@.len() { Some(rule.output@[step]) } else { None },
                        to: t,
                        weight_key: if step == 0 { rule.cost_key } else { 0 },
                    }),
                    _ => None,
                }
            }
        }
    }

    /// The first-step transitions of the rules listed in `order`, in that order.
    pub open spec fn spec_start_arcs(self, order: Seq<usize>) -> Seq<RewriteTransition>
        decreases order.len(),
    {
        if order.len() == 0 {
            Seq::empty()
        } else {
            self.spec_start_arcs(order.drop_last()) + opt_seq(self.spec_step_transition(order.last() as int, 0))
        }
    }

    /// The rule and step a continuation state ID stands for.
    pub open spec fn spec_decode(self, state: u32) -> Option<ContinuationState> {
        if state == 0 || state > self.spec_continuation_lookup().len() {
            None
        } else {
            Some(self.spec_continuation_lookup()[state - 1])
        }
    }

    /// Transitions of `state` before pruning: at home, the first steps of all
    /// rules in enumeration order, then the identity transitions if allowed; in
    /// a continuation, the next step of its rule.
    pub open spec fn spec_raw_arcs(self, state: u32) -> Seq<RewriteTransition> {
        if !self.spec_known(state) {
            Seq::empty()
        } else if state == 0 {
            self.spec_start_arcs(self.spec_priority_order())
                + (if self.spec_allow_identity() { identity_arcs() } else { Seq::empty() })
        } else {
            match self.spec_decode(state) {
                Some(c) => opt_seq(self.spec_step_transition(c.rule_index as int, c.step as int)),
                None => Seq::empty(),
            }
        }
    }

    /// Number of states: the home state and the continuations, capped at the addressable IDs.
    pub fn num_states(&self) -> (r: usize)
        ensures
            r == self.spec_num_states(),
    {
        rewrite_state_count(self.continuation_states)
    }

    /// Whether `state` is a state ID of the transducer.
    pub fn is_known_state(&self, state: u32) -> (r: bool)
        ensures
            r == self.spec_known(state),
    {
        (state as usize) < self.num_states()
    }

    /// Number of continuation states owned by the rules before `rule_index`.
    fn continuation_start(&self, rule_index: usize) -> (r: usize)
        requires
            self.wf(),
            rule_index <= self.spec_rules().len(),
        ensures
            r == continuation_count(self.spec_rules().take(rule_index as int)),
    {
        if rule_index == 0 {
            assert(self.rules@.take(0) =~= Seq::<RewriteRule>::empty());
            return 0;
        }
        let previous: usize = rule_index - 1;
        assert(previous + 1 == rule_index);
        self.continuation_end_offsets[previous]
    }

    /// ID of the continuation state of rule `rule_index` at `step`.
    fn continuation_state(&self, rule_index: usize, step: usize) -> (r: Option<u32>)
        requires
            self.wf(),
            rule_index < self.spec_rules().len(),
        ensures
            r == self.spec_continuation_state(rule_index as int, step as int),
    {
        let raw: usize = self.continuation_start(rule_index).saturating_add(step);
        if raw <= 0xffff_ffffusize { Some(raw as u32) } else { None }
    }

    /// The rule and step a continuation state ID stands for.
    pub fn decode_continuation_state(&self, state: u32) -> (r: Option<(usize, usize)>)
        requires
            self.wf(),
        ensures
            r == (match self.spec_decode(state) {
                Some(c) => Some((c.rule_index, c.step)),
                None => None,
            }),
            r matches Some((i, step)) ==> i < self.spec_rules().len() && 1 <= step < rule_steps(self.spec_rules()[i as int]),
    {
        if state == 0 {
            return None;
        }
        let zero_based: usize = (state - 1) as usize;
        if zero_based >= self.continuation_lookup.len() {
            return None;
        }
        let continuation: ContinuationState = self.continuation_lookup[zero_based];
        proof {
            reveal_wf_lookup(*self);
            lemma_continuation_table_inverse(self.rules@, zero_based as int);
        }
        if continuation.rule_index >= self.prepared_rules.len() {
            return None;
        }
        if continuation.step < self.prepared_rules[continuation.rule_index].steps {
            Some((continuation.rule_index, continuation.step))
        } else {
            None
        }
    }

    /// Append the transition of rule `rule_index` at `step`, if it has one.
    fn push_rule_step_transition(&self, transitions: &mut Vec<RewriteTransition>, rule_index: usize, step: usize)
        requires
            self.wf(),
        ensures
            final(transitions)@ == old(transitions)@ + opt_seq(self.spec_step_transition(rule_index as int, step as int)),
    {
        if rule_index >= self.prepared_rules.len() {
            assert(old(transitions)@ + opt_seq(None) =~= old(transitions)@);
            return;
        }
        let prepared: &PreparedRewriteRule = &self.prepared_rules[rule_index];
        proof {
            assert(prepared.prepares(self.rules@[rule_index as int]));
        }
        let steps: usize = prepared.steps;
        if steps == 0 || step >= steps {
            assert(old(transitions)@ + opt_seq(None) =~= old(transitions)@);
            return;
        }
        let from: Option<u32> = if step == 0 { Some(0) } else { self.continuation_state(rule_index, step) };
        let to: Option<u32> = if step + 1 == steps { Some(0) } else { self.continuation_state(rule_index, step + 1) };
        match (from, to) {
            (Some(f), Some(t)) => {
                let input: Option<char> = label_get(&prepared.input, step);
                let output: Option<char> = label_get(&prepared.output, step);
                let weight_key: u64 = if step == 0 { prepared.cost_key } else { 0 };
                transitions.push(RewriteTransition { from: f, input, output, to: t, weight_key });
            },
            _ => {
                assert(old(transitions)@ + opt_seq(None) =~= old(transitions)@);
            },
        }
    }

    /// The expansion of `state`: final exactly at home, with the pruned
    /// transitions; an unknown state is non-final and has none.
    pub fn compute_transitions(&self, state: u32) -> (r: RewriteExpansion)
        requires
            self.wf(),
        ensures
            self.metadata_agrees(),
            r.is_final == (self.spec_known(state) && state == 0),
            r.transitions@ == spec_prune(self.spec_raw_arcs(state)),
            distinct_arcs(r.transitions@),
    {
        if !self.is_known_state(state) {
            let empty: Vec<RewriteTransition> = Vec::new();
            proof {
                lemma_prune_short(empty@);
                lemma_prune_distinct(empty@);
            }
            return RewriteExpansion { is_final: false, transitions: empty };
        }
        let mut transitions: Vec<RewriteTransition> = Vec::new();
        if state == 0 {
            let n: usize = self.priority_order.len();
            for k in 0..n
                invariant
                    self.wf(),
                    n == self.priority_order@.len(),
                    transitions@ == self.spec_start_arcs(self.priority_order@.take(k as int)),
            {
                proof {
                    assert(self.priority_order@.take(k + 1).drop_last() == self.priority_order@.take(k as int));
                }
                self.push_rule_step_transition(&mut transitions, self.priority_order[k], 0);
            }
            assert(self.priority_order@.take(n as int) == self.priority_order@);
            if self.allow_identity {
                let ghost start = transitions@;
                let mut b: u8 = 32;
                while b <= 126
                    invariant
                        32 <= b <= 127,
                        transitions@ == start + identity_arcs().take(b - 32),
                    decreases 127 - b,
                {
                    let c: char = b as char;
                    transitions.push(RewriteTransition { from: 0, input: Some(c), output: Some(c), to: 0, weight_key: 0 });
                    b = b + 1;
                    assert(transitions@ =~= start + identity_arcs().take(b - 32));
                }
                assert(identity_arcs().take(95) =~= identity_arcs());
            } else {
                assert(transitions@ + Seq::<RewriteTransition>::empty() =~= transitions@);
            }
        } else {
            match self.decode_continuation_state(state) {
                Some((rule_index, step)) => {
                    self.push_rule_step_transition(&mut transitions, rule_index, step);
                    assert(Seq::<RewriteTransition>::empty() + opt_seq(self.spec_step_transition(rule_index as int, step as int))
                        =~= opt_seq(self.spec_step_transition(rule_index as int, step as int)));
                },
                None => {},
            }
        }
        prune_dominated_transitions(&mut transitions);
        RewriteExpansion { is_final: state == 0, transitions }
    }
}

/// Decoding the ID of a rule's continuation gives back the rule and step,
/// and a decoded ID is the ID of the continuation it decodes to.
pub proof fn lemma_continuation_ids_roundtrip(wfst: RewriteWfst, rule_index: int, step: int, id: u32)
    requires
        wfst.wf(),
        0 <= rule_index < wfst.spec_rules().len(),
        1 <= step < rule_steps(wfst.spec_rules()[rule_index]),
    ensures
        wfst.spec_continuation_state(rule_index, step) == Some(id) ==>
            wfst.spec_decode(id) == Some(ContinuationState { rule_index: rule_index as usize, step: step as usize }),
        wfst.spec_decode(id) == Some(ContinuationState { rule_index: rule_index as usize, step: step as usize }) ==>
            wfst.spec_continuation_state(rule_index, step) == Some(id),
{
    let rules = wfst.spec_rules();
    lemma_continuation_table_entry(rules, rule_index, step);
    lemma_continuation_table_len(rules);
    reveal_wf_lookup(wfst);
    if wfst.spec_decode(id) == Some(ContinuationState { rule_index: rule_index as usize, step: step as usize }) {
        lemma_continuation_table_inverse(rules, id - 1);
    }
}

proof fn reveal_wf_lookup(wfst: RewriteWfst)
    requires
        wfst.wf(),
    ensures
        wfst.spec_continuation_lookup() == continuation_table(wfst.spec_rules()),
        wfst.spec_rules().len() <= usize::MAX,
        continuation_count(wfst.spec_rules()) <= usize::MAX,
{
    lemma_continuation_table_len(wfst.spec_rules());
    assert(wfst.rules@.len() == wfst.rules.len());
    assert(wfst.continuation_lookup@.len() == wfst.continuation_lookup.len());
}

/// A rule's transitions form a chain: the first leaves home, each step ends
/// where the next begins, and the last returns home.
pub proof fn lemma_rule_chain(wfst: RewriteWfst, rule_index: int, step: int)
    requires
        wfst.wf(),
        0 <= rule_index < wfst.spec_rules().len(),
        0 <= step < rule_steps(wfst.spec_rules()[rule_index]),
    ensures
        wfst.spec_step_transition(rule_index, step) matches Some(t) ==> {
            &&& (step == 0 ==> t.from == 0)
            &&& (step + 1 == rule_steps(wfst.spec_rules()[rule_index]) ==> t.to == 0)
            &&& (wfst.spec_step_transition(rule_index, step + 1) matches Some(u) ==> t.to == u.from)
        },
{
}

/// Neither of two rules is enumerated before the other both ways.
proof fn lemma_rule_before_asymmetric(rules: Seq<RewriteRule>, a: int, b: int)
    ensures
        !(rule_before(rules, a, b) && rule_before(rules, b, a)),
{
}

/// Two enumeration orders over the same rule indices, both strictly ordered
/// by `rule_before`, are equal.
proof fn lemma_sorted_orders_equal(rules: Seq<RewriteRule>, a: Seq<usize>, b: Seq<usize>)
    requires
        forall|i: int, j: int| 0 <= i < j < a.len() ==> rule_before(rules, #[trigger] a[i] as int, #[trigger] a[j] as int),
        forall|i: int, j: int| 0 <= i < j < b.len() ==> rule_before(rules, #[trigger] b[i] as int, #[trigger] b[j] as int),
        a.to_set() == b.to_set(),
    ensures
        a == b,
    decreases a.len() + b.len(),
{
    if a.len() == 0 || b.len() == 0 {
        if a.len() > 0 {
            assert(a.to_set().contains(a[0]));
        }
        if b.len() > 0 {
            assert(b.to_set().contains(b[0]));
        }
        assert(a =~= b);
    } else {
        let la = a.last();
        let lb = b.last();
        assert(a.to_set().contains(la));
        assert(b.to_set().contains(lb));
        let ia = choose|i: int| 0 <= i < a.len() && a[i] == lb;
        let ib = choose|i: int| 0 <= i < b.len() && b[i] == la;
        if la != lb {
            assert(ia < a.len() - 1);
            assert(ib < b.len() - 1);
            assert(rule_before(rules, lb as int, la as int));
            assert(rule_before(rules, la as int, lb as int));
            lemma_rule_before_asymmetric(rules, la as int, lb as int);
        }
        let a2 = a.drop_last();
        let b2 = b.drop_last();
        assert forall|x: usize| a2.to_set().contains(x) <==> b2.to_set().contains(x) by {
            if a2.to_set().contains(x) {
                let i = choose|i: int| 0 <= i < a2.len() && a2[i] == x;
                assert(a.to_set().contains(x));
                let j = choose|j: int| 0 <= j < b.len() && b[j] == x;
                assert(rule_before(rules, x as int, la as int));
                lemma_rule_before_asymmetric(rules, x as int, la as int);
                assert(j != b.len() - 1);
                assert(b2[j] == x);
            }
            if b2.to_set().contains(x) {
                let i = choose|i: int| 0 <= i < b2.len() && b2[i] == x;
                assert(b.to_set().contains(x));
                let j = choose|j: int| 0 <= j < a.len() && a[j] == x;
                assert(rule_before(rules, x as int, lb as int));
                lemma_rule_before_asymmetric(rules, x as int, lb as int);
                assert(j != a.len() - 1);
                assert(a2[j] == x);
            }
        }
        assert(a2.to_set() =~= b2.to_set());
        lemma_sorted_orders_equal(rules, a2, b2);
        assert(a =~= b2.push(lb));
        assert(b =~= b2.push(lb));
    }
}

/// The enumeration order and the continuation numbering are determined by
/// the rules alone: rule sets built in bulk or rule by rule agree.
pub proof fn lemma_metadata_determined_by_rules(x: RewriteWfst, y: RewriteWfst)
    requires
        x.wf(),
        y.wf(),
        x.spec_rules() == y.spec_rules(),
    ensures
        x.spec_priority_order() == y.spec_priority_order(),
        x.spec_continuation_lookup() == y.spec_continuation_lookup(),
        x.spec_continuation_end_offsets() == y.spec_continuation_end_offsets(),
        x.spec_num_states() == y.spec_num_states(),
{
    let rules = x.spec_rules();
    let a = x.spec_priority_order();
    let b = y.spec_priority_order();
    assert forall|k: usize| a.to_set().contains(k) <==> b.to_set().contains(k) by {
        if a.to_set().contains(k) {
            let i = choose|i: int| 0 <= i < a.len() && a[i] == k;
            assert(k < rules.len());
            assert(b.contains(k));
        }
        if b.to_set().contains(k) {
            let i = choose|i: int| 0 <= i < b.len() && b[i] == k;
            assert(k < rules.len());
            assert(a.contains(k));
        }
    }
    assert(a.to_set() =~= b.to_set());
    lemma_sorted_orders_equal(rules, a, b);
    assert(x.spec_continuation_end_offsets() =~= y.spec_continuation_end_offsets());
}

/// Key of the cost 0.1: its `f64` bit pattern.
pub const COST_KEY_ONE_TENTH: u64 = 0x3fb9_9999_9999_999a;
/// Key of the cost 0.2: its `f64` bit pattern.
pub const COST_KEY_ONE_FIFTH: u64 = 0x3fc9_9999_9999_999a;

/// Builder for common phonetic rewrite rules.
pub struct CommonPhoneticRules;

/// The rule `input -> output` with cost key `cost_key` and priority 0.
pub open spec fn spec_rule(input: Seq<char>, output: Seq<char>, cost_key: u64) -> (Seq<char>, Seq<char>, u64, i32) {
    (input, output, cost_key, 0)
}

/// A rule as its input, output, cost key and priority.
pub open spec fn rule_parts(rule: RewriteRule) -> (Seq<char>, Seq<char>, u64, i32) {
    (rule.input@, rule.output@, rule.cost_key, rule.priority)
}

fn fixed_rule(input: &str, output: &str, cost_key: u64) -> (r: RewriteRule)
    ensures
        rule_parts(r) == spec_rule(input@, output@, cost_key),
{
    RewriteRule { input: input.to_owned(), output: output.to_owned(), cost_key, priority: 0 }
}

impl CommonPhoneticRules {
    /// English phonetic rules.
    pub fn english() -> (r: Vec<RewriteRule>)
        ensures
            r@.map_values(|x: RewriteRule| rule_parts(x)) == seq![
                spec_rule("ph"@, "f"@, COST_KEY_ONE_TENTH),
                spec_rule("gh"@, "f"@, COST_KEY_ONE_FIFTH),
                spec_rule("ck"@, "k"@, COST_KEY_ONE_TENTH),
                spec_rule("qu"@, "kw"@, COST_KEY_ONE_TENTH),
                spec_rule("x"@, "ks"@, COST_KEY_ONE_TENTH),
                spec_rule("c"@, "k"@, COST_KEY_ONE_FIFTH),
                spec_rule("c"@, "s"@, COST_KEY_ONE_FIFTH),
            ],
    {
        let mut r: Vec<RewriteRule> = Vec::new();
        r.push(fixed_rule("ph", "f", COST_KEY_ONE_TENTH));
        r.push(fixed_rule("gh", "f", COST_KEY_ONE_FIFTH));
        r.push(fixed_rule("ck", "k", COST_KEY_ONE_TENTH));
        r.push(fixed_rule("qu", "kw", COST_KEY_ONE_TENTH));
        r.push(fixed_rule("x", "ks", COST_KEY_ONE_TENTH));
        r.push(fixed_rule("c", "k", COST_KEY_ONE_FIFTH));
        r.push(fixed_rule("c", "s", COST_KEY_ONE_FIFTH));
        assert(r@.map_values(|x: RewriteRule| rule_parts(x)) =~= seq![
            spec_rule("ph"@, "f"@, COST_KEY_ONE_TENTH),
            spec_rule("gh"@, "f"@, COST_KEY_ONE_FIFTH),
            spec_rule("ck"@, "k"@, COST_KEY_ONE_TENTH),
            spec_rule("qu"@, "kw"@, COST_KEY_ONE_TENTH),
            spec_rule("x"@, "ks"@, COST_KEY_ONE_TENTH),
            spec_rule("c"@, "k"@, COST_KEY_ONE_FIFTH),
            spec_rule("c"@, "s"@, COST_KEY_ONE_FIFTH),
        ]);
        r
    }

    /// German phonetic rules.
    pub fn german() -> (r: Vec<RewriteRule>)
        ensures
            r@.map_values(|x: RewriteRule| rule_parts(x)) == seq![
                spec_rule("sch"@, "sh"@, COST_KEY_ONE_TENTH),
                spec_rule("ch"@, "x"@, COST_KEY_ONE_TENTH),
                spec_rule("ß"@, "ss"@, COST_KEY_ONE_TENTH),
                spec_rule("ä"@, "ae"@, COST_KEY_ONE_TENTH),
                spec_rule("ö"@, "oe"@, COST_KEY_ONE_TENTH),
                spec_rule("ü"@, "ue"@, COST_KEY_ONE_TENTH),
            ],
    {
        let mut r: Vec<RewriteRule> = Vec::new();
        r.push(fixed_rule("sch", "sh", COST_KEY_ONE_TENTH));
        r.push(fixed_rule("ch", "x", COST_KEY_ONE_TENTH));
        r.push(fixed_rule("ß", "ss", COST_KEY_ONE_TENTH));
        r.push(fixed_rule("ä", "ae", COST_KEY_ONE_TENTH));
        r.push(fixed_rule("ö", "oe", COST_KEY_ONE_TENTH));
        r.push(fixed_rule("ü", "ue", COST_KEY_ONE_TENTH));
        assert(r@.map_values(|x: RewriteRule| rule_parts(x)) =~= seq![
            spec_rule("sch"@, "sh"@, COST_KEY_ONE_TENTH),
            spec_rule("ch"@, "x"@, COST_KEY_ONE_TENTH),
            spec_rule("ß"@, "ss"@, COST_KEY_ONE_TENTH),
            spec_rule("ä"@, "ae"@, COST_KEY_ONE_TENTH),
            spec_rule("ö"@, "oe"@, COST_KEY_ONE_TENTH),
            spec_rule("ü"@, "ue"@, COST_KEY_ONE_TENTH),
        ]);
        r
    }

    /// French phonetic rules.
    pub fn french() -> (r: Vec<RewriteRule>)
        ensures
            r@.map_values(|x: RewriteRule| rule_parts(x)) == seq![
                spec_rule("eau"@, "o"@, COST_KEY_ONE_TENTH),
                spec_rule("aux"@, "o"@, COST_KEY_ONE_TENTH),
                spec_rule("ai"@, "e"@, COST_KEY_ONE_TENTH),
                spec_rule("ph"@, "f"@, COST_KEY_ONE_TENTH),
                spec_rule("qu"@, "k"@, COST_KEY_ONE_TENTH),
            ],
    {
        let mut r: Vec<RewriteRule> = Vec::new();
        r.push(fixed_rule("eau", "o", COST_KEY_ONE_TENTH));
        r.push(fixed_rule("aux", "o", COST_KEY_ONE_TENTH));
        r.push(fixed_rule("ai", "e", COST_KEY_ONE_TENTH));
        r.push(fixed_rule("ph", "f", COST_KEY_ONE_TENTH));
        r.push(fixed_rule("qu", "k", COST_KEY_ONE_TENTH));
        assert(r@.map_values(|x: RewriteRule| rule_parts(x)) =~= seq![
            spec_rule("eau"@, "o"@, COST_KEY_ONE_TENTH),
            spec_rule("aux"@, "o"@, COST_KEY_ONE_TENTH),
            spec_rule("ai"@, "e"@, COST_KEY_ONE_TENTH),
            spec_rule("ph"@, "f"@, COST_KEY_ONE_TENTH),
            spec_rule("qu"@, "k"@, COST_KEY_ONE_TENTH),
        ]);
        r
    }
}

/// Every transition pruning keeps comes from the input.
pub proof fn lemma_prune_from_input(ts: Seq<RewriteTransition>)
    ensures
        forall|i: int| 0 <= i < spec_prune(ts).len()
            ==> exists|k: int| 0 <= k < ts.len() && ts[k] == #[trigger] spec_prune(ts)[i],
    decreases ts.len(),
{
    if ts.len() == 0 {
        return;
    }
    let prev = ts.drop_last();
    lemma_prune_from_input(prev);
    let n = spec_prune(prev);
    let x = ts.last();
    let last = ts.len() - 1;
    let p = spec_prune(ts);
    if exists|j: int| 0 <= j < n.len() && same_arc(n[j], x) {
        let j = choose|j: int| 0 <= j < n.len() && same_arc(n[j], x);
        let upd = x.weight_key < n[j].weight_key;
        assert(p == (if upd { n.update(j, x) } else { n }));
        assert forall|i: int| 0 <= i < p.len()
            implies exists|k: int| 0 <= k < ts.len() && ts[k] == #[trigger] p[i] by {
            if i == j && upd {
                assert(ts[last] == p[i]);
            } else {
                let k = choose|k: int| 0 <= k < prev.len() && prev[k] == #[trigger] n[i];
                assert(ts[k] == p[i]);
            }
        }
    } else {
        assert(p == n.push(x));
        assert forall|i: int| 0 <= i < p.len()
            implies exists|k: int| 0 <= k < ts.len() && ts[k] == #[trigger] p[i] by {
            if i == n.len() {
                assert(ts[last] == p[i]);
            } else {
                let k = choose|k: int| 0 <= k < prev.len() && prev[k] == #[trigger] n[i];
                assert(ts[k] == p[i]);
            }
        }
    }
}

/// Every input transition has a parallel transition that pruning keeps.
pub proof fn lemma_prune_covers(ts: Seq<RewriteTransition>)
    ensures
        forall|k: int| #![trigger ts[k]] 0 <= k < ts.len()
            ==> exists|i: int| 0 <= i < spec_prune(ts).len() && same_arc(#[trigger] spec_prune(ts)[i], ts[k]),
    decreases ts.len(),
{
    if ts.len() == 0 {
        return;
    }
    let prev = ts.drop_last();
    lemma_prune_covers(prev);
    let n = spec_prune(prev);
    let x = ts.last();
    let last = ts.len() - 1;
    let p = spec_prune(ts);
    if exists|j: int| 0 <= j < n.len() && same_arc(n[j], x) {
        let j = choose|j: int| 0 <= j < n.len() && same_arc(n[j], x);
        let upd = x.weight_key < n[j].weight_key;
        assert(p == (if upd { n.update(j, x) } else { n }));
        assert forall|k: int| #![trigger ts[k]] 0 <= k < ts.len()
            implies exists|i: int| 0 <= i < p.len() && same_arc(#[trigger] p[i], ts[k]) by {
            if k < last {
                assert(prev[k] == ts[k]);
                let i = choose|i: int| 0 <= i < n.len() && same_arc(#[trigger] n[i], prev[k]);
                assert(same_arc(p[i], ts[k]));
            } else {
                assert(same_arc(p[j], ts[k]));
            }
        }
    } else {
        assert(p == n.push(x));
        assert forall|k: int| #![trigger ts[k]] 0 <= k < ts.len()
            implies exists|i: int| 0 <= i < p.len() && same_arc(#[trigger] p[i], ts[k]) by {
            if k < last {
                assert(prev[k] == ts[k]);
                let i = choose|i: int| 0 <= i < n.len() && same_arc(#[trigger] n[i], prev[k]);
                assert(same_arc(p[i], ts[k]));
            } else {
                assert(same_arc(p[n.len() as int], ts[k]));
            }
        }
    }
}

/// Pruning keeps a cheapest transition of each group of parallel ones (same
/// endpoints and labels): no input transition parallel to a kept one is
/// cheaper. With `lemma_prune_from_input`, `lemma_prune_covers` and
/// `lemma_prune_distinct`: exactly one transition of each group is kept, a
/// cheapest one.
pub proof fn lemma_prune_keeps_cheapest(ts: Seq<RewriteTransition>)
    ensures
        forall|i: int, k: int| 0 <= i < spec_prune(ts).len() && 0 <= k < ts.len()
            && same_arc(#[trigger] spec_prune(ts)[i], #[trigger] ts[k])
            ==> spec_prune(ts)[i].weight_key <= ts[k].weight_key,
    decreases ts.len(),
{
    if ts.len() == 0 {
        return;
    }
    let prev = ts.drop_last();
    lemma_prune_keeps_cheapest(prev);
    lemma_prune_covers(prev);
    lemma_prune_distinct(prev);
    let n = spec_prune(prev);
    let x = ts.last();
    let last = ts.len() - 1;
    let p = spec_prune(ts);
    if exists|j: int| 0 <= j < n.len() && same_arc(n[j], x) {
        let j = choose|j: int| 0 <= j < n.len() && same_arc(n[j], x);
        let upd = x.weight_key < n[j].weight_key;
        assert(p == (if upd { n.update(j, x) } else { n }));
        assert forall|i: int, k: int| 0 <= i < p.len() && 0 <= k < ts.len() && same_arc(#[trigger] p[i], #[trigger] ts[k])
            implies p[i].weight_key <= ts[k].weight_key by {
            if k < last {
                assert(prev[k] == ts[k]);
                if i == j && upd {
                    assert(same_arc(n[j], prev[k]));
                } else {
                    assert(p[i] == n[i]);
                    assert(same_arc(n[i], prev[k]));
                }
            } else if i != j {
                assert(p[i] == n[i]);
                assert(same_arc(n[i], n[j]));
            }
        }
    } else {
        assert(p == n.push(x));
        assert forall|i: int, k: int| 0 <= i < p.len() && 0 <= k < ts.len() && same_arc(#[trigger] p[i], #[trigger] ts[k])
            implies p[i].weight_key <= ts[k].weight_key by {
            if k < last {
                assert(prev[k] == ts[k]);
                if i == n.len() {
                    let m = choose|m: int| 0 <= m < n.len() && same_arc(#[trigger] n[m], prev[k]);
                    assert(same_arc(n[m], x));
                } else {
                    assert(p[i] == n[i]);
                    assert(same_arc(n[i], prev[k]));
                }
            } else if i < n.len() {
                assert(p[i] == n[i]);
                assert(same_arc(n[i], x));
            }
        }
    }
}

} // verus!
