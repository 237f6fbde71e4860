//! Soundness of the fzf prefix bound used for branch-and-bound pruning.
use vstd::prelude::*;
use crate::fzf_support::{
    sat_i32, sat_usize, spec_bonus_for, spec_comparable_char, spec_max_bonus, spec_next_cell, Cell, CharClass,
    FzfColumnModel, FzfCore, FzfScheme, BONUS_FIRST_CHAR_MULTIPLIER, SCORE_GAP_EXTENSION, SCORE_GAP_START,
    SCORE_MATCH, UNREACHABLE_SCORE,
};

verus! {

/// Optimistic completion of a cell of score `score` with `remaining` query
/// characters left, each matched with the best bonus.
pub open spec fn completion(score: i32, remaining: int, per_match: i32) -> i32 {
    let r: i32 = if remaining > i32::MAX { i32::MAX } else { remaining as i32 };
    sat_i32(score + sat_i32(r * per_match))
}

/// Every cell has a nonnegative score and a first bonus within the scheme's maximum.
pub open spec fn cells_bounded(cells: Seq<Cell>, max_bonus: i32) -> bool {
    forall|i: int| 0 <= i < cells.len() ==> {
        &&& 0 <= (#[trigger] cells[i]).score
        &&& 0 <= cells[i].first_bonus <= max_bonus
    }
}

proof fn lemma_bonus_range(scheme: FzfScheme, previous: CharClass, current: CharClass)
    ensures
        0 <= spec_bonus_for(scheme, previous, current) <= spec_max_bonus(scheme),
        8 <= spec_max_bonus(scheme) <= 10,
{
}

proof fn lemma_completion_monotone(x: i32, y: i32, remaining: int, per_match: i32)
    requires
        x <= y,
        remaining >= 0,
        per_match > 0,
    ensures
        completion(x, remaining, per_match) <= completion(y, remaining, per_match),
{
}

proof fn lemma_completion_step(x: i32, y: i32, remaining: int, per_match: i32)
    requires
        0 <= y,
        x <= y + per_match,
        remaining >= 0,
        0 < per_match <= 26,
    ensures
        completion(x, remaining, per_match) <= completion(y, remaining + 1, per_match),
{
    let r: int = if remaining > i32::MAX { i32::MAX as int } else { remaining };
    let r1: int = if remaining + 1 > i32::MAX { i32::MAX as int } else { remaining + 1 };
    if remaining + 1 > i32::MAX {
        assert(r1 * per_match >= i32::MAX) by (nonlinear_arith) requires r1 == i32::MAX, per_match >= 1;
    } else {
        assert(r1 * per_match == r * per_match + per_match) by (nonlinear_arith)
            requires r1 == r + 1;
        assert(r * per_match >= 0) by (nonlinear_arith) requires r >= 0, per_match > 0;
    }
}

/// The fold of the bound over cells is at least its start.
proof fn lemma_bound_upto_start(core: FzfCore, cells: Seq<Cell>, k: int, available: int, start: Option<i32>)
    requires
        start is Some,
    ensures
        core.spec_bound_upto(cells, k, available, start) is Some,
        core.spec_bound_upto(cells, k, available, start)->0 >= start->0,
    decreases k,
{
    if k > 0 {
        lemma_bound_upto_start(core, cells, k - 1, available, start);
    }
}

/// The fold of the bound over cells dominates each included cell.
proof fn lemma_bound_upto_cell(core: FzfCore, cells: Seq<Cell>, k: int, available: int, start: Option<i32>, j: int)
    requires
        0 <= j < k,
        core.spec_cell_bound(cells, j, available) is Some,
    ensures
        core.spec_bound_upto(cells, k, available, start) is Some,
        core.spec_bound_upto(cells, k, available, start)->0 >= core.spec_cell_bound(cells, j, available)->0,
    decreases k,
{
    if j < k - 1 {
        lemma_bound_upto_cell(core, cells, k - 1, available, start, j);
    }
}

/// The fold of the bound over cells is its start or one of the included cells.
proof fn lemma_bound_upto_witness(core: FzfCore, cells: Seq<Cell>, k: int, available: int, start: Option<i32>)
    requires
        core.spec_bound_upto(cells, k, available, start) is Some,
    ensures
        start == core.spec_bound_upto(cells, k, available, start)
            || exists|j: int| 0 <= j < k
                && core.spec_cell_bound(cells, j, available) == core.spec_bound_upto(cells, k, available, start),
    decreases k,
{
    if k > 0 {
        let prev = core.spec_bound_upto(cells, k - 1, available, start);
        let here = core.spec_cell_bound(cells, k - 1, available);
        if prev is Some {
            lemma_bound_upto_witness(core, cells, k - 1, available, start);
        }
        if here == core.spec_bound_upto(cells, k, available, start) {
            assert(core.spec_cell_bound(cells, k - 1, available) == core.spec_bound_upto(cells, k, available, start));
        }
    }
}

/// Every column reached from the initial one has the query's length and bounded cells.
pub proof fn lemma_column_bounded(core: FzfCore, s: Seq<char>)
    requires
        core.wf(),
    ensures
        core.spec_column_after(s).cells.len() == core.spec_query().len(),
        cells_bounded(core.spec_column_after(s).cells, core.spec_max_bonus()),
        core.spec_column_after(s).depth == sat_usize(s.len() as int),
    decreases s.len(),
{
    lemma_bonus_range(core.spec_config().scheme, CharClass::White, CharClass::White);
    if s.len() > 0 {
        let prev = core.spec_column_after(s.drop_last());
        lemma_column_bounded(core, s.drop_last());
        let c = s.last();
        let class = core.spec_classify(c);
        let bonus = spec_bonus_for(core.spec_config().scheme, prev.previous_class, class);
        lemma_bonus_range(core.spec_config().scheme, prev.previous_class, class);
        let child = core.spec_column_after(s);
        assert forall|i: int| 0 <= i < child.cells.len() implies {
            &&& 0 <= (#[trigger] child.cells[i]).score
            &&& 0 <= child.cells[i].first_bonus <= core.spec_max_bonus()
        } by {
            assert(0 <= prev.cells[i].score);
            if i > 0 {
                assert(0 <= prev.cells[i - 1].first_bonus <= core.spec_max_bonus());
            }
        }
    }
}

/// One child cell's completion is dominated by the parent's bound terms.
proof fn lemma_child_cell_dominated(
    core: FzfCore, prev: FzfColumnModel, child: FzfColumnModel, c: char, i: int, available: int)
    requires
        core.wf(),
        prev.cells.len() == core.spec_query().len(),
        cells_bounded(prev.cells, core.spec_max_bonus()),
        child == core.spec_advance(prev, c),
        0 <= i < core.spec_query().len(),
        available >= 1,
        core.spec_cell_bound(child.cells, i, available - 1) is Some,
    ensures
        ({
            let x = core.spec_cell_bound(child.cells, i, available - 1)->0;
            ||| (core.spec_query().len() <= available && x <= core.spec_maximum_score())
            ||| exists|j: int| 0 <= j < core.spec_query().len()
                    && core.spec_cell_bound(prev.cells, j, available) is Some
                    && x <= (#[trigger] core.spec_cell_bound(prev.cells, j, available))->0
        }),
{
    let q = core.spec_query();
    let mb = core.spec_max_bonus();
    let pm: i32 = sat_i32(SCORE_MATCH + mb);
    let class = core.spec_classify(c);
    let bonus = spec_bonus_for(core.spec_config().scheme, prev.previous_class, class);
    lemma_bonus_range(core.spec_config().scheme, prev.previous_class, class);
    let unit = spec_comparable_char(c, core.spec_config().case_sensitive);
    let cell = child.cells[i];
    assert(cell == spec_next_cell(q, prev.cells, i, unit, bonus));
    let rem: int = q.len() - (i + 1);
    let x = core.spec_cell_bound(child.cells, i, available - 1)->0;
    assert(x == completion(cell.score, rem, pm));
    if i == 0 {
        let p = prev.cells[0];
        if unit == q[0] {
            lemma_completion_monotone(cell.score, sat_i32(SCORE_MATCH + sat_i32(mb * BONUS_FIRST_CHAR_MULTIPLIER)), rem, pm);
            assert(x <= core.spec_maximum_score());
        } else {
            assert(p.reachable);
            lemma_completion_monotone(cell.score, p.score, rem, pm);
            assert(x <= core.spec_cell_bound(prev.cells, 0, available)->0);
        }
    } else {
        let left = prev.cells[i];
        let diagonal = prev.cells[i - 1];
        let matched = unit == q[i] && diagonal.reachable;
        if cell.score == 0 {
            if left.reachable {
                lemma_completion_monotone(cell.score, left.score, rem, pm);
                assert(x <= core.spec_cell_bound(prev.cells, i, available)->0);
            } else {
                assert(matched);
                lemma_completion_step(cell.score, diagonal.score, rem, pm);
                assert(core.spec_cell_bound(prev.cells, i - 1, available) is Some);
                assert(x <= core.spec_cell_bound(prev.cells, i - 1, available)->0);
            }
        } else {
            let gap_value: i32 = if left.reachable {
                sat_i32(left.score + (if left.in_gap { SCORE_GAP_EXTENSION } else { SCORE_GAP_START }))
            } else {
                UNREACHABLE_SCORE
            };
            if left.reachable && cell.score == gap_value {
                lemma_completion_monotone(cell.score, left.score, rem, pm);
                assert(x <= core.spec_cell_bound(prev.cells, i, available)->0);
            } else {
                assert(matched);
                assert(cell.score <= diagonal.score + pm);
                lemma_completion_step(cell.score, diagonal.score, rem, pm);
                assert(core.spec_cell_bound(prev.cells, i - 1, available) is Some);
                assert(x <= core.spec_cell_bound(prev.cells, i - 1, available)->0);
            }
        }
    }
}

/// Extending a prefix by one character inside the candidate limit never
/// raises the bound, and a bound on the child implies one on the parent.
pub proof fn lemma_child_bound_below_parent(core: FzfCore, prev: FzfColumnModel, c: char)
    requires
        core.wf(),
        prev.cells.len() == core.spec_query().len(),
        cells_bounded(prev.cells, core.spec_max_bonus()),
        prev.depth < core.spec_config().max_candidate_chars,
        core.spec_upper_bound(core.spec_advance(prev, c)) is Some,
    ensures
        core.spec_upper_bound(prev) is Some,
        core.spec_upper_bound(core.spec_advance(prev, c))->0 <= core.spec_upper_bound(prev)->0,
{
    let child = core.spec_advance(prev, c);
    let n = core.spec_query().len() as int;
    let max = core.spec_config().max_candidate_chars;
    let available: int = max - prev.depth;
    assert(child.depth == prev.depth + 1);
    let avail_c: int = available - 1;
    let mscore = core.spec_maximum_score();
    let parent_cells = core.spec_bound_upto(prev.cells, n, available, prev.best_full_score);
    let child_cells = core.spec_bound_upto(child.cells, n, avail_c, child.best_full_score);
    let pb = core.spec_upper_bound(prev);
    let cb = core.spec_upper_bound(child);
    // Every candidate value of the child's bound is below some present parent term.
    let b = cb->0;
    // The parent bound is at least every present parent term.
    assert(forall|j: int| 0 <= j < n && (#[trigger] core.spec_cell_bound(prev.cells, j, available)) is Some ==>
        pb is Some && core.spec_cell_bound(prev.cells, j, available)->0 <= pb->0) by {
        assert forall|j: int| 0 <= j < n && (#[trigger] core.spec_cell_bound(prev.cells, j, available)) is Some implies
            pb is Some && core.spec_cell_bound(prev.cells, j, available)->0 <= pb->0 by {
            lemma_bound_upto_cell(core, prev.cells, n, available, prev.best_full_score, j);
        }
    }
    if prev.best_full_score is Some {
        lemma_bound_upto_start(core, prev.cells, n, available, prev.best_full_score);
    }
    let child_is_max = core.spec_query().len() <= avail_c && b == mscore;
    if child_is_max {
        assert(pb is Some && pb->0 >= mscore);
    } else {
        assert(child_cells == cb) by {
            if core.spec_query().len() <= avail_c {
                assert(cb == FzfCore::max_bound(child_cells, Some(mscore)));
            }
        }
        lemma_bound_upto_witness(core, child.cells, n, avail_c, child.best_full_score);
        if child.best_full_score == child_cells {
            // The child's best is the parent's best or the child's last cell.
            let current: Option<i32> = if child.cells.len() > 0 && child.cells.last().reachable {
                Some(child.cells.last().score)
            } else {
                None
            };
            if prev.best_full_score is Some && b == prev.best_full_score->0 {
            } else {
                assert(current == Some(b));
                assert(n > 0);
                let i = n - 1;
                assert(core.spec_cell_bound(child.cells, i, avail_c) is Some);
                assert(core.spec_cell_bound(child.cells, i, avail_c)->0 == b);
                lemma_child_cell_dominated(core, prev, child, c, i, available);
            }
        } else {
            let i = choose|j: int| 0 <= j < n
                && core.spec_cell_bound(child.cells, j, avail_c) == child_cells;
            lemma_child_cell_dominated(core, prev, child, c, i, available);
        }
    }
}

/// Branch-and-bound soundness: within the candidate limit, the bound computed
/// at a prefix dominates the score of every candidate extending that prefix.
pub proof fn lemma_prefix_bound_dominates_descendants(core: FzfCore, prefix: Seq<char>, suffix: Seq<char>)
    requires
        core.wf(),
        prefix.len() + suffix.len() <= core.spec_config().max_candidate_chars,
        core.spec_score(prefix + suffix) is Ok,
        core.spec_score(prefix + suffix)->Ok_0 is Some,
    ensures
        core.spec_upper_bound(core.spec_column_after(prefix)) is Some,
        core.spec_score(prefix + suffix)->Ok_0->0 <= core.spec_upper_bound(core.spec_column_after(prefix))->0,
    decreases suffix.len(),
{
    let full = prefix + suffix;
    let col = core.spec_column_after(full);
    lemma_column_bounded(core, full);
    let x = col.best_full_score->0;
    let n = core.spec_query().len() as int;
    let max = core.spec_config().max_candidate_chars;
    let available: int = if col.depth >= max { 0 } else { max - col.depth };
    lemma_bound_upto_start(core, col.cells, n, available, col.best_full_score);
    if suffix.len() == 0 {
        assert(full == prefix);
    } else {
        let shorter = prefix + suffix.drop_last();
        assert(full.drop_last() == shorter);
        let parent = core.spec_column_after(shorter);
        lemma_column_bounded(core, shorter);
        assert(col == core.spec_advance(parent, suffix.last()));
        lemma_child_bound_below_parent(core, parent, suffix.last());
        // The parent's own bound is dominated by the prefix bound, by the same argument.
        lemma_bound_chain(core, prefix, suffix.drop_last());
    }
}

/// Along a chain of extensions inside the candidate limit the bound never rises.
pub proof fn lemma_bound_chain(core: FzfCore, prefix: Seq<char>, suffix: Seq<char>)
    requires
        core.wf(),
        prefix.len() + suffix.len() < core.spec_config().max_candidate_chars + 1,
        core.spec_upper_bound(core.spec_column_after(prefix + suffix)) is Some,
    ensures
        core.spec_upper_bound(core.spec_column_after(prefix)) is Some,
        core.spec_upper_bound(core.spec_column_after(prefix + suffix))->0
            <= core.spec_upper_bound(core.spec_column_after(prefix))->0,
    decreases suffix.len(),
{
    if suffix.len() == 0 {
        assert(prefix + suffix == prefix);
    } else {
        let full = prefix + suffix;
        let shorter = prefix + suffix.drop_last();
        assert(full.drop_last() == shorter);
        let parent = core.spec_column_after(shorter);
        lemma_column_bounded(core, shorter);
        lemma_child_bound_below_parent(core, parent, suffix.last());
        lemma_bound_chain(core, prefix, suffix.drop_last());
    }
}


/// Over unreachable cells the bound is its start.
proof fn lemma_bound_upto_unreachable(core: FzfCore, cells: Seq<Cell>, k: int, available: int, start: Option<i32>)
    requires
        0 <= k <= cells.len(),
        forall|i: int| 0 <= i < cells.len() ==> !(#[trigger] cells[i]).reachable,
    ensures
        core.spec_bound_upto(cells, k, available, start) == start,
    decreases k,
{
    if k > 0 {
        lemma_bound_upto_unreachable(core, cells, k - 1, available, start);
        assert(!cells[k - 1].reachable);
    }
}

/// No candidate scores above the query's maximum score.
pub proof fn lemma_score_at_most_maximum(core: FzfCore, s: Seq<char>)
    requires
        core.wf(),
        core.spec_score(s) matches Ok(Some(_)),
    ensures
        core.spec_score(s)->Ok_0->0 <= core.spec_maximum_score(),
{
    let empty = Seq::<char>::empty();
    assert(empty + s =~= s);
    lemma_prefix_bound_dominates_descendants(core, empty, s);
    let init = core.spec_column_after(empty);
    assert(init == core.spec_initial_column());
    let n = core.spec_query().len() as int;
    let max = core.spec_config().max_candidate_chars;
    let available: int = if init.depth >= max { 0 } else { max - init.depth };
    lemma_bound_upto_unreachable(core, init.cells, n, available, init.best_full_score);
}

} // verus!
