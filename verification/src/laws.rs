//! Proved global properties of a solving round.
//!
//! The central notion is a *completed solution*: a full 9x9 assignment of
//! digits in which every unit holds each digit exactly once (`latin`). A
//! grid *respects* such a solution when every solved cell agrees with it
//! and every unsolved cell still has the solution's digit among its
//! candidates. The main theorem (`lemma_round_preserves_solution`) shows
//! that one solving round keeps this relation, for any selection of
//! strategies, provided the grid is pruned (no unsolved cell still lists
//! a digit already assigned in one of its units): the engine never
//! deduces anything that contradicts a completion of the grid.

use crate::solver::{
    default_strategies, spec_apply_step, spec_apply_steps, spec_cell_steps, spec_cell_steps_from,
    spec_determine, spec_determine_upto, spec_strategy_result, SolveStepView, Strategy,
};
use crate::solver::strategies::{
    assigned_values, count_candidates, count_in_seq, dedup_adjacent, first_owned_single,
    grouped_possibilities, lemma_assigned_values, lemma_dedup_adjacent, lemma_grouped_upto,
    match_count, others_possibilities, spec_naked_single, subset_seq, tuple_qualifies,
};
use crate::solver::filter_present;
use crate::sudoku::{
    box_column, box_fields, box_of, box_row, column_fields, digit_ok, grid_dims, grid_wf,
    lemma_remove_digits, remove_digits, sorted_strict, FieldPosition, FieldView,
};
use vstd::prelude::*;

verus! {

pub open spec fn solution_row_has(sol: Seq<Seq<usize>>, r: int, d: usize) -> bool {
    exists|c: int| 0 <= c < 9 && #[trigger] sol[r][c] == d
}

pub open spec fn solution_column_has(sol: Seq<Seq<usize>>, c: int, d: usize) -> bool {
    exists|r: int| 0 <= r < 9 && #[trigger] sol[r][c] == d
}

pub open spec fn solution_box_has(sol: Seq<Seq<usize>>, b: int, d: usize) -> bool {
    exists|k: int| 0 <= k < 9 && sol[box_row(b, k)][#[trigger] box_column(b, k)] == d
}

/// A completed solution: a full assignment in which every row, column
/// and box holds each digit exactly once.
pub open spec fn latin(sol: Seq<Seq<usize>>) -> bool {
    &&& sol.len() == 9
    &&& forall|r: int| 0 <= r < 9 ==> (#[trigger] sol[r]).len() == 9
    &&& forall|r: int, c: int| 0 <= r < 9 && 0 <= c < 9 ==> digit_ok(#[trigger] sol[r][c])
    &&& forall|r: int, c1: int, c2: int|
        0 <= r < 9 && 0 <= c1 < 9 && 0 <= c2 < 9 && c1 != c2 ==> #[trigger] sol[r][c1]
            != #[trigger] sol[r][c2]
    &&& forall|c: int, r1: int, r2: int|
        0 <= c < 9 && 0 <= r1 < 9 && 0 <= r2 < 9 && r1 != r2 ==> #[trigger] sol[r1][c]
            != #[trigger] sol[r2][c]
    &&& forall|r1: int, c1: int, r2: int, c2: int|
        #![trigger sol[r1][c1], sol[r2][c2]]
        0 <= r1 < 9 && 0 <= c1 < 9 && 0 <= r2 < 9 && 0 <= c2 < 9 && box_of(r1, c1) == box_of(
            r2,
            c2,
        ) && (r1 != r2 || c1 != c2) ==> sol[r1][c1] != sol[r2][c2]
    &&& forall|r: int, d: usize|
        0 <= r < 9 && digit_ok(d) ==> #[trigger] solution_row_has(sol, r, d)
    &&& forall|c: int, d: usize|
        0 <= c < 9 && digit_ok(d) ==> #[trigger] solution_column_has(sol, c, d)
    &&& forall|b: int, d: usize|
        0 <= b < 9 && digit_ok(d) ==> #[trigger] solution_box_has(sol, b, d)
}

/// The grid agrees with the solution: solved cells match it, unsolved
/// cells still allow it.
pub open spec fn respects(g: Seq<Seq<FieldView>>, sol: Seq<Seq<usize>>) -> bool {
    forall|r: int, c: int|
        0 <= r < 9 && 0 <= c < 9 ==> match (#[trigger] g[r][c]).value {
            Some(v) => v == sol[r][c],
            None => g[r][c].possibilities.contains(sol[r][c]),
        }
}

/// `v` is assigned somewhere in the row, column or box of cell `(r, c)`.
pub open spec fn value_in_units(g: Seq<Seq<FieldView>>, r: int, c: int, v: usize) -> bool {
    ||| exists|cc: int| 0 <= cc < 9 && (#[trigger] g[r][cc]).value == Some(v)
    ||| exists|rr: int| 0 <= rr < 9 && (#[trigger] g[rr][c]).value == Some(v)
    ||| exists|k: int|
        0 <= k < 9 && g[box_row(box_of(r, c), k)][#[trigger] box_column(box_of(r, c), k)].value
            == Some(v)
}

/// No unsolved cell still lists a digit already assigned in one of its
/// units; one round of the standard strategies establishes this for the
/// values assigned at the round's start.
pub open spec fn pruned(g: Seq<Seq<FieldView>>) -> bool {
    forall|r: int, c: int, v: usize|
        0 <= r < 9 && 0 <= c < 9 && g[r][c].value is None && (#[trigger] g[r][c].possibilities.contains(
            v,
        )) ==> !value_in_units(g, r, c, v)
}

/// A grid that respects a completed solution never assigns the same
/// digit twice in any row, column or box.
pub proof fn lemma_respects_no_duplicates(g: Seq<Seq<FieldView>>, sol: Seq<Seq<usize>>)
    requires
        grid_dims(g),
        latin(sol),
        respects(g, sol),
    ensures
        forall|r: int, c1: int, c2: int|
            0 <= r < 9 && 0 <= c1 < 9 && 0 <= c2 < 9 && c1 != c2 && (#[trigger] g[r][c1]).value is Some
                ==> g[r][c1].value != (#[trigger] g[r][c2]).value,
        forall|c: int, r1: int, r2: int|
            0 <= c < 9 && 0 <= r1 < 9 && 0 <= r2 < 9 && r1 != r2 && (#[trigger] g[r1][c]).value is Some
                ==> g[r1][c].value != (#[trigger] g[r2][c]).value,
        forall|r1: int, c1: int, r2: int, c2: int|
            #![trigger g[r1][c1], g[r2][c2]]
            0 <= r1 < 9 && 0 <= c1 < 9 && 0 <= r2 < 9 && 0 <= c2 < 9 && box_of(r1, c1) == box_of(
                r2,
                c2,
            ) && (r1 != r2 || c1 != c2) && g[r1][c1].value is Some ==> g[r1][c1].value
                != g[r2][c2].value,
{
    assert forall|r: int, c1: int, c2: int|
        0 <= r < 9 && 0 <= c1 < 9 && 0 <= c2 < 9 && c1 != c2 && (#[trigger] g[r][c1]).value is Some
        implies g[r][c1].value != (#[trigger] g[r][c2]).value by {
        if g[r][c2].value is Some {
            assert(g[r][c1].value == Some(sol[r][c1]));
            assert(g[r][c2].value == Some(sol[r][c2]));
        }
    }
    assert forall|c: int, r1: int, r2: int|
        0 <= c < 9 && 0 <= r1 < 9 && 0 <= r2 < 9 && r1 != r2 && (#[trigger] g[r1][c]).value is Some
        implies g[r1][c].value != (#[trigger] g[r2][c]).value by {
        if g[r2][c].value is Some {
            assert(g[r1][c].value == Some(sol[r1][c]));
            assert(g[r2][c].value == Some(sol[r2][c]));
        }
    }
    assert forall|r1: int, c1: int, r2: int, c2: int|
        #![trigger g[r1][c1], g[r2][c2]]
        0 <= r1 < 9 && 0 <= c1 < 9 && 0 <= r2 < 9 && 0 <= c2 < 9 && box_of(r1, c1) == box_of(
            r2,
            c2,
        ) && (r1 != r2 || c1 != c2) && g[r1][c1].value is Some implies g[r1][c1].value
        != g[r2][c2].value by {
        if g[r2][c2].value is Some {
            assert(g[r1][c1].value == Some(sol[r1][c1]));
            assert(g[r2][c2].value == Some(sol[r2][c2]));
            assert(sol[r1][c1] != sol[r2][c2]);
        }
    }
}

/// A step does not contradict the solution: an assignment writes the
/// solution's digit, a removal never strikes it.
pub open spec fn step_sound(p: FieldPosition, s: SolveStepView, sol: Seq<Seq<usize>>) -> bool {
    &&& p.in_range()
    &&& match s {
        SolveStepView::SetValue(v) => sol[p.row as int][p.column as int] == v,
        SolveStepView::RemovePossibilities(ds) => !ds.contains(
            sol[p.row as int][p.column as int],
        ),
    }
}

pub proof fn lemma_apply_step_preserves_respects(
    g: Seq<Seq<FieldView>>,
    p: FieldPosition,
    s: SolveStepView,
    sol: Seq<Seq<usize>>,
)
    requires
        grid_dims(g),
        respects(g, sol),
        step_sound(p, s, sol),
    ensures
        grid_dims(spec_apply_step(g, p, s)),
        respects(spec_apply_step(g, p, s), sol),
{
    let g2 = spec_apply_step(g, p, s);
    let pr = p.row as int;
    let pc = p.column as int;
    assert(grid_dims(g2)) by {
        assert forall|r: int| 0 <= r < 9 implies #[trigger] g2[r].len() == 9 by {
            assert(g[r].len() == 9);
        }
    }
    assert forall|r: int, c: int| 0 <= r < 9 && 0 <= c < 9 implies match (
    #[trigger] g2[r][c]).value {
        Some(v) => v == sol[r][c],
        None => g2[r][c].possibilities.contains(sol[r][c]),
    } by {
        if r == pr && c == pc {
            match s {
                SolveStepView::SetValue(v) => {
                    assert(g2[r][c].value == Some(v));
                },
                SolveStepView::RemovePossibilities(ds) => {
                    assert(g2[r][c].value == g[r][c].value);
                    match g[r][c].value {
                        Some(v) => {},
                        None => {
                            lemma_remove_digits(g[r][c].possibilities, ds);
                            assert(g[r][c].possibilities.contains(sol[r][c]));
                            assert(!ds.contains(sol[r][c]));
                            assert(g2[r][c].possibilities.contains(sol[r][c]));
                        },
                    }
                },
            }
        } else {
            assert(g2[r][c] == g[r][c]);
        }
    }
}

pub proof fn lemma_apply_steps_preserves_respects(
    g: Seq<Seq<FieldView>>,
    steps: Seq<(FieldPosition, SolveStepView)>,
    sol: Seq<Seq<usize>>,
)
    requires
        grid_dims(g),
        respects(g, sol),
        forall|i: int|
            0 <= i < steps.len() ==> step_sound((#[trigger] steps[i]).0, steps[i].1, sol),
    ensures
        grid_dims(spec_apply_steps(g, steps)),
        respects(spec_apply_steps(g, steps), sol),
    decreases steps.len(),
{
    if steps.len() > 0 {
        assert(step_sound(steps[0].0, steps[0].1, sol));
        lemma_apply_step_preserves_respects(g, steps.first().0, steps.first().1, sol);
        let g2 = spec_apply_step(g, steps.first().0, steps.first().1);
        assert forall|i: int|
            0 <= i < steps.drop_first().len() implies step_sound(
            (#[trigger] steps.drop_first()[i]).0,
            steps.drop_first()[i].1,
            sol,
        ) by {
            assert(steps.drop_first()[i] == steps[i + 1]);
            assert(step_sound(steps[i + 1].0, steps[i + 1].1, sol));
        }
        lemma_apply_steps_preserves_respects(g2, steps.drop_first(), sol);
    }
}

/// The shared premises of the per-strategy soundness lemmas: a
/// well-formed pruned grid respecting a completed solution, and an
/// unsolved cell at `(r, c)`.
pub open spec fn sound_premises(g: Seq<Seq<FieldView>>, sol: Seq<Seq<usize>>, r: int, c: int) -> bool {
    &&& grid_wf(g)
    &&& latin(sol)
    &&& respects(g, sol)
    &&& pruned(g)
    &&& 0 <= r < 9
    &&& 0 <= c < 9
    &&& g[r][c].value is None
}

/// The box-local index of cell `(r, c)` inverts the box enumeration.
proof fn lemma_box_arith(r: int, c: int)
    requires
        0 <= r < 9,
        0 <= c < 9,
    ensures
        0 <= box_of(r, c) < 9,
        0 <= 3 * (r % 3) + c % 3 < 9,
        box_row(box_of(r, c), 3 * (r % 3) + c % 3) == r,
        box_column(box_of(r, c), 3 * (r % 3) + c % 3) == c,
{
    let b = box_of(r, c);
    let k = 3 * (r % 3) + c % 3;
    assert(b == 3 * (r / 3) + c / 3);
    assert(0 <= r / 3 <= 2 && 0 <= c / 3 <= 2);
    assert(b / 3 == r / 3 && b % 3 == c / 3) by (nonlinear_arith)
        requires
            b == 3 * (r / 3) + c / 3,
            0 <= r / 3 <= 2,
            0 <= c / 3 <= 2,
    ;
    assert(k / 3 == r % 3 && k % 3 == c % 3) by (nonlinear_arith)
        requires
            k == 3 * (r % 3) + c % 3,
            0 <= r % 3 <= 2,
            0 <= c % 3 <= 2,
    ;
}

/// Every enumerated box cell lies on the board and in its box.
proof fn lemma_box_member(b: int, k: int)
    requires
        0 <= b < 9,
        0 <= k < 9,
    ensures
        0 <= box_row(b, k) < 9,
        0 <= box_column(b, k) < 9,
        box_of(box_row(b, k), box_column(b, k)) == b,
{
    let br = box_row(b, k);
    let bc = box_column(b, k);
    assert(br == 3 * (b / 3) + k / 3 && bc == 3 * (b % 3) + k % 3);
    assert(br / 3 == b / 3 && bc / 3 == b % 3) by (nonlinear_arith)
        requires
            br == 3 * (b / 3) + k / 3,
            bc == 3 * (b % 3) + k % 3,
            0 <= b / 3 <= 2,
            0 <= b % 3 <= 2,
            0 <= k / 3 <= 2,
            0 <= k % 3 <= 2,
    ;
}

proof fn lemma_count_in_seq_pos(s: Seq<usize>, d: usize)
    requires
        s.contains(d),
    ensures
        count_in_seq(s, d) >= 1,
    decreases s.len(),
{
    crate::solver::strategies::lemma_count_in_seq_bound(s.drop_last(), d);
    if s.last() != d {
        let i = choose|i: int| 0 <= i < s.len() && s[i] == d;
        assert(s.drop_last()[i] == d);
        assert(s.drop_last().contains(d));
        lemma_count_in_seq_pos(s.drop_last(), d);
    }
}

proof fn lemma_count_candidates_nonneg(fs: Seq<FieldView>, d: usize)
    ensures
        count_candidates(fs, d) >= 0,
    decreases fs.len(),
{
    if fs.len() > 0 {
        lemma_count_candidates_nonneg(fs.drop_last(), d);
        crate::solver::strategies::lemma_count_in_seq_bound(fs.last().possibilities, d);
    }
}

proof fn lemma_count_one(fs: Seq<FieldView>, d: usize, i: int)
    requires
        0 <= i < fs.len(),
        fs[i].possibilities.contains(d),
    ensures
        count_candidates(fs, d) >= 1,
    decreases fs.len(),
{
    lemma_count_candidates_nonneg(fs.drop_last(), d);
    crate::solver::strategies::lemma_count_in_seq_bound(fs.last().possibilities, d);
    if i == fs.len() - 1 {
        lemma_count_in_seq_pos(fs.last().possibilities, d);
    } else {
        assert(fs.drop_last()[i] == fs[i]);
        lemma_count_one(fs.drop_last(), d, i);
    }
}

proof fn lemma_count_two(fs: Seq<FieldView>, d: usize, i: int, j: int)
    requires
        0 <= i < j < fs.len(),
        fs[i].possibilities.contains(d),
        fs[j].possibilities.contains(d),
    ensures
        count_candidates(fs, d) >= 2,
    decreases fs.len(),
{
    crate::solver::strategies::lemma_count_in_seq_bound(fs.last().possibilities, d);
    if j == fs.len() - 1 {
        assert(fs.drop_last()[i] == fs[i]);
        lemma_count_one(fs.drop_last(), d, i);
        lemma_count_in_seq_pos(fs.last().possibilities, d);
    } else {
        assert(fs.drop_last()[i] == fs[i] && fs.drop_last()[j] == fs[j]);
        lemma_count_two(fs.drop_last(), d, i, j);
    }
}

/// A hidden single returns one of the cell's own candidates whose count
/// across the unit is exactly one.
proof fn lemma_first_owned(cands: Seq<usize>, fs: Seq<FieldView>)
    ensures
        match first_owned_single(cands, fs) {
            Some(SolveStepView::SetValue(v)) => cands.contains(v) && count_candidates(fs, v) == 1,
            Some(SolveStepView::RemovePossibilities(_)) => false,
            None => true,
        },
    decreases cands.len(),
{
    if cands.len() > 0 {
        if count_candidates(fs, cands.first()) == 1 {
            assert(cands[0] == cands.first());
        } else {
            lemma_first_owned(cands.drop_first(), fs);
            match first_owned_single(cands.drop_first(), fs) {
                Some(SolveStepView::SetValue(v)) => {
                    let i = choose|i: int| 0 <= i < cands.drop_first().len() && cands.drop_first()[i] == v;
                    assert(cands[i + 1] == v);
                },
                _ => {},
            }
        }
    }
}

/// Striking the values already assigned in a unit never strikes the
/// cell's own solution digit: those values belong to other cells of the
/// unit, whose solution digits all differ from this cell's.
proof fn lemma_row_elimination_sound(g: Seq<Seq<FieldView>>, sol: Seq<Seq<usize>>, r: int, c: int)
    requires
        sound_premises(g, sol, r, c),
    ensures
        !dedup_adjacent(assigned_values(g[r])).contains(sol[r][c]),
{
    let x = sol[r][c];
    lemma_dedup_adjacent(assigned_values(g[r]));
    lemma_assigned_values(g[r]);
    if dedup_adjacent(assigned_values(g[r])).contains(x) {
        assert(assigned_values(g[r]).contains(x));
        let cc = choose|cc: int| 0 <= cc < 9 && (#[trigger] g[r][cc]).value == Some(x);
        assert(g[r][cc].value == Some(sol[r][cc]));
        assert(cc != c);
        assert(sol[r][cc] != sol[r][c]);
    }
}

proof fn lemma_column_elimination_sound(g: Seq<Seq<FieldView>>, sol: Seq<Seq<usize>>, r: int, c: int)
    requires
        sound_premises(g, sol, r, c),
    ensures
        !dedup_adjacent(assigned_values(column_fields(g, c))).contains(sol[r][c]),
{
    let x = sol[r][c];
    let fs = column_fields(g, c);
    lemma_dedup_adjacent(assigned_values(fs));
    lemma_assigned_values(fs);
    if dedup_adjacent(assigned_values(fs)).contains(x) {
        assert(assigned_values(fs).contains(x));
        let rr = choose|rr: int| 0 <= rr < 9 && (#[trigger] fs[rr]).value == Some(x);
        assert(fs[rr] == g[rr][c]);
        assert(g[rr][c].value == Some(sol[rr][c]));
        assert(rr != r);
        assert(sol[rr][c] != sol[r][c]);
    }
}

proof fn lemma_box_elimination_sound(g: Seq<Seq<FieldView>>, sol: Seq<Seq<usize>>, r: int, c: int)
    requires
        sound_premises(g, sol, r, c),
    ensures
        !dedup_adjacent(assigned_values(box_fields(g, box_of(r, c)))).contains(sol[r][c]),
{
    let x = sol[r][c];
    let b = box_of(r, c);
    lemma_box_arith(r, c);
    let fs = box_fields(g, b);
    lemma_dedup_adjacent(assigned_values(fs));
    lemma_assigned_values(fs);
    if dedup_adjacent(assigned_values(fs)).contains(x) {
        assert(assigned_values(fs).contains(x));
        let k = choose|k: int| 0 <= k < 9 && (#[trigger] fs[k]).value == Some(x);
        lemma_box_member(b, k);
        let br = box_row(b, k);
        let bc = box_column(b, k);
        assert(fs[k] == g[br][bc]);
        assert(g[br][bc].value == Some(sol[br][bc]));
        assert(br != r || bc != c);
        assert(sol[br][bc] != sol[r][c]);
    }
}

proof fn lemma_naked_single_sound(g: Seq<Seq<FieldView>>, sol: Seq<Seq<usize>>, r: int, c: int)
    requires
        sound_premises(g, sol, r, c),
    ensures
        match spec_naked_single(g[r][c]) {
            Some(SolveStepView::SetValue(v)) => sol[r][c] == v,
            _ => true,
        },
{
    let f = g[r][c];
    if f.possibilities.len() == 1 {
        assert(f.possibilities.contains(sol[r][c]));
        let i = choose|i: int| 0 <= i < f.possibilities.len() && f.possibilities[i] == sol[r][c];
        assert(i == 0);
    }
}

proof fn lemma_hidden_row_sound(g: Seq<Seq<FieldView>>, sol: Seq<Seq<usize>>, r: int, c: int)
    requires
        sound_premises(g, sol, r, c),
    ensures
        match first_owned_single(g[r][c].possibilities, g[r]) {
            Some(SolveStepView::SetValue(v)) => sol[r][c] == v,
            _ => true,
        },
{
    let f = g[r][c];
    let fs = g[r];
    lemma_first_owned(f.possibilities, fs);
    match first_owned_single(f.possibilities, fs) {
        Some(SolveStepView::SetValue(v)) => {
            assert(f.possibilities.contains(v));
            assert(digit_ok(v)) by {
                let i = choose|i: int| 0 <= i < f.possibilities.len() && f.possibilities[i] == v;
                assert(f.wf());
            }
            assert(solution_row_has(sol, r, v));
            let cc = choose|cc: int| 0 <= cc < 9 && sol[r][cc] == v;
            if cc != c {
                match g[r][cc].value {
                    Some(w) => {
                        assert(w == sol[r][cc]);
                        assert(g[r][cc].value == Some(v));
                        assert(value_in_units(g, r, c, v));
                        assert(false);
                    },
                    None => {
                        assert(g[r][cc].possibilities.contains(sol[r][cc]));
                        assert(fs[cc] == g[r][cc] && fs[c] == g[r][c]);
                        if c < cc {
                            lemma_count_two(fs, v, c, cc);
                        } else {
                            lemma_count_two(fs, v, cc, c);
                        }
                        assert(false);
                    },
                }
            }
        },
        _ => {},
    }
}

proof fn lemma_hidden_column_sound(g: Seq<Seq<FieldView>>, sol: Seq<Seq<usize>>, r: int, c: int)
    requires
        sound_premises(g, sol, r, c),
    ensures
        match first_owned_single(g[r][c].possibilities, column_fields(g, c)) {
            Some(SolveStepView::SetValue(v)) => sol[r][c] == v,
            _ => true,
        },
{
    let f = g[r][c];
    let fs = column_fields(g, c);
    lemma_first_owned(f.possibilities, fs);
    match first_owned_single(f.possibilities, fs) {
        Some(SolveStepView::SetValue(v)) => {
            assert(f.possibilities.contains(v));
            assert(digit_ok(v)) by {
                let i = choose|i: int| 0 <= i < f.possibilities.len() && f.possibilities[i] == v;
                assert(f.wf());
            }
            assert(solution_column_has(sol, c, v));
            let rr = choose|rr: int| 0 <= rr < 9 && sol[rr][c] == v;
            if rr != r {
                match g[rr][c].value {
                    Some(w) => {
                        assert(w == sol[rr][c]);
                        assert(g[rr][c].value == Some(v));
                        assert(value_in_units(g, r, c, v));
                        assert(false);
                    },
                    None => {
                        assert(g[rr][c].possibilities.contains(sol[rr][c]));
                        assert(fs[rr] == g[rr][c] && fs[r] == g[r][c]);
                        if r < rr {
                            lemma_count_two(fs, v, r, rr);
                        } else {
                            lemma_count_two(fs, v, rr, r);
                        }
                        assert(false);
                    },
                }
            }
        },
        _ => {},
    }
}

proof fn lemma_hidden_box_sound(g: Seq<Seq<FieldView>>, sol: Seq<Seq<usize>>, r: int, c: int)
    requires
        sound_premises(g, sol, r, c),
    ensures
        match first_owned_single(g[r][c].possibilities, box_fields(g, box_of(r, c))) {
            Some(SolveStepView::SetValue(v)) => sol[r][c] == v,
            _ => true,
        },
{
    let f = g[r][c];
    let b = box_of(r, c);
    lemma_box_arith(r, c);
    let k0 = 3 * (r % 3) + c % 3;
    let fs = box_fields(g, b);
    lemma_first_owned(f.possibilities, fs);
    match first_owned_single(f.possibilities, fs) {
        Some(SolveStepView::SetValue(v)) => {
            assert(f.possibilities.contains(v));
            assert(digit_ok(v)) by {
                let i = choose|i: int| 0 <= i < f.possibilities.len() && f.possibilities[i] == v;
                assert(f.wf());
            }
            assert(solution_box_has(sol, b, v));
            let k = choose|k: int| 0 <= k < 9 && sol[box_row(b, k)][#[trigger] box_column(b, k)] == v;
            lemma_box_member(b, k);
            let br = box_row(b, k);
            let bc = box_column(b, k);
            if br != r || bc != c {
                assert(k != k0) by {
                    assert(fs[k0] == g[box_row(b, k0)][box_column(b, k0)]);
                }
                match g[br][bc].value {
                    Some(w) => {
                        assert(w == sol[br][bc]);
                        assert(g[br][bc].value == Some(v));
                        assert(g[box_row(box_of(r, c), k)][box_column(box_of(r, c), k)].value
                            == Some(v));
                        assert(value_in_units(g, r, c, v));
                        assert(false);
                    },
                    None => {
                        assert(g[br][bc].possibilities.contains(sol[br][bc]));
                        assert(fs[k] == g[br][bc] && fs[k0] == g[r][c]);
                        if k0 < k {
                            lemma_count_two(fs, v, k0, k);
                        } else {
                            lemma_count_two(fs, v, k, k0);
                        }
                        assert(false);
                    },
                }
            } else {
                assert(sol[r][c] == v);
            }
        },
        _ => {},
    }
}

/// The positions running parallel to `others_possibilities`.
pub open spec fn others_positions(fs: Seq<FieldView>, p: FieldPosition) -> Seq<FieldPosition>
    decreases fs.len(),
{
    if fs.len() == 0 {
        Seq::empty()
    } else {
        let pre = others_positions(fs.drop_last(), p);
        if fs.last().position != p {
            pre.push(fs.last().position)
        } else {
            pre
        }
    }
}

proof fn lemma_others_parallel(fs: Seq<FieldView>, p: FieldPosition)
    ensures
        others_possibilities(fs, p).len() == others_positions(fs, p).len(),
        forall|j: int|
            0 <= j < others_positions(fs, p).len() ==> (#[trigger] others_positions(fs, p)[j]) != p,
        forall|j: int|
            0 <= j < others_positions(fs, p).len() ==> exists|i: int|
                0 <= i < fs.len() && (#[trigger] fs[i]).position == (#[trigger] others_positions(
                    fs,
                    p,
                )[j]) && fs[i].possibilities == others_possibilities(fs, p)[j],
        (forall|i1: int, i2: int|
            0 <= i1 < i2 < fs.len() ==> (#[trigger] fs[i1]).position != (#[trigger] fs[i2]).position)
            ==> forall|j1: int, j2: int|
            0 <= j1 < j2 < others_positions(fs, p).len() ==> (#[trigger] others_positions(fs, p)[j1])
                != (#[trigger] others_positions(fs, p)[j2]),
    decreases fs.len(),
{
    let ops = others_positions(fs, p);
    let osets = others_possibilities(fs, p);
    if fs.len() == 0 {
    } else {
        let pre = fs.drop_last();
        lemma_others_parallel(pre, p);
        let pre_ops = others_positions(pre, p);
        let pre_sets = others_possibilities(pre, p);
        assert forall|j: int| 0 <= j < ops.len() implies exists|i: int|
            0 <= i < fs.len() && (#[trigger] fs[i]).position == (#[trigger] ops[j])
                && fs[i].possibilities == osets[j] by {
            if fs.last().position != p && j == ops.len() - 1 {
                assert(fs[fs.len() - 1].position == ops[j] && fs[fs.len() - 1].possibilities
                    == osets[j]);
            } else {
                assert(ops[j] == pre_ops[j] && osets[j] == pre_sets[j]);
                let i = choose|i: int|
                    0 <= i < pre.len() && (#[trigger] pre[i]).position == pre_ops[j]
                        && pre[i].possibilities == pre_sets[j];
                assert(fs[i].position == ops[j] && fs[i].possibilities == osets[j]);
            }
        }
        if forall|i1: int, i2: int|
            0 <= i1 < i2 < fs.len() ==> (#[trigger] fs[i1]).position != (
            #[trigger] fs[i2]).position {
            assert forall|i1: int, i2: int|
                0 <= i1 < i2 < pre.len() implies (#[trigger] pre[i1]).position != (
            #[trigger] pre[i2]).position by {
                assert(fs[i1].position != fs[i2].position);
            }
            assert forall|j1: int, j2: int| 0 <= j1 < j2 < ops.len() implies (
            #[trigger] ops[j1]) != (#[trigger] ops[j2]) by {
                if fs.last().position != p && j2 == ops.len() - 1 {
                    assert(ops[j1] == pre_ops[j1]);
                    let i = choose|i: int|
                        0 <= i < pre.len() && (#[trigger] pre[i]).position == pre_ops[j1]
                            && pre[i].possibilities == pre_sets[j1];
                    assert(fs[i].position != fs[fs.len() - 1].position);
                } else {
                    assert(ops[j1] == pre_ops[j1] && ops[j2] == pre_ops[j2]);
                }
            }
        }
    }
}

spec fn match_at(sets: Seq<Seq<usize>>, t: Seq<usize>, j: int) -> bool {
    sets[j].len() > 1 && sets[j].len() <= t.len() && subset_seq(sets[j], t)
}

/// The solution digits of the cells that form a qualifying tuple.
spec fn match_sols(sets: Seq<Seq<usize>>, sols: Seq<usize>, t: Seq<usize>, n: int) -> Set<usize>
    decreases n,
{
    if n <= 0 {
        Set::empty()
    } else {
        let pre = match_sols(sets, sols, t, n - 1);
        if match_at(sets, t, n - 1) {
            pre.insert(sols[n - 1])
        } else {
            pre
        }
    }
}

proof fn lemma_match_sols(sets: Seq<Seq<usize>>, sols: Seq<usize>, t: Seq<usize>, n: int)
    requires
        0 <= n <= sets.len(),
        sets.len() == sols.len(),
        forall|j1: int, j2: int| 0 <= j1 < j2 < sols.len() ==> sols[j1] != sols[j2],
    ensures
        match_sols(sets, sols, t, n).finite(),
        match_sols(sets, sols, t, n).len() == match_count(sets.take(n), t),
        forall|y: usize|
            match_sols(sets, sols, t, n).contains(y) ==> exists|j: int|
                0 <= j < n && match_at(sets, t, j) && sols[j] == y,
        forall|j: int| 0 <= j < n && match_at(sets, t, j) ==> match_sols(sets, sols, t, n).contains(
            #[trigger] sols[j],
        ),
    decreases n,
{
    broadcast use vstd::set::group_set_axioms;

    let cur = match_sols(sets, sols, t, n);
    if n > 0 {
        lemma_match_sols(sets, sols, t, n - 1);
        let pre = match_sols(sets, sols, t, n - 1);
        assert(sets.take(n).drop_last() =~= sets.take(n - 1));
        assert(sets.take(n).last() == sets[n - 1]);
        if match_at(sets, t, n - 1) {
            assert(!pre.contains(sols[n - 1])) by {
                if pre.contains(sols[n - 1]) {
                    let j = choose|j: int|
                        0 <= j < n - 1 && match_at(sets, t, j) && sols[j] == sols[n - 1];
                    assert(sols[j] != sols[n - 1]);
                }
            }
            assert(cur.len() == pre.len() + 1);
            assert forall|y: usize| cur.contains(y) implies exists|j: int|
                0 <= j < n && match_at(sets, t, j) && sols[j] == y by {
                if y == sols[n - 1] {
                    assert(match_at(sets, t, n - 1) && sols[n - 1] == y);
                } else {
                    assert(pre.contains(y));
                    let j = choose|j: int| 0 <= j < n - 1 && match_at(sets, t, j) && sols[j] == y;
                    assert(0 <= j < n && match_at(sets, t, j) && sols[j] == y);
                }
            }
        } else {
            assert forall|y: usize| cur.contains(y) implies exists|j: int|
                0 <= j < n && match_at(sets, t, j) && sols[j] == y by {
                let j = choose|j: int| 0 <= j < n - 1 && match_at(sets, t, j) && sols[j] == y;
                assert(0 <= j < n && match_at(sets, t, j) && sols[j] == y);
            }
        }
    }
}

/// A subset of a finite set of no greater cardinality is the whole set.
proof fn lemma_subset_same_len(a: Set<usize>, b: Set<usize>)
    requires
        a.subset_of(b),
        a.finite(),
        b.finite(),
        a.len() >= b.len(),
    ensures
        a =~= b,
{
    broadcast use vstd::set::group_set_axioms;

    assert forall|x: usize| b.contains(x) implies a.contains(x) by {
        if !a.contains(x) {
            assert(a.subset_of(b.remove(x)));
            assert(b.remove(x).len() == b.len() - 1);
            vstd::set_lib::lemma_len_subset(a, b.remove(x));
        }
    }
}

/// The pigeonhole heart of naked-tuple soundness: if the cells behind
/// `sets` have pairwise distinct solution digits `sols`, each listed
/// among their candidates, and `x` differs from all of them, then the
/// tuple elimination never proposes striking `x`.
proof fn lemma_tuple_core(sets: Seq<Seq<usize>>, sols: Seq<usize>, x: usize)
    requires
        sets.len() == sols.len(),
        forall|j: int|
            0 <= j < sets.len() && (#[trigger] sets[j]).len() > 1 ==> sets[j].contains(sols[j]),
        forall|j1: int, j2: int| 0 <= j1 < j2 < sols.len() ==> sols[j1] != sols[j2],
        forall|j: int| 0 <= j < sets.len() ==> sorted_strict(#[trigger] sets[j]),
        forall|j: int| 0 <= j < sols.len() ==> (#[trigger] sols[j]) != x,
    ensures
        !grouped_possibilities(sets).contains(x),
{
    broadcast use vstd::set::group_set_axioms, vstd::seq_lib::seq_to_set_is_finite;

    let n = sets.len() as int;
    lemma_grouped_upto(sets, n);
    if grouped_possibilities(sets).contains(x) {
        let i = choose|i: int|
            0 <= i < n && tuple_qualifies(sets, #[trigger] sets[i]) && sets[i].contains(x);
        let t = sets[i];
        assert(t.no_duplicates()) by {
            assert forall|k1: int, k2: int|
                0 <= k1 < t.len() && 0 <= k2 < t.len() && k1 != k2 implies t[k1] != t[k2] by {
                if k1 < k2 {
                    assert(t[k1] < t[k2]);
                } else {
                    assert(t[k2] < t[k1]);
                }
            }
        }
        t.unique_seq_to_set();
        lemma_match_sols(sets, sols, t, n);
        let s = match_sols(sets, sols, t, n);
        assert(sets.take(n) =~= sets);
        assert(s.len() == match_count(sets, t));
        assert(s.len() == t.len());
        assert(s.subset_of(t.to_set())) by {
            assert forall|y: usize| s.contains(y) implies t.to_set().contains(y) by {
                let j = choose|j: int| 0 <= j < n && match_at(sets, t, j) && sols[j] == y;
                assert(sets[j].contains(sols[j]));
                let idx = choose|idx: int| 0 <= idx < sets[j].len() && sets[j][idx] == y;
                assert(t.contains(sets[j][idx]));
                assert(t.contains(y));
            }
        }
        lemma_subset_same_len(s, t.to_set());
        assert(t.to_set().contains(x));
        assert(s.contains(x));
        let j = choose|j: int| 0 <= j < n && match_at(sets, t, j) && sols[j] == x;
        assert(sols[j] != x);
    }
}

proof fn lemma_tuple_row_sound(g: Seq<Seq<FieldView>>, sol: Seq<Seq<usize>>, r: int, c: int)
    requires
        sound_premises(g, sol, r, c),
    ensures
        !grouped_possibilities(
            others_possibilities(g[r], FieldPosition { row: r as usize, column: c as usize }),
        ).contains(sol[r][c]),
{
    let p = FieldPosition { row: r as usize, column: c as usize };
    let fs = g[r];
    lemma_others_parallel(fs, p);
    let sets = others_possibilities(fs, p);
    let ops = others_positions(fs, p);
    let sols = ops.map_values(|q: FieldPosition| sol[q.row as int][q.column as int]);
    let x = sol[r][c];
    assert forall|j: int| 0 <= j < ops.len() implies (#[trigger] ops[j]).row == r
        && ops[j].column < 9 && ops[j].column != c by {
        let i = choose|i: int|
            0 <= i < fs.len() && (#[trigger] fs[i]).position == ops[j] && fs[i].possibilities
                == sets[j];
        assert(fs[i] == g[r][i]);
    }
    assert forall|j: int|
        0 <= j < sets.len() && (#[trigger] sets[j]).len() > 1 implies sets[j].contains(sols[j]) by {
        let i = choose|i: int|
            0 <= i < fs.len() && (#[trigger] fs[i]).position == ops[j] && fs[i].possibilities
                == sets[j];
        assert(fs[i] == g[r][i]);
        assert(g[r][i].value is None);
        assert(g[r][i].possibilities.contains(sol[r][i]));
        assert(sols[j] == sol[r][i]);
    }
    assert forall|i1: int, i2: int|
        0 <= i1 < i2 < fs.len() implies (#[trigger] fs[i1]).position != (
    #[trigger] fs[i2]).position by {
        assert(fs[i1] == g[r][i1] && fs[i2] == g[r][i2]);
    }
    assert forall|j1: int, j2: int| 0 <= j1 < j2 < sols.len() implies sols[j1] != sols[j2] by {
        assert(ops[j1] != ops[j2]);
        assert(sol[r][ops[j1].column as int] != sol[r][ops[j2].column as int]);
    }
    assert forall|j: int| 0 <= j < sets.len() implies sorted_strict(#[trigger] sets[j]) by {
        let i = choose|i: int|
            0 <= i < fs.len() && (#[trigger] fs[i]).position == ops[j] && fs[i].possibilities
                == sets[j];
        assert(fs[i] == g[r][i]);
        assert(g[r][i].wf());
    }
    assert forall|j: int| 0 <= j < sols.len() implies (#[trigger] sols[j]) != x by {
        assert(sol[r][ops[j].column as int] != sol[r][c]);
    }
    lemma_tuple_core(sets, sols, x);
}

proof fn lemma_tuple_column_sound(g: Seq<Seq<FieldView>>, sol: Seq<Seq<usize>>, r: int, c: int)
    requires
        sound_premises(g, sol, r, c),
    ensures
        !grouped_possibilities(
            others_possibilities(
                column_fields(g, c),
                FieldPosition { row: r as usize, column: c as usize },
            ),
        ).contains(sol[r][c]),
{
    let p = FieldPosition { row: r as usize, column: c as usize };
    let fs = column_fields(g, c);
    lemma_others_parallel(fs, p);
    let sets = others_possibilities(fs, p);
    let ops = others_positions(fs, p);
    let sols = ops.map_values(|q: FieldPosition| sol[q.row as int][q.column as int]);
    let x = sol[r][c];
    assert forall|j: int| 0 <= j < ops.len() implies (#[trigger] ops[j]).column == c
        && ops[j].row < 9 && ops[j].row != r by {
        let i = choose|i: int|
            0 <= i < fs.len() && (#[trigger] fs[i]).position == ops[j] && fs[i].possibilities
                == sets[j];
        assert(fs[i] == g[i][c]);
    }
    assert forall|j: int|
        0 <= j < sets.len() && (#[trigger] sets[j]).len() > 1 implies sets[j].contains(sols[j]) by {
        let i = choose|i: int|
            0 <= i < fs.len() && (#[trigger] fs[i]).position == ops[j] && fs[i].possibilities
                == sets[j];
        assert(fs[i] == g[i][c]);
        assert(g[i][c].value is None);
        assert(g[i][c].possibilities.contains(sol[i][c]));
        assert(sols[j] == sol[i][c]);
    }
    assert forall|i1: int, i2: int|
        0 <= i1 < i2 < fs.len() implies (#[trigger] fs[i1]).position != (
    #[trigger] fs[i2]).position by {
        assert(fs[i1] == g[i1][c] && fs[i2] == g[i2][c]);
    }
    assert forall|j1: int, j2: int| 0 <= j1 < j2 < sols.len() implies sols[j1] != sols[j2] by {
        assert(ops[j1] != ops[j2]);
        assert(sol[ops[j1].row as int][c] != sol[ops[j2].row as int][c]);
    }
    assert forall|j: int| 0 <= j < sets.len() implies sorted_strict(#[trigger] sets[j]) by {
        let i = choose|i: int|
            0 <= i < fs.len() && (#[trigger] fs[i]).position == ops[j] && fs[i].possibilities
                == sets[j];
        assert(fs[i] == g[i][c]);
        assert(g[i][c].wf());
    }
    assert forall|j: int| 0 <= j < sols.len() implies (#[trigger] sols[j]) != x by {
        assert(sol[ops[j].row as int][c] != sol[r][c]);
    }
    lemma_tuple_core(sets, sols, x);
}

proof fn lemma_tuple_box_sound(g: Seq<Seq<FieldView>>, sol: Seq<Seq<usize>>, r: int, c: int)
    requires
        sound_premises(g, sol, r, c),
    ensures
        !grouped_possibilities(
            others_possibilities(
                box_fields(g, box_of(r, c)),
                FieldPosition { row: r as usize, column: c as usize },
            ),
        ).contains(sol[r][c]),
{
    let p = FieldPosition { row: r as usize, column: c as usize };
    let b = box_of(r, c);
    lemma_box_arith(r, c);
    let fs = box_fields(g, b);
    lemma_others_parallel(fs, p);
    let sets = others_possibilities(fs, p);
    let ops = others_positions(fs, p);
    let sols = ops.map_values(|q: FieldPosition| sol[q.row as int][q.column as int]);
    let x = sol[r][c];
    assert forall|k: int| 0 <= k < 9 implies (#[trigger] fs[k]) == g[box_row(b, k)][box_column(
        b,
        k,
    )] && fs[k].position == (FieldPosition {
        row: box_row(b, k) as usize,
        column: box_column(b, k) as usize,
    }) && box_of(fs[k].position.row as int, fs[k].position.column as int) == b by {
        lemma_box_member(b, k);
    }
    assert forall|j: int| 0 <= j < ops.len() implies (#[trigger] ops[j]).row < 9 && ops[j].column
        < 9 && box_of(ops[j].row as int, ops[j].column as int) == b && ops[j] != p by {
        let i = choose|i: int|
            0 <= i < fs.len() && (#[trigger] fs[i]).position == ops[j] && fs[i].possibilities
                == sets[j];
    }
    assert forall|j: int|
        0 <= j < sets.len() && (#[trigger] sets[j]).len() > 1 implies sets[j].contains(sols[j]) by {
        let i = choose|i: int|
            0 <= i < fs.len() && (#[trigger] fs[i]).position == ops[j] && fs[i].possibilities
                == sets[j];
        let qr = ops[j].row as int;
        let qc = ops[j].column as int;
        assert(fs[i] == g[qr][qc]);
        assert(g[qr][qc].value is None);
        assert(g[qr][qc].possibilities.contains(sol[qr][qc]));
        assert(sols[j] == sol[qr][qc]);
    }
    assert forall|i1: int, i2: int|
        0 <= i1 < i2 < fs.len() implies (#[trigger] fs[i1]).position != (
    #[trigger] fs[i2]).position by {
        assert(box_row(b, i1) == 3 * (b / 3) + i1 / 3 && box_column(b, i1) == 3 * (b % 3) + i1 % 3);
        assert(box_row(b, i2) == 3 * (b / 3) + i2 / 3 && box_column(b, i2) == 3 * (b % 3) + i2 % 3);
        if box_row(b, i1) == box_row(b, i2) && box_column(b, i1) == box_column(b, i2) {
            assert(i1 / 3 == i2 / 3 && i1 % 3 == i2 % 3);
            assert(i1 == i2);
        }
    }
    assert forall|j1: int, j2: int| 0 <= j1 < j2 < sols.len() implies sols[j1] != sols[j2] by {
        assert(ops[j1] != ops[j2]);
        assert(sol[ops[j1].row as int][ops[j1].column as int] != sol[ops[j2].row as int][ops[j2].column as int]);
    }
    assert forall|j: int| 0 <= j < sets.len() implies sorted_strict(#[trigger] sets[j]) by {
        let i = choose|i: int|
            0 <= i < fs.len() && (#[trigger] fs[i]).position == ops[j] && fs[i].possibilities
                == sets[j];
        assert(g[ops[j].row as int][ops[j].column as int].wf());
    }
    assert forall|j: int| 0 <= j < sols.len() implies (#[trigger] sols[j]) != x by {
        assert(sol[ops[j].row as int][ops[j].column as int] != sol[r][c]);
    }
    lemma_tuple_core(sets, sols, x);
}

/// Whatever one strategy proposes for an unsolved cell of a pruned grid
/// never contradicts a completed solution the grid respects.
proof fn lemma_strategy_sound(st: Strategy, g: Seq<Seq<FieldView>>, sol: Seq<Seq<usize>>, r: int, c: int)
    requires
        sound_premises(g, sol, r, c),
    ensures
        match spec_strategy_result(st, g, g[r][c]) {
            None => true,
            Some(SolveStepView::SetValue(v)) => sol[r][c] == v,
            Some(SolveStepView::RemovePossibilities(ds)) => !ds.contains(sol[r][c]),
        },
{
    let f = g[r][c];
    assert(f.position == (FieldPosition { row: r as usize, column: c as usize }));
    match st {
        Strategy::RowElimination => {
            lemma_row_elimination_sound(g, sol, r, c);
        },
        Strategy::ColumnElimination => {
            lemma_column_elimination_sound(g, sol, r, c);
        },
        Strategy::BoxElimination => {
            lemma_box_elimination_sound(g, sol, r, c);
        },
        Strategy::NakedSingle => {
            lemma_naked_single_sound(g, sol, r, c);
        },
        Strategy::HiddenSingleInRow => {
            lemma_hidden_row_sound(g, sol, r, c);
            lemma_first_owned(f.possibilities, g[r]);
        },
        Strategy::HiddenSingleInColumn => {
            lemma_hidden_column_sound(g, sol, r, c);
            lemma_first_owned(f.possibilities, column_fields(g, c));
        },
        Strategy::HiddenSingleInBox => {
            lemma_hidden_box_sound(g, sol, r, c);
            lemma_first_owned(f.possibilities, box_fields(g, box_of(r, c)));
        },
        Strategy::NakedTupleInRow => {
            lemma_tuple_row_sound(g, sol, r, c);
        },
        Strategy::NakedTupleInColumn => {
            lemma_tuple_column_sound(g, sol, r, c);
        },
        Strategy::NakedTupleInBox => {
            lemma_tuple_box_sound(g, sol, r, c);
        },
    }
}

proof fn lemma_filter_present_subset(ds: Seq<usize>, cands: Seq<usize>)
    ensures
        forall|x: usize|
            #[trigger] filter_present(ds, cands).contains(x) ==> ds.contains(x) && cands.contains(
                x,
            ),
    decreases ds.len(),
{
    if ds.len() > 0 {
        lemma_filter_present_subset(ds.drop_last(), cands);
        let pre = filter_present(ds.drop_last(), cands);
        assert forall|x: usize| #[trigger] filter_present(ds, cands).contains(x) implies ds.contains(
            x,
        ) && cands.contains(x) by {
            let cur = filter_present(ds, cands);
            let i = choose|i: int| 0 <= i < cur.len() && cur[i] == x;
            if cands.contains(ds.last()) && i == cur.len() - 1 {
                assert(x == ds.last());
                assert(ds[ds.len() - 1] == x);
            } else {
                assert(pre[i] == x);
                assert(pre.contains(x));
                let k = choose|k: int| 0 <= k < ds.drop_last().len() && ds.drop_last()[k] == x;
                assert(ds[k] == x);
            }
        }
    }
}

proof fn lemma_cell_steps_sound(
    g: Seq<Seq<FieldView>>,
    strats: Seq<Strategy>,
    sol: Seq<Seq<usize>>,
    r: int,
    c: int,
    k: int,
)
    requires
        sound_premises(g, sol, r, c),
        k >= 0,
    ensures
        forall|i: int|
            0 <= i < spec_cell_steps_from(g, strats, g[r][c], k).len() ==> step_sound(
                (#[trigger] spec_cell_steps_from(g, strats, g[r][c], k)[i]).0,
                spec_cell_steps_from(g, strats, g[r][c], k)[i].1,
                sol,
            ),
    decreases strats.len() - k,
{
    let f = g[r][c];
    assert(f.position == (FieldPosition { row: r as usize, column: c as usize }));
    if k < strats.len() {
        lemma_strategy_sound(strats[k], g, sol, r, c);
        match spec_strategy_result(strats[k], g, f) {
            None => {
                lemma_cell_steps_sound(g, strats, sol, r, c, k + 1);
            },
            Some(SolveStepView::SetValue(v)) => {
                assert(step_sound(f.position, SolveStepView::SetValue(v), sol));
            },
            Some(SolveStepView::RemovePossibilities(ds)) => {
                lemma_cell_steps_sound(g, strats, sol, r, c, k + 1);
                let kept = filter_present(ds, f.possibilities);
                lemma_filter_present_subset(ds, f.possibilities);
                assert(!kept.contains(sol[r][c]));
                assert(step_sound(f.position, SolveStepView::RemovePossibilities(kept), sol));
                let rest = spec_cell_steps_from(g, strats, f, k + 1);
                if kept.len() > 0 {
                    let cur = spec_cell_steps_from(g, strats, f, k);
                    assert forall|i: int| 0 <= i < cur.len() implies step_sound(
                        (#[trigger] cur[i]).0,
                        cur[i].1,
                        sol,
                    ) by {
                        if i > 0 {
                            assert(cur[i] == rest[i - 1]);
                            assert(step_sound(rest[i - 1].0, rest[i - 1].1, sol));
                        }
                    }
                }
            },
        }
    }
}

proof fn lemma_determine_sound(
    g: Seq<Seq<FieldView>>,
    strats: Seq<Strategy>,
    sol: Seq<Seq<usize>>,
    n: int,
)
    requires
        grid_wf(g),
        latin(sol),
        respects(g, sol),
        pruned(g),
        0 <= n <= 81,
    ensures
        forall|i: int|
            0 <= i < spec_determine_upto(g, strats, n).len() ==> step_sound(
                (#[trigger] spec_determine_upto(g, strats, n)[i]).0,
                spec_determine_upto(g, strats, n)[i].1,
                sol,
            ),
    decreases n,
{
    if n > 0 {
        lemma_determine_sound(g, strats, sol, n - 1);
        let pre = spec_determine_upto(g, strats, n - 1);
        let r = (n - 1) / 9;
        let c = (n - 1) % 9;
        assert(0 <= r < 9 && 0 <= c < 9);
        let f = g[r][c];
        let cur = spec_determine_upto(g, strats, n);
        if f.value is None {
            lemma_cell_steps_sound(g, strats, sol, r, c, 0);
            let cs = spec_cell_steps(g, strats, f);
            assert forall|i: int| 0 <= i < cur.len() implies step_sound(
                (#[trigger] cur[i]).0,
                cur[i].1,
                sol,
            ) by {
                if i < pre.len() {
                    assert(cur[i] == pre[i]);
                    assert(step_sound(pre[i].0, pre[i].1, sol));
                } else {
                    assert(cur[i] == cs[i - pre.len()]);
                    assert(step_sound(cs[i - pre.len()].0, cs[i - pre.len()].1, sol));
                }
            }
        }
    }
}

/// Soundness of a whole round: whatever strategies are configured, one
/// round maps a pruned grid that respects a completed solution to a grid
/// that still respects it. The engine never deduces anything that
/// contradicts a completion of the grid.
pub proof fn lemma_round_preserves_solution(
    g: Seq<Seq<FieldView>>,
    strats: Seq<Strategy>,
    sol: Seq<Seq<usize>>,
)
    requires
        grid_wf(g),
        pruned(g),
        latin(sol),
        respects(g, sol),
    ensures
        grid_dims(spec_apply_steps(g, spec_determine(g, strats))),
        respects(spec_apply_steps(g, spec_determine(g, strats)), sol),
{
    lemma_determine_sound(g, strats, sol, 81);
    lemma_apply_steps_preserves_respects(g, spec_determine(g, strats), sol);
}

/// No round introduces a duplicate: after one round on a pruned grid
/// that respects a completed solution, no row, column or box assigns the
/// same digit twice.
pub proof fn lemma_round_no_duplicates(
    g: Seq<Seq<FieldView>>,
    strats: Seq<Strategy>,
    sol: Seq<Seq<usize>>,
)
    requires
        grid_wf(g),
        pruned(g),
        latin(sol),
        respects(g, sol),
    ensures
        forall|r: int, c1: int, c2: int|
            0 <= r < 9 && 0 <= c1 < 9 && 0 <= c2 < 9 && c1 != c2 && (#[trigger] spec_apply_steps(
                g,
                spec_determine(g, strats),
            )[r][c1]).value is Some ==> spec_apply_steps(g, spec_determine(g, strats))[r][c1].value
                != (#[trigger] spec_apply_steps(g, spec_determine(g, strats))[r][c2]).value,
        forall|c: int, r1: int, r2: int|
            0 <= c < 9 && 0 <= r1 < 9 && 0 <= r2 < 9 && r1 != r2 && (#[trigger] spec_apply_steps(
                g,
                spec_determine(g, strats),
            )[r1][c]).value is Some ==> spec_apply_steps(g, spec_determine(g, strats))[r1][c].value
                != (#[trigger] spec_apply_steps(g, spec_determine(g, strats))[r2][c]).value,
        forall|r1: int, c1: int, r2: int, c2: int|
            #![trigger spec_apply_steps(g, spec_determine(g, strats))[r1][c1], spec_apply_steps(g, spec_determine(g, strats))[r2][c2]]
            0 <= r1 < 9 && 0 <= c1 < 9 && 0 <= r2 < 9 && 0 <= c2 < 9 && box_of(r1, c1) == box_of(
                r2,
                c2,
            ) && (r1 != r2 || c1 != c2) && spec_apply_steps(g, spec_determine(g, strats))[r1][c1].value is Some
                ==> spec_apply_steps(g, spec_determine(g, strats))[r1][c1].value != spec_apply_steps(
                g,
                spec_determine(g, strats),
            )[r2][c2].value,
{
    lemma_round_preserves_solution(g, strats, sol);
    lemma_respects_no_duplicates(spec_apply_steps(g, spec_determine(g, strats)), sol);
}

/// The effect of one step on the field it targets.
pub open spec fn step_field(f: FieldView, s: SolveStepView) -> FieldView {
    match s {
        SolveStepView::SetValue(v) => FieldView {
            value: Some(v),
            possibilities: Seq::empty(),
            position: f.position,
        },
        SolveStepView::RemovePossibilities(ds) => FieldView {
            value: f.value,
            possibilities: remove_digits(f.possibilities, ds),
            position: f.position,
        },
    }
}

/// The steps of a batch that target position `p`, applied in order to
/// one field: the per-cell view of the write pass.
pub open spec fn apply_steps_to_field(
    f: FieldView,
    steps: Seq<(FieldPosition, SolveStepView)>,
    p: FieldPosition,
) -> FieldView
    decreases steps.len(),
{
    if steps.len() == 0 {
        f
    } else {
        let f2 = if steps.first().0 == p {
            step_field(f, steps.first().1)
        } else {
            f
        };
        apply_steps_to_field(f2, steps.drop_first(), p)
    }
}

/// What a batch does to the grid, it does to each cell independently.
proof fn lemma_apply_localize(
    g: Seq<Seq<FieldView>>,
    steps: Seq<(FieldPosition, SolveStepView)>,
    r: int,
    c: int,
)
    requires
        grid_dims(g),
        forall|i: int| 0 <= i < steps.len() ==> (#[trigger] steps[i]).0.in_range(),
        0 <= r < 9,
        0 <= c < 9,
    ensures
        grid_dims(spec_apply_steps(g, steps)),
        spec_apply_steps(g, steps)[r][c] == apply_steps_to_field(
            g[r][c],
            steps,
            FieldPosition { row: r as usize, column: c as usize },
        ),
    decreases steps.len(),
{
    let p = FieldPosition { row: r as usize, column: c as usize };
    if steps.len() > 0 {
        let p0 = steps.first().0;
        let s0 = steps.first().1;
        assert(steps[0].0.in_range());
        let g2 = spec_apply_step(g, p0, s0);
        assert(grid_dims(g2)) by {
            assert forall|rr: int| 0 <= rr < 9 implies #[trigger] g2[rr].len() == 9 by {
                assert(g[rr].len() == 9);
            }
        }
        assert(g2[r][c] == (if p0 == p {
            step_field(g[r][c], s0)
        } else {
            g[r][c]
        })) by {
            assert(p0.row < g.len() && p0.column < g[p0.row as int].len());
            if p0 == p {
            } else {
                assert(p0.row as int != r || p0.column as int != c);
            }
        }
        assert forall|i: int| 0 <= i < steps.drop_first().len() implies (
        #[trigger] steps.drop_first()[i]).0.in_range() by {
            assert(steps.drop_first()[i] == steps[i + 1]);
            assert(steps[i + 1].0.in_range());
        }
        lemma_apply_localize(g2, steps.drop_first(), r, c);
    }
}

/// Every step recorded for a cell targets that cell's own position.
proof fn lemma_cell_steps_positions(
    g: Seq<Seq<FieldView>>,
    strats: Seq<Strategy>,
    f: FieldView,
    k: int,
)
    requires
        k >= 0,
    ensures
        forall|i: int|
            0 <= i < spec_cell_steps_from(g, strats, f, k).len() ==> (
            #[trigger] spec_cell_steps_from(g, strats, f, k)[i]).0 == f.position,
    decreases strats.len() - k,
{
    if k < strats.len() {
        lemma_cell_steps_positions(g, strats, f, k + 1);
        match spec_strategy_result(strats[k], g, f) {
            None => {},
            Some(SolveStepView::SetValue(v)) => {},
            Some(SolveStepView::RemovePossibilities(ds)) => {
                let kept = filter_present(ds, f.possibilities);
                let rest = spec_cell_steps_from(g, strats, f, k + 1);
                if kept.len() > 0 {
                    let cur = spec_cell_steps_from(g, strats, f, k);
                    assert forall|i: int| 0 <= i < cur.len() implies (#[trigger] cur[i]).0
                        == f.position by {
                        if i > 0 {
                            assert(cur[i] == rest[i - 1]);
                        }
                    }
                }
            },
        }
    }
}

/// Every step of a round targets the on-board cell it was derived from.
proof fn lemma_determine_positions(g: Seq<Seq<FieldView>>, strats: Seq<Strategy>, n: int)
    requires
        grid_wf(g),
        0 <= n <= 81,
    ensures
        forall|i: int|
            0 <= i < spec_determine_upto(g, strats, n).len() ==> (#[trigger] spec_determine_upto(
                g,
                strats,
                n,
            )[i]).0.in_range(),
    decreases n,
{
    if n > 0 {
        lemma_determine_positions(g, strats, n - 1);
        let r = (n - 1) / 9;
        let c = (n - 1) % 9;
        assert(0 <= r < 9 && 0 <= c < 9);
        let f = g[r][c];
        let pre = spec_determine_upto(g, strats, n - 1);
        let cur = spec_determine_upto(g, strats, n);
        if f.value is None {
            lemma_cell_steps_positions(g, strats, f, 0);
            let cs = spec_cell_steps(g, strats, f);
            assert forall|i: int| 0 <= i < cur.len() implies (#[trigger] cur[i]).0.in_range() by {
                if i < pre.len() {
                    assert(cur[i] == pre[i]);
                    assert(pre[i].0.in_range());
                } else {
                    assert(cur[i] == cs[i - pre.len()]);
                    assert(cs[i - pre.len()].0 == f.position);
                }
            }
        }
    }
}

/// Concatenated batches act on a cell one after the other.
proof fn lemma_apply_field_concat(
    f: FieldView,
    a: Seq<(FieldPosition, SolveStepView)>,
    b: Seq<(FieldPosition, SolveStepView)>,
    p: FieldPosition,
)
    ensures
        apply_steps_to_field(f, a + b, p) == apply_steps_to_field(
            apply_steps_to_field(f, a, p),
            b,
            p,
        ),
    decreases a.len(),
{
    if a.len() == 0 {
        assert(a + b =~= b);
    } else {
        assert((a + b).first() == a.first());
        assert((a + b).drop_first() =~= a.drop_first() + b);
        let f2 = if a.first().0 == p {
            step_field(f, a.first().1)
        } else {
            f
        };
        lemma_apply_field_concat(f2, a.drop_first(), b, p);
    }
}

/// Steps aimed at other cells leave a field alone.
proof fn lemma_apply_field_other(
    f: FieldView,
    steps: Seq<(FieldPosition, SolveStepView)>,
    p: FieldPosition,
)
    requires
        forall|i: int| 0 <= i < steps.len() ==> (#[trigger] steps[i]).0 != p,
    ensures
        apply_steps_to_field(f, steps, p) == f,
    decreases steps.len(),
{
    if steps.len() > 0 {
        assert(steps[0].0 != p);
        assert forall|i: int| 0 <= i < steps.drop_first().len() implies (
        #[trigger] steps.drop_first()[i]).0 != p by {
            assert(steps.drop_first()[i] == steps[i + 1]);
            assert(steps[i + 1].0 != p);
        }
        lemma_apply_field_other(f, steps.drop_first(), p);
    }
}

/// What one round does to one cell: nothing if the cell was already
/// solved, otherwise exactly its own recorded steps.
proof fn lemma_determine_local(
    g: Seq<Seq<FieldView>>,
    strats: Seq<Strategy>,
    r: int,
    c: int,
    n: int,
)
    requires
        grid_wf(g),
        0 <= r < 9,
        0 <= c < 9,
        0 <= n <= 81,
    ensures
        apply_steps_to_field(
            g[r][c],
            spec_determine_upto(g, strats, n),
            FieldPosition { row: r as usize, column: c as usize },
        ) == (if 9 * r + c < n && g[r][c].value is None {
            apply_steps_to_field(
                g[r][c],
                spec_cell_steps(g, strats, g[r][c]),
                FieldPosition { row: r as usize, column: c as usize },
            )
        } else {
            g[r][c]
        }),
    decreases n,
{
    let p = FieldPosition { row: r as usize, column: c as usize };
    let f = g[r][c];
    if n == 0 {
    } else {
        lemma_determine_local(g, strats, r, c, n - 1);
        let rn = (n - 1) / 9;
        let cn = (n - 1) % 9;
        assert(0 <= rn < 9 && 0 <= cn < 9);
        let fn_ = g[rn][cn];
        let pre = spec_determine_upto(g, strats, n - 1);
        let cur = spec_determine_upto(g, strats, n);
        if fn_.value is None {
            let cs = spec_cell_steps(g, strats, fn_);
            lemma_cell_steps_positions(g, strats, fn_, 0);
            lemma_apply_field_concat(f, pre, cs, p);
            if rn == r && cn == c {
                assert(n - 1 == 9 * r + c);
                assert(!(9 * r + c < n - 1));
                assert(apply_steps_to_field(f, pre, p) == f);
                assert(fn_.position == p);
            } else {
                assert(fn_.position != p) by {
                    assert(fn_.position == (FieldPosition {
                        row: rn as usize,
                        column: cn as usize,
                    }));
                    if rn == r && cn == c {
                        assert(false);
                    }
                }
                assert forall|i: int| 0 <= i < cs.len() implies (#[trigger] cs[i]).0 != p by {
                    assert(cs[i].0 == fn_.position);
                }
                lemma_apply_field_other(apply_steps_to_field(f, pre, p), cs, p);
                assert(9 * r + c != n - 1) by {
                    if 9 * r + c == n - 1 {
                        assert((9 * r + c) / 9 == r && (9 * r + c) % 9 == c) by (nonlinear_arith)
                            requires
                                0 <= r < 9,
                                0 <= c < 9,
                        ;
                    }
                }
            }
        } else {
            assert(cur == pre);
            assert(9 * r + c != n - 1 || !(f.value is None)) by {
                if 9 * r + c == n - 1 && f.value is None {
                    assert((9 * r + c) / 9 == r && (9 * r + c) % 9 == c) by (nonlinear_arith)
                        requires
                            0 <= r < 9,
                            0 <= c < 9,
                    ;
                }
            }
        }
    }
}

proof fn lemma_filter_present_mem(ds: Seq<usize>, cands: Seq<usize>)
    ensures
        forall|x: usize|
            #[trigger] filter_present(ds, cands).contains(x) <==> ds.contains(x) && cands.contains(
                x,
            ),
    decreases ds.len(),
{
    lemma_filter_present_subset(ds, cands);
    if ds.len() > 0 {
        lemma_filter_present_mem(ds.drop_last(), cands);
        let pre = filter_present(ds.drop_last(), cands);
        assert forall|x: usize| ds.contains(x) && cands.contains(x) implies #[trigger] filter_present(
            ds,
            cands,
        ).contains(x) by {
            let i = choose|i: int| 0 <= i < ds.len() && ds[i] == x;
            if i < ds.len() - 1 {
                assert(ds.drop_last()[i] == x);
                assert(ds.drop_last().contains(x));
                assert(pre.contains(x));
                let j = choose|j: int| 0 <= j < pre.len() && pre[j] == x;
                if cands.contains(ds.last()) {
                    assert(filter_present(ds, cands)[j] == x);
                }
            } else {
                assert(x == ds.last());
                assert(filter_present(ds, cands).last() == x);
            }
        }
    }
}

/// How much logical freedom a field still has: nothing once solved, one
/// more than its candidate count while open.
pub open spec fn field_weight(f: FieldView) -> int {
    if f.value is Some {
        0
    } else {
        f.possibilities.len() as int + 1
    }
}

/// A batch of steps can only take freedom away from a field.
proof fn lemma_apply_field_shrinks(
    f: FieldView,
    steps: Seq<(FieldPosition, SolveStepView)>,
    p: FieldPosition,
)
    ensures
        apply_steps_to_field(f, steps, p).position == f.position,
        forall|v: usize|
            #[trigger] apply_steps_to_field(f, steps, p).possibilities.contains(v)
                ==> f.possibilities.contains(v),
        apply_steps_to_field(f, steps, p).possibilities.len() <= f.possibilities.len(),
        field_weight(apply_steps_to_field(f, steps, p)) <= field_weight(f),
        sorted_strict(f.possibilities) ==> sorted_strict(
            apply_steps_to_field(f, steps, p).possibilities,
        ),
    decreases steps.len(),
{
    if steps.len() > 0 {
        let f2 = if steps.first().0 == p {
            step_field(f, steps.first().1)
        } else {
            f
        };
        if steps.first().0 == p {
            match steps.first().1 {
                SolveStepView::SetValue(v) => {},
                SolveStepView::RemovePossibilities(ds) => {
                    lemma_remove_digits(f.possibilities, ds);
                },
            }
        }
        lemma_apply_field_shrinks(f2, steps.drop_first(), p);
    }
}

/// A removal step aimed at the field strikes its digit for good: no
/// later step of the batch ever restores a candidate.
proof fn lemma_apply_field_removes(
    f: FieldView,
    steps: Seq<(FieldPosition, SolveStepView)>,
    p: FieldPosition,
    j: int,
    v: usize,
)
    requires
        0 <= j < steps.len(),
        steps[j].0 == p,
        steps[j].1 matches SolveStepView::RemovePossibilities(ds) && ds.contains(v),
    ensures
        !apply_steps_to_field(f, steps, p).possibilities.contains(v),
    decreases steps.len(),
{
    let f2 = if steps.first().0 == p {
        step_field(f, steps.first().1)
    } else {
        f
    };
    if j == 0 {
        match steps.first().1 {
            SolveStepView::RemovePossibilities(ds) => {
                lemma_remove_digits(f.possibilities, ds);
                assert(!f2.possibilities.contains(v));
                lemma_apply_field_shrinks(f2, steps.drop_first(), p);
            },
            _ => {
                assert(false);
            },
        }
    } else {
        assert(steps.drop_first()[j - 1] == steps[j]);
        lemma_apply_field_removes(f2, steps.drop_first(), p, j - 1, v);
    }
}

/// Removing a digit that is really present makes the list shorter.
proof fn lemma_remove_digits_strict(s: Seq<usize>, ds: Seq<usize>, d: usize)
    requires
        sorted_strict(s),
        s.contains(d),
        ds.contains(d),
    ensures
        remove_digits(s, ds).len() < s.len(),
{
    broadcast use vstd::set::group_set_axioms, vstd::seq_lib::seq_to_set_is_finite;

    lemma_remove_digits(s, ds);
    let r = remove_digits(s, ds);
    assert(!r.contains(d));
    assert(s.no_duplicates()) by {
        assert forall|k1: int, k2: int|
            0 <= k1 < s.len() && 0 <= k2 < s.len() && k1 != k2 implies s[k1] != s[k2] by {
            if k1 < k2 {
                assert(s[k1] < s[k2]);
            } else {
                assert(s[k2] < s[k1]);
            }
        }
    }
    assert(r.no_duplicates()) by {
        assert(sorted_strict(r));
        assert forall|k1: int, k2: int|
            0 <= k1 < r.len() && 0 <= k2 < r.len() && k1 != k2 implies r[k1] != r[k2] by {
            if k1 < k2 {
                assert(r[k1] < r[k2]);
            } else {
                assert(r[k2] < r[k1]);
            }
        }
    }
    s.unique_seq_to_set();
    r.unique_seq_to_set();
    assert(r.to_set().subset_of(s.to_set().remove(d))) by {
        assert forall|x: usize| r.to_set().contains(x) implies s.to_set().remove(d).contains(x) by {
            assert(r.contains(x));
            assert(s.contains(x) && x != d);
        }
    }
    assert(s.to_set().remove(d).len() == s.to_set().len() - 1);
    vstd::set_lib::lemma_len_subset(r.to_set(), s.to_set().remove(d));
}

/// One round never grows a cell: solved cells are left exactly as they
/// are, and the candidate set of an open cell only loses digits.
pub proof fn lemma_round_monotone(g: Seq<Seq<FieldView>>, strats: Seq<Strategy>)
    requires
        grid_wf(g),
    ensures
        grid_dims(spec_apply_steps(g, spec_determine(g, strats))),
        forall|r: int, c: int|
            0 <= r < 9 && 0 <= c < 9 && (#[trigger] g[r][c]).value is Some ==> spec_apply_steps(
                g,
                spec_determine(g, strats),
            )[r][c] == g[r][c],
        forall|r: int, c: int|
            0 <= r < 9 && 0 <= c < 9 ==> (#[trigger] spec_apply_steps(
                g,
                spec_determine(g, strats),
            )[r][c]).position == g[r][c].position,
        forall|r: int, c: int, v: usize|
            0 <= r < 9 && 0 <= c < 9 && (#[trigger] spec_apply_steps(
                g,
                spec_determine(g, strats),
            )[r][c].possibilities.contains(v)) ==> g[r][c].possibilities.contains(v),
        forall|r: int, c: int|
            0 <= r < 9 && 0 <= c < 9 ==> (#[trigger] spec_apply_steps(
                g,
                spec_determine(g, strats),
            )[r][c]).possibilities.len() <= g[r][c].possibilities.len(),
{
    let steps = spec_determine(g, strats);
    let g2 = spec_apply_steps(g, steps);
    lemma_determine_positions(g, strats, 81);
    assert forall|r: int, c: int| 0 <= r < 9 && 0 <= c < 9 implies ((g[r][c].value is Some
        ==> (#[trigger] g2[r][c]) == g[r][c]) && g2[r][c].position == g[r][c].position && (
    forall|v: usize|
        #[trigger] g2[r][c].possibilities.contains(v) ==> g[r][c].possibilities.contains(v))
        && g2[r][c].possibilities.len() <= g[r][c].possibilities.len()) by {
        let p = FieldPosition { row: r as usize, column: c as usize };
        lemma_apply_localize(g, steps, r, c);
        lemma_determine_local(g, strats, r, c, 81);
        lemma_apply_field_shrinks(g[r][c], spec_cell_steps(g, strats, g[r][c]), p);
    }
    lemma_apply_localize(g, steps, 0, 0);
}

/// Whenever a strategy proposes an assignment, the digit is one of the
/// cell's own candidates.
proof fn lemma_strategy_value_in_cands(st: Strategy, g: Seq<Seq<FieldView>>, f: FieldView)
    ensures
        spec_strategy_result(st, g, f) matches Some(SolveStepView::SetValue(v))
            ==> f.possibilities.contains(v),
{
    match st {
        Strategy::NakedSingle => {
            if f.possibilities.len() == 1 {
                assert(f.possibilities.contains(f.possibilities[0]));
            }
        },
        Strategy::HiddenSingleInRow => {
            lemma_first_owned(f.possibilities, g[f.position.row as int]);
        },
        Strategy::HiddenSingleInColumn => {
            lemma_first_owned(f.possibilities, column_fields(g, f.position.column as int));
        },
        Strategy::HiddenSingleInBox => {
            lemma_first_owned(
                f.possibilities,
                box_fields(g, box_of(f.position.row as int, f.position.column as int)),
            );
        },
        _ => {},
    }
}

/// Every assignment recorded for a cell writes one of its candidates.
proof fn lemma_cell_steps_values(
    g: Seq<Seq<FieldView>>,
    strats: Seq<Strategy>,
    f: FieldView,
    k: int,
)
    requires
        k >= 0,
    ensures
        forall|i: int|
            0 <= i < spec_cell_steps_from(g, strats, f, k).len() ==> ((
            #[trigger] spec_cell_steps_from(g, strats, f, k)[i]).1 matches SolveStepView::SetValue(
                v,
            ) ==> f.possibilities.contains(v)),
    decreases strats.len() - k,
{
    if k < strats.len() {
        lemma_cell_steps_values(g, strats, f, k + 1);
        lemma_strategy_value_in_cands(strats[k], g, f);
        match spec_strategy_result(strats[k], g, f) {
            None => {},
            Some(SolveStepView::SetValue(v)) => {},
            Some(SolveStepView::RemovePossibilities(ds)) => {
                let kept = filter_present(ds, f.possibilities);
                let rest = spec_cell_steps_from(g, strats, f, k + 1);
                if kept.len() > 0 {
                    let cur = spec_cell_steps_from(g, strats, f, k);
                    assert forall|i: int| 0 <= i < cur.len() implies ((
                    #[trigger] cur[i]).1 matches SolveStepView::SetValue(v)
                        ==> f.possibilities.contains(v)) by {
                        if i > 0 {
                            assert(cur[i] == rest[i - 1]);
                        }
                    }
                }
            },
        }
    }
}

/// A batch whose assignments all write valid digits keeps a field
/// well-formed.
proof fn lemma_apply_field_wf(
    f: FieldView,
    steps: Seq<(FieldPosition, SolveStepView)>,
    p: FieldPosition,
)
    requires
        f.wf(),
        forall|j: int|
            0 <= j < steps.len() ==> ((#[trigger] steps[j]).1 matches SolveStepView::SetValue(v)
                ==> digit_ok(v)),
    ensures
        apply_steps_to_field(f, steps, p).wf(),
    decreases steps.len(),
{
    if steps.len() > 0 {
        let f2 = if steps.first().0 == p {
            step_field(f, steps.first().1)
        } else {
            f
        };
        assert(f2.wf()) by {
            if steps.first().0 == p {
                match steps.first().1 {
                    SolveStepView::SetValue(v) => {
                        assert(steps[0].1 matches SolveStepView::SetValue(w) ==> digit_ok(w));
                    },
                    SolveStepView::RemovePossibilities(ds) => {
                        lemma_remove_digits(f.possibilities, ds);
                        assert forall|i: int|
                            0 <= i < f2.possibilities.len() implies digit_ok(
                            #[trigger] f2.possibilities[i],
                        ) by {
                            assert(f2.possibilities.contains(f2.possibilities[i]));
                            assert(f.possibilities.contains(f2.possibilities[i]));
                            let k = choose|k: int|
                                0 <= k < f.possibilities.len() && f.possibilities[k]
                                    == f2.possibilities[i];
                        }
                        if f.value is Some {
                            assert(f.possibilities.len() == 0);
                            assert(f2.possibilities.len() == 0);
                        }
                    },
                }
            }
        }
        assert forall|j: int| 0 <= j < steps.drop_first().len() implies ((
        #[trigger] steps.drop_first()[j]).1 matches SolveStepView::SetValue(v) ==> digit_ok(
            v,
        )) by {
            assert(steps.drop_first()[j] == steps[j + 1]);
            assert(steps[j + 1].1 matches SolveStepView::SetValue(v) ==> digit_ok(v));
        }
        lemma_apply_field_wf(f2, steps.drop_first(), p);
    }
}

/// One round keeps the grid well-formed: positions stay put, candidate
/// lists stay sorted digit lists, and assigned digits are valid.
pub proof fn lemma_round_preserves_wf(g: Seq<Seq<FieldView>>, strats: Seq<Strategy>)
    requires
        grid_wf(g),
    ensures
        grid_wf(spec_apply_steps(g, spec_determine(g, strats))),
{
    let steps = spec_determine(g, strats);
    let g2 = spec_apply_steps(g, steps);
    lemma_determine_positions(g, strats, 81);
    lemma_apply_localize(g, steps, 0, 0);
    assert forall|r: int, c: int| 0 <= r < 9 && 0 <= c < 9 implies (#[trigger] g2[r][c]).wf()
        && g2[r][c].position == (FieldPosition { row: r as usize, column: c as usize }) by {
        let p = FieldPosition { row: r as usize, column: c as usize };
        let f = g[r][c];
        lemma_apply_localize(g, steps, r, c);
        lemma_determine_local(g, strats, r, c, 81);
        if 9 * r + c < 81 && f.value is None {
            let cs = spec_cell_steps(g, strats, f);
            lemma_cell_steps_values(g, strats, f, 0);
            assert forall|j: int| 0 <= j < cs.len() implies ((
            #[trigger] cs[j]).1 matches SolveStepView::SetValue(v) ==> digit_ok(v)) by {
                match cs[j].1 {
                    SolveStepView::SetValue(v) => {
                        assert(f.possibilities.contains(v));
                        let k = choose|k: int|
                            0 <= k < f.possibilities.len() && f.possibilities[k] == v;
                        assert(f.wf());
                    },
                    _ => {},
                }
            }
            lemma_apply_field_wf(f, cs, p);
            lemma_apply_field_shrinks(f, cs, p);
        }
    }
}

/// After one round of the standard strategies, no cell still lists a
/// candidate that was already assigned in one of its units when the
/// round began: the three unit eliminations always run for every open
/// cell before any strategy can assign it.
pub proof fn lemma_round_prunes(g: Seq<Seq<FieldView>>)
    requires
        grid_wf(g),
    ensures
        forall|r: int, c: int, v: usize|
            0 <= r < 9 && 0 <= c < 9 && value_in_units(g, r, c, v) ==> !(#[trigger] spec_apply_steps(
                g,
                spec_determine(g, default_strategies()),
            )[r][c].possibilities.contains(v)),
{
    let strats = default_strategies();
    let steps = spec_determine(g, strats);
    let g2 = spec_apply_steps(g, steps);
    lemma_determine_positions(g, strats, 81);
    assert forall|r: int, c: int, v: usize|
        0 <= r < 9 && 0 <= c < 9 && value_in_units(g, r, c, v) implies !(
    #[trigger] g2[r][c].possibilities.contains(v)) by {
        let p = FieldPosition { row: r as usize, column: c as usize };
        let f = g[r][c];
        lemma_apply_localize(g, steps, r, c);
        lemma_determine_local(g, strats, r, c, 81);
        if f.value is Some {
            assert(f.possibilities.len() == 0);
            assert(g2[r][c] == f);
        } else {
            let cs = spec_cell_steps(g, strats, f);
            assert(f.position == p);
            let ds0 = dedup_adjacent(assigned_values(g[r]));
            let ds1 = dedup_adjacent(assigned_values(column_fields(g, c)));
            let ds2 = dedup_adjacent(assigned_values(box_fields(g, box_of(r, c))));
            assert(strats[0] == Strategy::RowElimination);
            assert(strats[1] == Strategy::ColumnElimination);
            assert(strats[2] == Strategy::BoxElimination);
            assert(spec_strategy_result(strats[0], g, f) == Some(
                SolveStepView::RemovePossibilities(ds0),
            ));
            assert(spec_strategy_result(strats[1], g, f) == Some(
                SolveStepView::RemovePossibilities(ds1),
            ));
            assert(spec_strategy_result(strats[2], g, f) == Some(
                SolveStepView::RemovePossibilities(ds2),
            ));
            let kept0 = filter_present(ds0, f.possibilities);
            let kept1 = filter_present(ds1, f.possibilities);
            let kept2 = filter_present(ds2, f.possibilities);
            lemma_filter_present_mem(ds0, f.possibilities);
            lemma_filter_present_mem(ds1, f.possibilities);
            lemma_filter_present_mem(ds2, f.possibilities);
            let from1 = spec_cell_steps_from(g, strats, f, 1);
            let from2 = spec_cell_steps_from(g, strats, f, 2);
            let from3 = spec_cell_steps_from(g, strats, f, 3);
            if !f.possibilities.contains(v) {
                lemma_apply_field_shrinks(f, cs, p);
            } else {
                lemma_dedup_adjacent(assigned_values(g[r]));
                lemma_dedup_adjacent(assigned_values(column_fields(g, c)));
                lemma_dedup_adjacent(assigned_values(box_fields(g, box_of(r, c))));
                lemma_assigned_values(g[r]);
                lemma_assigned_values(column_fields(g, c));
                lemma_assigned_values(box_fields(g, box_of(r, c)));
                let in0 = exists|cc: int| 0 <= cc < 9 && (#[trigger] g[r][cc]).value == Some(v);
                let in1 = exists|rr: int| 0 <= rr < 9 && (#[trigger] g[rr][c]).value == Some(v);
                if in0 {
                    let cc = choose|cc: int| 0 <= cc < 9 && (#[trigger] g[r][cc]).value == Some(v);
                    assert(g[r][cc].value == Some(v));
                    assert(assigned_values(g[r]).contains(v));
                    assert(ds0.contains(v));
                    assert(kept0.contains(v));
                    assert(kept0.len() > 0);
                    assert(cs[0] == (p, SolveStepView::RemovePossibilities(kept0)));
                    lemma_apply_field_removes(f, cs, p, 0, v);
                } else if in1 {
                    let rr = choose|rr: int| 0 <= rr < 9 && (#[trigger] g[rr][c]).value == Some(v);
                    assert(column_fields(g, c)[rr].value == Some(v));
                    assert(assigned_values(column_fields(g, c)).contains(v));
                    assert(ds1.contains(v));
                    assert(kept1.contains(v));
                    assert(kept1.len() > 0);
                    if kept0.len() > 0 {
                        assert(cs == seq![(p, SolveStepView::RemovePossibilities(kept0))] + from1);
                        assert(cs[1] == from1[0]);
                        assert(cs[1] == (p, SolveStepView::RemovePossibilities(kept1)));
                        lemma_apply_field_removes(f, cs, p, 1, v);
                    } else {
                        assert(cs == from1);
                        assert(cs[0] == (p, SolveStepView::RemovePossibilities(kept1)));
                        lemma_apply_field_removes(f, cs, p, 0, v);
                    }
                } else {
                    let k = choose|k: int|
                        0 <= k < 9 && g[box_row(box_of(r, c), k)][#[trigger] box_column(
                            box_of(r, c),
                            k,
                        )].value == Some(v);
                    assert(box_fields(g, box_of(r, c))[k].value == Some(v));
                    assert(assigned_values(box_fields(g, box_of(r, c))).contains(v));
                    assert(ds2.contains(v));
                    assert(kept2.contains(v));
                    assert(kept2.len() > 0);
                    let j2: int = (if kept0.len() > 0 {
                        1int
                    } else {
                        0int
                    }) + (if kept1.len() > 0 {
                        1int
                    } else {
                        0int
                    });
                    assert(from2[0] == (p, SolveStepView::RemovePossibilities(kept2)));
                    if kept1.len() > 0 {
                        assert(from1 == seq![(p, SolveStepView::RemovePossibilities(kept1))]
                            + from2);
                        assert(from1[1] == from2[0]);
                    } else {
                        assert(from1 == from2);
                    }
                    if kept0.len() > 0 {
                        assert(cs == seq![(p, SolveStepView::RemovePossibilities(kept0))] + from1);
                        assert(cs[j2] == from1[j2 - 1]);
                    } else {
                        assert(cs == from1);
                    }
                    assert(cs[j2] == (p, SolveStepView::RemovePossibilities(kept2)));
                    lemma_apply_field_removes(f, cs, p, j2, v);
                }
            }
        }
    }
}

/// The total logical freedom left in one row of fields.
pub open spec fn fields_weight(fs: Seq<FieldView>) -> int
    decreases fs.len(),
{
    if fs.len() == 0 {
        0
    } else {
        fields_weight(fs.drop_last()) + field_weight(fs.last())
    }
}

/// The total logical freedom left in the grid; every round that makes a
/// deduction lowers it, so rounds cannot go on for ever.
pub open spec fn grid_measure(g: Seq<Seq<FieldView>>) -> int
    decreases g.len(),
{
    if g.len() == 0 {
        0
    } else {
        grid_measure(g.drop_last()) + fields_weight(g.last())
    }
}

proof fn lemma_fields_weight_le(a: Seq<FieldView>, b: Seq<FieldView>)
    requires
        a.len() == b.len(),
        forall|i: int| 0 <= i < a.len() ==> field_weight(#[trigger] a[i]) <= field_weight(b[i]),
    ensures
        fields_weight(a) <= fields_weight(b),
    decreases a.len(),
{
    if a.len() > 0 {
        assert forall|i: int|
            0 <= i < a.drop_last().len() implies field_weight(#[trigger] a.drop_last()[i])
            <= field_weight(b.drop_last()[i]) by {
            assert(a.drop_last()[i] == a[i] && b.drop_last()[i] == b[i]);
            assert(field_weight(a[i]) <= field_weight(b[i]));
        }
        lemma_fields_weight_le(a.drop_last(), b.drop_last());
        assert(field_weight(a[a.len() - 1]) <= field_weight(b[a.len() - 1]));
    }
}

proof fn lemma_fields_weight_lt(a: Seq<FieldView>, b: Seq<FieldView>, j: int)
    requires
        a.len() == b.len(),
        forall|i: int| 0 <= i < a.len() ==> field_weight(#[trigger] a[i]) <= field_weight(b[i]),
        0 <= j < a.len(),
        field_weight(a[j]) < field_weight(b[j]),
    ensures
        fields_weight(a) < fields_weight(b),
    decreases a.len(),
{
    assert forall|i: int|
        0 <= i < a.drop_last().len() implies field_weight(#[trigger] a.drop_last()[i])
        <= field_weight(b.drop_last()[i]) by {
        assert(a.drop_last()[i] == a[i] && b.drop_last()[i] == b[i]);
        assert(field_weight(a[i]) <= field_weight(b[i]));
    }
    if j == a.len() - 1 {
        lemma_fields_weight_le(a.drop_last(), b.drop_last());
    } else {
        lemma_fields_weight_lt(a.drop_last(), b.drop_last(), j);
        assert(field_weight(a[a.len() - 1]) <= field_weight(b[a.len() - 1]));
    }
}

proof fn lemma_grid_measure_le(a: Seq<Seq<FieldView>>, b: Seq<Seq<FieldView>>)
    requires
        a.len() == b.len(),
        forall|r: int| 0 <= r < a.len() ==> fields_weight(#[trigger] a[r]) <= fields_weight(b[r]),
    ensures
        grid_measure(a) <= grid_measure(b),
    decreases a.len(),
{
    if a.len() > 0 {
        assert forall|r: int|
            0 <= r < a.drop_last().len() implies fields_weight(#[trigger] a.drop_last()[r])
            <= fields_weight(b.drop_last()[r]) by {
            assert(a.drop_last()[r] == a[r] && b.drop_last()[r] == b[r]);
            assert(fields_weight(a[r]) <= fields_weight(b[r]));
        }
        lemma_grid_measure_le(a.drop_last(), b.drop_last());
        assert(fields_weight(a[a.len() - 1]) <= fields_weight(b[a.len() - 1]));
    }
}

proof fn lemma_grid_measure_lt(a: Seq<Seq<FieldView>>, b: Seq<Seq<FieldView>>, j: int)
    requires
        a.len() == b.len(),
        forall|r: int| 0 <= r < a.len() ==> fields_weight(#[trigger] a[r]) <= fields_weight(b[r]),
        0 <= j < a.len(),
        fields_weight(a[j]) < fields_weight(b[j]),
    ensures
        grid_measure(a) < grid_measure(b),
    decreases a.len(),
{
    assert forall|r: int|
        0 <= r < a.drop_last().len() implies fields_weight(#[trigger] a.drop_last()[r])
        <= fields_weight(b.drop_last()[r]) by {
        assert(a.drop_last()[r] == a[r] && b.drop_last()[r] == b[r]);
        assert(fields_weight(a[r]) <= fields_weight(b[r]));
    }
    if j == a.len() - 1 {
        lemma_grid_measure_le(a.drop_last(), b.drop_last());
    } else {
        lemma_grid_measure_lt(a.drop_last(), b.drop_last(), j);
        assert(fields_weight(a[a.len() - 1]) <= fields_weight(b[a.len() - 1]));
    }
}

proof fn lemma_fields_weight_bound(fs: Seq<FieldView>)
    requires
        forall|i: int| 0 <= i < fs.len() ==> 0 <= field_weight(#[trigger] fs[i]) <= 10,
    ensures
        0 <= fields_weight(fs) <= 10 * fs.len(),
    decreases fs.len(),
{
    if fs.len() > 0 {
        assert forall|i: int|
            0 <= i < fs.drop_last().len() implies 0 <= field_weight(#[trigger] fs.drop_last()[i])
            <= 10 by {
            assert(fs.drop_last()[i] == fs[i]);
            assert(0 <= field_weight(fs[i]) <= 10);
        }
        lemma_fields_weight_bound(fs.drop_last());
        assert(0 <= field_weight(fs[fs.len() - 1]) <= 10);
    }
}

/// The measure of a well-formed grid is bounded, so repeated rounds
/// reach a fixed point or a complete grid within a bounded number of
/// deduction rounds.
pub proof fn lemma_measure_bounds(g: Seq<Seq<FieldView>>)
    requires
        grid_wf(g),
    ensures
        0 <= grid_measure(g) <= 810,
{
    assert forall|r: int| 0 <= r < 9 implies 0 <= fields_weight(#[trigger] g[r]) && fields_weight(
        g[r],
    ) <= 90 by {
        assert forall|i: int| 0 <= i < g[r].len() implies 0 <= field_weight(#[trigger] g[r][i])
            <= 10 by {
            assert(g[r][i].wf());
            crate::solver::strategies::lemma_digit_seq_len(g[r][i].possibilities);
        }
        lemma_fields_weight_bound(g[r]);
    }
    lemma_grid_measure_sum(g, 9);
    assert(g.take(9) =~= g);
}

proof fn lemma_grid_measure_sum(g: Seq<Seq<FieldView>>, n: int)
    requires
        g.len() == 9,
        0 <= n <= 9,
        forall|r: int| 0 <= r < 9 ==> 0 <= fields_weight(#[trigger] g[r]) <= 90,
    ensures
        0 <= grid_measure(g.take(n)) <= 90 * n,
    decreases n,
{
    if n > 0 {
        lemma_grid_measure_sum(g, n - 1);
        assert(g.take(n).drop_last() =~= g.take(n - 1));
        assert(g.take(n).last() == g[n - 1]);
    } else {
        assert(g.take(0).len() == 0);
    }
}

proof fn lemma_determine_nonempty_cell(g: Seq<Seq<FieldView>>, strats: Seq<Strategy>, n: int)
    requires
        grid_wf(g),
        0 <= n <= 81,
        spec_determine_upto(g, strats, n).len() > 0,
    ensures
        exists|r: int, c: int|
            0 <= r < 9 && 0 <= c < 9 && (#[trigger] g[r][c]).value is None && spec_cell_steps(
                g,
                strats,
                g[r][c],
            ).len() > 0,
    decreases n,
{
    if n > 0 {
        let r = (n - 1) / 9;
        let c = (n - 1) % 9;
        assert(0 <= r < 9 && 0 <= c < 9);
        if g[r][c].value is None && spec_cell_steps(g, strats, g[r][c]).len() > 0 {
            assert(g[r][c].value is None && spec_cell_steps(g, strats, g[r][c]).len() > 0);
        } else {
            lemma_determine_nonempty_cell(g, strats, n - 1);
        }
    }
}

proof fn lemma_cell_steps_first(g: Seq<Seq<FieldView>>, strats: Seq<Strategy>, f: FieldView, k: int)
    requires
        k >= 0,
        spec_cell_steps_from(g, strats, f, k).len() > 0,
    ensures
        spec_cell_steps_from(g, strats, f, k)[0].0 == f.position,
        match spec_cell_steps_from(g, strats, f, k)[0].1 {
            SolveStepView::SetValue(_) => true,
            SolveStepView::RemovePossibilities(ds) => ds.len() > 0 && exists|d: usize|
                ds.contains(d) && f.possibilities.contains(d),
        },
    decreases strats.len() - k,
{
    if k < strats.len() {
        match spec_strategy_result(strats[k], g, f) {
            None => {
                lemma_cell_steps_first(g, strats, f, k + 1);
            },
            Some(SolveStepView::SetValue(v)) => {},
            Some(SolveStepView::RemovePossibilities(ds)) => {
                let kept = filter_present(ds, f.possibilities);
                lemma_filter_present_mem(ds, f.possibilities);
                if kept.len() > 0 {
                    assert(kept.contains(kept[0]));
                    assert(f.possibilities.contains(kept[0]));
                } else {
                    lemma_cell_steps_first(g, strats, f, k + 1);
                }
            },
        }
    }
}

proof fn lemma_apply_field_strict(
    f: FieldView,
    steps: Seq<(FieldPosition, SolveStepView)>,
    p: FieldPosition,
)
    requires
        f.value is None,
        sorted_strict(f.possibilities),
        steps.len() > 0,
        steps[0].0 == p,
        match steps[0].1 {
            SolveStepView::SetValue(_) => true,
            SolveStepView::RemovePossibilities(ds) => exists|d: usize|
                ds.contains(d) && f.possibilities.contains(d),
        },
    ensures
        field_weight(apply_steps_to_field(f, steps, p)) < field_weight(f),
{
    let f2 = step_field(f, steps.first().1);
    match steps.first().1 {
        SolveStepView::SetValue(v) => {
            assert(field_weight(f2) == 0);
        },
        SolveStepView::RemovePossibilities(ds) => {
            let d = choose|d: usize| ds.contains(d) && f.possibilities.contains(d);
            lemma_remove_digits_strict(f.possibilities, ds, d);
            assert(field_weight(f2) < field_weight(f));
        },
    }
    lemma_apply_field_shrinks(f2, steps.drop_first(), p);
}

/// Every round that reports a deduction strictly lowers the grid
/// measure, so a solve cannot oscillate: it reaches a complete grid or a
/// round with no change after a bounded number of rounds.
pub proof fn lemma_round_decreases(g: Seq<Seq<FieldView>>, strats: Seq<Strategy>)
    requires
        grid_wf(g),
        spec_determine(g, strats).len() > 0,
    ensures
        grid_measure(spec_apply_steps(g, spec_determine(g, strats))) < grid_measure(g),
{
    let steps = spec_determine(g, strats);
    let g2 = spec_apply_steps(g, steps);
    lemma_determine_positions(g, strats, 81);
    lemma_determine_nonempty_cell(g, strats, 81);
    let (r0, c0) = choose|r: int, c: int|
        0 <= r < 9 && 0 <= c < 9 && (#[trigger] g[r][c]).value is None && spec_cell_steps(
            g,
            strats,
            g[r][c],
        ).len() > 0;
    assert forall|r: int, c: int| 0 <= r < 9 && 0 <= c < 9 implies field_weight(
        #[trigger] g2[r][c],
    ) <= field_weight(g[r][c]) by {
        let p = FieldPosition { row: r as usize, column: c as usize };
        lemma_apply_localize(g, steps, r, c);
        lemma_determine_local(g, strats, r, c, 81);
        lemma_apply_field_shrinks(g[r][c], spec_cell_steps(g, strats, g[r][c]), p);
    }
    assert(field_weight(g2[r0][c0]) < field_weight(g[r0][c0])) by {
        let p = FieldPosition { row: r0 as usize, column: c0 as usize };
        let f = g[r0][c0];
        let cs = spec_cell_steps(g, strats, f);
        lemma_apply_localize(g, steps, r0, c0);
        lemma_determine_local(g, strats, r0, c0, 81);
        lemma_cell_steps_first(g, strats, f, 0);
        assert(f.position == p);
        lemma_apply_field_strict(f, cs, p);
    }
    lemma_apply_localize(g, steps, 0, 0);
    assert forall|r: int| 0 <= r < 9 implies fields_weight(#[trigger] g2[r]) <= fields_weight(
        g[r],
    ) by {
        assert forall|i: int| 0 <= i < g2[r].len() implies field_weight(#[trigger] g2[r][i])
            <= field_weight(g[r][i]) by {
            assert(field_weight(g2[r][i]) <= field_weight(g[r][i]));
        }
        lemma_fields_weight_le(g2[r], g[r]);
    }
    assert(fields_weight(g2[r0]) < fields_weight(g[r0])) by {
        assert forall|i: int| 0 <= i < g2[r0].len() implies field_weight(#[trigger] g2[r0][i])
            <= field_weight(g[r0][i]) by {
            assert(field_weight(g2[r0][i]) <= field_weight(g[r0][i]));
        }
        lemma_fields_weight_lt(g2[r0], g[r0], c0);
    }
    assert(g2.take(9) =~= g2 && g.take(9) =~= g);
    assert forall|r: int| 0 <= r < g2.len() implies fields_weight(#[trigger] g2[r])
        <= fields_weight(g[r]) by {
        assert(fields_weight(g2[r]) <= fields_weight(g[r]));
    }
    lemma_grid_measure_lt(g2, g, r0);
}

} // verus!
