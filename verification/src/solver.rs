//! The deduction engine: the `SolveStep` data carried from the strategies
//! to the grid, the closed set of strategies, and the orchestrator that
//! runs one deduction round against a snapshot of the grid.

use crate::sudoku::{
    deep_givens, givens_error, grid_matches_givens, grid_wf, remove_digits, Field, FieldPosition,
    FieldView, GridError, SudokuGrid,
};
use vstd::prelude::*;

pub mod strategies;

verus! {

/// A proposed mutation of one field: either assign a digit, or strike a
/// set of digits from the candidate set. Steps are pure data; the grid
/// applies them.
#[derive(Debug, Clone, PartialEq)]
pub enum SolveStep {
    SetValue(usize),
    RemovePossibilities(Vec<usize>),
}

/// The spec-level value of a `SolveStep`.
pub ghost enum SolveStepView {
    SetValue(usize),
    RemovePossibilities(Seq<usize>),
}

impl View for SolveStep {
    type V = SolveStepView;

    open spec fn view(&self) -> SolveStepView {
        match self {
            SolveStep::SetValue(v) => SolveStepView::SetValue(*v),
            SolveStep::RemovePossibilities(ps) => SolveStepView::RemovePossibilities(ps@),
        }
    }
}

pub open spec fn step_opt_view(o: Option<SolveStep>) -> Option<SolveStepView> {
    match o {
        None => None,
        Some(s) => Some(s@),
    }
}

/// The closed set of deduction strategies. The solver dispatches over
/// this enum rather than over trait objects, which keeps each strategy a
/// pure function of the cell and the grid snapshot.
#[derive(Clone, Copy, Debug, PartialEq, Eq, Structural)]
pub enum Strategy {
    RowElimination,
    ColumnElimination,
    BoxElimination,
    NakedSingle,
    HiddenSingleInRow,
    HiddenSingleInColumn,
    HiddenSingleInBox,
    NakedTupleInRow,
    NakedTupleInColumn,
    NakedTupleInBox,
}

/// What one strategy proposes for the cell `f` of the snapshot `g`.
pub open spec fn spec_strategy_result(s: Strategy, g: Seq<Seq<FieldView>>, f: FieldView) -> Option<
    SolveStepView,
> {
    match s {
        Strategy::RowElimination => strategies::spec_row_elimination(
            g,
            f.position.row as int,
            f.position.column as int,
        ),
        Strategy::ColumnElimination => strategies::spec_column_elimination(
            g,
            f.position.row as int,
            f.position.column as int,
        ),
        Strategy::BoxElimination => strategies::spec_box_elimination(
            g,
            f.position.row as int,
            f.position.column as int,
        ),
        Strategy::NakedSingle => strategies::spec_naked_single(f),
        Strategy::HiddenSingleInRow => strategies::spec_hidden_single_in_row(g, f),
        Strategy::HiddenSingleInColumn => strategies::spec_hidden_single_in_column(g, f),
        Strategy::HiddenSingleInBox => strategies::spec_hidden_single_in_box(g, f),
        Strategy::NakedTupleInRow => strategies::spec_naked_tuple_in_row(g, f),
        Strategy::NakedTupleInColumn => strategies::spec_naked_tuple_in_column(g, f),
        Strategy::NakedTupleInBox => strategies::spec_naked_tuple_in_box(g, f),
    }
}

/// The order in which the solver tries its strategies. The order decides
/// only which proposal wins when several fire for one cell in one round.
pub open spec fn default_strategies() -> Seq<Strategy> {
    seq![
        Strategy::RowElimination,
        Strategy::ColumnElimination,
        Strategy::BoxElimination,
        Strategy::NakedSingle,
        Strategy::HiddenSingleInRow,
        Strategy::HiddenSingleInColumn,
        Strategy::HiddenSingleInBox,
        Strategy::NakedTupleInRow,
        Strategy::NakedTupleInColumn,
        Strategy::NakedTupleInBox,
    ]
}

/// The digits of `ds` still present among the candidates `cands`, in
/// order: no recorded step removes a candidate that was not there.
pub open spec fn filter_present(ds: Seq<usize>, cands: Seq<usize>) -> Seq<usize>
    decreases ds.len(),
{
    if ds.len() == 0 {
        Seq::empty()
    } else {
        let pre = filter_present(ds.drop_last(), cands);
        if cands.contains(ds.last()) {
            pre.push(ds.last())
        } else {
            pre
        }
    }
}

/// The steps recorded for the unsolved cell `f`: strategies are tried in
/// order from index `k` on; every non-empty filtered removal is
/// recorded, and the first `SetValue` is recorded and ends the scan.
pub open spec fn spec_cell_steps_from(
    g: Seq<Seq<FieldView>>,
    strats: Seq<Strategy>,
    f: FieldView,
    k: int,
) -> Seq<(FieldPosition, SolveStepView)>
    decreases strats.len() - k,
{
    if k < 0 || k >= strats.len() {
        Seq::empty()
    } else {
        match spec_strategy_result(strats[k], g, f) {
            None => spec_cell_steps_from(g, strats, f, k + 1),
            Some(SolveStepView::SetValue(v)) => seq![(f.position, SolveStepView::SetValue(v))],
            Some(SolveStepView::RemovePossibilities(ds)) => {
                let kept = filter_present(ds, f.possibilities);
                let rest = spec_cell_steps_from(g, strats, f, k + 1);
                if kept.len() > 0 {
                    seq![(f.position, SolveStepView::RemovePossibilities(kept))] + rest
                } else {
                    rest
                }
            },
        }
    }
}

pub open spec fn spec_cell_steps(
    g: Seq<Seq<FieldView>>,
    strats: Seq<Strategy>,
    f: FieldView,
) -> Seq<(FieldPosition, SolveStepView)> {
    spec_cell_steps_from(g, strats, f, 0)
}

/// The steps of one full round over the first `n` cells in row-major
/// order; only cells without a value are examined.
pub open spec fn spec_determine_upto(
    g: Seq<Seq<FieldView>>,
    strats: Seq<Strategy>,
    n: int,
) -> Seq<(FieldPosition, SolveStepView)>
    decreases n,
{
    if n <= 0 {
        Seq::empty()
    } else {
        let pre = spec_determine_upto(g, strats, n - 1);
        let f = g[(n - 1) / 9][(n - 1) % 9];
        if f.value is None {
            pre + spec_cell_steps(g, strats, f)
        } else {
            pre
        }
    }
}

/// All steps of one round: a read pass over the snapshot `g`.
pub open spec fn spec_determine(g: Seq<Seq<FieldView>>, strats: Seq<Strategy>) -> Seq<(
    FieldPosition,
    SolveStepView,
)> {
    spec_determine_upto(g, strats, 81)
}

/// The spec-level value of a recorded step list.
pub open spec fn steps_view(s: Seq<(FieldPosition, SolveStep)>) -> Seq<(
    FieldPosition,
    SolveStepView,
)> {
    s.map_values(|p: (FieldPosition, SolveStep)| (p.0, p.1@))
}

/// One step applied to the grid: `SetValue` replaces the cell with a
/// solved cell, `RemovePossibilities` strikes the digits; a step aimed
/// off the board does nothing.
pub open spec fn spec_apply_step(
    g: Seq<Seq<FieldView>>,
    p: FieldPosition,
    s: SolveStepView,
) -> Seq<Seq<FieldView>> {
    if p.row < g.len() && p.column < g[p.row as int].len() {
        let f = g[p.row as int][p.column as int];
        let f2 = match s {
            SolveStepView::SetValue(v) => FieldView {
                value: Some(v),
                possibilities: Seq::empty(),
                position: f.position,
            },
            SolveStepView::RemovePossibilities(ds) => FieldView {
                value: f.value,
                possibilities: remove_digits(f.possibilities, ds),
                position: f.position,
            },
        };
        g.update(p.row as int, g[p.row as int].update(p.column as int, f2))
    } else {
        g
    }
}

/// The steps applied in the order given (the write pass of a round).
pub open spec fn spec_apply_steps(
    g: Seq<Seq<FieldView>>,
    steps: Seq<(FieldPosition, SolveStepView)>,
) -> Seq<Seq<FieldView>>
    decreases steps.len(),
{
    if steps.len() == 0 {
        g
    } else {
        spec_apply_steps(spec_apply_step(g, steps.first().0, steps.first().1), steps.drop_first())
    }
}

/// Runs one strategy against one cell of the snapshot.
fn run_strategy(s: &Strategy, field: &Field, grid: &SudokuGrid) -> (r: Option<SolveStep>)
    requires
        grid_wf(grid@),
        field@.wf(),
        field@.position.in_range(),
    ensures
        step_opt_view(r) == spec_strategy_result(*s, grid@, field@),
{
    match s {
        Strategy::RowElimination => strategies::remove_possibilities_by_row_values(field, grid),
        Strategy::ColumnElimination => strategies::remove_possibilities_by_column_values(
            field,
            grid,
        ),
        Strategy::BoxElimination => strategies::remove_possibilities_via_box_values(field, grid),
        Strategy::NakedSingle => strategies::set_value_if_only_one_possibility_left(field, grid),
        Strategy::HiddenSingleInRow => strategies::set_value_if_field_is_only_owner_of_possibility_in_row(
            field,
            grid,
        ),
        Strategy::HiddenSingleInColumn => strategies::set_value_if_field_is_only_owner_of_possibility_in_column(
            field,
            grid,
        ),
        Strategy::HiddenSingleInBox => strategies::set_value_if_field_is_only_owner_of_possibility_in_box(
            field,
            grid,
        ),
        Strategy::NakedTupleInRow => strategies::remove_possibilities_by_pairs_of_size_nin_row(
            field,
            grid,
        ),
        Strategy::NakedTupleInColumn => strategies::remove_possibilities_by_pairs_of_size_nin_colummn(
            field,
            grid,
        ),
        Strategy::NakedTupleInBox => strategies::remove_possibilities_by_pairs_of_size_nin_box(
            field,
            grid,
        ),
    }
}

/// Keeps only the digits still present in the cell's candidate set.
fn filter_to_present(ds: &Vec<usize>, field: &Field) -> (kept: Vec<usize>)
    ensures
        kept@ == filter_present(ds@, field@.possibilities),
{
    let mut kept: Vec<usize> = Vec::new();
    let n: usize = ds.len();
    for i in 0..n
        invariant
            n == ds@.len(),
            kept@ == filter_present(ds@.take(i as int), field@.possibilities),
    {
        proof {
            assert(ds@.take(i + 1).drop_last() =~= ds@.take(i as int));
            assert(ds@.take(i + 1).last() == ds@[i as int]);
        }
        let d: usize = ds[i];
        if contains_digit_in(&field.possibilities, d) {
            kept.push(d);
        }
    }
    proof {
        assert(ds@.take(n as int) =~= ds@);
    }
    kept
}

fn contains_digit_in(v: &Vec<usize>, d: usize) -> (r: bool)
    ensures
        r == v@.contains(d),
{
    let n: usize = v.len();
    for i in 0..n
        invariant
            n == v@.len(),
            forall|j: int| 0 <= j < i ==> v@[j] != d,
    {
        if v[i] == d {
            return true;
        }
    }
    false
}

/// Runs the strategies in order against one unsolved cell, recording
/// filtered removals and stopping at the first proposed assignment.
fn steps_for_field(strategies_list: &Vec<Strategy>, field: &Field, grid: &SudokuGrid) -> (steps:
    Vec<(FieldPosition, SolveStep)>)
    requires
        grid_wf(grid@),
        field@.wf(),
        field@.position.in_range(),
    ensures
        steps_view(steps@) == spec_cell_steps(grid@, strategies_list@, field@),
{
    let mut steps: Vec<(FieldPosition, SolveStep)> = Vec::new();
    let n: usize = strategies_list.len();
    for si in 0..n
        invariant
            n == strategies_list@.len(),
            grid_wf(grid@),
            field@.wf(),
            field@.position.in_range(),
            spec_cell_steps(grid@, strategies_list@, field@) == steps_view(steps@)
                + spec_cell_steps_from(grid@, strategies_list@, field@, si as int),
    {
        let proposal = run_strategy(&strategies_list[si], field, grid);
        match proposal {
            None => {},
            Some(SolveStep::SetValue(v)) => {
                steps.push((field.position, SolveStep::SetValue(v)));
                proof {
                    assert(steps_view(steps@) =~= steps_view(steps@.drop_last()) + seq![
                        (field@.position, SolveStepView::SetValue(v)),
                    ]);
                    assert(spec_cell_steps_from(grid@, strategies_list@, field@, si as int) =~= seq![
                        (field@.position, SolveStepView::SetValue(v)),
                    ]);
                }
                return steps;
            },
            Some(SolveStep::RemovePossibilities(ds)) => {
                let kept = filter_to_present(&ds, field);
                if kept.len() > 0 {
                    proof {
                        assert(spec_cell_steps_from(grid@, strategies_list@, field@, si as int)
                            =~= seq![
                            (field@.position, SolveStepView::RemovePossibilities(kept@)),
                        ] + spec_cell_steps_from(grid@, strategies_list@, field@, si + 1));
                    }
                    steps.push((field.position, SolveStep::RemovePossibilities(kept)));
                    proof {
                        assert(steps_view(steps@) =~= steps_view(steps@.drop_last()) + seq![
                            (
                                field@.position,
                                steps@.last().1@,
                            ),
                        ]);
                    }
                }
            },
        }
    }
    proof {
        assert(spec_cell_steps_from(grid@, strategies_list@, field@, n as int) =~= Seq::empty());
        assert(steps_view(steps@) + Seq::<(FieldPosition, SolveStepView)>::empty() =~= steps_view(
            steps@,
        ));
    }
    steps
}

/// The solver: a grid, an ordered list of strategies fixed at
/// construction, and the log of every step applied so far.
pub struct SudokuSolver {
    pub grid: SudokuGrid,
    pub solving_strategies: Vec<Strategy>,
    pub solve_steps: Vec<(FieldPosition, SolveStep)>,
}

impl SudokuSolver {
    /// Runs all strategies over all unsolved cells of a snapshot of the
    /// grid and collects the proposed steps, the read pass of one round.
    /// Nothing is mutated; the caller applies the result in one batch.
    pub fn determine_solve_steps(&self, grid: &SudokuGrid) -> (steps: Vec<(
        FieldPosition,
        SolveStep,
    )>)
        requires
            grid_wf(grid@),
        ensures
            steps_view(steps@) == spec_determine(grid@, self.solving_strategies@),
    {
        let mut steps: Vec<(FieldPosition, SolveStep)> = Vec::new();
        for idx in 0..81usize
            invariant
                grid_wf(grid@),
                steps_view(steps@) == spec_determine_upto(grid@, self.solving_strategies@, idx as int),
        {
            let r: usize = idx / 9;
            let c: usize = idx % 9;
            proof {
                assert(r < 9 && c < 9);
                assert(grid.rows@.len() == 9) by {
                    assert(grid@.len() == 9);
                }
                assert(grid.rows@[r as int]@.len() == 9) by {
                    assert(grid@[r as int].len() == 9);
                }
            }
            let field: &Field = &grid.rows[r][c];
            proof {
                assert(field@ == grid@[r as int][c as int]);
                assert(field@.wf());
                assert(field@.position == (FieldPosition { row: r, column: c }));
            }
            if field.value.is_none() {
                let mut cell_steps = steps_for_field(&self.solving_strategies, field, grid);
                proof {
                    assert(steps_view(steps@ + cell_steps@) =~= steps_view(steps@) + steps_view(
                        cell_steps@,
                    ));
                }
                steps.append(&mut cell_steps);
            }
            proof {
                assert((idx + 1) - 1 == idx as int);
            }
        }
        proof {
            assert(steps_view(steps@) == spec_determine_upto(
                grid@,
                self.solving_strategies@,
                81,
            ));
        }
        steps
    }
}

impl SudokuGrid {
    /// Applies a batch of steps in the order given, the write pass of a
    /// round; a step aimed at a position off the board does nothing.
    pub fn apply_solve_steps(&mut self, solve_steps: &Vec<(FieldPosition, SolveStep)>)
        ensures
            final(self)@ == spec_apply_steps(old(self)@, steps_view(solve_steps@)),
            solve_steps@.len() == 0 ==> *final(self) == *old(self),
    {
        let ghost all: Seq<(FieldPosition, SolveStepView)> = steps_view(solve_steps@);
        let n: usize = solve_steps.len();
        if n == 0 {
            return ;
        }
        proof {
            assert(all.skip(0) =~= all);
        }
        for i in 0..n
            invariant
                n == solve_steps@.len(),
                all == steps_view(solve_steps@),
                spec_apply_steps(old(self)@, all) == spec_apply_steps(self@, all.skip(i as int)),
        {
            proof {
                assert(all.skip(i as int).first() == all[i as int]);
                assert(all.skip(i as int).drop_first() =~= all.skip(i + 1));
            }
            let ghost prev: Seq<Seq<FieldView>> = self@;
            let ghost prev_rows: Seq<Vec<Field>> = self.rows@;
            let position: FieldPosition = solve_steps[i].0;
            let step: &SolveStep = &solve_steps[i].1;
            let ghost pr: int = position.row as int;
            let ghost pc: int = position.column as int;
            match self.get_field_mut(&position) {
                Some(field) => {
                    proof {
                        assert(pr < prev.len() && pc < prev[pr].len());
                    }
                    let ghost orig: FieldView = field@;
                    match step {
                        SolveStep::SetValue(v) => {
                            field.set_value(*v);
                        },
                        SolveStep::RemovePossibilities(possibilities) => {
                            let m: usize = possibilities.len();
                            let ghost ds: Seq<usize> = possibilities@;
                            for j in 0..m
                                invariant
                                    m == ds.len(),
                                    ds == possibilities@,
                                    field@.value == orig.value,
                                    field@.position == orig.position,
                                    field@.possibilities == remove_digits(
                                        orig.possibilities,
                                        ds.take(j as int),
                                    ),
                            {
                                proof {
                                    assert(ds.take(j + 1).drop_last() =~= ds.take(j as int));
                                    assert(ds.take(j + 1).last() == ds[j as int]);
                                }
                                field.remove_possibility(possibilities[j]);
                            }
                            proof {
                                assert(ds.take(m as int) =~= ds);
                            }
                        },
                    }
                    proof {
                        assert(self@ =~= spec_apply_step(prev, position, step@)) by {
                            assert(orig == prev[pr][pc]);
                            assert(self@.len() == prev.len());
                            assert forall|rr: int| 0 <= rr < prev.len() && rr != pr implies self@[rr]
                                =~= prev[rr] by {
                                assert(self.rows@[rr] == prev_rows[rr]);
                            }
                            assert(self@[pr] =~= prev[pr].update(
                                pc,
                                spec_apply_step(prev, position, step@)[pr][pc],
                            ));
                        }
                    }
                },
                None => {
                    proof {
                        assert(!(pr < prev.len() && pc < prev[pr].len()));
                        assert(self@ == spec_apply_step(prev, position, step@));
                    }
                },
            }
        }
        proof {
            assert(all.skip(n as int).len() == 0);
        }
    }
}

impl SudokuSolver {
    /// A solver over the given grid with the standard strategy order:
    /// the three unit eliminations, the naked single, the three hidden
    /// singles, and the three naked-tuple eliminations.
    pub fn new(grid: SudokuGrid) -> (r: Self)
        ensures
            r.grid == grid,
            r.solving_strategies@ == default_strategies(),
            r.solve_steps@.len() == 0,
    {
        let mut this = Self {
            grid,
            solving_strategies: Vec::new(),
            solve_steps: Vec::new(),
        };
        this.add_solving_strategy(Strategy::RowElimination);
        this.add_solving_strategy(Strategy::ColumnElimination);
        this.add_solving_strategy(Strategy::BoxElimination);
        this.add_solving_strategy(Strategy::NakedSingle);
        this.add_solving_strategy(Strategy::HiddenSingleInRow);
        this.add_solving_strategy(Strategy::HiddenSingleInColumn);
        this.add_solving_strategy(Strategy::HiddenSingleInBox);
        this.add_solving_strategy(Strategy::NakedTupleInRow);
        this.add_solving_strategy(Strategy::NakedTupleInColumn);
        this.add_solving_strategy(Strategy::NakedTupleInBox);
        proof {
            assert(this.solving_strategies@ =~= default_strategies());
        }
        this
    }

    /// The log of every step applied so far.
    pub fn solve_steps(&self) -> (r: &Vec<(FieldPosition, SolveStep)>)
        ensures
            r == &self.solve_steps,
    {
        &self.solve_steps
    }

    /// The grid in its current state.
    pub fn grid(&self) -> (r: &SudokuGrid)
        ensures
            r == &self.grid,
    {
        &self.grid
    }

    /// A mutable borrow of the grid.
    pub fn grid_mut(&mut self) -> (r: &mut SudokuGrid)
        ensures
            *r == old(self).grid,
            final(self).grid == *final(r),
            final(self).solving_strategies == old(self).solving_strategies,
            final(self).solve_steps == old(self).solve_steps,
    {
        &mut self.grid
    }

    /// Appends a strategy to the list tried for every cell.
    pub fn add_solving_strategy(&mut self, strategy: Strategy)
        ensures
            final(self).solving_strategies@ == old(self).solving_strategies@.push(strategy),
            final(self).grid == old(self).grid,
            final(self).solve_steps == old(self).solve_steps,
    {
        self.solving_strategies.push(strategy);
    }

    /// Applies a batch of steps to the grid and records them in the log.
    pub fn apply_solve_steps(&mut self, solve_steps: Vec<(FieldPosition, SolveStep)>)
        ensures
            final(self).grid@ == spec_apply_steps(old(self).grid@, steps_view(solve_steps@)),
            final(self).solve_steps@ == old(self).solve_steps@ + solve_steps@,
            final(self).solving_strategies == old(self).solving_strategies,
    {
        self.grid.apply_solve_steps(&solve_steps);
        let mut recorded = solve_steps;
        self.solve_steps.append(&mut recorded);
    }

    /// Advances the solve by one round: runs all strategies over all
    /// unsolved cells against a snapshot of the grid, then applies every
    /// proposal in one batch. Returns whether any deduction was made; a
    /// round that changes nothing leaves the solver untouched. The
    /// contract also carries the round's global laws: the grid stays
    /// well-formed, solved cells stay exactly as they are, candidate
    /// sets never grow, a deduction strictly lowers the grid measure,
    /// and with the standard strategies no candidate survives that was
    /// already assigned in one of its cell's units.
    pub fn solve(&mut self) -> (changed: bool)
        requires
            grid_wf(old(self).grid@),
        ensures
            changed == (spec_determine(old(self).grid@, old(self).solving_strategies@).len() > 0),
            final(self).grid@ == spec_apply_steps(
                old(self).grid@,
                spec_determine(old(self).grid@, old(self).solving_strategies@),
            ),
            final(self).solving_strategies == old(self).solving_strategies,
            steps_view(final(self).solve_steps@) == steps_view(old(self).solve_steps@)
                + spec_determine(old(self).grid@, old(self).solving_strategies@),
            !changed ==> *final(self) == *old(self),
            grid_wf(final(self).grid@),
            forall|r: int, c: int|
                0 <= r < 9 && 0 <= c < 9 && (#[trigger] old(self).grid@[r][c]).value is Some
                    ==> final(self).grid@[r][c] == old(self).grid@[r][c],
            forall|r: int, c: int, v: usize|
                0 <= r < 9 && 0 <= c < 9 && (#[trigger] final(self).grid@[r][c].possibilities.contains(
                    v,
                )) ==> old(self).grid@[r][c].possibilities.contains(v),
            changed ==> crate::laws::grid_measure(final(self).grid@) < crate::laws::grid_measure(
                old(self).grid@,
            ),
            old(self).solving_strategies@ == default_strategies() ==> forall|r: int, c: int, v: usize|
                0 <= r < 9 && 0 <= c < 9 && crate::laws::value_in_units(old(self).grid@, r, c, v)
                    ==> !(#[trigger] final(self).grid@[r][c].possibilities.contains(v)),
    {
        proof {
            crate::laws::lemma_round_preserves_wf(self.grid@, self.solving_strategies@);
            crate::laws::lemma_round_monotone(self.grid@, self.solving_strategies@);
            if self.solving_strategies@ == default_strategies() {
                crate::laws::lemma_round_prunes(self.grid@);
            }
            if spec_determine(self.grid@, self.solving_strategies@).len() > 0 {
                crate::laws::lemma_round_decreases(self.grid@, self.solving_strategies@);
            }
        }
        let solve_steps = self.determine_solve_steps(&self.grid);
        if solve_steps.len() > 0 {
            proof {
                assert(steps_view(self.solve_steps@ + solve_steps@) =~= steps_view(
                    self.solve_steps@,
                ) + steps_view(solve_steps@));
            }
            self.apply_solve_steps(solve_steps);
            true
        } else {
            proof {
                assert(steps_view(solve_steps@).len() == 0);
                assert(spec_determine(self.grid@, self.solving_strategies@).len() == 0);
                assert(steps_view(self.solve_steps@) + spec_determine(
                    self.grid@,
                    self.solving_strategies@,
                ) =~= steps_view(self.solve_steps@));
            }
            false
        }
    }

    /// Replaces the grid with one built from 9 rows of 9 optional
    /// digits; on ill-shaped input the solver is left unchanged.
    pub fn import_from(&mut self, givens: &Vec<Vec<Option<usize>>>) -> (r: Result<(), GridError>)
        ensures
            r is Ok <==> givens_error(deep_givens(givens)) is None,
            r matches Err(e) ==> Some(e) == givens_error(deep_givens(givens)) && *final(self)
                == *old(self),
            r is Ok ==> grid_wf(final(self).grid@) && grid_matches_givens(
                final(self).grid@,
                deep_givens(givens),
            ) && final(self).solving_strategies == old(self).solving_strategies
                && final(self).solve_steps == old(self).solve_steps,
    {
        match SudokuGrid::from_givens(givens) {
            Ok(grid) => {
                self.grid = grid;
                Ok(())
            },
            Err(e) => Err(e),
        }
    }
}

/// The strategy interface of the solver. Each implementing type stands
/// for one member of the closed strategy set, named by `strategy`, and
/// `solve_field` proposes exactly what that strategy proposes.
pub trait SolvingStrategy {
    spec fn strategy(&self) -> Strategy;

    fn solve_field(&self, field: &Field, grid: &SudokuGrid) -> (r: Option<SolveStep>)
        requires
            grid_wf(grid@),
            field@.wf(),
            field@.position.in_range(),
        ensures
            step_opt_view(r) == spec_strategy_result(self.strategy(), grid@, field@),
    ;
}

pub struct RemovePossibilitiesViaRowValues {}

impl SolvingStrategy for RemovePossibilitiesViaRowValues {
    open spec fn strategy(&self) -> Strategy {
        Strategy::RowElimination
    }

    fn solve_field(&self, field: &Field, grid: &SudokuGrid) -> (r: Option<SolveStep>) {
        strategies::remove_possibilities_by_row_values(field, grid)
    }
}

pub struct RemovePossibilitiesViaColumnValues {}

impl SolvingStrategy for RemovePossibilitiesViaColumnValues {
    open spec fn strategy(&self) -> Strategy {
        Strategy::ColumnElimination
    }

    fn solve_field(&self, field: &Field, grid: &SudokuGrid) -> (r: Option<SolveStep>) {
        strategies::remove_possibilities_by_column_values(field, grid)
    }
}

pub struct RemovePossibilitiesViaBoxValues {}

impl SolvingStrategy for RemovePossibilitiesViaBoxValues {
    open spec fn strategy(&self) -> Strategy {
        Strategy::BoxElimination
    }

    fn solve_field(&self, field: &Field, grid: &SudokuGrid) -> (r: Option<SolveStep>) {
        strategies::remove_possibilities_via_box_values(field, grid)
    }
}

pub struct SetValueIfOnlyOnePossibilityLeft {}

impl SolvingStrategy for SetValueIfOnlyOnePossibilityLeft {
    open spec fn strategy(&self) -> Strategy {
        Strategy::NakedSingle
    }

    fn solve_field(&self, field: &Field, grid: &SudokuGrid) -> (r: Option<SolveStep>) {
        strategies::set_value_if_only_one_possibility_left(field, grid)
    }
}

pub struct SetValueIfFieldIsOnlyOwnerOfPossibilityInRow {}

impl SolvingStrategy for SetValueIfFieldIsOnlyOwnerOfPossibilityInRow {
    open spec fn strategy(&self) -> Strategy {
        Strategy::HiddenSingleInRow
    }

    fn solve_field(&self, field: &Field, grid: &SudokuGrid) -> (r: Option<SolveStep>) {
        strategies::set_value_if_field_is_only_owner_of_possibility_in_row(field, grid)
    }
}

pub struct SetValueIfFieldIsOnlyOwnerOfPossibilityInColumn {}

impl SolvingStrategy for SetValueIfFieldIsOnlyOwnerOfPossibilityInColumn {
    open spec fn strategy(&self) -> Strategy {
        Strategy::HiddenSingleInColumn
    }

    fn solve_field(&self, field: &Field, grid: &SudokuGrid) -> (r: Option<SolveStep>) {
        strategies::set_value_if_field_is_only_owner_of_possibility_in_column(field, grid)
    }
}

pub struct SetValueIfFieldIsOnlyOwnerOfPossibilityInBox {}

impl SolvingStrategy for SetValueIfFieldIsOnlyOwnerOfPossibilityInBox {
    open spec fn strategy(&self) -> Strategy {
        Strategy::HiddenSingleInBox
    }

    fn solve_field(&self, field: &Field, grid: &SudokuGrid) -> (r: Option<SolveStep>) {
        strategies::set_value_if_field_is_only_owner_of_possibility_in_box(field, grid)
    }
}

pub struct RemovePossibilitiesByPairsOfSizeNInRow {}

impl SolvingStrategy for RemovePossibilitiesByPairsOfSizeNInRow {
    open spec fn strategy(&self) -> Strategy {
        Strategy::NakedTupleInRow
    }

    fn solve_field(&self, field: &Field, grid: &SudokuGrid) -> (r: Option<SolveStep>) {
        strategies::remove_possibilities_by_pairs_of_size_nin_row(field, grid)
    }
}

pub struct RemovePossibilitiesByPairsOfSizeNInColummn {}

impl SolvingStrategy for RemovePossibilitiesByPairsOfSizeNInColummn {
    open spec fn strategy(&self) -> Strategy {
        Strategy::NakedTupleInColumn
    }

    fn solve_field(&self, field: &Field, grid: &SudokuGrid) -> (r: Option<SolveStep>) {
        strategies::remove_possibilities_by_pairs_of_size_nin_colummn(field, grid)
    }
}

pub struct RemovePossibilitiesByPairsOfSizeNInBox {}

impl SolvingStrategy for RemovePossibilitiesByPairsOfSizeNInBox {
    open spec fn strategy(&self) -> Strategy {
        Strategy::NakedTupleInBox
    }

    fn solve_field(&self, field: &Field, grid: &SudokuGrid) -> (r: Option<SolveStep>) {
        strategies::remove_possibilities_by_pairs_of_size_nin_box(field, grid)
    }
}

} // verus!
