//! The ten deduction strategies. Each is a pure function of one field
//! and a read-only grid snapshot, and each carries a spec mirror that
//! states exactly which step (if any) it proposes.

use crate::solver::{step_opt_view, SolveStep, SolveStepView};
use crate::sudoku::{
    box_fields, box_of, column_fields, digit_ok, grid_dims, grid_wf, sorted_strict, Field,
    FieldPosition, FieldView, SudokuGrid,
};
use vstd::prelude::*;

verus! {

/// The views of a sequence of borrowed fields.
pub open spec fn refs_view(s: Seq<&Field>) -> Seq<FieldView> {
    s.map_values(|f: &Field| f@)
}

/// The assigned values of the given fields, in field order.
pub open spec fn assigned_values(fs: Seq<FieldView>) -> Seq<usize>
    decreases fs.len(),
{
    if fs.len() == 0 {
        Seq::empty()
    } else {
        let pre = assigned_values(fs.drop_last());
        match fs.last().value {
            Some(v) => pre.push(v),
            None => pre,
        }
    }
}

/// Removes adjacent duplicates, keeping the first of each run (the
/// behaviour of `Vec::dedup`).
pub open spec fn dedup_adjacent(s: Seq<usize>) -> Seq<usize>
    decreases s.len(),
{
    if s.len() <= 1 {
        s
    } else if s.last() == s[s.len() - 2] {
        dedup_adjacent(s.drop_last())
    } else {
        dedup_adjacent(s.drop_last()).push(s.last())
    }
}

pub proof fn lemma_dedup_adjacent(s: Seq<usize>)
    ensures
        forall|x: usize| dedup_adjacent(s).contains(x) <==> s.contains(x),
        s.len() > 0 ==> dedup_adjacent(s).len() > 0 && dedup_adjacent(s).last() == s.last(),
        s.len() == 0 ==> dedup_adjacent(s).len() == 0,
    decreases s.len(),
{
    let r = dedup_adjacent(s);
    if s.len() <= 1 {
        assert forall|x: usize| r.contains(x) implies s.contains(x) by {}
        assert forall|x: usize| s.contains(x) implies r.contains(x) by {}
    } else {
        let pre = s.drop_last();
        lemma_dedup_adjacent(pre);
        let rp = dedup_adjacent(pre);
        assert(pre.len() > 0);
        assert(pre.last() == s[s.len() - 2]);
        assert forall|x: usize| r.contains(x) implies s.contains(x) by {
            if s.last() == s[s.len() - 2] {
                assert(rp.contains(x));
                assert(pre.contains(x));
                let k = choose|k: int| 0 <= k < pre.len() && pre[k] == x;
                assert(s[k] == x);
            } else {
                let i = choose|i: int| 0 <= i < r.len() && r[i] == x;
                if i < r.len() - 1 {
                    assert(rp[i] == x);
                    assert(rp.contains(x));
                    assert(pre.contains(x));
                    let k = choose|k: int| 0 <= k < pre.len() && pre[k] == x;
                    assert(s[k] == x);
                } else {
                    assert(x == s.last());
                    assert(s[s.len() - 1] == x);
                }
            }
        }
        assert forall|x: usize| s.contains(x) implies r.contains(x) by {
            let i = choose|i: int| 0 <= i < s.len() && s[i] == x;
            if i < s.len() - 1 {
                assert(pre[i] == x);
                assert(pre.contains(x));
                assert(rp.contains(x));
                let j = choose|j: int| 0 <= j < rp.len() && rp[j] == x;
                if s.last() != s[s.len() - 2] {
                    assert(r[j] == x);
                }
            } else {
                assert(x == s.last());
                if s.last() == s[s.len() - 2] {
                    assert(pre.last() == x);
                    assert(pre.contains(x));
                } else {
                    assert(r.last() == x);
                }
            }
        }
    }
}

pub proof fn lemma_assigned_values(fs: Seq<FieldView>)
    ensures
        forall|x: usize|
            assigned_values(fs).contains(x) <==> exists|i: int|
                0 <= i < fs.len() && (#[trigger] fs[i]).value == Some(x),
    decreases fs.len(),
{
    let av = assigned_values(fs);
    if fs.len() == 0 {
        assert forall|x: usize| av.contains(x) implies false by {}
    } else {
        let pre = fs.drop_last();
        lemma_assigned_values(pre);
        let ap = assigned_values(pre);
        assert forall|x: usize| av.contains(x) implies exists|i: int|
            0 <= i < fs.len() && (#[trigger] fs[i]).value == Some(x) by {
            let j = choose|j: int| 0 <= j < av.len() && av[j] == x;
            match fs.last().value {
                Some(v) => {
                    if j < av.len() - 1 {
                        assert(ap.contains(x));
                        let i = choose|i: int| 0 <= i < pre.len() && pre[i].value == Some(x);
                        assert(fs[i].value == Some(x));
                    } else {
                        assert(fs[fs.len() - 1].value == Some(x));
                    }
                },
                None => {
                    assert(ap.contains(x));
                    let i = choose|i: int| 0 <= i < pre.len() && pre[i].value == Some(x);
                    assert(fs[i].value == Some(x));
                },
            }
        }
        assert forall|x: usize|
            exists|i: int| 0 <= i < fs.len() && (#[trigger] fs[i]).value == Some(x) implies av
            .contains(x) by {
            let i = choose|i: int| 0 <= i < fs.len() && fs[i].value == Some(x);
            if i < fs.len() - 1 {
                assert(pre[i].value == Some(x));
                assert(ap.contains(x));
                let j = choose|j: int| 0 <= j < ap.len() && ap[j] == x;
                match fs.last().value {
                    Some(v) => { assert(av[j] == x); },
                    None => {},
                }
            } else {
                match fs.last().value {
                    Some(v) => { assert(av.last() == x); },
                    None => {},
                }
            }
        }
    }
}

/// What a unit-elimination strategy proposes for a cell of the given
/// unit: strike every value already assigned in the unit.
pub open spec fn spec_unit_elimination(fs: Seq<FieldView>) -> Option<SolveStepView> {
    Some(SolveStepView::RemovePossibilities(dedup_adjacent(assigned_values(fs))))
}

pub open spec fn spec_row_elimination(g: Seq<Seq<FieldView>>, r: int, c: int) -> Option<
    SolveStepView,
> {
    spec_unit_elimination(g[r])
}

pub open spec fn spec_column_elimination(g: Seq<Seq<FieldView>>, r: int, c: int) -> Option<
    SolveStepView,
> {
    spec_unit_elimination(column_fields(g, c))
}

pub open spec fn spec_box_elimination(g: Seq<Seq<FieldView>>, r: int, c: int) -> Option<
    SolveStepView,
> {
    spec_unit_elimination(box_fields(g, box_of(r, c)))
}

/// Collects the assigned values of 9 fields in order, dropping adjacent
/// duplicates as `Vec::dedup` would.
fn collect_unit_values(fields: &Vec<&Field>) -> (values: Vec<usize>)
    ensures
        values@ == dedup_adjacent(assigned_values(refs_view(fields@))),
{
    let ghost fv: Seq<FieldView> = refs_view(fields@);
    let mut values: Vec<usize> = Vec::new();
    let n: usize = fields.len();
    for i in 0..n
        invariant
            n == fields@.len(),
            fv == refs_view(fields@),
            values@ == dedup_adjacent(assigned_values(fv.take(i as int))),
    {
        proof {
            assert(fv.take(i + 1).drop_last() =~= fv.take(i as int));
            assert(fv.take(i + 1).last() == fv[i as int]);
            lemma_dedup_adjacent(assigned_values(fv.take(i as int)));
        }
        match fields[i].value {
            Some(v) => {
                proof {
                    let av = assigned_values(fv.take(i as int));
                    assert(assigned_values(fv.take(i + 1)) == av.push(v));
                    assert(av.push(v).drop_last() =~= av);
                    assert(av.push(v).last() == v);
                }
                let len: usize = values.len();
                if len == 0 {
                    proof {
                        let av = assigned_values(fv.take(i as int));
                        assert(av.len() == 0);
                        assert(av =~= values@);
                        assert(av.push(v).len() == 1);
                    }
                    values.push(v);
                } else if values[len - 1] != v {
                    proof {
                        let av = assigned_values(fv.take(i as int));
                        assert(values@.last() == av.last());
                        assert(av.push(v)[av.push(v).len() - 2] == av.last());
                    }
                    values.push(v);
                } else {
                    proof {
                        let av = assigned_values(fv.take(i as int));
                        assert(values@.last() == av.last());
                        assert(av.push(v)[av.push(v).len() - 2] == av.last());
                        assert(av.last() == v);
                    }
                }
            },
            None => {},
        }
    }
    proof {
        assert(fv.take(n as int) =~= fv);
    }
    values
}

fn as_refs(fields: &Vec<Field>) -> (r: Vec<&Field>)
    ensures
        r@.len() == fields@.len(),
        forall|i: int| 0 <= i < fields@.len() ==> (#[trigger] r@[i])@ == fields@[i]@,
{
    let mut out: Vec<&Field> = Vec::new();
    let n: usize = fields.len();
    for i in 0..n
        invariant
            n == fields@.len(),
            out@.len() == i,
            forall|j: int| 0 <= j < i ==> (#[trigger] out@[j])@ == fields@[j]@,
    {
        out.push(&fields[i]);
    }
    out
}

/// Strategy 1: strike every value already assigned in the cell's row.
pub fn remove_possibilities_by_row_values(field: &Field, grid: &SudokuGrid) -> (r: Option<
    SolveStep,
>)
    requires
        grid_dims(grid@),
        field@.position.in_range(),
    ensures
        step_opt_view(r) == spec_row_elimination(
            grid@,
            field@.position.row as int,
            field@.position.column as int,
        ),
{
    let row_idx = field.position.row;
    let fields = match grid.get_fields_in_row(row_idx) {
        Some(fields) => fields,
        None => {
            proof {
                assert(false);
            }
            return None;
        },
    };
    let refs = as_refs(fields);
    proof {
        assert(refs_view(refs@) =~= grid@[row_idx as int]);
    }
    let values = collect_unit_values(&refs);
    Some(SolveStep::RemovePossibilities(values))
}

/// Strategy 2: strike every value already assigned in the cell's column.
pub fn remove_possibilities_by_column_values(field: &Field, grid: &SudokuGrid) -> (r: Option<
    SolveStep,
>)
    requires
        grid_dims(grid@),
        field@.position.in_range(),
    ensures
        step_opt_view(r) == spec_column_elimination(
            grid@,
            field@.position.row as int,
            field@.position.column as int,
        ),
{
    let fields = grid.get_fields_in_column(field.position.column);
    proof {
        assert(refs_view(fields@) =~= column_fields(grid@, field@.position.column as int));
    }
    let values = collect_unit_values(&fields);
    Some(SolveStep::RemovePossibilities(values))
}

/// Strategy 3: strike every value already assigned in the cell's box.
pub fn remove_possibilities_via_box_values(field: &Field, grid: &SudokuGrid) -> (r: Option<
    SolveStep,
>)
    requires
        grid_dims(grid@),
        field@.position.in_range(),
    ensures
        step_opt_view(r) == spec_box_elimination(
            grid@,
            field@.position.row as int,
            field@.position.column as int,
        ),
{
    let box_id = match SudokuGrid::get_box_id_for_field(field) {
        Some(box_id) => box_id,
        None => {
            proof {
                assert(false);
            }
            return None;
        },
    };
    proof {
        assert(box_id < 9);
    }
    let fields = grid.get_fields_in_box(box_id);
    proof {
        assert(refs_view(fields@) =~= box_fields(
            grid@,
            box_of(field@.position.row as int, field@.position.column as int),
        ));
    }
    let values = collect_unit_values(&fields);
    Some(SolveStep::RemovePossibilities(values))
}

/// What the naked-single strategy proposes: the lone candidate, if there
/// is exactly one.
pub open spec fn spec_naked_single(f: FieldView) -> Option<SolveStepView> {
    if f.possibilities.len() == 1 {
        Some(SolveStepView::SetValue(f.possibilities[0]))
    } else {
        None
    }
}

/// Strategy 4: a cell with exactly one candidate left is assigned it.
pub fn set_value_if_only_one_possibility_left(field: &Field, _grid: &SudokuGrid) -> (r: Option<
    SolveStep,
>)
    ensures
        step_opt_view(r) == spec_naked_single(field@),
{
    if field.possibilities.len() == 1 {
        Some(SolveStep::SetValue(field.possibilities[0]))
    } else {
        None
    }
}

/// How often `d` occurs in `s`.
pub open spec fn count_in_seq(s: Seq<usize>, d: usize) -> int
    decreases s.len(),
{
    if s.len() == 0 {
        0
    } else {
        count_in_seq(s.drop_last(), d) + if s.last() == d {
            1int
        } else {
            0int
        }
    }
}

/// How often `d` occurs among the candidate sets of the given fields.
pub open spec fn count_candidates(fs: Seq<FieldView>, d: usize) -> int
    decreases fs.len(),
{
    if fs.len() == 0 {
        0
    } else {
        count_candidates(fs.drop_last(), d) + count_in_seq(fs.last().possibilities, d)
    }
}

pub proof fn lemma_count_in_seq_bound(s: Seq<usize>, d: usize)
    ensures
        0 <= count_in_seq(s, d) <= s.len(),
    decreases s.len(),
{
    if s.len() > 0 {
        lemma_count_in_seq_bound(s.drop_last(), d);
    }
}

/// A strictly sorted sequence of digits has at most 9 entries.
pub proof fn lemma_digit_seq_len(s: Seq<usize>)
    requires
        sorted_strict(s),
        forall|i: int| 0 <= i < s.len() ==> digit_ok(#[trigger] s[i]),
    ensures
        s.len() <= 9,
{
    if s.len() >= 10 {
        lemma_sorted_lower(s, 9);
        assert(digit_ok(s[0]) && digit_ok(s[9]));
    }
}

proof fn lemma_sorted_lower(s: Seq<usize>, i: int)
    requires
        sorted_strict(s),
        0 <= i < s.len(),
    ensures
        s[i] >= s[0] + i,
    decreases i,
{
    if i > 0 {
        lemma_sorted_lower(s, i - 1);
        assert(s[i - 1] < s[i]);
    }
}

/// Counts, for every digit, in how many candidate slots of the given
/// fields it occurs; slot `d` of the result holds the count of `d`.
pub fn count_possibilities_for_fields(fields: Vec<&Field>) -> (counts: Vec<usize>)
    requires
        fields@.len() <= 9,
        forall|i: int| 0 <= i < fields@.len() ==> (#[trigger] refs_view(fields@)[i]).wf(),
    ensures
        counts@.len() == 10,
        forall|d: usize| d < 10 ==> #[trigger] counts@[d as int] == count_candidates(
            refs_view(fields@),
            d,
        ),
{
    let ghost fv: Seq<FieldView> = refs_view(fields@);
    let mut counts: Vec<usize> = Vec::new();
    for z in 0..10usize
        invariant
            counts@.len() == z,
            forall|d: int| 0 <= d < z ==> counts@[d] == 0,
    {
        counts.push(0);
    }
    proof {
        assert forall|d: usize| d < 10 implies #[trigger] counts@[d as int] == count_candidates(
            fv.take(0),
            d,
        ) by {
            assert(fv.take(0).len() == 0);
        }
    }
    let n: usize = fields.len();
    for i in 0..n
        invariant
            n == fields@.len() <= 9,
            fv == refs_view(fields@),
            forall|k: int| 0 <= k < n ==> (#[trigger] fv[k]).wf(),
            counts@.len() == 10,
            forall|d: usize|
                d < 10 ==> #[trigger] counts@[d as int] == count_candidates(fv.take(i as int), d),
            forall|d: int| 0 <= d < 10 ==> #[trigger] counts@[d] <= 9 * i,
    {
        proof {
            assert(fv.take(i + 1).drop_last() =~= fv.take(i as int));
            assert(fv.take(i + 1).last() == fv[i as int]);
        }
        let field: &Field = fields[i];
        let ghost poss: Seq<usize> = field@.possibilities;
        proof {
            assert(field@ == fv[i as int]);
            lemma_digit_seq_len(poss);
        }
        let m: usize = field.possibilities.len();
        proof {
            assert forall|d: usize| d < 10 implies #[trigger] counts@[d as int] == count_candidates(
                fv.take(i as int),
                d,
            ) + count_in_seq(poss.take(0), d) by {
                assert(poss.take(0).len() == 0);
            }
        }
        for j in 0..m
            invariant
                m == poss.len() <= 9,
                poss == field@.possibilities,
                field@.wf(),
                i < n,
                n == fields@.len() <= 9,
                fv == refs_view(fields@),
                field@ == fv[i as int],
                counts@.len() == 10,
                forall|d: usize|
                    d < 10 ==> #[trigger] counts@[d as int] == count_candidates(fv.take(i as int), d)
                        + count_in_seq(poss.take(j as int), d),
                forall|d: int| 0 <= d < 10 ==> #[trigger] counts@[d] <= 9 * i + j,
        {
            proof {
                assert(poss.take(j + 1).drop_last() =~= poss.take(j as int));
                assert(poss.take(j + 1).last() == poss[j as int]);
            }
            let p: usize = field.possibilities[j];
            if p < 10 {
                proof {
                    assert(counts@[p as int] <= 9 * i + j < 90);
                }
                let old_count: usize = counts[p];
                counts[p] = old_count + 1;
                proof {
                    assert forall|d: usize| d < 10 implies #[trigger] counts@[d as int]
                        == count_candidates(fv.take(i as int), d) + count_in_seq(
                        poss.take(j + 1),
                        d,
                    ) by {
                        if d != p {
                            assert(count_in_seq(poss.take(j + 1), d) == count_in_seq(
                                poss.take(j as int),
                                d,
                            ));
                        }
                    }
                }
            } else {
                proof {
                    assert(digit_ok(poss[j as int]));
                }
            }
        }
        proof {
            assert(poss.take(m as int) =~= poss);
            assert forall|d: usize| d < 10 implies #[trigger] counts@[d as int] == count_candidates(
                fv.take(i + 1),
                d,
            ) by {
                assert(count_candidates(fv.take(i + 1), d) == count_candidates(fv.take(i as int), d)
                    + count_in_seq(poss, d));
            }
        }
    }
    proof {
        assert(fv.take(n as int) =~= fv);
    }
    counts
}

/// The first of the cell's candidates that occurs in exactly one
/// candidate slot of the whole unit; such a digit can only go here.
pub open spec fn first_owned_single(cands: Seq<usize>, fs: Seq<FieldView>) -> Option<SolveStepView>
    decreases cands.len(),
{
    if cands.len() == 0 {
        None
    } else if count_candidates(fs, cands.first()) == 1 {
        Some(SolveStepView::SetValue(cands.first()))
    } else {
        first_owned_single(cands.drop_first(), fs)
    }
}

pub open spec fn spec_hidden_single_in_row(g: Seq<Seq<FieldView>>, f: FieldView) -> Option<
    SolveStepView,
> {
    first_owned_single(f.possibilities, g[f.position.row as int])
}

pub open spec fn spec_hidden_single_in_column(g: Seq<Seq<FieldView>>, f: FieldView) -> Option<
    SolveStepView,
> {
    first_owned_single(f.possibilities, column_fields(g, f.position.column as int))
}

pub open spec fn spec_hidden_single_in_box(g: Seq<Seq<FieldView>>, f: FieldView) -> Option<
    SolveStepView,
> {
    first_owned_single(
        f.possibilities,
        box_fields(g, box_of(f.position.row as int, f.position.column as int)),
    )
}

/// Scans the cell's candidates in order for one whose unit-wide count is
/// exactly 1.
fn scan_for_single(field: &Field, counts: &Vec<usize>, ghost_fs: Ghost<Seq<FieldView>>) -> (r:
    Option<SolveStep>)
    requires
        field@.wf(),
        counts@.len() == 10,
        forall|d: usize| d < 10 ==> #[trigger] counts@[d as int] == count_candidates(ghost_fs@, d),
    ensures
        step_opt_view(r) == first_owned_single(field@.possibilities, ghost_fs@),
{
    let ghost poss: Seq<usize> = field@.possibilities;
    let n: usize = field.possibilities.len();
    proof {
        assert(poss.skip(0) =~= poss);
    }
    for k in 0..n
        invariant
            n == poss.len(),
            poss == field@.possibilities,
            field@.wf(),
            counts@.len() == 10,
            forall|d: usize| d < 10 ==> #[trigger] counts@[d as int] == count_candidates(
                ghost_fs@,
                d,
            ),
            first_owned_single(poss, ghost_fs@) == first_owned_single(poss.skip(k as int), ghost_fs@),
    {
        proof {
            assert(poss.skip(k as int).first() == poss[k as int]);
            assert(poss.skip(k as int).drop_first() =~= poss.skip(k + 1));
        }
        let p: usize = field.possibilities[k];
        proof {
            assert(digit_ok(poss[k as int]));
        }
        if counts[p] == 1 {
            return Some(SolveStep::SetValue(p));
        }
    }
    proof {
        assert(poss.skip(n as int).len() == 0);
    }
    None
}

/// Every entry of `a` occurs in `b`.
pub open spec fn subset_seq(a: Seq<usize>, b: Seq<usize>) -> bool {
    forall|i: int| 0 <= i < a.len() ==> b.contains(#[trigger] a[i])
}

/// How many of the candidate sets (of more than one digit) are subsets
/// of `t` no larger than `t`; `t` itself is counted when it is present.
pub open spec fn match_count(sets: Seq<Seq<usize>>, t: Seq<usize>) -> int
    decreases sets.len(),
{
    if sets.len() == 0 {
        0
    } else {
        match_count(sets.drop_last(), t) + if sets.last().len() > 1 && sets.last().len() <= t.len()
            && subset_seq(sets.last(), t) {
            1int
        } else {
            0int
        }
    }
}

/// A naked tuple: `t`'s digits are fully consumed by exactly `t.len()`
/// of the cells, so they can be struck everywhere else in the unit.
pub open spec fn tuple_qualifies(sets: Seq<Seq<usize>>, t: Seq<usize>) -> bool {
    t.len() > 1 && match_count(sets, t) == t.len()
}

/// `s` with `d` inserted at its sorted position (no-op when present).
pub open spec fn insert_sorted(s: Seq<usize>, d: usize) -> Seq<usize>
    decreases s.len(),
{
    if s.len() == 0 {
        seq![d]
    } else if s.last() < d {
        s.push(d)
    } else if s.last() == d {
        s
    } else {
        insert_sorted(s.drop_last(), d).push(s.last())
    }
}

/// `s` with every digit of `t` inserted in order.
pub open spec fn insert_all(s: Seq<usize>, t: Seq<usize>) -> Seq<usize>
    decreases t.len(),
{
    if t.len() == 0 {
        s
    } else {
        insert_sorted(insert_all(s, t.drop_last()), t.last())
    }
}

/// The digits of all qualifying tuples among the first `n` sets, as a
/// sorted duplicate-free sequence.
pub open spec fn grouped_upto(sets: Seq<Seq<usize>>, n: int) -> Seq<usize>
    decreases n,
{
    if n <= 0 {
        Seq::empty()
    } else {
        let pre = grouped_upto(sets, n - 1);
        if tuple_qualifies(sets, sets[n - 1]) {
            insert_all(pre, sets[n - 1])
        } else {
            pre
        }
    }
}

/// The digits that naked-tuple elimination may strike, given the
/// candidate sets of the unit's other cells.
pub open spec fn grouped_possibilities(sets: Seq<Seq<usize>>) -> Seq<usize> {
    grouped_upto(sets, sets.len() as int)
}

pub proof fn lemma_insert_sorted(s: Seq<usize>, d: usize)
    ensures
        forall|x: usize|
            #![trigger insert_sorted(s, d).contains(x)]
            #![trigger s.contains(x)]
            insert_sorted(s, d).contains(x) <==> s.contains(x) || x == d,
        sorted_strict(s) ==> sorted_strict(insert_sorted(s, d)),
    decreases s.len(),
{
    let r = insert_sorted(s, d);
    if s.len() == 0 {
        assert(r == seq![d]);
        assert(r[0] == d);
        assert forall|x: usize| r.contains(x) implies s.contains(x) || x == d by {}
        assert forall|x: usize| s.contains(x) || x == d implies r.contains(x) by {
            assert(r[0] == d);
        }
    } else if s.last() < d {
        assert forall|x: usize| r.contains(x) implies s.contains(x) || x == d by {
            let i = choose|i: int| 0 <= i < r.len() && r[i] == x;
            if i < r.len() - 1 {
                assert(s[i] == x);
            }
        }
        assert forall|x: usize| s.contains(x) || x == d implies r.contains(x) by {
            if s.contains(x) {
                let i = choose|i: int| 0 <= i < s.len() && s[i] == x;
                assert(r[i] == x);
            } else {
                assert(r.last() == d);
            }
        }
        if sorted_strict(s) {
            assert forall|i: int, j: int| 0 <= i < j < r.len() implies r[i] < r[j] by {
                if j < r.len() - 1 {
                    assert(s[i] == r[i] && s[j] == r[j]);
                } else {
                    assert(r[j] == d);
                    if i < s.len() - 1 {
                        assert(s[i] < s[s.len() - 1]);
                    }
                }
            }
        }
    } else if s.last() == d {
        assert forall|x: usize| s.contains(x) || x == d implies r.contains(x) by {
            if x == d {
                assert(s[s.len() - 1] == d);
            }
        }
    } else {
        let pre = s.drop_last();
        lemma_insert_sorted(pre, d);
        let rp = insert_sorted(pre, d);
        assert forall|x: usize| r.contains(x) implies s.contains(x) || x == d by {
            let i = choose|i: int| 0 <= i < r.len() && r[i] == x;
            if i < r.len() - 1 {
                assert(rp[i] == x);
                assert(rp.contains(x));
                if pre.contains(x) {
                    let k = choose|k: int| 0 <= k < pre.len() && pre[k] == x;
                    assert(s[k] == x);
                }
            } else {
                assert(x == s.last());
                assert(s[s.len() - 1] == x);
            }
        }
        assert forall|x: usize| s.contains(x) || x == d implies r.contains(x) by {
            if x == d || (s.contains(x) && x != s.last()) {
                if s.contains(x) && x != s.last() {
                    let i = choose|i: int| 0 <= i < s.len() && s[i] == x;
                    assert(pre[i] == x);
                    assert(pre.contains(x));
                }
                assert(pre.contains(x) || x == d);
                assert(rp.contains(x));
                let j = choose|j: int| 0 <= j < rp.len() && rp[j] == x;
                assert(r[j] == x);
            } else {
                assert(x == s.last());
                assert(r.last() == x);
            }
        }
        if sorted_strict(s) {
            assert(sorted_strict(pre)) by {
                assert forall|i: int, j: int| 0 <= i < j < pre.len() implies pre[i] < pre[j] by {
                    assert(s[i] == pre[i] && s[j] == pre[j]);
                }
            }
            assert forall|i: int, j: int| 0 <= i < j < r.len() implies r[i] < r[j] by {
                if j < r.len() - 1 {
                    assert(rp[i] < rp[j]);
                } else {
                    assert(r[j] == s.last());
                    assert(rp[i] == r[i]);
                    assert(rp.contains(rp[i]));
                    if pre.contains(rp[i]) {
                        let k = choose|k: int| 0 <= k < pre.len() && pre[k] == rp[i];
                        assert(s[k] < s[s.len() - 1]);
                    } else {
                        assert(rp[i] == d);
                    }
                }
            }
        }
    }
}

pub proof fn lemma_insert_all(s: Seq<usize>, t: Seq<usize>)
    ensures
        forall|x: usize|
            #![trigger insert_all(s, t).contains(x)]
            #![trigger s.contains(x)]
            insert_all(s, t).contains(x) <==> s.contains(x) || t.contains(x),
        sorted_strict(s) ==> sorted_strict(insert_all(s, t)),
    decreases t.len(),
{
    let r = insert_all(s, t);
    if t.len() == 0 {
        assert forall|x: usize| r.contains(x) implies s.contains(x) || t.contains(x) by {}
    } else {
        let pre = t.drop_last();
        lemma_insert_all(s, pre);
        let rp = insert_all(s, pre);
        lemma_insert_sorted(rp, t.last());
        assert forall|x: usize| r.contains(x) implies s.contains(x) || t.contains(x) by {
            if rp.contains(x) {
                if pre.contains(x) {
                    let i = choose|i: int| 0 <= i < pre.len() && pre[i] == x;
                    assert(t[i] == x);
                }
            } else {
                assert(x == t.last());
                assert(t[t.len() - 1] == x);
            }
        }
        assert forall|x: usize| s.contains(x) || t.contains(x) implies r.contains(x) by {
            if s.contains(x) {
                assert(rp.contains(x));
                assert(r.contains(x));
            } else {
                let i = choose|i: int| 0 <= i < t.len() && t[i] == x;
                if i < t.len() - 1 {
                    assert(pre[i] == x);
                    assert(pre.contains(x));
                    assert(rp.contains(x));
                    assert(r.contains(x));
                } else {
                    assert(x == t.last());
                    assert(r.contains(x));
                }
            }
        }
    }
}

pub proof fn lemma_grouped_upto(sets: Seq<Seq<usize>>, n: int)
    requires
        n <= sets.len(),
    ensures
        sorted_strict(grouped_upto(sets, n)),
        forall|x: usize|
            grouped_upto(sets, n).contains(x) <==> exists|i: int|
                0 <= i < n && tuple_qualifies(sets, #[trigger] sets[i]) && sets[i].contains(x),
    decreases n,
{
    let r = grouped_upto(sets, n);
    if n <= 0 {
        assert forall|x: usize| r.contains(x) implies false by {}
    } else {
        lemma_grouped_upto(sets, n - 1);
        let pre = grouped_upto(sets, n - 1);
        lemma_insert_all(pre, sets[n - 1]);
        assert forall|x: usize| r.contains(x) implies exists|i: int|
            0 <= i < n && tuple_qualifies(sets, #[trigger] sets[i]) && sets[i].contains(x) by {
            if tuple_qualifies(sets, sets[n - 1]) && sets[n - 1].contains(x) {
                assert(tuple_qualifies(sets, sets[n - 1]) && sets[n - 1].contains(x));
            } else {
                assert(pre.contains(x));
                let i = choose|i: int|
                    0 <= i < n - 1 && tuple_qualifies(sets, #[trigger] sets[i]) && sets[i].contains(
                        x,
                    );
                assert(tuple_qualifies(sets, sets[i]) && sets[i].contains(x));
            }
        }
        assert forall|x: usize|
            exists|i: int|
                0 <= i < n && tuple_qualifies(sets, #[trigger] sets[i]) && sets[i].contains(x)
            implies r.contains(x) by {
            let i = choose|i: int|
                0 <= i < n && tuple_qualifies(sets, #[trigger] sets[i]) && sets[i].contains(x);
            if i < n - 1 {
                assert(pre.contains(x));
            }
        }
    }
}

/// Two strictly sorted sequences with the same members are equal.
pub proof fn lemma_sorted_unique(a: Seq<usize>, b: Seq<usize>)
    requires
        sorted_strict(a),
        sorted_strict(b),
        forall|x: usize| a.contains(x) <==> b.contains(x),
    ensures
        a == b,
    decreases a.len(),
{
    if a.len() == 0 {
        if b.len() > 0 {
            assert(b.contains(b.last()));
            assert(a.contains(b.last()));
        }
        assert(a =~= b);
    } else {
        assert(a.contains(a.last()));
        assert(b.contains(a.last()));
        assert(b.len() > 0);
        assert(b.contains(b.last()));
        assert(a.contains(b.last()));
        assert(a.last() == b.last()) by {
            let i = choose|i: int| 0 <= i < b.len() && b[i] == a.last();
            if i < b.len() - 1 {
                assert(b[i] < b[b.len() - 1]);
            }
            let j = choose|j: int| 0 <= j < a.len() && a[j] == b.last();
            if j < a.len() - 1 {
                assert(a[j] < a[a.len() - 1]);
            }
        }
        let ap = a.drop_last();
        let bp = b.drop_last();
        assert(sorted_strict(ap)) by {
            assert forall|i: int, j: int| 0 <= i < j < ap.len() implies ap[i] < ap[j] by {
                assert(a[i] == ap[i] && a[j] == ap[j]);
            }
        }
        assert(sorted_strict(bp)) by {
            assert forall|i: int, j: int| 0 <= i < j < bp.len() implies bp[i] < bp[j] by {
                assert(b[i] == bp[i] && b[j] == bp[j]);
            }
        }
        assert forall|x: usize| ap.contains(x) <==> bp.contains(x) by {
            if ap.contains(x) {
                let i = choose|i: int| 0 <= i < ap.len() && ap[i] == x;
                assert(a[i] == x);
                assert(a[i] < a.last());
                assert(a.contains(x));
                assert(b.contains(x));
                let j = choose|j: int| 0 <= j < b.len() && b[j] == x;
                assert(j < b.len() - 1) by {
                    if j == b.len() - 1 {
                        assert(b[j] == b.last());
                    }
                }
                assert(bp[j] == x);
                assert(bp.contains(x));
            }
            if bp.contains(x) {
                let i = choose|i: int| 0 <= i < bp.len() && bp[i] == x;
                assert(b[i] == x);
                assert(b[i] < b.last());
                assert(b.contains(x));
                assert(a.contains(x));
                let j = choose|j: int| 0 <= j < a.len() && a[j] == x;
                assert(j < a.len() - 1) by {
                    if j == a.len() - 1 {
                        assert(a[j] == a.last());
                    }
                }
                assert(ap[j] == x);
                assert(ap.contains(x));
            }
        }
        lemma_sorted_unique(ap, bp);
        assert(a =~= b) by {
            assert(a == ap.push(a.last()));
            assert(b == bp.push(b.last()));
        }
    }
}

/// Strategy 5: a digit of this cell that no other cell of the row still
/// allows is assigned here ("hidden single", row scope).
pub fn set_value_if_field_is_only_owner_of_possibility_in_row(field: &Field, grid: &SudokuGrid) -> (
    r: Option<SolveStep>)
    requires
        grid_wf(grid@),
        field@.wf(),
        field@.position.in_range(),
    ensures
        step_opt_view(r) == spec_hidden_single_in_row(grid@, field@),
{
    let fields = match grid.get_fields_in_row(field.position.row) {
        Some(fields) => fields,
        None => {
            proof {
                assert(false);
            }
            return None;
        },
    };
    let refs = as_refs(fields);
    proof {
        assert(refs_view(refs@) =~= grid@[field@.position.row as int]);
    }
    let counts = count_possibilities_for_fields(refs);
    scan_for_single(field, &counts, Ghost(grid@[field@.position.row as int]))
}

/// Strategy 6: the same, scoped to the cell's column.
pub fn set_value_if_field_is_only_owner_of_possibility_in_column(
    field: &Field,
    grid: &SudokuGrid,
) -> (r: Option<SolveStep>)
    requires
        grid_wf(grid@),
        field@.wf(),
        field@.position.in_range(),
    ensures
        step_opt_view(r) == spec_hidden_single_in_column(grid@, field@),
{
    let fields = grid.get_fields_in_column(field.position.column);
    proof {
        assert(refs_view(fields@) =~= column_fields(grid@, field@.position.column as int));
    }
    let counts = count_possibilities_for_fields(fields);
    scan_for_single(field, &counts, Ghost(column_fields(grid@, field@.position.column as int)))
}

/// Strategy 7: the same, scoped to the cell's box.
pub fn set_value_if_field_is_only_owner_of_possibility_in_box(field: &Field, grid: &SudokuGrid) -> (
    r: Option<SolveStep>)
    requires
        grid_wf(grid@),
        field@.wf(),
        field@.position.in_range(),
    ensures
        step_opt_view(r) == spec_hidden_single_in_box(grid@, field@),
{
    let box_id = match SudokuGrid::get_box_id_for_field(field) {
        Some(box_id) => box_id,
        None => {
            proof {
                assert(false);
            }
            return None;
        },
    };
    proof {
        assert(box_id < 9);
    }
    let fields = grid.get_fields_in_box(box_id);
    proof {
        assert(refs_view(fields@) =~= box_fields(
            grid@,
            box_of(field@.position.row as int, field@.position.column as int),
        ));
    }
    let counts = count_possibilities_for_fields(fields);
    scan_for_single(
        field,
        &counts,
        Ghost(box_fields(grid@, box_of(field@.position.row as int, field@.position.column as int))),
    )
}

/// Looks one digit up in a candidate list.
fn contains_digit(v: &Vec<usize>, d: usize) -> (r: bool)
    ensures
        r == v@.contains(d),
{
    let n: usize = v.len();
    for i in 0..n
        invariant
            n == v@.len(),
            forall|j: int| 0 <= j < i ==> v@[j] != d,
    {
        if v[i] == d {
            return true;
        }
    }
    false
}

/// Tests whether every digit of `a` occurs in `b`.
fn is_subset_of(a: &Vec<usize>, b: &Vec<usize>) -> (r: bool)
    ensures
        r == subset_seq(a@, b@),
{
    let n: usize = a.len();
    for i in 0..n
        invariant
            n == a@.len(),
            forall|j: int| 0 <= j < i ==> b@.contains(#[trigger] a@[j]),
    {
        if !contains_digit(b, a[i]) {
            return false;
        }
    }
    true
}

/// Inserts a digit into a sorted duplicate-free list, keeping it so.
fn insert_digit_sorted(v: &mut Vec<usize>, d: usize)
    requires
        sorted_strict(old(v)@),
    ensures
        final(v)@ == insert_sorted(old(v)@, d),
{
    let ghost orig: Seq<usize> = v@;
    let n: usize = v.len();
    let mut idx: usize = 0;
    while idx < n && v[idx] < d
        invariant
            n == v@.len(),
            v@ == orig,
            sorted_strict(orig),
            idx <= n,
            forall|j: int| 0 <= j < idx ==> orig[j] < d,
        decreases n - idx,
    {
        idx += 1;
    }
    if idx < n && v[idx] == d {
        proof {
            lemma_insert_sorted(orig, d);
            assert(orig.contains(d));
            assert forall|x: usize| v@.contains(x) <==> insert_sorted(orig, d).contains(x) by {}
            lemma_sorted_unique(v@, insert_sorted(orig, d));
        }
        return ;
    }
    v.insert(idx, d);
    proof {
        assert forall|j: int| idx < j < v@.len() implies d < v@[j] by {
            assert(v@[j] == orig[j - 1]);
            if idx < n {
                assert(orig[idx as int] <= orig[j - 1]) by {
                    if idx < j - 1 {
                        assert(orig[idx as int] < orig[j - 1]);
                    }
                }
            }
        }
        assert(sorted_strict(v@)) by {
            assert forall|i: int, j: int| 0 <= i < j < v@.len() implies v@[i] < v@[j] by {
                if j < idx {
                    assert(v@[i] == orig[i] && v@[j] == orig[j]);
                } else if j == idx {
                    assert(v@[j] == d && v@[i] == orig[i]);
                } else if i < idx {
                    assert(v@[i] == orig[i] && orig[i] < d && d < v@[j]);
                } else if i == idx {
                    assert(v@[i] == d && d < v@[j]);
                } else {
                    assert(v@[i] == orig[i - 1] && v@[j] == orig[j - 1]);
                }
            }
        }
        assert(!orig.contains(d)) by {
            if orig.contains(d) {
                let k = choose|k: int| 0 <= k < orig.len() && orig[k] == d;
                if k < idx {
                    assert(orig[k] < d);
                } else if idx < n {
                    assert(orig[idx as int] <= orig[k]) by {
                        if idx < k {
                            assert(orig[idx as int] < orig[k]);
                        }
                    }
                }
            }
        }
        lemma_insert_sorted(orig, d);
        assert forall|x: usize| v@.contains(x) <==> insert_sorted(orig, d).contains(x) by {
            if v@.contains(x) {
                let k = choose|k: int| 0 <= k < v@.len() && v@[k] == x;
                if k < idx {
                    assert(orig[k] == x);
                    assert(orig.contains(x));
                } else if k == idx {
                    assert(x == d);
                } else {
                    assert(orig[k - 1] == x);
                    assert(orig.contains(x));
                }
                assert(insert_sorted(orig, d).contains(x));
            }
            if insert_sorted(orig, d).contains(x) {
                if x == d {
                    assert(v@[idx as int] == d);
                    assert(v@.contains(x));
                } else {
                    assert(orig.contains(x));
                    let k = choose|k: int| 0 <= k < orig.len() && orig[k] == x;
                    if k < idx {
                        assert(v@[k] == x);
                    } else {
                        assert(v@[k + 1] == x);
                    }
                    assert(v@.contains(x));
                }
            }
        }
        lemma_sorted_unique(v@, insert_sorted(orig, d));
    }
}

/// The spec-level value of a list of candidate lists.
pub open spec fn sets_view(s: Seq<Vec<usize>>) -> Seq<Seq<usize>> {
    s.map_values(|v: Vec<usize>| v@)
}

/// Finds all naked tuples among the given candidate sets and returns the
/// union of their digits, sorted and duplicate-free: a set `S` of `L > 1`
/// digits qualifies when exactly `L` of the sets (itself included) are
/// subsets of it no larger than itself.
pub fn find_grouped_possibilities(fields_possibilities: Vec<Vec<usize>>) -> (r: Vec<usize>)
    ensures
        r@ == grouped_possibilities(sets_view(fields_possibilities@)),
{
    let ghost sets: Seq<Seq<usize>> = sets_view(fields_possibilities@);
    let mut out: Vec<usize> = Vec::new();
    let n: usize = fields_possibilities.len();
    for i in 0..n
        invariant
            n == fields_possibilities@.len(),
            sets == sets_view(fields_possibilities@),
            out@ == grouped_upto(sets, i as int),
            sorted_strict(out@),
    {
        let t: &Vec<usize> = &fields_possibilities[i];
        if t.len() > 1 {
            let mut matches: usize = 0;
            for j in 0..n
                invariant
                    n == fields_possibilities@.len(),
                    sets == sets_view(fields_possibilities@),
                    i < n,
                    t@ == sets[i as int],
                    matches <= j,
                    matches == match_count(sets.take(j as int), t@),
            {
                proof {
                    assert(sets.take(j + 1).drop_last() =~= sets.take(j as int));
                    assert(sets.take(j + 1).last() == sets[j as int]);
                }
                let s_j: &Vec<usize> = &fields_possibilities[j];
                if s_j.len() > 1 && s_j.len() <= t.len() && is_subset_of(s_j, t) {
                    matches += 1;
                }
            }
            proof {
                assert(sets.take(n as int) =~= sets);
            }
            if matches == t.len() {
                proof {
                    assert(tuple_qualifies(sets, sets[i as int]));
                }
                let m: usize = t.len();
                for k in 0..m
                    invariant
                        n == fields_possibilities@.len(),
                        sets == sets_view(fields_possibilities@),
                        i < n,
                        m == t@.len(),
                        t@ == sets[i as int],
                        sorted_strict(out@),
                        out@ == insert_all(grouped_upto(sets, i as int), t@.take(k as int)),
                {
                    proof {
                        assert(t@.take(k + 1).drop_last() =~= t@.take(k as int));
                        assert(t@.take(k + 1).last() == t@[k as int]);
                        lemma_insert_sorted(out@, t@[k as int]);
                    }
                    insert_digit_sorted(&mut out, t[k]);
                }
                proof {
                    assert(t@.take(m as int) =~= t@);
                    assert(grouped_upto(sets, i + 1) == insert_all(
                        grouped_upto(sets, i as int),
                        sets[i as int],
                    ));
                }
            } else {
                proof {
                    assert(!tuple_qualifies(sets, sets[i as int]));
                    assert(grouped_upto(sets, i + 1) == grouped_upto(sets, i as int));
                }
            }
        } else {
            proof {
                assert(!tuple_qualifies(sets, sets[i as int]));
                assert(grouped_upto(sets, i + 1) == grouped_upto(sets, i as int));
            }
        }
    }
    proof {
        assert(out@ == grouped_upto(sets, n as int));
    }
    out
}

/// The candidate lists of all fields except the one at position `p`,
/// in field order.
pub open spec fn others_possibilities(fs: Seq<FieldView>, p: FieldPosition) -> Seq<Seq<usize>>
    decreases fs.len(),
{
    if fs.len() == 0 {
        Seq::empty()
    } else {
        let pre = others_possibilities(fs.drop_last(), p);
        if fs.last().position != p {
            pre.push(fs.last().possibilities)
        } else {
            pre
        }
    }
}

/// What a naked-tuple strategy proposes for the cell `f` against the
/// fields `fs` of one of its units.
pub open spec fn spec_naked_tuple(fs: Seq<FieldView>, f: FieldView) -> Option<SolveStepView> {
    let ds = grouped_possibilities(others_possibilities(fs, f.position));
    if ds.len() == 0 {
        None
    } else {
        Some(SolveStepView::RemovePossibilities(ds))
    }
}

pub open spec fn spec_naked_tuple_in_row(g: Seq<Seq<FieldView>>, f: FieldView) -> Option<
    SolveStepView,
> {
    spec_naked_tuple(g[f.position.row as int], f)
}

pub open spec fn spec_naked_tuple_in_column(g: Seq<Seq<FieldView>>, f: FieldView) -> Option<
    SolveStepView,
> {
    spec_naked_tuple(column_fields(g, f.position.column as int), f)
}

pub open spec fn spec_naked_tuple_in_box(g: Seq<Seq<FieldView>>, f: FieldView) -> Option<
    SolveStepView,
> {
    spec_naked_tuple(box_fields(g, box_of(f.position.row as int, f.position.column as int)), f)
}

fn copy_digits(v: &Vec<usize>) -> (r: Vec<usize>)
    ensures
        r@ == v@,
{
    let mut out: Vec<usize> = Vec::new();
    let n: usize = v.len();
    for i in 0..n
        invariant
            n == v@.len(),
            out@ == v@.take(i as int),
    {
        proof {
            assert(v@.take(i + 1).drop_last() =~= v@.take(i as int));
            assert(v@.take(i + 1).last() == v@[i as int]);
        }
        out.push(v[i]);
    }
    proof {
        assert(v@.take(n as int) =~= v@);
    }
    out
}

/// Gathers the candidate lists of all fields of the unit other than the
/// one at the cell's position.
fn gather_other_possibilities(fields: &Vec<&Field>, position: &FieldPosition) -> (r: Vec<
    Vec<usize>,
>)
    ensures
        sets_view(r@) == others_possibilities(refs_view(fields@), *position),
{
    let ghost fv: Seq<FieldView> = refs_view(fields@);
    let mut out: Vec<Vec<usize>> = Vec::new();
    let n: usize = fields.len();
    for i in 0..n
        invariant
            n == fields@.len(),
            fv == refs_view(fields@),
            sets_view(out@) == others_possibilities(fv.take(i as int), *position),
    {
        proof {
            assert(fv.take(i + 1).drop_last() =~= fv.take(i as int));
            assert(fv.take(i + 1).last() == fv[i as int]);
        }
        let field: &Field = fields[i];
        if field.position.row != position.row || field.position.column != position.column {
            let poss = copy_digits(&field.possibilities);
            out.push(poss);
            proof {
                assert(sets_view(out@) =~= others_possibilities(fv.take(i + 1), *position));
            }
        } else {
            proof {
                assert(fv[i as int].position == *position);
            }
        }
    }
    proof {
        assert(fv.take(n as int) =~= fv);
    }
    out
}

fn propose_tuple_removal(others: Vec<Vec<usize>>) -> (r: Option<SolveStep>)
    ensures
        ({
            let ds = grouped_possibilities(sets_view(others@));
            step_opt_view(r) == if ds.len() == 0 {
                None::<SolveStepView>
            } else {
                Some(SolveStepView::RemovePossibilities(ds))
            }
        }),
{
    let possibilities_to_remove = find_grouped_possibilities(others);
    if possibilities_to_remove.len() == 0 {
        None
    } else {
        Some(SolveStep::RemovePossibilities(possibilities_to_remove))
    }
}

/// Strategy 8: naked-tuple elimination scoped to the cell's row.
pub fn remove_possibilities_by_pairs_of_size_nin_row(field: &Field, grid: &SudokuGrid) -> (r:
    Option<SolveStep>)
    requires
        grid_dims(grid@),
        field@.position.in_range(),
    ensures
        step_opt_view(r) == spec_naked_tuple_in_row(grid@, field@),
{
    let fields = match grid.get_fields_in_row(field.position.row) {
        Some(fields) => fields,
        None => {
            proof {
                assert(false);
            }
            return None;
        },
    };
    let refs = as_refs(fields);
    proof {
        assert(refs_view(refs@) =~= grid@[field@.position.row as int]);
    }
    let others = gather_other_possibilities(&refs, &field.position);
    propose_tuple_removal(others)
}

/// Strategy 9: naked-tuple elimination scoped to the cell's column.
pub fn remove_possibilities_by_pairs_of_size_nin_colummn(field: &Field, grid: &SudokuGrid) -> (r:
    Option<SolveStep>)
    requires
        grid_dims(grid@),
        field@.position.in_range(),
    ensures
        step_opt_view(r) == spec_naked_tuple_in_column(grid@, field@),
{
    let fields = grid.get_fields_in_column(field.position.column);
    proof {
        assert(refs_view(fields@) =~= column_fields(grid@, field@.position.column as int));
    }
    let others = gather_other_possibilities(&fields, &field.position);
    propose_tuple_removal(others)
}

/// Strategy 10: naked-tuple elimination scoped to the cell's box. All
/// eight other cells of the box take part.
pub fn remove_possibilities_by_pairs_of_size_nin_box(field: &Field, grid: &SudokuGrid) -> (r:
    Option<SolveStep>)
    requires
        grid_dims(grid@),
        field@.position.in_range(),
    ensures
        step_opt_view(r) == spec_naked_tuple_in_box(grid@, field@),
{
    let box_id = match SudokuGrid::get_box_id_for_field(field) {
        Some(box_id) => box_id,
        None => {
            proof {
                assert(false);
            }
            return None;
        },
    };
    proof {
        assert(box_id < 9);
    }
    let fields = grid.get_fields_in_box(box_id);
    proof {
        assert(refs_view(fields@) =~= box_fields(
            grid@,
            box_of(field@.position.row as int, field@.position.column as int),
        ));
    }
    let others = gather_other_possibilities(&fields, &field.position);
    propose_tuple_removal(others)
}

} // verus!
