//! The grid data model: positions, fields (cells) and the 9x9 grid,
//! together with the spec-level view of each type and the unit
//! (row / column / box) queries that the deduction strategies build on.

use vstd::prelude::*;

verus! {

/// Digits are 1..=9.
pub open spec fn digit_ok(d: usize) -> bool {
    1 <= d <= 9
}

/// Strictly increasing, hence also free of duplicates.
pub open spec fn sorted_strict(s: Seq<usize>) -> bool {
    forall|i: int, j: int| 0 <= i < j < s.len() ==> s[i] < s[j]
}

/// The candidate set of a freshly created empty field: every digit.
pub open spec fn full_candidates() -> Seq<usize> {
    seq![1usize, 2usize, 3usize, 4usize, 5usize, 6usize, 7usize, 8usize, 9usize]
}

/// `s` with every occurrence of `d` removed, order kept.
pub open spec fn remove_digit(s: Seq<usize>, d: usize) -> Seq<usize>
    decreases s.len(),
{
    if s.len() == 0 {
        s
    } else if s.last() == d {
        remove_digit(s.drop_last(), d)
    } else {
        remove_digit(s.drop_last(), d).push(s.last())
    }
}

/// `s` with every digit of `ds` removed, order kept.
pub open spec fn remove_digits(s: Seq<usize>, ds: Seq<usize>) -> Seq<usize>
    decreases ds.len(),
{
    if ds.len() == 0 {
        s
    } else {
        remove_digit(remove_digits(s, ds.drop_last()), ds.last())
    }
}

pub proof fn lemma_remove_digit(s: Seq<usize>, d: usize)
    ensures
        forall|x: usize| remove_digit(s, d).contains(x) <==> s.contains(x) && x != d,
        sorted_strict(s) ==> sorted_strict(remove_digit(s, d)),
        remove_digit(s, d).len() <= s.len(),
        s.contains(d) ==> remove_digit(s, d).len() < s.len(),
        forall|i: int|
            0 <= i < remove_digit(s, d).len() ==> s.contains(#[trigger] remove_digit(s, d)[i]),
    decreases s.len(),
{
    let r = remove_digit(s, d);
    if s.len() == 0 {
        assert forall|x: usize| r.contains(x) implies s.contains(x) && x != d by {}
    } else {
        let pre = s.drop_last();
        lemma_remove_digit(pre, d);
        let rp = remove_digit(pre, d);
        assert forall|x: usize| s.contains(x) && x != d implies r.contains(x) by {
            let i = choose|i: int| 0 <= i < s.len() && s[i] == x;
            if i < s.len() - 1 {
                assert(pre[i] == x);
                assert(pre.contains(x));
                assert(rp.contains(x));
                let j = choose|j: int| 0 <= j < rp.len() && rp[j] == x;
                if s.last() != d {
                    assert(r[j] == x);
                }
            } else {
                assert(s.last() == x);
                assert(r.last() == x);
            }
        }
        assert forall|x: usize| r.contains(x) implies s.contains(x) && x != d by {
            let i = choose|i: int| 0 <= i < r.len() && r[i] == x;
            if s.last() == d {
                assert(rp.contains(x));
                let j = choose|j: int| 0 <= j < rp.len() && rp[j] == x;
                assert(pre[choose|k: int| 0 <= k < pre.len() && pre[k] == x] == x);
                assert(s.contains(x)) by {
                    let k = choose|k: int| 0 <= k < pre.len() && pre[k] == x;
                    assert(s[k] == x);
                }
            } else {
                if i < r.len() - 1 {
                    assert(rp.contains(x));
                    let k = choose|k: int| 0 <= k < pre.len() && pre[k] == x;
                    assert(s[k] == x);
                } else {
                    assert(x == s.last());
                }
            }
        }
        if sorted_strict(s) {
            assert(sorted_strict(pre)) by {
                assert forall|i: int, j: int| 0 <= i < j < pre.len() implies pre[i] < pre[j] by {
                    assert(s[i] == pre[i] && s[j] == pre[j]);
                }
            }
            assert(sorted_strict(r)) by {
                if s.last() != d {
                    assert forall|i: int, j: int| 0 <= i < j < r.len() implies r[i] < r[j] by {
                        if j < r.len() - 1 {
                            assert(r[i] == rp[i] && r[j] == rp[j]);
                        } else {
                            assert(r[j] == s.last());
                            assert(pre.contains(rp[i]));
                            let k = choose|k: int| 0 <= k < pre.len() && pre[k] == rp[i];
                            assert(s[k] < s[s.len() - 1]);
                        }
                    }
                }
            }
        }
        if s.contains(d) {
            assert(r.len() < s.len()) by {
                if s.last() != d {
                    let i = choose|i: int| 0 <= i < s.len() && s[i] == d;
                    assert(pre[i] == d);
                    assert(pre.contains(d));
                }
            }
        }
    }
}

pub proof fn lemma_remove_digits(s: Seq<usize>, ds: Seq<usize>)
    ensures
        forall|x: usize| remove_digits(s, ds).contains(x) <==> s.contains(x) && !ds.contains(x),
        sorted_strict(s) ==> sorted_strict(remove_digits(s, ds)),
        remove_digits(s, ds).len() <= s.len(),
    decreases ds.len(),
{
    let r = remove_digits(s, ds);
    if ds.len() == 0 {
        assert forall|x: usize| s.contains(x) && !ds.contains(x) implies r.contains(x) by {}
    } else {
        let pre = ds.drop_last();
        lemma_remove_digits(s, pre);
        let rp = remove_digits(s, pre);
        lemma_remove_digit(rp, ds.last());
        assert forall|x: usize| r.contains(x) implies s.contains(x) && !ds.contains(x) by {
            assert(rp.contains(x) && x != ds.last());
            if ds.contains(x) {
                let i = choose|i: int| 0 <= i < ds.len() && ds[i] == x;
                assert(pre[i] == x);
                assert(pre.contains(x));
            }
        }
        assert forall|x: usize| s.contains(x) && !ds.contains(x) implies r.contains(x) by {
            assert forall|i: int| 0 <= i < pre.len() implies pre[i] != x by {
                assert(ds[i] == pre[i]);
            }
            assert(!pre.contains(x));
            assert(ds.last() != x) by {
                assert(ds[ds.len() - 1] == ds.last());
            }
        }
    }
}

/// Identifies a cell by row and column, both in 0..=8.
#[derive(Clone, Copy, Debug, Default, PartialEq, Eq, Structural)]
pub struct FieldPosition {
    pub row: usize,
    pub column: usize,
}

/// The box (3x3 block) index of the cell at `(r, c)`.
pub open spec fn box_of(r: int, c: int) -> int {
    3 * (r / 3) + c / 3
}

impl FieldPosition {
    pub open spec fn in_range(self) -> bool {
        self.row < 9 && self.column < 9
    }

    pub fn new(row: usize, column: usize) -> (r: Self)
        requires
            row < 9,
            column < 9,
        ensures
            r == (FieldPosition { row, column }),
    {
        Self { row, column }
    }

    pub fn row(&self) -> (r: usize)
        ensures
            r == self.row,
    {
        self.row
    }

    pub fn column(&self) -> (r: usize)
        ensures
            r == self.column,
    {
        self.column
    }
}

/// The spec-level value of a `Field`.
pub ghost struct FieldView {
    pub value: Option<usize>,
    pub possibilities: Seq<usize>,
    pub position: FieldPosition,
}

impl FieldView {
    pub open spec fn is_filled(self) -> bool {
        self.value is Some
    }

    /// Structural well-formedness of one field, independent of where it
    /// sits in a grid: digits in range, candidates strictly sorted, and a
    /// solved field carries no candidates.
    pub open spec fn wf(self) -> bool {
        &&& self.position.in_range()
        &&& (self.value matches Some(v) ==> digit_ok(v) && self.possibilities.len() == 0)
        &&& sorted_strict(self.possibilities)
        &&& forall|i: int| 0 <= i < self.possibilities.len() ==> digit_ok(#[trigger] self.possibilities[i])
    }
}

/// Holds either a solved digit or the set of digits still possible for
/// one position of the grid.
#[derive(Clone, Debug, Default)]
pub struct Field {
    pub value: Option<usize>,
    pub possibilities: Vec<usize>,
    pub position: FieldPosition,
}

impl View for Field {
    type V = FieldView;

    open spec fn view(&self) -> FieldView {
        FieldView {
            value: self.value,
            possibilities: self.possibilities@,
            position: self.position,
        }
    }
}

impl Field {
    pub fn position(&self) -> (r: &FieldPosition)
        ensures
            *r == self@.position,
    {
        &self.position
    }

    pub fn value(&self) -> (r: Option<usize>)
        ensures
            r == self@.value,
    {
        self.value
    }

    pub fn possibilities(&self) -> (r: &Vec<usize>)
        ensures
            r@ == self@.possibilities,
    {
        &self.possibilities
    }

    pub fn is_filled(&self) -> (r: bool)
        ensures
            r == self@.is_filled(),
    {
        self.value.is_some()
    }

    /// Assigning a value resolves the field, so the remaining candidates
    /// are discarded: a solved cell never carries candidates.
    pub fn set_value(&mut self, value: usize)
        ensures
            final(self)@.value == Some(value),
            final(self)@.possibilities == Seq::<usize>::empty(),
            final(self)@.position == old(self)@.position,
    {
        self.value = Some(value);
        self.possibilities = Vec::new();
    }

    /// Strikes one digit from the candidate set; the order of the
    /// remaining candidates is kept.
    pub fn remove_possibility(&mut self, possibility: usize)
        ensures
            final(self)@.value == old(self)@.value,
            final(self)@.position == old(self)@.position,
            final(self)@.possibilities == remove_digit(old(self)@.possibilities, possibility),
    {
        let ghost orig: Seq<usize> = self.possibilities@;
        let mut kept: Vec<usize> = Vec::new();
        let n: usize = self.possibilities.len();
        for i in 0..n
            invariant
                n == orig.len(),
                self.possibilities@ == orig,
                kept@ == remove_digit(orig.take(i as int), possibility),
        {
            proof {
                assert(orig.take(i + 1).drop_last() =~= orig.take(i as int));
                assert(orig.take(i + 1).last() == orig[i as int]);
            }
            let p: usize = self.possibilities[i];
            if p != possibility {
                kept.push(p);
            }
        }
        proof {
            assert(orig.take(n as int) =~= orig);
        }
        self.possibilities = kept;
    }

    /// A fresh unsolved field: no value, every digit still possible.
    pub fn empty(position: FieldPosition) -> (r: Self)
        ensures
            r@.value == Option::<usize>::None,
            r@.possibilities == full_candidates(),
            r@.position == position,
    {
        let mut possibilities: Vec<usize> = Vec::new();
        possibilities.push(1);
        possibilities.push(2);
        possibilities.push(3);
        possibilities.push(4);
        possibilities.push(5);
        possibilities.push(6);
        possibilities.push(7);
        possibilities.push(8);
        possibilities.push(9);
        proof {
            assert(possibilities@ =~= full_candidates());
        }
        Self { possibilities, value: None, position }
    }

    /// A field solved from the start (a given of the puzzle).
    pub fn filled(value: usize, position: FieldPosition) -> (r: Self)
        ensures
            r@.value == Some(value),
            r@.possibilities == Seq::<usize>::empty(),
            r@.position == position,
    {
        Self { value: Some(value), possibilities: Vec::new(), position }
    }
}

/// Raised when a grid is built from ill-shaped input.
#[derive(Clone, Copy, Debug, PartialEq, Eq, Structural)]
pub enum GridError {
    /// The input does not have exactly 9 rows.
    WrongRowCount,
    /// Some input row does not have exactly 9 entries.
    WrongFieldCount,
    /// Some supplied digit lies outside 1..=9.
    InvalidDigit,
}

pub open spec fn fields_view(s: Seq<Field>) -> Seq<FieldView> {
    s.map_values(|f: Field| f@)
}

/// A fixed 9x9 board of fields, indexed by row then column.
#[derive(Clone, Debug, Default)]
pub struct SudokuGrid {
    pub rows: Vec<Vec<Field>>,
}

impl View for SudokuGrid {
    type V = Seq<Seq<FieldView>>;

    open spec fn view(&self) -> Seq<Seq<FieldView>> {
        self.rows@.map_values(|row: Vec<Field>| fields_view(row@))
    }
}

pub open spec fn grid_dims(g: Seq<Seq<FieldView>>) -> bool {
    &&& g.len() == 9
    &&& forall|r: int| 0 <= r < 9 ==> #[trigger] g[r].len() == 9
}

/// Every field is well-formed and sits at the position it claims.
pub open spec fn grid_wf(g: Seq<Seq<FieldView>>) -> bool {
    &&& grid_dims(g)
    &&& forall|r: int, c: int| 0 <= r < 9 && 0 <= c < 9 ==> (#[trigger] g[r][c]).wf()
    &&& forall|r: int, c: int|
        0 <= r < 9 && 0 <= c < 9 ==> (#[trigger] g[r][c]).position == (FieldPosition {
            row: r as usize,
            column: c as usize,
        })
}

/// The fields of column `c`, ordered by increasing row.
pub open spec fn column_fields(g: Seq<Seq<FieldView>>, c: int) -> Seq<FieldView> {
    Seq::new(9, |i: int| g[i][c])
}

/// The row of the `k`-th cell of box `b` (cells visited top-left to
/// bottom-right within the 3x3 block).
pub open spec fn box_row(b: int, k: int) -> int {
    3 * (b / 3) + k / 3
}

/// The column of the `k`-th cell of box `b`.
pub open spec fn box_column(b: int, k: int) -> int {
    3 * (b % 3) + k % 3
}

/// The fields of box `b`, ordered top-left to bottom-right.
pub open spec fn box_fields(g: Seq<Seq<FieldView>>, b: int) -> Seq<FieldView> {
    Seq::new(9, |k: int| g[box_row(b, k)][box_column(b, k)])
}

pub open spec fn unit_has_digit(fs: Seq<FieldView>, d: usize) -> bool {
    exists|i: int| 0 <= i < fs.len() && fs[i].value == Some(d)
}

pub open spec fn unit_all_digits(fs: Seq<FieldView>) -> bool {
    forall|d: usize| digit_ok(d) ==> unit_has_digit(fs, d)
}

/// Every row, column and box contains each digit (and hence, with 9 cells
/// per unit, each digit exactly once).
pub open spec fn grid_complete(g: Seq<Seq<FieldView>>) -> bool {
    &&& forall|u: int| 0 <= u < 9 ==> unit_all_digits(#[trigger] g[u])
    &&& forall|u: int| 0 <= u < 9 ==> unit_all_digits(#[trigger] column_fields(g, u))
    &&& forall|u: int| 0 <= u < 9 ==> unit_all_digits(#[trigger] box_fields(g, u))
}

/// One row of construction input: 9 optional digits.
pub open spec fn row_error(row: Seq<Option<usize>>) -> Option<GridError> {
    if row.len() != 9 {
        Some(GridError::WrongFieldCount)
    } else if exists|c: int| 0 <= c < 9 && ((#[trigger] row[c]) matches Some(d) && !digit_ok(d)) {
        Some(GridError::InvalidDigit)
    } else {
        None
    }
}

/// The first faulty row (scanning from `i`) decides the reported error.
pub open spec fn rows_error(g: Seq<Seq<Option<usize>>>, i: int) -> Option<GridError>
    decreases g.len() - i,
{
    if i < 0 || i >= g.len() {
        None
    } else if row_error(g[i]) is Some {
        row_error(g[i])
    } else {
        rows_error(g, i + 1)
    }
}

pub open spec fn givens_error(g: Seq<Seq<Option<usize>>>) -> Option<GridError> {
    if g.len() != 9 {
        Some(GridError::WrongRowCount)
    } else {
        rows_error(g, 0)
    }
}

/// An unsolved field whose candidate set has become empty: the strategies
/// derived a contradiction, so the grid has no valid completion from here.
pub open spec fn grid_contradictory(g: Seq<Seq<FieldView>>) -> bool {
    exists|r: int, c: int|
        0 <= r < 9 && 0 <= c < 9 && (#[trigger] g[r][c]).value is None
            && g[r][c].possibilities.len() == 0
}

/// How a freshly constructed grid reflects its input: a given digit makes
/// a solved field, an absent one an empty field with all nine candidates.
pub open spec fn grid_matches_givens(g: Seq<Seq<FieldView>>, givens: Seq<Seq<Option<usize>>>) -> bool {
    forall|r: int, c: int|
        0 <= r < 9 && 0 <= c < 9 ==> match givens[r][c] {
            Some(d) => (#[trigger] g[r][c]).value == Some(d) && g[r][c].possibilities.len() == 0,
            None => g[r][c].value is None && g[r][c].possibilities == full_candidates(),
        }
}

impl SudokuGrid {
    /// Builds a grid from 9 rows of 9 optional digits, rejecting input of
    /// the wrong shape or with a digit outside 1..=9.
    pub fn from_givens(givens: &Vec<Vec<Option<usize>>>) -> (r: Result<SudokuGrid, GridError>)
        ensures
            r is Ok <==> givens_error(deep_givens(givens)) is None,
            r matches Err(e) ==> Some(e) == givens_error(deep_givens(givens)),
            r matches Ok(g) ==> grid_wf(g@) && grid_matches_givens(g@, deep_givens(givens)),
    {
        let ghost gv: Seq<Seq<Option<usize>>> = deep_givens(givens);
        if givens.len() != 9 {
            return Err(GridError::WrongRowCount);
        }
        let mut rows: Vec<Vec<Field>> = Vec::new();
        for r in 0..9
            invariant
                gv == deep_givens(givens),
                gv.len() == 9,
                givens@.len() == 9,
                rows@.len() == r,
                rows_error(gv, 0) == rows_error(gv, r as int),
                forall|i: int| 0 <= i < r ==> row_error(gv[i]) is None,
                forall|i: int| 0 <= i < r ==> (#[trigger] rows@[i])@.len() == 9,
                forall|i: int, c: int|
                    0 <= i < r && 0 <= c < 9 ==> (#[trigger] rows@[i]@[c])@.wf(),
                forall|i: int, c: int|
                    0 <= i < r && 0 <= c < 9 ==> (#[trigger] rows@[i]@[c])@.position
                        == (FieldPosition { row: i as usize, column: c as usize }),
                forall|i: int, c: int|
                    0 <= i < r && 0 <= c < 9 ==> match gv[i][c] {
                        Some(d) => (#[trigger] rows@[i]@[c])@.value == Some(d)
                            && rows@[i]@[c]@.possibilities.len() == 0,
                        None => rows@[i]@[c]@.value is None
                            && rows@[i]@[c]@.possibilities == full_candidates(),
                    },
        {
            let given_row: &Vec<Option<usize>> = &givens[r];
            proof {
                assert(gv[r as int] =~= given_row@);
            }
            if given_row.len() != 9 {
                return Err(GridError::WrongFieldCount);
            }
            let mut row_fields: Vec<Field> = Vec::new();
            for c in 0..9
                invariant
                    gv == deep_givens(givens),
                    gv.len() == 9,
                    r < 9,
                    rows_error(gv, 0) == rows_error(gv, r as int),
                    given_row@ == gv[r as int],
                    given_row@.len() == 9,
                    row_fields@.len() == c,
                    forall|cc: int| 0 <= cc < c ==> (#[trigger] row_fields@[cc])@.wf(),
                    forall|cc: int|
                        0 <= cc < c ==> (#[trigger] row_fields@[cc])@.position
                            == (FieldPosition { row: r, column: cc as usize }),
                    forall|cc: int|
                        0 <= cc < c ==> match gv[r as int][cc] {
                            Some(d) => (#[trigger] row_fields@[cc])@.value == Some(d)
                                && row_fields@[cc]@.possibilities.len() == 0,
                            None => row_fields@[cc]@.value is None
                                && row_fields@[cc]@.possibilities == full_candidates(),
                        },
            {
                let position = FieldPosition::new(r, c);
                match given_row[c] {
                    Some(d) => {
                        if d < 1 || d > 9 {
                            proof {
                                assert(gv[r as int][c as int] == Some(d));
                                assert(row_error(gv[r as int]) == Some(GridError::InvalidDigit));
                                assert(rows_error(gv, r as int) == Some(
                                    GridError::InvalidDigit,
                                ));
                            }
                            return Err(GridError::InvalidDigit);
                        }
                        row_fields.push(Field::filled(d, position));
                    },
                    None => {
                        proof {
                            assert(sorted_strict(full_candidates()));
                            assert(forall|i: int|
                                0 <= i < full_candidates().len() ==> digit_ok(
                                    #[trigger] full_candidates()[i],
                                ));
                        }
                        row_fields.push(Field::empty(position));
                    },
                }
            }
            proof {
                assert forall|cc: int|
                    0 <= cc < 9 implies !((#[trigger] gv[r as int][cc]) matches Some(d)
                    && !digit_ok(d)) by {
                    match gv[r as int][cc] {
                        Some(d) => {
                            assert(row_fields@[cc]@.value == Some(d));
                            assert(row_fields@[cc]@.wf());
                        },
                        None => {},
                    }
                }
                assert(row_error(gv[r as int]) is None);
            }
            rows.push(row_fields);
        }
        let grid = SudokuGrid { rows };
        proof {
            assert(grid_wf(grid@));
            assert(grid_matches_givens(grid@, gv));
        }
        Ok(grid)
    }

    /// All 81 fields in row-major order.
    pub fn fields(&self) -> (r: Vec<&Field>)
        requires
            grid_dims(self@),
        ensures
            r@.len() == 81,
            forall|rr: int, cc: int|
                0 <= rr < 9 && 0 <= cc < 9 ==> r@[rr * 9 + cc]@ == (#[trigger] self@[rr][cc]),
    {
        let mut out: Vec<&Field> = Vec::new();
        for r in 0..9
            invariant
                grid_dims(self@),
                self.rows@.len() == 9,
                out@.len() == (r as int) * 9,
                forall|rr: int, cc: int|
                    0 <= rr < r && 0 <= cc < 9 ==> out@[rr * 9 + cc]@ == (#[trigger] self@[rr][cc]),
        {
            proof {
                assert(self.rows@[r as int]@.len() == 9) by {
                    assert(self@[r as int].len() == 9);
                }
            }
            for c in 0..9
                invariant
                    grid_dims(self@),
                    self.rows@.len() == 9,
                    r < 9,
                    self.rows@[r as int]@.len() == 9,
                    out@.len() == (r as int) * 9 + c,
                    forall|rr: int, cc: int|
                        0 <= rr < r && 0 <= cc < 9 ==> out@[rr * 9 + cc]@ == (
                        #[trigger] self@[rr][cc]),
                    forall|cc: int|
                        0 <= cc < c ==> out@[(r as int) * 9 + cc]@ == (#[trigger] self@[r as int][cc]),
            {
                out.push(&self.rows[r][c]);
            }
        }
        out
    }

    /// The underlying rows.
    pub fn rows(&self) -> (r: &Vec<Vec<Field>>)
        ensures
            r == &self.rows,
    {
        &self.rows
    }

    /// The field at `position`, if the position is on the board.
    pub fn get_field(&self, position: FieldPosition) -> (r: Option<&Field>)
        ensures
            position.row < self.rows@.len() && position.column
                < self.rows@[position.row as int]@.len() ==> r is Some
                && r.unwrap()@ == self.rows@[position.row as int]@[position.column as int]@,
            !(position.row < self.rows@.len() && position.column
                < self.rows@[position.row as int]@.len()) ==> r is None,
    {
        if position.row < self.rows.len() {
            let row: &Vec<Field> = &self.rows[position.row];
            if position.column < row.len() {
                return Some(&row[position.column]);
            }
        }
        None
    }

    /// A mutable borrow of the field at `position`, if it is on the board.
    pub fn get_field_mut(&mut self, position: &FieldPosition) -> (r: Option<&mut Field>)
        ensures
            position.row < old(self).rows@.len() && position.column
                < old(self).rows@[position.row as int]@.len() ==> {
                &&& r is Some
                &&& *r.unwrap() == old(self).rows@[position.row as int]@[position.column as int]
                &&& final(self).rows@.len() == old(self).rows@.len()
                &&& (forall|i: int|
                    0 <= i < old(self).rows@.len() && i != position.row as int
                        ==> final(self).rows@[i] == old(self).rows@[i])
                &&& final(self).rows@[position.row as int]@
                    == old(self).rows@[position.row as int]@.update(
                    position.column as int,
                    *final(r.unwrap()),
                )
            },
            !(position.row < old(self).rows@.len() && position.column
                < old(self).rows@[position.row as int]@.len()) ==> r is None
                && *final(self) == *old(self),
    {
        if position.row < self.rows.len() && position.column < self.rows[position.row].len() {
            Some(&mut self.rows[position.row][position.column])
        } else {
            None
        }
    }

    /// True iff every row, column and box contains all nine digits.
    pub fn is_completed(&self) -> (r: bool)
        requires
            grid_dims(self@),
        ensures
            r == grid_complete(self@),
    {
        for u in 0..9
            invariant
                grid_dims(self@),
                forall|uu: int| 0 <= uu < u ==> unit_all_digits(#[trigger] self@[uu]),
                forall|uu: int|
                    0 <= uu < u ==> unit_all_digits(#[trigger] column_fields(self@, uu)),
                forall|uu: int|
                    0 <= uu < u ==> unit_all_digits(#[trigger] box_fields(self@, uu)),
        {
            if !self.all_digits_in_units(u) {
                proof {
                    if grid_complete(self@) {
                        assert(unit_all_digits(self@[u as int]));
                        assert(unit_all_digits(column_fields(self@, u as int)));
                        assert(unit_all_digits(box_fields(self@, u as int)));
                    }
                }
                return false;
            }
        }
        proof {
            assert forall|u: int| 0 <= u < 9 implies unit_all_digits(#[trigger] self@[u])
                && unit_all_digits(#[trigger] column_fields(self@, u)) && unit_all_digits(
                #[trigger] box_fields(self@, u),
            ) by {
                assert(unit_all_digits(self@[u]));
                assert(unit_all_digits(column_fields(self@, u)));
                assert(unit_all_digits(box_fields(self@, u)));
            }
        }
        true
    }

    /// True iff row `u`, column `u` and box `u` each contain all digits.
    fn all_digits_in_units(&self, u: usize) -> (r: bool)
        requires
            grid_dims(self@),
            u < 9,
        ensures
            r == (unit_all_digits(self@[u as int]) && unit_all_digits(
                column_fields(self@, u as int),
            ) && unit_all_digits(box_fields(self@, u as int))),
    {
        for d in 1..10usize
            invariant
                grid_dims(self@),
                u < 9,
                1 <= d,
                forall|dd: usize| 1 <= dd < d ==> #[trigger] unit_has_digit(self@[u as int], dd),
                forall|dd: usize|
                    1 <= dd < d ==> #[trigger] unit_has_digit(column_fields(self@, u as int), dd),
                forall|dd: usize|
                    1 <= dd < d ==> #[trigger] unit_has_digit(box_fields(self@, u as int), dd),
        {
            if !self.row_has_digit(u, d) {
                proof {
                    assert(digit_ok(d) && !unit_has_digit(self@[u as int], d));
                }
                return false;
            }
            if !self.column_has_digit(u, d) {
                proof {
                    assert(digit_ok(d) && !unit_has_digit(column_fields(self@, u as int), d));
                }
                return false;
            }
            if !self.box_has_digit(u, d) {
                proof {
                    assert(digit_ok(d) && !unit_has_digit(box_fields(self@, u as int), d));
                }
                return false;
            }
        }
        proof {
            assert forall|dd: usize| digit_ok(dd) implies #[trigger] unit_has_digit(
                self@[u as int],
                dd,
            ) && unit_has_digit(column_fields(self@, u as int), dd) && unit_has_digit(
                box_fields(self@, u as int),
                dd,
            ) by {
                assert(unit_has_digit(self@[u as int], dd));
                assert(unit_has_digit(column_fields(self@, u as int), dd));
                assert(unit_has_digit(box_fields(self@, u as int), dd));
            }
        }
        true
    }

    fn row_has_digit(&self, u: usize, d: usize) -> (r: bool)
        requires
            grid_dims(self@),
            u < 9,
        ensures
            r == unit_has_digit(self@[u as int], d),
    {
        proof {
            assert(self.rows@[u as int]@.len() == 9) by {
                assert(self@[u as int].len() == 9);
            }
        }
        for c in 0..9
            invariant
                grid_dims(self@),
                u < 9,
                self.rows@.len() == 9,
                self.rows@[u as int]@.len() == 9,
                forall|cc: int| 0 <= cc < c ==> (#[trigger] self@[u as int][cc]).value != Some(d),
        {
            let has = match self.rows[u][c].value {
                Some(v) => v == d,
                None => false,
            };
            if has {
                proof {
                    assert(self@[u as int][c as int].value == Some(d));
                }
                return true;
            }
        }
        false
    }

    fn column_has_digit(&self, u: usize, d: usize) -> (r: bool)
        requires
            grid_dims(self@),
            u < 9,
        ensures
            r == unit_has_digit(column_fields(self@, u as int), d),
    {
        for i in 0..9
            invariant
                grid_dims(self@),
                u < 9,
                self.rows@.len() == 9,
                forall|ii: int|
                    0 <= ii < i ==> (#[trigger] column_fields(self@, u as int)[ii]).value != Some(
                        d,
                    ),
        {
            proof {
                assert(self.rows@[i as int]@.len() == 9) by {
                    assert(self@[i as int].len() == 9);
                }
            }
            let has = match self.rows[i][u].value {
                Some(v) => v == d,
                None => false,
            };
            if has {
                proof {
                    assert(column_fields(self@, u as int)[i as int].value == Some(d));
                }
                return true;
            }
        }
        false
    }

    fn box_has_digit(&self, u: usize, d: usize) -> (r: bool)
        requires
            grid_dims(self@),
            u < 9,
        ensures
            r == unit_has_digit(box_fields(self@, u as int), d),
    {
        for k in 0..9
            invariant
                grid_dims(self@),
                u < 9,
                self.rows@.len() == 9,
                forall|kk: int|
                    0 <= kk < k ==> (#[trigger] box_fields(self@, u as int)[kk]).value != Some(d),
        {
            let row: usize = 3 * (u / 3) + k / 3;
            let col: usize = 3 * (u % 3) + k % 3;
            proof {
                assert(row < 9 && col < 9);
                assert(self.rows@[row as int]@.len() == 9) by {
                    assert(self@[row as int].len() == 9);
                }
            }
            let has = match self.rows[row][col].value {
                Some(v) => v == d,
                None => false,
            };
            if has {
                proof {
                    assert(box_fields(self@, u as int)[k as int].value == Some(d));
                }
                return true;
            }
        }
        false
    }

    /// True iff some unsolved field has run out of candidates, the
    /// terminal condition that signals a grid without a valid
    /// completion; the engine does not backtrack out of it.
    pub fn has_contradiction(&self) -> (r: bool)
        requires
            grid_dims(self@),
        ensures
            r == grid_contradictory(self@),
    {
        for row in 0..9usize
            invariant
                grid_dims(self@),
                forall|rr: int, cc: int|
                    0 <= rr < row && 0 <= cc < 9 ==> !((#[trigger] self@[rr][cc]).value is None
                        && self@[rr][cc].possibilities.len() == 0),
        {
            proof {
                assert(self.rows@.len() == 9) by {
                    assert(self@.len() == 9);
                }
                assert(self.rows@[row as int]@.len() == 9) by {
                    assert(self@[row as int].len() == 9);
                }
            }
            for col in 0..9usize
                invariant
                    grid_dims(self@),
                    row < 9,
                    self.rows@.len() == 9,
                    self.rows@[row as int]@.len() == 9,
                    forall|rr: int, cc: int|
                        0 <= rr < row && 0 <= cc < 9 ==> !((#[trigger] self@[rr][cc]).value is None
                            && self@[rr][cc].possibilities.len() == 0),
                    forall|cc: int|
                        0 <= cc < col ==> !((#[trigger] self@[row as int][cc]).value is None
                            && self@[row as int][cc].possibilities.len() == 0),
            {
                let field: &Field = &self.rows[row][col];
                if field.value.is_none() && field.possibilities.len() == 0 {
                    proof {
                        assert(self@[row as int][col as int].value is None);
                        assert(self@[row as int][col as int].possibilities.len() == 0);
                    }
                    return true;
                }
            }
        }
        false
    }

    /// The 9 fields of row `row_idx`, if that row is on the board.
    pub fn get_fields_in_row(&self, row_idx: usize) -> (r: Option<&Vec<Field>>)
        ensures
            row_idx < self.rows@.len() ==> r is Some
                && r.unwrap()@ == self.rows@[row_idx as int]@,
            row_idx >= self.rows@.len() ==> r is None,
    {
        if row_idx < self.rows.len() {
            Some(&self.rows[row_idx])
        } else {
            None
        }
    }

    /// The 9 fields of column `col_idx`, ordered by increasing row.
    pub fn get_fields_in_column(&self, col_idx: usize) -> (r: Vec<&Field>)
        requires
            grid_dims(self@),
        ensures
            col_idx < 9 ==> r@.len() == 9 && forall|i: int|
                0 <= i < 9 ==> (#[trigger] r@[i])@ == column_fields(self@, col_idx as int)[i],
            col_idx >= 9 ==> r@.len() == 0,
    {
        let mut out: Vec<&Field> = Vec::new();
        if col_idx >= 9 {
            return out;
        }
        for i in 0..9
            invariant
                grid_dims(self@),
                col_idx < 9,
                self.rows@.len() == 9,
                out@.len() == i,
                forall|ii: int|
                    0 <= ii < i ==> (#[trigger] out@[ii])@ == column_fields(
                        self@,
                        col_idx as int,
                    )[ii],
        {
            proof {
                assert(self.rows@[i as int]@.len() == 9) by {
                    assert(self@[i as int].len() == 9);
                }
            }
            out.push(&self.rows[i][col_idx]);
        }
        out
    }

    /// The box index of a field's position; a single formula replaces a
    /// table of ranges, as the two agree on every on-board position.
    pub fn get_box_id_for_field(field: &Field) -> (r: Option<usize>)
        ensures
            field@.position.in_range() ==> r == Some(
                box_of(field@.position.row as int, field@.position.column as int) as usize,
            ),
            !field@.position.in_range() ==> r is None,
    {
        if field.position.row < 9 && field.position.column < 9 {
            Some(3 * (field.position.row / 3) + field.position.column / 3)
        } else {
            None
        }
    }

    /// The 9 fields of box `box_id`, top-left to bottom-right.
    pub fn get_fields_in_box(&self, box_id: usize) -> (r: Vec<&Field>)
        requires
            grid_dims(self@),
        ensures
            box_id < 9 ==> r@.len() == 9 && forall|k: int|
                0 <= k < 9 ==> (#[trigger] r@[k])@ == box_fields(self@, box_id as int)[k],
            box_id >= 9 ==> r@.len() == 0,
    {
        let with_positions = self.get_fields_in_box_with_positions(box_id);
        let mut out: Vec<&Field> = Vec::new();
        if box_id >= 9 {
            return out;
        }
        for k in 0..9
            invariant
                box_id < 9,
                with_positions@.len() == 9,
                forall|kk: int|
                    0 <= kk < 9 ==> (#[trigger] with_positions@[kk]).0@ == box_fields(
                        self@,
                        box_id as int,
                    )[kk],
                out@.len() == k,
                forall|kk: int|
                    0 <= kk < k ==> (#[trigger] out@[kk])@ == box_fields(self@, box_id as int)[kk],
        {
            out.push(with_positions[k].0);
        }
        out
    }

    /// The 9 fields of box `box_id` together with their (row, column)
    /// coordinates, top-left to bottom-right.
    pub fn get_fields_in_box_with_positions(&self, box_id: usize) -> (r: Vec<(&Field, (
        usize,
        usize,
    ))>)
        requires
            grid_dims(self@),
        ensures
            box_id < 9 ==> r@.len() == 9 && forall|k: int|
                0 <= k < 9 ==> (#[trigger] r@[k]).0@ == box_fields(self@, box_id as int)[k]
                    && r@[k].1.0 == box_row(box_id as int, k) && r@[k].1.1 == box_column(
                    box_id as int,
                    k,
                ),
            box_id >= 9 ==> r@.len() == 0,
    {
        let mut out: Vec<(&Field, (usize, usize))> = Vec::new();
        if box_id >= 9 {
            return out;
        }
        for k in 0..9
            invariant
                grid_dims(self@),
                box_id < 9,
                self.rows@.len() == 9,
                out@.len() == k,
                forall|kk: int|
                    0 <= kk < k ==> (#[trigger] out@[kk]).0@ == box_fields(
                        self@,
                        box_id as int,
                    )[kk] && out@[kk].1.0 == box_row(box_id as int, kk) && out@[kk].1.1
                        == box_column(box_id as int, kk),
        {
            let row: usize = 3 * (box_id / 3) + k / 3;
            let col: usize = 3 * (box_id % 3) + k % 3;
            proof {
                assert(row < 9 && col < 9);
                assert(self.rows@[row as int]@.len() == 9) by {
                    assert(self@[row as int].len() == 9);
                }
            }
            out.push((&self.rows[row][col], (row, col)));
        }
        out
    }
}

/// The spec-level value of construction input.
pub open spec fn deep_givens(givens: &Vec<Vec<Option<usize>>>) -> Seq<Seq<Option<usize>>> {
    givens@.map_values(|row: Vec<Option<usize>>| row@)
}

} // verus!
