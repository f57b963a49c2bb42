use vstd::prelude::*;
use crate::cell_value::CellValue;
use crate::cell_value::spec_digit;
use crate::cell_value::digit;

verus! {

/// The flat index of the cell in row `row` and column `col` of a 9-by-9
/// grid stored in row-major order.
pub open spec fn cell_index(row: int, col: int) -> int {
    row * 9 + col
}

/// Every filled cell of a grid of 81 cells holds a digit in [1, 9].
pub open spec fn grid_wf(g: Seq<Option<CellValue>>) -> bool {
    &&& g.len() == 81
    &&& forall|i: int| 0 <= i < 81 ==> ((#[trigger] g[i]) matches Some(v) ==> v.wf())
}

/// Every cell is filled.
pub open spec fn complete(g: Seq<Option<CellValue>>) -> bool {
    forall|i: int| 0 <= i < g.len() ==> (#[trigger] g[i]) is Some
}

/// The first row (or column) index of the 3-wide band containing index `i`.
pub open spec fn box_start(i: int) -> int {
    if i < 3 {
        0
    } else if i < 6 {
        3
    } else {
        6
    }
}

/// Two positions constrain each other: same row, same column, or same box.
pub open spec fn same_unit(r1: int, c1: int, r2: int, c2: int) -> bool {
    ||| r1 == r2
    ||| c1 == c2
    ||| (box_start(r1) == box_start(r2) && box_start(c1) == box_start(c2))
}

/// The cell at (row, col) holds digit `d`.
pub open spec fn digit_at(g: Seq<Option<CellValue>>, row: int, col: int, d: int) -> bool {
    g[cell_index(row, col)] matches Some(v) && v.value() == d
}

pub open spec fn digit_in_row(g: Seq<Option<CellValue>>, row: int, d: int) -> bool {
    exists|c: int| 0 <= c < 9 && digit_at(g, row, c, d)
}

pub open spec fn digit_in_col(g: Seq<Option<CellValue>>, col: int, d: int) -> bool {
    exists|r: int| 0 <= r < 9 && digit_at(g, r, col, d)
}

/// Digit `d` appears in the 3-by-3 box containing (row, col).
pub open spec fn digit_in_box(g: Seq<Option<CellValue>>, row: int, col: int, d: int) -> bool {
    exists|r2: int, c2: int|
        0 <= r2 < 9 && 0 <= c2 < 9 && box_start(r2) == box_start(row) && box_start(c2) == box_start(
            col,
        ) && digit_at(g, r2, c2, d)
}

/// Digit `d` appears among the cells sharing a row, column, or box
/// with (row, col). The cell itself is part of its own neighborhood.
pub open spec fn in_neighborhood(g: Seq<Option<CellValue>>, row: int, col: int, d: int) -> bool {
    ||| digit_in_row(g, row, d)
    ||| digit_in_col(g, col, d)
    ||| digit_in_box(g, row, col, d)
}

/// No two distinct cells of one row, column, or box hold the same value.
pub open spec fn consistent(g: Seq<Option<CellValue>>) -> bool {
    forall|r1: int, c1: int, r2: int, c2: int|
        0 <= r1 < 9 && 0 <= c1 < 9 && 0 <= r2 < 9 && 0 <= c2 < 9 && !(r1 == r2 && c1 == c2)
            && same_unit(r1, c1, r2, c2) ==> !(#[trigger] g[cell_index(r1, c1)] matches Some(v1)
            && #[trigger] g[cell_index(r2, c2)] matches Some(v2) && v1 == v2)
}

/// `h` keeps every filled cell of `g` (and may fill more).
pub open spec fn extends(g: Seq<Option<CellValue>>, h: Seq<Option<CellValue>>) -> bool {
    &&& g.len() == h.len()
    &&& forall|i: int| 0 <= i < g.len() && (#[trigger] g[i]) is Some ==> h[i] == g[i]
}

/// A 9-by-9 puzzle grid of optional digits, stored row-major.
#[derive(Clone, Copy, PartialEq, Eq, Debug)]
pub struct Grid {
    cells: [Option<CellValue>; 81],
}

impl View for Grid {
    type V = Seq<Option<CellValue>>;

    closed spec fn view(&self) -> Seq<Option<CellValue>> {
        self.cells@
    }
}

impl Grid {
    #[verifier::type_invariant]
    pub open spec fn inv(self) -> bool {
        grid_wf(self@)
    }

    /// The empty grid.
    pub fn new() -> (g: Grid)
        ensures
            g@.len() == 81,
            forall|i: int| 0 <= i < 81 ==> (#[trigger] g@[i]) is None,
    {
        Grid { cells: [None; 81] }
    }

    /// Read the cell at (row, col).
    pub fn get(&self, row: usize, col: usize) -> (c: Option<CellValue>)
        requires
            row < 9,
            col < 9,
        ensures
            c == self@[cell_index(row as int, col as int)],
    {
        self.cells[row * 9 + col]
    }

    /// A copy of this grid with the cell at (row, col) set to `value`.
    pub fn with_cell(self, row: usize, col: usize, value: CellValue) -> (g: Grid)
        requires
            row < 9,
            col < 9,
        ensures
            g@ == self@.update(cell_index(row as int, col as int), Some(value)),
    {
        proof {
            use_type_invariant(&self);
            use_type_invariant(&value);
        }
        let mut cells = self.cells;
        cells[row * 9 + col] = Some(value);
        Grid { cells }
    }
}

impl Grid {
    /// The position of the first unfilled cell in row-major order, if any.
    pub fn first_unfilled(&self) -> (r: Option<(usize, usize)>)
        ensures
            r matches Some(p) ==> p.0 < 9 && p.1 < 9 && self@[cell_index(p.0 as int, p.1 as int)]
                is None && (forall|j: int|
                0 <= j < cell_index(p.0 as int, p.1 as int) ==> (#[trigger] self@[j]) is Some),
            r is None ==> complete(self@),
    {
        proof {
            use_type_invariant(self);
        }
        let mut i: usize = 0;
        while i < 81
            invariant
                i <= 81,
                self@.len() == 81,
                forall|j: int| 0 <= j < i ==> (#[trigger] self@[j]) is Some,
            decreases 81 - i,
        {
            if self.cells[i].is_none() {
                let row: usize = i / 9;
                let col: usize = i % 9;
                proof {
                    assert(cell_index(row as int, col as int) == i as int);
                }
                return Some((row, col));
            }
            i = i + 1;
        }
        None
    }
}

/// A digit is in the neighborhood of a cell exactly when some position
/// sharing a row, column, or box with the cell holds it.
pub proof fn lemma_neighborhood_same_unit(g: Seq<Option<CellValue>>, row: int, col: int, d: int)
    requires
        0 <= row < 9,
        0 <= col < 9,
    ensures
        in_neighborhood(g, row, col, d) <==> (exists|r2: int, c2: int|
            0 <= r2 < 9 && 0 <= c2 < 9 && same_unit(row, col, r2, c2) && digit_at(g, r2, c2, d)),
{
    if in_neighborhood(g, row, col, d) {
        if digit_in_row(g, row, d) {
            let c2 = choose|c: int| 0 <= c < 9 && digit_at(g, row, c, d);
            assert(0 <= row < 9 && 0 <= c2 < 9 && same_unit(row, col, row, c2) && digit_at(
                g,
                row,
                c2,
                d,
            ));
        } else if digit_in_col(g, col, d) {
            let r2 = choose|r: int| 0 <= r < 9 && digit_at(g, r, col, d);
            assert(0 <= r2 < 9 && 0 <= col < 9 && same_unit(row, col, r2, col) && digit_at(
                g,
                r2,
                col,
                d,
            ));
        } else {
            let (r2, c2) = choose|r2: int, c2: int|
                0 <= r2 < 9 && 0 <= c2 < 9 && box_start(r2) == box_start(row) && box_start(c2)
                    == box_start(col) && digit_at(g, r2, c2, d);
            assert(0 <= r2 < 9 && 0 <= c2 < 9 && same_unit(row, col, r2, c2) && digit_at(
                g,
                r2,
                c2,
                d,
            ));
        }
    }
    if exists|r2: int, c2: int|
        0 <= r2 < 9 && 0 <= c2 < 9 && same_unit(row, col, r2, c2) && digit_at(g, r2, c2, d) {
        let (r2, c2) = choose|r2: int, c2: int|
            0 <= r2 < 9 && 0 <= c2 < 9 && same_unit(row, col, r2, c2) && digit_at(g, r2, c2, d);
        if r2 == row {
            assert(digit_in_row(g, row, d));
        } else if c2 == col {
            assert(digit_in_col(g, col, d));
        } else {
            assert(digit_in_box(g, row, col, d));
        }
    }
}

/// Placing a digit absent from a cell's neighborhood into that unfilled
/// cell keeps the grid consistent.
pub proof fn lemma_consistent_set(g: Seq<Option<CellValue>>, row: int, col: int, v: CellValue)
    requires
        g.len() == 81,
        consistent(g),
        0 <= row < 9,
        0 <= col < 9,
        g[cell_index(row, col)] is None,
        !in_neighborhood(g, row, col, v.value()),
    ensures
        consistent(g.update(cell_index(row, col), Some(v))),
{
    let g2 = g.update(cell_index(row, col), Some(v));
    lemma_neighborhood_same_unit(g, row, col, v.value());
    assert forall|r1: int, c1: int, r2: int, c2: int|
        0 <= r1 < 9 && 0 <= c1 < 9 && 0 <= r2 < 9 && 0 <= c2 < 9 && !(r1 == r2 && c1 == c2)
            && same_unit(r1, c1, r2, c2) implies !(#[trigger] g2[cell_index(r1, c1)] matches Some(
        v1,
    ) && #[trigger] g2[cell_index(r2, c2)] matches Some(v2) && v1 == v2) by {
        if r1 == row && c1 == col {
            if g2[cell_index(r2, c2)] matches Some(v2) && v2 == v {
                assert(cell_index(r2, c2) != cell_index(row, col));
                assert(digit_at(g, r2, c2, v.value()));
                assert(false);
            }
        } else if r2 == row && c2 == col {
            if g2[cell_index(r1, c1)] matches Some(v1) && v1 == v {
                assert(cell_index(r1, c1) != cell_index(row, col));
                assert(digit_at(g, r1, c1, v.value()));
                assert(false);
            }
        } else {
            assert(g2[cell_index(r1, c1)] == g[cell_index(r1, c1)]);
            assert(g2[cell_index(r2, c2)] == g[cell_index(r2, c2)]);
        }
    }
}

/// True exactly when the grid has no unfilled cell. Completeness is the
/// solver's sole termination predicate.
pub fn is_solved(grid: &Grid) -> (b: bool)
    ensures
        b == complete(grid@),
{
    proof {
        use_type_invariant(grid);
    }
    let mut i: usize = 0;
    while i < 81
        invariant
            i <= 81,
            grid@.len() == 81,
            forall|j: int| 0 <= j < i ==> (#[trigger] grid@[j]) is Some,
        decreases 81 - i,
    {
        if grid.cells[i].is_none() {
            return false;
        }
        i = i + 1;
    }
    true
}

/// The first and one-past-last index of the 3-wide band containing `index`.
pub fn get_box_indices(index: usize) -> (r: (usize, usize))
    ensures
        r.0 as int == box_start(index as int),
        r.1 == r.0 + 3,
{
    if index < 3 {
        (0, 3)
    } else if index < 6 {
        (3, 6)
    } else {
        (6, 9)
    }
}

/// The filled values of the box containing (row, col), scanned so far: the
/// first `k` box cells in row-major order.
pub open spec fn box_values_upto(
    g: Seq<Option<CellValue>>,
    row: int,
    col: int,
    k: int,
) -> Seq<CellValue>
    decreases k,
{
    if k <= 0 {
        Seq::empty()
    } else {
        box_values_upto(g, row, col, k - 1) + match g[cell_index(
            box_start(row) + (k - 1) / 3,
            box_start(col) + (k - 1) % 3,
        )] {
            Some(v) => seq![v],
            None => Seq::empty(),
        }
    }
}

/// The values already placed in the 3-by-3 box containing (row, col), in
/// row-major order.
pub fn get_box_values(grid: &Grid, row_index: usize, column_index: usize) -> (r: Vec<CellValue>)
    requires
        row_index < 9,
        column_index < 9,
    ensures
        r@ == box_values_upto(grid@, row_index as int, column_index as int, 9),
{
    proof {
        use_type_invariant(grid);
    }
    let (box_start_row, _) = get_box_indices(row_index);
    let (box_start_column, _) = get_box_indices(column_index);
    let mut values: Vec<CellValue> = Vec::new();
    let mut k: usize = 0;
    while k < 9
        invariant
            k <= 9,
            grid@.len() == 81,
            box_start_row as int == box_start(row_index as int),
            box_start_column as int == box_start(column_index as int),
            values@ == box_values_upto(grid@, row_index as int, column_index as int, k as int),
        decreases 9 - k,
    {
        let r: usize = box_start_row + k / 3;
        let c: usize = box_start_column + k % 3;
        if let Some(v) = grid.cells[r * 9 + c] {
            values.push(v);
        }
        k = k + 1;
    }
    values
}

/// Digit `d` appears in row `row` among the first `n` columns.
spec fn digit_in_row_upto(g: Seq<Option<CellValue>>, row: int, d: int, n: int) -> bool {
    exists|c: int| 0 <= c < n && digit_at(g, row, c, d)
}

/// Digit `d` appears in column `col` among the first `n` rows.
spec fn digit_in_col_upto(g: Seq<Option<CellValue>>, col: int, d: int, n: int) -> bool {
    exists|r: int| 0 <= r < n && digit_at(g, r, col, d)
}

/// Digit `d` appears among the first `n` cells, in row-major order, of the
/// box containing (row, col).
spec fn digit_in_box_upto(g: Seq<Option<CellValue>>, row: int, col: int, d: int, n: int) -> bool {
    exists|r2: int, c2: int|
        0 <= r2 < 9 && 0 <= c2 < 9 && box_start(r2) == box_start(row) && box_start(c2) == box_start(
            col,
        ) && (r2 - box_start(row)) * 3 + (c2 - box_start(col)) < n && digit_at(g, r2, c2, d)
}

/// The candidate set for the cell at (row, col): entry `d - 1` holds the
/// digit `d` exactly when `d` is absent from the cell's row, column, and box.
pub fn get_possible_values(grid: &Grid, row_index: usize, column_index: usize) -> (r: [Option<
    CellValue,
>; 9])
    requires
        row_index < 9,
        column_index < 9,
    ensures
        forall|j: int|
            0 <= j < 9 ==> (((#[trigger] r@[j]) is Some) <==> !in_neighborhood(
                grid@,
                row_index as int,
                column_index as int,
                j + 1,
            )),
        forall|j: int| 0 <= j < 9 ==> ((#[trigger] r@[j]) matches Some(v) ==> v == spec_digit(j + 1)),
{
    let ghost g = grid@;
    let ghost row = row_index as int;
    let ghost col = column_index as int;
    proof {
        use_type_invariant(grid);
    }
    // Start from all nine digits unseen.
    let mut unseen: [Option<CellValue>; 9] = [None; 9];
    let mut k: usize = 0;
    while k < 9
        invariant
            k <= 9,
            forall|j: int| 0 <= j < k ==> (#[trigger] unseen@[j]) == Some(spec_digit(j + 1)),
        decreases 9 - k,
    {
        unseen[k] = Some(digit((k + 1) as u8));
        k = k + 1;
    }
    // Check the row.
    let mut j: usize = 0;
    while j < 9
        invariant
            j <= 9,
            g == grid@,
            g.len() == 81,
            row_index < 9,
            row == row_index as int,
            forall|n: int|
                0 <= n < 9 ==> (((#[trigger] unseen@[n]) is Some) <==> !digit_in_row_upto(
                    g,
                    row,
                    n + 1,
                    j as int,
                )),
            forall|n: int|
                0 <= n < 9 ==> ((#[trigger] unseen@[n]) matches Some(v) ==> v == spec_digit(n + 1)),
        decreases 9 - j,
    {
        if let Some(v) = grid.cells[row_index * 9 + j] {
            proof {
                assert(digit_at(g, row, j as int, v.value()));
            }
            let idx: usize = (v.get() - 1) as usize;
            unseen[idx] = None;
        }
        j = j + 1;
    }
    // Check the column.
    let mut j: usize = 0;
    while j < 9
        invariant
            j <= 9,
            g == grid@,
            g.len() == 81,
            row_index < 9,
            column_index < 9,
            row == row_index as int,
            col == column_index as int,
            forall|n: int|
                0 <= n < 9 ==> (((#[trigger] unseen@[n]) is Some) <==> !(digit_in_row(
                    g,
                    row,
                    n + 1,
                ) || digit_in_col_upto(g, col, n + 1, j as int))),
            forall|n: int|
                0 <= n < 9 ==> ((#[trigger] unseen@[n]) matches Some(v) ==> v == spec_digit(n + 1)),
        decreases 9 - j,
    {
        if let Some(v) = grid.cells[j * 9 + column_index] {
            proof {
                assert(digit_at(g, j as int, col, v.value()));
            }
            let idx: usize = (v.get() - 1) as usize;
            unseen[idx] = None;
        }
        j = j + 1;
    }
    // Check the box.
    let (box_start_row, _) = get_box_indices(row_index);
    let (box_start_column, _) = get_box_indices(column_index);
    let mut k: usize = 0;
    while k < 9
        invariant
            k <= 9,
            g == grid@,
            g.len() == 81,
            row_index < 9,
            column_index < 9,
            row == row_index as int,
            col == column_index as int,
            box_start_row as int == box_start(row),
            box_start_column as int == box_start(col),
            forall|n: int|
                0 <= n < 9 ==> (((#[trigger] unseen@[n]) is Some) <==> !(digit_in_row(
                    g,
                    row,
                    n + 1,
                ) || digit_in_col(g, col, n + 1) || digit_in_box_upto(g, row, col, n + 1, k as int))),
            forall|n: int|
                0 <= n < 9 ==> ((#[trigger] unseen@[n]) matches Some(v) ==> v == spec_digit(n + 1)),
        decreases 9 - k,
    {
        let r2: usize = box_start_row + k / 3;
        let c2: usize = box_start_column + k % 3;
        if let Some(v) = grid.cells[r2 * 9 + c2] {
            proof {
                assert(box_start(r2 as int) == box_start(row));
                assert(box_start(c2 as int) == box_start(col));
                assert((r2 as int - box_start(row)) * 3 + (c2 as int - box_start(col)) == k as int);
                assert(digit_at(g, r2 as int, c2 as int, v.value()));
            }
            let idx: usize = (v.get() - 1) as usize;
            unseen[idx] = None;
        }
        proof {
            assert forall|d: int|
                1 <= d <= 9 && digit_in_box_upto(g, row, col, d, k + 1) && !digit_in_box_upto(
                    g,
                    row,
                    col,
                    d,
                    k as int,
                ) implies digit_at(g, r2 as int, c2 as int, d) by {
                let (ra, ca) = choose|ra: int, ca: int|
                    0 <= ra < 9 && 0 <= ca < 9 && box_start(ra) == box_start(row) && box_start(ca)
                        == box_start(col) && (ra - box_start(row)) * 3 + (ca - box_start(col)) < k
                        + 1 && digit_at(g, ra, ca, d);
                assert((ra - box_start(row)) * 3 + (ca - box_start(col)) == k as int);
                assert(ra == r2 as int && ca == c2 as int);
            }
        }
        k = k + 1;
    }
    proof {
        assert forall|d: int| 1 <= d <= 9 implies (digit_in_box_upto(g, row, col, d, 9)
            <==> digit_in_box(g, row, col, d)) by {
            if digit_in_box(g, row, col, d) {
                let (ra, ca) = choose|ra: int, ca: int|
                    0 <= ra < 9 && 0 <= ca < 9 && box_start(ra) == box_start(row) && box_start(ca)
                        == box_start(col) && digit_at(g, ra, ca, d);
                assert((ra - box_start(row)) * 3 + (ca - box_start(col)) < 9);
            }
        }
    }
    unseen
}

} // verus!
