use vstd::prelude::*;
use crate::cell_value::CellValue;
use crate::cell_value::spec_digit;
use crate::cell_value::lemma_spec_digit_value;
use crate::cell_value::lemma_value_injective;
use crate::grid::Grid;
use crate::grid::cell_index;
use crate::grid::grid_wf;
use crate::grid::complete;
use crate::grid::consistent;
use crate::grid::extends;
use crate::grid::in_neighborhood;
use crate::grid::digit_at;
use crate::grid::same_unit;
use crate::grid::get_possible_values;
use crate::grid::is_solved;
use crate::grid::lemma_neighborhood_same_unit;
use crate::grid::lemma_consistent_set;

verus! {

/// Why a solve returned no grid.
#[derive(Clone, Copy, Debug, PartialEq, Eq, Structural)]
pub enum SolveError {
    /// The search frontier was exhausted before a complete grid appeared.
    Unsolvable,
}

/// A full solution of puzzle `g0`: a complete, consistent grid of digits
/// that keeps every cell already filled in `g0`.
pub open spec fn is_solution(g0: Seq<Option<CellValue>>, s: Seq<Option<CellValue>>) -> bool {
    grid_wf(s) && complete(s) && consistent(s) && extends(g0, s)
}

spec fn pow10(n: nat) -> nat
    decreases n,
{
    if n == 0 {
        1
    } else {
        10 * pow10((n - 1) as nat)
    }
}

proof fn lemma_pow10_pos(n: nat)
    ensures
        pow10(n) >= 1,
    decreases n,
{
    if n > 0 {
        lemma_pow10_pos((n - 1) as nat);
    }
}

/// How many of the first `k` cells are unfilled.
spec fn empties_upto(g: Seq<Option<CellValue>>, k: int) -> nat
    decreases k,
{
    if k <= 0 {
        0
    } else {
        empties_upto(g, k - 1) + if g[k - 1] is None {
            1nat
        } else {
            0nat
        }
    }
}

spec fn empties(g: Seq<Option<CellValue>>) -> nat {
    empties_upto(g, 81)
}

proof fn lemma_empties_update(g: Seq<Option<CellValue>>, i: int, v: CellValue, k: int)
    requires
        g.len() == 81,
        0 <= i < 81,
        g[i] is None,
        0 <= k <= 81,
    ensures
        empties_upto(g, k) == empties_upto(g.update(i, Some(v)), k) + if i < k {
            1int
        } else {
            0int
        },
    decreases k,
{
    if k > 0 {
        lemma_empties_update(g, i, v, k - 1);
    }
}

/// The solver's termination measure. A branch with `e` unfilled cells is
/// worth ten to the `e`; it can spawn at most nine branches worth ten to
/// the `e - 1` each, so every step of the search shrinks the total.
spec fn stack_measure(s: Seq<Grid>) -> nat
    decreases s.len(),
{
    if s.len() == 0 {
        0
    } else {
        stack_measure(s.drop_last()) + pow10(empties(s.last()@))
    }
}

proof fn lemma_stack_measure_push(s: Seq<Grid>, g: Grid)
    ensures
        stack_measure(s.push(g)) == stack_measure(s) + pow10(empties(g@)),
{
    assert(s.push(g).drop_last() =~= s);
    assert(s.push(g).last() == g);
}

/// The digit a complete grid holds at cell `i` (zero if the cell is empty).
spec fn cell_digit(s: Seq<Option<CellValue>>, i: int) -> int {
    match s[i] {
        Some(v) => v.value(),
        None => 0,
    }
}

/// Any solution extending a grid with an unfilled cell must put a digit
/// there that the cell's neighborhood does not already hold.
proof fn lemma_solution_digit_is_candidate(
    gw: Seq<Option<CellValue>>,
    row: int,
    col: int,
    s: Seq<Option<CellValue>>,
)
    requires
        gw.len() == 81,
        0 <= row < 9,
        0 <= col < 9,
        gw[cell_index(row, col)] is None,
        grid_wf(s),
        complete(s),
        consistent(s),
        extends(gw, s),
    ensures
        1 <= cell_digit(s, cell_index(row, col)) <= 9,
        !in_neighborhood(gw, row, col, cell_digit(s, cell_index(row, col))),
        s[cell_index(row, col)] == Some(spec_digit(cell_digit(s, cell_index(row, col)))),
{
    let ci = cell_index(row, col);
    assert(s[ci] is Some);
    let w = match s[ci] {
        Some(x) => x,
        None => spec_digit(1),
    };
    let d = w.value();
    lemma_spec_digit_value(d);
    lemma_value_injective(w, spec_digit(d));
    if in_neighborhood(gw, row, col, d) {
        lemma_neighborhood_same_unit(gw, row, col, d);
        let (r2, c2) = choose|r2: int, c2: int|
            0 <= r2 < 9 && 0 <= c2 < 9 && same_unit(row, col, r2, c2) && digit_at(gw, r2, c2, d);
        let i2 = cell_index(r2, c2);
        assert(i2 != ci);
        assert(s[i2] == gw[i2]);
        let u = match s[i2] {
            Some(x) => x,
            None => spec_digit(1),
        };
        lemma_value_injective(u, w);
        assert(!(s[cell_index(row, col)] matches Some(v1) && s[cell_index(r2, c2)] matches Some(v2)
            && v1 == v2));
        assert(false);
    }
}

/// The position of the first unfilled cell at or after `i` (81 if none).
pub open spec fn first_empty_from(g: Seq<Option<CellValue>>, i: int) -> int
    decreases 81 - i when 0 <= i <= 81
{
    if i >= 81 {
        81
    } else if g[i] is None {
        i
    } else {
        first_empty_from(g, i + 1)
    }
}

/// The first unfilled cell of the grid, in row-major order.
pub open spec fn first_empty(g: Seq<Option<CellValue>>) -> int {
    first_empty_from(g, 0)
}

proof fn lemma_first_empty_at(g: Seq<Option<CellValue>>, k: int, i: int)
    requires
        0 <= k <= i < 81,
        forall|j: int| k <= j < i ==> (#[trigger] g[j]) is Some,
        g[i] is None,
    ensures
        first_empty_from(g, k) == i,
    decreases i - k,
{
    if k < i {
        lemma_first_empty_at(g, k + 1, i);
    }
}

proof fn lemma_first_empty_incomplete(g: Seq<Option<CellValue>>, k: int)
    requires
        g.len() == 81,
        !complete(g),
        0 <= k <= 81,
        forall|j: int| 0 <= j < k ==> (#[trigger] g[j]) is Some,
    ensures
        k <= first_empty_from(g, k) < 81,
        g[first_empty_from(g, k)] is None,
    decreases 81 - k,
{
    if k == 81 {
        assert(complete(g));
    } else if g[k] is Some {
        lemma_first_empty_incomplete(g, k + 1);
    }
}

/// The branches a grid spawns at cell `idx`: one copy per candidate digit
/// of [1, d], in ascending order, so the largest ends nearest the top of
/// a stack they are pushed onto.
pub open spec fn branches_upto(g: Seq<Option<CellValue>>, idx: int, d: int) -> Seq<
    Seq<Option<CellValue>>,
>
    decreases d,
{
    if d <= 0 {
        Seq::empty()
    } else {
        branches_upto(g, idx, d - 1) + if !in_neighborhood(g, idx / 9, idx % 9, d) {
            seq![g.update(idx, Some(spec_digit(d)))]
        } else {
            Seq::empty()
        }
    }
}

/// Every frontier entry is a grid of 81 cells.
pub open spec fn frontier_wf(s: Seq<Seq<Option<CellValue>>>) -> bool {
    forall|i: int| 0 <= i < s.len() ==> (#[trigger] s[i]).len() == 81
}

/// The termination measure of a frontier of grid snapshots.
pub closed spec fn vmeasure(s: Seq<Seq<Option<CellValue>>>) -> nat
    decreases s.len(),
{
    if s.len() == 0 {
        0
    } else {
        vmeasure(s.drop_last()) + pow10(empties(s.last()))
    }
}

proof fn lemma_vmeasure_concat(a: Seq<Seq<Option<CellValue>>>, b: Seq<Seq<Option<CellValue>>>)
    ensures
        vmeasure(a + b) == vmeasure(a) + vmeasure(b),
    decreases b.len(),
{
    if b.len() == 0 {
        assert(a + b =~= a);
    } else {
        lemma_vmeasure_concat(a, b.drop_last());
        assert((a + b).drop_last() =~= a + b.drop_last());
        assert((a + b).last() == b.last());
    }
}

proof fn lemma_branches(g: Seq<Option<CellValue>>, idx: int, d: int)
    requires
        g.len() == 81,
        0 <= idx < 81,
        g[idx] is None,
        0 <= d <= 9,
    ensures
        frontier_wf(branches_upto(g, idx, d)),
        vmeasure(branches_upto(g, idx, d)) <= d * (pow10((empties(g) - 1) as nat) as int),
    decreases d,
{
    let p = pow10((empties(g) - 1) as nat) as int;
    if d > 0 {
        lemma_branches(g, idx, d - 1);
        if !in_neighborhood(g, idx / 9, idx % 9, d) {
            let child = g.update(idx, Some(spec_digit(d)));
            lemma_empties_update(g, idx, spec_digit(d), 81);
            lemma_vmeasure_concat(branches_upto(g, idx, d - 1), seq![child]);
            assert(seq![child].drop_last() =~= Seq::<Seq<Option<CellValue>>>::empty());
            assert(vmeasure(Seq::<Seq<Option<CellValue>>>::empty()) == 0);
            assert(vmeasure(seq![child]) == pow10(empties(child)));
        } else {
            assert(branches_upto(g, idx, d) =~= branches_upto(g, idx, d - 1));
        }
        assert((d - 1) * p + p == d * p) by (nonlinear_arith);
    }
}

#[via_fn]
proof fn spec_search_decreases(stack: Seq<Seq<Option<CellValue>>>) {
    if stack.len() > 0 {
        let g = stack.last();
        if !complete(g) {
            lemma_first_empty_incomplete(g, 0);
            let idx = first_empty(g);
            lemma_empties_update(g, idx, spec_digit(1), 81);
            let e = empties(g);
            lemma_pow10_pos((e - 1) as nat);
            lemma_branches(g, idx, 9);
            let rest = stack.drop_last();
            lemma_vmeasure_concat(rest, branches_upto(g, idx, 9));
            assert(pow10(e) == 10 * pow10((e - 1) as nat));
            assert(frontier_wf(rest + branches_upto(g, idx, 9)));
        }
    }
}

/// The grid the depth-first search returns from a frontier of snapshots:
/// the most recent entry is inspected first; a complete grid is the
/// result; an incomplete one is replaced by its branches at the first
/// unfilled cell, pushed in ascending digit order (so the largest
/// candidate is tried first); an empty frontier yields nothing.
pub open spec fn spec_search(stack: Seq<Seq<Option<CellValue>>>) -> Option<Seq<Option<CellValue>>>
    decreases vmeasure(stack) when frontier_wf(stack) via spec_search_decreases
{
    if stack.len() == 0 {
        None
    } else {
        let g = stack.last();
        if complete(g) {
            Some(g)
        } else {
            spec_search(stack.drop_last() + branches_upto(g, first_empty(g), 9))
        }
    }
}

/// The one grid the solver's documented exploration order produces for a
/// puzzle, or nothing when the search space is exhausted.
pub open spec fn spec_solve(g: Seq<Option<CellValue>>) -> Option<Seq<Option<CellValue>>> {
    spec_search(seq![g])
}

/// The snapshots a stack of grids stands for.
spec fn views(s: Seq<Grid>) -> Seq<Seq<Option<CellValue>>> {
    s.map_values(|g: Grid| g@)
}

/// Drive a grid to a fully solved grid by constraint propagation and
/// depth-first backtracking over an explicit stack of grid snapshots.
///
/// A complete grid comes back unchanged at once. Otherwise the result is
/// the one grid `spec_solve` names — the first complete grid found
/// depth-first, branching on the row-major-first unfilled cell with the
/// largest candidate tried first — so it is complete, extends the input,
/// and is consistent whenever the input was; the search fails only when
/// the puzzle has no solution at all.
pub fn solve(grid: Grid) -> (r: Result<Grid, SolveError>)
    ensures
        r matches Ok(g) ==> complete(g@) && extends(grid@, g@) && grid_wf(g@),
        r matches Ok(g) ==> (consistent(grid@) ==> consistent(g@)),
        complete(grid@) ==> (r matches Ok(g) && g@ == grid@),
        r is Err ==> forall|s: Seq<Option<CellValue>>| !is_solution(grid@, s),
        consistent(grid@) ==> ((r is Err) <==> (forall|s: Seq<Option<CellValue>>|
            !is_solution(grid@, s))),
        r matches Ok(g) ==> spec_solve(grid@) == Some(g@),
        r is Err ==> spec_solve(grid@) is None,
{
    proof {
        use_type_invariant(&grid);
    }
    let mut grid_stack: Vec<Grid> = Vec::new();
    grid_stack.push(grid);
    proof {
        assert(views(grid_stack@) =~= seq![grid@]);
    }
    loop
        invariant
            grid_wf(grid@),
            frontier_wf(views(grid_stack@)),
            spec_search(views(grid_stack@)) == spec_solve(grid@),
            forall|i: int|
                0 <= i < grid_stack@.len() ==> extends(grid@, (#[trigger] grid_stack@[i])@),
            consistent(grid@) ==> (forall|i: int|
                0 <= i < grid_stack@.len() ==> consistent((#[trigger] grid_stack@[i])@)),
            complete(grid@) ==> grid_stack@.len() == 1 && grid_stack@[0] == grid,
            forall|s: Seq<Option<CellValue>>| #[trigger]
                is_solution(grid@, s) ==> exists|i: int|
                    0 <= i < grid_stack@.len() && extends(grid_stack@[i]@, s),
        decreases stack_measure(grid_stack@),
    {
        let ghost old_stack = grid_stack@;
        let working_grid = match grid_stack.pop() {
            Some(g) => g,
            None => {
                proof {
                    assert forall|s: Seq<Option<CellValue>>| !is_solution(grid@, s) by {
                        if is_solution(grid@, s) {
                            let i = choose|i: int|
                                0 <= i < old_stack.len() && extends(old_stack[i]@, s);
                        }
                    }
                    assert(views(grid_stack@) =~= Seq::<Seq<Option<CellValue>>>::empty());
                    assert(spec_search(views(grid_stack@)) is None);
                }
                return Err(SolveError::Unsolvable);
            },
        };
        proof {
            use_type_invariant(&working_grid);
            assert(old_stack.drop_last() =~= grid_stack@);
        }
        if is_solved(&working_grid) {
            proof {
                if consistent(grid@) {
                    assert(is_solution(grid@, working_grid@));
                }
                assert(views(old_stack).last() == working_grid@);
                assert(spec_search(views(old_stack)) == Some(working_grid@));
            }
            return Ok(working_grid);
        }
        let (row_index, column_index) = match working_grid.first_unfilled() {
            Some(p) => p,
            None => {
                proof {
                    if consistent(grid@) {
                        assert(is_solution(grid@, working_grid@));
                    }
                    assert(views(old_stack).last() == working_grid@);
                    assert(spec_search(views(old_stack)) == Some(working_grid@));
                }
                return Ok(working_grid);
            },
        };
        let ghost gw = working_grid@;
        let ghost row = row_index as int;
        let ghost col = column_index as int;
        let ghost ci = cell_index(row, col);
        let ghost e = empties(gw);
        let ghost m_pop = stack_measure(grid_stack@);
        let ghost p = pow10((e - 1) as nat) as int;
        proof {
            lemma_empties_update(gw, ci, spec_digit(1), 81);
            lemma_pow10_pos((e - 1) as nat);
            assert(e >= 1);
            assert(pow10(e) == 10 * p);
            assert(stack_measure(old_stack) == m_pop + pow10(e));
            assert(!complete(grid@));
        }
        let ghost m_before = stack_measure(old_stack);
        let ghost base_views = views(grid_stack@);
        proof {
            lemma_first_empty_at(gw, 0, ci);
            assert(ci / 9 == row && ci % 9 == col) by (nonlinear_arith)
                requires
                    ci == row * 9 + col,
                    0 <= row < 9,
                    0 <= col < 9,
            ;
            assert(base_views =~= views(old_stack).drop_last());
            assert(views(old_stack).last() == gw);
            assert(views(grid_stack@) =~= base_views + branches_upto(gw, ci, 0));
        }
        let possible_values = get_possible_values(&working_grid, row_index, column_index);
        proof {
            // after the pop, every solution is covered by a remaining entry
            // or extends the grid just popped
            assert forall|s: Seq<Option<CellValue>>| #[trigger]
                is_solution(grid@, s) implies ((exists|i: int|
                0 <= i < grid_stack@.len() && extends(grid_stack@[i]@, s)) || (extends(gw, s)
                && cell_digit(s, ci) > 0)) by {
                let i = choose|i: int| 0 <= i < old_stack.len() && extends(old_stack[i]@, s);
                if i < old_stack.len() - 1 {
                    assert(grid_stack@[i]@ == old_stack[i]@);
                    assert(extends(grid_stack@[i]@, s));
                } else {
                    assert(old_stack[i] == working_grid);
                    assert(extends(gw, s));
                    assert(s[ci] is Some);
                    assert(cell_digit(s, ci) >= 1);
                }
            }
        }
        let mut k: usize = 0;
        let ghost mut pushed: int = 0;
        while k < 9
            invariant
                k <= 9,
                0 <= pushed <= k,
                grid_wf(grid@),
                gw == working_grid@,
                gw.len() == 81,
                row == row_index as int,
                col == column_index as int,
                row_index < 9,
                column_index < 9,
                ci == cell_index(row, col),
                gw[ci] is None,
                !complete(grid@),
                e == empties(gw),
                e >= 1,
                p == pow10((e - 1) as nat) as int,
                p >= 1,
                pow10(e) == 10 * p,
                m_before == m_pop + pow10(e),
                extends(grid@, gw),
                consistent(grid@) ==> consistent(gw),
                forall|j: int|
                    0 <= j < 9 ==> (((#[trigger] possible_values@[j]) is Some)
                        <==> !in_neighborhood(gw, row, col, j + 1)),
                forall|j: int|
                    0 <= j < 9 ==> ((#[trigger] possible_values@[j]) matches Some(v) ==> v
                        == spec_digit(j + 1)),
                forall|i: int|
                    0 <= i < grid_stack@.len() ==> extends(grid@, (#[trigger] grid_stack@[i])@),
                consistent(grid@) ==> (forall|i: int|
                    0 <= i < grid_stack@.len() ==> consistent((#[trigger] grid_stack@[i])@)),
                stack_measure(grid_stack@) == m_pop + pushed * p,
                first_empty(gw) == ci,
                ci / 9 == row && ci % 9 == col,
                frontier_wf(views(grid_stack@)),
                views(grid_stack@) == base_views + branches_upto(gw, ci, k as int),
                base_views == views(old_stack).drop_last(),
                views(old_stack).len() == old_stack.len() >= 1,
                views(old_stack).last() == gw,
                frontier_wf(views(old_stack)),
                spec_search(views(old_stack)) == spec_solve(grid@),
                forall|s: Seq<Option<CellValue>>| #[trigger]
                    is_solution(grid@, s) ==> ((exists|i: int|
                        0 <= i < grid_stack@.len() && extends(grid_stack@[i]@, s)) || (extends(
                        gw,
                        s,
                    ) && cell_digit(s, ci) > k)),
            decreases 9 - k,
        {
            let ghost prev = grid_stack@;
            if let Some(v) = possible_values[k] {
                proof {
                    assert(possible_values@[k as int] is Some);
                    assert(v == spec_digit(k as int + 1));
                    lemma_spec_digit_value(k as int + 1);
                    lemma_empties_update(gw, ci, v, 81);
                }
                let new_grid = working_grid.with_cell(row_index, column_index, v);
                grid_stack.push(new_grid);
                proof {
                    lemma_stack_measure_push(prev, new_grid);
                    assert(empties(new_grid@) == e - 1);
                    assert((pushed + 1) * p == pushed * p + p) by (nonlinear_arith);
                    pushed = pushed + 1;
                    // the child still extends the input
                    assert forall|i: int|
                        0 <= i < gw.len() && (#[trigger] grid@[i]) is Some implies new_grid@[i]
                        == grid@[i] by {
                        assert(gw[i] == grid@[i]);
                        assert(i != ci);
                    }
                    assert(extends(grid@, new_grid@));
                    if consistent(grid@) {
                        lemma_consistent_set(gw, row, col, v);
                    }
                    // the frontier grows exactly as the search spec says
                    assert(!in_neighborhood(gw, ci / 9, ci % 9, k as int + 1));
                    assert(branches_upto(gw, ci, k as int + 1) =~= branches_upto(
                        gw,
                        ci,
                        k as int,
                    ).push(new_grid@));
                    assert(views(grid_stack@) =~= views(prev).push(new_grid@));
                    assert(views(grid_stack@) =~= base_views + branches_upto(gw, ci, k as int + 1));
                }
            } else {
                proof {
                    assert(in_neighborhood(gw, ci / 9, ci % 9, k as int + 1));
                    assert(branches_upto(gw, ci, k as int + 1) =~= branches_upto(gw, ci, k as int));
                }
            }
            proof {
                // every solution is still covered
                assert forall|s: Seq<Option<CellValue>>| #[trigger]
                    is_solution(grid@, s) implies ((exists|i: int|
                    0 <= i < grid_stack@.len() && extends(grid_stack@[i]@, s)) || (extends(gw, s)
                    && cell_digit(s, ci) > k + 1)) by {
                    if exists|i: int| 0 <= i < prev.len() && extends(prev[i]@, s) {
                        let i = choose|i: int| 0 <= i < prev.len() && extends(prev[i]@, s);
                        assert(grid_stack@[i]@ == prev[i]@);
                        assert(extends(grid_stack@[i]@, s));
                    } else {
                        assert(extends(gw, s) && cell_digit(s, ci) > k);
                        lemma_solution_digit_is_candidate(gw, row, col, s);
                        let d = cell_digit(s, ci);
                        if d == k as int + 1 {
                            assert(possible_values@[k as int] is Some);
                            let j = grid_stack@.len() - 1;
                            let child = grid_stack@[j];
                            assert(child@ == gw.update(ci, Some(spec_digit(d))));
                            assert forall|i: int|
                                0 <= i < child@.len() && (#[trigger] child@[i]) is Some implies s[i]
                                == child@[i] by {
                                if i != ci {
                                    assert(child@[i] == gw[i]);
                                }
                            }
                            assert(extends(child@, s));
                        }
                    }
                }
            }
            k = k + 1;
        }
        proof {
            assert(pushed * p <= 9 * p) by (nonlinear_arith)
                requires
                    pushed <= 9,
                    p >= 1,
            ;
            assert(stack_measure(grid_stack@) < m_before);
            assert(spec_search(views(old_stack)) == spec_search(
                views(old_stack).drop_last() + branches_upto(gw, first_empty(gw), 9),
            ));
            assert(views(old_stack).drop_last() + branches_upto(gw, ci, 9) =~= views(grid_stack@));
            assert(spec_search(views(grid_stack@)) == spec_solve(grid@));
            // at the end of the digit scan every solution is covered by the stack
            assert forall|s: Seq<Option<CellValue>>| #[trigger]
                is_solution(grid@, s) implies exists|i: int|
                0 <= i < grid_stack@.len() && extends(grid_stack@[i]@, s) by {
                if extends(gw, s) && cell_digit(s, ci) > 9 {
                    lemma_solution_digit_is_candidate(gw, row, col, s);
                }
            }
        }
    }
}

} // verus!
