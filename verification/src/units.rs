use vstd::prelude::*;
use vstd::set_lib::lemma_int_range;
use vstd::set_lib::lemma_len_subset;
use vstd::set_lib::set_int_range;
use crate::cell_value::CellValue;
use crate::cell_value::lemma_value_injective;
use crate::grid::box_start;
use crate::grid::cell_index;
use crate::grid::complete;
use crate::grid::consistent;
use crate::grid::digit_at;
use crate::grid::digit_in_row;
use crate::grid::digit_in_col;
use crate::grid::digit_in_box;
use crate::grid::grid_wf;
use crate::grid::same_unit;

verus! {

broadcast use vstd::set::group_set_axioms;

/// Nine pairwise distinct values drawn from the nine digits must use every
/// digit.
proof fn lemma_pigeonhole_digits(vals: Seq<int>)
    requires
        vals.len() == 9,
        forall|i: int| 0 <= i < 9 ==> 1 <= #[trigger] vals[i] <= 9,
        forall|i: int, j: int| 0 <= i < 9 && 0 <= j < 9 && i != j ==> vals[i] != vals[j],
    ensures
        forall|d: int| 1 <= d <= 9 ==> vals.contains(d),
{
    assert(vals.no_duplicates());
    vals.unique_seq_to_set();
    let st = vals.to_set();
    assert forall|d: int| 1 <= d <= 9 implies vals.contains(d) by {
        if !vals.contains(d) {
            lemma_int_range(1, 10);
            let big = set_int_range(1, 10).remove(d);
            assert(st.subset_of(big)) by {
                assert forall|x: int| st.contains(x) implies big.contains(x) by {
                    assert(vals.contains(x));
                    let i = choose|i: int| 0 <= i < vals.len() && vals[i] == x;
                }
            }
            lemma_len_subset(st, big);
            assert(big.len() == 8);
            assert(false);
        }
    }
}

/// The digit the (complete) grid holds at (row, col).
spec fn value_at(g: Seq<Option<CellValue>>, row: int, col: int) -> int {
    match g[cell_index(row, col)] {
        Some(v) => v.value(),
        None => 0,
    }
}

/// Distinct same-unit cells of a consistent grid hold distinct digits.
proof fn lemma_unit_values_distinct(
    g: Seq<Option<CellValue>>,
    r1: int,
    c1: int,
    r2: int,
    c2: int,
)
    requires
        consistent(g),
        complete(g),
        g.len() == 81,
        0 <= r1 < 9,
        0 <= c1 < 9,
        0 <= r2 < 9,
        0 <= c2 < 9,
        !(r1 == r2 && c1 == c2),
        same_unit(r1, c1, r2, c2),
    ensures
        value_at(g, r1, c1) != value_at(g, r2, c2),
{
    assert(g[cell_index(r1, c1)] is Some);
    assert(g[cell_index(r2, c2)] is Some);
    let v1 = match g[cell_index(r1, c1)] {
        Some(v) => v,
        None => crate::cell_value::spec_digit(1),
    };
    let v2 = match g[cell_index(r2, c2)] {
        Some(v) => v,
        None => v1,
    };
    if v1.value() == v2.value() {
        lemma_value_injective(v1, v2);
        assert(false);
    }
}

/// In a complete, consistent grid of digits, every row, every column, and
/// every 3-by-3 box holds each digit 1 through 9 exactly once: once at
/// least, by the statements below, and at most once since two same-unit
/// cells never agree.
pub proof fn lemma_solved_units(g: Seq<Option<CellValue>>)
    requires
        grid_wf(g),
        complete(g),
        consistent(g),
    ensures
        forall|r: int, d: int| 0 <= r < 9 && 1 <= d <= 9 ==> #[trigger] digit_in_row(g, r, d),
        forall|c: int, d: int| 0 <= c < 9 && 1 <= d <= 9 ==> #[trigger] digit_in_col(g, c, d),
        forall|r: int, c: int, d: int|
            0 <= r < 9 && 0 <= c < 9 && 1 <= d <= 9 ==> #[trigger] digit_in_box(g, r, c, d),
        forall|r1: int, c1: int, r2: int, c2: int, d: int|
            0 <= r1 < 9 && 0 <= c1 < 9 && 0 <= r2 < 9 && 0 <= c2 < 9 && same_unit(r1, c1, r2, c2)
                && digit_at(g, r1, c1, d) && digit_at(g, r2, c2, d) ==> r1 == r2 && c1 == c2,
{
    // at most once
    assert forall|r1: int, c1: int, r2: int, c2: int, d: int|
        0 <= r1 < 9 && 0 <= c1 < 9 && 0 <= r2 < 9 && 0 <= c2 < 9 && same_unit(r1, c1, r2, c2)
            && digit_at(g, r1, c1, d) && digit_at(g, r2, c2, d) implies r1 == r2 && c1 == c2 by {
        if !(r1 == r2 && c1 == c2) {
            lemma_unit_values_distinct(g, r1, c1, r2, c2);
        }
    }
    // each row holds each digit
    assert forall|r: int, d: int| 0 <= r < 9 && 1 <= d <= 9 implies #[trigger] digit_in_row(
        g,
        r,
        d,
    ) by {
        let vals = Seq::new(9, |c: int| value_at(g, r, c));
        assert forall|i: int| 0 <= i < 9 implies 1 <= #[trigger] vals[i] <= 9 by {
            assert(g[cell_index(r, i)] is Some);
            assert(g[cell_index(r, i)] matches Some(v) ==> v.wf());
        }
        assert forall|i: int, j: int| 0 <= i < 9 && 0 <= j < 9 && i != j implies vals[i]
            != vals[j] by {
            lemma_unit_values_distinct(g, r, i, r, j);
        }
        lemma_pigeonhole_digits(vals);
        assert(vals.contains(d));
        let c = choose|c: int| 0 <= c < vals.len() && vals[c] == d;
        assert(digit_at(g, r, c, d));
    }
    // each column holds each digit
    assert forall|c: int, d: int| 0 <= c < 9 && 1 <= d <= 9 implies #[trigger] digit_in_col(
        g,
        c,
        d,
    ) by {
        let vals = Seq::new(9, |r: int| value_at(g, r, c));
        assert forall|i: int| 0 <= i < 9 implies 1 <= #[trigger] vals[i] <= 9 by {
            assert(g[cell_index(i, c)] is Some);
            assert(g[cell_index(i, c)] matches Some(v) ==> v.wf());
        }
        assert forall|i: int, j: int| 0 <= i < 9 && 0 <= j < 9 && i != j implies vals[i]
            != vals[j] by {
            lemma_unit_values_distinct(g, i, c, j, c);
        }
        lemma_pigeonhole_digits(vals);
        assert(vals.contains(d));
        let r = choose|r: int| 0 <= r < vals.len() && vals[r] == d;
        assert(digit_at(g, r, c, d));
    }
    // each box holds each digit
    assert forall|r: int, c: int, d: int|
        0 <= r < 9 && 0 <= c < 9 && 1 <= d <= 9 implies #[trigger] digit_in_box(g, r, c, d) by {
        let br = box_start(r);
        let bc = box_start(c);
        let vals = Seq::new(9, |k: int| value_at(g, br + k / 3, bc + k % 3));
        assert forall|i: int| 0 <= i < 9 implies 1 <= #[trigger] vals[i] <= 9 by {
            assert(0 <= br + i / 3 < 9 && 0 <= bc + i % 3 < 9);
            assert(g[cell_index(br + i / 3, bc + i % 3)] is Some);
            assert(g[cell_index(br + i / 3, bc + i % 3)] matches Some(v) ==> v.wf());
        }
        assert forall|i: int, j: int| 0 <= i < 9 && 0 <= j < 9 && i != j implies vals[i]
            != vals[j] by {
            assert(box_start(br + i / 3) == br && box_start(br + j / 3) == br);
            assert(box_start(bc + i % 3) == bc && box_start(bc + j % 3) == bc);
            assert(!(br + i / 3 == br + j / 3 && bc + i % 3 == bc + j % 3));
            lemma_unit_values_distinct(g, br + i / 3, bc + i % 3, br + j / 3, bc + j % 3);
        }
        lemma_pigeonhole_digits(vals);
        assert(vals.contains(d));
        let k = choose|k: int| 0 <= k < vals.len() && vals[k] == d;
        assert(box_start(br + k / 3) == box_start(r) && box_start(bc + k % 3) == box_start(c));
        assert(digit_at(g, br + k / 3, bc + k % 3, d));
    }
}

} // verus!
