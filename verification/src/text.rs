use vstd::prelude::*;
use vstd::string::StrSliceExecFns;
use vstd::string::StringExecFns;
use crate::cell_value::CellValue;
use crate::cell_value::spec_digit;
use crate::cell_value::spec_from_str;
use crate::cell_value::token_value;
use crate::cell_value::token_numeric;
use crate::cell_value::token_is_numeric;
use crate::cell_value::lemma_digits_value_nonneg;
use crate::cell_value::numeric_part;
use crate::cell_value::all_digits;
use crate::cell_value::digits_value;
use crate::cell_value::parse_token;
use crate::cell_value::digit;
use crate::grid::Grid;
use crate::grid::cell_index;
use crate::grid::grid_wf;

verus! {

/// Why an input text does not denote a grid.
#[derive(Clone, Copy, Debug, PartialEq, Eq, Structural)]
pub enum InputError {
    /// A token is numeric but names a value outside [1, 9].
    ValueOutOfRange,
    /// A line does not hold exactly nine tokens.
    WrongValueCount,
}

// ---------------------------------------------------------------------------
// Rendering
// ---------------------------------------------------------------------------
/// The character a digit is written as.
pub open spec fn digit_char(d: int) -> char {
    if d == 1 {
        '1'
    } else if d == 2 {
        '2'
    } else if d == 3 {
        '3'
    } else if d == 4 {
        '4'
    } else if d == 5 {
        '5'
    } else if d == 6 {
        '6'
    } else if d == 7 {
        '7'
    } else if d == 8 {
        '8'
    } else if d == 9 {
        '9'
    } else {
        '_'
    }
}

/// The character a cell is written as: its digit, or an underscore.
pub open spec fn render_cell(c: Option<CellValue>) -> char {
    match c {
        Some(v) => digit_char(v.value()),
        None => '_',
    }
}

/// The text of the first `k` cells: each cell character followed by a
/// space, or by a line break after every ninth cell.
pub open spec fn render_upto(g: Seq<Option<CellValue>>, k: int) -> Seq<char>
    decreases k,
{
    if k <= 0 {
        Seq::empty()
    } else {
        render_upto(g, k - 1).push(render_cell(g[k - 1])).push(
            if k % 9 == 0 {
                '\n'
            } else {
                ' '
            },
        )
    }
}

/// The textual form of a grid: nine lines of nine space-separated tokens.
pub open spec fn render(g: Seq<Option<CellValue>>) -> Seq<char> {
    render_upto(g, 81)
}

/// The character a cell value is written as.
fn digit_str(v: CellValue) -> (s: &'static str)
    ensures
        s@ == seq![digit_char(v.value())],
{
    let n: u8 = v.get();
    if n == 1 {
        proof {
            reveal_strlit("1");
        }
        "1"
    } else if n == 2 {
        proof {
            reveal_strlit("2");
        }
        "2"
    } else if n == 3 {
        proof {
            reveal_strlit("3");
        }
        "3"
    } else if n == 4 {
        proof {
            reveal_strlit("4");
        }
        "4"
    } else if n == 5 {
        proof {
            reveal_strlit("5");
        }
        "5"
    } else if n == 6 {
        proof {
            reveal_strlit("6");
        }
        "6"
    } else if n == 7 {
        proof {
            reveal_strlit("7");
        }
        "7"
    } else if n == 8 {
        proof {
            reveal_strlit("8");
        }
        "8"
    } else {
        proof {
            reveal_strlit("9");
        }
        "9"
    }
}

/// Render a grid as text: rows as space-separated tokens (a digit, or an
/// underscore for an unfilled cell), each row ended by a line break.
pub fn print_grid(grid: &Grid) -> (output: String)
    ensures
        output@ == render(grid@),
{
    proof {
        use_type_invariant(grid);
    }
    let mut output = String::new();
    let mut i: usize = 0;
    while i < 81
        invariant
            i <= 81,
            grid@.len() == 81,
            output@ == render_upto(grid@, i as int),
        decreases 81 - i,
    {
        let row: usize = i / 9;
        let col: usize = i % 9;
        proof {
            assert(cell_index(row as int, col as int) == i as int);
        }
        let token: &str = match grid.get(row, col) {
            Some(v) => digit_str(v),
            None => {
                proof {
                    reveal_strlit("_");
                }
                "_"
            },
        };
        output.append(token);
        let sep: &str = if col == 8 {
            proof {
                reveal_strlit("\n");
            }
            "\n"
        } else {
            proof {
                reveal_strlit(" ");
            }
            " "
        };
        output.append(sep);
        proof {
            assert(output@ =~= render_upto(grid@, i + 1));
        }
        i = i + 1;
    }
    output
}

// ---------------------------------------------------------------------------
// Parsing
// ---------------------------------------------------------------------------
/// The whitespace characters a line is split on.
pub open spec fn is_space(c: char) -> bool {
    c == ' ' || c == '\t' || c == '\n' || c == '\r' || c == '\u{c}'
}

/// The length of the run of non-whitespace characters starting at `i`.
pub open spec fn run_len(s: Seq<char>, i: int) -> int
    decreases s.len() - i when 0 <= i <= s.len()
{
    if i < 0 || i >= s.len() || is_space(s[i]) {
        0
    } else {
        1 + run_len(s, i + 1)
    }
}

pub proof fn lemma_run_len(s: Seq<char>, i: int)
    requires
        0 <= i <= s.len(),
    ensures
        0 <= run_len(s, i),
        i + run_len(s, i) <= s.len(),
        forall|j: int| i <= j < i + run_len(s, i) ==> !is_space(#[trigger] s[j]),
        i + run_len(s, i) < s.len() ==> is_space(s[i + run_len(s, i)]),
        (i < s.len() && !is_space(s[i])) ==> run_len(s, i) >= 1,
    decreases s.len() - i,
{
    if i < s.len() && !is_space(s[i]) {
        lemma_run_len(s, i + 1);
    }
}

/// A maximal run is delimited: all its characters are non-whitespace and
/// it ends at whitespace or at the end of the text.
pub proof fn lemma_run_len_eq(s: Seq<char>, i: int, j: int)
    requires
        0 <= i <= j <= s.len(),
        forall|m: int| i <= m < j ==> !is_space(#[trigger] s[m]),
        j == s.len() || is_space(s[j]),
    ensures
        run_len(s, i) == j - i,
    decreases j - i,
{
    if i < j {
        lemma_run_len_eq(s, i + 1, j);
    }
}

#[via_fn]
proof fn tokens_from_decreases(s: Seq<char>, i: int) {
    lemma_run_len(s, i);
}

/// The whitespace-separated tokens of `s` at or after position `i`.
pub open spec fn tokens_from(s: Seq<char>, i: int) -> Seq<Seq<char>>
    decreases s.len() - i when 0 <= i <= s.len() via tokens_from_decreases
{
    if i >= s.len() {
        Seq::empty()
    } else if is_space(s[i]) {
        tokens_from(s, i + 1)
    } else {
        seq![s.subrange(i, i + run_len(s, i))] + tokens_from(s, i + run_len(s, i))
    }
}

/// The whitespace-separated tokens of one line.
pub open spec fn line_tokens(line: Seq<char>) -> Seq<Seq<char>> {
    tokens_from(line, 0)
}

/// The position of the first line break at or after `i` (or the text end).
pub open spec fn line_end(s: Seq<char>, i: int) -> int
    decreases s.len() - i when 0 <= i <= s.len()
{
    if i >= s.len() {
        i
    } else if s[i] == '\n' {
        i
    } else {
        line_end(s, i + 1)
    }
}

/// Where the text of line `k` begins: just past the line break ending the
/// previous line, or the text end once the lines run out.
pub open spec fn line_start(s: Seq<char>, k: int) -> int
    decreases k when k >= 0
{
    if k <= 0 {
        0
    } else {
        let e = line_end(s, line_start(s, k - 1));
        if e < s.len() {
            e + 1
        } else {
            e
        }
    }
}

/// The text of line `k` (empty once the lines run out).
pub open spec fn spec_line(s: Seq<char>, k: int) -> Seq<char> {
    s.subrange(line_start(s, k), line_end(s, line_start(s, k)))
}

/// A token that is numeric but out of the digit range: it reads as a
/// number whose value is not in [1, 9].
pub open spec fn token_out_of_range(t: Seq<char>) -> bool {
    token_numeric(t) && !(1 <= digits_value(numeric_part(t)) <= 9)
}

/// The first fault in a line's token list, scanning left to right with
/// nine cells to fill: a tenth token, a numeric token above 9, or fewer
/// than nine tokens in all.
pub open spec fn line_error_from(toks: Seq<Seq<char>>, i: int) -> Option<InputError>
    decreases toks.len() - i when 0 <= i
{
    if i >= toks.len() {
        if toks.len() == 9 {
            None
        } else {
            Some(InputError::WrongValueCount)
        }
    } else if i >= 9 {
        Some(InputError::WrongValueCount)
    } else if token_out_of_range(toks[i]) {
        Some(InputError::ValueOutOfRange)
    } else {
        line_error_from(toks, i + 1)
    }
}

/// The first fault across the nine lines of the input, in reading order.
pub open spec fn parse_error_from(s: Seq<char>, k: int) -> Option<InputError>
    decreases 9 - k when 0 <= k <= 9
{
    if k >= 9 {
        None
    } else {
        match line_error_from(line_tokens(spec_line(s, k)), 0) {
            Some(e) => Some(e),
            None => parse_error_from(s, k + 1),
        }
    }
}

pub open spec fn parse_error(s: Seq<char>) -> Option<InputError> {
    parse_error_from(s, 0)
}

/// The cell that token `c` of line `r` denotes.
pub open spec fn parsed_cell(s: Seq<char>, r: int, c: int) -> Option<CellValue> {
    spec_from_str(line_tokens(spec_line(s, r))[c])
}

proof fn lemma_parse_error_from_none(s: Seq<char>, k: int)
    requires
        0 <= k <= 9,
        forall|j: int| k <= j < 9 ==> line_error_from(line_tokens(spec_line(s, j)), 0) is None,
    ensures
        parse_error_from(s, k) is None,
    decreases 9 - k,
{
    if k < 9 {
        lemma_parse_error_from_none(s, k + 1);
    }
}

proof fn lemma_parse_error_from_here(s: Seq<char>, k: int, r: int, e: InputError)
    requires
        0 <= k <= r < 9,
        forall|j: int| k <= j < r ==> line_error_from(line_tokens(spec_line(s, j)), 0) is None,
        line_error_from(line_tokens(spec_line(s, r)), 0) == Some(e),
    ensures
        parse_error_from(s, k) == Some(e),
    decreases r - k,
{
    if k < r {
        lemma_parse_error_from_here(s, k + 1, r, e);
    }
}

fn is_space_char(c: char) -> (b: bool)
    ensures
        b == is_space(c),
{
    c == ' ' || c == '\t' || c == '\n' || c == '\r' || c == '\u{c}'
}

/// Fill row `row` of the grid from one line of text: exactly nine
/// whitespace-separated tokens, a digit each or a non-numeric placeholder
/// standing for an unfilled cell; a numeric token outside [1, 9] is a
/// data fault.
fn parse_line(line: &str, grid: Grid, row: usize) -> (r: Result<Grid, InputError>)
    requires
        row < 9,
        grid@.len() == 81,
        forall|cc: int| 0 <= cc < 9 ==> grid@[cell_index(row as int, cc)] is None,
    ensures
        r matches Ok(g2) ==> line_error_from(line_tokens(line@), 0) is None && g2@.len() == 81 && (
        forall|cc: int|
            0 <= cc < 9 ==> g2@[cell_index(row as int, cc)] == spec_from_str(
                line_tokens(line@)[cc],
            )) && (forall|j: int|
            0 <= j < 81 && !(row * 9 <= j < row * 9 + 9) ==> g2@[j] == grid@[j]),
        r matches Err(err) ==> line_error_from(line_tokens(line@), 0) == Some(err),
{
    let ghost alltoks = line_tokens(line@);
    let llen: usize = line.unicode_len();
    let mut g = grid;
    let mut col: usize = 0;
    let mut i: usize = 0;
    proof {
        assert(alltoks.skip(0) =~= alltoks);
    }
    while i < llen
        invariant
            i <= llen,
            llen == line@.len(),
            col <= 9,
            row < 9,
            g@.len() == 81,
            alltoks == line_tokens(line@),
            forall|cc: int| 0 <= cc < 9 ==> grid@[cell_index(row as int, cc)] is None,
            tokens_from(line@, i as int) == alltoks.skip(col as int),
            col as int <= alltoks.len(),
            line_error_from(alltoks, 0) == line_error_from(alltoks, col as int),
            forall|cc: int|
                0 <= cc < col ==> g@[cell_index(row as int, cc)] == spec_from_str(alltoks[cc]),
            forall|j: int| 0 <= j < 81 && !(row * 9 <= j < row * 9 + col) ==> g@[j] == grid@[j],
        decreases llen - i,
    {
        let c: char = line.get_char(i);
        if is_space_char(c) {
            i = i + 1;
        } else {
            // scan to the end of the token
            let mut j: usize = i + 1;
            while j < llen && !is_space_char(line.get_char(j))
                invariant
                    i < j <= llen,
                    llen == line@.len(),
                    !is_space(line@[i as int]),
                    forall|m: int| i <= m < j ==> !is_space(#[trigger] line@[m]),
                decreases llen - j,
            {
                j = j + 1;
            }
            proof {
                lemma_run_len_eq(line@, i as int, j as int);
                assert(tokens_from(line@, i as int) == seq![
                    line@.subrange(i as int, j as int),
                ] + tokens_from(line@, j as int));
                assert(alltoks.skip(col as int).len() >= 1);
                assert(alltoks[col as int] == alltoks.skip(col as int)[0]);
                assert(alltoks[col as int] == line@.subrange(i as int, j as int));
                assert(tokens_from(line@, j as int) =~= alltoks.skip(col as int).drop_first());
                assert(alltoks.skip(col as int).drop_first() =~= alltoks.skip(col as int + 1));
            }
            if col == 9 {
                proof {
                    assert(line_error_from(alltoks, 9) == Some(InputError::WrongValueCount));
                }
                return Err(InputError::WrongValueCount);
            }
            let token: &str = line.substring_char(i, j);
            proof {
                assert(token@ == alltoks[col as int]);
            }
            match parse_token(token) {
                Some(v) => {
                    if v > 9 {
                        proof {
                            assert(token_out_of_range(alltoks[col as int]));
                        }
                        return Err(InputError::ValueOutOfRange);
                    }
                    g = g.with_cell(row, col, digit(v));
                },
                None => {
                    if token_is_numeric(token) {
                        proof {
                            lemma_digits_value_nonneg(numeric_part(token@));
                            assert(token_out_of_range(alltoks[col as int]));
                        }
                        return Err(InputError::ValueOutOfRange);
                    }
                    proof {
                        assert(g@[cell_index(row as int, col as int)] is None);
                        assert(spec_from_str(alltoks[col as int]) is None);
                    }
                },
            }
            proof {
                assert(!token_out_of_range(alltoks[col as int]));
                assert(line_error_from(alltoks, col as int) == line_error_from(
                    alltoks,
                    col as int + 1,
                ));
            }
            col = col + 1;
            i = j;
        }
    }
    proof {
        assert(tokens_from(line@, llen as int) =~= Seq::<Seq<char>>::empty());
        assert(alltoks.skip(col as int).len() == 0);
        assert(alltoks.len() == col as int);
    }
    if col != 9 {
        return Err(InputError::WrongValueCount);
    }
    Ok(g)
}

/// Build a grid from nine lines of nine whitespace-separated tokens: a
/// decimal digit fills the cell, a non-numeric token leaves it unfilled.
/// A numeric token outside [1, 9] or a line without exactly nine tokens
/// is rejected, and the first such fault in reading order is reported.
pub fn read_input(input: &str) -> (r: Result<Grid, InputError>)
    ensures
        r matches Ok(g) ==> parse_error(input@) is None && g@.len() == 81 && (forall|
            row: int,
            col: int,
        |
            0 <= row < 9 && 0 <= col < 9 ==> g@[cell_index(row, col)] == parsed_cell(
                input@,
                row,
                col,
            )),
        r matches Err(e) ==> parse_error(input@) == Some(e),
{
    let len: usize = input.unicode_len();
    let mut grid = Grid::new();
    let mut start: usize = 0;
    let mut row: usize = 0;
    while row < 9
        invariant
            row <= 9,
            len == input@.len(),
            start as int == line_start(input@, row as int),
            start <= len,
            grid@.len() == 81,
            forall|k: int|
                0 <= k < row ==> line_error_from(line_tokens(spec_line(input@, k)), 0) is None,
            forall|rr: int, cc: int|
                0 <= rr < row && 0 <= cc < 9 ==> grid@[cell_index(rr, cc)] == parsed_cell(
                    input@,
                    rr,
                    cc,
                ),
            forall|j: int| row * 9 <= j < 81 ==> (#[trigger] grid@[j]) is None,
        decreases 9 - row,
    {
        // find the end of this line
        let mut e: usize = start;
        while e < len && input.get_char(e) != '\n'
            invariant
                start <= e <= len,
                len == input@.len(),
                line_end(input@, start as int) == line_end(input@, e as int),
            decreases len - e,
        {
            e = e + 1;
        }
        proof {
            assert(e as int == line_end(input@, start as int));
            assert(input@.subrange(start as int, e as int) == spec_line(input@, row as int));
            assert forall|cc: int| 0 <= cc < 9 implies grid@[cell_index(row as int, cc)]
                is None by {
                assert(grid@[row as int * 9 + cc] is None);
            }
        }
        let line: &str = input.substring_char(start, e);
        grid = match parse_line(line, grid, row) {
            Ok(g2) => g2,
            Err(err) => {
                proof {
                    lemma_parse_error_from_here(input@, 0, row as int, err);
                }
                return Err(err);
            },
        };
        start = if e < len {
            e + 1
        } else {
            e
        };
        row = row + 1;
        proof {
            assert forall|rr: int, cc: int| 0 <= rr < row && 0 <= cc < 9 implies grid@[cell_index(
                rr,
                cc,
            )] == parsed_cell(input@, rr, cc) by {
                if rr < row - 1 {
                    assert(grid@[cell_index(rr, cc)] == parsed_cell(input@, rr, cc));
                }
            }
        }
    }
    proof {
        lemma_parse_error_from_none(input@, 0);
    }
    Ok(grid)
}


// ---------------------------------------------------------------------------
// Round trip: parsing a rendered grid gives the grid back
// ---------------------------------------------------------------------------
/// The character standing at position `p` of a rendered grid: cell
/// characters at even positions, separators at odd ones.
spec fn render_char_at(g: Seq<Option<CellValue>>, p: int) -> char {
    if p % 2 == 0 {
        render_cell(g[p / 2])
    } else if (p / 2 + 1) % 9 == 0 {
        '\n'
    } else {
        ' '
    }
}

proof fn lemma_render_chars(g: Seq<Option<CellValue>>, k: int)
    requires
        0 <= k <= 81,
    ensures
        render_upto(g, k).len() == 2 * k,
        forall|p: int| 0 <= p < 2 * k ==> #[trigger] render_upto(g, k)[p] == render_char_at(g, p),
    decreases k,
{
    if k > 0 {
        lemma_render_chars(g, k - 1);
        assert forall|p: int| 0 <= p < 2 * k implies #[trigger] render_upto(g, k)[p]
            == render_char_at(g, p) by {
            if p < 2 * k - 2 {
                assert(render_upto(g, k)[p] == render_upto(g, k - 1)[p]);
            } else if p == 2 * k - 2 {
                assert(p / 2 == k - 1);
            } else {
                assert(p / 2 == k - 1);
            }
        }
    }
}

/// No cell character is whitespace.
proof fn lemma_render_cell_not_space(c: Option<CellValue>)
    ensures
        !is_space(render_cell(c)),
        render_cell(c) != '\n',
{
}

/// A line break is found exactly where the text shows its first '\n'.
proof fn lemma_line_end_eq(s: Seq<char>, a: int, b: int)
    requires
        0 <= a <= b <= s.len(),
        forall|m: int| a <= m < b ==> #[trigger] s[m] != '\n',
        b == s.len() || s[b] == '\n',
    ensures
        line_end(s, a) == b,
    decreases b - a,
{
    if a < b {
        lemma_line_end_eq(s, a + 1, b);
    }
}

/// A line of nine single non-whitespace characters separated by single
/// spaces splits into nine one-character tokens.
proof fn lemma_line_tokens(line: Seq<char>, j: int)
    requires
        line.len() == 17,
        forall|p: int| 0 <= p < 17 && p % 2 == 0 ==> !is_space(#[trigger] line[p]),
        forall|p: int| 0 <= p < 17 && p % 2 == 1 ==> #[trigger] line[p] == ' ',
        0 <= j <= 8,
    ensures
        tokens_from(line, 2 * j) == Seq::new((9 - j) as nat, |m: int| seq![line[2 * (m + j)]]),
    decreases 8 - j,
{
    let expected = Seq::new((9 - j) as nat, |m: int| seq![line[2 * (m + j)]]);
    if j == 8 {
        assert(!is_space(line[16]));
        lemma_run_len_eq(line, 16, 17);
        assert(tokens_from(line, 16) == seq![line.subrange(16, 17)] + tokens_from(line, 17));
        assert(tokens_from(line, 17) =~= Seq::<Seq<char>>::empty());
        assert(line.subrange(16, 17) =~= seq![line[16]]);
        assert(tokens_from(line, 2 * j) =~~= expected);
    } else {
        lemma_line_tokens(line, j + 1);
        assert(line[2 * j + 1] == ' ');
        assert(!is_space(line[2 * j]));
        lemma_run_len_eq(line, 2 * j, 2 * j + 1);
        assert(tokens_from(line, 2 * j) == seq![line.subrange(2 * j, 2 * j + 1)] + tokens_from(
            line,
            2 * j + 1,
        ));
        assert(tokens_from(line, 2 * j + 1) == tokens_from(line, 2 * j + 2));
        assert(tokens_from(line, 2 * j + 2) == tokens_from(line, 2 * (j + 1)));
        let rest = Seq::new((9 - (j + 1)) as nat, |m: int| seq![line[2 * (m + (j + 1))]]);
        assert(tokens_from(line, 2 * (j + 1)) == rest);
        assert forall|m: int| 0 <= m < 9 - j implies tokens_from(line, 2 * j)[m] =~= expected[m] by {
            if m == 0 {
                assert(tokens_from(line, 2 * j)[0] == line.subrange(2 * j, 2 * j + 1));
                assert(line.subrange(2 * j, 2 * j + 1) =~= seq![line[2 * j]]);
                assert(expected[0] == seq![line[2 * (0 + j)]]);
            } else {
                assert(tokens_from(line, 2 * j)[m] == rest[m - 1]);
                assert(rest[m - 1] == seq![line[2 * ((m - 1) + (j + 1))]]);
                assert(expected[m] == seq![line[2 * (m + j)]]);
                assert(2 * ((m - 1) + (j + 1)) == 2 * (m + j));
            }
        }
        assert(tokens_from(line, 2 * j) =~~= expected);
    }
}

/// A one-character digit token denotes that digit.
proof fn lemma_single_digit_token(d: int)
    requires
        1 <= d <= 9,
    ensures
        token_value(seq![digit_char(d)]) == Some(d),
{
    let t = seq![digit_char(d)];
    assert(t[0] != '+');
    assert(numeric_part(t) == t);
    assert(digit_char(d) as int == 48 + d);
    assert(all_digits(t));
    assert(t.drop_last() =~= Seq::<char>::empty());
    assert(digits_value(Seq::<char>::empty()) == 0);
    assert(digits_value(t) == digits_value(t.drop_last()) * 10 + (t.last() as int - 48));
    assert(digits_value(t) == d);
}

/// The placeholder token neither denotes a value nor reads as a number.
proof fn lemma_underscore_token()
    ensures
        token_value(seq!['_']) is None,
        !token_numeric(seq!['_']),
{
    let t = seq!['_'];
    assert(t[0] as int == 95);
    assert(!all_digits(t));
    assert(numeric_part(t) == t);
}

proof fn lemma_line_error_none_from(toks: Seq<Seq<char>>, i: int)
    requires
        toks.len() == 9,
        0 <= i <= 9,
        forall|m: int| 0 <= m < 9 ==> !token_out_of_range(#[trigger] toks[m]),
    ensures
        line_error_from(toks, i) is None,
    decreases 9 - i,
{
    if i < 9 {
        lemma_line_error_none_from(toks, i + 1);
    }
}

/// Line `k` of a rendered grid spans positions `18k` to `18k + 17` and
/// splits into the nine cell tokens of row `k`.
proof fn lemma_render_line(g: Seq<Option<CellValue>>, k: int)
    requires
        grid_wf(g),
        0 <= k < 9,
    ensures
        line_start(render(g), k) == 18 * k,
        line_end(render(g), 18 * k) == 18 * k + 17,
        line_tokens(spec_line(render(g), k)).len() == 9,
        forall|m: int|
            0 <= m < 9 ==> #[trigger] line_tokens(spec_line(render(g), k))[m] == seq![
                render_cell(g[9 * k + m]),
            ],
    decreases k,
{
    let s = render(g);
    lemma_render_chars(g, 81);
    assert(s.len() == 162);
    if k > 0 {
        lemma_render_line(g, k - 1);
        assert(line_start(s, k) == line_end(s, line_start(s, k - 1)) + 1);
    }
    assert(line_start(s, k) == 18 * k);
    // characters of this line: cells at even offsets, spaces between,
    // a line break at offset 17
    assert forall|t: int| 0 <= t < 17 implies #[trigger] s[18 * k + t] != '\n' by {
        let p = 18 * k + t;
        if p % 2 == 0 {
            lemma_render_cell_not_space(g[p / 2]);
        } else {
            assert(p / 2 == 9 * k + (t - 1) / 2);
            assert(0 <= (t - 1) / 2 < 8);
            assert((p / 2 + 1) % 9 == ((t - 1) / 2 + 1) % 9) by (nonlinear_arith)
                requires
                    p / 2 == 9 * k + (t - 1) / 2,
            ;
            assert(render_char_at(g, p) == ' ');
        }
    }
    assert(s[18 * k + 17] == '\n') by {
        let p = 18 * k + 17;
        assert(p % 2 == 1);
        assert(p / 2 == 9 * k + 8);
        assert((9 * k + 8 + 1) % 9 == 0) by (nonlinear_arith);
    }
    lemma_line_end_eq(s, 18 * k, 18 * k + 17);
    let line = spec_line(s, k);
    assert(line =~= s.subrange(18 * k, 18 * k + 17));
    assert(line.len() == 17);
    assert forall|p: int| 0 <= p < 17 && p % 2 == 0 implies !is_space(#[trigger] line[p]) by {
        let q = 18 * k + p;
        assert(line[p] == s[q]);
        assert(q % 2 == 0 && q / 2 == 9 * k + p / 2) by (nonlinear_arith)
            requires
                p % 2 == 0 && 0 <= p < 17 && 0 <= k,
                q == 18 * k + p,
        ;
        lemma_render_cell_not_space(g[q / 2]);
    }
    assert forall|p: int| 0 <= p < 17 && p % 2 == 1 implies #[trigger] line[p] == ' ' by {
        let q = 18 * k + p;
        assert(line[p] == s[q]);
        assert(q % 2 == 1 && q / 2 == 9 * k + (p - 1) / 2) by (nonlinear_arith)
            requires
                p % 2 == 1 && 0 <= p < 17 && 0 <= k,
                q == 18 * k + p,
        ;
        assert((q / 2 + 1) % 9 == ((p - 1) / 2 + 1) % 9) by (nonlinear_arith)
            requires
                q / 2 == 9 * k + (p - 1) / 2,
        ;
        assert(0 < (p - 1) / 2 + 1 < 9);
        assert(render_char_at(g, q) == ' ');
    }
    lemma_line_tokens(line, 0);
    let expected = Seq::new(9nat, |m: int| seq![line[2 * (m + 0)]]);
    assert(line_tokens(line) == expected);
    assert forall|m: int| 0 <= m < 9 implies #[trigger] line_tokens(line)[m] == seq![
        render_cell(g[9 * k + m]),
    ] by {
        assert(expected[m] == seq![line[2 * (m + 0)]]);
        assert(line[2 * (m + 0)] == s[18 * k + 2 * m]);
        assert((18 * k + 2 * m) % 2 == 0 && (18 * k + 2 * m) / 2 == 9 * k + m) by (nonlinear_arith)
            requires
                0 <= m < 9 && 0 <= k,
        ;
    }
}

/// Rendering a grid and parsing the text back yields the same grid: the
/// parse accepts it, and every parsed cell equals the rendered one.
pub proof fn lemma_render_parse_round_trip(g: Seq<Option<CellValue>>)
    requires
        grid_wf(g),
    ensures
        parse_error(render(g)) is None,
        forall|row: int, col: int|
            0 <= row < 9 && 0 <= col < 9 ==> #[trigger] parsed_cell(render(g), row, col)
                == g[cell_index(row, col)],
{
    let s = render(g);
    assert forall|row: int, col: int| 0 <= row < 9 && 0 <= col < 9 implies #[trigger] parsed_cell(
        s,
        row,
        col,
    ) == g[cell_index(row, col)] by {
        lemma_render_line(g, row);
        let tok = line_tokens(spec_line(s, row))[col];
        assert(tok == seq![render_cell(g[9 * row + col])]);
        match g[cell_index(row, col)] {
            Some(v) => {
                assert(v.wf());
                lemma_single_digit_token(v.value());
                crate::cell_value::lemma_spec_digit_value(v.value());
                crate::cell_value::lemma_value_injective(v, spec_digit(v.value()));
                assert(parsed_cell(s, row, col) == Some(v));
            },
            None => {
                lemma_underscore_token();
                assert(parsed_cell(s, row, col) is None);
            },
        }
    }
    assert forall|k: int| 0 <= k < 9 implies line_error_from(
        line_tokens(spec_line(s, k)),
        0,
    ) is None by {
        lemma_render_line(g, k);
        let toks = line_tokens(spec_line(s, k));
        assert forall|m: int| 0 <= m < 9 implies !token_out_of_range(#[trigger] toks[m]) by {
            match g[9 * k + m] {
                Some(v) => {
                    assert(v.wf());
                    lemma_single_digit_token(v.value());
                },
                None => {
                    lemma_underscore_token();
                },
            }
        }
        lemma_line_error_none_from(toks, 0);
    }
    lemma_parse_error_from_none(s, 0);
}


} // verus!
