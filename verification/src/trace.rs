//! Reading cells back from the grid, and following a number along its row.

use vstd::prelude::*;

use crate::coords::Cell;
use crate::grid::{Grid, GridView, lemma_cell_index};
use crate::text::{decimal, has_numeric, parse_i32, parsed_i32, push_decimal, text_has_numeric};

verus! {

/// The first column of the run of numeric cells that ends just before
/// column `c` of `row` (`c` itself when the cell before it is not numeric).
pub open spec fn run_start(row: Seq<Seq<char>>, c: int) -> int
    decreases c,
{
    if c <= 0 {
        c
    } else if has_numeric(row[c - 1]) {
        run_start(row, c - 1)
    } else {
        c
    }
}

/// The column just past the run of numeric cells that starts at column `c`
/// of `row` (`c` itself when that cell is not numeric).
pub open spec fn run_end(row: Seq<Seq<char>>, c: int) -> int
    decreases row.len() - c,
{
    if c >= row.len() {
        c
    } else if has_numeric(row[c]) {
        run_end(row, c + 1)
    } else {
        c
    }
}

/// The number read from columns `lo..hi` of `row`: the decimal text of the
/// `i32` value of each cell, one after the other; `None` if a cell does not
/// parse as an `i32`.
pub open spec fn run_number(row: Seq<Seq<char>>, lo: int, hi: int) -> Option<Seq<char>>
    decreases hi - lo,
{
    if hi <= lo {
        Some(seq![])
    } else {
        match (run_number(row, lo, hi - 1), parsed_i32(row[hi - 1])) {
            (Some(t), Some(v)) => Some(t + decimal(v as int)),
            _ => None,
        }
    }
}

/// The columns `lo..hi`, each written as the decimal text of the column plus
/// one taken as an `i16`, one after the other.
pub open spec fn run_columns(lo: int, hi: int) -> Seq<char>
    decreases hi - lo,
{
    if hi <= lo {
        seq![]
    } else {
        run_columns(lo, hi - 1) + decimal((hi as i16) as int)
    }
}

/// Following the number at row `r`, column `c` of `g`: the run of numeric
/// cells made of those just before column `c` and those from column `c` on.
/// The first text is the number read from the run; the second the columns of
/// the run followed by the row (as `i16`s), which tells runs apart.  `None`
/// when a cell of the run does not parse as an `i32`.
pub open spec fn trace_of(g: GridView, r: int, c: int) -> Option<(Seq<char>, Seq<char>)> {
    let row = g.row(r);
    let lo = run_start(row, c);
    let hi = run_end(row, c);
    match run_number(row, lo, hi) {
        Some(n) => Some((n, run_columns(lo, hi) + decimal((r as i16) as int))),
        None => None,
    }
}

pub(crate) proof fn lemma_run_start_bounds(row: Seq<Seq<char>>, c: int)
    requires
        0 <= c,
    ensures
        0 <= run_start(row, c) <= c,
        forall|k: int| run_start(row, c) <= k < c ==> has_numeric(#[trigger] row[k]),
        run_start(row, c) == 0 || !has_numeric(row[run_start(row, c) - 1]),
    decreases c,
{
    if c > 0 && has_numeric(row[c - 1]) {
        lemma_run_start_bounds(row, c - 1);
    }
}

pub(crate) proof fn lemma_run_end_bounds(row: Seq<Seq<char>>, c: int)
    requires
        c <= row.len(),
    ensures
        c <= run_end(row, c) <= row.len(),
        forall|k: int| c <= k < run_end(row, c) ==> has_numeric(#[trigger] row[k]),
        run_end(row, c) == row.len() || !has_numeric(row[run_end(row, c)]),
    decreases row.len() - c,
{
    if c < row.len() && has_numeric(row[c]) {
        lemma_run_end_bounds(row, c + 1);
    }
}

proof fn lemma_run_number_fails_onward(row: Seq<Seq<char>>, lo: int, k: int, hi: int)
    requires
        lo <= k <= hi,
        run_number(row, lo, k) is None,
    ensures
        run_number(row, lo, hi) is None,
    decreases hi - k,
{
    if k < hi {
        lemma_run_number_fails_onward(row, lo, k, hi - 1);
    }
}

pub(crate) proof fn lemma_row_cell(g: GridView, r: int, k: int)
    requires
        g.wf(),
        0 <= r < g.rows,
        0 <= k < g.cols,
    ensures
        g.row(r).len() == g.cols,
        g.row(r)[k] == g.at(r, k),
{
    lemma_cell_index(r, k, g.rows as int, g.cols as int);
    lemma_cell_index(r, g.cols - 1, g.rows as int, g.cols as int);
}

pub(crate) proof fn lemma_row_len(g: GridView, r: int)
    requires
        g.wf(),
        0 <= r < g.rows,
    ensures
        g.row(r).len() == g.cols,
{
    if g.cols > 0 {
        lemma_row_cell(g, r, 0);
    } else {
        assert(r * g.cols == 0) by (nonlinear_arith)
            requires
                g.cols == 0,
        ;
    }
}

fn trace_run(input_array: &Grid, coordinates: &(usize, usize)) -> (res: Option<(String, String)>)
    requires
        coordinates.0 < input_array@.rows,
        coordinates.1 <= input_array@.cols,
    ensures
        match res {
            Some(t) => trace_of(input_array@, coordinates.0 as int, coordinates.1 as int) == Some((t.0@, t.1@)),
            None => trace_of(input_array@, coordinates.0 as int, coordinates.1 as int) is None,
        },
{
    let r = coordinates.0;
    let c = coordinates.1;
    let cols = input_array.cols();
    let ghost g = input_array@;
    let ghost row = g.row(r as int);
    proof {
        lemma_row_len(g, r as int);
        lemma_run_start_bounds(row, c as int);
        lemma_run_end_bounds(row, c as int);
    }
    let mut lo = c;
    while lo > 0 && text_has_numeric(input_array.get(r, lo - 1).unwrap().as_str())
        invariant
            g == input_array@,
            g.wf(),
            r < g.rows,
            row == g.row(r as int),
            row.len() == g.cols,
            lo <= c <= cols,
            cols == g.cols,
            run_start(row, lo as int) == run_start(row, c as int),
        decreases lo,
    {
        proof {
            lemma_row_cell(g, r as int, lo - 1);
        }
        lo = lo - 1;
    }
    proof {
        if lo > 0 {
            lemma_row_cell(g, r as int, lo - 1);
        }
    }
    assert(run_start(row, lo as int) == lo);
    let mut hi = c;
    while hi < cols && text_has_numeric(input_array.get(r, hi).unwrap().as_str())
        invariant
            g == input_array@,
            g.wf(),
            r < g.rows,
            row == g.row(r as int),
            row.len() == g.cols,
            c <= hi <= cols,
            cols == g.cols,
            run_end(row, hi as int) == run_end(row, c as int),
        decreases cols - hi,
    {
        proof {
            lemma_row_cell(g, r as int, hi as int);
        }
        hi = hi + 1;
    }
    proof {
        if hi < cols {
            lemma_row_cell(g, r as int, hi as int);
        }
    }
    assert(run_end(row, hi as int) == hi);
    let mut number = String::new();
    let mut columns = String::new();
    let mut k = lo;
    while k < hi
        invariant
            g == input_array@,
            g.wf(),
            r < g.rows,
            row == g.row(r as int),
            row.len() == g.cols,
            lo <= k <= hi <= cols,
            cols == g.cols,
            run_number(row, lo as int, k as int) == Some(number@),
            lo == run_start(row, c as int),
            hi == run_end(row, c as int),
            r == coordinates.0,
            c == coordinates.1,
            columns@ == run_columns(lo as int, k as int),
        decreases hi - k,
    {
        let cell = input_array.get(r, k).unwrap();
        proof {
            lemma_row_cell(g, r as int, k as int);
        }
        match parse_i32(cell.as_str()) {
            Some(v) => {
                push_decimal(&mut number, v as i64);
                let column = #[verifier::truncate] ((k + 1) as i16);
                push_decimal(&mut columns, column as i64);
                k = k + 1;
            },
            None => {
                proof {
                    assert(run_number(row, lo as int, k + 1) is None);
                    lemma_run_number_fails_onward(row, lo as int, k + 1, hi as int);
                }
                return None;
            },
        }
    }
    let row_number = #[verifier::truncate] (r as i16);
    push_decimal(&mut columns, row_number as i64);
    Some((number, columns))
}

/// Follows the number that runs through row `coordinates.0` at column
/// `coordinates.1`: the numeric cells just before that column and those from
/// it on.  Returns the number read from them (each cell's `i32` value in
/// decimal, one after the other) and the columns of the run plus one followed
/// by the row, each as an `i16` in decimal.
pub fn trace_whole_number_from_array_following_coordinates(
    input_array: &Grid,
    coordinates: &(usize, usize),
) -> (res: (String, String))
    requires
        coordinates.0 < input_array@.rows,
        coordinates.1 <= input_array@.cols,
        trace_of(input_array@, coordinates.0 as int, coordinates.1 as int) is Some,
    ensures
        trace_of(input_array@, coordinates.0 as int, coordinates.1 as int) == Some((res.0@, res.1@)),
{
    match trace_run(input_array, coordinates) {
        Some(t) => t,
        None => {
            proof {
                assert(false);
            }
            (String::new(), String::new())
        },
    }
}

/// The same as `trace_whole_number_from_array_following_coordinates`, or
/// `None` where a cell of the run does not parse as an `i32`, which makes the
/// former panic.
pub fn try_trace_whole_number(input_array: &Grid, coordinates: &(usize, usize)) -> (res: Option<(String, String)>)
    requires
        coordinates.0 < input_array@.rows,
        coordinates.1 <= input_array@.cols,
    ensures
        match res {
            Some(t) => trace_of(input_array@, coordinates.0 as int, coordinates.1 as int) == Some((t.0@, t.1@)),
            None => trace_of(input_array@, coordinates.0 as int, coordinates.1 as int) is None,
        },
{
    if trace_run(input_array, coordinates).is_some() {
        Some(trace_whole_number_from_array_following_coordinates(input_array, coordinates))
    } else {
        None
    }
}

/// The texts of the two cells of a pair.
pub fn extract_non_boolean_pair_values_from_original_multidimensional_array(
    input_array: &Grid,
    coordinates: &(Cell, Cell),
) -> (res: (String, String))
    requires
        coordinates.0.0 < input_array@.rows,
        coordinates.0.1 < input_array@.cols,
        coordinates.1.0 < input_array@.rows,
        coordinates.1.1 < input_array@.cols,
    ensures
        res.0@ == input_array@.at(coordinates.0.0 as int, coordinates.0.1 as int),
        res.1@ == input_array@.at(coordinates.1.0 as int, coordinates.1.1 as int),
{
    let position_a: String = input_array.get(coordinates.0.0, coordinates.0.1).unwrap().clone();
    let position_b: String = input_array.get(coordinates.1.0, coordinates.1.1).unwrap().clone();
    (position_a, position_b)
}

/// The texts of the three cells of a trio.
pub fn extract_non_boolean_trio_values_from_original_multidimensional_array(
    input_array: &Grid,
    coordinates: &(Cell, Cell, Cell),
) -> (res: (String, String, String))
    requires
        coordinates.0.0 < input_array@.rows,
        coordinates.0.1 < input_array@.cols,
        coordinates.1.0 < input_array@.rows,
        coordinates.1.1 < input_array@.cols,
        coordinates.2.0 < input_array@.rows,
        coordinates.2.1 < input_array@.cols,
    ensures
        res.0@ == input_array@.at(coordinates.0.0 as int, coordinates.0.1 as int),
        res.1@ == input_array@.at(coordinates.1.0 as int, coordinates.1.1 as int),
        res.2@ == input_array@.at(coordinates.2.0 as int, coordinates.2.1 as int),
{
    let position_a: String = input_array.get(coordinates.0.0, coordinates.0.1).unwrap().clone();
    let position_b: String = input_array.get(coordinates.1.0, coordinates.1.1).unwrap().clone();
    let position_c: String = input_array.get(coordinates.2.0, coordinates.2.1).unwrap().clone();
    (position_a, position_b, position_c)
}

} // verus!
