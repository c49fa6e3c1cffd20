//! What the sweeps find, stated over the grid itself, and what following a
//! number gives from any of its cells.

use vstd::prelude::*;
use vstd::arithmetic::div_mod::lemma_fundamental_div_mod_converse;

use crate::text::{
    ascii_cell, decimal, digits_value, decimal_value, digit_char, has_non_numeric, has_numeric, is_ascii_digit, numeric_char, parsed_i32, parsed_i64,
};
use crate::trace::{
    lemma_row_cell, lemma_run_end_bounds, lemma_run_start_bounds, run_columns, run_end, run_number, run_start,
    trace_of,
};
use crate::coords::{Cell, pair_position_cells, trio_position_cells};
use crate::sweep::{Pair, Trio, pair_at, pair_found, pair_hit, trio_at, trio_cell, trio_found, trio_hit};
use crate::schematic::{
    first_by_key, gear_entries, gear_entry, group_by_key, number_then_star, star_groups, star_then_number, star_traces, gear_ratio_total, gear_trio, has_key, is_star, numeric_first, numeric_second,
    pair_sweep, part_number_total, part_number_traces, sum_i64, sum_parsed_i32, trio_sweep,
};
use crate::sweep::{lemma_distinct_swept_pairs, lemma_distinct_swept_trios};
use crate::grid::{
    GridView, MaskView, chunk_count, chunk_of, chunks_of, is_dot, mask_of, window_count, window_of,
    windows_of,
};

verus! {

/// The masks of the `h`×`w` windows of `g`, cut into chunks of one window row
/// each, as the sweeps read them.
pub open spec fn sweep_chunks(g: GridView, h: nat, w: nat) -> Seq<Seq<MaskView>> {
    chunks_of(windows_of(g, h, w).map_values(|v: GridView| mask_of(v)), window_count(g.cols, w))
}

proof fn lemma_chunk_count_exact(r: nat, n: nat)
    requires
        n > 0,
    ensures
        chunk_count(r * n, n) == r,
    decreases r,
{
    if r > 0 {
        assert(r * n == (r - 1) * n + n) by (nonlinear_arith);
        assert((r - 1) * n >= 0) by (nonlinear_arith)
            requires
                r >= 1,
        ;
        lemma_chunk_count_exact((r - 1) as nat, n);
        if r == 1 {
            assert(r * n == n);
            assert(chunk_count(r * n, n) == 1);
        } else {
            assert((r - 1) * n >= n) by (nonlinear_arith)
                requires
                    r >= 2,
                    n > 0,
            ;
            let m = ((r - 1) * n) as nat;
            assert(r * n > n);
            assert((r * n - n) as nat == m);
            assert(chunk_count(r * n, n) == 1 + chunk_count(m, n));
        }
    } else {
        assert(r * n == 0) by (nonlinear_arith)
            requires
                r == 0,
        ;
    }
}

/// Cutting the masks of the windows into chunks of one window row each lines
/// them up with the grid: there is one chunk per window row, one mask per
/// window column, and the flag of cell (`i`, `j`) of the mask in chunk `a`,
/// place `c` tells whether grid cell (`a + i`, `c + j`) is not a dot.
pub proof fn lemma_sweep_shape(g: GridView, h: nat, w: nat)
    requires
        g.wf(),
        0 < h,
        0 < w <= g.cols,
    ensures
        sweep_chunks(g, h, w).len() == window_count(g.rows, h),
        forall|a: int|
            0 <= a < window_count(g.rows, h) ==> #[trigger] sweep_chunks(g, h, w)[a].len() == g.cols - w + 1,
        forall|a: int, c: int|
            0 <= a < window_count(g.rows, h) && 0 <= c <= g.cols - w ==> (#[trigger] sweep_chunks(g, h, w)[a][c]).rows
                == h && sweep_chunks(g, h, w)[a][c].cols == w && sweep_chunks(g, h, w)[a][c].wf(),
        forall|a: int, c: int, i: int, j: int|
            0 <= a < window_count(g.rows, h) && 0 <= c <= g.cols - w && 0 <= i < h && 0 <= j < w
                ==> #[trigger] sweep_chunks(g, h, w)[a][c].at(i, j) == !is_dot(g.at(a + i, c + j)),
{
    let n = window_count(g.cols, w);
    let r = window_count(g.rows, h);
    let masks = windows_of(g, h, w).map_values(|v: GridView| mask_of(v));
    assert(masks.len() == r * n);
    lemma_chunk_count_exact(r, n);
    let chunks = sweep_chunks(g, h, w);
    assert forall|a: int| 0 <= a < r implies #[trigger] chunks[a].len() == g.cols - w + 1 && chunks[a]
        == masks.subrange(a * n, a * n + n) by {
        assert(a * n + n <= r * n) by (nonlinear_arith)
            requires
                0 <= a < r,
                n > 0,
        ;
        assert(0 <= a * n) by (nonlinear_arith)
            requires
                0 <= a,
                n > 0,
        ;
    }
    assert forall|a: int, c: int|
        0 <= a < r && 0 <= c <= g.cols - w implies (#[trigger] chunks[a][c]).rows == h && chunks[a][c].cols == w
            && chunks[a][c].wf() && chunks[a][c] == mask_of(window_of(g, h, w, a * n + c)) by {
        assert(chunks[a] == masks.subrange(a * n, a * n + n));
        assert(0 <= a * n + c < r * n) by (nonlinear_arith)
            requires
                0 <= a < r,
                0 <= c < n,
        ;
    }
    assert forall|a: int, c: int, i: int, j: int|
        0 <= a < r && 0 <= c <= g.cols - w && 0 <= i < h && 0 <= j < w implies #[trigger] chunks[a][c].at(i, j)
        == !is_dot(g.at(a + i, c + j)) by {
        let k = a * n + c;
        let v = window_of(g, h, w, k);
        assert(chunks[a][c] == mask_of(v));
        lemma_fundamental_div_mod_converse(k, n as int, a, c);
        let m = i * w + j;
        assert(0 <= m < h * w) by (nonlinear_arith)
            requires
                0 <= i < h,
                0 <= j < w,
                m == i * w + j,
        ;
        lemma_fundamental_div_mod_converse(m, w as int, i, j);
        assert(mask_of(v).at(i, j) == mask_of(v).cells[m]);
        assert(v.cells[m] == g.at(k / (n as int) + m / (w as int), k % (n as int) + m % (w as int)));
    }
}

/// Whether `p` lies in the grid.
pub open spec fn in_grid(g: GridView, p: Cell) -> bool {
    p.0 < g.rows && p.1 < g.cols
}

/// Whether the cell `p` of the grid is not a dot.
pub open spec fn non_dot(g: GridView, p: Cell) -> bool {
    !is_dot(g.at(p.0 as int, p.1 as int))
}

/// Whether `q` touches `p` on its right, below it, below on its right, or
/// above on its right: every two touching cells, named from the left (and,
/// for two cells of one column, from the top).
pub open spec fn touching(p: Cell, q: Cell) -> bool {
    ||| (q.0 == p.0 && q.1 == p.1 + 1)
    ||| (q.0 == p.0 + 1 && q.1 == p.1)
    ||| (q.0 == p.0 + 1 && q.1 == p.1 + 1)
    ||| (q.0 + 1 == p.0 && q.1 == p.1 + 1)
}

/// Two touching non-dot cells of the grid.
pub open spec fn touching_non_dots(g: GridView, pair: Pair) -> bool {
    &&& in_grid(g, pair.0)
    &&& in_grid(g, pair.1)
    &&& non_dot(g, pair.0)
    &&& non_dot(g, pair.1)
    &&& touching(pair.0, pair.1)
}

proof fn lemma_pair_witness(g: GridView, a: int, c: int, position: int)
    requires
        g.wf(),
        2 <= g.rows,
        2 <= g.cols,
        0 <= a < g.rows - 1,
        0 <= c < g.cols - 1,
        0 <= position < 6,
    ensures
        pair_hit(sweep_chunks(g, 2, 2)[a][c], position) <==> (non_dot(g, pair_at(a, c, position).0)
            && non_dot(g, pair_at(a, c, position).1)),
        in_grid(g, pair_at(a, c, position).0),
        in_grid(g, pair_at(a, c, position).1),
        touching(pair_at(a, c, position).0, pair_at(a, c, position).1),
        pair_at(a, c, position).0.0 == a + pair_position_cells(position).0[0],
        pair_at(a, c, position).0.1 == c + pair_position_cells(position).0[1],
        pair_at(a, c, position).1.0 == a + pair_position_cells(position).1[0],
        pair_at(a, c, position).1.1 == c + pair_position_cells(position).1[1],
{
    lemma_sweep_shape(g, 2, 2);
    let m = sweep_chunks(g, 2, 2)[a][c];
    let (s0, s1) = pair_position_cells(position);
    if position == 0 {
    } else if position == 1 {
    } else if position == 2 {
    } else if position == 3 {
    } else if position == 4 {
    } else {
    }
    assert(0 <= s0[0] < 2 && 0 <= s0[1] < 2 && 0 <= s1[0] < 2 && 0 <= s1[1] < 2);
    assert(m.at(s0[0] as int, s0[1] as int) == !is_dot(g.at(a + s0[0], c + s0[1])));
    assert(m.at(s1[0] as int, s1[1] as int) == !is_dot(g.at(a + s1[0], c + s1[1])));
    assert(touching(pair_at(a, c, position).0, pair_at(a, c, position).1)) by {
        if position == 0 {
        } else if position == 1 {
        } else if position == 2 {
        } else if position == 3 {
        } else if position == 4 {
        } else {
        }
    }
}

/// The 2×2 sweep finds exactly the touching non-dot cells: a pair is found
/// by sweeping the chunked masks of the 2×2 windows of a grid of at least
/// two rows and two columns if and only if its two cells are non-dot cells
/// of the grid and the second touches the first on its right, below it,
/// below on its right, or above on its right.
pub proof fn law_pair_sweep_finds_touching_non_dots(g: GridView, pair: Pair)
    requires
        g.wf(),
        2 <= g.rows,
        2 <= g.cols,
    ensures
        pair_found(sweep_chunks(g, 2, 2), pair) <==> touching_non_dots(g, pair),
{
    let chunks = sweep_chunks(g, 2, 2);
    lemma_sweep_shape(g, 2, 2);
    if pair_found(chunks, pair) {
        let (a, c, position) = choose|a: int, c: int, position: int|
            0 <= a < chunks.len() && 0 <= c < chunks[a].len() && 0 <= position < 6
                && #[trigger] pair_hit(chunks[a][c], position) && pair == #[trigger] pair_at(a, c, position);
        lemma_pair_witness(g, a, c, position);
    }
    if touching_non_dots(g, pair) {
        let p = pair.0;
        let q = pair.1;
        let (a, c, position) = if q.0 == p.0 && q.1 == p.1 + 1 {
            if p.0 + 1 < g.rows { (p.0 as int, p.1 as int, 0int) } else { (p.0 - 1, p.1 as int, 1int) }
        } else if q.0 == p.0 + 1 && q.1 == p.1 {
            if p.1 + 1 < g.cols { (p.0 as int, p.1 as int, 2int) } else { (p.0 as int, p.1 - 1, 3int) }
        } else if q.0 == p.0 + 1 && q.1 == p.1 + 1 {
            (p.0 as int, p.1 as int, 5int)
        } else {
            (q.0 as int, p.1 as int, 4int)
        };
        lemma_pair_witness(g, a, c, position);
        assert(pair == pair_at(a, c, position));
        assert(pair_hit(chunks[a][c], position));
    }
}

/// Whether `p` comes before `q` when the grid is read row by row.
pub open spec fn reads_before(p: Cell, q: Cell) -> bool {
    p.0 < q.0 || (p.0 == q.0 && p.1 < q.1)
}

/// Whether `p` is one of the eight cells around `s`.
pub open spec fn around(s: Cell, p: Cell) -> bool {
    &&& p != s
    &&& p.0 + 1 >= s.0
    &&& p.0 <= s.0 + 1
    &&& p.1 + 1 >= s.1
    &&& p.1 <= s.1 + 1
}

/// Whether the non-dot cell `p` around `s` opens a stretch of non-dots in its
/// row of the 3×3 block centred on `s`: it is in the block's left column, or
/// in the row of `s` (which `s` parts in two), or the cell on its left is a
/// dot.
pub open spec fn opens_stretch_around(g: GridView, s: Cell, p: Cell) -> bool {
    &&& non_dot(g, p)
    &&& (p.1 + 1 == s.1 || p.0 == s.0 || is_dot(g.at(p.0 as int, p.1 - 1)))
}

/// A trio around a non-dot cell `t.1` away from the border of the grid: `t.0`
/// and `t.2` are cells around it, `t.0` before it and `t.2` after it when the
/// grid is read row by row, and each opens a stretch of non-dots in its row
/// of the block centred on `t.1`.
pub open spec fn centred_non_dots(g: GridView, t: Trio) -> bool {
    &&& 1 <= t.1.0 && t.1.0 + 1 < g.rows
    &&& 1 <= t.1.1 && t.1.1 + 1 < g.cols
    &&& non_dot(g, t.1)
    &&& around(t.1, t.0)
    &&& around(t.1, t.2)
    &&& reads_before(t.0, t.1)
    &&& reads_before(t.1, t.2)
    &&& opens_stretch_around(g, t.1, t.0)
    &&& opens_stretch_around(g, t.1, t.2)
}

proof fn lemma_trio_cell(i: int)
    requires
        0 <= i < 9,
    ensures
        0 <= trio_cell(i)[0] < 3,
        0 <= trio_cell(i)[1] < 3,
        i == 3 * trio_cell(i)[0] + trio_cell(i)[1],
        trio_cell(i)[1] != 0 ==> trio_cell(i - 1)[0] == trio_cell(i)[0] && trio_cell(i - 1)[1] + 1
            == trio_cell(i)[1],
        i % 3 == trio_cell(i)[1],
        i / 3 == trio_cell(i)[0],
{
    if i == 0 {} else if i == 1 {} else if i == 2 {} else if i == 3 {} else if i == 4 {}
    else if i == 5 {} else if i == 6 {} else if i == 7 {} else {}
}

proof fn lemma_trio_witness(g: GridView, a: int, c: int, i: int, k: int)
    requires
        g.wf(),
        3 <= g.rows,
        3 <= g.cols,
        0 <= a <= g.rows - 3,
        0 <= c <= g.cols - 3,
        0 <= i < 4,
        4 < k < 9,
    ensures
        trio_hit(sweep_chunks(g, 3, 3)[a][c], i, 4, k) <==> centred_non_dots(g, trio_at(a, c, i, 4, k)),
{
    lemma_sweep_shape(g, 3, 3);
    lemma_trio_cell(i);
    lemma_trio_cell(4);
    lemma_trio_cell(k);
    let m = sweep_chunks(g, 3, 3)[a][c];
    let (ci, cj, ck) = (trio_cell(i), trio_cell(4), trio_cell(k));
    assert(m.at(ci[0] as int, ci[1] as int) == !is_dot(g.at(a + ci[0], c + ci[1])));
    assert(m.at(cj[0] as int, cj[1] as int) == !is_dot(g.at(a + cj[0], c + cj[1])));
    assert(m.at(ck[0] as int, ck[1] as int) == !is_dot(g.at(a + ck[0], c + ck[1])));
    if ci[1] != 0 {
        lemma_trio_cell(i - 1);
        let cp = trio_cell(i - 1);
        assert(m.at(cp[0] as int, cp[1] as int) == !is_dot(g.at(a + cp[0], c + cp[1])));
    }
    if ck[1] != 0 {
        lemma_trio_cell(k - 1);
        let cp = trio_cell(k - 1);
        assert(m.at(cp[0] as int, cp[1] as int) == !is_dot(g.at(a + cp[0], c + cp[1])));
    }
    let t = trio_at(a, c, i, 4, k);
    assert(reads_before(t.0, t.1));
    assert(reads_before(t.1, t.2));
}

/// The 3×3 sweep finds exactly the centred trios: a trio is found by sweeping
/// the chunked masks of the 3×3 windows of a grid of at least three rows and
/// three columns if and only if its middle cell is a non-dot cell away from
/// the border, and its first and last cells are non-dot cells around it, the
/// first before it and the last after it in reading order, each opening a
/// stretch of non-dots in its row of the block centred on the middle cell.
pub proof fn law_trio_sweep_finds_centred_non_dots(g: GridView, t: Trio)
    requires
        g.wf(),
        3 <= g.rows,
        3 <= g.cols,
    ensures
        trio_found(sweep_chunks(g, 3, 3), t) <==> centred_non_dots(g, t),
{
    let chunks = sweep_chunks(g, 3, 3);
    lemma_sweep_shape(g, 3, 3);
    if trio_found(chunks, t) {
        let (a, c, i, j, k) = choose|a: int, c: int, i: int, j: int, k: int|
            0 <= a < chunks.len() && 0 <= c < chunks[a].len() && 0 <= i < j && j < k && k < 9
                && #[trigger] trio_hit(chunks[a][c], i, j, k) && t == #[trigger] trio_at(a, c, i, j, k);
        lemma_trio_witness(g, a, c, i, k);
    }
    if centred_non_dots(g, t) {
        let a = t.1.0 - 1;
        let c = t.1.1 - 1;
        let i = 3 * (t.0.0 - a) + (t.0.1 - c);
        let k = 3 * (t.2.0 - a) + (t.2.1 - c);
        lemma_fundamental_div_mod_converse(i, 3, t.0.0 - a, t.0.1 - c);
        lemma_fundamental_div_mod_converse(4, 3, 1, 1);
        lemma_fundamental_div_mod_converse(k, 3, t.2.0 - a, t.2.1 - c);
        assert(t == trio_at(a, c, i, 4, k));
        lemma_trio_witness(g, a, c, i, k);
        assert(trio_hit(chunks[a][c], i, 4, k));
    }
}

proof fn lemma_run_bounds_step(row: Seq<Seq<char>>, c: int)
    requires
        0 <= c < row.len(),
        has_numeric(row[c]),
    ensures
        run_start(row, c + 1) == run_start(row, c),
        run_end(row, c) == run_end(row, c + 1),
{
}

/// Following a number gives the same from every column of its run: from two
/// columns of one row between which every cell is numeric (the second may be
/// the column just past the run), the number read and the columns reported
/// are the same.
pub proof fn law_trace_same_along_run(g: GridView, r: int, c1: int, c2: int)
    requires
        g.wf(),
        0 <= r < g.rows,
        0 <= c1 <= c2 <= g.cols,
        forall|k: int| c1 <= k < c2 ==> has_numeric(#[trigger] g.at(r, k)),
    ensures
        trace_of(g, r, c1) == trace_of(g, r, c2),
    decreases c2 - c1,
{
    if c1 < c2 {
        let row = g.row(r);
        crate::grid::lemma_cell_index(r, c1, g.rows as int, g.cols as int);
        crate::grid::lemma_cell_index(r, g.cols - 1, g.rows as int, g.cols as int);
        assert(row[c1] == g.at(r, c1));
        lemma_run_bounds_step(row, c1);
        law_trace_same_along_run(g, r, c1 + 1, c2);
    }
}

/// Following a number gives the same from every digit of it: from two
/// columns of one row whose cells, and all those between them, are single
/// ASCII digits, the number read and the columns reported are the same.
pub proof fn law_trace_same_along_digits(g: GridView, r: int, c1: int, c2: int)
    requires
        g.wf(),
        0 <= r < g.rows,
        0 <= c1 <= c2 < g.cols,
        forall|k: int| c1 <= k <= c2 ==> (#[trigger] g.at(r, k)).len() == 1 && is_ascii_digit(g.at(r, k)[0]),
    ensures
        trace_of(g, r, c1) == trace_of(g, r, c2),
{
    assert forall|k: int| c1 <= k < c2 implies has_numeric(#[trigger] g.at(r, k)) by {
        assert(numeric_char(g.at(r, k)[0]));
    }
    law_trace_same_along_run(g, r, c1, c2);
}

proof fn lemma_small_decimal(v: int)
    requires
        0 <= v <= 9,
    ensures
        decimal(v) == seq![digit_char(v)],
{
    assert(decimal(v) == crate::text::natural_digits(v as nat));
}

proof fn lemma_digit_char_injective(d1: int, d2: int)
    requires
        0 <= d1 <= 9,
        0 <= d2 <= 9,
        digit_char(d1) == digit_char(d2),
    ensures
        d1 == d2,
{
}

proof fn lemma_small_run_columns(lo: int, hi: int)
    requires
        0 <= lo <= hi <= 9,
    ensures
        run_columns(lo, hi).len() == hi - lo,
        forall|m: int| 0 <= m < hi - lo ==> #[trigger] run_columns(lo, hi)[m] == digit_char(lo + m + 1),
    decreases hi - lo,
{
    if lo < hi {
        lemma_small_run_columns(lo, hi - 1);
        lemma_small_decimal(hi);
        assert((hi as i16) as int == hi);
    }
}

/// In a grid of at most ten rows and nine columns, the columns and row that
/// following a number reports tell its run apart from every other: two runs,
/// given by their row and their columns `lo..hi`, report the same text if and
/// only if they are the same run.  (With more columns or rows, written in
/// decimal one after the other, two runs can report the same text.)
pub proof fn law_run_key_tells_runs_apart(r1: int, lo1: int, hi1: int, r2: int, lo2: int, hi2: int)
    requires
        0 <= r1 < 10,
        0 <= r2 < 10,
        0 <= lo1 < hi1 <= 9,
        0 <= lo2 < hi2 <= 9,
    ensures
        (run_columns(lo1, hi1) + decimal((r1 as i16) as int) == run_columns(lo2, hi2) + decimal(
            (r2 as i16) as int,
        )) <==> (r1 == r2 && lo1 == lo2 && hi1 == hi2),
{
    lemma_small_run_columns(lo1, hi1);
    lemma_small_run_columns(lo2, hi2);
    assert((r1 as i16) as int == r1);
    assert((r2 as i16) as int == r2);
    lemma_small_decimal(r1);
    lemma_small_decimal(r2);
    let k1 = run_columns(lo1, hi1) + decimal(r1);
    let k2 = run_columns(lo2, hi2) + decimal(r2);
    if k1 == k2 {
        assert(k1.len() == hi1 - lo1 + 1);
        assert(k2.len() == hi2 - lo2 + 1);
        assert(k1[hi1 - lo1] == digit_char(r1));
        assert(k2[hi2 - lo2] == digit_char(r2));
        lemma_digit_char_injective(r1, r2);
        assert(k1[0] == digit_char(lo1 + 1));
        assert(k2[0] == digit_char(lo2 + 1));
        lemma_digit_char_injective(lo1 + 1, lo2 + 1);
    }
}

/// In a grid of at most ten rows and nine columns, following numbers from two
/// numeric cells reports the same columns and row if and only if the two
/// cells lie in the same run of numeric cells of one row.
pub proof fn law_trace_key_tells_runs_apart(g: GridView, r1: int, c1: int, r2: int, c2: int)
    requires
        g.wf(),
        g.rows <= 10,
        g.cols <= 9,
        0 <= r1 < g.rows,
        0 <= c1 < g.cols,
        0 <= r2 < g.rows,
        0 <= c2 < g.cols,
        has_numeric(g.at(r1, c1)),
        has_numeric(g.at(r2, c2)),
        trace_of(g, r1, c1) is Some,
        trace_of(g, r2, c2) is Some,
    ensures
        trace_of(g, r1, c1)->Some_0.1 == trace_of(g, r2, c2)->Some_0.1 <==> (r1 == r2 && run_start(
            g.row(r1),
            c1,
        ) == run_start(g.row(r2), c2) && run_end(g.row(r1), c1) == run_end(g.row(r2), c2)),
{
    lemma_row_cell(g, r1, c1);
    lemma_row_cell(g, r2, c2);
    let (row1, row2) = (g.row(r1), g.row(r2));
    lemma_run_start_bounds(row1, c1);
    lemma_run_start_bounds(row2, c2);
    lemma_run_end_bounds(row1, c1 + 1);
    lemma_run_end_bounds(row2, c2 + 1);
    assert(run_end(row1, c1) == run_end(row1, c1 + 1));
    assert(run_end(row2, c2) == run_end(row2, c2 + 1));
    law_run_key_tells_runs_apart(
        r1,
        run_start(row1, c1),
        run_end(row1, c1),
        r2,
        run_start(row2, c2),
        run_end(row2, c2),
    );
}

/// Every cell of the grid is one ASCII character.
pub open spec fn ascii_grid(g: GridView) -> bool {
    forall|i: int| 0 <= i < g.cells.len() ==> ascii_cell(#[trigger] g.cells[i])
}

/// Whether the cell in row `r` and column `c` holds a digit.
pub open spec fn digit_at(g: GridView, r: int, c: int) -> bool {
    is_ascii_digit(g.at(r, c)[0])
}

/// Columns `lo..hi` of row `r` are a whole run of digit cells: each of them
/// holds a digit, and neither the cell before nor the cell after the run (if
/// the row has them) does.
pub open spec fn digit_run(g: GridView, r: int, lo: int, hi: int) -> bool {
    &&& 0 <= r < g.rows
    &&& 0 <= lo < hi <= g.cols
    &&& forall|k: int| lo <= k < hi ==> #[trigger] digit_at(g, r, k)
    &&& (lo == 0 || !digit_at(g, r, lo - 1))
    &&& (hi == g.cols || !digit_at(g, r, hi))
}

/// On a cell of one ASCII character, having a numeric character is being a
/// digit, and having a non-numeric one is not being a digit.
pub proof fn lemma_ascii_cell_numeric(s: Seq<char>)
    requires
        ascii_cell(s),
    ensures
        has_numeric(s) <==> is_ascii_digit(s[0]),
        has_non_numeric(s) <==> !is_ascii_digit(s[0]),
{
    assert(numeric_char(s[0]) == is_ascii_digit(s[0]));
}

#[verifier::spinoff_prover]
proof fn lemma_ascii_row(g: GridView, r: int)
    requires
        g.wf(),
        ascii_grid(g),
        0 <= r < g.rows,
    ensures
        g.row(r).len() == g.cols,
        forall|k: int| 0 <= k < g.cols ==> #[trigger] g.row(r)[k] == g.at(r, k) && ascii_cell(g.at(r, k))
            && (has_numeric(g.row(r)[k]) <==> digit_at(g, r, k)),
{
    assert forall|k: int| 0 <= k < g.cols implies #[trigger] g.row(r)[k] == g.at(r, k) && ascii_cell(g.at(r, k))
        && (has_numeric(g.row(r)[k]) <==> digit_at(g, r, k)) by {
        lemma_row_cell(g, r, k);
        crate::grid::lemma_cell_index(r, k, g.rows as int, g.cols as int);
        assert(ascii_cell(g.cells[r * g.cols + k]));
        assert(g.at(r, k) == g.cells[r * g.cols + k]);
        lemma_ascii_cell_numeric(g.at(r, k));
    }
    if g.cols > 0 {
        lemma_row_cell(g, r, 0);
    } else {
        crate::trace::lemma_row_len(g, r);
    }
}

proof fn lemma_start_of_run(row: Seq<Seq<char>>, lo: int, c: int)
    requires
        0 <= lo <= c <= row.len(),
        forall|k: int| lo <= k < c ==> has_numeric(#[trigger] row[k]),
        lo == 0 || !has_numeric(row[lo - 1]),
    ensures
        run_start(row, c) == lo,
    decreases c - lo,
{
    if c > lo {
        lemma_start_of_run(row, lo, c - 1);
    }
}

proof fn lemma_end_of_run(row: Seq<Seq<char>>, c: int, hi: int)
    requires
        0 <= c <= hi <= row.len(),
        forall|k: int| c <= k < hi ==> has_numeric(#[trigger] row[k]),
        hi == row.len() || !has_numeric(row[hi]),
    ensures
        run_end(row, c) == hi,
    decreases hi - c,
{
    if c < hi {
        lemma_end_of_run(row, c + 1, hi);
    }
}

/// In a grid of ASCII characters, following the number from any cell of a
/// whole run of digits succeeds and reads that run: the number is the run's
/// digits, and the columns reported are those of the run, then its row.
pub proof fn law_trace_reads_digit_run(g: GridView, r: int, lo: int, hi: int, c: int)
    requires
        g.wf(),
        ascii_grid(g),
        digit_run(g, r, lo, hi),
        lo <= c < hi,
    ensures
        trace_of(g, r, c) == Some(
            (g.row(r).subrange(lo, hi).flatten(), run_columns(lo, hi) + decimal((r as i16) as int)),
        ),
{
    let row = g.row(r);
    lemma_ascii_row(g, r);
    assert(lo > 0 ==> row[lo - 1] == g.at(r, lo - 1));
    assert(hi < g.cols ==> row[hi] == g.at(r, hi));
    assert forall|k: int| lo <= k < hi implies has_numeric(#[trigger] row[k]) by {
        assert(digit_at(g, r, k));
    }
    lemma_start_of_run(row, lo, c);
    lemma_end_of_run(row, c, hi);
    assert forall|k: int| lo <= k < hi implies (#[trigger] row[k]).len() == 1 && is_ascii_digit(row[k][0]) by {
        assert(digit_at(g, r, k));
    }
    law_digit_run_reads_its_digits(row, lo, hi);
}

/// In a grid of ASCII characters of at most ten rows and nine columns, the
/// columns and row reported when following numbers from two digit cells are
/// the same if and only if the two cells lie in the same whole run of digits.
pub proof fn law_digit_run_keys_tell_runs_apart(
    g: GridView,
    r1: int,
    lo1: int,
    hi1: int,
    c1: int,
    r2: int,
    lo2: int,
    hi2: int,
    c2: int,
)
    requires
        g.wf(),
        ascii_grid(g),
        g.rows <= 10,
        g.cols <= 9,
        digit_run(g, r1, lo1, hi1),
        lo1 <= c1 < hi1,
        digit_run(g, r2, lo2, hi2),
        lo2 <= c2 < hi2,
    ensures
        trace_of(g, r1, c1) is Some,
        trace_of(g, r2, c2) is Some,
        trace_of(g, r1, c1)->Some_0.1 == trace_of(g, r2, c2)->Some_0.1 <==> (r1 == r2 && lo1 == lo2 && hi1
            == hi2),
{
    law_trace_reads_digit_run(g, r1, lo1, hi1, c1);
    law_trace_reads_digit_run(g, r2, lo2, hi2, c2);
    law_run_key_tells_runs_apart(r1, lo1, hi1, r2, lo2, hi2);
}

/// Whether a window cell (row, column) lies in a 3×3 window.
pub open spec fn in_window(p: Seq<usize>) -> bool {
    p.len() == 2 && p[0] < 3 && p[1] < 3
}

/// Whether two window cells are different and touch, sideways, up and down,
/// or across a corner.
pub open spec fn window_neighbours(p: Seq<usize>, q: Seq<usize>) -> bool {
    &&& (p[0] != q[0] || p[1] != q[1])
    &&& p[0] <= q[0] + 1
    &&& q[0] <= p[0] + 1
    &&& p[1] <= q[1] + 1
    &&& q[1] <= p[1] + 1
}

/// The number of a window cell, row by row.
pub open spec fn window_cell_number(p: Seq<usize>) -> int {
    3 * p[0] + p[1]
}

/// The position at which the trio table lists the trio whose cells have the
/// numbers of `code` (in base nine); 18 for a trio it does not list.
spec fn trio_table_position(code: int) -> int {
    if code == 33 {
        0
    } else if code == 124 {
        1
    } else if code == 215 {
        2
    } else if code == 11 {
        3
    } else if code == 284 {
        4
    } else if code == 557 {
        5
    } else if code == 524 {
        6
    } else if code == 44 {
        7
    } else if code == 42 {
        8
    } else if code == 206 {
        9
    } else if code == 43 {
        10
    } else if code == 205 {
        11
    } else if code == 281 {
        12
    } else if code == 287 {
        13
    } else if code == 280 {
        14
    } else if code == 442 {
        15
    } else if code == 286 {
        16
    } else if code == 448 {
        17
    } else {
        18
    }
}

/// The numbers of a trio's cells, in base nine.
spec fn trio_code(t: (Seq<usize>, Seq<usize>, Seq<usize>)) -> int {
    window_cell_number(t.0) * 81 + window_cell_number(t.1) * 9 + window_cell_number(t.2)
}

proof fn lemma_trio_table_entry(position: int)
    requires
        0 <= position < 18,
    ensures
        in_window(trio_position_cells(position).0),
        in_window(trio_position_cells(position).1),
        in_window(trio_position_cells(position).2),
        window_neighbours(trio_position_cells(position).0, trio_position_cells(position).1),
        window_neighbours(trio_position_cells(position).1, trio_position_cells(position).2),
        window_cell_number(trio_position_cells(position).0) != window_cell_number(trio_position_cells(position).2),
        trio_table_position(trio_code(trio_position_cells(position))) == position,
{
    if position == 0 {
    } else if position == 1 {
    } else if position == 2 {
    } else if position == 3 {
    } else if position == 4 {
    } else if position == 5 {
    } else if position == 6 {
    } else if position == 7 {
    } else if position == 8 {
    } else if position == 9 {
    } else if position == 10 {
    } else if position == 11 {
    } else if position == 12 {
    } else if position == 13 {
    } else if position == 14 {
    } else if position == 15 {
    } else if position == 16 {
    } else {
    }
}

/// Every trio of the table is a chain of three different cells of the 3×3
/// window, each touching the next, and no two positions list the same trio.
pub proof fn law_trio_table_chains_window_cells(position: int, other: int)
    requires
        0 <= position < 18,
        0 <= other < 18,
    ensures
        in_window(trio_position_cells(position).0),
        in_window(trio_position_cells(position).1),
        in_window(trio_position_cells(position).2),
        window_neighbours(trio_position_cells(position).0, trio_position_cells(position).1),
        window_neighbours(trio_position_cells(position).1, trio_position_cells(position).2),
        window_cell_number(trio_position_cells(position).0) != window_cell_number(trio_position_cells(position).2),
        position != other ==> trio_position_cells(position) != trio_position_cells(other),
{
    lemma_trio_table_entry(position);
    lemma_trio_table_entry(other);
}

proof fn lemma_chunk_start_inside(n: nat, size: nat, i: int)
    requires
        size > 0,
        0 <= i < chunk_count(n, size),
    ensures
        i * size < n,
    decreases n,
{
    if i > 0 {
        assert(n > size);
        lemma_chunk_start_inside((n - size) as nat, size, i - 1);
        assert(i * size == (i - 1) * size + size) by (nonlinear_arith);
    } else {
        assert(i * size == 0);
    }
}

/// Chunking keeps every item once and in order: the chunks, put back one
/// after the other, give the sequence that was cut.
pub proof fn law_chunks_concatenate_to_input<A>(s: Seq<A>, size: nat)
    requires
        size > 0,
    ensures
        chunks_of(s, size).flatten() == s,
    decreases s.len(),
{
    let cs = chunks_of(s, size);
    if s.len() == 0 {
        assert(cs.len() == 0);
    } else if s.len() <= size {
        assert(cs.len() == 1);
        assert(cs.drop_first().len() == 0);
        assert(cs.first() =~= s);
        assert(cs.first() + cs.drop_first().flatten() =~= s);
    } else {
        let rest = s.skip(size as int);
        law_chunks_concatenate_to_input(rest, size);
        assert(cs.first() =~= s.take(size as int));
        assert forall|i: int| 0 <= i < cs.drop_first().len() implies #[trigger] cs.drop_first()[i]
            == chunks_of(rest, size)[i] by {
            assert((i + 1) * size == i * size + size) by (nonlinear_arith);
            assert(0 <= i * size) by (nonlinear_arith)
                requires
                    0 <= i,
            ;
            lemma_chunk_start_inside(rest.len(), size, i);
            let st = i * size;
            let e = if st + size <= rest.len() { st + size } else { rest.len() as int };
            assert(cs.drop_first()[i] == cs[i + 1]);
            assert(cs[i + 1] == chunk_of(s, size, i + 1));
            assert(chunk_of(s, size, i + 1) == s.subrange(st + size, e + size));
            assert(chunks_of(rest, size)[i] == rest.subrange(st, e));
            assert(cs.drop_first()[i] =~= chunks_of(rest, size)[i]);
        }
        assert(cs.drop_first() =~= chunks_of(rest, size));
        assert(s.take(size as int) + rest =~= s);
    }
}

proof fn lemma_digit_char_of(c: char)
    requires
        is_ascii_digit(c),
    ensures
        digit_char(c as int - '0' as int) == c,
{
    let d = c as int - '0' as int;
    if d == 0 {
        assert(c == '0');
    } else if d == 1 {
        assert(c == '1');
    } else if d == 2 {
        assert(c == '2');
    } else if d == 3 {
        assert(c == '3');
    } else if d == 4 {
        assert(c == '4');
    } else if d == 5 {
        assert(c == '5');
    } else if d == 6 {
        assert(c == '6');
    } else if d == 7 {
        assert(c == '7');
    } else if d == 8 {
        assert(c == '8');
    } else {
        assert(c == '9');
    }
}

proof fn lemma_digit_cell(s: Seq<char>)
    requires
        s.len() == 1,
        is_ascii_digit(s[0]),
    ensures
        parsed_i32(s) is Some,
        decimal(parsed_i32(s)->Some_0 as int) == s,
{
    assert(s.drop_last() =~= Seq::<char>::empty());
    assert(crate::text::digits_value(s.drop_last()) == 0);
    assert(s.last() == s[0]);
    assert(crate::text::digits_value(s) == s[0] as int - '0' as int);
    lemma_digit_char_of(s[0]);
    assert(seq![digit_char(s[0] as int - '0' as int)] =~= s);
}

/// Reading a run of digit cells gives its digits: when every cell of
/// columns `lo..hi` of a row is a single ASCII digit, the number read from
/// them is those digits, one after the other.
pub proof fn law_digit_run_reads_its_digits(row: Seq<Seq<char>>, lo: int, hi: int)
    requires
        0 <= lo <= hi <= row.len(),
        forall|k: int| lo <= k < hi ==> (#[trigger] row[k]).len() == 1 && is_ascii_digit(row[k][0]),
    ensures
        run_number(row, lo, hi) == Some(row.subrange(lo, hi).flatten()),
    decreases hi - lo,
{
    row.subrange(lo, hi).lemma_flatten_and_flatten_alt_are_equivalent();
    if lo < hi {
        law_digit_run_reads_its_digits(row, lo, hi - 1);
        row.subrange(lo, hi - 1).lemma_flatten_and_flatten_alt_are_equivalent();
        lemma_digit_cell(row[hi - 1]);
        assert(row.subrange(lo, hi).drop_last() =~= row.subrange(lo, hi - 1));
    } else {
        assert(row.subrange(lo, hi) =~= Seq::<Seq<char>>::empty());
    }
}

/// Whether the cell `p` holds a symbol: neither a dot nor a digit.
pub open spec fn symbol_at(g: GridView, p: Cell) -> bool {
    !is_dot(g.at(p.0 as int, p.1 as int)) && !is_ascii_digit(g.at(p.0 as int, p.1 as int)[0])
}

/// Whether `q` is one of the eight cells around `p`.
pub open spec fn next_to(p: Cell, q: Cell) -> bool {
    touching(p, q) || touching(q, p)
}

/// Whether some cell of columns `lo..hi` of row `r` has a symbol of the grid
/// next to it.
pub open spec fn run_touches_symbol(g: GridView, r: int, lo: int, hi: int) -> bool {
    exists|k: int, q: Cell|
        lo <= k < hi && in_grid(g, q) && #[trigger] next_to((r as usize, k as usize), q) && symbol_at(g, q)
}

/// The columns and row text that following a number of columns `lo..hi` of
/// row `r` reports.
pub open spec fn run_key(r: int, lo: int, hi: int) -> Seq<char> {
    run_columns(lo, hi) + decimal((r as i16) as int)
}

/// The text of columns `lo..hi` of row `r`, cell after cell.
pub open spec fn run_digits(g: GridView, r: int, lo: int, hi: int) -> Seq<char> {
    g.row(r).subrange(lo, hi).flatten()
}

/// Whether an entry (columns text, number text) is that of a whole run of
/// digits with a symbol next to it.
pub open spec fn part_entry(g: GridView, e: (Seq<char>, Seq<char>)) -> bool {
    exists|r: int, lo: int, hi: int|
        digit_run(g, r, lo, hi) && run_touches_symbol(g, r, lo, hi) && e == (#[trigger] run_key(r, lo, hi), run_digits(
            g,
            r,
            lo,
            hi,
        ))
}

/// The cell of a pair whose number is followed.
pub open spec fn number_cell(g: GridView, p: Pair) -> Cell {
    if numeric_first(g, p) { p.0 } else { p.1 }
}

/// The entry that following the number of a pair gives.
pub open spec fn pair_entry(g: GridView, p: Pair) -> (Seq<char>, Seq<char>) {
    let c = number_cell(g, p);
    let t = trace_of(g, c.0 as int, c.1 as int)->Some_0;
    (t.1, t.0)
}

proof fn lemma_digit_run_of(g: GridView, r: int, c: int)
    requires
        g.wf(),
        ascii_grid(g),
        0 <= r < g.rows,
        0 <= c < g.cols,
        digit_at(g, r, c),
    ensures
        digit_run(g, r, run_start(g.row(r), c), run_end(g.row(r), c)),
        run_start(g.row(r), c) <= c < run_end(g.row(r), c),
{
    let row = g.row(r);
    lemma_ascii_row(g, r);
    lemma_run_start_bounds(row, c);
    lemma_run_end_bounds(row, c + 1);
    assert(has_numeric(row[c]));
    assert(run_end(row, c) == run_end(row, c + 1));
    let lo = run_start(row, c);
    let hi = run_end(row, c);
    assert forall|k: int| lo <= k < hi implies #[trigger] digit_at(g, r, k) by {
        if k < c {
            assert(has_numeric(row[k]));
        } else if k > c {
            assert(has_numeric(row[k]));
        }
    }
}

proof fn lemma_entry_of_pair(g: GridView, p: Pair)
    requires
        g.wf(),
        ascii_grid(g),
        touching_non_dots(g, p),
        numeric_first(g, p) || numeric_second(g, p),
    ensures
        trace_of(g, number_cell(g, p).0 as int, number_cell(g, p).1 as int) is Some,
        part_entry(g, pair_entry(g, p)),
{
    let c = number_cell(g, p);
    let other = if numeric_first(g, p) { p.1 } else { p.0 };
    let (r, k) = (c.0 as int, c.1 as int);
    lemma_ascii_row(g, r);
    lemma_ascii_row(g, other.0 as int);
    assert(g.row(r)[k] == g.at(r, k));
    assert(g.row(other.0 as int)[other.1 as int] == g.at(other.0 as int, other.1 as int));
    lemma_ascii_cell_numeric(g.at(r, k));
    lemma_ascii_cell_numeric(g.at(other.0 as int, other.1 as int));
    assert(digit_at(g, r, k));
    lemma_digit_run_of(g, r, k);
    let lo = run_start(g.row(r), k);
    let hi = run_end(g.row(r), k);
    law_trace_reads_digit_run(g, r, lo, hi, k);
    assert(next_to((r as usize, k as usize), other));
    assert(run_touches_symbol(g, r, lo, hi));
    assert(pair_entry(g, p) == (run_key(r, lo, hi), run_digits(g, r, lo, hi)));
}

proof fn lemma_part_number_traces_cover(g: GridView, pairs: Seq<Pair>)
    requires
        g.wf(),
        ascii_grid(g),
        forall|j: int| 0 <= j < pairs.len() ==> touching_non_dots(g, #[trigger] pairs[j]),
    ensures
        part_number_traces(g, pairs) is Some,
        forall|i: int|
            0 <= i < part_number_traces(g, pairs)->Some_0.len() ==> part_entry(
                g,
                #[trigger] part_number_traces(g, pairs)->Some_0[i],
            ),
        forall|j: int|
            0 <= j < pairs.len() && (numeric_first(g, pairs[j]) || numeric_second(g, pairs[j]))
                ==> part_number_traces(g, pairs)->Some_0.contains(pair_entry(g, #[trigger] pairs[j])),
    decreases pairs.len(),
{
    if pairs.len() > 0 {
        let rest = pairs.drop_last();
        lemma_part_number_traces_cover(g, rest);
        let p = pairs.last();
        let es = part_number_traces(g, rest)->Some_0;
        assert(touching_non_dots(g, pairs[pairs.len() - 1]));
        if numeric_first(g, p) || numeric_second(g, p) {
            lemma_entry_of_pair(g, p);
            let all = es.push(pair_entry(g, p));
            assert(part_number_traces(g, pairs) == Some(all));
            assert(all[es.len() as int] == pair_entry(g, p));
            assert forall|j: int|
                0 <= j < pairs.len() && (numeric_first(g, pairs[j]) || numeric_second(g, pairs[j])) implies all.contains(
                pair_entry(g, #[trigger] pairs[j]),
            ) by {
                if j < rest.len() {
                    assert(rest[j] == pairs[j]);
                    let x = choose|x: int| 0 <= x < es.len() && es[x] == pair_entry(g, rest[j]);
                    assert(all[x] == es[x]);
                }
            }
        } else {
            assert forall|j: int|
                0 <= j < pairs.len() && (numeric_first(g, pairs[j]) || numeric_second(g, pairs[j])) implies es.contains(
                pair_entry(g, #[trigger] pairs[j]),
            ) by {
                assert(rest[j] == pairs[j]);
            }
        }
    }
}

proof fn lemma_first_by_key_keeps<K, V>(es: Seq<(K, V)>)
    ensures
        forall|i: int| 0 <= i < first_by_key(es).len() ==> es.contains(#[trigger] first_by_key(es)[i]),
        forall|k: K| has_key(first_by_key(es), k) <==> has_key(es, k),
        forall|i: int, j: int|
            0 <= i < j < first_by_key(es).len() ==> (#[trigger] first_by_key(es)[i]).0 != (
            #[trigger] first_by_key(es)[j]).0,
    decreases es.len(),
{
    if es.len() > 0 {
        let rest = es.drop_last();
        lemma_first_by_key_keeps(rest);
        let d = first_by_key(rest);
        let e = es.last();
        let f = first_by_key(es);
        assert forall|i: int| 0 <= i < f.len() implies es.contains(#[trigger] f[i]) by {
            if i < d.len() {
                let x = choose|x: int| 0 <= x < rest.len() && rest[x] == d[i];
                assert(es[x] == rest[x]);
            } else {
                assert(es[es.len() - 1] == e);
            }
        }
        assert forall|k: K| has_key(f, k) <==> has_key(es, k) by {
            if has_key(es, k) {
                let x = choose|x: int| 0 <= x < es.len() && (#[trigger] es[x]).0 == k;
                if x < rest.len() {
                    assert(rest[x] == es[x]);
                    assert(has_key(rest, k));
                    assert(has_key(d, k));
                    let y = choose|y: int| 0 <= y < d.len() && (#[trigger] d[y]).0 == k;
                    assert(f[y] == d[y]);
                } else if !has_key(d, e.0) {
                    assert(f[d.len() as int] == e);
                }
            }
            if has_key(f, k) {
                let y = choose|y: int| 0 <= y < f.len() && (#[trigger] f[y]).0 == k;
                if y < d.len() {
                    assert(f[y] == d[y]);
                    assert(has_key(d, k));
                    let x = choose|x: int| 0 <= x < rest.len() && (#[trigger] rest[x]).0 == k;
                    assert(es[x] == rest[x]);
                } else {
                    assert(es[es.len() - 1].0 == k);
                }
            }
        }
        assert forall|i: int, j: int| 0 <= i < j < f.len() implies (#[trigger] f[i]).0 != (#[trigger] f[j]).0 by {
            if j < d.len() {
                assert(f[i] == d[i] && f[j] == d[j]);
            } else {
                assert(f[i] == d[i]);
                assert(!has_key(d, e.0));
            }
        }
    }
}

/// A non-empty text of ASCII digits.
pub open spec fn digit_text(s: Seq<char>) -> bool {
    s.len() > 0 && forall|i: int| 0 <= i < s.len() ==> is_ascii_digit(#[trigger] s[i])
}

/// The values of texts of digits, read in base ten.
pub open spec fn digit_values(vals: Seq<Seq<char>>) -> Seq<int> {
    vals.map_values(|v: Seq<char>| digits_value(v))
}

proof fn lemma_digits_value_nonneg(s: Seq<char>)
    requires
        forall|i: int| 0 <= i < s.len() ==> is_ascii_digit(#[trigger] s[i]),
    ensures
        digits_value(s) >= 0,
    decreases s.len(),
{
    if s.len() > 0 {
        lemma_digits_value_nonneg(s.drop_last());
        assert(is_ascii_digit(s[s.len() - 1]));
    }
}

proof fn lemma_parsed_digit_text(s: Seq<char>)
    requires
        digit_text(s),
    ensures
        digits_value(s) >= 0,
        parsed_i32(s) == if digits_value(s) <= i32::MAX { Some(digits_value(s) as i32) } else { None::<i32> },
{
    lemma_digits_value_nonneg(s);
    assert(is_ascii_digit(s[0]));
    assert(decimal_value(s) == Some(digits_value(s)));
}

proof fn lemma_flatten_single_chars(cells: Seq<Seq<char>>)
    requires
        forall|k: int| 0 <= k < cells.len() ==> (#[trigger] cells[k]).len() == 1,
    ensures
        cells.flatten().len() == cells.len(),
        forall|k: int| 0 <= k < cells.len() ==> #[trigger] cells.flatten()[k] == cells[k][0],
    decreases cells.len(),
{
    cells.lemma_flatten_and_flatten_alt_are_equivalent();
    if cells.len() > 0 {
        let rest = cells.drop_last();
        lemma_flatten_single_chars(rest);
        rest.lemma_flatten_and_flatten_alt_are_equivalent();
        assert(cells.flatten() == rest.flatten() + cells.last());
        assert forall|k: int| 0 <= k < cells.len() implies #[trigger] cells.flatten()[k] == cells[k][0] by {
            if k < rest.len() {
                assert(rest[k] == cells[k]);
                assert(rest.flatten()[k] == rest[k][0]);
            }
        }
    } else {
        assert(cells.flatten() =~= Seq::<char>::empty());
    }
}

proof fn lemma_run_digits_text(g: GridView, r: int, lo: int, hi: int)
    requires
        g.wf(),
        ascii_grid(g),
        digit_run(g, r, lo, hi),
    ensures
        digit_text(run_digits(g, r, lo, hi)),
{
    lemma_ascii_row(g, r);
    let cells = g.row(r).subrange(lo, hi);
    assert forall|k: int| 0 <= k < cells.len() implies (#[trigger] cells[k]).len() == 1 by {
        assert(cells[k] == g.at(r, lo + k));
    }
    lemma_flatten_single_chars(cells);
    assert forall|i: int| 0 <= i < cells.len() implies is_ascii_digit(#[trigger] cells.flatten()[i]) by {
        assert(cells[i] == g.at(r, lo + i));
        assert(digit_at(g, r, lo + i));
    }
}

/// Adding the `i32` values of texts of digits in order gives the sum of
/// their values: it succeeds exactly when each value and their sum fit in an
/// `i32`, and then gives that sum.
pub proof fn lemma_sum_parsed_digit_texts(vals: Seq<Seq<char>>)
    requires
        forall|i: int| 0 <= i < vals.len() ==> digit_text(#[trigger] vals[i]),
    ensures
        int_sum(digit_values(vals)) >= 0,
        sum_parsed_i32(vals) == if (forall|i: int| 0 <= i < vals.len() ==> digits_value(#[trigger] vals[i])
            <= i32::MAX) && int_sum(digit_values(vals)) <= i32::MAX {
            Some(int_sum(digit_values(vals)) as i32)
        } else {
            None
        },
    decreases vals.len(),
{
    if vals.len() > 0 {
        let rest = vals.drop_last();
        let x = vals.last();
        assert(digit_text(vals[vals.len() - 1]));
        assert forall|i: int| 0 <= i < rest.len() implies digit_text(#[trigger] rest[i]) by {
            assert(rest[i] == vals[i]);
        }
        lemma_sum_parsed_digit_texts(rest);
        lemma_parsed_digit_text(x);
        assert(digit_values(vals).drop_last() =~= digit_values(rest));
        assert(digit_values(vals).last() == digits_value(x));
        let all_fit = forall|i: int| 0 <= i < vals.len() ==> digits_value(#[trigger] vals[i]) <= i32::MAX;
        let rest_fit = forall|i: int| 0 <= i < rest.len() ==> digits_value(#[trigger] rest[i]) <= i32::MAX;
        if all_fit {
            assert forall|i: int| 0 <= i < rest.len() implies digits_value(#[trigger] rest[i]) <= i32::MAX by {
                assert(rest[i] == vals[i]);
            }
        }
        if rest_fit && digits_value(x) <= i32::MAX {
            assert forall|i: int| 0 <= i < vals.len() implies digits_value(#[trigger] vals[i]) <= i32::MAX by {
                if i < rest.len() {
                    assert(rest[i] == vals[i]);
                }
            }
        }
    } else {
        assert(digit_values(vals) =~= Seq::<int>::empty());
    }
}

/// In a grid of ASCII characters of two to ten rows and two to nine columns,
/// the sum of the part numbers adds each whole run of digits that has a
/// symbol next to it exactly once: following the numbers never fails, and
/// the numbers it adds, each under the columns and row of its run, are those
/// of runs with a symbol next to them, with no two under the same columns and
/// row, and every such run among them.
pub proof fn law_part_numbers_are_runs_touching_symbols(g: GridView)
    requires
        g.wf(),
        ascii_grid(g),
        2 <= g.rows <= 10,
        2 <= g.cols <= 9,
    ensures
        part_number_traces(g, pair_sweep(g)) is Some,
        ({
            let e = first_by_key(part_number_traces(g, pair_sweep(g))->Some_0);
            &&& forall|i: int| 0 <= i < e.len() ==> part_entry(g, #[trigger] e[i])
            &&& forall|i: int, j: int| 0 <= i < j < e.len() ==> (#[trigger] e[i]).0 != (#[trigger] e[j]).0
            &&& forall|r: int, lo: int, hi: int|
                digit_run(g, r, lo, hi) && run_touches_symbol(g, r, lo, hi) ==> e.contains(
                    (#[trigger] run_key(r, lo, hi), run_digits(g, r, lo, hi)),
                )
            &&& part_number_total(g) == ({
                let vals = e.map_values(|x: (Seq<char>, Seq<char>)| x.1);
                if (forall|i: int| 0 <= i < vals.len() ==> digits_value(#[trigger] vals[i]) <= i32::MAX) && int_sum(
                    digit_values(vals),
                ) <= i32::MAX {
                    Some(int_sum(digit_values(vals)) as i32)
                } else {
                    None
                }
            })
        }),
{
    let pairs = pair_sweep(g);
    let chunks = sweep_chunks(g, 2, 2);
    assert forall|j: int| 0 <= j < pairs.len() implies touching_non_dots(g, #[trigger] pairs[j]) by {
        lemma_distinct_swept_pairs(chunks, pairs[j]);
        law_pair_sweep_finds_touching_non_dots(g, pairs[j]);
    }
    lemma_part_number_traces_cover(g, pairs);
    let es = part_number_traces(g, pairs)->Some_0;
    lemma_first_by_key_keeps(es);
    let e = first_by_key(es);
    assert forall|i: int| 0 <= i < e.len() implies part_entry(g, #[trigger] e[i]) by {
        let x = choose|x: int| 0 <= x < es.len() && es[x] == e[i];
    }
    assert forall|r: int, lo: int, hi: int|
        digit_run(g, r, lo, hi) && run_touches_symbol(g, r, lo, hi) implies e.contains(
        (#[trigger] run_key(r, lo, hi), run_digits(g, r, lo, hi)),
    ) by {
        let (k, q) = choose|k: int, q: Cell|
            lo <= k < hi && in_grid(g, q) && #[trigger] next_to((r as usize, k as usize), q) && symbol_at(g, q);
        let c: Cell = (r as usize, k as usize);
        let p: Pair = if touching(c, q) { (c, q) } else { (q, c) };
        lemma_ascii_row(g, r);
        lemma_ascii_row(g, q.0 as int);
        assert(g.row(r)[k] == g.at(r, k));
        assert(g.row(q.0 as int)[q.1 as int] == g.at(q.0 as int, q.1 as int));
        lemma_ascii_cell_numeric(g.at(r, k));
        lemma_ascii_cell_numeric(g.at(q.0 as int, q.1 as int));
        assert(digit_at(g, r, k));
        assert(touching_non_dots(g, p));
        law_pair_sweep_finds_touching_non_dots(g, p);
        lemma_distinct_swept_pairs(chunks, p);
        let j = choose|j: int| 0 <= j < pairs.len() && pairs[j] == p;
        assert(numeric_first(g, pairs[j]) || numeric_second(g, pairs[j]));
        assert(number_cell(g, p) == c);
        law_trace_reads_digit_run(g, r, lo, hi, k);
        let want = (run_key(r, lo, hi), run_digits(g, r, lo, hi));
        assert(pair_entry(g, p) == want);
        assert(es.contains(want));
        let x = choose|x: int| 0 <= x < es.len() && es[x] == want;
        assert(has_key(es, want.0));
        assert(has_key(e, want.0));
        let y = choose|y: int| 0 <= y < e.len() && (#[trigger] e[y]).0 == want.0;
        assert(part_entry(g, e[y]));
        let (r2, lo2, hi2) = choose|r2: int, lo2: int, hi2: int|
            digit_run(g, r2, lo2, hi2) && run_touches_symbol(g, r2, lo2, hi2) && e[y] == (
            #[trigger] run_key(r2, lo2, hi2),
            run_digits(g, r2, lo2, hi2),
        );
        law_run_key_tells_runs_apart(r, lo, hi, r2, lo2, hi2);
        assert(e[y] == want);
    }
    let vals = e.map_values(|x: (Seq<char>, Seq<char>)| x.1);
    assert forall|i: int| 0 <= i < vals.len() implies digit_text(#[trigger] vals[i]) by {
        assert(part_entry(g, e[i]));
        let (r, lo, hi) = choose|r: int, lo: int, hi: int|
            digit_run(g, r, lo, hi) && run_touches_symbol(g, r, lo, hi) && e[i] == (
            #[trigger] run_key(r, lo, hi),
            run_digits(g, r, lo, hi),
        );
        lemma_run_digits_text(g, r, lo, hi);
    }
    lemma_sum_parsed_digit_texts(vals);
}

/// The sum of a sequence of integers.
pub open spec fn int_sum(s: Seq<int>) -> int
    decreases s.len(),
{
    if s.len() == 0 {
        0
    } else {
        int_sum(s.drop_last()) + s.last()
    }
}

/// The decimal texts of the columns `lo + 1`, ..., `hi`, one after the other.
pub open spec fn column_texts(lo: int, hi: int) -> Seq<char> {
    Seq::new((hi - lo) as nat, |i: int| decimal(lo + i + 1)).flatten()
}

/// The columns text of a run spells each of its columns in full: for columns
/// `lo..hi` it is the decimal text of `lo + 1`, then of `lo + 2`, and so on up
/// to `hi`, for any columns that an `i16` holds.
pub proof fn law_run_columns_spell_each_column(lo: int, hi: int)
    requires
        0 <= lo <= hi <= i16::MAX,
    ensures
        run_columns(lo, hi) == column_texts(lo, hi),
    decreases hi - lo,
{
    let f = |i: int| decimal(lo + i + 1);
    Seq::new((hi - lo) as nat, f).lemma_flatten_and_flatten_alt_are_equivalent();
    if lo < hi {
        law_run_columns_spell_each_column(lo, hi - 1);
        Seq::new((hi - 1 - lo) as nat, f).lemma_flatten_and_flatten_alt_are_equivalent();
        assert(Seq::new((hi - lo) as nat, f).drop_last() =~= Seq::new((hi - 1 - lo) as nat, f));
        assert(Seq::new((hi - lo) as nat, f).last() == decimal(hi));
        assert((hi as i16) as int == hi);
        assert(column_texts(lo, hi - 1) == Seq::new((hi - 1 - lo) as nat, f).flatten());
    } else {
        assert(Seq::new((hi - lo) as nat, f) =~= Seq::<Seq<char>>::empty());
    }
}

proof fn lemma_no_gear_entries(g: GridView, trios: Seq<Trio>)
    requires
        forall|i: int| 0 <= i < trios.len() ==> !gear_trio(g, #[trigger] trios[i]),
    ensures
        gear_entries(g, trios) == Some(Seq::<(i64, i64)>::empty()),
    decreases trios.len(),
{
    if trios.len() > 0 {
        assert(!gear_trio(g, trios[trios.len() - 1]));
        lemma_no_gear_entries(g, trios.drop_last());
    }
}

/// Only a star makes a gear: the middle cell of every trio that is counted
/// as a gear is a `*` cell.
pub proof fn law_gear_trio_centred_on_star(g: GridView, t: Trio)
    requires
        gear_trio(g, t),
    ensures
        g.at(t.1.0 as int, t.1.1 as int) == seq!['*'],
{
}

/// A grid with no `*` cell has no gear: its sum of gear ratios is zero.
pub proof fn law_no_star_no_gear_ratio(g: GridView)
    requires
        g.wf(),
        forall|i: int| 0 <= i < g.cells.len() ==> #[trigger] g.cells[i] != seq!['*'],
    ensures
        gear_ratio_total(g) == Some(0i64),
{
    let chunks = sweep_chunks(g, 3, 3);
    let trios = trio_sweep(g);
    if g.rows >= 3 && g.cols >= 3 {
        assert forall|i: int| 0 <= i < trios.len() implies !gear_trio(g, #[trigger] trios[i]) by {
            lemma_distinct_swept_trios(chunks, trios[i]);
            law_trio_sweep_finds_centred_non_dots(g, trios[i]);
            let t = trios[i];
            crate::grid::lemma_cell_index(t.1.0 as int, t.1.1 as int, g.rows as int, g.cols as int);
            assert(g.cells[t.1.0 * g.cols + t.1.1] != seq!['*']);
        }
    } else {
        let n = window_count(g.cols, 3);
        let ws = windows_of(g, 3, 3).map_values(|v: GridView| mask_of(v));
        if g.cols < 3 {
            assert(n == 0);
        } else {
            assert(window_count(g.rows, 3) == 0);
            assert(ws.len() == 0);
        }
        assert(chunks.len() == chunk_count(ws.len(), n));
        assert(chunks.len() == 0);
        assert(trios =~= Seq::<Trio>::empty());
    }
    lemma_no_gear_entries(g, trios);
    assert(first_by_key(Seq::<(i64, i64)>::empty()) =~= Seq::<(i64, i64)>::empty());
    assert(first_by_key(Seq::<(i64, i64)>::empty()).map_values(|e: (i64, i64)| e.1) =~= Seq::<i64>::empty());
}

/// The values as integers.
pub open spec fn as_ints(vals: Seq<i64>) -> Seq<int> {
    vals.map_values(|v: i64| v as int)
}

/// Adding `i64`s in order gives their sum whenever it succeeds, and succeeds
/// whenever every running total stays in the `i64` range.
pub proof fn law_sum_i64_is_the_sum(vals: Seq<i64>)
    ensures
        sum_i64(vals) matches Some(t) ==> t == int_sum(vals.map_values(|v: i64| v as int)),
        (forall|k: int| 0 <= k <= vals.len() ==> i64::MIN <= #[trigger] int_sum(
            as_ints(vals.take(k)),
        ) <= i64::MAX) ==> sum_i64(vals) == Some(int_sum(vals.map_values(|v: i64| v as int)) as i64),
    decreases vals.len(),
{
    if vals.len() > 0 {
        let rest = vals.drop_last();
        law_sum_i64_is_the_sum(rest);
        assert(vals.map_values(|v: i64| v as int).drop_last() =~= rest.map_values(|v: i64| v as int));
        assert(vals.take(vals.len() as int) =~= vals);
        if forall|k: int| 0 <= k <= vals.len() ==> i64::MIN <= #[trigger] int_sum(
            as_ints(vals.take(k)),
        ) <= i64::MAX {
            assert forall|k: int| 0 <= k <= rest.len() implies i64::MIN <= #[trigger] int_sum(
                as_ints(rest.take(k)),
            ) <= i64::MAX by {
                assert(rest.take(k) =~= vals.take(k));
                assert(i64::MIN <= int_sum(as_ints(vals.take(k))) <= i64::MAX);
            }
            assert(i64::MIN <= int_sum(as_ints(vals.take(vals.len() as int))) <= i64::MAX);
        }
    } else {
        assert(vals.map_values(|v: i64| v as int) =~= Seq::<int>::empty());
    }
}

/// The sum of the gear ratios adds the first product met under each key,
/// once per key: when it succeeds, it is the sum of the products of the
/// entries that keep the first product of each key (no two of them share a
/// key, and every key met is among them).
pub proof fn law_gear_total_adds_first_product_per_key(g: GridView)
    ensures
        gear_ratio_total(g) matches Some(t) ==> ({
            let es = gear_entries(g, trio_sweep(g))->Some_0;
            let kept = first_by_key(es);
            &&& t == int_sum(kept.map_values(|e: (i64, i64)| e.1 as int))
            &&& forall|i: int, j: int| 0 <= i < j < kept.len() ==> (#[trigger] kept[i]).0 != (#[trigger] kept[j]).0
            &&& forall|k: i64| has_key(kept, k) <==> has_key(es, k)
        }),
{
    if gear_entries(g, trio_sweep(g)) is Some {
        let es = gear_entries(g, trio_sweep(g))->Some_0;
        let kept = first_by_key(es);
        let vals = kept.map_values(|e: (i64, i64)| e.1);
        law_sum_i64_is_the_sum(vals);
        assert(vals.map_values(|v: i64| v as int) =~= kept.map_values(|e: (i64, i64)| e.1 as int));
        lemma_first_by_key_keeps(es);
    }
}

/// The values of the groups, group after group.
pub open spec fn group_values<K, V>(groups: Seq<(K, Seq<V>)>) -> Seq<V>
    decreases groups.len(),
{
    if groups.len() == 0 {
        seq![]
    } else {
        group_values(groups.drop_last()) + groups.last().1
    }
}

proof fn lemma_group_values_grow<K, V>(d: Seq<(K, Seq<V>)>, i: int, k: K, v: V)
    requires
        0 <= i < d.len(),
    ensures
        group_values(d.update(i, (k, d[i].1.push(v)))).to_multiset() == group_values(d).to_multiset().insert(v),
    decreases d.len(),
{
    broadcast use vstd::multiset::group_multiset_axioms;
    let u = d.update(i, (k, d[i].1.push(v)));
    let a = group_values(d.drop_last());
    if i == d.len() - 1 {
        assert(u.drop_last() =~= d.drop_last());
        assert(group_values(u) == a + d[i].1.push(v));
        assert(a + d[i].1.push(v) =~= (a + d[i].1).push(v));
        vstd::seq_lib::to_multiset_build(a + d[i].1, v);
    } else {
        let rest = d.drop_last();
        lemma_group_values_grow(rest, i, k, v);
        assert(u.drop_last() =~= rest.update(i, (k, rest[i].1.push(v))));
        let b = group_values(rest.update(i, (k, rest[i].1.push(v))));
        assert(group_values(u) == b + d.last().1);
        vstd::seq_lib::lemma_multiset_commutative(b, d.last().1);
        vstd::seq_lib::lemma_multiset_commutative(a, d.last().1);
        assert(group_values(u).to_multiset() =~= group_values(d).to_multiset().insert(v));
    }
}

/// Every value in a group comes from an entry with the group's key.
pub proof fn lemma_group_members<K, V>(es: Seq<(K, V)>)
    ensures
        forall|i: int, j: int|
            0 <= i < group_by_key(es).len() && 0 <= j < group_by_key(es)[i].1.len() ==> es.contains(
                (group_by_key(es)[i].0, #[trigger] group_by_key(es)[i].1[j]),
            ),
    decreases es.len(),
{
    if es.len() > 0 {
        let rest = es.drop_last();
        let e = es.last();
        lemma_group_members(rest);
        let d = group_by_key(rest);
        let n = group_by_key(es);
        assert forall|i: int, j: int| 0 <= i < n.len() && 0 <= j < n[i].1.len() implies es.contains(
            (n[i].0, #[trigger] n[i].1[j]),
        ) by {
            if i < d.len() && j < d[i].1.len() && n[i].0 == d[i].0 && n[i].1[j] == d[i].1[j] {
                let x = choose|x: int| 0 <= x < rest.len() && rest[x] == (d[i].0, d[i].1[j]);
                assert(es[x] == rest[x]);
            } else {
                if has_key(d, e.0) {
                    let q = choose|q: int| 0 <= q < d.len() && (#[trigger] d[q]).0 == e.0;
                    if i != q {
                        assert(n[i] == d[i]);
                    } else {
                        assert(n[i] == (e.0, d[q].1.push(e.1)));
                        if j < d[q].1.len() {
                            assert(n[i].1[j] == d[q].1[j]);
                        }
                    }
                } else {
                    if i < d.len() {
                        assert(n[i] == d[i]);
                    }
                }
                assert(es[es.len() - 1] == e);
            }
        }
    }
}

/// Grouping entries by key loses and adds no value: the values of all the
/// groups are, counted with repetition, the values of the entries.
pub proof fn lemma_group_values_multiset<K, V>(es: Seq<(K, V)>)
    ensures
        group_values(group_by_key(es)).to_multiset() == es.map_values(|e: (K, V)| e.1).to_multiset(),
    decreases es.len(),
{
    broadcast use vstd::multiset::group_multiset_axioms;
    if es.len() == 0 {
        assert(es.map_values(|e: (K, V)| e.1) =~= Seq::<V>::empty());
        assert(group_values(group_by_key(es)) =~= Seq::<V>::empty());
    } else {
        let rest = es.drop_last();
        let e = es.last();
        lemma_group_values_multiset(rest);
        let d = group_by_key(rest);
        assert(es.map_values(|x: (K, V)| x.1) =~= rest.map_values(|x: (K, V)| x.1).push(e.1));
        vstd::seq_lib::to_multiset_build(rest.map_values(|x: (K, V)| x.1), e.1);
        if has_key(d, e.0) {
            let i = choose|i: int| 0 <= i < d.len() && (#[trigger] d[i]).0 == e.0;
            lemma_group_values_grow(d, i, e.0, e.1);
        } else {
            let n = d.push((e.0, seq![e.1]));
            assert(n.drop_last() =~= d);
            assert(group_values(n) =~= group_values(d).push(e.1));
            vstd::seq_lib::to_multiset_build(group_values(d), e.1);
        }
    }
}

/// Whether some cell of columns `lo..hi` of row `r` has the star cell `q`
/// next to it.
pub open spec fn run_next_to_star_at(g: GridView, r: int, lo: int, hi: int, q: Cell) -> bool {
    &&& in_grid(g, q)
    &&& is_star(g.at(q.0 as int, q.1 as int))
    &&& exists|k: int| lo <= k < hi && #[trigger] next_to((r as usize, k as usize), q)
}

/// Whether some cell of columns `lo..hi` of row `r` has a star next to it.
pub open spec fn run_next_to_star(g: GridView, r: int, lo: int, hi: int) -> bool {
    exists|q: Cell| #[trigger] run_next_to_star_at(g, r, lo, hi, q)
}

/// Whether an entry (columns text, (star cell, number text)) is that of a
/// whole run of digits with that star next to it.
pub open spec fn star_entry(g: GridView, e: (Seq<char>, (Cell, Seq<char>))) -> bool {
    exists|r: int, lo: int, hi: int|
        digit_run(g, r, lo, hi) && run_next_to_star_at(g, r, lo, hi, e.1.0) && e == (
        #[trigger] run_key(r, lo, hi),
        (e.1.0, run_digits(g, r, lo, hi)),
    )
}

/// The entry that following the number of a pair that joins it to a star
/// gives.
pub open spec fn star_pair_entry(g: GridView, p: Pair) -> (Seq<char>, (Cell, Seq<char>)) {
    let (c, star) = if number_then_star(g, p) { (p.0, p.1) } else { (p.1, p.0) };
    let t = trace_of(g, c.0 as int, c.1 as int)->Some_0;
    (t.1, (star, t.0))
}

proof fn lemma_star_entry_of_pair(g: GridView, p: Pair)
    requires
        g.wf(),
        ascii_grid(g),
        touching_non_dots(g, p),
        number_then_star(g, p) || star_then_number(g, p),
    ensures
        ({
            let c = if number_then_star(g, p) { p.0 } else { p.1 };
            trace_of(g, c.0 as int, c.1 as int) is Some
        }),
        star_entry(g, star_pair_entry(g, p)),
{
    let (c, star) = if number_then_star(g, p) { (p.0, p.1) } else { (p.1, p.0) };
    let (r, k) = (c.0 as int, c.1 as int);
    lemma_ascii_row(g, r);
    assert(g.row(r)[k] == g.at(r, k));
    lemma_ascii_cell_numeric(g.at(r, k));
    assert(digit_at(g, r, k));
    lemma_digit_run_of(g, r, k);
    let lo = run_start(g.row(r), k);
    let hi = run_end(g.row(r), k);
    law_trace_reads_digit_run(g, r, lo, hi, k);
    assert(next_to((r as usize, k as usize), star));
    assert(run_next_to_star_at(g, r, lo, hi, star));
    assert(star_pair_entry(g, p) == (run_key(r, lo, hi), (star, run_digits(g, r, lo, hi))));
}

proof fn lemma_star_traces_cover(g: GridView, pairs: Seq<Pair>)
    requires
        g.wf(),
        ascii_grid(g),
        forall|j: int| 0 <= j < pairs.len() ==> touching_non_dots(g, #[trigger] pairs[j]),
    ensures
        star_traces(g, pairs) is Some,
        forall|i: int|
            0 <= i < star_traces(g, pairs)->Some_0.len() ==> star_entry(g, #[trigger] star_traces(g, pairs)->Some_0[i]),
        forall|j: int|
            0 <= j < pairs.len() && (number_then_star(g, pairs[j]) || star_then_number(g, pairs[j]))
                ==> star_traces(g, pairs)->Some_0.contains(star_pair_entry(g, #[trigger] pairs[j])),
    decreases pairs.len(),
{
    if pairs.len() > 0 {
        let rest = pairs.drop_last();
        lemma_star_traces_cover(g, rest);
        let p = pairs.last();
        let es = star_traces(g, rest)->Some_0;
        assert(touching_non_dots(g, pairs[pairs.len() - 1]));
        if number_then_star(g, p) || star_then_number(g, p) {
            lemma_star_entry_of_pair(g, p);
            let all = es.push(star_pair_entry(g, p));
            assert(star_traces(g, pairs) == Some(all));
            assert(all[es.len() as int] == star_pair_entry(g, p));
            assert forall|j: int|
                0 <= j < pairs.len() && (number_then_star(g, pairs[j]) || star_then_number(g, pairs[j])) implies all.contains(
                star_pair_entry(g, #[trigger] pairs[j]),
            ) by {
                if j < rest.len() {
                    assert(rest[j] == pairs[j]);
                    let x = choose|x: int| 0 <= x < es.len() && es[x] == star_pair_entry(g, rest[j]);
                    assert(all[x] == es[x]);
                }
            }
        } else {
            assert forall|j: int|
                0 <= j < pairs.len() && (number_then_star(g, pairs[j]) || star_then_number(g, pairs[j])) implies es.contains(
                star_pair_entry(g, #[trigger] pairs[j]),
            ) by {
                assert(rest[j] == pairs[j]);
            }
        }
    }
}

/// The run of digits whose entry `e` is (see `star_entry`).
pub open spec fn entry_run(g: GridView, e: (Seq<char>, (Cell, Seq<char>))) -> (int, int, int) {
    choose|t: (int, int, int)|
        digit_run(g, t.0, t.1, t.2) && run_next_to_star_at(g, t.0, t.1, t.2, e.1.0) && e == (
        #[trigger] run_key(t.0, t.1, t.2),
        (e.1.0, run_digits(g, t.0, t.1, t.2)),
    )
}

/// The texts of runs of digits, given by their row and columns.
pub open spec fn runs_digits(g: GridView, runs: Seq<(int, int, int)>) -> Seq<Seq<char>> {
    runs.map_values(|t: (int, int, int)| run_digits(g, t.0, t.1, t.2))
}

/// In a grid of ASCII characters of two to ten rows and two to nine columns,
/// gathering the numbers around the stars files every whole run of digits
/// that has a star next to it exactly once: there is a list of runs, each
/// next to a star, no run twice, every run next to a star among them, and
/// the numbers in all the groups are, counted with repetition, the digits of
/// those runs.  Each group is kept under a star, and each number in it is the
/// digits of a run next to that star.
pub proof fn law_star_groups_file_each_run_once(g: GridView)
    requires
        g.wf(),
        ascii_grid(g),
        2 <= g.rows <= 10,
        2 <= g.cols <= 9,
    ensures
        star_groups(g) is Some,
        exists|runs: Seq<(int, int, int)>|
            {
                &&& runs.no_duplicates()
                &&& forall|i: int|
                    0 <= i < runs.len() ==> digit_run(g, (#[trigger] runs[i]).0, runs[i].1, runs[i].2)
                        && run_next_to_star(g, runs[i].0, runs[i].1, runs[i].2)
                &&& forall|r: int, lo: int, hi: int|
                    digit_run(g, r, lo, hi) && #[trigger] run_next_to_star(g, r, lo, hi) ==> runs.contains(
                        (r, lo, hi),
                    )
                &&& group_values(star_groups(g)->Some_0).to_multiset() == runs_digits(g, runs).to_multiset()
            },
{
    let pairs = pair_sweep(g);
    let chunks = sweep_chunks(g, 2, 2);
    assert forall|j: int| 0 <= j < pairs.len() implies touching_non_dots(g, #[trigger] pairs[j]) by {
        lemma_distinct_swept_pairs(chunks, pairs[j]);
        law_pair_sweep_finds_touching_non_dots(g, pairs[j]);
    }
    lemma_star_traces_cover(g, pairs);
    let es = star_traces(g, pairs)->Some_0;
    lemma_first_by_key_keeps(es);
    let f = first_by_key(es);
    assert forall|i: int| 0 <= i < f.len() implies star_entry(g, #[trigger] f[i]) by {
        let x = choose|x: int| 0 <= x < es.len() && es[x] == f[i];
    }
    let runs = f.map_values(|e: (Seq<char>, (Cell, Seq<char>))| entry_run(g, e));
    assert forall|i: int| 0 <= i < f.len() implies {
        let t = #[trigger] runs[i];
        &&& digit_run(g, t.0, t.1, t.2)
        &&& run_next_to_star_at(g, t.0, t.1, t.2, f[i].1.0)
        &&& f[i] == (run_key(t.0, t.1, t.2), (f[i].1.0, run_digits(g, t.0, t.1, t.2)))
    } by {
        assert(star_entry(g, f[i]));
        let (r, lo, hi) = choose|r: int, lo: int, hi: int|
            digit_run(g, r, lo, hi) && run_next_to_star_at(g, r, lo, hi, f[i].1.0) && f[i] == (
            #[trigger] run_key(r, lo, hi),
            (f[i].1.0, run_digits(g, r, lo, hi)),
        );
        assert(run_key((r, lo, hi).0, (r, lo, hi).1, (r, lo, hi).2) == run_key(r, lo, hi));
    }
    assert forall|i: int| 0 <= i < runs.len() implies digit_run(g, (#[trigger] runs[i]).0, runs[i].1, runs[i].2)
        && run_next_to_star(g, runs[i].0, runs[i].1, runs[i].2) by {
        assert(run_next_to_star_at(g, runs[i].0, runs[i].1, runs[i].2, f[i].1.0));
    }
    assert forall|i: int, j: int| 0 <= i < runs.len() && 0 <= j < runs.len() && i != j implies runs[i] != runs[j] by {
        if i < j {
            assert(f[i].0 != f[j].0);
        } else {
            assert(f[j].0 != f[i].0);
        }
    }
    assert(runs.no_duplicates());
    assert forall|r: int, lo: int, hi: int|
        digit_run(g, r, lo, hi) && #[trigger] run_next_to_star(g, r, lo, hi) implies runs.contains((r, lo, hi)) by {
        let q = choose|q: Cell| #[trigger] run_next_to_star_at(g, r, lo, hi, q);
        let k = choose|k: int| lo <= k < hi && #[trigger] next_to((r as usize, k as usize), q);
        let c: Cell = (r as usize, k as usize);
        let p: Pair = if touching(c, q) { (c, q) } else { (q, c) };
        lemma_ascii_row(g, r);
        lemma_ascii_row(g, q.0 as int);
        assert(g.row(r)[k] == g.at(r, k));
        assert(g.row(q.0 as int)[q.1 as int] == g.at(q.0 as int, q.1 as int));
        lemma_ascii_cell_numeric(g.at(r, k));
        lemma_ascii_cell_numeric(g.at(q.0 as int, q.1 as int));
        assert(digit_at(g, r, k));
        assert(touching_non_dots(g, p));
        law_pair_sweep_finds_touching_non_dots(g, p);
        lemma_distinct_swept_pairs(chunks, p);
        let j = choose|j: int| 0 <= j < pairs.len() && pairs[j] == p;
        assert(number_then_star(g, pairs[j]) || star_then_number(g, pairs[j]));
        law_trace_reads_digit_run(g, r, lo, hi, k);
        let want = (run_key(r, lo, hi), (q, run_digits(g, r, lo, hi)));
        assert(star_pair_entry(g, p) == want);
        assert(es.contains(want));
        let x = choose|x: int| 0 <= x < es.len() && es[x] == want;
        assert(has_key(es, want.0));
        assert(has_key(f, want.0));
        let y = choose|y: int| 0 <= y < f.len() && (#[trigger] f[y]).0 == want.0;
        let t = runs[y];
        assert(digit_run(g, t.0, t.1, t.2) && f[y].0 == run_key(t.0, t.1, t.2));
        law_run_key_tells_runs_apart(r, lo, hi, t.0, t.1, t.2);
        assert(runs[y] == (r, lo, hi));
    }
    let vals = f.map_values(|e: (Seq<char>, (Cell, Seq<char>))| e.1);
    lemma_group_values_multiset(vals);
    assert(vals.map_values(|e: (Cell, Seq<char>)| e.1) =~= runs_digits(g, runs));
}

/// Whether `digits` are those of a whole run of digits with the star `s`
/// next to it.
pub open spec fn digits_next_to_star(g: GridView, s: Cell, digits: Seq<char>) -> bool {
    exists|r: int, lo: int, hi: int|
        digit_run(g, r, lo, hi) && run_next_to_star_at(g, r, lo, hi, s) && digits == #[trigger] run_digits(g, r, lo, hi)
}

/// In a grid of ASCII characters, every group of numbers gathered around
/// the stars is kept under a star, and each number in it is the digits of a
/// whole run of digits next to that star.
pub proof fn law_star_groups_hold_runs_next_to_their_star(g: GridView)
    requires
        g.wf(),
        ascii_grid(g),
        2 <= g.rows,
        2 <= g.cols,
    ensures
        star_groups(g) is Some,
        forall|i: int, j: int|
            0 <= i < star_groups(g)->Some_0.len() && 0 <= j < star_groups(g)->Some_0[i].1.len() ==> digits_next_to_star(
                g,
                star_groups(g)->Some_0[i].0,
                #[trigger] star_groups(g)->Some_0[i].1[j],
            ),
{
    let pairs = pair_sweep(g);
    let chunks = sweep_chunks(g, 2, 2);
    assert forall|j: int| 0 <= j < pairs.len() implies touching_non_dots(g, #[trigger] pairs[j]) by {
        lemma_distinct_swept_pairs(chunks, pairs[j]);
        law_pair_sweep_finds_touching_non_dots(g, pairs[j]);
    }
    lemma_star_traces_cover(g, pairs);
    let es = star_traces(g, pairs)->Some_0;
    lemma_first_by_key_keeps(es);
    let f = first_by_key(es);
    let vals = f.map_values(|e: (Seq<char>, (Cell, Seq<char>))| e.1);
    lemma_group_members(vals);
    let groups = group_by_key(vals);
    assert(star_groups(g) == Some(groups));
    assert forall|i: int, j: int| 0 <= i < groups.len() && 0 <= j < groups[i].1.len() implies digits_next_to_star(
        g,
        groups[i].0,
        #[trigger] groups[i].1[j],
    ) by {
        assert(vals.contains((groups[i].0, groups[i].1[j])));
        let x = choose|x: int| 0 <= x < vals.len() && vals[x] == (groups[i].0, groups[i].1[j]);
        let y = choose|y: int| 0 <= y < es.len() && es[y] == f[x];
        assert(star_entry(g, es[y]));
        let (r, lo, hi) = choose|r: int, lo: int, hi: int|
            digit_run(g, r, lo, hi) && run_next_to_star_at(g, r, lo, hi, es[y].1.0) && es[y] == (
            #[trigger] run_key(r, lo, hi),
            (es[y].1.0, run_digits(g, r, lo, hi)),
        );
        assert(run_next_to_star_at(g, r, lo, hi, groups[i].0));
    }
}

proof fn lemma_parsed_i64_digit_text(s: Seq<char>)
    requires
        digit_text(s),
    ensures
        parsed_i64(s) matches Some(x) ==> x == digits_value(s),
{
    assert(is_ascii_digit(s[0]));
    assert(decimal_value(s) == Some(digits_value(s)));
}

/// Whether the entry (key, ratio) is that of two different whole runs of
/// digits `a` and `b` next to the star `s`: the ratio is the product of their
/// values, and the key the sum of the values of their columns texts.
pub open spec fn gear_of_runs(g: GridView, e: (i64, i64), s: Cell, a: (int, int, int), b: (int, int, int)) -> bool {
    &&& is_star(g.at(s.0 as int, s.1 as int))
    &&& digit_run(g, a.0, a.1, a.2)
    &&& run_next_to_star_at(g, a.0, a.1, a.2, s)
    &&& digit_run(g, b.0, b.1, b.2)
    &&& run_next_to_star_at(g, b.0, b.1, b.2, s)
    &&& a != b
    &&& parsed_i64(run_key(a.0, a.1, a.2)) is Some
    &&& parsed_i64(run_key(b.0, b.1, b.2)) is Some
    &&& e.0 == parsed_i64(run_key(a.0, a.1, a.2))->Some_0 + parsed_i64(run_key(b.0, b.1, b.2))->Some_0
    &&& e.1 == digits_value(run_digits(g, a.0, a.1, a.2)) * digits_value(run_digits(g, b.0, b.1, b.2))
}

/// Whether the entry (key, ratio) is that of two runs of digits next to one
/// star (see `gear_of_runs`).
pub open spec fn is_gear(g: GridView, e: (i64, i64)) -> bool {
    exists|s: Cell, a: (int, int, int), b: (int, int, int)| #[trigger] gear_of_runs(g, e, s, a, b)
}

proof fn lemma_gear_entry_of_trio(g: GridView, t: Trio)
    requires
        g.wf(),
        ascii_grid(g),
        centred_non_dots(g, t),
        gear_trio(g, t),
        gear_entry(g, t) is Some,
    ensures
        is_gear(g, gear_entry(g, t)->Some_0),
{
    let s = t.1;
    let (r1, k1) = (t.0.0 as int, t.0.1 as int);
    let (r2, k2) = (t.2.0 as int, t.2.1 as int);
    lemma_ascii_row(g, r1);
    lemma_ascii_row(g, r2);
    lemma_ascii_row(g, s.0 as int);
    assert(g.row(r1)[k1] == g.at(r1, k1));
    assert(g.row(r2)[k2] == g.at(r2, k2));
    assert(g.row(s.0 as int)[s.1 as int] == g.at(s.0 as int, s.1 as int));
    lemma_ascii_cell_numeric(g.at(r1, k1));
    lemma_ascii_cell_numeric(g.at(r2, k2));
    assert(digit_at(g, r1, k1));
    assert(digit_at(g, r2, k2));
    assert(g.at(s.0 as int, s.1 as int)[0] == '*');
    assert(!digit_at(g, s.0 as int, s.1 as int));
    lemma_digit_run_of(g, r1, k1);
    lemma_digit_run_of(g, r2, k2);
    let a = (r1, run_start(g.row(r1), k1), run_end(g.row(r1), k1));
    let b = (r2, run_start(g.row(r2), k2), run_end(g.row(r2), k2));
    law_trace_reads_digit_run(g, a.0, a.1, a.2, k1);
    law_trace_reads_digit_run(g, b.0, b.1, b.2, k2);
    assert(next_to((r1 as usize, k1 as usize), s));
    assert(next_to((r2 as usize, k2 as usize), s));
    assert(run_next_to_star_at(g, a.0, a.1, a.2, s));
    assert(run_next_to_star_at(g, b.0, b.1, b.2, s));
    if r1 == r2 {
        assert(r1 == s.0);
        assert(k1 < s.1 < k2);
        if a.2 > s.1 {
            assert(digit_at(g, r1, s.1 as int));
        }
        if b.1 <= s.1 {
            assert(digit_at(g, r2, s.1 as int));
        }
    }
    assert(a != b);
    lemma_run_digits_text(g, a.0, a.1, a.2);
    lemma_run_digits_text(g, b.0, b.1, b.2);
    lemma_parsed_i64_digit_text(run_digits(g, a.0, a.1, a.2));
    lemma_parsed_i64_digit_text(run_digits(g, b.0, b.1, b.2));
    assert(gear_of_runs(g, gear_entry(g, t)->Some_0, s, a, b));
}

proof fn lemma_gear_entries_are_gears(g: GridView, trios: Seq<Trio>)
    requires
        g.wf(),
        ascii_grid(g),
        forall|j: int| 0 <= j < trios.len() ==> centred_non_dots(g, #[trigger] trios[j]),
    ensures
        gear_entries(g, trios) matches Some(es) ==> forall|i: int| 0 <= i < es.len() ==> is_gear(g, #[trigger] es[i]),
    decreases trios.len(),
{
    if trios.len() > 0 {
        let rest = trios.drop_last();
        let t = trios.last();
        assert(centred_non_dots(g, trios[trios.len() - 1]));
        assert forall|j: int| 0 <= j < rest.len() implies centred_non_dots(g, #[trigger] rest[j]) by {
            assert(rest[j] == trios[j]);
        }
        lemma_gear_entries_are_gears(g, rest);
        if gear_entries(g, trios) is Some && gear_trio(g, t) {
            lemma_gear_entry_of_trio(g, t);
        }
    }
}

/// In a grid of ASCII characters of at least three rows and three columns,
/// every gear that the sum of the gear ratios counts is made of two different
/// whole runs of digits next to one star: its ratio is the product of their
/// values, and its key the sum of the values of their columns texts.
pub proof fn law_gears_are_products_of_runs_around_a_star(g: GridView)
    requires
        g.wf(),
        ascii_grid(g),
        3 <= g.rows,
        3 <= g.cols,
    ensures
        gear_entries(g, trio_sweep(g)) matches Some(es) ==> forall|i: int| 0 <= i < es.len() ==> is_gear(g, #[trigger] es[i]),
{
    let trios = trio_sweep(g);
    let chunks = sweep_chunks(g, 3, 3);
    assert forall|j: int| 0 <= j < trios.len() implies centred_non_dots(g, #[trigger] trios[j]) by {
        lemma_distinct_swept_trios(chunks, trios[j]);
        law_trio_sweep_finds_centred_non_dots(g, trios[j]);
    }
    lemma_gear_entries_are_gears(g, trios);
}

} // verus!
