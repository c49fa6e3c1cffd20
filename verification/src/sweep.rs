//! Sweeping the chunked window masks for pairs and trios of non-dot cells
//! that share a window, as cells of the whole grid.

use vstd::prelude::*;

use crate::coords::{
    Cell, map_position_to_coordinate, offset_cell,
    offset_coordinates_to_trace_back_to_original_array, offset_trio_coordinates_to_trace_back_to_original_array,
    pair_position_cells,
};
use crate::grid::{Mask, MaskView};
use vstd::std_specs::cmp::PartialEqSpec;

verus! {

/// Two grid cells that share a 2×2 window.
pub type Pair = (Cell, Cell);

/// Three grid cells that share a 3×3 window.
pub type Trio = (Cell, Cell, Cell);

/// What chunks of masks hold.
pub open spec fn chunk_views(chunks: Seq<Vec<Mask>>) -> Seq<Seq<MaskView>> {
    chunks.map_values(|c: Vec<Mask>| c@.map_values(|m: Mask| m@))
}

/// The flag of the window cell `p` (row, column) of `m`.
pub open spec fn flag_at(m: MaskView, p: Seq<usize>) -> bool {
    m.at(p[0] as int, p[1] as int)
}

/// Whether both cells of the pair compared at `position` are flagged.
pub open spec fn pair_hit(m: MaskView, position: int) -> bool {
    flag_at(m, pair_position_cells(position).0) && flag_at(m, pair_position_cells(position).1)
}

/// The grid cells of the pair compared at `position` in the window whose
/// top-left cell is (`a`, `c`).
pub open spec fn pair_at(a: int, c: int, position: int) -> Pair {
    (offset_cell(a, c, pair_position_cells(position).0), offset_cell(a, c, pair_position_cells(position).1))
}

/// The pairs found in one window at positions below `n`, in position order.
pub open spec fn window_pairs(m: MaskView, a: int, c: int, n: int) -> Seq<Pair>
    decreases n,
{
    if n <= 0 {
        seq![]
    } else if pair_hit(m, n - 1) {
        window_pairs(m, a, c, n - 1).push(pair_at(a, c, n - 1))
    } else {
        window_pairs(m, a, c, n - 1)
    }
}

/// The pairs found in the first `n` windows of chunk `a`, in order.
pub open spec fn chunk_pairs(chunk: Seq<MaskView>, a: int, n: int) -> Seq<Pair>
    decreases n,
{
    if n <= 0 {
        seq![]
    } else {
        chunk_pairs(chunk, a, n - 1) + window_pairs(chunk[n - 1], a, n - 1, 6)
    }
}

/// The pairs found in the first `n` chunks, in order, with repetitions.
pub open spec fn swept_pairs(chunks: Seq<Seq<MaskView>>, n: int) -> Seq<Pair>
    decreases n,
{
    if n <= 0 {
        seq![]
    } else {
        swept_pairs(chunks, n - 1) + chunk_pairs(chunks[n - 1], n - 1, chunks[n - 1].len() as int)
    }
}

/// `acc` with `x` added at the end unless it is there already.
pub open spec fn add_new<A>(acc: Seq<A>, x: A) -> Seq<A> {
    if acc.contains(x) {
        acc
    } else {
        acc.push(x)
    }
}

/// The items of `s` in the order of their first occurrence, each once.
pub open spec fn distinct_in_order<A>(s: Seq<A>) -> Seq<A>
    decreases s.len(),
{
    if s.len() == 0 {
        seq![]
    } else {
        add_new(distinct_in_order(s.drop_last()), s.last())
    }
}

/// Whether `p` is a pair of flagged cells of some window of the chunks:
/// window `c` of chunk `a` has its top-left cell at row `a`, column `c`.
pub open spec fn pair_found(chunks: Seq<Seq<MaskView>>, p: Pair) -> bool {
    exists|a: int, c: int, position: int|
        0 <= a < chunks.len() && 0 <= c < chunks[a].len() && 0 <= position < 6
            && #[trigger] pair_hit(chunks[a][c], position) && p == #[trigger] pair_at(a, c, position)
}

proof fn lemma_contains_concat<A>(s: Seq<A>, t: Seq<A>, x: A)
    ensures
        (s + t).contains(x) <==> (s.contains(x) || t.contains(x)),
{
    if s.contains(x) {
        let i = choose|i: int| 0 <= i < s.len() && s[i] == x;
        assert((s + t)[i] == x);
    }
    if t.contains(x) {
        let i = choose|i: int| 0 <= i < t.len() && t[i] == x;
        assert((s + t)[s.len() + i] == x);
    }
    if (s + t).contains(x) {
        let i = choose|i: int| 0 <= i < (s + t).len() && (s + t)[i] == x;
        if i < s.len() {
            assert(s[i] == x);
        } else {
            assert(t[i - s.len()] == x);
        }
    }
}

proof fn lemma_distinct_push<A>(s: Seq<A>, x: A)
    ensures
        distinct_in_order(s.push(x)) == add_new(distinct_in_order(s), x),
{
    assert(s.push(x).drop_last() =~= s);
}

proof fn lemma_distinct_in_order<A>(s: Seq<A>)
    ensures
        distinct_in_order(s).no_duplicates(),
        forall|x: A| distinct_in_order(s).contains(x) <==> s.contains(x),
    decreases s.len(),
{
    if s.len() > 0 {
        let d = distinct_in_order(s.drop_last());
        lemma_distinct_in_order(s.drop_last());
        assert(s =~= s.drop_last().push(s.last()));
        assert forall|x: A| distinct_in_order(s).contains(x) <==> s.contains(x) by {
            lemma_contains_concat(s.drop_last(), seq![s.last()], x);
            assert(s.drop_last() + seq![s.last()] =~= s);
            if !d.contains(s.last()) {
                lemma_contains_concat(d, seq![s.last()], x);
                assert(d + seq![s.last()] =~= d.push(s.last()));
            }
        }
    }
}

proof fn lemma_window_pairs(m: MaskView, a: int, c: int, n: int, p: Pair)
    ensures
        window_pairs(m, a, c, n).contains(p) <==> exists|position: int|
            0 <= position < n && #[trigger] pair_hit(m, position) && p == pair_at(a, c, position),
    decreases n,
{
    if n > 0 {
        lemma_window_pairs(m, a, c, n - 1, p);
        let prev = window_pairs(m, a, c, n - 1);
        if pair_hit(m, n - 1) {
            lemma_contains_concat(prev, seq![pair_at(a, c, n - 1)], p);
            assert(prev + seq![pair_at(a, c, n - 1)] =~= prev.push(pair_at(a, c, n - 1)));
        }
        if exists|position: int|
            0 <= position < n && #[trigger] pair_hit(m, position) && p == pair_at(a, c, position) {
            let q = choose|position: int|
                0 <= position < n && #[trigger] pair_hit(m, position) && p == pair_at(a, c, position);
            if q == n - 1 {
                assert(window_pairs(m, a, c, n)[window_pairs(m, a, c, n).len() - 1] == p);
            }
        }
    }
}

proof fn lemma_chunk_pairs(chunk: Seq<MaskView>, a: int, n: int, p: Pair)
    requires
        n <= chunk.len(),
    ensures
        chunk_pairs(chunk, a, n).contains(p) <==> exists|c: int, position: int|
            0 <= c < n && 0 <= position < 6 && #[trigger] pair_hit(chunk[c], position) && p
                == #[trigger] pair_at(a, c, position),
    decreases n,
{
    if n > 0 {
        lemma_chunk_pairs(chunk, a, n - 1, p);
        lemma_window_pairs(chunk[n - 1], a, n - 1, 6, p);
        lemma_contains_concat(chunk_pairs(chunk, a, n - 1), window_pairs(chunk[n - 1], a, n - 1, 6), p);
    }
}

proof fn lemma_swept_pairs(chunks: Seq<Seq<MaskView>>, n: int, p: Pair)
    requires
        n <= chunks.len(),
    ensures
        swept_pairs(chunks, n).contains(p) <==> exists|a: int, c: int, position: int|
            0 <= a < n && 0 <= c < chunks[a].len() && 0 <= position < 6
                && #[trigger] pair_hit(chunks[a][c], position) && p == #[trigger] pair_at(a, c, position),
    decreases n,
{
    if n > 0 {
        lemma_swept_pairs(chunks, n - 1, p);
        lemma_chunk_pairs(chunks[n - 1], n - 1, chunks[n - 1].len() as int, p);
        lemma_contains_concat(
            swept_pairs(chunks, n - 1),
            chunk_pairs(chunks[n - 1], n - 1, chunks[n - 1].len() as int),
            p,
        );
    }
}

/// The pairs of a sweep, each kept once, are those of its windows: a pair is
/// among them if and only if some window of the chunks has it.
pub proof fn lemma_distinct_swept_pairs(chunks: Seq<Seq<MaskView>>, p: Pair)
    ensures
        distinct_in_order(swept_pairs(chunks, chunks.len() as int)).contains(p) <==> pair_found(chunks, p),
{
    lemma_distinct_in_order(swept_pairs(chunks, chunks.len() as int));
    lemma_swept_pairs(chunks, chunks.len() as int, p);
}

/// Whether `v` holds `x`, for items whose `==` is equality.
fn contains_item<T: PartialEq + PartialEqSpec + Copy>(v: &Vec<T>, x: T) -> (b: bool)
    requires
        T::obeys_eq_spec(),
        forall|a: T, c: T| #[trigger] a.eq_spec(&c) <==> a == c,
    ensures
        b == v@.contains(x),
{
    let mut i: usize = 0;
    while i < v.len()
        invariant
            i <= v.len(),
            T::obeys_eq_spec(),
            forall|a: T, c: T| #[trigger] a.eq_spec(&c) <==> a == c,
            forall|j: int| 0 <= j < i ==> v@[j] != x,
        decreases v.len() - i,
    {
        if v[i] == x {
            assert(v@[i as int] == x);
            return true;
        }
        i = i + 1;
    }
    false
}

/// Collects, for every window of every chunk, the pairs of its cells that are
/// both flagged, as cells of the grid: window `c` of chunk `a` is taken to
/// have its top-left cell at row `a`, column `c`.  Each pair is kept once, in
/// the order in which it is first found.
pub fn extract_coordinates_for_all_non_dot_pairings(input: &Vec<Vec<Mask>>) -> (res: Vec<Pair>)
    requires
        forall|a: int, c: int|
            0 <= a < input.len() && 0 <= c < input@[a].len() ==> 2 <= (#[trigger] input@[a]@[c])@.rows
                && 2 <= input@[a]@[c]@.cols,
    ensures
        res@ == distinct_in_order(swept_pairs(chunk_views(input@), input.len() as int)),
        res@.no_duplicates(),
        forall|p: Pair| res@.contains(p) <==> pair_found(chunk_views(input@), p),
{
    let ghost chunks = chunk_views(input@);
    let mut found: Vec<Pair> = Vec::new();
    let mut anchor_row: usize = 0;
    while anchor_row < input.len()
        invariant
            chunks == chunk_views(input@),
            anchor_row <= input.len(),
            found@ == distinct_in_order(swept_pairs(chunks, anchor_row as int)),
            forall|a: int, c: int|
                0 <= a < input.len() && 0 <= c < input@[a].len() ==> 2 <= (#[trigger] input@[a]@[c])@.rows
                    && 2 <= input@[a]@[c]@.cols,
        decreases input.len() - anchor_row,
    {
        let chunk = &input[anchor_row];
        let ghost before = swept_pairs(chunks, anchor_row as int);
        let ghost chunk_view = chunks[anchor_row as int];
        assert(chunk_view == chunk@.map_values(|m: Mask| m@));
        let mut chunk_column: usize = 0;
        while chunk_column < chunk.len()
            invariant
                chunks == chunk_views(input@),
                anchor_row < input.len(),
                chunk == input@[anchor_row as int],
                chunk_view == chunk@.map_values(|m: Mask| m@),
                before == swept_pairs(chunks, anchor_row as int),
                chunk_column <= chunk.len(),
                found@ == distinct_in_order(before + chunk_pairs(chunk_view, anchor_row as int, chunk_column as int)),
                forall|c: int| 0 <= c < chunk.len() ==> 2 <= (#[trigger] chunk@[c])@.rows && 2 <= chunk@[c]@.cols,
            decreases chunk.len() - chunk_column,
        {
            let window_element = &chunk[chunk_column];
            let ghost mv = window_element@;
            assert(mv == chunk_view[chunk_column as int]);
            let a1: bool = window_element.get(0, 0).unwrap();
            let a2: bool = window_element.get(0, 1).unwrap();
            let b1: bool = window_element.get(1, 0).unwrap();
            let b2: bool = window_element.get(1, 1).unwrap();
            let combinations: [(bool, bool); 6] = [(a1, a2), (b1, b2), (a1, b1), (a2, b2), (b1, a2), (a1, b2)];
            assert forall|q: int| 0 <= q < 6 implies (#[trigger] combinations@[q]).0 && combinations@[q].1 <==> pair_hit(mv, q) by {
                if q == 0 {} else if q == 1 {} else if q == 2 {} else if q == 3 {} else if q == 4 {} else {}
            }
            let ghost prefix = before + chunk_pairs(chunk_view, anchor_row as int, chunk_column as int);
            let mut position: usize = 0;
            while position < 6
                invariant
                    position <= 6,
                    anchor_row < input.len(),
                    chunk_column < chunk.len(),
                    forall|q: int| 0 <= q < 6 ==> ((#[trigger] combinations@[q]).0 && combinations@[q].1 <==> pair_hit(mv, q)),
                    found@ == distinct_in_order(prefix + window_pairs(mv, anchor_row as int, chunk_column as int, position as int)),
                decreases 6 - position,
            {
                let combo = combinations[position];
                if combo.0 && combo.1 {
                    let (window_position_a, window_position_b) = map_position_to_coordinate(position);
                    let (original_position_a, original_position_b) =
                        offset_coordinates_to_trace_back_to_original_array(
                            anchor_row,
                            chunk_column,
                            window_position_a,
                            window_position_b,
                        );
                    let pair = (original_position_a, original_position_b);
                    assert(pair == pair_at(anchor_row as int, chunk_column as int, position as int));
                    proof {
                        let w = window_pairs(mv, anchor_row as int, chunk_column as int, position as int);
                        assert((prefix + w).push(pair) =~= prefix + w.push(pair));
                        lemma_distinct_push(prefix + w, pair);
                    }
                    if !contains_item(&found, pair) {
                        found.push(pair);
                    }
                }
                position = position + 1;
            }
            proof {
                assert(prefix + window_pairs(mv, anchor_row as int, chunk_column as int, 6)
                    =~= before + chunk_pairs(chunk_view, anchor_row as int, chunk_column + 1));
            }
            chunk_column = chunk_column + 1;
        }
        proof {
            assert(before + chunk_pairs(chunk_view, anchor_row as int, chunk.len() as int)
                =~= swept_pairs(chunks, anchor_row + 1));
        }
        anchor_row = anchor_row + 1;
    }
    proof {
        let all = swept_pairs(chunks, input.len() as int);
        lemma_distinct_in_order(all);
        assert forall|p: Pair| found@.contains(p) <==> pair_found(chunks, p) by {
            lemma_swept_pairs(chunks, input.len() as int, p);
        }
    }
    found
}

/// The window cell (row, column) of the `i`-th cell of a 3×3 window, counting
/// row by row.
pub open spec fn trio_cell(i: int) -> Seq<usize> {
    seq![(i / 3) as usize, (i % 3) as usize]
}

/// Whether the `q`-th cell of the window is flagged and opens a stretch of
/// flagged cells in its row of the window: it stands in the left column, or
/// in the middle row (where the centre parts it from the other side), or its
/// left neighbour is not flagged.
pub open spec fn opens_stretch(m: MaskView, q: int) -> bool {
    flag_at(m, trio_cell(q)) && (q % 3 == 0 || q / 3 == 1 || !flag_at(m, trio_cell(q - 1)))
}

/// Whether the `i`-th, `j`-th and `k`-th cells of the window make a trio: the
/// middle one is the flagged centre of the window, and the other two each
/// open a stretch of flagged cells around it.
pub open spec fn trio_hit(m: MaskView, i: int, j: int, k: int) -> bool {
    j == 4 && flag_at(m, trio_cell(4)) && opens_stretch(m, i) && opens_stretch(m, k)
}

/// The grid cells of the `i`-th, `j`-th and `k`-th cells of the window whose
/// top-left cell is (`a`, `c`).
pub open spec fn trio_at(a: int, c: int, i: int, j: int, k: int) -> Trio {
    (offset_cell(a, c, trio_cell(i)), offset_cell(a, c, trio_cell(j)), offset_cell(a, c, trio_cell(k)))
}

/// The trios found with first cell `i`, second cell `j` and third cell
/// below `n`, in order.
pub open spec fn third_trios(m: MaskView, a: int, c: int, i: int, j: int, n: int) -> Seq<Trio>
    decreases n - j,
{
    if n <= j + 1 {
        seq![]
    } else if trio_hit(m, i, j, n - 1) {
        third_trios(m, a, c, i, j, n - 1).push(trio_at(a, c, i, j, n - 1))
    } else {
        third_trios(m, a, c, i, j, n - 1)
    }
}

/// The trios found with first cell `i` and second cell below `n`, in order.
pub open spec fn second_trios(m: MaskView, a: int, c: int, i: int, n: int) -> Seq<Trio>
    decreases n - i,
{
    if n <= i + 1 {
        seq![]
    } else {
        second_trios(m, a, c, i, n - 1) + third_trios(m, a, c, i, n - 1, 9)
    }
}

/// The trios found in one window with first cell below `n`, in order.
pub open spec fn window_trios(m: MaskView, a: int, c: int, n: int) -> Seq<Trio>
    decreases n,
{
    if n <= 0 {
        seq![]
    } else {
        window_trios(m, a, c, n - 1) + second_trios(m, a, c, n - 1, 9)
    }
}

/// The trios found in the first `n` windows of chunk `a`, in order.
pub open spec fn chunk_trios(chunk: Seq<MaskView>, a: int, n: int) -> Seq<Trio>
    decreases n,
{
    if n <= 0 {
        seq![]
    } else {
        chunk_trios(chunk, a, n - 1) + window_trios(chunk[n - 1], a, n - 1, 9)
    }
}

/// The trios found in the first `n` chunks, in order, with repetitions.
pub open spec fn swept_trios(chunks: Seq<Seq<MaskView>>, n: int) -> Seq<Trio>
    decreases n,
{
    if n <= 0 {
        seq![]
    } else {
        swept_trios(chunks, n - 1) + chunk_trios(chunks[n - 1], n - 1, chunks[n - 1].len() as int)
    }
}

/// Whether `t` is a trio of some window of the chunks (see `trio_hit`), its
/// cells taken in the order in which they come row by row in the window:
/// window `c` of chunk `a` has its top-left cell at row `a`, column `c`.
pub open spec fn trio_found(chunks: Seq<Seq<MaskView>>, t: Trio) -> bool {
    exists|a: int, c: int, i: int, j: int, k: int|
        0 <= a < chunks.len() && 0 <= c < chunks[a].len() && 0 <= i < j && j < k && k < 9
            && #[trigger] trio_hit(chunks[a][c], i, j, k) && t == #[trigger] trio_at(a, c, i, j, k)
}

proof fn lemma_third_trios(m: MaskView, a: int, c: int, i: int, j: int, n: int, t: Trio)
    ensures
        third_trios(m, a, c, i, j, n).contains(t) <==> exists|k: int|
            j < k < n && #[trigger] trio_hit(m, i, j, k) && t == trio_at(a, c, i, j, k),
    decreases n - j,
{
    if n > j + 1 {
        lemma_third_trios(m, a, c, i, j, n - 1, t);
        let prev = third_trios(m, a, c, i, j, n - 1);
        if trio_hit(m, i, j, n - 1) {
            lemma_contains_concat(prev, seq![trio_at(a, c, i, j, n - 1)], t);
            assert(prev + seq![trio_at(a, c, i, j, n - 1)] =~= prev.push(trio_at(a, c, i, j, n - 1)));
        }
        if exists|k: int| j < k < n && #[trigger] trio_hit(m, i, j, k) && t == trio_at(a, c, i, j, k) {
            let q = choose|k: int| j < k < n && #[trigger] trio_hit(m, i, j, k) && t == trio_at(a, c, i, j, k);
            if q == n - 1 {
                let s = third_trios(m, a, c, i, j, n);
                assert(s[s.len() - 1] == t);
            }
        }
    }
}

proof fn lemma_second_trios(m: MaskView, a: int, c: int, i: int, n: int, t: Trio)
    requires
        n <= 9,
    ensures
        second_trios(m, a, c, i, n).contains(t) <==> exists|j: int, k: int|
            i < j < n && j < k < 9 && #[trigger] trio_hit(m, i, j, k) && t == #[trigger] trio_at(a, c, i, j, k),
    decreases n - i,
{
    if n > i + 1 {
        lemma_second_trios(m, a, c, i, n - 1, t);
        lemma_third_trios(m, a, c, i, n - 1, 9, t);
        lemma_contains_concat(second_trios(m, a, c, i, n - 1), third_trios(m, a, c, i, n - 1, 9), t);
    }
}

proof fn lemma_window_trios(m: MaskView, a: int, c: int, n: int, t: Trio)
    requires
        n <= 9,
    ensures
        window_trios(m, a, c, n).contains(t) <==> exists|i: int, j: int, k: int|
            0 <= i < n && i < j && j < k < 9 && #[trigger] trio_hit(m, i, j, k) && t == #[trigger] trio_at(a, c, i, j, k),
    decreases n,
{
    if n > 0 {
        lemma_window_trios(m, a, c, n - 1, t);
        lemma_second_trios(m, a, c, n - 1, 9, t);
        lemma_contains_concat(window_trios(m, a, c, n - 1), second_trios(m, a, c, n - 1, 9), t);
    }
}

proof fn lemma_chunk_trios(chunk: Seq<MaskView>, a: int, n: int, t: Trio)
    requires
        n <= chunk.len(),
    ensures
        chunk_trios(chunk, a, n).contains(t) <==> exists|c: int, i: int, j: int, k: int|
            0 <= c < n && 0 <= i < j && j < k < 9 && #[trigger] trio_hit(chunk[c], i, j, k) && t
                == #[trigger] trio_at(a, c, i, j, k),
    decreases n,
{
    if n > 0 {
        lemma_chunk_trios(chunk, a, n - 1, t);
        lemma_window_trios(chunk[n - 1], a, n - 1, 9, t);
        lemma_contains_concat(chunk_trios(chunk, a, n - 1), window_trios(chunk[n - 1], a, n - 1, 9), t);
    }
}

proof fn lemma_swept_trios(chunks: Seq<Seq<MaskView>>, n: int, t: Trio)
    requires
        n <= chunks.len(),
    ensures
        swept_trios(chunks, n).contains(t) <==> exists|a: int, c: int, i: int, j: int, k: int|
            0 <= a < n && 0 <= c < chunks[a].len() && 0 <= i < j && j < k && k < 9
                && #[trigger] trio_hit(chunks[a][c], i, j, k) && t == #[trigger] trio_at(a, c, i, j, k),
    decreases n,
{
    if n > 0 {
        lemma_swept_trios(chunks, n - 1, t);
        lemma_chunk_trios(chunks[n - 1], n - 1, chunks[n - 1].len() as int, t);
        lemma_contains_concat(
            swept_trios(chunks, n - 1),
            chunk_trios(chunks[n - 1], n - 1, chunks[n - 1].len() as int),
            t,
        );
    }
}

/// The trios of a sweep, each kept once, are those of its windows: a trio is
/// among them if and only if some window of the chunks has it.
pub proof fn lemma_distinct_swept_trios(chunks: Seq<Seq<MaskView>>, t: Trio)
    ensures
        distinct_in_order(swept_trios(chunks, chunks.len() as int)).contains(t) <==> trio_found(chunks, t),
{
    lemma_distinct_in_order(swept_trios(chunks, chunks.len() as int));
    lemma_swept_trios(chunks, chunks.len() as int, t);
}

/// Whether the `q`-th of the nine flags is set and opens a stretch of set
/// flags in its row of three, the centre parting the middle row.
fn opens_stretch_at(flags: &[bool; 9], q: usize) -> (b: bool)
    requires
        q < 9,
    ensures
        b == (flags@[q as int] && (q % 3 == 0 || q / 3 == 1 || !flags@[q - 1])),
{
    flags[q] && (q % 3 == 0 || q / 3 == 1 || !flags[q - 1])
}

/// The nine flags of a 3×3 mask, row by row, and the window cells they sit in.
fn trio_flags(window_element: &Mask) -> (res: ([bool; 9], [[usize; 2]; 9]))
    requires
        3 <= window_element@.rows,
        3 <= window_element@.cols,
    ensures
        forall|q: int| 0 <= q < 9 ==> (#[trigger] res.0@[q]) == flag_at(window_element@, trio_cell(q)),
        forall|q: int| 0 <= q < 9 ==> (#[trigger] res.1@[q])@ == trio_cell(q),
{
    let a1: bool = window_element.get(0, 0).unwrap();
    let a2: bool = window_element.get(0, 1).unwrap();
    let a3: bool = window_element.get(0, 2).unwrap();
    let b1: bool = window_element.get(1, 0).unwrap();
    let b2: bool = window_element.get(1, 1).unwrap();
    let b3: bool = window_element.get(1, 2).unwrap();
    let c1: bool = window_element.get(2, 0).unwrap();
    let c2: bool = window_element.get(2, 1).unwrap();
    let c3: bool = window_element.get(2, 2).unwrap();
    let variables = [a1, a2, a3, b1, b2, b3, c1, c2, c3];
    let coordinate_variables = [[0, 0], [0, 1], [0, 2], [1, 0], [1, 1], [1, 2], [2, 0], [2, 1], [2, 2]];
    assert forall|q: int| 0 <= q < 9 implies (#[trigger] variables@[q]) == flag_at(window_element@, trio_cell(q))
        && coordinate_variables@[q]@ == trio_cell(q) by {
        assert(coordinate_variables@[q]@ =~= trio_cell(q));
    }
    (variables, coordinate_variables)
}

/// Collects, for every window of every chunk, its trios as cells of the grid:
/// the flagged centre of the window in the middle, one cell before it and one
/// after it in the order in which the window is read row by row, each of them
/// flagged and opening a stretch of flagged cells in its row of the window
/// (see `trio_hit`), so that a run of non-dots counts once.  Window `c` of
/// chunk `a` is taken to have its top-left cell at row `a`, column `c`.  Each
/// trio is kept once, in the order in which it is first found.
pub fn extract_coordinates_for_all_non_dot_trios(input: &Vec<Vec<Mask>>) -> (res: Vec<Trio>)
    requires
        input.len() < usize::MAX,
        forall|a: int| 0 <= a < input.len() ==> (#[trigger] input@[a]).len() < usize::MAX,
        forall|a: int, c: int|
            0 <= a < input.len() && 0 <= c < input@[a].len() ==> 3 <= (#[trigger] input@[a]@[c])@.rows
                && 3 <= input@[a]@[c]@.cols,
    ensures
        res@ == distinct_in_order(swept_trios(chunk_views(input@), input.len() as int)),
        res@.no_duplicates(),
        forall|t: Trio| res@.contains(t) <==> trio_found(chunk_views(input@), t),
{
    let ghost chunks = chunk_views(input@);
    let mut found: Vec<Trio> = Vec::new();
    let mut anchor_row: usize = 0;
    while anchor_row < input.len()
        invariant
            chunks == chunk_views(input@),
            anchor_row <= input.len(),
            found@ == distinct_in_order(swept_trios(chunks, anchor_row as int)),
            input.len() < usize::MAX,
            forall|a: int| 0 <= a < input.len() ==> (#[trigger] input@[a]).len() < usize::MAX,
            forall|a: int, c: int|
                0 <= a < input.len() && 0 <= c < input@[a].len() ==> 3 <= (#[trigger] input@[a]@[c])@.rows
                    && 3 <= input@[a]@[c]@.cols,
        decreases input.len() - anchor_row,
    {
        let chunk = &input[anchor_row];
        let ghost before = swept_trios(chunks, anchor_row as int);
        let ghost chunk_view = chunks[anchor_row as int];
        assert(chunk_view == chunk@.map_values(|m: Mask| m@));
        let mut chunk_column: usize = 0;
        while chunk_column < chunk.len()
            invariant
                chunks == chunk_views(input@),
                anchor_row < input.len(),
                chunk == input@[anchor_row as int],
                chunk_view == chunk@.map_values(|m: Mask| m@),
                before == swept_trios(chunks, anchor_row as int),
                chunk_column <= chunk.len(),
                found@ == distinct_in_order(before + chunk_trios(chunk_view, anchor_row as int, chunk_column as int)),
                input.len() < usize::MAX,
                chunk.len() < usize::MAX,
                forall|c: int| 0 <= c < chunk.len() ==> 3 <= (#[trigger] chunk@[c])@.rows && 3 <= chunk@[c]@.cols,
            decreases chunk.len() - chunk_column,
        {
            let window_element = &chunk[chunk_column];
            let ghost mv = window_element@;
            assert(mv == chunk_view[chunk_column as int]);
            let (variables, coordinate_variables) = trio_flags(window_element);
            let ghost prefix = before + chunk_trios(chunk_view, anchor_row as int, chunk_column as int);
            let ghost a = anchor_row as int;
            let ghost c = chunk_column as int;
            let mut i: usize = 0;
            while i < 9
                invariant
                    i <= 9,
                    anchor_row < input.len(),
                    chunk_column < chunk.len(),
                    a == anchor_row,
                    c == chunk_column,
                    forall|q: int| 0 <= q < 9 ==> (#[trigger] variables@[q]) == flag_at(mv, trio_cell(q)),
                    forall|q: int| 0 <= q < 9 ==> (#[trigger] coordinate_variables@[q])@ == trio_cell(q),
                    found@ == distinct_in_order(prefix + window_trios(mv, a, c, i as int)),
                    input.len() < usize::MAX,
                    chunk.len() < usize::MAX,
                decreases 9 - i,
            {
                let mut j: usize = i + 1;
                while j < 9
                    invariant
                        i < 9,
                        i + 1 <= j <= 9,
                        anchor_row < input.len(),
                        chunk_column < chunk.len(),
                        a == anchor_row,
                        c == chunk_column,
                        forall|q: int| 0 <= q < 9 ==> (#[trigger] variables@[q]) == flag_at(mv, trio_cell(q)),
                        forall|q: int| 0 <= q < 9 ==> (#[trigger] coordinate_variables@[q])@ == trio_cell(q),
                        found@ == distinct_in_order(prefix + window_trios(mv, a, c, i as int)
                            + second_trios(mv, a, c, i as int, j as int)),
                        input.len() < usize::MAX,
                        chunk.len() < usize::MAX,
                    decreases 9 - j,
                {
                    let ghost mid = prefix + window_trios(mv, a, c, i as int) + second_trios(mv, a, c, i as int, j as int);
                    let mut k: usize = j + 1;
                    while k < 9
                        invariant
                            i < j < 9,
                            j + 1 <= k <= 9,
                            anchor_row < input.len(),
                            chunk_column < chunk.len(),
                            a == anchor_row,
                            c == chunk_column,
                            forall|q: int| 0 <= q < 9 ==> (#[trigger] variables@[q]) == flag_at(mv, trio_cell(q)),
                            forall|q: int| 0 <= q < 9 ==> (#[trigger] coordinate_variables@[q])@ == trio_cell(q),
                            found@ == distinct_in_order(mid + third_trios(mv, a, c, i as int, j as int, k as int)),
                            input.len() < usize::MAX,
                            chunk.len() < usize::MAX,
                        decreases 9 - k,
                    {
                        let hit = j == 4 && variables[4] && opens_stretch_at(&variables, i)
                            && opens_stretch_at(&variables, k);
                        proof {
                            if i % 3 != 0 && i / 3 != 1 {
                                assert(variables@[i - 1] == flag_at(mv, trio_cell(i - 1)));
                            }
                            if k % 3 != 0 && k / 3 != 1 {
                                assert(variables@[k - 1] == flag_at(mv, trio_cell(k - 1)));
                            }
                            assert(variables@[4] == flag_at(mv, trio_cell(4)));
                            assert(variables@[i as int] == flag_at(mv, trio_cell(i as int)));
                            assert(variables@[k as int] == flag_at(mv, trio_cell(k as int)));
                        }
                        if hit {
                            let (original_position_a, original_position_b, original_position_c) =
                                offset_trio_coordinates_to_trace_back_to_original_array(
                                    anchor_row,
                                    chunk_column,
                                    coordinate_variables[i],
                                    coordinate_variables[j],
                                    coordinate_variables[k],
                                );
                            let trio = (original_position_a, original_position_b, original_position_c);
                            assert(trio == trio_at(a, c, i as int, j as int, k as int));
                            assert(trio_hit(mv, i as int, j as int, k as int));
                            proof {
                                let w = third_trios(mv, a, c, i as int, j as int, k as int);
                                assert((mid + w).push(trio) =~= mid + w.push(trio));
                                lemma_distinct_push(mid + w, trio);
                            }
                            if !contains_item(&found, trio) {
                                found.push(trio);
                            }
                        } else {
                            assert(!trio_hit(mv, i as int, j as int, k as int));
                        }
                        k = k + 1;
                    }
                    proof {
                        assert(mid + third_trios(mv, a, c, i as int, j as int, 9)
                            =~= prefix + window_trios(mv, a, c, i as int) + second_trios(mv, a, c, i as int, j + 1));
                    }
                    j = j + 1;
                }
                proof {
                    assert(prefix + window_trios(mv, a, c, i as int) + second_trios(mv, a, c, i as int, 9)
                        =~= prefix + window_trios(mv, a, c, i + 1));
                }
                i = i + 1;
            }
            proof {
                assert(prefix + window_trios(mv, a, c, 9)
                    =~= before + chunk_trios(chunk_view, anchor_row as int, chunk_column + 1));
            }
            chunk_column = chunk_column + 1;
        }
        proof {
            assert(before + chunk_trios(chunk_view, anchor_row as int, chunk.len() as int)
                =~= swept_trios(chunks, anchor_row + 1));
        }
        anchor_row = anchor_row + 1;
    }
    proof {
        let all = swept_trios(chunks, input.len() as int);
        lemma_distinct_in_order(all);
        assert forall|t: Trio| found@.contains(t) <==> trio_found(chunks, t) by {
            lemma_swept_trios(chunks, input.len() as int, t);
        }
    }
    found
}

} // verus!
