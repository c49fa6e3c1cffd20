//! Whole computations on a schematic given as text: the sum of the part
//! numbers, the numbers gathered around each star, and the sum of the gear
//! ratios.

use vstd::prelude::*;

use crate::coords::Cell;
use crate::grid::{
    Grid, GridView, Mask, shape_fits, chunk_window_array, form_boolean_mask, form_multidimensional_array,
    form_three_by_three_window_array, form_window_array, mask_of, parse_string_to_array, windows_of,
};
use crate::laws::{
    centred_non_dots, law_pair_sweep_finds_touching_non_dots, law_trio_sweep_finds_centred_non_dots,
    lemma_sweep_shape, sweep_chunks, touching_non_dots,
};
use crate::sweep::{
    Pair, Trio, chunk_views, distinct_in_order, extract_coordinates_for_all_non_dot_pairings,
    extract_coordinates_for_all_non_dot_trios, swept_pairs, swept_trios,
};
use crate::text::{
    has_non_numeric, has_numeric, parse_i32, parse_i64, parsed_i32, parsed_i64, text_has_non_numeric,
    text_has_numeric,
};
use crate::trace::{
    extract_non_boolean_pair_values_from_original_multidimensional_array,
    extract_non_boolean_trio_values_from_original_multidimensional_array, trace_of, try_trace_whole_number,
};

verus! {

/// The grid that a text of `rows` × `cols` characters makes, one character
/// per cell, row by row.
pub open spec fn grid_of_text(content: Seq<char>, rows: nat, cols: nat) -> GridView {
    GridView { rows, cols, cells: content.map_values(|ch: char| seq![ch]) }
}

/// The pairs that the 2×2 sweep finds in `g`, each once, in the order in
/// which the sweep first meets them.
pub open spec fn pair_sweep(g: GridView) -> Seq<Pair> {
    let chunks = sweep_chunks(g, 2, 2);
    distinct_in_order(swept_pairs(chunks, chunks.len() as int))
}

fn sweep_grid_pairs(grid: &Grid) -> (res: Vec<Pair>)
    requires
        2 <= grid@.cols,
    ensures
        res@ == pair_sweep(grid@),
        forall|i: int| 0 <= i < res.len() ==> touching_non_dots(grid@, #[trigger] res@[i]),
{
    let cols = grid.cols();
    let ghost g = grid@;
    let windows = form_window_array(grid);
    let masks = form_boolean_mask(&windows);
    let chunked = chunk_window_array(&masks, cols - 1);
    proof {
        let wv = windows_of(g, 2, 2).map_values(|v: GridView| mask_of(v));
        let mv = masks@.map_values(|m: Mask| m@);
        assert forall|k: int| 0 <= k < masks.len() implies #[trigger] mv[k] == wv[k] by {
            assert(mv[k] == windows@.map_values(|w: Grid| mask_of(w@))[k]);
            assert(windows@.map_values(|w: Grid| w@)[k] == windows_of(g, 2, 2)[k]);
        }
        assert(mv =~= wv);
        assert(chunk_views(chunked@) == sweep_chunks(g, 2, 2));
        lemma_sweep_shape(g, 2, 2);
        assert forall|a: int, c: int|
            0 <= a < chunked.len() && 0 <= c < chunked@[a].len() implies 2 <= (#[trigger] chunked@[a]@[c])@.rows
                && 2 <= chunked@[a]@[c]@.cols by {
            assert(chunk_views(chunked@)[a] == chunked@[a]@.map_values(|m: Mask| m@));
            assert(chunk_views(chunked@)[a][c] == chunked@[a]@[c]@);
        }
    }
    let pairs = extract_coordinates_for_all_non_dot_pairings(&chunked);
    proof {
        assert forall|i: int| 0 <= i < pairs.len() implies touching_non_dots(g, #[trigger] pairs@[i]) by {
            assert(pairs@.contains(pairs@[i]));
            law_pair_sweep_finds_touching_non_dots(g, pairs@[i]);
        }
    }
    pairs
}

/// Whether the first cell of a pair has a numeric character and the second a
/// non-numeric one.
pub open spec fn numeric_first(g: GridView, p: Pair) -> bool {
    has_numeric(g.at(p.0.0 as int, p.0.1 as int)) && has_non_numeric(g.at(p.1.0 as int, p.1.1 as int))
}

/// Whether the first cell of a pair has a non-numeric character and the
/// second a numeric one.
pub open spec fn numeric_second(g: GridView, p: Pair) -> bool {
    has_non_numeric(g.at(p.0.0 as int, p.0.1 as int)) && has_numeric(g.at(p.1.0 as int, p.1.1 as int))
}

/// The texts of key-value entries.
pub open spec fn text_entries(v: Seq<(String, String)>) -> Seq<(Seq<char>, Seq<char>)> {
    v.map_values(|e: (String, String)| (e.0@, e.1@))
}

/// For every pair that joins a numeric cell to a cell with a non-numeric
/// character, in order: the columns text and the number text that following
/// the number of its numeric cell gives (the first cell if both qualify).
/// `None` if following a number fails.
pub open spec fn part_number_traces(g: GridView, pairs: Seq<Pair>) -> Option<Seq<(Seq<char>, Seq<char>)>>
    decreases pairs.len(),
{
    if pairs.len() == 0 {
        Some(seq![])
    } else {
        let p = pairs.last();
        match part_number_traces(g, pairs.drop_last()) {
            None => None,
            Some(es) => if numeric_first(g, p) || numeric_second(g, p) {
                let cell = if numeric_first(g, p) { p.0 } else { p.1 };
                match trace_of(g, cell.0 as int, cell.1 as int) {
                    Some(t) => Some(es.push((t.1, t.0))),
                    None => None,
                }
            } else {
                Some(es)
            },
        }
    }
}

/// Once a computation that runs over a sequence item by item fails on a
/// prefix (`fails` holds of it), it fails on every longer prefix, as long as
/// failing on a sequence without its last item means failing on it.
proof fn lemma_fails_onward<A>(fails: spec_fn(Seq<A>) -> bool, s: Seq<A>, k: int, n: int)
    requires
        0 <= k <= n <= s.len(),
        fails(s.take(k)),
        forall|q: Seq<A>| q.len() > 0 && #[trigger] fails(q.drop_last()) ==> fails(q),
    ensures
        fails(s.take(n)),
    decreases n - k,
{
    if k < n {
        lemma_fails_onward(fails, s, k, n - 1);
        assert(s.take(n).drop_last() =~= s.take(n - 1));
    }
}

/// Whether some entry has the key `k`.
pub open spec fn has_key<K, V>(es: Seq<(K, V)>, k: K) -> bool {
    exists|i: int| 0 <= i < es.len() && (#[trigger] es[i]).0 == k
}

/// The entries whose key no earlier entry has, in order: what a map keeps
/// when each key keeps its first value.
pub open spec fn first_by_key<K, V>(es: Seq<(K, V)>) -> Seq<(K, V)>
    decreases es.len(),
{
    if es.len() == 0 {
        seq![]
    } else {
        let d = first_by_key(es.drop_last());
        if has_key(d, es.last().0) {
            d
        } else {
            d.push(es.last())
        }
    }
}

/// The sum of the `i32` values of the texts, added in order; `None` if a text
/// does not parse as an `i32` or a partial sum leaves the `i32` range.
pub open spec fn sum_parsed_i32(vals: Seq<Seq<char>>) -> Option<i32>
    decreases vals.len(),
{
    if vals.len() == 0 {
        Some(0)
    } else {
        match (sum_parsed_i32(vals.drop_last()), parsed_i32(vals.last())) {
            (Some(s), Some(v)) => if i32::MIN <= s + v <= i32::MAX { Some((s + v) as i32) } else { None },
            _ => None,
        }
    }
}

/// The sum of the numbers that the 2×2 sweep finds joined to a cell with a
/// non-numeric character, each key (the columns and row text of its run)
/// counted once with the number first met under it.  Two runs with the same
/// key count once; in a grid of at most ten rows and nine columns no two runs
/// share a key (`law_digit_run_keys_tell_runs_apart`).
pub open spec fn part_number_total(g: GridView) -> Option<i32> {
    match part_number_traces(g, pair_sweep(g)) {
        Some(es) => sum_parsed_i32(first_by_key(es).map_values(|e: (Seq<char>, Seq<char>)| e.1)),
        None => None,
    }
}

proof fn lemma_first_by_key_push<K, V>(es: Seq<(K, V)>, e: (K, V))
    ensures
        first_by_key(es.push(e)) == if has_key(first_by_key(es), e.0) {
            first_by_key(es)
        } else {
            first_by_key(es).push(e)
        },
{
    assert(es.push(e).drop_last() =~= es);
}

fn has_text_key(map: &Vec<(String, String)>, key: &String) -> (b: bool)
    ensures
        b == has_key(text_entries(map@), key@),
{
    let mut i: usize = 0;
    while i < map.len()
        invariant
            i <= map.len(),
            forall|j: int| 0 <= j < i ==> (#[trigger] text_entries(map@)[j]).0 != key@,
        decreases map.len() - i,
    {
        if map[i].0 == *key {
            assert(text_entries(map@)[i as int].0 == key@);
            return true;
        }
        i = i + 1;
    }
    false
}

/// The grid of a text of `shape.0` rows of `shape.1` characters.
fn grid_from_text(content: &str, shape: (usize, usize)) -> (grid: Grid)
    requires
        content@.len() == shape.0 * shape.1,
        shape_fits(shape.0 as nat, shape.1 as nat),
    ensures
        grid@ == grid_of_text(content@, shape.0 as nat, shape.1 as nat),
{
    let array = parse_string_to_array(content);
    let grid = form_multidimensional_array(&array, shape);
    assert(grid@.cells =~= grid_of_text(content@, shape.0 as nat, shape.1 as nat).cells);
    grid
}

/// The sum of the part numbers of a schematic of `shape.0` rows of
/// `shape.1` characters, as `part_number_total` computes it: the numbers
/// that the 2×2 sweep finds touching a symbol, each key (the columns and row
/// of its run) counted once.  `None` where a
/// cell of a traced number, or a number, does not parse as an `i32`, or the
/// sum leaves the `i32` range.
pub fn part_number_sum(content: &str, shape: (usize, usize)) -> (res: Option<i32>)
    requires
        content@.len() == shape.0 * shape.1,
        shape_fits(shape.0 as nat, shape.1 as nat),
        2 <= shape.1,
    ensures
        res == part_number_total(grid_of_text(content@, shape.0 as nat, shape.1 as nat)),
{
    let grid = grid_from_text(content, shape);
    let ghost g = grid@;
    let pairs = sweep_grid_pairs(&grid);
    let mut map: Vec<(String, String)> = Vec::new();
    let mut i: usize = 0;
    while i < pairs.len()
        invariant
            g == grid@,
            g == grid_of_text(content@, shape.0 as nat, shape.1 as nat),
            i <= pairs.len(),
            pairs@ == pair_sweep(g),
            forall|k: int| 0 <= k < pairs.len() ==> touching_non_dots(g, #[trigger] pairs@[k]),
            part_number_traces(g, pairs@.take(i as int)) is Some,
            text_entries(map@) == first_by_key(part_number_traces(g, pairs@.take(i as int))->Some_0),
        decreases pairs.len() - i,
    {
        let p = pairs[i];
        assert(touching_non_dots(g, pairs@[i as int]));
        assert(pairs@.take(i + 1).drop_last() =~= pairs@.take(i as int));
        let (va, vb) = extract_non_boolean_pair_values_from_original_multidimensional_array(&grid, &p);
        let a_numeric = text_has_numeric(va.as_str()) && text_has_non_numeric(vb.as_str());
        let b_numeric = text_has_non_numeric(va.as_str()) && text_has_numeric(vb.as_str());
        assert(pairs@.take(i + 1).last() == p);
        assert(a_numeric == numeric_first(g, p));
        assert(b_numeric == numeric_second(g, p));
        if a_numeric || b_numeric {
            let cell: Cell = if a_numeric { p.0 } else { p.1 };
            match try_trace_whole_number(&grid, &cell) {
                None => {
                    proof {
                        lemma_fails_onward(|q: Seq<Pair>| part_number_traces(g, q) is None, pairs@, i + 1, pairs.len() as int);
                        assert(pairs@.take(pairs.len() as int) =~= pairs@);
                    }
                    return None;
                },
                Some((number, columns)) => {
                    let ghost es = part_number_traces(g, pairs@.take(i as int))->Some_0;
                    proof {
                        lemma_first_by_key_push(es, (columns@, number@));
                    }
                    if !has_text_key(&map, &columns) {
                        map.push((columns, number));
                        assert(text_entries(map@) =~= first_by_key(es).push((columns@, number@)));
                    }
                },
            }
        }
        i = i + 1;
    }
    let ghost es = part_number_traces(g, pairs@.take(i as int))->Some_0;
    assert(pairs@.take(i as int) =~= pairs@);
    let ghost vals = first_by_key(es).map_values(|e: (Seq<char>, Seq<char>)| e.1);
    let mut total: i32 = 0;
    let mut j: usize = 0;
    while j < map.len()
        invariant
            j <= map.len(),
            part_number_traces(g, pair_sweep(g)) == Some(es),
            g == grid_of_text(content@, shape.0 as nat, shape.1 as nat),
            vals == first_by_key(es).map_values(|e: (Seq<char>, Seq<char>)| e.1),
            vals.len() == map.len(),
            forall|k: int| 0 <= k < map.len() ==> #[trigger] vals[k] == map@[k].1@,
            sum_parsed_i32(vals.take(j as int)) == Some(total),
        decreases map.len() - j,
    {
        assert(vals.take(j + 1).drop_last() =~= vals.take(j as int));
        assert(vals[j as int] == map@[j as int].1@);
        match parse_i32(map[j].1.as_str()) {
            None => {
                proof {
                    lemma_fails_onward(|q: Seq<Seq<char>>| sum_parsed_i32(q) is None, vals, j + 1, vals.len() as int);
                    assert(vals.take(vals.len() as int) =~= vals);
                }
                return None;
            },
            Some(v) => match total.checked_add(v) {
                None => {
                    proof {
                        lemma_fails_onward(|q: Seq<Seq<char>>| sum_parsed_i32(q) is None, vals, j + 1, vals.len() as int);
                        assert(vals.take(vals.len() as int) =~= vals);
                    }
                    return None;
                },
                Some(t) => {
                    total = t;
                },
            },
        }
        j = j + 1;
    }
    assert(vals.take(j as int) =~= vals);
    Some(total)
}

/// The text of a star cell.
pub open spec fn is_star(s: Seq<char>) -> bool {
    s == seq!['*']
}

/// Whether a pair joins a numeric first cell to a star.
pub open spec fn number_then_star(g: GridView, p: Pair) -> bool {
    numeric_first(g, p) && is_star(g.at(p.1.0 as int, p.1.1 as int))
}

/// Whether a pair joins a star to a numeric second cell.
pub open spec fn star_then_number(g: GridView, p: Pair) -> bool {
    numeric_second(g, p) && is_star(g.at(p.0.0 as int, p.0.1 as int))
}

/// For every pair that joins a number to a star, in order: the columns text
/// that following the number gives, with the star's cell and the number
/// text.  `None` if following a number fails.
pub open spec fn star_traces(g: GridView, pairs: Seq<Pair>) -> Option<Seq<(Seq<char>, (Cell, Seq<char>))>>
    decreases pairs.len(),
{
    if pairs.len() == 0 {
        Some(seq![])
    } else {
        let p = pairs.last();
        match star_traces(g, pairs.drop_last()) {
            None => None,
            Some(es) => if number_then_star(g, p) || star_then_number(g, p) {
                let (cell, star) = if number_then_star(g, p) { (p.0, p.1) } else { (p.1, p.0) };
                match trace_of(g, cell.0 as int, cell.1 as int) {
                    Some(t) => Some(es.push((t.1, (star, t.0)))),
                    None => None,
                }
            } else {
                Some(es)
            },
        }
    }
}

/// The entries gathered by key: one group per key, in the order in which
/// the keys first come, holding the values of that key in order.
pub open spec fn group_by_key<K, V>(es: Seq<(K, V)>) -> Seq<(K, Seq<V>)>
    decreases es.len(),
{
    if es.len() == 0 {
        seq![]
    } else {
        let d = group_by_key(es.drop_last());
        let e = es.last();
        if has_key(d, e.0) {
            let i = choose|i: int| 0 <= i < d.len() && (#[trigger] d[i]).0 == e.0;
            d.update(i, (e.0, d[i].1.push(e.1)))
        } else {
            d.push((e.0, seq![e.1]))
        }
    }
}

/// The numbers gathered around each star cell of `g` by the 2×2 sweep: each
/// number, told apart by its columns text, is filed once, under the star of
/// the first pair that joins it to a star; the groups come in the order in
/// which their star is first met.
pub open spec fn star_groups(g: GridView) -> Option<Seq<(Cell, Seq<Seq<char>>)>> {
    match star_traces(g, pair_sweep(g)) {
        Some(es) => Some(group_by_key(first_by_key(es).map_values(|e: (Seq<char>, (Cell, Seq<char>))| e.1))),
        None => None,
    }
}

/// What groups of texts hold.
pub open spec fn text_groups(v: Seq<(Cell, Vec<String>)>) -> Seq<(Cell, Seq<Seq<char>>)> {
    v.map_values(|e: (Cell, Vec<String>)| (e.0, e.1@.map_values(|s: String| s@)))
}

proof fn lemma_group_keys_distinct<K, V>(es: Seq<(K, V)>)
    ensures
        forall|i: int, j: int|
            0 <= i < j < group_by_key(es).len() ==> (#[trigger] group_by_key(es)[i]).0 != (
            #[trigger] group_by_key(es)[j]).0,
    decreases es.len(),
{
    if es.len() > 0 {
        lemma_group_keys_distinct(es.drop_last());
        let d = group_by_key(es.drop_last());
        let e = es.last();
        let r = group_by_key(es);
        if has_key(d, e.0) {
            let i = choose|i: int| 0 <= i < d.len() && (#[trigger] d[i]).0 == e.0;
            assert forall|a: int, b: int| 0 <= a < b < r.len() implies (#[trigger] r[a]).0 != (#[trigger] r[b]).0 by {
                assert(r[a].0 == d[a].0);
                assert(r[b].0 == d[b].0);
            }
        } else {
            assert forall|a: int, b: int| 0 <= a < b < r.len() implies (#[trigger] r[a]).0 != (#[trigger] r[b]).0 by {
                if b < d.len() {
                    assert(r[a].0 == d[a].0);
                    assert(r[b].0 == d[b].0);
                } else {
                    assert(r[a].0 == d[a].0);
                    assert(r[b].0 == e.0);
                }
            }
        }
    }
}

fn position_of_key(groups: &Vec<(Cell, Vec<String>)>, key: Cell) -> (j: usize)
    ensures
        j <= groups.len(),
        j < groups.len() ==> groups@[j as int].0 == key,
        forall|q: int| 0 <= q < j ==> (#[trigger] groups@[q]).0 != key,
{
    let mut j: usize = 0;
    while j < groups.len()
        invariant
            j <= groups.len(),
            forall|q: int| 0 <= q < j ==> (#[trigger] groups@[q]).0 != key,
        decreases groups.len() - j,
    {
        if groups[j].0.0 == key.0 && groups[j].0.1 == key.1 {
            return j;
        }
        j = j + 1;
    }
    j
}

proof fn lemma_group_by_key_push<K, V>(es: Seq<(K, V)>, e: (K, V))
    ensures
        group_by_key(es.push(e)) == if has_key(group_by_key(es), e.0) {
            let d = group_by_key(es);
            let i = choose|i: int| 0 <= i < d.len() && (#[trigger] d[i]).0 == e.0;
            d.update(i, (e.0, d[i].1.push(e.1)))
        } else {
            group_by_key(es).push((e.0, seq![e.1]))
        },
{
    assert(es.push(e).drop_last() =~= es);
}

fn text_is_star(s: &String) -> (b: bool)
    ensures
        b == is_star(s@),
{
    let t = s.as_str();
    if t.unicode_len() == 1 {
        let c = t.get_char(0);
        assert(c == '*' ==> t@ =~= seq!['*']);
        c == '*'
    } else {
        false
    }
}

/// Whether some text of `v` is `key`.
fn has_text(v: &Vec<String>, key: &String) -> (b: bool)
    ensures
        b == v@.map_values(|s: String| s@).contains(key@),
{
    let ghost texts = v@.map_values(|s: String| s@);
    let mut i: usize = 0;
    while i < v.len()
        invariant
            i <= v.len(),
            texts == v@.map_values(|s: String| s@),
            forall|j: int| 0 <= j < i ==> texts[j] != key@,
        decreases v.len() - i,
    {
        if v[i] == *key {
            assert(texts[i as int] == key@);
            return true;
        }
        i = i + 1;
    }
    false
}

proof fn lemma_has_key_keys<K, V>(es: Seq<(K, V)>, k: K)
    ensures
        has_key(es, k) <==> es.map_values(|e: (K, V)| e.0).contains(k),
{
    let keys = es.map_values(|e: (K, V)| e.0);
    if has_key(es, k) {
        let i = choose|i: int| 0 <= i < es.len() && (#[trigger] es[i]).0 == k;
        assert(keys[i] == k);
    }
    if keys.contains(k) {
        let i = choose|i: int| 0 <= i < keys.len() && keys[i] == k;
        assert(es[i].0 == k);
    }
}

/// The numbers around each star of a schematic of `shape.0` rows of
/// `shape.1` characters, found with the 2×2 sweep: for every pair that joins
/// a number to a star, the number is added to the group of that star, unless
/// the same number (told apart by its columns text) was already filed under
/// some star.  Groups come in the order in which their star is first met.
/// `None` where a cell of a traced number does not parse as an `i32`.
pub fn star_number_groups(content: &str, shape: (usize, usize)) -> (res: Option<Vec<(Cell, Vec<String>)>>)
    requires
        content@.len() == shape.0 * shape.1,
        shape_fits(shape.0 as nat, shape.1 as nat),
        2 <= shape.1,
    ensures
        match res {
            Some(v) => star_groups(grid_of_text(content@, shape.0 as nat, shape.1 as nat)) == Some(text_groups(v@)),
            None => star_groups(grid_of_text(content@, shape.0 as nat, shape.1 as nat)) is None,
        },
{
    let grid = grid_from_text(content, shape);
    let ghost g = grid@;
    let pairs = sweep_grid_pairs(&grid);
    let mut groups: Vec<(Cell, Vec<String>)> = Vec::new();
    let mut numbers_already_traced: Vec<String> = Vec::new();
    let mut i: usize = 0;
    while i < pairs.len()
        invariant
            g == grid@,
            g == grid_of_text(content@, shape.0 as nat, shape.1 as nat),
            i <= pairs.len(),
            pairs@ == pair_sweep(g),
            forall|k: int| 0 <= k < pairs.len() ==> touching_non_dots(g, #[trigger] pairs@[k]),
            star_traces(g, pairs@.take(i as int)) is Some,
            numbers_already_traced@.map_values(|s: String| s@) == first_by_key(
                star_traces(g, pairs@.take(i as int))->Some_0,
            ).map_values(|e: (Seq<char>, (Cell, Seq<char>))| e.0),
            text_groups(groups@) == group_by_key(
                first_by_key(star_traces(g, pairs@.take(i as int))->Some_0).map_values(
                    |e: (Seq<char>, (Cell, Seq<char>))| e.1,
                ),
            ),
        decreases pairs.len() - i,
    {
        let p = pairs[i];
        assert(touching_non_dots(g, pairs@[i as int]));
        assert(pairs@.take(i + 1).drop_last() =~= pairs@.take(i as int));
        assert(pairs@.take(i + 1).last() == p);
        let (va, vb) = extract_non_boolean_pair_values_from_original_multidimensional_array(&grid, &p);
        let a_numeric = text_has_numeric(va.as_str()) && text_has_non_numeric(vb.as_str());
        let b_numeric = text_has_non_numeric(va.as_str()) && text_has_numeric(vb.as_str());
        let a_star = text_is_star(&va);
        let b_star = text_is_star(&vb);
        assert((a_numeric && b_star) == number_then_star(g, p));
        assert((b_numeric && a_star) == star_then_number(g, p));
        if (a_numeric && b_star) || (b_numeric && a_star) {
            let (cell, star): (Cell, Cell) = if a_numeric && b_star { (p.0, p.1) } else { (p.1, p.0) };
            match try_trace_whole_number(&grid, &cell) {
                None => {
                    proof {
                        lemma_fails_onward(|q: Seq<Pair>| star_traces(g, q) is None, pairs@, i + 1, pairs.len() as int);
                        assert(pairs@.take(pairs.len() as int) =~= pairs@);
                    }
                    return None;
                },
                Some((number, columns)) => {
                    let ghost es = star_traces(g, pairs@.take(i as int))->Some_0;
                    let ghost f = first_by_key(es);
                    let ghost e = (columns@, (star, number@));
                    proof {
                        lemma_first_by_key_push(es, e);
                        lemma_has_key_keys(f, columns@);
                    }
                    if !has_text(&numbers_already_traced, &columns) {
                        let ghost d = group_by_key(f.map_values(|x: (Seq<char>, (Cell, Seq<char>))| x.1));
                        proof {
                            assert(f.push(e).map_values(|x: (Seq<char>, (Cell, Seq<char>))| x.1) =~= f.map_values(
                                |x: (Seq<char>, (Cell, Seq<char>))| x.1,
                            ).push((star, number@)));
                            assert(f.push(e).map_values(|x: (Seq<char>, (Cell, Seq<char>))| x.0) =~= f.map_values(
                                |x: (Seq<char>, (Cell, Seq<char>))| x.0,
                            ).push(columns@));
                            lemma_group_by_key_push(f.map_values(|x: (Seq<char>, (Cell, Seq<char>))| x.1), (star, number@));
                            lemma_group_keys_distinct(f.map_values(|x: (Seq<char>, (Cell, Seq<char>))| x.1));
                        }
                        let ghost before_traced = numbers_already_traced@;
                        numbers_already_traced.push(columns);
                        assert(numbers_already_traced@.map_values(|s: String| s@) =~= before_traced.map_values(
                            |s: String| s@,
                        ).push(columns@));
                        let key = star;
                        let j = position_of_key(&groups, key);
                        assert(forall|q: int| 0 <= q < j ==> (#[trigger] d[q]).0 == (#[trigger] groups@[q]).0);
                        if j < groups.len() {
                            assert(groups@[j as int].0 == key);
                            assert(d[j as int].0 == key);
                            assert(has_key(d, key));
                            let ghost chosen = choose|q: int| 0 <= q < d.len() && (#[trigger] d[q]).0 == key;
                            assert(chosen == j);
                            let ghost before = groups@;
                            let ghost n = number@;
                            groups[j].1.push(number);
                            assert(groups@[j as int].1@ == before[j as int].1@.push(groups@[j as int].1@.last()));
                            assert(groups@[j as int].1@.map_values(|s: String| s@) =~= before[j as int].1@.map_values(
                                |s: String| s@,
                            ).push(n));
                            assert forall|q: int| 0 <= q < groups.len() && q != j implies #[trigger] groups@[q]
                                == before[q] by {}
                            assert(text_groups(groups@) =~= d.update(j as int, (key, d[j as int].1.push(n))));
                        } else {
                            assert(!has_key(d, key)) by {
                                if has_key(d, key) {
                                    let q = choose|q: int| 0 <= q < d.len() && (#[trigger] d[q]).0 == key;
                                    assert(groups@[q].0 == key);
                                }
                            }
                            let mut list: Vec<String> = Vec::new();
                            list.push(number);
                            assert(list@.map_values(|s: String| s@) =~= seq![number@]);
                            groups.push((key, list));
                            assert(text_groups(groups@) =~= d.push((key, seq![number@])));
                        }
                    }
                },
            }
        }
        i = i + 1;
    }
    assert(pairs@.take(i as int) =~= pairs@);
    Some(groups)
}

/// The trios that the 3×3 sweep finds in `g`, each once, in the order in
/// which the sweep first meets them.
pub open spec fn trio_sweep(g: GridView) -> Seq<Trio> {
    let chunks = sweep_chunks(g, 3, 3);
    distinct_in_order(swept_trios(chunks, chunks.len() as int))
}

fn sweep_grid_trios(grid: &Grid) -> (res: Vec<Trio>)
    requires
        3 <= grid@.cols,
    ensures
        res@ == trio_sweep(grid@),
        forall|i: int| 0 <= i < res.len() ==> centred_non_dots(grid@, #[trigger] res@[i]),
{
    let cols = grid.cols();
    let ghost g = grid@;
    let windows = form_three_by_three_window_array(grid);
    let masks = form_boolean_mask(&windows);
    let chunked = chunk_window_array(&masks, cols - 2);
    proof {
        let wv = windows_of(g, 3, 3).map_values(|v: GridView| mask_of(v));
        let mv = masks@.map_values(|m: Mask| m@);
        assert forall|k: int| 0 <= k < masks.len() implies #[trigger] mv[k] == wv[k] by {
            assert(mv[k] == windows@.map_values(|w: Grid| mask_of(w@))[k]);
            assert(windows@.map_values(|w: Grid| w@)[k] == windows_of(g, 3, 3)[k]);
        }
        assert(mv =~= wv);
        assert(chunk_views(chunked@) == sweep_chunks(g, 3, 3));
        lemma_sweep_shape(g, 3, 3);
        assert forall|a: int, c: int|
            0 <= a < chunked.len() && 0 <= c < chunked@[a].len() implies 3 <= (#[trigger] chunked@[a]@[c])@.rows
                && 3 <= chunked@[a]@[c]@.cols by {
            assert(chunk_views(chunked@)[a] == chunked@[a]@.map_values(|m: Mask| m@));
            assert(chunk_views(chunked@)[a][c] == chunked@[a]@[c]@);
        }
        assert(chunked.len() <= g.rows);
        assert forall|a: int| 0 <= a < chunked.len() implies (#[trigger] chunked@[a]).len() < usize::MAX by {
            assert(chunk_views(chunked@)[a] == chunked@[a]@.map_values(|m: Mask| m@));
        }
    }
    let trios = extract_coordinates_for_all_non_dot_trios(&chunked);
    proof {
        assert forall|i: int| 0 <= i < trios.len() implies centred_non_dots(g, #[trigger] trios@[i]) by {
            assert(trios@.contains(trios@[i]));
            law_trio_sweep_finds_centred_non_dots(g, trios@[i]);
        }
    }
    trios
}

/// Whether a trio reads number, star, number.
pub open spec fn gear_trio(g: GridView, t: Trio) -> bool {
    &&& has_numeric(g.at(t.0.0 as int, t.0.1 as int))
    &&& is_star(g.at(t.1.0 as int, t.1.1 as int))
    &&& has_numeric(g.at(t.2.0 as int, t.2.1 as int))
}

/// The key and the ratio of a number-star-number trio: the sum of the `i64`
/// values of the columns texts of its two numbers, and the product of the
/// `i64` values of the numbers.  `None` if following a number fails, a text
/// does not parse as an `i64`, or the sum or product leaves the `i64` range.
pub open spec fn gear_entry(g: GridView, t: Trio) -> Option<(i64, i64)> {
    match (trace_of(g, t.0.0 as int, t.0.1 as int), trace_of(g, t.2.0 as int, t.2.1 as int)) {
        (Some(ta), Some(tc)) => match (parsed_i64(ta.1), parsed_i64(tc.1), parsed_i64(ta.0), parsed_i64(tc.0)) {
            (Some(x), Some(y), Some(u), Some(v)) => if i64::MIN <= x + y <= i64::MAX && i64::MIN <= u * v
                <= i64::MAX {
                Some(((x + y) as i64, (u * v) as i64))
            } else {
                None
            },
            _ => None,
        },
        _ => None,
    }
}

/// The key and ratio of every number-star-number trio, in order; `None` if
/// one fails.
pub open spec fn gear_entries(g: GridView, trios: Seq<Trio>) -> Option<Seq<(i64, i64)>>
    decreases trios.len(),
{
    if trios.len() == 0 {
        Some(seq![])
    } else {
        let t = trios.last();
        match gear_entries(g, trios.drop_last()) {
            None => None,
            Some(es) => if gear_trio(g, t) {
                match gear_entry(g, t) {
                    Some(e) => Some(es.push(e)),
                    None => None,
                }
            } else {
                Some(es)
            },
        }
    }
}

/// The sum of the values, added in order; `None` if a partial sum leaves the
/// `i64` range.
pub open spec fn sum_i64(vals: Seq<i64>) -> Option<i64>
    decreases vals.len(),
{
    if vals.len() == 0 {
        Some(0)
    } else {
        match sum_i64(vals.drop_last()) {
            Some(s) => if i64::MIN <= s + vals.last() <= i64::MAX { Some((s + vals.last()) as i64) } else { None },
            None => None,
        }
    }
}

/// The sum of the products of the number-star-number trios that the 3×3
/// sweep finds, each key (the sum of the two numbers' columns texts) counted
/// once with the product first met under it.  A star with more than two
/// numbers around it gives a product for each of its trios, and two trios
/// whose keys add up the same count once.
pub open spec fn gear_ratio_total(g: GridView) -> Option<i64> {
    match gear_entries(g, trio_sweep(g)) {
        Some(es) => sum_i64(first_by_key(es).map_values(|e: (i64, i64)| e.1)),
        None => None,
    }
}

fn gear_of(grid: &Grid, t: Trio) -> (res: Option<(i64, i64)>)
    requires
        centred_non_dots(grid@, t),
    ensures
        res == gear_entry(grid@, t),
{
    let traced_number_a = match try_trace_whole_number(grid, &t.0) {
        Some(x) => x,
        None => return None,
    };
    let traced_number_c = match try_trace_whole_number(grid, &t.2) {
        Some(x) => x,
        None => return None,
    };
    let x = match parse_i64(traced_number_a.1.as_str()) {
        Some(v) => v,
        None => return None,
    };
    let y = match parse_i64(traced_number_c.1.as_str()) {
        Some(v) => v,
        None => return None,
    };
    let traced_coordinates_total = match x.checked_add(y) {
        Some(v) => v,
        None => return None,
    };
    let u = match parse_i64(traced_number_a.0.as_str()) {
        Some(v) => v,
        None => return None,
    };
    let v = match parse_i64(traced_number_c.0.as_str()) {
        Some(v) => v,
        None => return None,
    };
    let traced_values_product = match u.checked_mul(v) {
        Some(p) => p,
        None => return None,
    };
    Some((traced_coordinates_total, traced_values_product))
}

fn has_number_key(map: &Vec<(i64, i64)>, key: i64) -> (b: bool)
    ensures
        b == has_key(map@, key),
{
    let mut i: usize = 0;
    while i < map.len()
        invariant
            i <= map.len(),
            forall|j: int| 0 <= j < i ==> (#[trigger] map@[j]).0 != key,
        decreases map.len() - i,
    {
        if map[i].0 == key {
            return true;
        }
        i = i + 1;
    }
    false
}

/// The sum of the gear ratios of a schematic of `shape.0` rows of `shape.1`
/// characters, as `gear_ratio_total` computes it: for every trio of the 3×3
/// sweep that reads number,
/// star, number, the product of the two numbers is kept under the sum of
/// their columns texts (read as `i64`s) unless that key is already kept, and
/// the kept products are added.  `None` where a cell of a traced number does
/// not parse as an `i32`, a text does not parse as an `i64`, or a sum or
/// product leaves the `i64` range.
pub fn gear_ratio_sum(content: &str, shape: (usize, usize)) -> (res: Option<i64>)
    requires
        content@.len() == shape.0 * shape.1,
        shape_fits(shape.0 as nat, shape.1 as nat),
        3 <= shape.1,
    ensures
        res == gear_ratio_total(grid_of_text(content@, shape.0 as nat, shape.1 as nat)),
{
    let grid = grid_from_text(content, shape);
    let ghost g = grid@;
    let trios = sweep_grid_trios(&grid);
    let mut map: Vec<(i64, i64)> = Vec::new();
    let mut i: usize = 0;
    while i < trios.len()
        invariant
            g == grid@,
            g == grid_of_text(content@, shape.0 as nat, shape.1 as nat),
            i <= trios.len(),
            trios@ == trio_sweep(g),
            forall|k: int| 0 <= k < trios.len() ==> centred_non_dots(g, #[trigger] trios@[k]),
            gear_entries(g, trios@.take(i as int)) is Some,
            map@ == first_by_key(gear_entries(g, trios@.take(i as int))->Some_0),
        decreases trios.len() - i,
    {
        let t = trios[i];
        assert(centred_non_dots(g, trios@[i as int]));
        assert(trios@.take(i + 1).drop_last() =~= trios@.take(i as int));
        assert(trios@.take(i + 1).last() == t);
        let (va, vb, vc) = extract_non_boolean_trio_values_from_original_multidimensional_array(&grid, &t);
        let position_a_is_numeric = text_has_numeric(va.as_str());
        let position_b_is_star = text_is_star(&vb);
        let position_c_is_numeric = text_has_numeric(vc.as_str());
        if position_a_is_numeric && position_b_is_star && position_c_is_numeric {
            match gear_of(&grid, t) {
                None => {
                    proof {
                        lemma_fails_onward(|q: Seq<Trio>| gear_entries(g, q) is None, trios@, i + 1, trios.len() as int);
                        assert(trios@.take(trios.len() as int) =~= trios@);
                    }
                    return None;
                },
                Some(e) => {
                    let ghost es = gear_entries(g, trios@.take(i as int))->Some_0;
                    proof {
                        lemma_first_by_key_push(es, e);
                    }
                    if !has_number_key(&map, e.0) {
                        map.push(e);
                    }
                },
            }
        }
        i = i + 1;
    }
    let ghost es = gear_entries(g, trios@.take(i as int))->Some_0;
    assert(trios@.take(i as int) =~= trios@);
    let ghost vals = first_by_key(es).map_values(|e: (i64, i64)| e.1);
    let mut total: i64 = 0;
    let mut j: usize = 0;
    while j < map.len()
        invariant
            j <= map.len(),
            gear_entries(g, trio_sweep(g)) == Some(es),
            g == grid_of_text(content@, shape.0 as nat, shape.1 as nat),
            vals == first_by_key(es).map_values(|e: (i64, i64)| e.1),
            map@ == first_by_key(es),
            sum_i64(vals.take(j as int)) == Some(total),
        decreases map.len() - j,
    {
        assert(vals.take(j + 1).drop_last() =~= vals.take(j as int));
        match total.checked_add(map[j].1) {
            None => {
                proof {
                    lemma_fails_onward(|q: Seq<i64>| sum_i64(q) is None, vals, j + 1, vals.len() as int);
                    assert(vals.take(vals.len() as int) =~= vals);
                }
                return None;
            },
            Some(t) => {
                total = t;
            },
        }
        j = j + 1;
    }
    assert(vals.take(j as int) =~= vals);
    Some(total)
}

} // verus!
