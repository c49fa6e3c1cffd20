//! Where the cells compared inside a window lie, and where they lie in the
//! whole grid.

use vstd::prelude::*;

verus! {

/// A cell of the grid: row, then column.
pub type Cell = (usize, usize);

/// The cells, inside a 2×2 window, of the pair compared at `position`:
/// the two rows, the two columns, the two columns of the left diagonal, and the
/// two diagonals; `(9, 9)` twice for any other position.
pub open spec fn pair_position_cells(position: int) -> (Seq<usize>, Seq<usize>) {
    if position == 0 {
        (seq![0usize, 0usize], seq![0usize, 1usize])
    } else if position == 1 {
        (seq![1usize, 0usize], seq![1usize, 1usize])
    } else if position == 2 {
        (seq![0usize, 0usize], seq![1usize, 0usize])
    } else if position == 3 {
        (seq![0usize, 1usize], seq![1usize, 1usize])
    } else if position == 4 {
        (seq![1usize, 0usize], seq![0usize, 1usize])
    } else if position == 5 {
        (seq![0usize, 0usize], seq![1usize, 1usize])
    } else {
        (seq![9usize, 9usize], seq![9usize, 9usize])
    }
}

/// The two window cells (row, column) of the pair compared at `position`.
pub fn map_position_to_coordinate(position: usize) -> (res: ([usize; 2], [usize; 2]))
    ensures
        (res.0@, res.1@) == pair_position_cells(position as int),
{
    let res = match position {
        0 => ([0, 0], [0, 1]),
        1 => ([1, 0], [1, 1]),
        2 => ([0, 0], [1, 0]),
        3 => ([0, 1], [1, 1]),
        4 => ([1, 0], [0, 1]),
        5 => ([0, 0], [1, 1]),
        _ => ([9, 9], [9, 9]),
    };
    assert((res.0@, res.1@) =~~= pair_position_cells(position as int));
    res
}

/// The table of trios of a 3×3 window by position, as window cells (row,
/// column); naming the rows a, b, c and the columns 1, 2, 3, it lists the
/// three columns (a1 b1 c1), (a2 b2 c2), (a3 b3 c3); the three rows (a1 a2 a3),
/// (b1 b2 b3), (c1 c2 c3); the two diagonals (c1 b2 a3), (a1 b2 c3); then the
/// bends through the centre (a1 b2 c1), (a3 b2 c3), (a1 b2 c2), (a3 b2 c2),
/// (b1 b2 a3), (b1 b2 c3), (b1 b2 a2), (b3 b2 a2), (b1 b2 c2), (b3 b2 c2).
/// Past its end it gives (9, 9) three times.
pub open spec fn trio_position_cells(position: int) -> (Seq<usize>, Seq<usize>, Seq<usize>) {
    let t = |a: usize, b: usize, c: usize, d: usize, e: usize, f: usize|
        (seq![a, b], seq![c, d], seq![e, f]);
    if position == 0 {
        t(0, 0, 1, 0, 2, 0)
    } else if position == 1 {
        t(0, 1, 1, 1, 2, 1)
    } else if position == 2 {
        t(0, 2, 1, 2, 2, 2)
    } else if position == 3 {
        t(0, 0, 0, 1, 0, 2)
    } else if position == 4 {
        t(1, 0, 1, 1, 1, 2)
    } else if position == 5 {
        t(2, 0, 2, 1, 2, 2)
    } else if position == 6 {
        t(2, 0, 1, 1, 0, 2)
    } else if position == 7 {
        t(0, 0, 1, 1, 2, 2)
    } else if position == 8 {
        t(0, 0, 1, 1, 2, 0)
    } else if position == 9 {
        t(0, 2, 1, 1, 2, 2)
    } else if position == 10 {
        t(0, 0, 1, 1, 2, 1)
    } else if position == 11 {
        t(0, 2, 1, 1, 2, 1)
    } else if position == 12 {
        t(1, 0, 1, 1, 0, 2)
    } else if position == 13 {
        t(1, 0, 1, 1, 2, 2)
    } else if position == 14 {
        t(1, 0, 1, 1, 0, 1)
    } else if position == 15 {
        t(1, 2, 1, 1, 0, 1)
    } else if position == 16 {
        t(1, 0, 1, 1, 2, 1)
    } else if position == 17 {
        t(1, 2, 1, 1, 2, 1)
    } else {
        t(9, 9, 9, 9, 9, 9)
    }
}

/// The three window cells (row, column) listed at `position` of the trio
/// table (see `trio_position_cells`).
pub fn map_trio_position_to_coordinate(position: usize) -> (res: ([usize; 2], [usize; 2], [usize; 2]))
    ensures
        (res.0@, res.1@, res.2@) == trio_position_cells(position as int),
{
    let res = match position {
        0 => ([0, 0], [1, 0], [2, 0]),
        1 => ([0, 1], [1, 1], [2, 1]),
        2 => ([0, 2], [1, 2], [2, 2]),
        3 => ([0, 0], [0, 1], [0, 2]),
        4 => ([1, 0], [1, 1], [1, 2]),
        5 => ([2, 0], [2, 1], [2, 2]),
        6 => ([2, 0], [1, 1], [0, 2]),
        7 => ([0, 0], [1, 1], [2, 2]),
        8 => ([0, 0], [1, 1], [2, 0]),
        9 => ([0, 2], [1, 1], [2, 2]),
        10 => ([0, 0], [1, 1], [2, 1]),
        11 => ([0, 2], [1, 1], [2, 1]),
        12 => ([1, 0], [1, 1], [0, 2]),
        13 => ([1, 0], [1, 1], [2, 2]),
        14 => ([1, 0], [1, 1], [0, 1]),
        15 => ([1, 2], [1, 1], [0, 1]),
        16 => ([1, 0], [1, 1], [2, 1]),
        17 => ([1, 2], [1, 1], [2, 1]),
        _ => ([9, 9], [9, 9], [9, 9]),
    };
    assert((res.0@, res.1@, res.2@) =~~= trio_position_cells(position as int));
    res
}

/// The grid cell of the window cell `position` (row, column) in the window
/// whose top-left cell is (`anchor_row`, `chunk_column`).
pub open spec fn offset_cell(anchor_row: int, chunk_column: int, position: Seq<usize>) -> Cell {
    ((anchor_row + position[0]) as usize, (chunk_column + position[1]) as usize)
}

/// The grid cells of two window cells of the window whose top-left cell is
/// (`anchor_row`, `chunk_column`).
pub fn offset_coordinates_to_trace_back_to_original_array(
    anchor_row: usize,
    chunk_column: usize,
    position_a: [usize; 2],
    position_b: [usize; 2],
) -> (res: (Cell, Cell))
    requires
        anchor_row + position_a@[0] <= usize::MAX,
        chunk_column + position_a@[1] <= usize::MAX,
        anchor_row + position_b@[0] <= usize::MAX,
        chunk_column + position_b@[1] <= usize::MAX,
    ensures
        res.0 == offset_cell(anchor_row as int, chunk_column as int, position_a@),
        res.1 == offset_cell(anchor_row as int, chunk_column as int, position_b@),
        res.0.0 == anchor_row + position_a@[0],
        res.0.1 == chunk_column + position_a@[1],
        res.1.0 == anchor_row + position_b@[0],
        res.1.1 == chunk_column + position_b@[1],
{
    let offset_position_a_y_axis = anchor_row + position_a[0];
    let offset_position_a_x_axis = chunk_column + position_a[1];
    let offset_original_b_y_axis = anchor_row + position_b[0];
    let offset_original_b_x_axis = chunk_column + position_b[1];
    (
        (offset_position_a_y_axis, offset_position_a_x_axis),
        (offset_original_b_y_axis, offset_original_b_x_axis),
    )
}

/// The grid cells of three window cells of the window whose top-left cell is
/// (`anchor_row`, `chunk_column`).
pub fn offset_trio_coordinates_to_trace_back_to_original_array(
    anchor_row: usize,
    chunk_column: usize,
    position_a: [usize; 2],
    position_b: [usize; 2],
    position_c: [usize; 2],
) -> (res: (Cell, Cell, Cell))
    requires
        anchor_row + position_a@[0] <= usize::MAX,
        chunk_column + position_a@[1] <= usize::MAX,
        anchor_row + position_b@[0] <= usize::MAX,
        chunk_column + position_b@[1] <= usize::MAX,
        anchor_row + position_c@[0] <= usize::MAX,
        chunk_column + position_c@[1] <= usize::MAX,
    ensures
        res.0 == offset_cell(anchor_row as int, chunk_column as int, position_a@),
        res.1 == offset_cell(anchor_row as int, chunk_column as int, position_b@),
        res.2 == offset_cell(anchor_row as int, chunk_column as int, position_c@),
        res.0.0 == anchor_row + position_a@[0],
        res.0.1 == chunk_column + position_a@[1],
        res.1.0 == anchor_row + position_b@[0],
        res.1.1 == chunk_column + position_b@[1],
        res.2.0 == anchor_row + position_c@[0],
        res.2.1 == chunk_column + position_c@[1],
{
    let offset_position_a_y_axis = anchor_row + position_a[0];
    let offset_position_a_x_axis = chunk_column + position_a[1];
    let offset_original_b_y_axis = anchor_row + position_b[0];
    let offset_original_b_x_axis = chunk_column + position_b[1];
    let offset_original_c_y_axis = anchor_row + position_c[0];
    let offset_original_c_x_axis = chunk_column + position_c[1];
    (
        (offset_position_a_y_axis, offset_position_a_x_axis),
        (offset_original_b_y_axis, offset_original_b_x_axis),
        (offset_original_c_y_axis, offset_original_c_x_axis),
    )
}

} // verus!
