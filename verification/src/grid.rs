//! The schematic as a grid of one-character cells, its windows, and the
//! masks that mark which cells of a window are not dots.

use vstd::prelude::*;

use crate::text::char_to_string;

verus! {

/// A grid of text cells stored row by row.
#[derive(Debug, PartialEq, Eq)]
pub struct Grid {
    rows: usize,
    cols: usize,
    cells: Vec<String>,
}

/// What a `Grid` holds: its shape and the text of its cells, row by row.
pub struct GridView {
    pub rows: nat,
    pub cols: nat,
    pub cells: Seq<Seq<char>>,
}

/// Whether a shape of `rows` × `cols` can lay out an array: the product of its
/// sides that are not zero is at most `isize::MAX`.
pub open spec fn shape_fits(rows: nat, cols: nat) -> bool {
    (if rows == 0 { 1 } else { rows }) * (if cols == 0 { 1 } else { cols }) <= isize::MAX
}

impl GridView {
    /// There is one cell for every row and column, and the shape fits in
    /// machine integers and can lay out an array.
    pub open spec fn wf(self) -> bool {
        &&& self.cells.len() == self.rows * self.cols
        &&& self.rows <= usize::MAX
        &&& self.cols <= usize::MAX
        &&& shape_fits(self.rows, self.cols)
    }

    /// The text of the cell in row `r` and column `c`.
    pub open spec fn at(self, r: int, c: int) -> Seq<char> {
        self.cells[r * self.cols + c]
    }

    /// The cells of row `r`, left to right.
    pub open spec fn row(self, r: int) -> Seq<Seq<char>> {
        self.cells.subrange(r * self.cols, r * self.cols + self.cols)
    }
}

impl View for Grid {
    type V = GridView;

    closed spec fn view(&self) -> GridView {
        GridView {
            rows: self.rows as nat,
            cols: self.cols as nat,
            cells: self.cells@.map_values(|s: String| s@),
        }
    }
}

/// A grid of flags stored row by row: `true` where a cell is not a dot.
#[derive(Debug, PartialEq, Eq)]
pub struct Mask {
    rows: usize,
    cols: usize,
    cells: Vec<bool>,
}

/// What a `Mask` holds: its shape and its flags, row by row.
pub struct MaskView {
    pub rows: nat,
    pub cols: nat,
    pub cells: Seq<bool>,
}

impl MaskView {
    /// There is one flag for every row and column, and the shape fits in
    /// machine integers.
    pub open spec fn wf(self) -> bool {
        &&& self.cells.len() == self.rows * self.cols
        &&& self.rows <= usize::MAX
        &&& self.cols <= usize::MAX
    }

    /// The flag in row `r` and column `c`.
    pub open spec fn at(self, r: int, c: int) -> bool {
        self.cells[r * self.cols + c]
    }
}

impl View for Mask {
    type V = MaskView;

    closed spec fn view(&self) -> MaskView {
        MaskView { rows: self.rows as nat, cols: self.cols as nat, cells: self.cells@ }
    }
}

impl Grid {
    #[verifier::type_invariant]
    spec fn shape_matches(self) -> bool {
        &&& self.cells.len() == self.rows * self.cols
        &&& shape_fits(self.rows as nat, self.cols as nat)
    }

    /// The number of rows.
    pub fn rows(&self) -> (n: usize)
        ensures
            n == self@.rows,
            self@.wf(),
    {
        proof {
            use_type_invariant(self);
        }
        self.rows
    }

    /// The number of columns.
    pub fn cols(&self) -> (n: usize)
        ensures
            n == self@.cols,
            self@.wf(),
    {
        proof {
            use_type_invariant(self);
        }
        self.cols
    }

    /// The cell in row `r` and column `c`, or `None` outside the grid.
    pub fn get(&self, r: usize, c: usize) -> (res: Option<&String>)
        ensures
            res is Some <==> (r < self@.rows && c < self@.cols),
            res matches Some(s) ==> s@ == self@.at(r as int, c as int),
    {
        proof {
            use_type_invariant(self);
        }
        if r < self.rows && c < self.cols {
            proof {
                lemma_cell_index(r as int, c as int, self.rows as int, self.cols as int);
            }
            Some(&self.cells[r * self.cols + c])
        } else {
            None
        }
    }
}

impl Mask {
    #[verifier::type_invariant]
    spec fn shape_matches(self) -> bool {
        self.cells.len() == self.rows * self.cols
    }

    /// The number of rows.
    pub fn rows(&self) -> (n: usize)
        ensures
            n == self@.rows,
            self@.wf(),
    {
        proof {
            use_type_invariant(self);
        }
        self.rows
    }

    /// The number of columns.
    pub fn cols(&self) -> (n: usize)
        ensures
            n == self@.cols,
            self@.wf(),
    {
        proof {
            use_type_invariant(self);
        }
        self.cols
    }

    /// The flag in row `r` and column `c`, or `None` outside the mask.
    pub fn get(&self, r: usize, c: usize) -> (res: Option<bool>)
        ensures
            res is Some <==> (r < self@.rows && c < self@.cols),
            res matches Some(b) ==> b == self@.at(r as int, c as int),
    {
        proof {
            use_type_invariant(self);
        }
        if r < self.rows && c < self.cols {
            proof {
                lemma_cell_index(r as int, c as int, self.rows as int, self.cols as int);
            }
            Some(self.cells[r * self.cols + c])
        } else {
            None
        }
    }

    /// A mask with the same shape and flags.
    fn duplicate(&self) -> (res: Mask)
        ensures
            res@ == self@,
    {
        proof {
            use_type_invariant(self);
        }
        let mut cells: Vec<bool> = Vec::new();
        let mut i: usize = 0;
        while i < self.cells.len()
            invariant
                i <= self.cells.len(),
                cells@ == self.cells@.take(i as int),
            decreases self.cells.len() - i,
        {
            cells.push(self.cells[i]);
            i = i + 1;
            assert(cells@ =~= self.cells@.take(i as int));
        }
        assert(cells@ =~= self.cells@);
        Mask { rows: self.rows, cols: self.cols, cells }
    }
}

/// In a grid of `rows` × `cols` cells, the cell of row `r` and column `c` is
/// stored at `r * cols + c`, inside the storage.
pub(crate) proof fn lemma_cell_index(r: int, c: int, rows: int, cols: int)
    requires
        0 <= r < rows,
        0 <= c < cols,
    ensures
        0 <= r * cols + c < rows * cols,
{
    assert(r * cols + c < rows * cols) by (nonlinear_arith)
        requires
            0 <= r < rows,
            0 <= c < cols,
    ;
    assert(0 <= r * cols) by (nonlinear_arith)
        requires
            0 <= r,
            0 <= c < cols,
    ;
}

/// Arranges the cells of `input` row by row into a grid of `shape.0` rows and
/// `shape.1` columns.  The shape must be able to lay out an array
/// (`shape_fits`), as the grid's windows are taken by ndarray.
pub fn form_multidimensional_array(input: &Vec<String>, shape: (usize, usize)) -> (res: Grid)
    requires
        input.len() == shape.0 * shape.1,
        shape_fits(shape.0 as nat, shape.1 as nat),
    ensures
        res@ == (GridView {
            rows: shape.0 as nat,
            cols: shape.1 as nat,
            cells: input@.map_values(|s: String| s@),
        }),
{
    let cells = input.clone();
    assert(cells@ =~= input@);
    Grid { rows: shape.0, cols: shape.1, cells }
}

/// How many windows of length `s` fit side by side along a length `n`.
pub open spec fn window_count(n: nat, s: nat) -> nat {
    if s <= n {
        (n - s + 1) as nat
    } else {
        0
    }
}

/// The `k`-th window of `h` rows and `w` columns of `g`, counting the windows
/// row by row by their top-left cell.
pub open spec fn window_of(g: GridView, h: nat, w: nat, k: int) -> GridView {
    let across = window_count(g.cols, w) as int;
    let wi = w as int;
    GridView {
        rows: h,
        cols: w,
        cells: Seq::new(h * w, |m: int| g.at(k / across + m / wi, k % across + m % wi)),
    }
}

/// All windows of `h` rows and `w` columns that fit in `g`, row by row.
pub open spec fn windows_of(g: GridView, h: nat, w: nat) -> Seq<GridView> {
    Seq::new(
        window_count(g.rows, h) * window_count(g.cols, w),
        |k: int| window_of(g, h, w, k),
    )
}

/// Calls `ArrayBase::windows` of ndarray on the grid laid out as a
/// row-major `Array2` (`Array2::from_shape_vec`), and collects each window's
/// cells with `ArrayView::iter`.  The contract states that the windows come
/// row by row by their top-left cell, each with its cells row by row, which is
/// how ndarray's `Windows` producer and view iterators walk them; that no
/// window is produced along an axis shorter than the window is its
/// `build_base`.  `from_shape_vec` refuses a shape whose non-zero sides
/// multiply past `isize::MAX` (`size_of_shape_checked`), and `windows` a
/// window with a zero side: `requires` leaves both out.
#[verifier::external_body]
fn ndarray_windows(grid: &Grid, h: usize, w: usize) -> (res: Vec<Grid>)
    requires
        h > 0,
        w > 0,
        shape_fits(grid@.rows, grid@.cols),
    ensures
        res@.map_values(|x: Grid| x@) == windows_of(grid@, h as nat, w as nat),
{
    let array = ndarray::Array2::from_shape_vec((grid.rows, grid.cols), grid.cells.clone()).unwrap();
    array.windows((h, w)).into_iter().map(
        |win| Grid { rows: h, cols: w, cells: win.iter().cloned().collect() },
    ).collect()
}

/// All 2×2 windows of the grid, row by row by their top-left cell.
pub fn form_window_array(input: &Grid) -> (res: Vec<Grid>)
    ensures
        res@.map_values(|x: Grid| x@) == windows_of(input@, 2, 2),
        res.len() == window_count(input@.rows, 2) * window_count(input@.cols, 2),
{
    proof {
        use_type_invariant(input);
    }
    let res = ndarray_windows(input, 2, 2);
    assert(res@.map_values(|x: Grid| x@).len() == res.len());
    res
}

/// All 3×3 windows of the grid, row by row by their top-left cell.
pub fn form_three_by_three_window_array(input: &Grid) -> (res: Vec<Grid>)
    ensures
        res@.map_values(|x: Grid| x@) == windows_of(input@, 3, 3),
        res.len() == window_count(input@.rows, 3) * window_count(input@.cols, 3),
{
    proof {
        use_type_invariant(input);
    }
    let res = ndarray_windows(input, 3, 3);
    assert(res@.map_values(|x: Grid| x@).len() == res.len());
    res
}

/// The text of a dot cell.
pub open spec fn is_dot(s: Seq<char>) -> bool {
    s == seq!['.']
}

/// The mask of a grid: `true` exactly where a cell is not `"."`.
pub open spec fn mask_of(g: GridView) -> MaskView {
    MaskView { rows: g.rows, cols: g.cols, cells: g.cells.map_values(|s: Seq<char>| !is_dot(s)) }
}

fn cell_is_dot(s: &String) -> (b: bool)
    ensures
        b == is_dot(s@),
{
    let t = s.as_str();
    if t.unicode_len() == 1 {
        let c = t.get_char(0);
        assert(c == '.' ==> t@ =~= seq!['.']);
        c == '.'
    } else {
        false
    }
}

impl Grid {
    fn to_mask(&self) -> (res: Mask)
        ensures
            res@ == mask_of(self@),
    {
        proof {
            use_type_invariant(self);
        }
        let mut cells: Vec<bool> = Vec::new();
        let mut i: usize = 0;
        while i < self.cells.len()
            invariant
                i <= self.cells.len(),
                cells@ =~= mask_of(self@).cells.take(i as int),
            decreases self.cells.len() - i,
        {
            let b = !cell_is_dot(&self.cells[i]);
            cells.push(b);
            i = i + 1;
            assert(cells@ =~= mask_of(self@).cells.take(i as int));
        }
        assert(cells@ =~= mask_of(self@).cells);
        Mask { rows: self.rows, cols: self.cols, cells }
    }
}

/// The mask of every window, in the same order.
pub fn form_boolean_mask(input: &Vec<Grid>) -> (res: Vec<Mask>)
    ensures
        res@.map_values(|m: Mask| m@) == input@.map_values(|g: Grid| mask_of(g@)),
{
    let mut res: Vec<Mask> = Vec::new();
    let mut i: usize = 0;
    while i < input.len()
        invariant
            i <= input.len(),
            res.len() == i,
            forall|j: int| 0 <= j < i ==> (#[trigger] res@[j])@ == mask_of(input@[j]@),
        decreases input.len() - i,
    {
        let m = input[i].to_mask();
        res.push(m);
        i = i + 1;
    }
    assert(res@.map_values(|m: Mask| m@) =~= input@.map_values(|g: Grid| mask_of(g@)));
    res
}

/// How many chunks of at most `size` items a sequence of `n` items makes.
pub open spec fn chunk_count(n: nat, size: nat) -> nat
    decreases n,
{
    if n == 0 || size == 0 {
        0
    } else if n <= size {
        1
    } else {
        1 + chunk_count((n - size) as nat, size)
    }
}

/// The `i`-th chunk: `size` consecutive items, or fewer at the end.
pub open spec fn chunk_of<A>(s: Seq<A>, size: nat, i: int) -> Seq<A> {
    let start = i * size;
    let end = if start + size <= s.len() { start + size } else { s.len() as int };
    s.subrange(start, end)
}

/// `s` cut into consecutive chunks of `size` items, the last one shorter if
/// `size` does not divide the length, as `slice::chunks` cuts it.
pub open spec fn chunks_of<A>(s: Seq<A>, size: nat) -> Seq<Seq<A>> {
    Seq::new(chunk_count(s.len(), size), |i: int| chunk_of(s, size, i))
}

/// Groups the masks into consecutive chunks of `chunk_size`.
pub fn chunk_window_array(input: &Vec<Mask>, chunk_size: usize) -> (res: Vec<Vec<Mask>>)
    requires
        chunk_size > 0,
    ensures
        res@.map_values(|c: Vec<Mask>| c@.map_values(|m: Mask| m@))
            == chunks_of(input@.map_values(|m: Mask| m@), chunk_size as nat),
{
    let ghost whole = input@.map_values(|m: Mask| m@);
    let mut res: Vec<Vec<Mask>> = Vec::new();
    let mut start: usize = 0;
    let ghost mut i: int = 0;
    while start < input.len()
        invariant
            chunk_size > 0,
            whole == input@.map_values(|m: Mask| m@),
            start <= input.len(),
            start == input.len() || start == i * chunk_size,
            0 <= i,
            chunk_count(input.len() as nat, chunk_size as nat) == i + chunk_count(
                (input.len() - start) as nat,
                chunk_size as nat,
            ),
            res.len() == i,
            forall|j: int|
                0 <= j < i ==> (#[trigger] res@[j])@.map_values(|m: Mask| m@) == chunk_of(
                    whole,
                    chunk_size as nat,
                    j,
                ),
        decreases input.len() - start,
    {
        let end = if input.len() - start > chunk_size {
            start + chunk_size
        } else {
            input.len()
        };
        let mut chunk: Vec<Mask> = Vec::new();
        let mut k = start;
        while k < end
            invariant
                start <= k <= end <= input.len(),
                whole == input@.map_values(|m: Mask| m@),
                chunk.len() == k - start,
                chunk@.map_values(|m: Mask| m@) =~= whole.subrange(start as int, k as int),
            decreases end - k,
        {
            let m = input[k].duplicate();
            chunk.push(m);
            assert(chunk@.map_values(|m: Mask| m@)[chunk.len() - 1] == whole[k as int]);
            k = k + 1;
            assert(chunk@.map_values(|m: Mask| m@) =~= whole.subrange(start as int, k as int));
        }
        proof {
            assert(chunk_of(whole, chunk_size as nat, i) =~= whole.subrange(
                start as int,
                end as int,
            ));
            assert((i + 1) * chunk_size == i * chunk_size + chunk_size) by (nonlinear_arith);
        }
        res.push(chunk);
        start = end;
        proof {
            i = i + 1;
        }
    }
    let ghost r = res@.map_values(|c: Vec<Mask>| c@.map_values(|m: Mask| m@));
    assert(r =~= chunks_of(whole, chunk_size as nat));
    res
}

/// Splits a text into its characters, each as a string of its own.
pub fn parse_string_to_array(input: &str) -> (res: Vec<String>)
    ensures
        res.len() == input@.len(),
        forall|i: int| 0 <= i < res.len() ==> #[trigger] res[i]@ == seq![input@[i]],
{
    let mut res: Vec<String> = Vec::new();
    for ch in it: input.chars()
        invariant
            it.seq() == input@,
            res.len() == it.index(),
            forall|i: int| 0 <= i < res.len() ==> #[trigger] res[i]@ == seq![input@[i]],
    {
        res.push(char_to_string(ch));
    }
    res
}

} // verus!
