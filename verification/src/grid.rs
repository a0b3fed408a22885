//! Dense two-dimensional grids of cells, row by row, and the cutting and
//! assembling of them that the pyramid needs. What a cell holds is left to
//! the caller.

use vstd::prelude::*;
use vstd::arithmetic::div_mod::lemma_fundamental_div_mod_converse;
use vstd::arithmetic::power2::{lemma_pow2_adds, lemma_pow2_pos, lemma2_to64, lemma2_to64_rest, pow2};
use crate::tile::{lemma_block_bound, lemma_cell_split, lemma_sector_split, pow2_u32, MAX_ZOOM};

verus! {

/// A grid `width` cells wide and `height` cells high, stored row by row from
/// the top row down.
#[derive(Clone, Debug)]
pub struct Grid<T> {
    width: usize,
    height: usize,
    cells: Vec<T>,
}

/// Place of the cell at `row` and `col` in the row-by-row order of a grid
/// `width` wide.
pub open spec fn cell_index(width: nat, row: int, col: int) -> int {
    row * width + col
}

/// A cell inside a grid has a place inside the grid's cells.
pub proof fn lemma_cell_index(width: nat, height: nat, row: int, col: int)
    requires
        0 <= row < height,
        0 <= col < width,
    ensures
        0 <= row * width <= cell_index(width, row, col) < width * height,
        cell_index(width, row, col) / (width as int) == row,
        cell_index(width, row, col) % (width as int) == col,
{
    lemma_block_bound(row as nat, height, col as nat, width);
    lemma_fundamental_div_mod_converse(row * width + col, width as int, row, col);
    assert(height * width == width * height) by (nonlinear_arith);
    assert(row * width >= 0) by (nonlinear_arith)
        requires
            row >= 0,
            width >= 0,
    ;
}

impl<T: Copy> Grid<T> {
    /// Cells in a row.
    pub closed spec fn width(&self) -> nat {
        self.width as nat
    }

    /// Rows.
    pub closed spec fn height(&self) -> nat {
        self.height as nat
    }

    /// The cells row by row.
    pub closed spec fn cells(&self) -> Seq<T> {
        self.cells@
    }

    /// There is one cell for each place of the grid.
    pub closed spec fn wf(&self) -> bool {
        self.cells@.len() == self.width * self.height
    }

    /// The cell at `row` and `col`.
    pub open spec fn at(&self, row: int, col: int) -> T {
        self.cells()[cell_index(self.width(), row, col)]
    }

    /// A grid over the given cells; `None` unless they are as many as
    /// `width` times `height`.
    pub fn from_cells(width: usize, height: usize, cells: Vec<T>) -> (r: Option<Self>)
        ensures
            r is Some <==> cells@.len() == width * height,
            r matches Some(g) ==> g.wf() && g.width() == width && g.height() == height
                && g.cells() == cells@,
    {
        let len = cells.len();
        match width.checked_mul(height) {
            Some(n) => {
                if len == n {
                    Some(Grid { width, height, cells })
                } else {
                    None
                }
            },
            None => None,
        }
    }

    /// A grid with `value` in every cell; `None` where `width` times
    /// `height` is more than a length can be.
    pub fn filled(width: usize, height: usize, value: T) -> (r: Option<Self>)
        ensures
            r is Some <==> width * height <= usize::MAX,
            r matches Some(g) ==> g.wf() && g.width() == width && g.height() == height
                && forall|row: int, col: int|
                0 <= row < height && 0 <= col < width ==> g.at(row, col) == value,
    {
        match width.checked_mul(height) {
            Some(n) => {
                let mut cells: Vec<T> = Vec::new();
                let mut i: usize = 0;
                while i < n
                    invariant
                        i <= n,
                        cells@.len() == i,
                        forall|k: int| 0 <= k < i ==> cells@[k] == value,
                    decreases n - i,
                {
                    cells.push(value);
                    i = i + 1;
                }
                let g = Grid { width, height, cells };
                assert forall|row: int, col: int|
                    0 <= row < height && 0 <= col < width implies g.at(row, col) == value by {
                    lemma_cell_index(width as nat, height as nat, row, col);
                }
                Some(g)
            },
            None => None,
        }
    }

    /// Cells in a row.
    pub fn cols(&self) -> (r: usize)
        ensures
            r == self.width(),
    {
        self.width
    }

    /// Rows.
    pub fn rows(&self) -> (r: usize)
        ensures
            r == self.height(),
    {
        self.height
    }

    /// The cells row by row, from the top row down.
    pub fn as_cells(&self) -> (r: &Vec<T>)
        ensures
            r@ == self.cells(),
    {
        &self.cells
    }

    /// The cell at `row` and `col`; `None` outside the grid.
    pub fn get(&self, row: usize, col: usize) -> (r: Option<T>)
        requires
            self.wf(),
        ensures
            r == (if row < self.height() && col < self.width() {
                Some(self.at(row as int, col as int))
            } else {
                None
            }),
    {
        if row < self.height && col < self.width {
            let len = self.cells.len();
            proof {
                lemma_cell_index(self.width as nat, self.height as nat, row as int, col as int);
            }
            Some(self.cells[row * self.width + col])
        } else {
            None
        }
    }

    /// The part of the grid `width` wide and `height` high whose top-left
    /// cell is at column `x` and row `y`; `None` unless the part lies inside
    /// the grid.
    pub fn crop(&self, x: usize, y: usize, width: usize, height: usize) -> (r: Option<Self>)
        requires
            self.wf(),
        ensures
            r is Some <==> x + width <= self.width() && y + height <= self.height(),
            r matches Some(g) ==> g.wf() && g.width() == width && g.height() == height
                && forall|row: int, col: int|
                0 <= row < height && 0 <= col < width ==> g.at(row, col) == self.at(
                    y + row,
                    x + col,
                ),
    {
        if x > self.width || width > self.width - x || y > self.height || height > self.height
            - y {
            return None;
        }
        let len = self.cells.len();
        let mut cells: Vec<T> = Vec::new();
        let mut row: usize = 0;
        proof {
            assert(0 * width == 0) by (nonlinear_arith);
        }
        while row < height
            invariant
                self.wf(),
                x + width <= self.width,
                y + height <= self.height,
                row <= height,
                len == self.width * self.height,
                cells@.len() == row * width,
                forall|rr: int, cc: int|
                    0 <= rr < row && 0 <= cc < width ==> cells@[cell_index(width as nat, rr, cc)]
                        == self.at(y + rr, x + cc),
            decreases height - row,
        {
            let mut col: usize = 0;
            while col < width
                invariant
                    self.wf(),
                    x + width <= self.width,
                    y + height <= self.height,
                    row < height,
                    col <= width,
                    len == self.width * self.height,
                    cells@.len() == row * width + col,
                    forall|rr: int, cc: int|
                        0 <= rr < row && 0 <= cc < width ==> cells@[cell_index(
                            width as nat,
                            rr,
                            cc,
                        )] == self.at(y + rr, x + cc),
                    forall|cc: int|
                        0 <= cc < col ==> cells@[cell_index(width as nat, row as int, cc)]
                            == self.at(y + row, x + cc),
                decreases width - col,
            {
                proof {
                    lemma_cell_index(
                        self.width as nat,
                        self.height as nat,
                        (y + row) as int,
                        (x + col) as int,
                    );
                    assert forall|rr: int, cc: int| 0 <= rr < row && 0 <= cc < width implies 0
                        <= #[trigger] cell_index(width as nat, rr, cc) < row * width by {
                        lemma_cell_index(width as nat, row as nat, rr, cc);
                        assert(width * row == row * width) by (nonlinear_arith);
                    }
                }
                cells.push(self.cells[(y + row) * self.width + (x + col)]);
                col = col + 1;
            }
            proof {
                assert((row + 1) * width == row * width + width) by (nonlinear_arith);
                assert forall|rr: int, cc: int| 0 <= rr < row + 1 && 0 <= cc < width implies cells@[cell_index(
                    width as nat,
                    rr,
                    cc,
                )] == self.at(y + rr, x + cc) by {
                    if rr < row {
                    } else {
                        assert(rr == row);
                    }
                }
            }
            row = row + 1;
        }
        proof {
            assert(height * width == width * height) by (nonlinear_arith);
        }
        Some(Grid { width, height, cells })
    }
}

/// Side of an output tile's grid: the tile itself and the overlap halo on
/// both sides.
pub open spec fn slice_side(tile_size: nat, halo: nat) -> nat {
    tile_size + 2 * halo
}

/// First column (or row) of the slice at place `index` of its row (or
/// column): the ingestion buffer is skipped but for the halo.
pub open spec fn slice_origin(index: int, tile_size: nat, buffer: nat, halo: nat) -> int {
    buffer - halo + index * tile_size
}

/// A raster `width` by `height` can be cut into `4^levels` output tiles:
/// the halo is inside the ingestion buffer, and the tiles with the buffer
/// before them and the halo after them fit into the raster.
pub open spec fn slicing_fits(
    width: nat,
    height: nat,
    levels: nat,
    tile_size: nat,
    buffer: nat,
    halo: nat,
) -> bool {
    &&& levels <= MAX_ZOOM
    &&& tile_size >= 1
    &&& halo <= buffer
    &&& buffer + halo + tile_size * pow2(levels) <= width
    &&& buffer + halo + tile_size * pow2(levels) <= height
}

/// `slices` are the output tiles cut from `grid`, by sector: sector `s` is
/// the square at column `s mod 2^levels` and row `s div 2^levels` of the
/// block, with its halo.
pub open spec fn is_slicing<T: Copy>(
    grid: Grid<T>,
    slices: Seq<Grid<T>>,
    levels: nat,
    tile_size: nat,
    buffer: nat,
    halo: nat,
) -> bool {
    &&& slices.len() == pow2(2 * levels)
    &&& forall|s: int|
        0 <= s < slices.len() ==> {
            &&& (#[trigger] slices[s]).wf()
            &&& slices[s].width() == slice_side(tile_size, halo)
            &&& slices[s].height() == slice_side(tile_size, halo)
        }
    &&& forall|s: int, row: int, col: int|
        0 <= s < slices.len() && 0 <= row < slice_side(tile_size, halo) && 0 <= col < slice_side(
            tile_size,
            halo,
        ) ==> #[trigger] slices[s].at(row, col) == grid.at(
            slice_origin(s / (pow2(levels) as int), tile_size, buffer, halo) + row,
            slice_origin(s % (pow2(levels) as int), tile_size, buffer, halo) + col,
        )
}

/// Cuts the raster of a unit tile into its `4^levels` output tiles, by
/// sector, each `tile_size` plus twice `halo` a side. `None` unless the
/// tiles fit into the raster.
pub fn slice_supertile<T: Copy>(
    grid: &Grid<T>,
    levels: u8,
    tile_size: u16,
    buffer: u32,
    halo: u16,
) -> (r: Option<Vec<Grid<T>>>)
    requires
        grid.wf(),
    ensures
        r is Some <==> slicing_fits(
            grid.width(),
            grid.height(),
            levels as nat,
            tile_size as nat,
            buffer as nat,
            halo as nat,
        ),
        r matches Some(slices) ==> is_slicing(
            *grid,
            slices@,
            levels as nat,
            tile_size as nat,
            buffer as nat,
            halo as nat,
        ),
{
    if levels > MAX_ZOOM || tile_size == 0 || halo as u32 > buffer {
        return None;
    }
    let n: u64 = pow2_u32(levels) as u64;
    let ghost lv = levels as nat;
    proof {
        lemma2_to64();
        lemma2_to64_rest();
        lemma_pow2_pos(lv);
        lemma_pow2_adds(lv, lv);
        if levels < 30 {
            vstd::arithmetic::power2::lemma_pow2_strictly_increases(lv, 30);
        }
        assert(tile_size * n <= 0xffff * 0x4000_0000) by (nonlinear_arith)
            requires
                tile_size <= 0xffff,
                n <= 0x4000_0000,
        ;
        assert(n * n <= 0x4000_0000 * 0x4000_0000) by (nonlinear_arith)
            requires
                n <= 0x4000_0000,
        ;
    }
    let span: u64 = buffer as u64 + halo as u64 + tile_size as u64 * n;
    if span > grid.width as u64 || span > grid.height as u64 {
        return None;
    }
    proof {
        assert(tile_size * n >= tile_size) by (nonlinear_arith)
            requires
                n >= 1,
                tile_size >= 0,
        ;
    }
    let side: usize = (tile_size as u64 + 2 * (halo as u64)) as usize;
    let base: u64 = (buffer - halo as u32) as u64;
    let count: u64 = n * n;
    let mut out: Vec<Grid<T>> = Vec::new();
    let mut s: u64 = 0;
    while s < count
        invariant
            grid.wf(),
            lv == levels as nat,
            n == pow2(lv),
            n >= 1,
            tile_size >= 1,
            halo <= buffer,
            count == n * n,
            count == pow2(2 * lv),
            span == buffer + halo + tile_size * n,
            span <= grid.width(),
            span <= grid.height(),
            side == slice_side(tile_size as nat, halo as nat),
            base == buffer - halo,
            s <= count,
            out@.len() == s,
            forall|k: int|
                0 <= k < s ==> {
                    &&& (#[trigger] out@[k]).wf()
                    &&& out@[k].width() == side
                    &&& out@[k].height() == side
                },
            forall|k: int, row: int, col: int|
                0 <= k < s && 0 <= row < side && 0 <= col < side ==> #[trigger] out@[k].at(
                    row,
                    col,
                ) == grid.at(
                    slice_origin(k / (n as int), tile_size as nat, buffer as nat, halo as nat)
                        + row,
                    slice_origin(k % (n as int), tile_size as nat, buffer as nat, halo as nat)
                        + col,
                ),
        decreases count - s,
    {
        let col: u64 = s % n;
        let row: u64 = s / n;
        proof {
            lemma_sector_split(s as nat, n as nat);
            assert(col * tile_size + tile_size <= n * tile_size) by (nonlinear_arith)
                requires
                    col < n,
            ;
            assert(row * tile_size + tile_size <= n * tile_size) by (nonlinear_arith)
                requires
                    row < n,
            ;
            assert(n * tile_size == tile_size * n) by (nonlinear_arith);
        }
        let x: u64 = base + col * tile_size as u64;
        let y: u64 = base + row * tile_size as u64;
        match grid.crop(x as usize, y as usize, side, side) {
            Some(slice) => {
                out.push(slice);
            },
            None => {
                assert(false);
            },
        }
        s = s + 1;
    }
    Some(out)
}

/// Tiles that lie side by side in the block share what they show of the
/// raster: the last `2 * halo` columns of a tile's interior and right halo
/// are the left halo and first columns of the tile after it.
pub proof fn lemma_slices_agree_along_x<T: Copy>(
    grid: Grid<T>,
    slices: Seq<Grid<T>>,
    levels: nat,
    tile_size: nat,
    buffer: nat,
    halo: nat,
    s: int,
    row: int,
    col: int,
)
    requires
        is_slicing(grid, slices, levels, tile_size, buffer, halo),
        0 <= s < slices.len(),
        s % (pow2(levels) as int) + 1 < pow2(levels),
        0 <= row < slice_side(tile_size, halo),
        0 <= col < 2 * halo,
    ensures
        s + 1 < slices.len(),
        slices[s].at(row, col + tile_size) == slices[s + 1].at(row, col),
{
    let n = pow2(levels) as int;
    lemma_pow2_adds(levels, levels);
    lemma_pow2_pos(levels);
    lemma_cell_split(s, n, n);
    let r = s / n;
    let c = s % n;
    lemma_fundamental_div_mod_converse(s + 1, n, r, c + 1);
    assert(s + 1 < n * n) by (nonlinear_arith)
        requires
            s == r * n + c,
            c + 1 < n,
            0 <= r < n,
    ;
    assert((c + 1) * tile_size == c * tile_size + tile_size) by (nonlinear_arith);
}

/// Tiles that lie one above the other in the block share what they show of
/// the raster: the last `2 * halo` rows of a tile's interior and bottom halo
/// are the top halo and first rows of the tile below it.
pub proof fn lemma_slices_agree_along_y<T: Copy>(
    grid: Grid<T>,
    slices: Seq<Grid<T>>,
    levels: nat,
    tile_size: nat,
    buffer: nat,
    halo: nat,
    s: int,
    row: int,
    col: int,
)
    requires
        is_slicing(grid, slices, levels, tile_size, buffer, halo),
        0 <= s,
        s + pow2(levels) < slices.len(),
        0 <= row < 2 * halo,
        0 <= col < slice_side(tile_size, halo),
    ensures
        slices[s].at(row + tile_size, col) == slices[s + pow2(levels)].at(row, col),
{
    let n = pow2(levels) as int;
    lemma_pow2_adds(levels, levels);
    lemma_pow2_pos(levels);
    lemma_cell_split(s, n, n);
    let r = s / n;
    let c = s % n;
    assert(s + n == (r + 1) * n + c) by (nonlinear_arith)
        requires
            s == r * n + c,
    ;
    lemma_fundamental_div_mod_converse(s + n, n, r + 1, c);
    assert((r + 1) * tile_size == r * tile_size + tile_size) by (nonlinear_arith);
}

/// Rows and columns of a raster that its output tiles reach: the tiles
/// with the buffer before them and the halo after them.
pub open spec fn slicing_span(levels: nat, tile_size: nat, buffer: nat, halo: nat) -> nat {
    buffer + halo + tile_size * pow2(levels)
}

/// Halo consistency across unit tiles, along x: where the rasters of two
/// unit tiles side by side hold the same values over the ground they share,
/// the last tile of a row of the left raster and the first tile of that row
/// of the right raster agree on the `2 * halo` columns they share.
pub proof fn lemma_slices_agree_across_rasters_x<T: Copy>(
    left: Grid<T>,
    right: Grid<T>,
    left_slices: Seq<Grid<T>>,
    right_slices: Seq<Grid<T>>,
    levels: nat,
    tile_size: nat,
    buffer: nat,
    halo: nat,
    block_row: int,
    row: int,
    col: int,
)
    requires
        halo <= buffer,
        is_slicing(left, left_slices, levels, tile_size, buffer, halo),
        is_slicing(right, right_slices, levels, tile_size, buffer, halo),
        forall|r: int, c: int|
            0 <= r < slicing_span(levels, tile_size, buffer, halo) && 0 <= c < buffer + halo
                ==> #[trigger] left.at(r, tile_size * pow2(levels) + c) == right.at(r, c),
        0 <= block_row < pow2(levels),
        0 <= row < slice_side(tile_size, halo),
        0 <= col < 2 * halo,
    ensures
        left_slices[block_row * pow2(levels) + pow2(levels) - 1].at(row, col + tile_size)
            == right_slices[block_row * pow2(levels)].at(row, col),
{
    let n = pow2(levels) as int;
    lemma_pow2_adds(levels, levels);
    lemma_pow2_pos(levels);
    let sl = block_row * n + n - 1;
    let sr = block_row * n;
    lemma_fundamental_div_mod_converse(sl, n, block_row, n - 1);
    lemma_fundamental_div_mod_converse(sr, n, block_row, 0);
    assert(0 <= sr && sl < n * n) by (nonlinear_arith)
        requires
            sl == block_row * n + n - 1,
            sr == block_row * n,
            0 <= block_row < n,
    ;
    let oy = slice_origin(block_row, tile_size, buffer, halo);
    assert(0 <= block_row * tile_size && block_row * tile_size + tile_size <= tile_size * n)
        by (nonlinear_arith)
        requires
            0 <= block_row < n,
            tile_size >= 0,
    ;
    assert((n - 1) * tile_size + tile_size == tile_size * n) by (nonlinear_arith);
    let r = oy + row;
    let c = buffer - halo + col;
    assert(left_slices[sl].at(row, col + tile_size) == left.at(
        r,
        slice_origin(n - 1, tile_size, buffer, halo) + col + tile_size,
    ));
    assert(right_slices[sr].at(row, col) == right.at(r, slice_origin(0, tile_size, buffer, halo) + col));
    assert(0 * tile_size == 0) by (nonlinear_arith);
    assert(left.at(r, tile_size * pow2(levels) + c) == right.at(r, c));
}

/// Halo consistency across unit tiles, along y: where the rasters of two
/// unit tiles one above the other hold the same values over the ground they
/// share, the last tile of a column of the upper raster and the first tile
/// of that column of the lower raster agree on the `2 * halo` rows they
/// share.
pub proof fn lemma_slices_agree_across_rasters_y<T: Copy>(
    upper: Grid<T>,
    lower: Grid<T>,
    upper_slices: Seq<Grid<T>>,
    lower_slices: Seq<Grid<T>>,
    levels: nat,
    tile_size: nat,
    buffer: nat,
    halo: nat,
    block_col: int,
    row: int,
    col: int,
)
    requires
        halo <= buffer,
        is_slicing(upper, upper_slices, levels, tile_size, buffer, halo),
        is_slicing(lower, lower_slices, levels, tile_size, buffer, halo),
        forall|r: int, c: int|
            0 <= r < buffer + halo && 0 <= c < slicing_span(levels, tile_size, buffer, halo)
                ==> #[trigger] upper.at(tile_size * pow2(levels) + r, c) == lower.at(r, c),
        0 <= block_col < pow2(levels),
        0 <= row < 2 * halo,
        0 <= col < slice_side(tile_size, halo),
    ensures
        upper_slices[(pow2(levels) - 1) * pow2(levels) + block_col].at(row + tile_size, col)
            == lower_slices[block_col].at(row, col),
{
    let n = pow2(levels) as int;
    lemma_pow2_adds(levels, levels);
    lemma_pow2_pos(levels);
    let su = (n - 1) * n + block_col;
    let sl = block_col;
    lemma_fundamental_div_mod_converse(su, n, n - 1, block_col);
    lemma_fundamental_div_mod_converse(sl, n, 0, block_col);
    assert(0 <= su < n * n) by (nonlinear_arith)
        requires
            su == (n - 1) * n + block_col,
            0 <= block_col < n,
    ;
    assert(0 <= block_col * tile_size && block_col * tile_size + tile_size <= tile_size * n)
        by (nonlinear_arith)
        requires
            0 <= block_col < n,
            tile_size >= 0,
    ;
    assert((n - 1) * tile_size + tile_size == tile_size * n) by (nonlinear_arith);
    assert(0 * tile_size == 0) by (nonlinear_arith);
    let ox = slice_origin(block_col, tile_size, buffer, halo);
    let r = buffer - halo + row;
    let c = ox + col;
    assert(upper_slices[su].at(row + tile_size, col) == upper.at(
        slice_origin(n - 1, tile_size, buffer, halo) + row + tile_size,
        c,
    ));
    assert(lower_slices[sl].at(row, col) == lower.at(slice_origin(0, tile_size, buffer, halo) + row, c));
    assert(upper.at(tile_size * pow2(levels) + r, c) == lower.at(r, c));
}

/// Why an overview could not be assembled.
#[derive(Clone, Copy, Debug, PartialEq, Eq, Structural)]
pub enum AssembleError {
    /// There are not sixteen places for children, the halo is wider than
    /// half a tile, or the assembled grid would have more cells than a
    /// length can count.
    Geometry,
    /// A child is not `tile_size` plus twice the halo a side.
    ChildSize,
    /// One of the four children inside the parent is missing: the parent has
    /// no data and gets no payload.
    MissingInterior,
}

/// Along one axis of the assembled grid, which of the four children in a row
/// of the window the cell at `i` comes from. The first `2 * halo` cells come
/// from the neighbour before the parent, then `tile_size` cells from each of
/// the two children inside it, and the last `2 * halo` from the neighbour
/// after it.
pub open spec fn source_child(i: int, tile_size: nat, halo: nat) -> int {
    if i < 2 * halo {
        0
    } else if i < 2 * halo + tile_size {
        1
    } else if i < 2 * halo + 2 * tile_size {
        2
    } else {
        3
    }
}

/// Along one axis, the cell of that child which the assembled cell at `i`
/// is copied from. From the neighbour before the parent it is the last
/// `2 * halo` cells of its interior, from the children inside the parent
/// their interior, from the neighbour after it the first `2 * halo` cells of
/// its interior.
pub open spec fn source_cell(i: int, tile_size: nat, halo: nat) -> int {
    if i < 2 * halo {
        tile_size - halo + i
    } else if i < 2 * halo + tile_size {
        i - halo
    } else if i < 2 * halo + 2 * tile_size {
        i - halo - tile_size
    } else {
        i - halo - 2 * tile_size
    }
}

/// The cell at `row` and `col` of the grid assembled from the window of
/// children: copied from the child it lies in, or `fill` where that child
/// is missing.
pub open spec fn assembled_cell<T: Copy>(
    children: Seq<Option<Grid<T>>>,
    tile_size: nat,
    halo: nat,
    fill: T,
    row: int,
    col: int,
) -> T {
    match children[source_child(row, tile_size, halo) * 4 + source_child(col, tile_size, halo)] {
        Some(child) => child.at(
            source_cell(row, tile_size, halo),
            source_cell(col, tile_size, halo),
        ),
        None => fill,
    }
}

/// Sixteen places, a halo of at most half a tile, and an assembled grid
/// whose cells a length can count.
pub open spec fn window_geometry_ok(places: nat, tile_size: nat, halo: nat) -> bool {
    &&& places == 16
    &&& tile_size >= 1
    &&& 2 * halo <= tile_size
    &&& (2 * slice_side(tile_size, halo)) * (2 * slice_side(tile_size, halo)) <= usize::MAX
}

/// Every child that is there is a grid `tile_size` plus twice `halo` a side.
pub open spec fn children_sized<T: Copy>(
    children: Seq<Option<Grid<T>>>,
    tile_size: nat,
    halo: nat,
) -> bool {
    forall|i: int|
        0 <= i < children.len() ==> ((#[trigger] children[i]) matches Some(g) ==> g.wf()
            && g.width() == slice_side(tile_size, halo) && g.height() == slice_side(
            tile_size,
            halo,
        ))
}

/// The four children inside the parent are there: those at the two middle
/// rows and columns of the window.
pub open spec fn interior_present<T: Copy>(children: Seq<Option<Grid<T>>>) -> bool {
    children[5] is Some && children[6] is Some && children[9] is Some && children[10] is Some
}

/// Which child along one axis, and which cell of it, the assembled cell at
/// `i` comes from.
fn locate(i: usize, tile_size: usize, halo: usize) -> (r: (usize, usize))
    requires
        2 * halo <= tile_size,
        i < 2 * (tile_size + 2 * halo),
        2 * (tile_size + 2 * halo) <= usize::MAX,
    ensures
        r.0 == source_child(i as int, tile_size as nat, halo as nat),
        r.1 == source_cell(i as int, tile_size as nat, halo as nat),
        r.0 < 4,
        r.1 < tile_size + 2 * halo,
{
    if i < 2 * halo {
        (0, tile_size - halo + i)
    } else if i < 2 * halo + tile_size {
        (1, i - halo)
    } else if i < 2 * halo + 2 * tile_size {
        (2, i - halo - tile_size)
    } else {
        (3, i - halo - 2 * tile_size)
    }
}

/// Whether the grid is there as a square of the given side.
fn child_fits<T: Copy>(child: &Option<Grid<T>>, side: usize) -> (r: bool)
    ensures
        r == (*child matches Some(g) ==> g.wf() && g.width() == side && g.height() == side),
{
    match child {
        Some(g) => {
            let len = g.cells.len();
            match g.width.checked_mul(g.height) {
                Some(n) => n == len && g.width == side && g.height == side,
                None => false,
            }
        },
        None => true,
    }
}

/// Puts the sixteen children of a parent, given row by row over the window,
/// side by side at the children's resolution: a grid twice `tile_size` plus
/// twice `halo` a side, which scaled down by two is the parent with its
/// halo. A neighbour that is missing leaves `fill` in its strip.
pub fn assemble_overview<T: Copy>(
    children: &Vec<Option<Grid<T>>>,
    tile_size: u16,
    halo: u16,
    fill: T,
) -> (r: Result<Grid<T>, AssembleError>)
    ensures
        r == Err::<Grid<T>, AssembleError>(AssembleError::Geometry) <==> !window_geometry_ok(
            children@.len(),
            tile_size as nat,
            halo as nat,
        ),
        r == Err::<Grid<T>, AssembleError>(AssembleError::ChildSize) <==> window_geometry_ok(
            children@.len(),
            tile_size as nat,
            halo as nat,
        ) && !children_sized(children@, tile_size as nat, halo as nat),
        r == Err::<Grid<T>, AssembleError>(AssembleError::MissingInterior) <==> window_geometry_ok(
            children@.len(),
            tile_size as nat,
            halo as nat,
        ) && children_sized(children@, tile_size as nat, halo as nat) && !interior_present(
            children@,
        ),
        r matches Ok(g) ==> {
            &&& g.wf()
            &&& g.width() == 2 * slice_side(tile_size as nat, halo as nat)
            &&& g.height() == 2 * slice_side(tile_size as nat, halo as nat)
            &&& forall|row: int, col: int|
                0 <= row < g.height() && 0 <= col < g.width() ==> #[trigger] g.at(row, col)
                    == assembled_cell(children@, tile_size as nat, halo as nat, fill, row, col)
        },
{
    let t: usize = tile_size as usize;
    let h: usize = halo as usize;
    if children.len() != 16 || tile_size == 0 || 2 * h > t {
        return Err(AssembleError::Geometry);
    }
    let side: usize = t + 2 * h;
    let full: usize = 2 * side;
    let count: usize = match full.checked_mul(full) {
        Some(n) => n,
        None => {
            return Err(AssembleError::Geometry);
        },
    };
    assert(window_geometry_ok(children@.len(), tile_size as nat, halo as nat));
    let mut i: usize = 0;
    while i < 16
        invariant
            i <= 16,
            children@.len() == 16,
            window_geometry_ok(children@.len(), tile_size as nat, halo as nat),
            side == slice_side(tile_size as nat, halo as nat),
            forall|k: int|
                0 <= k < i ==> ((#[trigger] children@[k]) matches Some(g) ==> g.wf() && g.width()
                    == side && g.height() == side),
        decreases 16 - i,
    {
        if !child_fits(&children[i], side) {
            assert(!children_sized(children@, tile_size as nat, halo as nat));
            return Err(AssembleError::ChildSize);
        }
        i = i + 1;
    }
    assert(children_sized(children@, tile_size as nat, halo as nat));
    if children[5].is_none() || children[6].is_none() || children[9].is_none()
        || children[10].is_none() {
        return Err(AssembleError::MissingInterior);
    }
    let mut cells: Vec<T> = Vec::new();
    let mut row: usize = 0;
    proof {
        assert(0 * full == 0) by (nonlinear_arith);
    }
    while row < full
        invariant
            children@.len() == 16,
            children_sized(children@, tile_size as nat, halo as nat),
            t == tile_size,
            h == halo,
            2 * h <= t,
            side == slice_side(t as nat, h as nat),
            full == 2 * side,
            count == full * full,
            row <= full,
            cells@.len() == row * full,
            forall|rr: int, cc: int|
                0 <= rr < row && 0 <= cc < full ==> cells@[cell_index(full as nat, rr, cc)]
                    == assembled_cell(children@, t as nat, h as nat, fill, rr, cc),
        decreases full - row,
    {
        let (child_row, cell_row) = locate(row, t, h);
        let mut col: usize = 0;
        while col < full
            invariant
                children@.len() == 16,
                children_sized(children@, tile_size as nat, halo as nat),
                t == tile_size,
                h == halo,
                2 * h <= t,
                side == slice_side(t as nat, h as nat),
                full == 2 * side,
                count == full * full,
                row < full,
                col <= full,
                child_row == source_child(row as int, t as nat, h as nat),
                cell_row == source_cell(row as int, t as nat, h as nat),
                child_row < 4,
                cell_row < side,
                cells@.len() == row * full + col,
                forall|rr: int, cc: int|
                    0 <= rr < row && 0 <= cc < full ==> cells@[cell_index(full as nat, rr, cc)]
                        == assembled_cell(children@, t as nat, h as nat, fill, rr, cc),
                forall|cc: int|
                    0 <= cc < col ==> cells@[cell_index(full as nat, row as int, cc)]
                        == assembled_cell(children@, t as nat, h as nat, fill, row as int, cc),
            decreases full - col,
        {
            let (child_col, cell_col) = locate(col, t, h);
            let value = match &children[child_row * 4 + child_col] {
                Some(g) => {
                    let len = g.cells.len();
                    proof {
                        assert(children@[child_row * 4 + child_col] == Some(*g));
                        lemma_cell_index(
                            side as nat,
                            side as nat,
                            cell_row as int,
                            cell_col as int,
                        );
                    }
                    g.cells[cell_row * g.width + cell_col]
                },
                None => fill,
            };
            proof {
                assert forall|rr: int, cc: int| 0 <= rr < row && 0 <= cc < full implies 0
                    <= #[trigger] cell_index(full as nat, rr, cc) < row * full by {
                    lemma_cell_index(full as nat, row as nat, rr, cc);
                    assert(full * row == row * full) by (nonlinear_arith);
                }
            }
            cells.push(value);
            col = col + 1;
        }
        proof {
            assert((row + 1) * full == row * full + full) by (nonlinear_arith);
            assert forall|rr: int, cc: int| 0 <= rr < row + 1 && 0 <= cc < full implies cells@[cell_index(
                full as nat,
                rr,
                cc,
            )] == assembled_cell(children@, t as nat, h as nat, fill, rr, cc) by {
                if rr < row {
                } else {
                    assert(rr == row);
                }
            }
        }
        row = row + 1;
    }
    Ok(Grid { width: full, height: full, cells })
}

/// Where all sixteen children are there and every cell of each holds the
/// same value, every cell of the assembled grid holds that value, halo
/// included.
pub proof fn lemma_constant_children_assemble_constant<T: Copy>(
    children: Seq<Option<Grid<T>>>,
    tile_size: nat,
    halo: nat,
    fill: T,
    value: T,
    row: int,
    col: int,
)
    requires
        children.len() == 16,
        tile_size >= 1,
        2 * halo <= tile_size,
        forall|i: int| 0 <= i < 16 ==> (#[trigger] children[i]) is Some,
        forall|i: int, r: int, c: int|
            0 <= i < 16 && 0 <= r < slice_side(tile_size, halo) && 0 <= c < slice_side(
                tile_size,
                halo,
            ) ==> #[trigger] children[i].unwrap().at(r, c) == value,
        0 <= row < 2 * slice_side(tile_size, halo),
        0 <= col < 2 * slice_side(tile_size, halo),
    ensures
        assembled_cell(children, tile_size, halo, fill, row, col) == value,
{
    let i = source_child(row, tile_size, halo) * 4 + source_child(col, tile_size, halo);
    assert(children[i] is Some);
    assert(children[i].unwrap().at(
        source_cell(row, tile_size, halo),
        source_cell(col, tile_size, halo),
    ) == value);
}

/// The windows of two parents side by side: the first two columns of the
/// right one hold what the last two columns of the left one hold.
pub open spec fn side_by_side<T: Copy>(
    left: Seq<Option<Grid<T>>>,
    right: Seq<Option<Grid<T>>>,
) -> bool {
    &&& left.len() == 16
    &&& right.len() == 16
    &&& right[0] == left[2] && right[1] == left[3]
    &&& right[4] == left[6] && right[5] == left[7]
    &&& right[8] == left[10] && right[9] == left[11]
    &&& right[12] == left[14] && right[13] == left[15]
}

/// The windows of two parents one above the other: the first two rows of
/// the lower one hold what the last two rows of the upper one hold.
pub open spec fn one_above_the_other<T: Copy>(
    upper: Seq<Option<Grid<T>>>,
    lower: Seq<Option<Grid<T>>>,
) -> bool {
    &&& upper.len() == 16
    &&& lower.len() == 16
    &&& lower[0] == upper[8] && lower[1] == upper[9] && lower[2] == upper[10] && lower[3]
        == upper[11]
    &&& lower[4] == upper[12] && lower[5] == upper[13] && lower[6] == upper[14] && lower[7]
        == upper[15]
}

/// The assembled grids of two parents side by side agree where they show
/// the same ground: where the windows hold the same children in the two
/// columns they share, the last `4 * halo` columns of the left parent's
/// interior and halo are the first `4 * halo` columns of the right parent's.
pub proof fn lemma_assembled_agree_along_x<T: Copy>(
    left: Seq<Option<Grid<T>>>,
    right: Seq<Option<Grid<T>>>,
    tile_size: nat,
    halo: nat,
    fill: T,
    row: int,
    col: int,
)
    requires
        2 * halo <= tile_size,
        side_by_side(left, right),
        0 <= row < 2 * slice_side(tile_size, halo),
        0 <= col < 4 * halo,
    ensures
        assembled_cell(right, tile_size, halo, fill, row, col) == assembled_cell(
            left,
            tile_size,
            halo,
            fill,
            row,
            col + 2 * tile_size,
        ),
{
}

/// The assembled grids of two parents one above the other agree where they
/// show the same ground: where the windows hold the same children in the two
/// rows they share, the last `4 * halo` rows of the upper parent's interior
/// and halo are the first `4 * halo` rows of the lower parent's.
pub proof fn lemma_assembled_agree_along_y<T: Copy>(
    upper: Seq<Option<Grid<T>>>,
    lower: Seq<Option<Grid<T>>>,
    tile_size: nat,
    halo: nat,
    fill: T,
    row: int,
    col: int,
)
    requires
        2 * halo <= tile_size,
        one_above_the_other(upper, lower),
        0 <= row < 4 * halo,
        0 <= col < 2 * slice_side(tile_size, halo),
    ensures
        assembled_cell(lower, tile_size, halo, fill, row, col) == assembled_cell(
            upper,
            tile_size,
            halo,
            fill,
            row + 2 * tile_size,
            col,
        ),
{
}

} // verus!
