//! Tile addresses of the web quad-tree and the pure geometry on them.

use vstd::prelude::*;
use vstd::arithmetic::power2::*;
use vstd::arithmetic::div_mod::*;
use vstd::bits::*;

verus! {

/// The finest zoom level the library works at. Tile coordinates and the
/// neighbour arithmetic on them are done in 32 bits; up to this level no
/// intermediate value leaves that range.
pub const MAX_ZOOM: u8 = 30;

/// Address of a square region of the web quad-tree. The origin `(0, 0)` is the
/// top-left tile of its zoom level.
#[derive(Clone, Copy, Debug, PartialEq, Eq, Hash, Structural)]
pub struct Tile {
    pub zoom: u8,
    pub x: u32,
    pub y: u32,
}

/// Number of tiles along one axis at `zoom`.
pub open spec fn axis_len(zoom: nat) -> nat {
    pow2(zoom)
}

impl Tile {
    /// The tile lies inside the pyramid: its zoom is supported and both
    /// coordinates are below `2^zoom`.
    pub open spec fn valid(self) -> bool {
        &&& self.zoom <= MAX_ZOOM
        &&& self.x < axis_len(self.zoom as nat)
        &&& self.y < axis_len(self.zoom as nat)
    }

    /// The tile `levels` zoom levels up that contains this one.
    pub open spec fn ancestor_spec(self, levels: nat) -> Tile
        recommends
            levels <= self.zoom,
    {
        Tile {
            zoom: (self.zoom - levels) as u8,
            x: (self.x as nat / pow2(levels)) as u32,
            y: (self.y as nat / pow2(levels)) as u32,
        }
    }

    /// The tile of one less zoom containing this one; none at zoom 0.
    pub open spec fn parent_spec(self) -> Option<Tile> {
        if self.zoom == 0 {
            None
        } else {
            Some(Tile { zoom: (self.zoom - 1) as u8, x: self.x / 2, y: self.y / 2 })
        }
    }

    /// The four tiles of the next zoom inside this one: left to right, then
    /// top to bottom.
    pub open spec fn children_spec(self) -> Seq<Tile> {
        let zoom = (self.zoom + 1) as u8;
        let x = (2 * self.x) as u32;
        let y = (2 * self.y) as u32;
        seq![
            Tile { zoom, x, y },
            Tile { zoom, x: (x + 1) as u32, y },
            Tile { zoom, x, y: (y + 1) as u32 },
            Tile { zoom, x: (x + 1) as u32, y: (y + 1) as u32 },
        ]
    }

    /// The descendant `levels` zoom levels down at sector `s`: column
    /// `s mod 2^levels`, row `s div 2^levels` of the block this tile covers.
    pub open spec fn descendant_at(self, levels: nat, s: int) -> Tile {
        Tile {
            zoom: (self.zoom + levels) as u8,
            x: (self.x * pow2(levels) + s % (pow2(levels) as int)) as u32,
            y: (self.y * pow2(levels) + s / (pow2(levels) as int)) as u32,
        }
    }

    /// All `4^levels` descendants `levels` zoom levels down, by sector.
    pub open spec fn descendants_spec(self, levels: nat) -> Seq<Tile> {
        Seq::new(pow2(2 * levels), |s: int| self.descendant_at(levels, s))
    }

    /// Row of this tile counted from the bottom: `2^zoom - 1 - y`.
    pub open spec fn reversed_y_spec(self) -> int {
        axis_len(self.zoom as nat) - 1 - self.y
    }

}

/// `2^e` in 32 bits.
pub fn pow2_u32(e: u8) -> (r: u32)
    requires
        e <= 31,
    ensures
        r == pow2(e as nat),
{
    proof {
        lemma_u32_pow2_no_overflow(e as nat);
        lemma_u32_shl_is_mul(1u32, e as u32);
    }
    1u32 << (e as u32)
}

impl Tile {
    /// Whether the tile lies inside the pyramid.
    pub fn is_valid(&self) -> (r: bool)
        ensures
            r == self.valid(),
    {
        if self.zoom > MAX_ZOOM {
            return false;
        }
        let n = pow2_u32(self.zoom);
        self.x < n && self.y < n
    }

    /// The tile of one less zoom containing this one; `None` at zoom 0.
    pub fn parent(&self) -> (r: Option<Tile>)
        ensures
            r == self.parent_spec(),
            self.valid() ==> (r matches Some(p) ==> p.valid()),
    {
        if self.zoom == 0 {
            None
        } else {
            let p = Tile { zoom: self.zoom - 1, x: self.x / 2, y: self.y / 2 };
            proof {
                if self.valid() {
                    lemma_pow2_unfold(self.zoom as nat);
                }
            }
            Some(p)
        }
    }

    /// Row of this tile counted from the bottom, as tile containers that
    /// follow the TMS convention store it.
    pub fn reversed_y(&self) -> (r: u32)
        requires
            self.valid(),
        ensures
            r == self.reversed_y_spec(),
            r < axis_len(self.zoom as nat),
    {
        let n = pow2_u32(self.zoom);
        n - 1 - self.y
    }

    /// The four tiles of the next zoom inside this one.
    pub fn children(&self) -> (r: [Tile; 4])
        requires
            self.valid(),
            self.zoom < MAX_ZOOM,
        ensures
            r@ == self.children_spec(),
            forall|i: int| 0 <= i < 4 ==> (#[trigger] r@[i]).valid(),
    {
        proof {
            lemma_pow2_unfold((self.zoom + 1) as nat);
            lemma_u32_pow2_no_overflow((self.zoom + 1) as nat);
        }
        let zoom = self.zoom + 1;
        let x = 2 * self.x;
        let y = 2 * self.y;
        let r = [
            Tile { zoom, x, y },
            Tile { zoom, x: x + 1, y },
            Tile { zoom, x, y: y + 1 },
            Tile { zoom, x: x + 1, y: y + 1 },
        ];
        assert(r@ =~= self.children_spec());
        r
    }
}

/// A block of `n` columns under column `x` of a level of `m` columns stays
/// inside the `m * n` columns of the finer level.
pub proof fn lemma_block_bound(x: nat, m: nat, off: nat, n: nat)
    requires
        x < m,
        off < n,
    ensures
        x * n + off < m * n,
{
    assert(x * n + off < m * n) by (nonlinear_arith)
        requires
            x < m,
            off < n,
    ;
}

/// Splitting a sector index `s < n * n` into column `s mod n` and row
/// `s div n` gives both below `n`, and `s` is the row times `n` plus the column.
pub proof fn lemma_sector_split(s: nat, n: nat)
    requires
        n > 0,
        s < n * n,
    ensures
        s % n < n,
        s / n < n,
        s == (s / n) * n + s % n,
{
    lemma_fundamental_div_mod(s as int, n as int);
    lemma_mod_bound(s as int, n as int);
    assert(s / n < n) by (nonlinear_arith)
        requires
            n > 0,
            s < n * n,
            s == n * (s / n) + s % n,
            0 <= s % n,
    ;
    assert((s / n) * n == n * (s / n)) by (nonlinear_arith);
}

/// Splitting an index `i < w * h` of a grid `w` wide and `h` high into column
/// `i mod w` and row `i div w`.
pub proof fn lemma_cell_split(i: int, w: int, h: int)
    requires
        w > 0,
        0 <= i < w * h,
    ensures
        0 <= i % w < w,
        0 <= i / w < h,
        i == (i / w) * w + i % w,
{
    lemma_fundamental_div_mod(i, w);
    lemma_mod_bound(i, w);
    assert(0 <= i / w < h) by (nonlinear_arith)
        requires
            w > 0,
            0 <= i < w * h,
            i == w * (i / w) + i % w,
            0 <= i % w < w,
    ;
    assert((i / w) * w == w * (i / w)) by (nonlinear_arith);
}

impl Tile {
    /// The tile `rel_level` zoom levels up that contains this one; `None`
    /// when that would be above zoom 0.
    pub fn ancestor(&self, rel_level: u8) -> (r: Option<Tile>)
        ensures
            rel_level <= self.zoom ==> r == Some(self.ancestor_spec(rel_level as nat)),
            rel_level > self.zoom ==> r is None,
    {
        if rel_level > self.zoom {
            return None;
        }
        if rel_level >= 32 {
            proof {
                lemma2_to64();
                if rel_level > 32 {
                    lemma_pow2_strictly_increases(32, rel_level as nat);
                }
                lemma_basic_div(self.x as int, pow2(rel_level as nat) as int);
                lemma_basic_div(self.y as int, pow2(rel_level as nat) as int);
            }
            return Some(Tile { zoom: self.zoom - rel_level, x: 0, y: 0 });
        }
        proof {
            lemma_u32_shr_is_div(self.x, rel_level as u32);
            lemma_u32_shr_is_div(self.y, rel_level as u32);
        }
        Some(
            Tile {
                zoom: self.zoom - rel_level,
                x: self.x >> (rel_level as u32),
                y: self.y >> (rel_level as u32),
            },
        )
    }

    /// All `4^rel_level` tiles `rel_level` zoom levels down inside this one,
    /// by sector: sector `s` is the tile at column `s mod 2^rel_level` and row
    /// `s div 2^rel_level` of the block.
    pub fn descendants(&self, rel_level: u8) -> (r: Vec<Tile>)
        requires
            self.valid(),
            self.zoom + rel_level <= MAX_ZOOM,
        ensures
            r@ == self.descendants_spec(rel_level as nat),
            forall|s: int| 0 <= s < r@.len() ==> (#[trigger] r@[s]).valid(),
    {
        let n: u64 = pow2_u32(rel_level) as u64;
        let ghost levels = rel_level as nat;
        proof {
            lemma_pow2_adds(levels, levels);
            lemma_pow2_adds(self.zoom as nat, levels);
            lemma_pow2_pos(levels);
            lemma2_to64();
            lemma2_to64_rest();
            lemma_pow2_strictly_increases(levels, 31);
            if self.zoom + rel_level < 30 {
                lemma_pow2_strictly_increases((self.zoom + rel_level) as nat, 30);
            }
            assert(n * n <= 0x4000_0000 * 0x4000_0000) by (nonlinear_arith)
                requires
                    n <= 0x4000_0000,
            ;
        }
        let count: u64 = n * n;
        let mut out: Vec<Tile> = Vec::new();
        let mut s: u64 = 0;
        while s < count
            invariant
                self.valid(),
                self.zoom + rel_level <= MAX_ZOOM,
                levels == rel_level as nat,
                n == pow2(levels),
                n > 0,
                count == n * n,
                count == pow2(2 * levels),
                pow2((self.zoom + rel_level) as nat) == pow2(self.zoom as nat) * pow2(levels),
                pow2((self.zoom + rel_level) as nat) <= 0x4000_0000,
                s <= count,
                out@ =~= Seq::new(s as nat, |i: int| self.descendant_at(levels, i)),
                forall|i: int| 0 <= i < out@.len() ==> (#[trigger] out@[i]).valid(),
            decreases count - s,
        {
            proof {
                lemma_sector_split(s as nat, n as nat);
                lemma_block_bound(
                    self.x as nat,
                    pow2(self.zoom as nat),
                    (s % n) as nat,
                    n as nat,
                );
                lemma_block_bound(
                    self.y as nat,
                    pow2(self.zoom as nat),
                    (s / n) as nat,
                    n as nat,
                );
            }
            let col: u64 = s % n;
            let row: u64 = s / n;
            let x: u64 = self.x as u64 * n + col;
            let y: u64 = self.y as u64 * n + row;
            let t = Tile { zoom: self.zoom + rel_level, x: x as u32, y: y as u32 };
            assert(t == self.descendant_at(levels, s as int));
            out.push(t);
            s = s + 1;
        }
        assert(out@ =~= self.descendants_spec(levels));
        out
    }

    /// The tile as one number: zoom, column and row side by side. Distinct
    /// tiles have distinct keys.
    pub open spec fn key_spec(self) -> u128 {
        (self.zoom as u128 * 0x1_0000_0000_0000_0000 + self.x as u128 * 0x1_0000_0000
            + self.y as u128) as u128
    }

    /// The tile as one number, for use as a map key.
    pub fn key(&self) -> (k: u128)
        ensures
            k == self.key_spec(),
    {
        self.zoom as u128 * 0x1_0000_0000_0000_0000 + self.x as u128 * 0x1_0000_0000
            + self.y as u128
    }
}

/// Two tiles with the same key are the same tile.
pub proof fn lemma_key_injective(a: Tile, b: Tile)
    requires
        a.key_spec() == b.key_spec(),
    ensures
        a == b,
{
}

/// The low `bits` bits of `v` spread out so that bit `i` of `v` lands on bit
/// `2 * i` of the result.
pub open spec fn spread_bits(v: nat, bits: nat) -> nat
    decreases bits,
{
    if bits == 0 {
        0
    } else {
        v % 2 + 4 * spread_bits(v / 2, (bits - 1) as nat)
    }
}

/// Morton code of a column and a row: their bits interleaved, the column's
/// on the even places.
pub open spec fn morton(x: nat, y: nat) -> nat {
    spread_bits(x, 32) + 2 * spread_bits(y, 32)
}

/// One coordinate of a buffered child: `v` is the coordinate counted from
/// `buffer` tiles before the first child. A coordinate that would fall before
/// 0 comes out `2 * 2^child_zoom` higher, so it lies outside the level.
pub open spec fn wrap_coord(v: nat, buffer: nat, child_zoom: nat) -> int {
    let max = 2 * pow2(child_zoom);
    let w = if buffer > v {
        max + v - buffer
    } else {
        v - buffer
    };
    if w >= max {
        w - max
    } else {
        w
    }
}

/// The buffer is no wider than twice the children's level: four times the
/// axis length of the tile's own level. One ring of neighbours always fits.
pub open spec fn buffer_fits(zoom: u8, buffer: u8) -> bool {
    buffer <= 4 * pow2(zoom as nat)
}

/// Tiles along one side of the buffered grid of children.
pub open spec fn buffered_side(buffer: nat) -> nat {
    (buffer + 1) * 2
}

impl Tile {
    /// The tile of the next zoom at column `dx` and row `dy` of the grid that
    /// starts `buffer` tiles before this tile's first child.
    pub open spec fn buffered_child(self, buffer: nat, dx: int, dy: int) -> Tile {
        Tile {
            zoom: (self.zoom + 1) as u8,
            x: wrap_coord((2 * self.x + dx) as nat, buffer, (self.zoom + 1) as nat) as u32,
            y: wrap_coord((2 * self.y + dy) as nat, buffer, (self.zoom + 1) as nat) as u32,
        }
    }

    /// The children with `buffer` rings of neighbours around them, row by
    /// row: entry `i` is at column `i mod side` and row `i div side`.
    pub open spec fn children_buffered_spec(self, buffer: nat) -> Seq<Tile> {
        let side = buffered_side(buffer) as int;
        Seq::new(
            (side * side) as nat,
            |i: int| self.buffered_child(buffer, i % side, i / side),
        )
    }

    /// Morton code of this tile's column and row.
    pub open spec fn morton_spec(self) -> nat {
        morton(self.x as nat, self.y as nat)
    }
}

/// `tilemath::tile::Tile::morton_code`: the bits of the column and of the row
/// interleaved into 64 bits, bit `i` of the column on place `2 * i` and bit
/// `i` of the row on place `2 * i + 1`. The zoom plays no part.
#[verifier::external_body]
fn morton_of(tile: Tile) -> (code: u64)
    ensures
        code == morton(tile.x as nat, tile.y as nat),
{
    tilemath::tile::Tile { zoom: tile.zoom, x: tile.x, y: tile.y }.morton_code()
}

/// `tilemath::tile::Tile::children_buffered`, collected: the tiles of the next
/// zoom on the square grid that starts `buffer` tiles before the first child
/// and has `2 * (buffer + 1)` tiles a side, column by column, each coordinate
/// wrapped as `wrap_coord` says. The zoom is limited so that twice the axis
/// length of the children's level fits in 32 bits, and the buffer so that a
/// coordinate before 0 can be wrapped.
#[verifier::external_body]
fn buffered_children_by_column(tile: Tile, buffer: u8) -> (tiles: Vec<Tile>)
    requires
        tile.valid(),
        tile.zoom < MAX_ZOOM,
        buffer_fits(tile.zoom, buffer),
    ensures
        tiles@ == Seq::new(
            buffered_side(buffer as nat) * buffered_side(buffer as nat),
            |i: int|
                tile.buffered_child(
                    buffer as nat,
                    i / (buffered_side(buffer as nat) as int),
                    i % (buffered_side(buffer as nat) as int),
                ),
        ),
{
    tilemath::tile::Tile { zoom: tile.zoom, x: tile.x, y: tile.y }
        .children_buffered(buffer)
        .map(|t| Tile { zoom: t.zoom, x: t.x, y: t.y })
        .collect()
}

impl Tile {
    /// Morton code of the tile: the sort key that keeps tiles near each other
    /// in the plane near each other in the order of work.
    pub fn morton_code(&self) -> (code: u64)
        ensures
            code == self.morton_spec(),
    {
        morton_of(*self)
    }

    /// The children of this tile with `buffer` rings of neighbours around
    /// them, row by row. With `buffer` 1 these are the sixteen tiles an
    /// overview of this tile is built from. A neighbour beyond the edge of the
    /// level comes out with a coordinate outside the level.
    pub fn children_buffered(&self, buffer: u8) -> (r: Vec<Tile>)
        requires
            self.valid(),
            self.zoom < MAX_ZOOM,
            buffer_fits(self.zoom, buffer),
        ensures
            r@ == self.children_buffered_spec(buffer as nat),
    {
        let by_column = buffered_children_by_column(*self, buffer);
        let side: usize = (buffer as usize + 1) * 2;
        let ghost b = buffer as nat;
        assert(side == buffered_side(b));
        assert(side * side <= 512 * 512) by (nonlinear_arith)
            requires
                side <= 512,
        ;
        let count: usize = side * side;
        let mut out: Vec<Tile> = Vec::new();
        let mut i: usize = 0;
        while i < count
            invariant
                side == buffered_side(b),
                b == buffer as nat,
                side > 0,
                count == side * side,
                i <= count,
                by_column@.len() == count,
                forall|k: int|
                    0 <= k < count ==> #[trigger] by_column@[k] == self.buffered_child(
                        b,
                        k / (side as int),
                        k % (side as int),
                    ),
                out@ =~= Seq::new(
                    i as nat,
                    |k: int| self.buffered_child(b, k % (side as int), k / (side as int)),
                ),
            decreases count - i,
        {
            let col: usize = i % side;
            let row: usize = i / side;
            proof {
                lemma_sector_split(i as nat, side as nat);
                lemma_block_bound(col as nat, side as nat, row as nat, side as nat);
                lemma_fundamental_div_mod_converse(
                    (col * side + row) as int,
                    side as int,
                    col as int,
                    row as int,
                );
            }
            let k: usize = col * side + row;
            out.push(by_column[k]);
            i = i + 1;
        }
        assert(out@ =~= self.children_buffered_spec(b));
        out
    }
}

/// A rectangle of tiles of one zoom level, both ends included: the tiles
/// that cover a bounding box.
#[derive(Clone, Copy, Debug, PartialEq, Eq, Structural)]
pub struct TileRange {
    pub zoom: u8,
    pub min_x: u32,
    pub max_x: u32,
    pub min_y: u32,
    pub max_y: u32,
}

impl TileRange {
    /// The rectangle is not empty and lies inside its zoom level.
    pub open spec fn valid(self) -> bool {
        &&& self.zoom <= MAX_ZOOM
        &&& self.min_x <= self.max_x < axis_len(self.zoom as nat)
        &&& self.min_y <= self.max_y < axis_len(self.zoom as nat)
    }

    /// Tiles in one row of the rectangle.
    pub open spec fn width(self) -> int {
        self.max_x - self.min_x + 1
    }

    /// Rows of the rectangle.
    pub open spec fn height(self) -> int {
        self.max_y - self.min_y + 1
    }

    /// `tile` is one of the rectangle's tiles.
    pub open spec fn contains(self, tile: Tile) -> bool {
        &&& tile.zoom == self.zoom
        &&& self.min_x <= tile.x <= self.max_x
        &&& self.min_y <= tile.y <= self.max_y
    }

    /// The `i`-th tile of the rectangle, counted row by row.
    pub open spec fn tile_at(self, i: int) -> Tile {
        Tile {
            zoom: self.zoom,
            x: (self.min_x + i % self.width()) as u32,
            y: (self.min_y + i / self.width()) as u32,
        }
    }

    /// The rectangle's tiles row by row, each row from left to right.
    pub open spec fn tiles_spec(self) -> Seq<Tile> {
        Seq::new((self.width() * self.height()) as nat, |i: int| self.tile_at(i))
    }
}

/// `tilemath::tile_iterator::TileIterator` over two inclusive ranges,
/// collected: one tile for each column and row of the rectangle, row by row.
/// Both ranges must hold something, and the tiles must be countable.
#[verifier::external_body]
fn tiles_row_by_row(range: TileRange) -> (tiles: Vec<Tile>)
    requires
        range.min_x <= range.max_x,
        range.min_y <= range.max_y,
        range.width() * range.height() <= usize::MAX,
    ensures
        tiles@ == range.tiles_spec(),
{
    tilemath::tile_iterator::TileIterator::new(
        range.zoom,
        range.min_x..=range.max_x,
        range.min_y..=range.max_y,
    ).map(|t| Tile { zoom: t.zoom, x: t.x, y: t.y }).collect()
}

impl TileRange {
    /// The tiles of the rectangle, row by row and from left to right in each
    /// row: every tile of the rectangle once, and no other.
    pub fn tiles(&self) -> (r: Vec<Tile>)
        requires
            self.valid(),
            self.width() * self.height() <= usize::MAX,
        ensures
            r@ == self.tiles_spec(),
            forall|i: int| 0 <= i < r@.len() ==> (#[trigger] r@[i]).valid(),
            forall|t: Tile| self.contains(t) <==> r@.contains(t),
            r@.no_duplicates(),
    {
        let r = tiles_row_by_row(*self);
        proof {
            self.lemma_tiles_cover();
        }
        r
    }

    /// Whether the rectangle is not empty and lies inside its zoom level.
    pub fn is_valid(&self) -> (r: bool)
        ensures
            r == self.valid(),
    {
        if self.zoom > MAX_ZOOM {
            return false;
        }
        let n = pow2_u32(self.zoom);
        self.min_x <= self.max_x && self.max_x < n && self.min_y <= self.max_y && self.max_y < n
    }

    /// The tiles of the rectangle as `tiles` gives them; `None` unless the
    /// rectangle is valid and its tiles are no more than a length can count.
    pub fn checked_tiles(&self) -> (r: Option<Vec<Tile>>)
        ensures
            r is Some <==> self.valid() && self.width() * self.height() <= usize::MAX,
            r matches Some(tiles) ==> tiles@ == self.tiles_spec(),
    {
        if !self.is_valid() {
            return None;
        }
        let w: u64 = (self.max_x - self.min_x) as u64 + 1;
        let h: u64 = (self.max_y - self.min_y) as u64 + 1;
        proof {
            assert(w * h <= 0x1_0000_0000 * 0x1_0000_0000) by (nonlinear_arith)
                requires
                    0 < w <= 0x1_0000_0000,
                    0 < h <= 0x1_0000_0000,
            ;
        }
        let count: u128 = w as u128 * h as u128;
        if count > usize::MAX as u128 {
            return None;
        }
        Some(self.tiles())
    }

    /// Every tile of a valid rectangle stands in its enumeration exactly
    /// once, the enumeration holds nothing else, and all of it is inside the
    /// pyramid.
    pub proof fn lemma_tiles_cover(self)
        requires
            self.valid(),
        ensures
            forall|i: int|
                0 <= i < self.tiles_spec().len() ==> (#[trigger] self.tiles_spec()[i]).valid(),
            forall|t: Tile| self.contains(t) <==> self.tiles_spec().contains(t),
            self.tiles_spec().no_duplicates(),
    {
        let w = self.width();
        let h = self.height();
        let tiles = self.tiles_spec();
        assert(w * h >= 0) by (nonlinear_arith)
            requires
                w > 0,
                h > 0,
        ;
        assert forall|i: int| 0 <= i < tiles.len() implies (#[trigger] tiles[i]).valid()
            && self.contains(tiles[i]) by {
            lemma_cell_split(i, w, h);
        }
        assert forall|t: Tile| self.contains(t) implies tiles.contains(t) by {
            let col = t.x - self.min_x;
            let row = t.y - self.min_y;
            let i = row * w + col;
            lemma_fundamental_div_mod_converse(i, w, row, col);
            assert(0 <= i < w * h) by (nonlinear_arith)
                requires
                    i == row * w + col,
                    0 <= col < w,
                    0 <= row < h,
            ;
            assert(tiles[i] == t);
        }
        assert forall|t: Tile| tiles.contains(t) implies self.contains(t) by {
            let i = choose|i: int| 0 <= i < tiles.len() && tiles[i] == t;
            assert(self.contains(tiles[i]));
        }
        assert forall|i: int, j: int|
            0 <= i < tiles.len() && 0 <= j < tiles.len() && i != j implies tiles[i]
            != tiles[j] by {
            lemma_cell_split(i, w, h);
            lemma_cell_split(j, w, h);
            if tiles[i] == tiles[j] {
                assert(i % w == j % w);
                assert(i / w == j / w);
            }
        }
    }
}

/// A value below `m * n` divided by `n` is below `m`.
pub proof fn lemma_div_below(v: nat, m: nat, n: nat)
    requires
        n > 0,
        v < m * n,
    ensures
        v / n < m,
{
    lemma_fundamental_div_mod(v as int, n as int);
    lemma_mod_bound(v as int, n as int);
    assert(v / n < m) by (nonlinear_arith)
        requires
            n > 0,
            v < m * n,
            v == n * (v / n) + v % n,
            0 <= v % n,
    ;
}

/// Dividing by `2^i` and then by `2^j` is dividing by `2^(i + j)`.
pub proof fn lemma_div_pow2_twice(v: nat, i: nat, j: nat)
    ensures
        (v / pow2(i)) / pow2(j) == v / pow2(i + j),
{
    lemma_pow2_pos(i);
    lemma_pow2_pos(j);
    lemma_pow2_adds(i, j);
    lemma_div_denominator(v as int, pow2(i) as int, pow2(j) as int);
}

impl Tile {
    /// The ancestor of a tile of the pyramid is in the pyramid.
    pub proof fn lemma_ancestor_valid(self, levels: nat)
        requires
            self.valid(),
            levels <= self.zoom,
        ensures
            self.ancestor_spec(levels).valid(),
    {
        let up = (self.zoom - levels) as nat;
        lemma_pow2_adds(up, levels);
        lemma_pow2_pos(levels);
        let n = pow2(levels);
        let m = pow2(up);
        lemma_div_below(self.x as nat, m, n);
        lemma_div_below(self.y as nat, m, n);
        assert(self.x as nat / n < m);
        assert(self.y as nat / n < m);
        lemma2_to64();
        lemma2_to64_rest();
    }

    /// Going up `i` levels and then `j` more is going up `i + j`.
    pub proof fn lemma_ancestor_twice(self, i: nat, j: nat)
        requires
            self.valid(),
            i + j <= self.zoom,
        ensures
            self.ancestor_spec(i).ancestor_spec(j) == self.ancestor_spec(i + j),
    {
        self.lemma_ancestor_valid(i);
        lemma_pow2_pos(i);
        lemma_div_pow2_twice(self.x as nat, i, j);
        lemma_div_pow2_twice(self.y as nat, i, j);
        lemma_div_nonincreasing(self.x as int, pow2(i) as int);
        lemma_div_nonincreasing(self.y as int, pow2(i) as int);
        let a = self.ancestor_spec(i);
        assert(a.x == self.x as nat / pow2(i));
        assert(a.y == self.y as nat / pow2(i));
        assert(a.zoom == self.zoom - i);
        let b = a.ancestor_spec(j);
        let c = self.ancestor_spec(i + j);
        assert(b.zoom == c.zoom);
        assert(b.x == c.x);
        assert(b.y == c.y);
    }

    /// The parent is the ancestor one level up.
    pub proof fn lemma_parent_is_ancestor(self)
        requires
            self.zoom > 0,
        ensures
            self.parent_spec() == Some(self.ancestor_spec(1)),
    {
        lemma2_to64();
    }

    /// Going up no level gives the tile itself.
    pub proof fn lemma_ancestor_zero(self)
        ensures
            self.ancestor_spec(0) == self,
    {
        lemma2_to64();
    }

    /// Each descendant by sector is a tile of the pyramid whose ancestor
    /// `levels` up is this tile.
    pub proof fn lemma_descendant_within(self, levels: nat, s: int)
        requires
            self.valid(),
            self.zoom + levels <= MAX_ZOOM,
            0 <= s < pow2(2 * levels),
        ensures
            self.descendant_at(levels, s).valid(),
            self.descendant_at(levels, s).zoom == self.zoom + levels,
            self.descendant_at(levels, s).ancestor_spec(levels) == self,
    {
        let n = pow2(levels);
        let m = pow2(self.zoom as nat);
        lemma_pow2_adds(levels, levels);
        lemma_pow2_adds(self.zoom as nat, levels);
        lemma_pow2_pos(levels);
        lemma2_to64();
        lemma2_to64_rest();
        if self.zoom + levels < 30 {
            lemma_pow2_strictly_increases((self.zoom + levels) as nat, 30);
        }
        lemma_sector_split(s as nat, n);
        let col = (s % (n as int)) as nat;
        let row = (s / (n as int)) as nat;
        lemma_block_bound(self.x as nat, m, col, n);
        lemma_block_bound(self.y as nat, m, row, n);
        lemma_fundamental_div_mod_converse(
            (self.x * n + col) as int,
            n as int,
            self.x as int,
            col as int,
        );
        lemma_fundamental_div_mod_converse(
            (self.y * n + row) as int,
            n as int,
            self.y as int,
            row as int,
        );
    }

    /// A tile of the pyramid `levels` below this one whose ancestor `levels`
    /// up is this tile is one of the descendants, at the sector made of its
    /// row and column inside the block.
    pub proof fn lemma_within_is_descendant(self, levels: nat, d: Tile)
        requires
            self.valid(),
            d.valid(),
            d.zoom == self.zoom + levels,
            d.ancestor_spec(levels) == self,
        ensures
            self.descendants_spec(levels).contains(d),
    {
        let n = pow2(levels);
        lemma_pow2_adds(levels, levels);
        lemma_pow2_pos(levels);
        lemma_fundamental_div_mod(d.x as int, n as int);
        lemma_fundamental_div_mod(d.y as int, n as int);
        lemma_mod_bound(d.x as int, n as int);
        lemma_mod_bound(d.y as int, n as int);
        let col = d.x as int % (n as int);
        let row = d.y as int % (n as int);
        let s = row * n + col;
        lemma_fundamental_div_mod_converse(s, n as int, row, col);
        assert(0 <= s < n * n) by (nonlinear_arith)
            requires
                s == row * n + col,
                0 <= col < n,
                0 <= row < n,
        ;
        assert(self.x * n == n * (d.x as int / (n as int))) by (nonlinear_arith)
            requires
                self.x == d.x as int / (n as int),
        ;
        assert(self.y * n == n * (d.y as int / (n as int))) by (nonlinear_arith)
            requires
                self.y == d.y as int / (n as int),
        ;
        assert(self.descendant_at(levels, s) == d);
        assert(self.descendants_spec(levels)[s] == d);
    }
}

impl Tile {
    /// With one ring of neighbours the buffered children are sixteen, four
    /// in a row, and the ring fits at every zoom.
    pub proof fn lemma_children_buffered_one(self)
        ensures
            buffer_fits(self.zoom, 1),
            self.children_buffered_spec(1).len() == 16,
            forall|i: int|
                0 <= i < 16 ==> #[trigger] self.children_buffered_spec(1)[i]
                    == self.buffered_child(1, i % 4, i / 4),
    {
        lemma_pow2_pos(self.zoom as nat);
        assert(buffered_side(1) == 4);
        assert(buffered_side(1) * buffered_side(1) == 16) by (nonlinear_arith)
            requires
                buffered_side(1) == 4,
        ;
    }
}

/// Spreading a value that fits in `bits` bits over one bit more changes
/// nothing.
pub proof fn lemma_spread_bits_fits(v: nat, bits: nat)
    requires
        v < pow2(bits),
    ensures
        spread_bits(v, bits + 1) == spread_bits(v, bits),
    decreases bits,
{
    lemma2_to64();
    if bits == 0 {
        assert(v == 0);
        assert(spread_bits(0, 1) == 0 + 4 * spread_bits(0, 0));
    } else {
        lemma_pow2_unfold(bits);
        lemma_spread_bits_fits(v / 2, (bits - 1) as nat);
        assert(spread_bits(v, bits + 1) == v % 2 + 4 * spread_bits(v / 2, bits));
        assert(spread_bits(v, bits) == v % 2 + 4 * spread_bits(v / 2, (bits - 1) as nat));
    }
}

impl Tile {
    /// The Morton codes of the four children of a tile are four times the
    /// tile's code plus 0, 1, 2 and 3, in the order of `children`: in the
    /// order of Morton codes the children of one tile stand side by side,
    /// and so do the descendants of any tile.
    pub proof fn lemma_children_morton(self, k: int)
        requires
            self.valid(),
            self.zoom < MAX_ZOOM,
            0 <= k < 4,
        ensures
            self.children_spec()[k].morton_spec() == 4 * self.morton_spec() + k,
    {
        lemma2_to64();
        lemma2_to64_rest();
        if self.zoom < 30 {
            lemma_pow2_strictly_increases(self.zoom as nat, 30);
        }
        lemma_pow2_strictly_increases(30, 31);
        let x = self.x as nat;
        let y = self.y as nat;
        lemma_spread_bits_fits(x, 31);
        lemma_spread_bits_fits(y, 31);
        let c = self.children_spec()[k];
        let dx = k % 2;
        let dy = k / 2;
        assert(c.x == 2 * x + dx);
        assert(c.y == 2 * y + dy);
        assert(spread_bits(c.x as nat, 32) == (c.x as nat) % 2 + 4 * spread_bits(
            (c.x as nat) / 2,
            31,
        ));
        assert(spread_bits(c.y as nat, 32) == (c.y as nat) % 2 + 4 * spread_bits(
            (c.y as nat) / 2,
            31,
        ));
        assert((c.x as nat) / 2 == x && (c.x as nat) % 2 == dx);
        assert((c.y as nat) / 2 == y && (c.y as nat) % 2 == dy);
    }
}

impl Tile {
    /// The windows of a tile and of the tile after it in its row overlap by
    /// two columns: the first two columns of the second window are the last
    /// two of the first.
    pub proof fn lemma_windows_side_by_side(self, right: Tile, row: int, col: int)
        requires
            self.valid(),
            right.valid(),
            right.zoom == self.zoom,
            right.x == self.x + 1,
            right.y == self.y,
            0 <= row < 4,
            0 <= col < 2,
        ensures
            right.children_buffered_spec(1)[row * 4 + col] == self.children_buffered_spec(1)[row
                * 4 + col + 2],
    {
        self.lemma_children_buffered_one();
        right.lemma_children_buffered_one();
        lemma_pow2_pos((self.zoom + 1) as nat);
    }

    /// The windows of a tile and of the tile below it in its column overlap
    /// by two rows: the first two rows of the second window are the last two
    /// of the first.
    pub proof fn lemma_windows_one_above_the_other(self, lower: Tile, row: int, col: int)
        requires
            self.valid(),
            lower.valid(),
            lower.zoom == self.zoom,
            lower.x == self.x,
            lower.y == self.y + 1,
            0 <= row < 2,
            0 <= col < 4,
        ensures
            lower.children_buffered_spec(1)[row * 4 + col] == self.children_buffered_spec(1)[(row
                + 2) * 4 + col],
    {
        self.lemma_children_buffered_one();
        lower.lemma_children_buffered_one();
        lemma_pow2_pos((self.zoom + 1) as nat);
    }
}

impl Tile {
    /// One level down, the descendants by sector are the children.
    pub proof fn lemma_descendants_one_are_children(self)
        requires
            self.valid(),
            self.zoom < MAX_ZOOM,
        ensures
            self.descendants_spec(1) == self.children_spec(),
    {
        lemma2_to64();
        lemma_pow2_unfold((self.zoom + 1) as nat);
        lemma_u32_pow2_no_overflow((self.zoom + 1) as nat);
        assert(self.descendants_spec(1) =~= self.children_spec());
    }

    /// The descendants by sector stand row by row, and from left to right in
    /// each row: a later sector is in a lower row, or in the same row
    /// further right.
    pub proof fn lemma_descendants_row_by_row(self, levels: nat, s: int, t: int)
        requires
            self.valid(),
            self.zoom + levels <= MAX_ZOOM,
            0 <= s < t < pow2(2 * levels),
        ensures
            ({
                let a = self.descendants_spec(levels)[s];
                let b = self.descendants_spec(levels)[t];
                a.y < b.y || (a.y == b.y && a.x < b.x)
            }),
    {
        let n = pow2(levels);
        lemma_pow2_adds(levels, levels);
        lemma_pow2_pos(levels);
        self.lemma_descendant_within(levels, s);
        self.lemma_descendant_within(levels, t);
        lemma_sector_split(s as nat, n);
        lemma_sector_split(t as nat, n);
        let m = pow2(self.zoom as nat);
        lemma_pow2_adds(self.zoom as nat, levels);
        lemma2_to64();
        lemma2_to64_rest();
        if self.zoom + levels < 30 {
            lemma_pow2_strictly_increases((self.zoom + levels) as nat, 30);
        }
        lemma_block_bound(self.x as nat, m, (s % (n as int)) as nat, n);
        lemma_block_bound(self.x as nat, m, (t % (n as int)) as nat, n);
        lemma_block_bound(self.y as nat, m, (s / (n as int)) as nat, n);
        lemma_block_bound(self.y as nat, m, (t / (n as int)) as nat, n);
        let sr = s / (n as int);
        let tr = t / (n as int);
        if sr > tr {
            assert(sr * n >= (tr + 1) * n) by (nonlinear_arith)
                requires
                    sr >= tr + 1,
                    n >= 0,
            ;
            assert((tr + 1) * n == tr * n + n) by (nonlinear_arith);
        }
    }
}

} // verus!
