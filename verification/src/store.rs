//! What the pipeline decides about the tile container without touching it:
//! under which key a tile is stored, what the outcome of an insert means,
//! and which points are taken in.

use vstd::prelude::*;
use crate::tile::{axis_len, pow2_u32, Tile, MAX_ZOOM};

verus! {

/// Point class of water in point files.
pub const CLASS_WATER: u8 = 9;

/// Point class of low vegetation in point files.
pub const CLASS_LOW_VEGETATION: u8 = 3;

/// Whether a point of the given class is taken in: water never is, low
/// vegetation only if it is not dropped.
pub fn keeps_class(class: u8, drop_low_vegetation: bool) -> (r: bool)
    ensures
        r == (class != CLASS_WATER && !(drop_low_vegetation && class == CLASS_LOW_VEGETATION)),
{
    class != CLASS_WATER && !(drop_low_vegetation && class == CLASS_LOW_VEGETATION)
}

/// The key of a tile in the container: zoom level, column, and the row
/// counted from the bottom.
#[derive(Clone, Copy, Debug, PartialEq, Eq, Structural)]
pub struct TileRow {
    pub zoom_level: u8,
    pub tile_column: u32,
    pub tile_row: u32,
}

/// The key under which a tile is stored.
pub fn tile_row(tile: Tile) -> (r: TileRow)
    requires
        tile.valid(),
    ensures
        r == row_spec(tile),
        r.tile_row == axis_len(tile.zoom as nat) - 1 - tile.y,
{
    TileRow { zoom_level: tile.zoom, tile_column: tile.x, tile_row: tile.reversed_y() }
}

/// The tile that is stored under a key; `None` where the key is of no tile
/// of the pyramid.
pub fn row_tile(row: TileRow) -> (r: Option<Tile>)
    ensures
        r matches Some(tile) ==> tile.valid() && tile.zoom == row.zoom_level && tile.x
            == row.tile_column && row.tile_row == axis_len(tile.zoom as nat) - 1 - tile.y,
        r is None <==> !(Tile { zoom: row.zoom_level, x: row.tile_column, y: 0 }.valid()
            && row.tile_row < axis_len(row.zoom_level as nat)),
{
    if row.zoom_level > MAX_ZOOM {
        return None;
    }
    let n = pow2_u32(row.zoom_level);
    if row.tile_column < n && row.tile_row < n {
        Some(Tile { zoom: row.zoom_level, x: row.tile_column, y: n - 1 - row.tile_row })
    } else {
        None
    }
}

/// The key of a tile in the container.
pub open spec fn row_spec(tile: Tile) -> TileRow {
    TileRow {
        zoom_level: tile.zoom,
        tile_column: tile.x,
        tile_row: (axis_len(tile.zoom as nat) - 1 - tile.y) as u32,
    }
}

/// Two tiles of the pyramid with the same key are the same tile: a
/// container that holds one row for each key holds one row for each tile.
pub proof fn lemma_one_key_one_tile(a: Tile, b: Tile)
    requires
        a.valid(),
        b.valid(),
        row_spec(a) == row_spec(b),
    ensures
        a == b,
{
    vstd::arithmetic::power2::lemma2_to64();
    vstd::arithmetic::power2::lemma2_to64_rest();
    if a.zoom < 30 {
        vstd::arithmetic::power2::lemma_pow2_strictly_increases(a.zoom as nat, 30);
    }
}

/// What became of an insert.
#[derive(Clone, Copy, Debug, PartialEq, Eq, Structural)]
pub enum InsertOutcome {
    /// The tile is in the container now.
    Stored,
    /// The container held a tile under this key already and kept it.
    Duplicate,
    /// The container could not store the tile.
    Failed,
}

/// What the writer does after an insert.
#[derive(Clone, Copy, Debug, PartialEq, Eq, Structural)]
pub enum WriterStep {
    /// Go on with the next tile.
    Proceed,
    /// Note the duplicate and go on with the next tile.
    NoteDuplicate,
    /// Stop: the container is unusable.
    Abort,
}

/// What an insert came to, given whether it succeeded and, if not, whether
/// the container refused it for the key being taken.
pub fn insert_outcome(succeeded: bool, key_taken: bool) -> (r: InsertOutcome)
    ensures
        r == (if succeeded {
            InsertOutcome::Stored
        } else if key_taken {
            InsertOutcome::Duplicate
        } else {
            InsertOutcome::Failed
        }),
{
    if succeeded {
        InsertOutcome::Stored
    } else if key_taken {
        InsertOutcome::Duplicate
    } else {
        InsertOutcome::Failed
    }
}

/// What the writer does after an insert: a duplicate is harmless, any other
/// failure ends the run.
pub fn writer_step(outcome: InsertOutcome) -> (r: WriterStep)
    ensures
        r == (match outcome {
            InsertOutcome::Stored => WriterStep::Proceed,
            InsertOutcome::Duplicate => WriterStep::NoteDuplicate,
            InsertOutcome::Failed => WriterStep::Abort,
        }),
{
    match outcome {
        InsertOutcome::Stored => WriterStep::Proceed,
        InsertOutcome::Duplicate => WriterStep::NoteDuplicate,
        InsertOutcome::Failed => WriterStep::Abort,
    }
}

/// The character of a decimal digit.
pub open spec fn digit_char(d: nat) -> char {
    if d == 0 {
        '0'
    } else if d == 1 {
        '1'
    } else if d == 2 {
        '2'
    } else if d == 3 {
        '3'
    } else if d == 4 {
        '4'
    } else if d == 5 {
        '5'
    } else if d == 6 {
        '6'
    } else if d == 7 {
        '7'
    } else if d == 8 {
        '8'
    } else {
        '9'
    }
}

/// A number in decimal digits, without zeros before it.
pub open spec fn decimal(n: nat) -> Seq<char>
    decreases n,
{
    if n < 10 {
        seq![digit_char(n)]
    } else {
        decimal(n / 10).push(digit_char(n % 10))
    }
}

/// `u8::to_string`: the number in decimal digits, without zeros before it.
#[verifier::external_body]
fn decimal_of(n: u8) -> (r: String)
    ensures
        r@ == decimal(n as nat),
{
    n.to_string()
}

/// One row of the container's metadata as text.
pub open spec fn row_view(row: (String, String)) -> (Seq<char>, Seq<char>) {
    (row.0@, row.1@)
}

/// The rows of the container's metadata: the name of the tile set, the
/// coarsest and the finest zoom level, the format of the payloads and,
/// where they are known, the bounds in degrees.
pub open spec fn metadata_spec(
    name: Seq<char>,
    format: Seq<char>,
    max_zoom: nat,
    bounds: Option<Seq<char>>,
) -> Seq<(Seq<char>, Seq<char>)> {
    let rows = seq![
        ("name"@, name),
        ("minzoom"@, "0"@),
        ("maxzoom"@, decimal(max_zoom)),
        ("format"@, format),
    ];
    match bounds {
        Some(b) => rows.push(("bounds"@, b)),
        None => rows,
    }
}

/// The rows that a new container's metadata starts with. The pyramid always
/// goes up to zoom 0.
pub fn metadata_rows(name: &str, format: &str, max_zoom: u8, bounds: Option<&str>) -> (r: Vec<
    (String, String),
>)
    ensures
        r@.len() == metadata_spec(
            name@,
            format@,
            max_zoom as nat,
            match bounds {
                Some(b) => Some(b@),
                None => None,
            },
        ).len(),
        forall|i: int|
            0 <= i < r@.len() ==> row_view(#[trigger] r@[i]) == metadata_spec(
                name@,
                format@,
                max_zoom as nat,
                match bounds {
                    Some(b) => Some(b@),
                    None => None,
                },
            )[i],
{
    let mut rows: Vec<(String, String)> = Vec::new();
    rows.push(("name".to_owned(), name.to_owned()));
    rows.push(("minzoom".to_owned(), "0".to_owned()));
    rows.push(("maxzoom".to_owned(), decimal_of(max_zoom)));
    rows.push(("format".to_owned(), format.to_owned()));
    match bounds {
        Some(b) => {
            rows.push(("bounds".to_owned(), b.to_owned()));
        },
        None => {},
    }
    rows
}

} // verus!
