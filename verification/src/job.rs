//! Units of work: a unit tile with its points to rasterize, or a tile to
//! build as an overview of finer tiles.

use vstd::prelude::*;
use crate::tile::{Tile, MAX_ZOOM};

verus! {

/// Bounding box in Web-Mercator metres; carried through, never read here.
#[verifier::external_type_specification]
#[verifier::external_body]
pub struct ExBBox(tilemath::bbox::BBox);

/// Path of a file; carried through, never read here.
#[verifier::external_type_specification]
#[verifier::external_body]
pub struct ExPathBuf(std::path::PathBuf);

/// `PathBuf::clone` gives a path equal to the one it was called on.
pub assume_specification[ <std::path::PathBuf as Clone>::clone ](
    path: &std::path::PathBuf,
) -> (copy: std::path::PathBuf)
    ensures
        copy == *path,
;

/// Descriptor of one unit job: the unit tile, its bounds extended by the
/// ingestion buffer, and the bucket its points are gathered in.
pub struct TileMeta<B> {
    pub tile: Tile,
    pub bbox: tilemath::bbox::BBox,
    pub points: B,
}

/// A unit of work for a worker.
pub enum Job<B> {
    /// Rasterize a unit tile from its points and cut it into output tiles.
    Rasterize(TileMeta<B>),
    /// Build a tile from the sixteen tiles of the next zoom around it.
    Overview(Tile),
}

/// Where the points come from.
#[derive(Clone)]
pub enum Source {
    /// A container of pre-cut point chunks, one or more for each unit tile.
    LazTileDb(std::path::PathBuf),
    /// A spatial index of point files.
    LazIndexDb(std::path::PathBuf),
}

impl<B> Job<B> {
    /// The tile the job is named after: the unit tile, or the overview tile.
    pub open spec fn tile_spec(&self) -> Tile {
        match self {
            Job::Rasterize(meta) => meta.tile,
            Job::Overview(tile) => *tile,
        }
    }

    /// `t` is one of the tiles the job produces when unit tiles are cut
    /// `levels` zoom levels down.
    pub open spec fn covers(&self, levels: nat, t: Tile) -> bool {
        match self {
            Job::Rasterize(meta) => {
                &&& t.valid()
                &&& t.zoom == meta.tile.zoom + levels
                &&& t.ancestor_spec(levels) == meta.tile
            },
            Job::Overview(tile) => t == *tile,
        }
    }

    /// The tiles the job produces, in the order it produces them.
    pub open spec fn covered_spec(&self, levels: nat) -> Seq<Tile> {
        match self {
            Job::Rasterize(meta) => meta.tile.descendants_spec(levels),
            Job::Overview(tile) => seq![*tile],
        }
    }

    /// The tile the job is named after.
    pub fn tile(&self) -> (r: Tile)
        ensures
            r == self.tile_spec(),
    {
        match self {
            Job::Rasterize(meta) => meta.tile,
            Job::Overview(tile) => *tile,
        }
    }

    /// The tiles the job produces: for a rasterize job the descendants of the
    /// unit tile `levels` zoom levels down, by sector; for an overview job the
    /// tile itself.
    pub fn covered_tiles(&self, levels: u8) -> (r: Vec<Tile>)
        requires
            self.tile_spec().valid(),
            self is Rasterize ==> self.tile_spec().zoom + levels <= MAX_ZOOM,
        ensures
            r@ == self.covered_spec(levels as nat),
            forall|t: Tile| r@.contains(t) <==> self.covers(levels as nat, t),
    {
        proof {
            self.lemma_covered(levels as nat);
        }
        match self {
            Job::Rasterize(meta) => meta.tile.descendants(levels),
            Job::Overview(tile) => {
                let mut v = Vec::new();
                v.push(*tile);
                assert(v@ =~= seq![*tile]);
                v
            },
        }
    }

    /// The tiles a job covers are those it lists.
    pub proof fn lemma_covered(&self, levels: nat)
        requires
            self.tile_spec().valid(),
            self is Rasterize ==> self.tile_spec().zoom + levels <= MAX_ZOOM,
        ensures
            forall|t: Tile| self.covered_spec(levels).contains(t) <==> self.covers(levels, t),
    {
        let tiles = self.covered_spec(levels);
        match self {
            Job::Rasterize(meta) => {
                assert forall|t: Tile| tiles.contains(t) implies self.covers(levels, t) by {
                    let s = choose|s: int| 0 <= s < tiles.len() && tiles[s] == t;
                    meta.tile.lemma_descendant_within(levels, s);
                }
                assert forall|t: Tile| self.covers(levels, t) implies tiles.contains(t) by {
                    meta.tile.lemma_within_is_descendant(levels, t);
                }
            },
            Job::Overview(tile) => {
                assert(tiles[0] == *tile);
            },
        }
    }
}

} // verus!
