//! What a run is configured with, and what follows from it before any work
//! starts.

use vstd::prelude::*;
use vstd::arithmetic::power2::{lemma2_to64, lemma2_to64_rest, lemma_pow2_strictly_increases, pow2};
use vstd::bits::{lemma_u64_shl_is_mul, lemma_u64_pow2_no_overflow};
use crate::job::Source;
use crate::text::{hex_value, is_hex_u32, parse_hex, unsigned_body};
use crate::tile::MAX_ZOOM;

verus! {

/// What to do with an output file that is already there.
#[derive(Clone, Copy, Debug, PartialEq, Eq, PartialOrd, Ord, Structural)]
pub enum ExistingFileAction {
    /// Delete it and start over.
    Overwrite,
    /// Keep its tiles and produce the missing ones.
    Continue,
}

/// Image format of shaded tiles.
#[derive(Clone, Copy, Debug, PartialEq, Eq, Structural)]
pub enum Format {
    Jpeg,
    Png,
}

impl Format {
    /// The format's name as the container's metadata records it.
    pub fn name(&self) -> (r: &'static str)
        ensures
            r@ == (match self {
                Format::Jpeg => "jpeg"@,
                Format::Png => "png"@,
            }),
    {
        match self {
            Format::Jpeg => "jpeg",
            Format::Png => "png",
        }
    }
}

/// How a run starts, given the output file.
#[derive(Clone, Copy, Debug, PartialEq, Eq, Structural)]
pub enum StartMode {
    /// There is no output file: create it.
    Create,
    /// Delete the output file, then create it.
    Replace,
    /// Keep the output file and skip what it already holds.
    Resume,
}

/// Why a configuration cannot be run.
#[derive(Clone, Copy, Debug, PartialEq, Eq, Structural)]
pub enum ConfigError {
    /// The output file exists and no action was given for that case.
    OutputExists,
    /// Neither a tile container nor an index of point files was given.
    NoSource,
    /// Both a tile container and an index of point files were given.
    TwoSources,
    /// The unit zoom level is finer than the output zoom level.
    UnitZoomTooFine,
    /// The output zoom level is finer than the finest supported.
    ZoomTooFine,
    /// The tile size is zero, or a unit tile's raster would be wider than
    /// 65535 pixels.
    TileSize,
}

/// How to start, given whether the output file exists and what was asked for
/// that case. An existing file without such an answer is an error.
pub fn start_mode(output_exists: bool, action: Option<ExistingFileAction>) -> (r: Result<
    StartMode,
    ConfigError,
>)
    ensures
        r == (if !output_exists {
            Ok::<StartMode, ConfigError>(StartMode::Create)
        } else {
            match action {
                Some(ExistingFileAction::Overwrite) => Ok(StartMode::Replace),
                Some(ExistingFileAction::Continue) => Ok(StartMode::Resume),
                None => Err(ConfigError::OutputExists),
            }
        }),
{
    if !output_exists {
        return Ok(StartMode::Create);
    }
    match action {
        Some(ExistingFileAction::Overwrite) => Ok(StartMode::Replace),
        Some(ExistingFileAction::Continue) => Ok(StartMode::Resume),
        None => Err(ConfigError::OutputExists),
    }
}

/// The settings of a run.
pub struct Options {
    /// Output container.
    pub output: std::path::PathBuf,
    /// Source as a container of point chunks by unit tile.
    pub laz_tile_db: Option<std::path::PathBuf>,
    /// Source as an index of point files.
    pub laz_index_db: Option<std::path::PathBuf>,
    /// Web-Mercator bounding box to render.
    pub bbox: tilemath::bbox::BBox,
    /// Projection of the points in point files; Web-Mercator if none.
    pub source_projection: Option<String>,
    /// Finest zoom level of the tiles to produce.
    pub zoom_level: u8,
    /// Zoom level of the unit tiles.
    pub unit_zoom_level: u8,
    /// Pixels along one side of an output tile.
    pub tile_size: u16,
    /// Pixels around a unit tile that are interpolated and then cut off.
    pub buffer: u32,
    /// What to do with an output file that is already there.
    pub existing_file_action: Option<ExistingFileAction>,
    /// Capacity of the cache of grids.
    pub lru_size: usize,
}

impl Options {
    /// Zoom levels between a unit tile and the output tiles.
    pub open spec fn offset_spec(&self) -> int {
        self.zoom_level - self.unit_zoom_level
    }

    /// The configuration can be run.
    pub open spec fn check_spec(&self) -> Result<(), ConfigError> {
        if self.laz_tile_db is None && self.laz_index_db is None {
            Err(ConfigError::NoSource)
        } else if self.laz_tile_db is Some && self.laz_index_db is Some {
            Err(ConfigError::TwoSources)
        } else if self.unit_zoom_level > self.zoom_level {
            Err(ConfigError::UnitZoomTooFine)
        } else if self.zoom_level > MAX_ZOOM {
            Err(ConfigError::ZoomTooFine)
        } else if self.tile_size == 0 || self.tile_size * pow2(self.offset_spec() as nat)
            > u16::MAX {
            Err(ConfigError::TileSize)
        } else {
            Ok(())
        }
    }

    /// Checks that the configuration can be run; the first thing that is
    /// wrong is the error.
    pub fn check(&self) -> (r: Result<(), ConfigError>)
        ensures
            r == self.check_spec(),
    {
        if self.laz_tile_db.is_none() && self.laz_index_db.is_none() {
            return Err(ConfigError::NoSource);
        }
        if self.laz_tile_db.is_some() && self.laz_index_db.is_some() {
            return Err(ConfigError::TwoSources);
        }
        if self.unit_zoom_level > self.zoom_level {
            return Err(ConfigError::UnitZoomTooFine);
        }
        if self.zoom_level > MAX_ZOOM {
            return Err(ConfigError::ZoomTooFine);
        }
        let offset = self.zoom_level - self.unit_zoom_level;
        proof {
            lemma2_to64();
            lemma2_to64_rest();
            lemma_u64_pow2_no_overflow(offset as nat);
            if offset < 30 {
                lemma_pow2_strictly_increases(offset as nat, 30);
            }
            assert(self.tile_size * pow2(offset as nat) <= 0xffff * 0x4000_0000) by (nonlinear_arith)
                requires
                    self.tile_size <= 0xffff,
                    pow2(offset as nat) <= 0x4000_0000,
            ;
            lemma_u64_shl_is_mul(self.tile_size as u64, offset as u64);
        }
        let pixels: u64 = (self.tile_size as u64) << (offset as u64);
        if self.tile_size == 0 || pixels > 0xffff {
            return Err(ConfigError::TileSize);
        }
        Ok(())
    }

    /// Zoom levels between a unit tile and the output tiles it is cut into.
    pub fn supertile_zoom_offset(&self) -> (r: Option<u8>)
        ensures
            r == (if self.unit_zoom_level <= self.zoom_level {
                Some((self.zoom_level - self.unit_zoom_level) as u8)
            } else {
                None
            }),
    {
        if self.unit_zoom_level <= self.zoom_level {
            Some(self.zoom_level - self.unit_zoom_level)
        } else {
            None
        }
    }

    /// Pixels along one side of the whole map at the output zoom level:
    /// the tile size times `2^zoom_level`. The pixels in a metre are this
    /// over the circumference of the Web-Mercator square.
    pub fn world_pixels(&self) -> (r: u64)
        requires
            self.zoom_level <= MAX_ZOOM,
        ensures
            r == self.tile_size * pow2(self.zoom_level as nat),
    {
        proof {
            lemma2_to64();
            lemma2_to64_rest();
            if self.zoom_level < 30 {
                lemma_pow2_strictly_increases(self.zoom_level as nat, 30);
            }
            assert(self.tile_size * pow2(self.zoom_level as nat) <= 0xffff * 0x4000_0000)
                by (nonlinear_arith)
                requires
                    self.tile_size <= 0xffff,
                    pow2(self.zoom_level as nat) <= 0x4000_0000,
            ;
            lemma_u64_shl_is_mul(self.tile_size as u64, self.zoom_level as u64);
        }
        (self.tile_size as u64) << (self.zoom_level as u64)
    }

    /// Pixels along one side of a unit tile's raster without its buffer.
    pub fn unit_tile_pixels(&self) -> (r: u16)
        requires
            self.check_spec() is Ok,
        ensures
            r == self.tile_size * pow2(self.offset_spec() as nat),
    {
        let offset = self.zoom_level - self.unit_zoom_level;
        proof {
            lemma_u64_pow2_no_overflow(offset as nat);
            lemma_u64_shl_is_mul(self.tile_size as u64, offset as u64);
        }
        let pixels: u64 = (self.tile_size as u64) << (offset as u64);
        pixels as u16
    }

    /// Where the points come from: the index of point files if one was
    /// given, else the container of point chunks.
    pub fn source(&self) -> (r: Source)
        requires
            self.laz_index_db is Some || self.laz_tile_db is Some,
        ensures
            r == (match self.laz_index_db {
                Some(path) => Source::LazIndexDb(path),
                None => Source::LazTileDb(self.laz_tile_db->0),
            }),
    {
        match &self.laz_index_db {
            Some(path) => Source::LazIndexDb(path.clone()),
            None => {
                let path = self.laz_tile_db.as_ref().unwrap();
                Source::LazTileDb(path.clone())
            },
        }
    }
}

/// A colour by its red, green and blue parts.
#[derive(Clone, Copy, Debug, PartialEq, Eq, Structural)]
pub struct Rgb {
    pub r: u8,
    pub g: u8,
    pub b: u8,
}

impl Rgb {
    /// The colour whose parts are the three low bytes of `value`, red the
    /// highest of them.
    pub open spec fn of_value(value: nat) -> Rgb {
        Rgb {
            r: (value / 65536 % 256) as u8,
            g: (value / 256 % 256) as u8,
            b: (value % 256) as u8,
        }
    }

    /// Reads a colour written as a hexadecimal number such as `ff8000`. What
    /// the number has above its three low bytes is left out.
    pub fn from_str(string: &str) -> (r: Result<Rgb, std::num::ParseIntError>)
        ensures
            r is Ok <==> is_hex_u32(string@),
            r matches Ok(color) ==> color == Rgb::of_value(hex_value(unsigned_body(string@))),
    {
        match parse_hex(string) {
            Ok(value) => Ok(
                Rgb {
                    r: (value / 65536 % 256) as u8,
                    g: (value / 256 % 256) as u8,
                    b: (value % 256) as u8,
                },
            ),
            Err(e) => Err(e),
        }
    }
}

} // verus!
