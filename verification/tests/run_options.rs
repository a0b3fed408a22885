use laz2dem::job::Source;
use laz2dem::options::{start_mode, ConfigError, ExistingFileAction, Format, Options, StartMode};
use laz2dem::shadings::ParseShadingError;
use std::path::PathBuf;

fn options() -> Options {
    Options {
        output: PathBuf::from("out.mbtiles"),
        laz_tile_db: None,
        laz_index_db: Some(PathBuf::from("index.sqlite")),
        bbox: tilemath::bbox::BBox::new(0.0, 0.0, 1000.0, 1000.0),
        source_projection: None,
        zoom_level: 20,
        unit_zoom_level: 16,
        tile_size: 256,
        buffer: 40,
        existing_file_action: None,
        lru_size: 4096,
    }
}

#[test]
fn start_mode_by_file_and_action() {
    assert_eq!(start_mode(false, None), Ok(StartMode::Create));
    assert_eq!(start_mode(false, Some(ExistingFileAction::Continue)), Ok(StartMode::Create));
    assert_eq!(start_mode(false, Some(ExistingFileAction::Overwrite)), Ok(StartMode::Create));
    assert_eq!(start_mode(true, Some(ExistingFileAction::Overwrite)), Ok(StartMode::Replace));
    assert_eq!(start_mode(true, Some(ExistingFileAction::Continue)), Ok(StartMode::Resume));
    assert_eq!(start_mode(true, None), Err(ConfigError::OutputExists));
}

#[test]
fn existing_file_actions_are_ordered() {
    assert!(ExistingFileAction::Overwrite < ExistingFileAction::Continue);
}

#[test]
fn format_names() {
    assert_eq!(Format::Jpeg.name(), "jpeg");
    assert_eq!(Format::Png.name(), "png");
}

#[test]
fn shading_error_message() {
    assert_eq!(ParseShadingError().message(), "Error parsing shading");
}

#[test]
fn source_prefers_the_index() {
    let o = options();
    assert!(matches!(o.source(), Source::LazIndexDb(p) if p == PathBuf::from("index.sqlite")));
    let mut o = options();
    o.laz_index_db = None;
    o.laz_tile_db = Some(PathBuf::from("tiles.sqlite"));
    assert!(matches!(o.source(), Source::LazTileDb(p) if p == PathBuf::from("tiles.sqlite")));
}

#[test]
fn check_accepts_the_defaults() {
    assert_eq!(options().check(), Ok(()));
}

#[test]
fn check_names_what_is_wrong() {
    let mut o = options();
    o.laz_index_db = None;
    assert_eq!(o.check(), Err(ConfigError::NoSource));
    let mut o = options();
    o.laz_tile_db = Some(PathBuf::from("tiles.sqlite"));
    assert_eq!(o.check(), Err(ConfigError::TwoSources));
    let mut o = options();
    o.unit_zoom_level = 21;
    assert_eq!(o.check(), Err(ConfigError::UnitZoomTooFine));
    let mut o = options();
    o.zoom_level = 31;
    assert_eq!(o.check(), Err(ConfigError::ZoomTooFine));
    let mut o = options();
    o.tile_size = 0;
    assert_eq!(o.check(), Err(ConfigError::TileSize));
    let mut o = options();
    o.unit_zoom_level = 13;
    assert_eq!(o.check(), Ok(()));
    o.unit_zoom_level = 12;
    assert_eq!(o.check(), Err(ConfigError::TileSize));
}

#[test]
fn zoom_offset_and_pixels() {
    let o = options();
    assert_eq!(o.supertile_zoom_offset(), Some(4));
    assert_eq!(o.unit_tile_pixels(), 4096);
    assert_eq!(o.world_pixels(), 256u64 << 20);
    let mut o = options();
    o.unit_zoom_level = 21;
    assert_eq!(o.supertile_zoom_offset(), None);
}
