use laz2dem::cache::TileCache;
use laz2dem::grid::{assemble_overview, slice_supertile, AssembleError, Grid};
use laz2dem::job::{Job, TileMeta};
use laz2dem::payload::{decode_payload, encode_payload};
use laz2dem::progress::{Progress, ProgressState};
use laz2dem::store::{insert_outcome, tile_row, writer_step, InsertOutcome, TileRow, WriterStep};
use laz2dem::tile::{Tile, TileRange};
use spade::Triangulation;
use std::collections::HashMap;

const TILE_SIZE: u16 = 8;
const HALO: u16 = 2;
const BUFFER: u32 = 3;

struct Height {
    position: spade::Point2<f64>,
    height: f64,
}

impl spade::HasPosition for Height {
    type Scalar = f64;

    fn position(&self) -> spade::Point2<f64> {
        self.position
    }
}

/// A container that keeps the first payload under each key, as a table with
/// a unique index does.
#[derive(Default)]
struct Container {
    rows: HashMap<(u8, u32, u32), Vec<u8>>,
    stored: usize,
    duplicates: usize,
}

impl Container {
    fn key(row: TileRow) -> (u8, u32, u32) {
        (row.zoom_level, row.tile_column, row.tile_row)
    }

    fn insert(&mut self, tile: Tile, data: Vec<u8>) {
        let key = Self::key(tile_row(tile));
        let taken = self.rows.contains_key(&key);
        match writer_step(insert_outcome(!taken, taken)) {
            WriterStep::Proceed => {
                self.rows.insert(key, data);
                self.stored += 1;
            }
            WriterStep::NoteDuplicate => self.duplicates += 1,
            WriterStep::Abort => panic!("container failed"),
        }
    }

    fn has(&self, tile: Tile) -> bool {
        self.rows.contains_key(&Self::key(tile_row(tile)))
    }

    fn get(&self, tile: Tile) -> Option<Grid<f64>> {
        let data = self.rows.get(&Self::key(tile_row(tile)))?;
        let words = decode_payload(data).unwrap();
        let cells = words.as_cells().iter().map(|w| f64::from(f32::from_bits(*w))).collect();
        Grid::from_cells(words.cols(), words.rows(), cells)
    }
}

fn payload(grid: &Grid<f64>) -> Vec<u8> {
    let words = grid.as_cells().iter().map(|v| (*v as f32).to_bits()).collect();
    encode_payload(&Grid::from_cells(grid.cols(), grid.rows(), words).unwrap(), 3).unwrap()
}

/// Halves a grid by the mean of each two by two cells; a mean with a NaN in
/// it is NaN.
fn halve(grid: &Grid<f64>) -> Grid<f64> {
    let side = grid.cols() / 2;
    let mut cells = Vec::new();
    for row in 0..side {
        for col in 0..side {
            let mut sum = 0.0;
            for (dr, dc) in [(0, 0), (0, 1), (1, 0), (1, 1)] {
                sum += grid.get(2 * row + dr, 2 * col + dc).unwrap();
            }
            cells.push(sum / 4.0);
        }
    }
    Grid::from_cells(side, side, cells).unwrap()
}

struct Run {
    progress: Progress<Vec<f64>>,
    cache: TileCache<Grid<f64>>,
    container: Container,
    resume: bool,
    offset: u8,
    rasterized: usize,
    overviews: usize,
    skipped: usize,
}

impl Run {
    fn new(units: &[(Tile, Vec<f64>)], offset: u8, resume: bool, container: Container) -> Run {
        let jobs = units
            .iter()
            .map(|(tile, points)| {
                Job::Rasterize(TileMeta {
                    tile: *tile,
                    bbox: tilemath::bbox::BBox::new(0.0, 0.0, 1.0, 1.0),
                    points: points.clone(),
                })
            })
            .collect();
        Run {
            progress: Progress::new(jobs, offset),
            cache: TileCache::new(16),
            container,
            resume,
            offset,
            rasterized: 0,
            overviews: 0,
            skipped: 0,
        }
    }

    fn save(&mut self, tile: Tile, grid: Grid<f64>) {
        self.container.insert(tile, payload(&grid));
        self.cache.put(tile, grid);
        self.progress.done(tile);
    }

    /// Takes and works on one job; `false` when none is left.
    fn step(&mut self) -> bool {
        let Some(job) = self.progress.next() else {
            return false;
        };
        let covered = job.covered_tiles(self.offset);
        if self.resume {
            let found: Vec<bool> = covered.iter().map(|t| self.container.has(*t)).collect();
            if self.progress.resume_skip(&covered, &found) {
                self.skipped += 1;
                return true;
            }
        }
        match job {
            Job::Rasterize(meta) => {
                if self.progress.skip_empty(&covered, meta.points.len()) {
                    return true;
                }
                self.rasterized += 1;
                // The raster of a unit tile holds the height of its first
                // point everywhere.
                let side = (usize::from(TILE_SIZE) << self.offset) + 2 * BUFFER as usize;
                let raster = Grid::filled(side, side, meta.points[0]).unwrap();
                let slices =
                    slice_supertile(&raster, self.offset, TILE_SIZE, BUFFER, HALO).unwrap();
                for (tile, slice) in covered.into_iter().zip(slices) {
                    self.save(tile, slice);
                }
            }
            Job::Overview(tile) => {
                let mut children = Vec::new();
                for child in tile.children_buffered(1) {
                    let state = self.progress.state(child);
                    assert!(state.is_none() || state == Some(ProgressState::Finished));
                    let grid = match self.cache.get(child) {
                        Some(grid) => Some(grid.clone()),
                        None if child.is_valid() => self.container.get(child),
                        None => None,
                    };
                    children.push(grid);
                }
                match assemble_overview(&children, TILE_SIZE, HALO, f64::NAN) {
                    Ok(assembled) => {
                        self.overviews += 1;
                        self.save(tile, halve(&assembled));
                    }
                    Err(AssembleError::MissingInterior) => self.progress.done(tile),
                    Err(e) => panic!("{e:?}"),
                }
            }
        }
        true
    }

    fn finish(&mut self) {
        while self.step() {}
    }
}

fn units_of(range: TileRange, height: f64) -> Vec<(Tile, Vec<f64>)> {
    range.tiles().into_iter().map(|t| (t, vec![height])).collect()
}

#[test]
fn overview_invariance() {
    // A parent at zoom 10 over four children that hold 42 everywhere, and
    // the ring around them too.
    let parent = Tile { zoom: 10, x: 500, y: 300 };
    let side = usize::from(TILE_SIZE + 2 * HALO);
    let children: Vec<Option<Grid<f64>>> =
        parent.children_buffered(1).iter().map(|_| Grid::filled(side, side, 42.0)).collect();
    let assembled = assemble_overview(&children, TILE_SIZE, HALO, f64::NAN).unwrap();
    let grid = halve(&assembled);
    assert_eq!(grid.cols(), side);
    assert_eq!(grid.rows(), side);
    assert!(grid.as_cells().iter().all(|v| *v == 42.0));
}

#[test]
fn a_run_stores_every_tile_once() {
    let range = TileRange { zoom: 3, min_x: 0, max_x: 7, min_y: 0, max_y: 7 };
    let mut run = Run::new(&units_of(range, 42.0), 1, false, Container::default());
    run.finish();
    // 64 unit tiles cut into four each, and all of zoom 3, 2, 1 and 0.
    assert_eq!(run.container.stored, 256 + 64 + 16 + 4 + 1);
    assert_eq!(run.container.duplicates, 0);
    assert_eq!(run.rasterized, 64);
    assert_eq!(run.overviews, 64 + 16 + 4 + 1);
    let root = run.container.get(Tile { zoom: 0, x: 0, y: 0 }).unwrap();
    assert_eq!(root.cols(), usize::from(TILE_SIZE + 2 * HALO));
    // Inside the map the root holds the height; its halo lies outside the
    // map and holds nothing.
    for row in 0..root.rows() {
        for col in 0..root.cols() {
            let v = root.get(row, col).unwrap();
            let inside = (2..10).contains(&row) && (2..10).contains(&col);
            assert_eq!(v == 42.0, inside);
            assert_eq!(v.is_nan(), !inside);
        }
    }
}

#[test]
fn neighbouring_tiles_agree_on_their_halos_after_a_run() {
    let range = TileRange { zoom: 5, min_x: 8, max_x: 8, min_y: 9, max_y: 9 };
    let mut run = Run::new(&units_of(range, 7.5), 2, false, Container::default());
    run.finish();
    let left = run.container.get(Tile { zoom: 7, x: 33, y: 37 }).unwrap();
    let right = run.container.get(Tile { zoom: 7, x: 34, y: 37 }).unwrap();
    let below = run.container.get(Tile { zoom: 7, x: 33, y: 38 }).unwrap();
    let t = usize::from(TILE_SIZE);
    for row in 0..left.rows() {
        for col in 0..2 * usize::from(HALO) {
            assert_eq!(left.get(row, col + t), right.get(row, col));
            assert_eq!(left.get(col + t, row), below.get(col, row));
        }
    }
}

#[test]
fn resume_adds_what_is_missing() {
    let range = TileRange { zoom: 4, min_x: 4, max_x: 7, min_y: 8, max_y: 11 };
    let units = units_of(range, 3.0);

    let mut whole = Run::new(&units, 1, false, Container::default());
    whole.finish();
    let total = whole.container.stored;
    assert_eq!(whole.container.duplicates, 0);

    // Stop a run after some jobs, then go on with what it stored.
    let mut first = Run::new(&units, 1, false, Container::default());
    for _ in 0..7 {
        assert!(first.step());
    }
    let before = first.container.stored;
    assert!(0 < before && before < total);
    let mut container = first.container;
    container.stored = 0;

    let mut second = Run::new(&units, 1, true, container);
    second.finish();
    assert!(second.skipped > 0);
    assert_eq!(second.container.stored, total - before);
    assert_eq!(second.container.duplicates, 0);
    assert_eq!(second.container.rows.len(), total);
    assert_eq!(second.container.rows, whole.container.rows);
    for key in whole.container.rows.keys() {
        let tile = Tile { zoom: key.0, x: key.1, y: (1u32 << key.0) - 1 - key.2 };
        assert_eq!(second.progress.state(tile), Some(ProgressState::Finished));
    }

    // A third run finds everything there and stores nothing.
    let mut container = second.container;
    container.stored = 0;
    let mut third = Run::new(&units, 1, true, container);
    third.finish();
    assert_eq!(third.container.stored, 0);
    assert_eq!(third.container.duplicates, 0);
    assert_eq!(third.rasterized, 0);
    assert_eq!(third.overviews, 0);
}

#[test]
fn a_second_insert_is_a_harmless_duplicate() {
    let mut container = Container::default();
    let tile = Tile { zoom: 4, x: 1, y: 2 };
    let grid = Grid::filled(4, 4, 1.0).unwrap();
    container.insert(tile, payload(&grid));
    container.insert(tile, payload(&Grid::filled(4, 4, 2.0).unwrap()));
    assert_eq!(container.stored, 1);
    assert_eq!(container.duplicates, 1);
    assert_eq!(container.get(tile).unwrap().get(0, 0), Some(1.0));
    assert_eq!(insert_outcome(false, false), InsertOutcome::Failed);
}

#[test]
fn empty_regions_store_nothing_and_finish() {
    // One unit tile without points among tiles with points.
    let range = TileRange { zoom: 6, min_x: 20, max_x: 21, min_y: 30, max_y: 31 };
    let empty = Tile { zoom: 6, x: 21, y: 30 };
    let units: Vec<(Tile, Vec<f64>)> = range
        .tiles()
        .into_iter()
        .map(|t| (t, if t == empty { vec![] } else { vec![1.0] }))
        .collect();
    let mut run = Run::new(&units, 2, false, Container::default());
    run.finish();
    for levels in 0..=2 {
        for t in empty.descendants(levels) {
            assert!(!run.container.has(t));
            assert_eq!(run.progress.state(t), Some(ProgressState::Finished));
        }
    }
    for (t, _) in &units {
        if *t != empty {
            for d in t.descendants(2) {
                assert!(run.container.has(d));
            }
        }
    }
    // The parent of the four has three children with data and one without:
    // it has no payload either.
    assert!(!run.container.has(Tile { zoom: 5, x: 10, y: 15 }));
    assert_eq!(run.progress.state(Tile { zoom: 0, x: 0, y: 0 }), Some(ProgressState::Finished));
}

#[test]
fn sparse_islands() {
    // Two clusters of 50 points, 5 km apart, each in its own unit tile, with
    // unit tiles without points between them.
    let cluster = |x0: f64| -> Vec<Height> {
        (0..50)
            .map(|i| Height {
                position: spade::Point2::new(x0 + f64::from(i % 10) * 10.0, f64::from(i / 10) * 10.0),
                height: 100.0 + f64::from(i),
            })
            .collect()
    };
    let inside = |points: Vec<Height>, x: f64, y: f64| -> Option<f64> {
        let mut t = spade::DelaunayTriangulation::<Height>::new();
        for p in points {
            t.insert(p).unwrap();
        }
        t.natural_neighbor().interpolate(|v| v.data().height, spade::Point2::new(x, y))
    };
    assert!(inside(cluster(0.0), 45.0, 20.0).unwrap().is_finite());
    assert!(inside(cluster(5000.0), 5045.0, 20.0).unwrap().is_finite());
    assert!(inside(cluster(0.0), 2500.0, 20.0).is_none());
    assert!(inside(cluster(5000.0), 2500.0, 20.0).is_none());

    let range = TileRange { zoom: 8, min_x: 100, max_x: 104, min_y: 50, max_y: 50 };
    let units: Vec<(Tile, Vec<f64>)> = range
        .tiles()
        .into_iter()
        .map(|t| (t, if t.x == 100 || t.x == 104 { vec![100.0] } else { vec![] }))
        .collect();
    let mut run = Run::new(&units, 0, false, Container::default());
    run.finish();
    assert!(run.container.has(Tile { zoom: 8, x: 100, y: 50 }));
    assert!(run.container.has(Tile { zoom: 8, x: 104, y: 50 }));
    for x in 101..104 {
        let t = Tile { zoom: 8, x, y: 50 };
        assert!(!run.container.has(t));
        assert_eq!(run.progress.state(t), Some(ProgressState::Finished));
    }
    assert_eq!(run.rasterized, 2);
}

#[test]
fn single_synthetic_ramp() {
    // A hundred by hundred points over (0, 0) to (1000, 1000) with the
    // height x + y, interpolated over the raster of one unit tile with its
    // buffer and cut into the output tile with its halo.
    let mut t = spade::DelaunayTriangulation::<Height>::new();
    for i in 0..100 {
        for j in 0..100 {
            let x = f64::from(i) * 1000.0 / 99.0;
            let y = f64::from(j) * 1000.0 / 99.0;
            t.insert(Height { position: spade::Point2::new(x, y), height: x + y }).unwrap();
        }
    }
    let tile_size = 256u16;
    let buffer = 16u32;
    let halo = 2u16;
    let side = usize::from(tile_size) + 2 * buffer as usize;
    let (min, max) = (0.0, 1000.0);
    let at = |i: usize| min + i as f64 * (max - min) / side as f64;
    let nn = t.natural_neighbor();
    let mut cells = Vec::new();
    for row in 0..side {
        for col in 0..side {
            let v = nn.interpolate(|v| v.data().height, spade::Point2::new(at(col), at(row)));
            cells.push(v.unwrap_or(f64::NAN));
        }
    }
    let raster = Grid::from_cells(side, side, cells).unwrap();
    let slices = slice_supertile(&raster, 0, tile_size, buffer, halo).unwrap();
    assert_eq!(slices.len(), 1);
    let tile = &slices[0];
    assert_eq!(tile.cols(), 260);
    let mut nans = 0;
    for row in 0..260 {
        for col in 0..260 {
            let v = tile.get(row, col).unwrap();
            if v.is_nan() {
                nans += 1;
            } else {
                let want = at(col + 14) + at(row + 14);
                assert!((v - want).abs() < 1e-6, "{row} {col}: {v} {want}");
            }
        }
    }
    assert_eq!(nans, 0);
}
