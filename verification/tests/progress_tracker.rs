use laz2dem::cache::TileCache;
use laz2dem::job::{Job, TileMeta};
use laz2dem::progress::{are_unit_jobs, rasterize_jobs, Progress, ProgressState};
use laz2dem::tile::{Tile, TileRange};

fn tile(zoom: u8, x: u32, y: u32) -> Tile {
    Tile { zoom, x, y }
}

fn unit_job(t: Tile) -> Job<()> {
    Job::Rasterize(TileMeta {
        tile: t,
        bbox: tilemath::bbox::BBox::new(0.0, 0.0, 1.0, 1.0),
        points: (),
    })
}

fn unit_jobs(tiles: &[Tile]) -> Vec<Job<()>> {
    tiles.iter().map(|t| unit_job(*t)).collect()
}

fn job_tiles(progress: &mut Progress<()>) -> Vec<Tile> {
    let mut out = Vec::new();
    while let Some(job) = progress.next() {
        out.push(job.tile());
    }
    out
}

#[test]
fn new_queues_output_tiles_and_plans_ancestors() {
    let p = Progress::new(unit_jobs(&[tile(2, 1, 2)]), 1);
    assert_eq!(p.queue_len(), 1);
    for t in tile(2, 1, 2).descendants(1) {
        assert_eq!(p.state(t), Some(ProgressState::Queued));
    }
    assert_eq!(p.state(tile(2, 1, 2)), Some(ProgressState::Planned));
    assert_eq!(p.state(tile(1, 0, 1)), Some(ProgressState::Planned));
    assert_eq!(p.state(tile(0, 0, 0)), Some(ProgressState::Planned));
    assert_eq!(p.state(tile(2, 0, 0)), None);
    assert_eq!(p.state(tile(3, 4, 4)), None);
    assert_eq!(p.state(tile(4, 4, 8)), None);
}

#[test]
fn new_without_offset_queues_the_unit_tiles() {
    let p = Progress::new(unit_jobs(&[tile(1, 0, 0), tile(1, 1, 1)]), 0);
    assert_eq!(p.state(tile(1, 0, 0)), Some(ProgressState::Queued));
    assert_eq!(p.state(tile(1, 1, 1)), Some(ProgressState::Queued));
    assert_eq!(p.state(tile(1, 1, 0)), None);
    assert_eq!(p.state(tile(0, 0, 0)), Some(ProgressState::Planned));
}

#[test]
fn new_with_no_jobs_tracks_nothing() {
    let mut p = Progress::new(unit_jobs(&[]), 3);
    assert_eq!(p.queue_len(), 0);
    assert_eq!(p.state(tile(0, 0, 0)), None);
    assert!(p.next().is_none());
}

#[test]
fn new_lists_jobs_by_morton_code() {
    let tiles = [tile(2, 3, 3), tile(2, 0, 0), tile(2, 1, 0), tile(2, 0, 1), tile(2, 2, 0)];
    let mut p = Progress::new(unit_jobs(&tiles), 0);
    let order = job_tiles(&mut p);
    assert_eq!(
        order,
        vec![tile(2, 3, 3), tile(2, 2, 0), tile(2, 0, 1), tile(2, 1, 0), tile(2, 0, 0)]
    );
}

#[test]
fn from_ordered_keeps_the_order() {
    let tiles = [tile(2, 3, 3), tile(2, 0, 0), tile(2, 1, 0)];
    let mut p = Progress::from_ordered(unit_jobs(&tiles), 0);
    let order = job_tiles(&mut p);
    assert_eq!(order, vec![tile(2, 1, 0), tile(2, 0, 0), tile(2, 3, 3)]);
}

#[test]
fn next_sets_covered_tiles_processing() {
    let mut p = Progress::new(unit_jobs(&[tile(2, 1, 2)]), 1);
    let job = p.next().unwrap();
    assert_eq!(job.tile(), tile(2, 1, 2));
    assert_eq!(job.covered_tiles(1), tile(2, 1, 2).descendants(1));
    for t in tile(2, 1, 2).descendants(1) {
        assert_eq!(p.state(t), Some(ProgressState::Processing));
    }
    assert_eq!(p.state(tile(2, 1, 2)), Some(ProgressState::Planned));
    assert!(p.next().is_none());
}

#[test]
fn done_admits_the_parent_once_all_sixteen_are_finished() {
    let mut p = Progress::new(unit_jobs(&[tile(1, 0, 0), tile(1, 1, 0)]), 0);
    let first = p.next().unwrap().tile();
    let second = p.next().unwrap().tile();
    p.done(first);
    assert_eq!(p.state(first), Some(ProgressState::Finished));
    assert_eq!(p.state(tile(0, 0, 0)), Some(ProgressState::Planned));
    assert_eq!(p.queue_len(), 0);
    p.done(second);
    assert_eq!(p.state(tile(0, 0, 0)), Some(ProgressState::Queued));
    assert_eq!(p.queue_len(), 1);
    let job = p.next().unwrap();
    assert!(matches!(job, Job::Overview(t) if t == tile(0, 0, 0)));
    assert_eq!(p.state(tile(0, 0, 0)), Some(ProgressState::Processing));
    p.done(tile(0, 0, 0));
    assert_eq!(p.state(tile(0, 0, 0)), Some(ProgressState::Finished));
    assert!(p.next().is_none());
}

#[test]
fn done_waits_for_the_neighbours_in_the_window() {
    // Two unit tiles side by side under different parents: each parent's
    // window of sixteen holds the other parent's child.
    let left = tile(2, 1, 0);
    let right = tile(2, 2, 0);
    let mut p = Progress::from_ordered(unit_jobs(&[left, right]), 0);
    assert_eq!(p.next().unwrap().tile(), right);
    p.done(right);
    assert_eq!(p.state(tile(1, 1, 0)), Some(ProgressState::Planned));
    assert_eq!(p.state(tile(1, 0, 0)), Some(ProgressState::Planned));
    assert_eq!(p.next().unwrap().tile(), left);
    p.done(left);
    assert_eq!(p.state(tile(1, 0, 0)), Some(ProgressState::Queued));
    assert_eq!(p.state(tile(1, 1, 0)), Some(ProgressState::Queued));
    // The parent of the finished tile was looked at first, so it is listed
    // first and taken last.
    assert_eq!(p.next().unwrap().tile(), tile(1, 1, 0));
    assert_eq!(p.next().unwrap().tile(), tile(1, 0, 0));
}

#[test]
fn parent_is_pushed_once() {
    let mut p = Progress::new(unit_jobs(&TileRange { zoom: 1, min_x: 0, max_x: 1, min_y: 0, max_y: 1 }.tiles()), 0);
    let mut overviews = 0;
    while let Some(job) = p.next() {
        if let Job::Overview(_) = job {
            overviews += 1;
        }
        p.done(job.tile());
    }
    assert_eq!(overviews, 1);
    assert_eq!(p.state(tile(0, 0, 0)), Some(ProgressState::Finished));
}

#[test]
fn every_tile_is_processed_once_and_parents_after_children() {
    let range = TileRange { zoom: 4, min_x: 3, max_x: 9, min_y: 5, max_y: 8 };
    let mut p = Progress::new(unit_jobs(&range.tiles()), 1);
    let mut seen = std::collections::HashSet::new();
    while let Some(job) = p.next() {
        if let Job::Overview(t) = job {
            for c in t.children_buffered(1) {
                let s = p.state(c);
                assert!(s.is_none() || s == Some(ProgressState::Finished));
            }
        }
        for t in job.covered_tiles(1) {
            assert_eq!(p.state(t), Some(ProgressState::Processing));
            assert!(seen.insert(t));
            p.done(t);
        }
    }
    // 28 unit tiles cut into 4 each, and every tile above them.
    let mut expected = std::collections::HashSet::new();
    for u in range.tiles() {
        for d in u.descendants(1) {
            let mut cur = Some(d);
            while let Some(t) = cur {
                expected.insert(t);
                cur = t.parent();
            }
        }
    }
    assert_eq!(seen, expected);
    for t in expected {
        assert_eq!(p.state(t), Some(ProgressState::Finished));
    }
}

#[test]
fn finish_all_finishes_an_empty_unit_tile() {
    let mut p = Progress::new(unit_jobs(&[tile(3, 2, 5)]), 2);
    let job = p.next().unwrap();
    let covered = job.covered_tiles(2);
    assert_eq!(covered.len(), 16);
    p.finish_all(&covered);
    for t in &covered {
        assert_eq!(p.state(*t), Some(ProgressState::Finished));
    }
    // The four tiles above them are admitted.
    assert_eq!(p.queue_len(), 4);
    for t in tile(3, 2, 5).descendants(1) {
        assert_eq!(p.state(t), Some(ProgressState::Queued));
    }
}

#[test]
fn finish_all_skips_tiles_that_are_not_processing() {
    let mut p = Progress::new(unit_jobs(&[tile(1, 0, 0), tile(1, 1, 0)]), 0);
    let first = p.next().unwrap().tile();
    assert_eq!(first, tile(1, 1, 0));
    p.finish_all(&vec![tile(1, 1, 0), tile(1, 0, 0), tile(1, 1, 0), tile(5, 0, 0)]);
    assert_eq!(p.state(tile(1, 1, 0)), Some(ProgressState::Finished));
    assert_eq!(p.state(tile(1, 0, 0)), Some(ProgressState::Queued));
    assert_eq!(p.state(tile(5, 0, 0)), None);
}

/// Runs every job, with a cache of the tiles produced, and counts how many
/// of the tiles that overviews are built from are still in the cache when
/// they are asked for. With `interior_only`, only the four children inside
/// each parent are asked for.
fn run_overviews(mut p: Progress<()>, capacity: usize, interior_only: bool) -> (usize, usize) {
    let mut cache: TileCache<()> = TileCache::new(capacity);
    let mut hits = 0;
    let mut lookups = 0;
    while let Some(job) = p.next() {
        let t = job.tile();
        if let Job::Overview(_) = job {
            for (i, c) in t.children_buffered(1).into_iter().enumerate() {
                let interior = matches!(i, 5 | 6 | 9 | 10);
                if p.state(c).is_some() && (interior || !interior_only) {
                    lookups += 1;
                    if cache.get(c).is_some() {
                        hits += 1;
                    }
                }
            }
        }
        cache.put(t, ());
        p.done(t);
    }
    (hits, lookups)
}

#[test]
fn morton_locality() {
    let range = TileRange { zoom: 6, min_x: 8, max_x: 15, min_y: 8, max_y: 15 };
    let tiles = range.tiles();
    assert_eq!(tiles.len(), 64);
    let mut raster = tiles.clone();
    raster.reverse();

    let (hits, lookups) = run_overviews(Progress::new(unit_jobs(&tiles), 0), 16, true);
    let (raster_hits, raster_lookups) =
        run_overviews(Progress::from_ordered(unit_jobs(&raster), 0), 16, true);
    assert_eq!((hits, lookups), (42, 87));
    assert_eq!((raster_hits, raster_lookups), (34, 87));
    assert!(hits > raster_hits);
    assert!((raster_hits as f64) / (raster_lookups as f64) < 0.4);

    let (all_hits, all_lookups) = run_overviews(Progress::new(unit_jobs(&tiles), 0), 16, false);
    assert_eq!((all_hits, all_lookups), (112, 239));
}

#[test]
fn morton_order_keeps_more_children_cached_than_raster_order() {
    for (zoom, x0, y0) in [(6u8, 11u32, 13u32), (3, 0, 0), (10, 100, 200)] {
        let range = TileRange { zoom, min_x: x0, max_x: x0 + 7, min_y: y0, max_y: y0 + 7 };
        let tiles = range.tiles();
        let mut raster = tiles.clone();
        raster.reverse();
        let (hits, lookups) = run_overviews(Progress::new(unit_jobs(&tiles), 0), 16, true);
        let (raster_hits, raster_lookups) =
            run_overviews(Progress::from_ordered(unit_jobs(&raster), 0), 16, true);
        assert_eq!(lookups, raster_lookups);
        assert!(hits > raster_hits);
    }
}

#[test]
fn unit_jobs_are_checked() {
    assert!(are_unit_jobs(&unit_jobs(&[tile(2, 1, 2), tile(2, 0, 0)]), 3));
    assert!(are_unit_jobs(&unit_jobs(&[]), 200));
    // Twice the same tile.
    assert!(!are_unit_jobs(&unit_jobs(&[tile(2, 1, 2), tile(2, 0, 0), tile(2, 1, 2)]), 0));
    // Two zoom levels.
    assert!(!are_unit_jobs(&unit_jobs(&[tile(2, 1, 2), tile(3, 0, 0)]), 0));
    // Outside the pyramid.
    assert!(!are_unit_jobs(&unit_jobs(&[tile(2, 4, 0)]), 0));
    // Output tiles too fine.
    assert!(are_unit_jobs(&unit_jobs(&[tile(20, 4, 0)]), 10));
    assert!(!are_unit_jobs(&unit_jobs(&[tile(20, 4, 0)]), 11));
    assert!(!are_unit_jobs(&unit_jobs(&[tile(20, 4, 0)]), 255));
    // An overview job is no unit job.
    assert!(!are_unit_jobs(&vec![Job::<()>::Overview(tile(2, 1, 2))], 0));

    let metas = vec![
        TileMeta { tile: tile(2, 1, 2), bbox: tilemath::bbox::BBox::new(0.0, 0.0, 1.0, 1.0), points: 7u8 },
        TileMeta { tile: tile(2, 0, 0), bbox: tilemath::bbox::BBox::new(2.0, 0.0, 3.0, 1.0), points: 9u8 },
    ];
    let jobs = rasterize_jobs(metas);
    assert_eq!(jobs.len(), 2);
    assert!(matches!(&jobs[0], Job::Rasterize(m) if m.tile == tile(2, 1, 2) && m.points == 7 && m.bbox.min_x == 0.0));
    assert!(matches!(&jobs[1], Job::Rasterize(m) if m.tile == tile(2, 0, 0) && m.points == 9 && m.bbox.min_x == 2.0));
}

#[test]
fn unit_jobs_cover_the_bounding_box() {
    // The tiles that tilemath finds for a bounding box are those of the
    // rectangle between the first and the last of them.
    let bbox = tilemath::bbox::BBox::new(1137489.0, 5980732.0, 1711100.0, 6428543.0);
    let found: Vec<Tile> = tilemath::utils::bbox_covered_tiles(&bbox, 7)
        .map(|t| tile(t.zoom, t.x, t.y))
        .collect();
    let first = found[0];
    let last = found[found.len() - 1];
    let range = TileRange { zoom: 7, min_x: first.x, max_x: last.x, min_y: first.y, max_y: last.y };
    assert_eq!(range.tiles(), found);
    assert_eq!(
        found,
        vec![tile(7, 67, 43), tile(7, 68, 43), tile(7, 69, 43), tile(7, 67, 44), tile(7, 68, 44), tile(7, 69, 44)]
    );
    let jobs = unit_jobs(&found);
    assert!(are_unit_jobs(&jobs, 2));
    let mut p = Progress::new(jobs, 2);
    let mut taken = job_tiles(&mut p);
    taken.sort_by_key(|t| (t.y, t.x));
    assert_eq!(taken, found);
}

#[test]
fn done_finishes_a_tile_in_any_state() {
    // Queued: the tile is finished at once, and taking its job later does
    // not take it back.
    let mut p = Progress::new(unit_jobs(&[tile(1, 0, 0), tile(1, 1, 0)]), 0);
    p.done(tile(1, 0, 0));
    assert_eq!(p.state(tile(1, 0, 0)), Some(ProgressState::Finished));
    assert_eq!(p.queue_len(), 2);
    assert_eq!(p.next().unwrap().tile(), tile(1, 1, 0));
    assert_eq!(p.next().unwrap().tile(), tile(1, 0, 0));
    assert_eq!(p.state(tile(1, 0, 0)), Some(ProgressState::Finished));
    assert_eq!(p.state(tile(1, 1, 0)), Some(ProgressState::Processing));
    // Finished: nothing changes.
    p.done(tile(1, 0, 0));
    assert_eq!(p.state(tile(1, 0, 0)), Some(ProgressState::Finished));
    assert_eq!(p.state(tile(0, 0, 0)), Some(ProgressState::Planned));
    assert_eq!(p.queue_len(), 0);
    // Planned: the root is finished without an overview job of its own.
    p.done(tile(0, 0, 0));
    assert_eq!(p.state(tile(0, 0, 0)), Some(ProgressState::Finished));
    p.done(tile(1, 1, 0));
    assert_eq!(p.queue_len(), 0);
    assert!(p.next().is_none());
}

#[test]
fn an_overview_is_listed_only_when_its_sixteen_are_finished() {
    let range = TileRange { zoom: 3, min_x: 2, max_x: 5, min_y: 2, max_y: 5 };
    let mut p = Progress::new(unit_jobs(&range.tiles()), 0);
    let mut listed = 0;
    while let Some(job) = p.next() {
        let before = p.queue_len();
        p.done(job.tile());
        listed += p.queue_len() - before;
        // Every overview whose job is listed has its window finished or
        // outside the pyramid.
        for zoom in 0..3u8 {
            for y in 0..1u32 << zoom {
                for x in 0..1u32 << zoom {
                    let t = tile(zoom, x, y);
                    if p.state(t) == Some(ProgressState::Queued) {
                        for c in t.children_buffered(1) {
                            assert!(matches!(p.state(c), None | Some(ProgressState::Finished)));
                        }
                    }
                }
            }
        }
    }
    assert_eq!(listed, 4 + 4 + 1);
}

#[test]
fn done_counts_every_report() {
    let mut p = Progress::new(unit_jobs(&[tile(1, 0, 0), tile(1, 1, 0)]), 0);
    assert_eq!(p.done_hundredths(), 0);
    let a = p.next().unwrap().tile();
    let b = p.next().unwrap().tile();
    p.finish_all(&vec![a, b, a]);
    // Two of the three tracked tiles, in hundredths of a percent.
    assert_eq!(p.done_hundredths(), 6666);
    assert!(!p.resume_skip(&vec![tile(0, 0, 0)], &vec![false]));
    assert_eq!(p.done_hundredths(), 6666);
    assert_eq!(p.next().unwrap().tile(), tile(0, 0, 0));
    assert!(p.resume_skip(&vec![tile(0, 0, 0)], &vec![true]));
    assert_eq!(p.done_hundredths(), 10000);
}

#[test]
fn a_unit_tile_with_points_is_not_skipped() {
    let mut p = Progress::new(unit_jobs(&[tile(3, 2, 5)]), 1);
    let covered = p.next().unwrap().covered_tiles(1);
    assert!(!p.skip_empty(&covered, 1));
    for t in &covered {
        assert_eq!(p.state(*t), Some(ProgressState::Processing));
    }
    assert_eq!(p.queue_len(), 0);
    assert!(p.skip_empty(&covered, 0));
    for t in &covered {
        assert_eq!(p.state(*t), Some(ProgressState::Finished));
    }
    assert_eq!(p.state(tile(3, 2, 5)), Some(ProgressState::Queued));
}
