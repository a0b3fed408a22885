use laz2dem::grid::{assemble_overview, slice_supertile, AssembleError, Grid};

fn ramp(width: usize, height: usize) -> Grid<f64> {
    let mut cells = Vec::new();
    for row in 0..height {
        for col in 0..width {
            cells.push((row * 1000 + col) as f64);
        }
    }
    Grid::from_cells(width, height, cells).unwrap()
}

#[test]
fn from_cells_wants_one_cell_for_each_place() {
    assert!(Grid::from_cells(2, 3, vec![0u8; 6]).is_some());
    assert!(Grid::from_cells(2, 3, vec![0u8; 5]).is_none());
    assert!(Grid::from_cells(0, 3, Vec::<u8>::new()).is_some());
    assert!(Grid::from_cells(usize::MAX, 2, vec![0u8; 4]).is_none());
}

#[test]
fn filled_holds_the_value_everywhere() {
    let g = Grid::filled(3, 2, 7u16).unwrap();
    assert_eq!(g.cols(), 3);
    assert_eq!(g.rows(), 2);
    assert_eq!(g.as_cells(), &vec![7u16; 6]);
    assert!(Grid::filled(usize::MAX, 2, 7u16).is_none());
}

#[test]
fn get_reads_row_by_row() {
    let g = ramp(4, 3);
    assert_eq!(g.get(0, 0), Some(0.0));
    assert_eq!(g.get(2, 3), Some(2003.0));
    assert_eq!(g.get(3, 0), None);
    assert_eq!(g.get(0, 4), None);
}

#[test]
fn crop_takes_the_part() {
    let g = ramp(6, 5);
    let part = g.crop(2, 1, 3, 2).unwrap();
    assert_eq!(part.cols(), 3);
    assert_eq!(part.rows(), 2);
    assert_eq!(part.as_cells(), &vec![1002.0, 1003.0, 1004.0, 2002.0, 2003.0, 2004.0]);
    assert!(g.crop(4, 0, 3, 1).is_none());
    assert!(g.crop(0, 4, 1, 2).is_none());
    assert!(g.crop(7, 0, 0, 0).is_none());
    assert!(g.crop(6, 5, 0, 0).is_some());
    assert!(g.crop(usize::MAX, 0, 2, 1).is_none());
}

#[test]
fn slices_are_cut_by_sector_with_halo() {
    // Two by two tiles of 4 pixels, a buffer of 3 and a halo of 1.
    let g = ramp(14, 14);
    let slices = slice_supertile(&g, 1, 4, 3, 1).unwrap();
    assert_eq!(slices.len(), 4);
    for (s, slice) in slices.iter().enumerate() {
        assert_eq!(slice.cols(), 6);
        assert_eq!(slice.rows(), 6);
        let x0 = 2 + (s & 1) * 4;
        let y0 = 2 + (s >> 1) * 4;
        for row in 0..6 {
            for col in 0..6 {
                assert_eq!(slice.get(row, col), g.get(y0 + row, x0 + col));
            }
        }
    }
}

#[test]
fn slices_by_sector_two_levels_down() {
    let g = ramp(4 * 8 + 10, 4 * 8 + 10);
    let slices = slice_supertile(&g, 2, 8, 5, 0).unwrap();
    assert_eq!(slices.len(), 16);
    for (s, slice) in slices.iter().enumerate() {
        assert_eq!(slice.cols(), 8);
        let x0 = 5 + (s & 3) * 8;
        let y0 = 5 + (s >> 2) * 8;
        assert_eq!(slice.get(0, 0), g.get(y0, x0));
        assert_eq!(slice.get(7, 7), g.get(y0 + 7, x0 + 7));
    }
}

#[test]
fn slicing_refuses_what_does_not_fit() {
    let g = ramp(14, 14);
    assert!(slice_supertile(&g, 1, 4, 3, 4).is_none());
    assert!(slice_supertile(&g, 1, 4, 4, 3).is_none());
    assert!(slice_supertile(&g, 2, 4, 3, 1).is_none());
    assert!(slice_supertile(&g, 1, 0, 3, 1).is_none());
    assert!(slice_supertile(&g, 31, 1, 0, 0).is_none());
    assert!(slice_supertile(&g, 0, 4, 3, 1).is_some());
    assert!(slice_supertile(&ramp(14, 12), 1, 4, 3, 1).is_some());
    assert!(slice_supertile(&ramp(14, 11), 1, 4, 3, 1).is_none());
    assert!(slice_supertile(&ramp(11, 14), 1, 4, 3, 1).is_none());
}

#[test]
fn neighbouring_slices_agree_on_their_halos() {
    let g = ramp(2 * 16 + 2 * 5, 2 * 16 + 2 * 5);
    let halo = 2;
    let slices = slice_supertile(&g, 1, 16, 5, halo as u16).unwrap();
    for row in 0..20 {
        for col in 0..2 * halo {
            assert_eq!(slices[0].get(row, col + 16), slices[1].get(row, col));
            assert_eq!(slices[2].get(row, col + 16), slices[3].get(row, col));
            assert_eq!(slices[0].get(col + 16, row), slices[2].get(col, row));
            assert_eq!(slices[1].get(col + 16, row), slices[3].get(col, row));
        }
    }
}

fn window_of(value: impl Fn(usize) -> Option<f64>, side: usize) -> Vec<Option<Grid<f64>>> {
    (0..16).map(|i| value(i).map(|v| Grid::filled(side, side, v).unwrap())).collect()
}

#[test]
fn overview_of_constant_children_is_constant() {
    let tile_size = 8u16;
    let halo = 2u16;
    let children = window_of(|_| Some(42.0), 12);
    let g = assemble_overview(&children, tile_size, halo, f64::NAN).unwrap();
    assert_eq!(g.cols(), 24);
    assert_eq!(g.rows(), 24);
    assert!(g.as_cells().iter().all(|v| *v == 42.0));
}

#[test]
fn overview_from_four_children_leaves_the_ring_unfilled() {
    let children = window_of(|i| if matches!(i, 5 | 6 | 9 | 10) { Some(42.0) } else { None }, 12);
    let g = assemble_overview(&children, 8, 2, f64::NAN).unwrap();
    for row in 0..24 {
        for col in 0..24 {
            let v = g.get(row, col).unwrap();
            if (4..20).contains(&row) && (4..20).contains(&col) {
                assert_eq!(v, 42.0);
            } else {
                assert!(v.is_nan());
            }
        }
    }
}

#[test]
fn overview_takes_each_strip_from_its_child() {
    let tile_size = 4usize;
    let halo = 1usize;
    let side = tile_size + 2 * halo;
    // Child `i` holds `i * 100 + row * 10 + col`.
    let children: Vec<Option<Grid<u32>>> = (0..16u32)
        .map(|i| {
            let mut cells = Vec::new();
            for row in 0..side as u32 {
                for col in 0..side as u32 {
                    cells.push(i * 100 + row * 10 + col);
                }
            }
            Grid::from_cells(side, side, cells)
        })
        .collect();
    let g = assemble_overview(&children, 4, 1, 0).unwrap();
    assert_eq!(g.cols(), 12);
    let along = |i: usize| -> (u32, u32) {
        match i {
            0..=1 => (0, (3 + i) as u32),
            2..=5 => (1, (i - 1) as u32),
            6..=9 => (2, (i - 5) as u32),
            _ => (3, (i - 9) as u32),
        }
    };
    for row in 0..12 {
        for col in 0..12 {
            let (cr, sr) = along(row);
            let (cc, sc) = along(col);
            assert_eq!(g.get(row, col), Some((cr * 4 + cc) * 100 + sr * 10 + sc));
        }
    }
}

#[test]
fn overview_without_an_interior_child_is_empty() {
    for missing in [5usize, 6, 9, 10] {
        let children = window_of(|i| if i == missing { None } else { Some(1.0) }, 12);
        assert_eq!(
            assemble_overview(&children, 8, 2, f64::NAN).err(),
            Some(AssembleError::MissingInterior)
        );
    }
}

#[test]
fn overview_refuses_bad_geometry() {
    let mut children = window_of(|_| Some(1.0), 12);
    let last = children.pop().unwrap();
    assert_eq!(assemble_overview(&children, 8, 2, 0.0).err(), Some(AssembleError::Geometry));
    children.push(last);
    assert_eq!(assemble_overview(&children, 0, 0, 0.0).err(), Some(AssembleError::Geometry));
    assert_eq!(assemble_overview(&children, 2, 2, 0.0).err(), Some(AssembleError::Geometry));
}

#[test]
fn overview_refuses_a_child_of_another_size() {
    let mut children = window_of(|_| Some(1.0), 12);
    children[3] = Grid::filled(12, 11, 1.0);
    assert_eq!(assemble_overview(&children, 8, 2, 0.0).err(), Some(AssembleError::ChildSize));
    // A wrong size is reported before a missing child.
    children[5] = None;
    assert_eq!(assemble_overview(&children, 8, 2, 0.0).err(), Some(AssembleError::ChildSize));
}

#[test]
fn tiles_of_neighbouring_rasters_agree_on_their_halos() {
    // Two unit tiles side by side, each cut into two by two tiles of 8
    // pixels, with a buffer of 5 and a halo of 2. Both rasters hold the
    // value of the ground, counted in pixels from the left raster's corner.
    let (tile_size, buffer, halo) = (8usize, 5usize, 2usize);
    let side = 2 * tile_size + 2 * buffer;
    let ground = |x0: usize| {
        let mut cells = Vec::new();
        for row in 0..side {
            for col in 0..side {
                cells.push((row * 1000 + x0 + col) as f64);
            }
        }
        Grid::from_cells(side, side, cells).unwrap()
    };
    let left = slice_supertile(&ground(0), 1, 8, 5, 2).unwrap();
    let right = slice_supertile(&ground(2 * tile_size), 1, 8, 5, 2).unwrap();
    for row in 0..tile_size + 2 * halo {
        for col in 0..2 * halo {
            assert_eq!(left[1].get(row, col + tile_size), right[0].get(row, col));
            assert_eq!(left[3].get(row, col + tile_size), right[2].get(row, col));
        }
    }
}
