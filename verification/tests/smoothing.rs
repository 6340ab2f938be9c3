use terragen::smoother::{ShapeSmoother, _into_cells, CELL_CHECKED, CELL_EMPTY, CELL_FILLED};

#[test]
fn into_cells_seeds_border() {
    let data = vec![false; 9];
    let (cells, taken) = _into_cells((3, 3), &data);
    assert_eq!(taken, 8);
    assert_eq!(cells[4], CELL_EMPTY);
    for i in [0, 1, 2, 3, 5, 6, 7, 8] {
        assert_eq!(cells[i], CELL_CHECKED);
    }
}

#[test]
fn into_cells_marks_filled() {
    let mut data = vec![false; 9];
    data[0] = true;
    data[4] = true;
    let (cells, taken) = _into_cells((3, 3), &data);
    assert_eq!(cells[0], CELL_FILLED);
    assert_eq!(cells[4], CELL_FILLED);
    assert_eq!(taken, 7);
}

#[test]
fn smoother_keeps_enclosed_pocket_as_land() {
    // A ring of land around an empty centre: the border flood cannot
    // reach the centre, so the centre stays on the land side.
    let w = 5;
    let mut mask = vec![false; 25];
    for (x, y) in [(1, 1), (2, 1), (3, 1), (1, 2), (3, 2), (1, 3), (2, 3), (3, 3)] {
        mask[y * w + x] = true;
    }
    let sm = ShapeSmoother::new();
    sm.smooth_out((5, 5), &mut mask);
    let mut expect = vec![false; 25];
    for (x, y) in [(1, 1), (2, 1), (3, 1), (1, 2), (3, 2), (1, 3), (2, 3), (3, 3), (2, 2)] {
        expect[y * w + x] = true;
    }
    assert_eq!(mask, expect);
}

#[test]
fn smoother_clears_open_sea() {
    let mut mask = vec![false; 64];
    let sm = ShapeSmoother::new();
    sm.smooth_out((8, 8), &mut mask);
    assert!(mask.iter().all(|b| !b));
}

#[test]
fn smoother_keeps_land_cells() {
    let mut mask = vec![false; 49];
    for i in [9, 10, 11, 17, 24, 30, 31, 38, 40] {
        mask[i] = true;
    }
    let sm = ShapeSmoother::new();
    sm.smooth_out((7, 7), &mut mask);
    for i in [9, 10, 11, 17, 24, 30, 31, 38, 40] {
        assert!(mask[i]);
    }
}

#[test]
fn smoother_idempotent_on_its_output() {
    let mut mask = vec![false; 49];
    for i in [9, 10, 11, 17, 24, 30, 31, 38, 40] {
        mask[i] = true;
    }
    let sm = ShapeSmoother::new();
    sm.smooth_out((7, 7), &mut mask);
    let once = mask.clone();
    sm.smooth_out((7, 7), &mut mask);
    assert_eq!(mask, once);
}
