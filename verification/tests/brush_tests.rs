use terragen::brush::{create_brush, flatten_brush};

#[test]
fn brush_weights_normalized() {
    let w = 10;
    let h = 8;
    let brush = create_brush((w, h), 3);
    assert_eq!(brush.len(), w * h);
    for (ci, cell) in brush.iter().enumerate() {
        assert!(!cell.is_empty());
        let mut sum: i64 = 0;
        for &(x, y, wt) in cell {
            assert!(x < w && y < h, "cell {} entry ({}, {}) out of grid", ci, x, y);
            assert!(wt >= 0 && wt <= 1_000_000);
            sum += wt as i64;
        }
        // one unit within the stated tolerance
        assert!((1_000_000 - sum).abs() <= 100, "cell {} sums to {}", ci, sum);
    }
}

#[test]
fn brush_disc_shape() {
    let brush = create_brush((9, 9), 3);
    // an interior cell sees the full disc of radius 3: 29 cells
    assert_eq!(brush[4 * 9 + 4].len(), 29);
    // a corner cell keeps only the in-grid quarter of the disc
    assert_eq!(brush[0].len(), 11);
    for &(x, y, _) in &brush[4 * 9 + 4] {
        assert!((x as i64 - 4).abs() <= 3 && (y as i64 - 4).abs() <= 3);
    }
}

#[test]
fn brush_center_weight_largest() {
    let brush = create_brush((9, 9), 3);
    let cell = &brush[4 * 9 + 4];
    let center = cell.iter().find(|e| e.0 == 4 && e.1 == 4).unwrap().2;
    for e in cell {
        assert!(e.2 <= center);
    }
    assert!(center > 0);
}

#[test]
fn flatten_brush_layout() {
    let brush = create_brush((5, 5), 1);
    let (flat, ptrs) = flatten_brush(&brush);
    assert_eq!(ptrs.len(), 25);
    let total: usize = brush.iter().map(|c| c.len()).sum();
    assert_eq!(flat.len(), total);
    let mut off = 0i32;
    for (ci, cell) in brush.iter().enumerate() {
        let (start, len) = ptrs[ci];
        assert_eq!(start, off);
        assert_eq!(len as usize, cell.len());
        for (j, e) in cell.iter().enumerate() {
            assert_eq!(flat[(start as usize) + j], *e);
        }
        off += len;
    }
}
