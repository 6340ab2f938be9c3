use terragen::erosion::Erosion;

#[test]
fn zero_iterations_identity() {
    let mut er = Erosion::new((8, 8), 3);
    let field: Vec<i32> = (0..64).map(|i| (i * 1000) as i32).collect();
    let out = er.erode(field.clone(), 0, 5);
    assert_eq!(out, field);
}

#[test]
fn erosion_composes() {
    // n then m iterations, seeded by seed + iteration, equal n + m at once
    let mut er = Erosion::new((16, 16), 3);
    let field: Vec<i32> = (0..256).map(|i| ((i % 17) * 120_000) as i32).collect();
    let once = er.erode(field.clone(), 5, 9);
    let first = er.erode(field.clone(), 3, 9);
    let then = er.erode(first, 2, 9 + 3);
    assert_eq!(then, once);
}

#[test]
fn erosion_changes_a_sloped_field() {
    let mut er = Erosion::new((16, 16), 3);
    let mut field = vec![0i32; 256];
    for y in 0..16 {
        for x in 0..16 {
            field[y * 16 + x] = (x as i32) * 50_000;
        }
    }
    let out = er.erode(field.clone(), 10, 1);
    assert_eq!(out.len(), field.len());
    assert_ne!(out, field);
}

#[test]
fn erosion_stays_in_bounds_on_a_tiny_grid() {
    // every read and write is inside the field for any iteration count
    let mut er = Erosion::new((4, 4), 1);
    let field = vec![1_000_000i32; 16];
    let out = er.erode(field, 100, 0);
    assert_eq!(out.len(), 16);
}
