use rand::SeedableRng;
use terragen::continent::{
    accumulate_overlap, apply_walk, generate_map, generate_map_from_walks, generate_shape,
};
use terragen::smoother::ShapeSmoother;

#[test]
fn generation_deterministic() {
    let sm = ShapeSmoother::new();
    let noise = vec![0i32; 32 * 32];
    let a = generate_map((32, 32), 200, 5, &sm, &noise);
    let b = generate_map((32, 32), 200, 5, &sm, &noise);
    assert_eq!(a, b);
}

#[test]
fn degenerate_generation_is_pure_noise() {
    let sm = ShapeSmoother::new();
    let mut noise = vec![0i32; 16 * 16];
    for i in 0..noise.len() {
        noise[i] = (i as i32 % 37) * 1000 - 18000;
    }
    let out = generate_map((16, 16), 100, 0, &sm, &noise);
    assert_eq!(out, noise);
}

#[test]
fn walk_visits_many_cells() {
    // A walk whose steps degenerated to a constant would pin itself to a
    // corner and mark at most a short diagonal.
    let mut buffer = vec![false; 32 * 32];
    let mut rng = rand::rngs::StdRng::seed_from_u64(7);
    generate_shape((32, 32), &mut buffer, 600, (16, 16), &mut rng);
    let marked = buffer.iter().filter(|b| **b).count();
    assert!(marked > 33, "only {} cells marked", marked);
}

#[test]
fn apply_walk_marks_exact_cells() {
    let mut buffer = vec![false; 16];
    let steps: Vec<(i8, i8)> = vec![(1, 0), (0, 1), (-1, 0)];
    apply_walk((4, 4), &mut buffer, (0, 0), &steps);
    // marks (0,0), (1,0), (1,1); the walk's final move marks nothing
    let mut expect = vec![false; 16];
    expect[0] = true;
    expect[1] = true;
    expect[4 + 1] = true;
    assert_eq!(buffer, expect);
}

#[test]
fn walks_clamp_at_the_grid_edge() {
    let mut buffer = vec![false; 9];
    let steps: Vec<(i8, i8)> = vec![(-1, -1), (-1, -1)];
    apply_walk((3, 3), &mut buffer, (0, 0), &steps);
    // both moves clamp back to the corner, marking only it
    assert_eq!(buffer.iter().filter(|b| **b).count(), 1);
    assert!(buffer[0]);
}

#[test]
fn height_formula_exact_value() {
    // a single one-step walk leaves one land cell of overlap one:
    // its height is log2(1 + 1) / 1.6 in fixed point, exactly 625000
    let sm = ShapeSmoother::new();
    let noise = vec![0i32; 36];
    let walks: Vec<Vec<(i8, i8)>> = vec![vec![(0, 0)]];
    let out = generate_map_from_walks((6, 6), &walks, &sm, &noise);
    let mut expect = vec![0i32; 36];
    expect[6 + 1] = 625_000;
    assert_eq!(out, expect);
}

#[test]
fn overlap_counts_walks() {
    // first two seed positions on a 6x6 grid are (1,1) and (2,1)
    let walks: Vec<Vec<(i8, i8)>> = vec![vec![(0, 0), (0, 0)], vec![(0, 0)]];
    let ov = accumulate_overlap((6, 6), &walks);
    assert_eq!(ov[6 + 1], 1);
    assert_eq!(ov[6 + 2], 1);
    let total: i32 = ov.iter().sum();
    assert_eq!(total, 2);
}
