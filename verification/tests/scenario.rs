use noise::{Fbm, MultiFractal, NoiseFn, Perlin};
use terragen::continent::generate_overlap;
use terragen::world::World;

fn noise_field(w: usize, h: usize, seed: u32) -> Vec<i32> {
    let fbm: Fbm<Perlin> = Fbm::new(seed).set_frequency(0.1);
    let mut out = Vec::with_capacity(w * h);
    for y in 0..h {
        for x in 0..w {
            let v = fbm.get([x as f64, y as f64]);
            let c = v.powf(3.0) / 10.0;
            let mut f = (1_000_000.0 * c) as i32;
            if f > 1_000_000 {
                f = 1_000_000;
            }
            if f < -1_000_000 {
                f = -1_000_000;
            }
            out.push(f);
        }
    }
    out
}

fn std_dev(v: &[i32]) -> f64 {
    let n = v.len() as f64;
    let mean = v.iter().map(|x| *x as f64).sum::<f64>() / n;
    let var = v.iter().map(|x| (*x as f64 - mean) * (*x as f64 - mean)).sum::<f64>() / n;
    var.sqrt()
}

#[test]
fn end_to_end_terrain_scenario() {
    let (w, h) = (64usize, 64usize);
    let noise = noise_field(w, h, 46);
    let mut world = World::new((w, h), 500, 4, 3, noise);

    // at least four distinct overlap-count local maxima
    let ov = generate_overlap((w, h), 500, 4);
    let mut maxima = 0;
    for y in 0..h {
        for x in 0..w {
            let c = ov[y * w + x];
            if c <= 0 {
                continue;
            }
            let mut is_max = true;
            for dy in -1i64..=1 {
                for dx in -1i64..=1 {
                    if dx == 0 && dy == 0 {
                        continue;
                    }
                    let nx = x as i64 + dx;
                    let ny = y as i64 + dy;
                    if nx < 0 || ny < 0 || nx >= w as i64 || ny >= h as i64 {
                        continue;
                    }
                    if ov[(ny as usize) * w + nx as usize] > c {
                        is_max = false;
                    }
                }
            }
            if is_max {
                maxima += 1;
            }
        }
    }
    println!("overlap local maxima: {}", maxima);
    assert!(maxima >= 4);

    // land fraction between 10% and 60% (sea level at 0.3 units)
    let field = world.height_field().clone();
    let land = field.iter().filter(|&&v| v > 300_000).count();
    let frac = land as f64 / (w * h) as f64;
    println!("land fraction: {:.3}", frac);
    assert!(frac >= 0.10 && frac <= 0.60, "land fraction {:.3}", frac);

    // fifty erosion iterations strictly reduce the spread of heights
    let before = std_dev(&field);
    for _ in 0..50 {
        world.update();
    }
    let after = std_dev(world.height_field());
    println!("std dev before {:.1} after {:.1}", before, after);
    assert!(after < before);
}
