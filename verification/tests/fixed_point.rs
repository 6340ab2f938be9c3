use terragen::fixedp::{isqrt, log2_fixed};
use terragen::HEIGHT_SCALE;

#[test]
fn isqrt_exact_values() {
    assert_eq!(isqrt(0), 0);
    assert_eq!(isqrt(1), 1);
    assert_eq!(isqrt(3), 1);
    assert_eq!(isqrt(4), 2);
    assert_eq!(isqrt(15), 3);
    assert_eq!(isqrt(16), 4);
    assert_eq!(isqrt(999_999_999_999), 999_999);
    assert_eq!(isqrt(1_000_000_000_000), 1_000_000);
    assert_eq!(isqrt(u64::MAX), 4_294_967_295);
}

#[test]
fn log2_fixed_powers_of_two_are_exact() {
    assert_eq!(log2_fixed(1), 0);
    assert_eq!(log2_fixed(2), HEIGHT_SCALE as u32);
    assert_eq!(log2_fixed(4), 2_000_000);
    assert_eq!(log2_fixed(8), 3_000_000);
    assert_eq!(log2_fixed(1 << 20), 20_000_000);
    assert_eq!(log2_fixed(1 << 31), 31_000_000);
}

#[test]
fn log2_fixed_between_powers() {
    // log2(3) = 1.58496...; the 20-bit binary fraction rounds down
    let v = log2_fixed(3);
    assert!(v > 1_584_000 && v < 1_585_000, "log2_fixed(3) = {}", v);
    // monotone over a small range
    let mut prev = 0;
    for x in 1..100u32 {
        let c = log2_fixed(x);
        assert!(c >= prev);
        prev = c;
    }
}
