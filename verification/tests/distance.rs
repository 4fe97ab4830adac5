use kaku::distance::PQKey;
use kaku::root::integer_root;
use kaku::settings::SdfSettings;

fn settings(radius: f32) -> SdfSettings {
    SdfSettings { radius_bits: radius.to_bits() }
}

fn key(x: i64, y: i64, coverage: u8, interior: bool) -> PQKey {
    PQKey { vector: (x, y), coverage, interior }
}

#[test]
fn roots_are_rounded_down() {
    assert_eq!(integer_root(0), 0);
    assert_eq!(integer_root(1), 1);
    assert_eq!(integer_root(3), 1);
    assert_eq!(integer_root(4), 2);
    assert_eq!(integer_root(99), 9);
    assert_eq!(integer_root(100), 10);
    assert_eq!(integer_root(1_000_000_000_000_000_000_000_000_000_000), 1_000_000_000_000_000);
    assert_eq!(integer_root(u128::MAX), 18446744073709551615);
}

#[test]
fn seed_keys() {
    let seed = PQKey::seed(200);
    assert_eq!(seed.vector, (0, 0));
    assert_eq!(seed.coverage, 200);
    assert!(seed.interior);
}

#[test]
fn steps_add_to_the_vector() {
    let stepped = key(3, -2, 77, true).step(-1, 1, false);
    assert_eq!(stepped.vector, (2, -1));
    assert_eq!(stepped.coverage, 77);
    assert!(!stepped.interior);
}

#[test]
fn rank_counts_units_of_the_distance() {
    // half a pixel: 0.5 * 510 * 65536
    assert_eq!(key(0, 0, 255, true).rank(), 16711680);
    assert_eq!(key(0, 0, 0, true).rank(), 16711680);
    // 1/510 of a pixel, on either side
    assert_eq!(key(0, 0, 127, true).rank(), 65536);
    assert_eq!(key(0, 0, 128, true).rank(), 65536);
    // 5 - 0.5 and 5 + 0.5
    assert_eq!(key(3, 4, 255, false).rank(), 150405120);
    assert_eq!(key(3, 4, 255, true).rank(), 183828480);
    // irrational lengths are rounded down
    assert_eq!(key(1, 1, 255, false).rank(), 30556089);
    assert_eq!(key(1, 1, 100, true).rank(), 43663289);
    assert_eq!(key(-2, 1, 51, false).rank(), 84763912);
}

#[test]
fn rank_of_the_longest_vectors() {
    assert_eq!(key(0xFFFF_FFFF, 0xFFFF_FFFF, 0, false).rank(), 203013522031202911);
    assert_eq!(key(-0xFFFF_FFFF, 0xFFFF_FFFF, 255, true).rank(), 203013522031202911);
}

#[test]
fn rank_grows_with_the_distance() {
    let mut last = 0;
    for length in 1..200 {
        let rank = key(length, 0, 128, false).rank();
        assert!(rank > last);
        last = rank;
    }
    assert!(key(3, 4, 128, false).rank() == key(5, 0, 128, false).rank());
    assert!(key(3, 4, 128, false).rank() == key(-4, -3, 128, false).rank());
    assert!(key(2, 2, 128, false).rank() < key(3, 0, 128, false).rank());
}

#[test]
fn within_is_strict_at_the_radius() {
    let sdf = settings(5.0);
    assert!(key(0, 0, 255, true).within(&sdf));
    assert!(key(1, 0, 255, false).within(&sdf));
    assert!(key(5, 0, 255, false).within(&sdf));
    assert!(key(0, 5, 255, false).within(&sdf));
    assert!(!key(0, 6, 255, false).within(&sdf));
    assert!(key(4, 0, 255, true).within(&sdf));
    assert!(!key(5, 0, 255, true).within(&sdf));
    assert!(!key(4, 4, 10, false).within(&sdf));
    // 5 + 1/510 and 5 - 1/510
    assert!(!key(3, 4, 127, false).within(&sdf));
    assert!(key(3, 4, 128, false).within(&sdf));
    assert!(!key(3, 4, 128, true).within(&sdf));
    assert!(key(3, 4, 127, true).within(&sdf));
}

#[test]
fn within_a_radius_that_is_no_binary_fraction() {
    let sdf = settings(0.1);
    assert!(!key(0, 0, 255, true).within(&sdf));
    assert!(key(0, 0, 120, true).within(&sdf));
    assert!(key(0, 0, 150, true).within(&sdf));
    assert!(!key(0, 0, 100, true).within(&sdf));
    assert!(!key(1, 0, 128, false).within(&sdf));
}

#[test]
fn nothing_is_within_a_tiny_radius() {
    for sdf in [settings(0.001), settings(1.0e-40), SdfSettings { radius_bits: 1 }] {
        assert!(!key(0, 0, 127, true).within(&sdf));
        assert!(!key(0, 0, 128, true).within(&sdf));
        assert!(!key(1, 0, 128, false).within(&sdf));
        assert!(!key(1, 0, 128, true).within(&sdf));
    }
}

#[test]
fn nothing_far_away_is_within() {
    let sdf = settings(4294967040.0);
    assert!(!key(0xFFFF_FFFF, 0xFFFF_FFFF, 0, false).within(&sdf));
    assert!(key(0xFFFF_0000, 0, 0, false).within(&sdf));
    let half = settings(0.5000001);
    assert!(!key(0xFFFF_FFFF, 0xFFFF_FFFF, 0, false).within(&half));
    assert!(!key(0xFFFF_FFFF, 0, 255, true).within(&half));
}

#[test]
fn bytes_encode_the_distance() {
    let sdf = settings(5.0);
    assert_eq!(key(0, 0, 255, true).byte(&sdf), 114);
    assert_eq!(key(1, 0, 255, false).byte(&sdf), 140);
    assert_eq!(key(5, 0, 255, false).byte(&sdf), 242);
    assert_eq!(key(3, 3, 255, false).byte(&sdf), 222);
    assert_eq!(key(4, 0, 255, true).byte(&sdf), 12);
    assert_eq!(key(3, 4, 200, false).byte(&sdf), 247);
    assert_eq!(key(3, 4, 128, false).byte(&sdf), 254);
    assert_eq!(key(3, 4, 127, true).byte(&sdf), 0);
}

#[test]
fn bytes_saturate_beyond_the_radius() {
    let sdf = settings(5.0);
    assert_eq!(key(5, 0, 255, true).byte(&sdf), 0);
    assert_eq!(key(0, 6, 255, false).byte(&sdf), 255);
    assert_eq!(key(3, 4, 127, false).byte(&sdf), 255);
    assert_eq!(key(3, 4, 128, true).byte(&sdf), 0);
    assert_eq!(key(0xFFFF_FFFF, 0xFFFF_FFFF, 0, false).byte(&sdf), 255);
    assert_eq!(key(0xFFFF_FFFF, 0xFFFF_FFFF, 0, true).byte(&sdf), 0);
    let half = settings(0.5000001);
    assert_eq!(key(0xFFFF_FFFF, 0xFFFF_FFFF, 0, false).byte(&half), 255);
    assert_eq!(key(0xFFFF_FFFF, 0, 255, true).byte(&half), 0);
}

#[test]
fn bytes_under_a_small_radius() {
    let sdf = settings(0.1);
    assert_eq!(key(0, 0, 255, true).byte(&sdf), 0);
    assert_eq!(key(0, 0, 120, true).byte(&sdf), 164);
    assert_eq!(key(0, 0, 127, true).byte(&sdf), 129);
    assert_eq!(key(0, 0, 128, true).byte(&sdf), 125);
    assert_eq!(key(0, 0, 100, true).byte(&sdf), 255);
    assert_eq!(key(0, 0, 150, true).byte(&sdf), 15);
    assert_eq!(key(1, 0, 128, false).byte(&sdf), 255);
    for tiny in [settings(0.001), settings(1.0e-40)] {
        assert_eq!(key(0, 0, 127, true).byte(&tiny), 255);
        assert_eq!(key(0, 0, 128, true).byte(&tiny), 0);
        assert_eq!(key(2, 1, 128, false).byte(&tiny), 255);
        assert_eq!(key(2, 1, 127, true).byte(&tiny), 0);
    }
}

#[test]
fn bytes_agree_with_single_precision() {
    // wherever the level is not within rounding of a whole number, the exact
    // byte is the byte of the same formula in single precision
    let radius = 5.0f32;
    let sdf = settings(radius);
    for x in -5i64..=5 {
        for y in -5i64..=5 {
            for (coverage, interior) in [(255u8, true), (255, false), (60, false), (200, true)] {
                let k = key(x, y, coverage, interior);
                if !k.within(&sdf) {
                    continue;
                }
                let length = ((x * x + y * y) as f32).sqrt();
                let signed = if interior { -length } else { length };
                let distance = signed + (0.5 - coverage as f32 / 255.0);
                let level = (distance / (2.0 * radius) + 0.5) * 255.0;
                if (level - level.round()).abs() > 0.001 {
                    assert_eq!(k.byte(&sdf), level as u8);
                }
            }
        }
    }
}
