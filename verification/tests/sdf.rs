use kaku::bitmap::Bitmap;
use kaku::sdf::{canvas_fits, create_sdf_texture};
use kaku::settings::SdfSettings;

fn settings(radius: f32) -> SdfSettings {
    SdfSettings { radius_bits: radius.to_bits() }
}

fn field_of(width: u32, height: u32, coverage: &Vec<u8>, radius: f32) -> (Vec<u8>, u32, (u32, u32)) {
    let image = Bitmap::from_pixels(width, height, coverage).unwrap();
    let sdf = settings(radius);
    assert!(canvas_fits((width, height), &sdf));
    let (field, padding) = create_sdf_texture(&image, (width, height), &sdf);
    (field.to_pixels(), padding, field.dimensions())
}

#[test]
fn full_block_has_its_ring_as_boundary() {
    let (pixels, padding, size) = field_of(10, 10, &vec![255; 100], 5.0);
    assert_eq!(padding, 5);
    assert_eq!(size, (20, 20));
    let at = |x: usize, y: usize| pixels[y * 20 + x];
    // the ring of the block: half a pixel inside
    for i in 5..15 {
        assert_eq!(at(i, 5), 114);
        assert_eq!(at(i, 14), 114);
        assert_eq!(at(5, i), 114);
        assert_eq!(at(14, i), 114);
    }
    // inside the ring, one to four pixels from it
    assert_eq!(at(6, 6), 89);
    assert_eq!(at(7, 7), 63);
    assert_eq!(at(8, 8), 38);
    assert_eq!(at(9, 9), 12);
    assert_eq!(at(10, 10), 12);
    // outside the frame
    assert_eq!(at(4, 5), 140);
    assert_eq!(at(0, 5), 242);
    assert_eq!(at(2, 2), 222);
    assert_eq!(at(0, 0), 255);
    assert_eq!(at(19, 19), 255);
}

#[test]
fn deep_interior_stays_a_full_radius_inside() {
    let (pixels, padding, size) = field_of(14, 14, &vec![255; 196], 5.0);
    assert_eq!(padding, 5);
    assert_eq!(size, (24, 24));
    let at = |x: usize, y: usize| pixels[y * 24 + x];
    // four pixels from the ring: reached
    assert_eq!(at(9, 9), 12);
    // five and six pixels from the ring: beyond the radius
    assert_eq!(at(10, 10), 0);
    assert_eq!(at(11, 11), 0);
    assert_eq!(at(12, 11), 0);
}

#[test]
fn empty_bitmap_gives_a_uniform_field() {
    let (pixels, padding, size) = field_of(4, 3, &vec![0; 12], 2.5);
    assert_eq!(padding, 3);
    assert_eq!(size, (10, 9));
    assert_eq!(pixels.len(), 90);
    assert!(pixels.iter().all(|&value| value == 255));
}

#[test]
fn canvas_is_padded_by_the_radius_rounded_up() {
    for (radius, padding) in [(0.25, 1), (1.0, 1), (1.5, 2), (2.0, 2), (7.01, 8), (15.0, 15)] {
        let (pixels, got, size) = field_of(3, 2, &vec![0; 6], radius);
        assert_eq!(got, padding);
        assert_eq!(size, (3 + 2 * padding, 2 + 2 * padding));
        assert_eq!(pixels.len() as u32, size.0 * size.1);
    }
}

#[test]
fn single_antialiased_pixel_just_above_half() {
    let (pixels, padding, size) = field_of(1, 1, &vec![128], 2.0);
    assert_eq!(padding, 2);
    assert_eq!(size, (5, 5));
    let at = |x: usize, y: usize| pixels[y * 5 + x];
    assert_eq!(at(2, 2), 127);
    assert_eq!(at(3, 2), 191);
    assert_eq!(at(2, 1), 191);
    assert_eq!(at(3, 3), 217);
    assert_eq!(at(1, 1), 217);
    assert_eq!(at(4, 2), 254);
    assert_eq!(at(2, 0), 254);
    assert_eq!(at(4, 3), 255);
    assert_eq!(at(0, 0), 255);
}

#[test]
fn single_antialiased_pixel_just_below_half() {
    let (pixels, _, _) = field_of(1, 1, &vec![127], 2.0);
    let at = |x: usize, y: usize| pixels[y * 5 + x];
    assert_eq!(at(2, 2), 127);
    assert_eq!(at(3, 2), 191);
    assert_eq!(at(3, 3), 217);
    // two pixels away the distance is 2 + 1/510: at the radius or beyond
    assert_eq!(at(4, 2), 255);
    assert_eq!(at(0, 2), 255);
}

#[test]
fn field_is_the_same_on_every_run() {
    let mut coverage = vec![0u8; 48];
    for (i, value) in coverage.iter_mut().enumerate() {
        *value = match i % 7 {
            0 | 1 => 255,
            2 => 254,
            3 => 90,
            4 => 200,
            _ => 0,
        };
    }
    let first = field_of(8, 6, &coverage, 3.5);
    for _ in 0..5 {
        assert_eq!(field_of(8, 6, &coverage, 3.5), first);
    }
}

#[test]
fn seeds_hold_the_byte_of_their_coverage() {
    // a column of three pixels: filled, antialiased, empty
    let (pixels, padding, size) = field_of(1, 3, &vec![255, 51, 0], 4.0);
    assert_eq!(padding, 4);
    assert_eq!(size, (9, 11));
    let at = |x: usize, y: usize| pixels[y * 9 + x];
    // 0.5 - 255/255 = -0.5: (-0.5 / 8 + 0.5) * 255 = 111.56
    assert_eq!(at(4, 4), 111);
    // 0.5 - 51/255 = 0.3: (0.3 / 8 + 0.5) * 255 = 137.06
    assert_eq!(at(4, 5), 137);
}

#[test]
fn tiny_radius_saturates() {
    let (pixels, padding, size) = field_of(2, 1, &vec![255, 100], 0.001);
    assert_eq!(padding, 1);
    assert_eq!(size, (4, 3));
    let at = |x: usize, y: usize| pixels[y * 4 + x];
    // coverage above half: below minus the radius
    assert_eq!(at(1, 1), 0);
    // coverage below half: above the radius
    assert_eq!(at(2, 1), 255);
    assert_eq!(at(0, 0), 255);
    assert_eq!(at(3, 1), 255);
}

#[test]
fn canvas_must_fit() {
    assert!(canvas_fits((10, 10), &settings(5.0)));
    assert!(!canvas_fits((10, 10), &settings(0.0)));
    assert!(!canvas_fits((10, 10), &settings(-1.0)));
    assert!(!canvas_fits((10, 10), &settings(f32::NAN)));
    assert!(!canvas_fits((10, 10), &settings(f32::INFINITY)));
    assert!(!canvas_fits((10, 10), &settings(3.0e9)));
    assert!(!canvas_fits((u32::MAX, 1), &settings(1.0)));
}
