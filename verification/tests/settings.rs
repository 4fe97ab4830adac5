use kaku::settings::{power_of_two, SdfSettings};

fn settings(radius: f32) -> SdfSettings {
    SdfSettings { radius_bits: radius.to_bits() }
}

#[test]
fn radius_must_be_a_number_above_zero() {
    assert!(settings(1.0).check());
    assert!(settings(0.001).check());
    assert!(settings(1.0e-40).check());
    assert!(settings(f32::MAX).check());
    assert!(settings(f32::INFINITY).check());
    assert!(!settings(0.0).check());
    assert!(!settings(-0.0).check());
    assert!(!settings(-1.0).check());
    assert!(!settings(f32::NEG_INFINITY).check());
    assert!(!settings(f32::NAN).check());
    assert!(!SdfSettings { radius_bits: 0x7FC0_0001 }.check());
    assert!(!SdfSettings { radius_bits: 0xFFFF_FFFF }.check());
}

#[test]
fn padding_is_the_radius_rounded_up() {
    assert_eq!(settings(5.0).padding(), 5);
    assert_eq!(settings(2.5).padding(), 3);
    assert_eq!(settings(3.5).padding(), 4);
    assert_eq!(settings(7.01).padding(), 8);
    assert_eq!(settings(15.0).padding(), 15);
    assert_eq!(settings(0.1).padding(), 1);
    assert_eq!(settings(0.25).padding(), 1);
    assert_eq!(settings(1.0).padding(), 1);
    assert_eq!(settings(1.0000001).padding(), 2);
    assert_eq!(settings(1.0e-40).padding(), 1);
    assert_eq!(settings(16777216.0).padding(), 16777216);
    assert_eq!(settings(4294967040.0).padding(), 4294967040);
}

#[test]
fn padding_of_a_huge_radius_is_the_largest_number() {
    assert_eq!(settings(4294967296.0).padding(), u32::MAX);
    assert_eq!(settings(1.0e30).padding(), u32::MAX);
    assert_eq!(settings(f32::INFINITY).padding(), u32::MAX);
}

#[test]
fn padding_agrees_with_the_ceiling() {
    let mut bits: u32 = 0x3000_0000;
    while bits < 0x4F00_0000 {
        let radius = f32::from_bits(bits);
        assert_eq!(SdfSettings { radius_bits: bits }.padding(), radius.ceil() as u32);
        bits += 0x0003_1337;
    }
}

#[test]
fn radius_is_read_as_a_fraction() {
    let five = settings(5.0).parts();
    assert_eq!((five.num, five.log_den), (10485760, 21));
    let tenth = settings(0.1).parts();
    assert_eq!((tenth.num, tenth.log_den), (13421773, 27));
    let tiny = settings(1.0e-40).parts();
    assert_eq!((tiny.num, tiny.log_den), (71362, 149));
    let large = settings(4294967040.0).parts();
    assert_eq!((large.num, large.log_den), (4294967040, 0));
    let whole = settings(16777216.0).parts();
    assert_eq!((whole.num, whole.log_den), (16777216, 0));
    let odd = settings(8388609.0).parts();
    assert_eq!((odd.num, odd.log_den), (8388609, 0));
}

#[test]
fn powers_of_two() {
    assert_eq!(power_of_two(0), 1);
    assert_eq!(power_of_two(1), 2);
    assert_eq!(power_of_two(21), 2097152);
    assert_eq!(power_of_two(63), 1 << 63);
}
