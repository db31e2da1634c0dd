use redface::rounding::{bit_width, floor_limited, magnitude, saturate, MAGNITUDE_LIMIT};
use redface::single::multiply_truncated;

#[test]
fn bit_widths() {
    assert_eq!(bit_width(0), 0);
    assert_eq!(bit_width(1), 1);
    assert_eq!(bit_width(2), 2);
    assert_eq!(bit_width(3), 2);
    assert_eq!(bit_width(255), 8);
    assert_eq!(bit_width(256), 9);
    assert_eq!(bit_width(u128::MAX), 128);
    for k in 0..128u32 {
        assert_eq!(bit_width(1u128 << k), k + 1);
        assert_eq!(bit_width((1u128 << k) - 1), k);
    }
}

#[test]
fn floors_of_scaled_numbers() {
    assert_eq!(MAGNITUDE_LIMIT, 1 << 31);
    assert_eq!(floor_limited(5, 0), 5);
    assert_eq!(floor_limited(5, 3), 40);
    assert_eq!(floor_limited(5, -1), 2);
    assert_eq!(floor_limited(5, -2), 1);
    assert_eq!(floor_limited(5, -3), 0);
    assert_eq!(floor_limited(0, 1000), 0);
    assert_eq!(floor_limited(0, -1000), 0);
    assert_eq!(floor_limited(1, 30), 1 << 30);
    assert_eq!(floor_limited(1, 31), MAGNITUDE_LIMIT);
    assert_eq!(floor_limited(1, i32::MAX), MAGNITUDE_LIMIT);
    assert_eq!(floor_limited(u128::MAX, 0), MAGNITUDE_LIMIT);
    assert_eq!(floor_limited(u128::MAX, -96), MAGNITUDE_LIMIT);
    assert_eq!(floor_limited(u128::MAX, -97), MAGNITUDE_LIMIT - 1);
    assert_eq!(floor_limited(u128::MAX, -127), 1);
    assert_eq!(floor_limited(u128::MAX, -128), 0);
    assert_eq!(floor_limited(u128::MAX, i32::MIN), 0);
    assert_eq!(floor_limited((1 << 31) - 1, 0), (1 << 31) - 1);
}

#[test]
fn saturation_to_32_bits() {
    assert_eq!(saturate(false, 0), 0);
    assert_eq!(saturate(true, 0), 0);
    assert_eq!(saturate(false, 7), 7);
    assert_eq!(saturate(true, 7), -7);
    assert_eq!(saturate(false, 0x7fff_fffe), 0x7fff_fffe);
    assert_eq!(saturate(false, 0x7fff_ffff), i32::MAX);
    assert_eq!(saturate(false, 0x8000_0000), i32::MAX);
    assert_eq!(saturate(false, u64::MAX), i32::MAX);
    assert_eq!(saturate(true, 0x7fff_ffff), -0x7fff_ffff);
    assert_eq!(saturate(true, 0x8000_0000), i32::MIN);
    assert_eq!(saturate(true, u64::MAX), i32::MIN);
}

#[test]
fn magnitudes() {
    assert_eq!(magnitude(0), 0);
    assert_eq!(magnitude(5), 5);
    assert_eq!(magnitude(-5), 5);
    assert_eq!(magnitude(i32::MAX), 0x7fff_ffff);
    assert_eq!(magnitude(i32::MIN), 0x8000_0000);
}

#[test]
fn products_with_unpacked_factors() {
    // 640 * (2^23 * 2^-24), 640 * 3 * 2^-1, and a significand wider than a number holds
    assert_eq!(multiply_truncated(640, false, 0x80_0000, -24), 320);
    assert_eq!(multiply_truncated(640, true, 0x80_0000, -24), -320);
    assert_eq!(multiply_truncated(-640, true, 0x80_0000, -24), 320);
    assert_eq!(multiply_truncated(7, false, 3, -1), 10);
    assert_eq!(multiply_truncated(7, false, 3, 0), 21);
    assert_eq!(multiply_truncated(1, false, u32::MAX, 0), i32::MAX);
    assert_eq!(multiply_truncated(1, false, u32::MAX, -1), i32::MAX);
    assert_eq!(multiply_truncated(1, false, u32::MAX, -2), 0x4000_0000);
    assert_eq!(multiply_truncated(1, true, u32::MAX, -1), i32::MIN);
    assert_eq!(multiply_truncated(0x1000_0001, false, 1, 0), 0x1000_0000);
    assert_eq!(multiply_truncated(0x1000_0011, false, 1, 0), 0x1000_0020);
    // halfway between two neighbours the even one is taken
    assert_eq!(multiply_truncated(0x1000_0010, false, 1, 0), 0x1000_0000);
    assert_eq!(multiply_truncated(0x1000_0030, false, 1, 0), 0x1000_0040);
    assert_eq!(multiply_truncated(5, false, 1, i32::MAX), i32::MAX);
    assert_eq!(multiply_truncated(5, false, 1, i32::MIN), 0);
    assert_eq!(multiply_truncated(0, false, 1, i32::MAX), 0);
}
