//! What holds of every cube root, tried on concrete values.

use integer_cbrt::IntegerCubeRoot;

/// `r` is the floor cube root of `v`, computed wide enough not to overflow
/// for any `v` below 2^64.
fn is_floor_root(v: u128, r: u128) -> bool {
    r * r * r <= v && v < (r + 1) * (r + 1) * (r + 1)
}

#[test]
fn every_u8_has_its_floor_root() {
    for v in 0..=u8::MAX {
        let r: u8 = v.integer_cbrt();
        assert!(is_floor_root(v as u128, r as u128), "in {}", v);
        assert_eq!(v.integer_cbrt_checked(), Some(r));
    }
}

#[test]
fn every_i8_has_its_floor_root_or_none() {
    for v in i8::MIN..=i8::MAX {
        let r: Option<i8> = v.integer_cbrt_checked();
        if v < 0 {
            assert_eq!(r, None, "in {}", v);
        } else {
            let r: i8 = r.expect("a root for a value that is not negative");
            assert!(r >= 0);
            assert!(is_floor_root(v as u128, r as u128), "in {}", v);
        }
    }
}

#[test]
fn every_u16_has_its_floor_root() {
    for v in 0..=u16::MAX {
        let r: u16 = v.integer_cbrt();
        assert!(is_floor_root(v as u128, r as u128), "in {}", v);
    }
}

#[test]
fn every_i16_has_its_floor_root_or_none() {
    for v in i16::MIN..=i16::MAX {
        let r: Option<i16> = v.integer_cbrt_checked();
        if v < 0 {
            assert_eq!(r, None, "in {}", v);
        } else {
            let r: i16 = r.expect("a root for a value that is not negative");
            assert!(is_floor_root(v as u128, r as u128), "in {}", v);
        }
    }
}

#[test]
fn u32_roots_around_every_cube() {
    for k in 1u32..=1625 {
        let cube: u32 = k * k * k;
        assert_eq!(cube.integer_cbrt(), k);
        assert_eq!((cube - 1).integer_cbrt(), k - 1);
        assert_eq!(cube.checked_add(1).unwrap_or(cube).integer_cbrt(), k);
    }
}

#[test]
fn u64_roots_around_sampled_cubes() {
    let mut k: u64 = 1;
    while k <= 2_642_245 {
        let cube: u64 = k * k * k;
        assert_eq!(cube.integer_cbrt(), k);
        assert_eq!((cube - 1).integer_cbrt(), k - 1);
        assert_eq!((cube as i128).integer_cbrt(), k as i128);
        k += 997;
    }
    let top: u64 = 2_642_245;
    assert_eq!((top * top * top).integer_cbrt(), top);
    assert_eq!((top * top * top - 1).integer_cbrt(), top - 1);
}

#[test]
fn u128_roots_around_sampled_cubes() {
    let mut k: u128 = 1;
    while k <= 6_981_463_658_331 {
        let cube: u128 = k * k * k;
        assert_eq!(cube.integer_cbrt(), k);
        assert_eq!((cube - 1).integer_cbrt(), k - 1);
        k = k * 3 + 1;
    }
    let top: u128 = 6_981_463_658_331;
    assert_eq!((top * top * top).integer_cbrt(), top);
    assert_eq!((top * top * top - 1).integer_cbrt(), top - 1);
    assert!(top.checked_mul(top).and_then(|sq| sq.checked_mul(top)).is_some());
    assert!((top + 1).checked_mul(top + 1).and_then(|sq| sq.checked_mul(top + 1)).is_none());
}

#[test]
fn negative_values_have_no_root() {
    assert_eq!((-1i8).integer_cbrt_checked(), None);
    assert_eq!(i8::MIN.integer_cbrt_checked(), None);
    assert_eq!((-8i16).integer_cbrt_checked(), None);
    assert_eq!(i16::MIN.integer_cbrt_checked(), None);
    assert_eq!((-27i32).integer_cbrt_checked(), None);
    assert_eq!(i32::MIN.integer_cbrt_checked(), None);
    assert_eq!((-64i64).integer_cbrt_checked(), None);
    assert_eq!(i64::MIN.integer_cbrt_checked(), None);
    assert_eq!((-125i128).integer_cbrt_checked(), None);
    assert_eq!(i128::MIN.integer_cbrt_checked(), None);
    assert_eq!((-1isize).integer_cbrt_checked(), None);
    assert_eq!(isize::MIN.integer_cbrt_checked(), None);
}

#[test]
fn zero_has_root_zero_in_every_type() {
    assert_eq!(0u8.integer_cbrt(), 0);
    assert_eq!(0u16.integer_cbrt(), 0);
    assert_eq!(0u32.integer_cbrt(), 0);
    assert_eq!(0u64.integer_cbrt(), 0);
    assert_eq!(0u128.integer_cbrt(), 0);
    assert_eq!(0usize.integer_cbrt(), 0);
    assert_eq!(0i8.integer_cbrt(), 0);
    assert_eq!(0i16.integer_cbrt(), 0);
    assert_eq!(0i32.integer_cbrt(), 0);
    assert_eq!(0i64.integer_cbrt(), 0);
    assert_eq!(0i128.integer_cbrt(), 0);
    assert_eq!(0isize.integer_cbrt(), 0);
    assert_eq!(0u64.integer_cbrt_checked(), Some(0));
    assert_eq!(0i64.integer_cbrt_checked(), Some(0));
}

#[test]
fn roots_do_not_decrease() {
    let inputs: [u64; 12] = [
        0,
        1,
        7,
        8,
        26,
        27,
        511,
        512,
        999_999_999_999_999,
        1_000_000_000_000_000,
        u64::MAX - 1,
        u64::MAX,
    ];
    let mut last: u64 = 0;
    for &v in inputs.iter() {
        let r: u64 = v.integer_cbrt();
        assert!(last <= r, "in {}", v);
        last = r;
    }
    let mut last: u16 = 0;
    for v in 0..=u16::MAX {
        let r: u16 = v.integer_cbrt();
        assert!(last <= r && r <= last + 1, "in {}", v);
        last = r;
    }
}

#[test]
fn largest_value_of_each_type() {
    assert_eq!(u8::MAX.integer_cbrt(), 6);
    assert_eq!(i8::MAX.integer_cbrt(), 5);
    assert_eq!(u16::MAX.integer_cbrt(), 40);
    assert_eq!(i16::MAX.integer_cbrt(), 31);
    assert_eq!(u32::MAX.integer_cbrt(), 1625);
    assert_eq!(i32::MAX.integer_cbrt(), 1290);
    assert_eq!(u64::MAX.integer_cbrt(), 2_642_245);
    assert_eq!(i64::MAX.integer_cbrt(), 2_097_151);
    assert_eq!(u128::MAX.integer_cbrt(), 6_981_463_658_331);
    assert_eq!(i128::MAX.integer_cbrt(), 5_541_191_377_756);
    let r64: u64 = u64::MAX.integer_cbrt();
    assert!(r64.checked_mul(r64 * r64).is_some());
    assert!((r64 + 1).checked_mul((r64 + 1) * (r64 + 1)).is_none());
    let r32: u32 = u32::MAX.integer_cbrt();
    assert!(r32.checked_mul(r32 * r32).is_some());
    assert!((r32 + 1).checked_mul((r32 + 1) * (r32 + 1)).is_none());
    let r8: i8 = i8::MAX.integer_cbrt();
    assert!(r8.checked_mul(r8 * r8).is_some());
    assert!((r8 + 1).checked_mul((r8 + 1) * (r8 + 1)).is_none());
}

#[test]
fn small_scenarios() {
    assert_eq!(0u32.integer_cbrt(), 0);
    assert_eq!(1u32.integer_cbrt(), 1);
    assert_eq!(8u32.integer_cbrt(), 2);
    assert_eq!(63u32.integer_cbrt(), 3);
    assert_eq!(64u32.integer_cbrt(), 4);
    assert_eq!(511u32.integer_cbrt(), 7);
    assert_eq!(512u32.integer_cbrt(), 8);
    assert_eq!(8u8.integer_cbrt(), 2);
    assert_eq!(63i8.integer_cbrt(), 3);
    assert_eq!(511i16.integer_cbrt(), 7);
}

#[test]
fn icbrt_u64_small() {
    assert_eq!(511u64.integer_cbrt_checked(), Some(7));
}

#[test]
fn icbrt_u64_med() {
    assert_eq!(1_000_000_000_000_000u64.integer_cbrt_checked(), Some(100_000));
}

#[test]
fn icbrt_u64_large() {
    assert_eq!(u64::MAX.integer_cbrt_checked(), Some(2_642_245));
}

#[test]
fn icbrt_u128_small() {
    assert_eq!(511u128.integer_cbrt_checked(), Some(7));
}

#[test]
fn icbrt_u128_med() {
    assert_eq!(1_000_000_000_000_000u128.integer_cbrt_checked(), Some(100_000));
}

#[test]
fn icbrt_u128_large() {
    assert_eq!(u128::MAX.integer_cbrt_checked(), Some(6_981_463_658_331));
}

#[test]
fn pointer_sized_matches_its_width() {
    let inputs: [usize; 6] = [0, 26, 27, 1_000_000, usize::MAX - 1, usize::MAX];
    for &v in inputs.iter() {
        assert_eq!(v.integer_cbrt() as u128, (v as u128).integer_cbrt(), "in {}", v);
    }
    let inputs: [isize; 5] = [0, 26, 27, isize::MAX - 1, isize::MAX];
    for &v in inputs.iter() {
        assert_eq!(v.integer_cbrt() as i128, (v as i128).integer_cbrt(), "in {}", v);
    }
}
