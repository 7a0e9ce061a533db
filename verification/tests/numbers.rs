use plist::bytes::{minimal_width, push_be, read_be};
use plist::date::{
    checked_timestamp, date_from_timestamp, nearest_double_bits, timestamp_exact,
    timestamp_of_date,
};
use plist::ieee::{narrow, power_of_two, widen};

/// A simple generator of 64-bit patterns, the same on every run.
struct Patterns(u64);

impl Patterns {
    fn next(&mut self) -> u64 {
        self.0 ^= self.0 << 13;
        self.0 ^= self.0 >> 7;
        self.0 ^= self.0 << 17;
        self.0
    }
}

/// What the hardware says of storing a double as a single.
fn narrowed_by_hardware(v: f64) -> Option<u32> {
    let single = v as f32;
    if (single as f64) == v && (v == 0.0 || v.abs() <= f32::MAX as f64) {
        Some(single.to_bits())
    } else {
        None
    }
}

#[test]
fn big_endian_numbers() {
    assert_eq!(read_be(&[1, 2, 3, 4, 5, 6, 7, 8, 9], 1, 8), 0x0203_0405_0607_0809);
    assert_eq!(read_be(&[1, 2, 3], 0, 2), 0x0102);
    assert_eq!(read_be(&[1, 2, 3], 2, 1), 3);
    assert_eq!(read_be(&[1, 2, 3], 3, 0), 0);
    let mut out = vec![0xEE];
    push_be(&mut out, 0x0102_0304_0506_0708, 8);
    push_be(&mut out, 0x0102_0304_0506_0708, 4);
    push_be(&mut out, 0x0102_0304_0506_0708, 2);
    push_be(&mut out, 0x0102_0304_0506_0708, 1);
    assert_eq!(out, vec![0xEE, 1, 2, 3, 4, 5, 6, 7, 8, 5, 6, 7, 8, 7, 8, 8]);
    for width in 1..=8usize {
        let mut out = vec![];
        push_be(&mut out, u64::MAX - 5, width);
        assert_eq!(out.len(), width);
        assert_eq!(out, (u64::MAX - 5).to_be_bytes()[8 - width..].to_vec());
        let kept = if width == 8 { u64::MAX - 5 } else { (u64::MAX - 5) % (1u64 << (8 * width)) };
        assert_eq!(read_be(&out, 0, width), kept);
    }
    assert_eq!(minimal_width(0), 1);
    assert_eq!(minimal_width(0xFF), 1);
    assert_eq!(minimal_width(0x100), 2);
    assert_eq!(minimal_width(0xFFFF), 2);
    assert_eq!(minimal_width(0x1_0000), 4);
    assert_eq!(minimal_width(0xFFFF_FFFF), 4);
    assert_eq!(minimal_width(0x1_0000_0000), 8);
    assert_eq!(minimal_width(u64::MAX), 8);
    assert_eq!(power_of_two(0), 1);
    assert_eq!(power_of_two(63), 1 << 63);
}

#[test]
fn narrowing_of_chosen_doubles() {
    assert_eq!(narrow(1.5f64.to_bits()), Some(1.5f32.to_bits()));
    assert_eq!(narrow(0.1f64.to_bits()), None);
    assert_eq!(narrow(0.0f64.to_bits()), Some(0));
    assert_eq!(narrow((-0.0f64).to_bits()), Some(0x8000_0000));
    assert_eq!(narrow(f64::INFINITY.to_bits()), None);
    assert_eq!(narrow(f64::NEG_INFINITY.to_bits()), None);
    assert_eq!(narrow(f64::NAN.to_bits()), None);
    assert_eq!(narrow((f32::MAX as f64).to_bits()), Some(f32::MAX.to_bits()));
    assert_eq!(narrow((f32::MAX as f64 * 2.0).to_bits()), None);
    assert_eq!(narrow((f32::MIN_POSITIVE as f64).to_bits()), Some(f32::MIN_POSITIVE.to_bits()));
    // the smallest single, and half of it
    assert_eq!(narrow((f32::from_bits(1) as f64).to_bits()), Some(1));
    assert_eq!(narrow((f32::from_bits(1) as f64 / 2.0).to_bits()), None);
    assert_eq!(narrow((f32::from_bits(3) as f64).to_bits()), Some(3));
    assert_eq!(narrow((f32::from_bits(0x007F_FFFF) as f64).to_bits()), Some(0x007F_FFFF));
    assert_eq!(narrow((-(f32::from_bits(0x0040_0001) as f64)).to_bits()), Some(0x8040_0001));
    assert_eq!(narrow(f64::MIN_POSITIVE.to_bits()), None);
    assert_eq!(narrow(1u64), None);
}

#[test]
fn narrowing_agrees_with_the_hardware() {
    let mut patterns = Patterns(0x9E37_79B9_7F4A_7C15);
    for _ in 0..200_000 {
        let bits = patterns.next();
        assert_eq!(narrow(bits), narrowed_by_hardware(f64::from_bits(bits)), "{bits:#x}");
        // doubles that are singles, in every range of the single
        let single = patterns.next() as u32;
        let value = f32::from_bits(single);
        if !value.is_nan() {
            let wide = (value as f64).to_bits();
            assert_eq!(narrow(wide), narrowed_by_hardware(value as f64), "{wide:#x}");
            if value.is_finite() {
                assert_eq!(narrow(wide), Some(single));
            }
            // and their neighbours, which are not
            assert_eq!(narrow(wide + 1), narrowed_by_hardware(f64::from_bits(wide + 1)));
        }
    }
}

#[test]
fn widening_agrees_with_the_hardware() {
    let mut patterns = Patterns(0xD1B5_4A32_D192_ED03);
    let chosen = [0u32, 1, 2, 3, 0x007F_FFFF, 0x0080_0000, 0x3FC0_0000, 0x7F7F_FFFF, 0x7F80_0000,
        0x8000_0000, 0x8000_0001, 0xFF80_0000, 0x0040_0000, 0x0000_8000];
    for single in chosen {
        assert_eq!(widen(single), (f32::from_bits(single) as f64).to_bits(), "{single:#x}");
    }
    for _ in 0..400_000 {
        let single = patterns.next() as u32;
        let value = f32::from_bits(single);
        if value.is_nan() {
            assert!(f64::from_bits(widen(single)).is_nan());
        } else {
            assert_eq!(widen(single), (value as f64).to_bits(), "{single:#x}");
        }
        // the small singles, below the normal range
        let small = single & 0x807F_FFFF;
        assert_eq!(widen(small), (f32::from_bits(small) as f64).to_bits(), "{small:#x}");
    }
    assert_eq!(widen(1.5f32.to_bits()), 1.5f64.to_bits());
}

#[test]
fn dates_of_chosen_timestamps() {
    assert_eq!(date_from_timestamp(978_307_200, 0), 0);
    assert_eq!(date_from_timestamp(978_307_201, 0), 1.0f64.to_bits());
    assert_eq!(date_from_timestamp(978_307_199, 0), (-1.0f64).to_bits());
    assert_eq!(date_from_timestamp(978_307_200, 500_000_000), 0.5f64.to_bits());
    assert_eq!(date_from_timestamp(978_307_199, 750_000_000), (-0.25f64).to_bits());
    assert_eq!(date_from_timestamp(0, 0), (-978_307_200.0f64).to_bits());
    assert_eq!(date_from_timestamp(1_723_861_490, 0), 745_554_290.0f64.to_bits());
    assert_eq!(date_from_timestamp(978_307_200, 1), 1e-9f64.to_bits());
    assert_eq!(date_from_timestamp(978_307_200, 100_000_000), 0.1f64.to_bits());
    assert_eq!(date_from_timestamp(978_307_203, 141_592_653), 3.141592653f64.to_bits());
    assert_eq!(date_from_timestamp(i64::MAX, 0), ((i64::MAX as i128 - 978_307_200) as f64).to_bits());
    assert_eq!(date_from_timestamp(i64::MIN, 0), ((i64::MIN as i128 - 978_307_200) as f64).to_bits());
    assert_eq!(
        date_from_timestamp(i64::MIN, u32::MAX),
        (-9_223_372_037_833_082_999.705_032_705_f64).to_bits()
    );
}

#[test]
fn dates_of_whole_seconds_are_rounded_as_the_hardware_rounds() {
    let mut patterns = Patterns(0xA076_1D64_78BD_642F);
    for _ in 0..200_000 {
        let secs = patterns.next() as i64;
        let apart = secs as i128 - 978_307_200;
        assert_eq!(date_from_timestamp(secs, 0), (apart as f64).to_bits(), "{secs}");
        let near = secs >> (patterns.next() % 64);
        let apart = near as i128 - 978_307_200;
        assert_eq!(date_from_timestamp(near, 0), (apart as f64).to_bits(), "{near}");
    }
    // ties go to the even neighbour
    let tie = (1i64 << 53) + 1 + 978_307_200;
    assert_eq!(date_from_timestamp(tie, 0), ((1u64 << 53) as f64).to_bits());
    let tie = (1i64 << 53) + 3 + 978_307_200;
    assert_eq!(date_from_timestamp(tie, 0), (((1u64 << 53) + 4) as f64).to_bits());
}

#[test]
fn dates_with_nanoseconds_are_the_nearest_doubles() {
    // near the reference epoch the count of nanoseconds is a double, and
    // the hardware's quotient of two doubles is correctly rounded
    let mut patterns = Patterns(0xE703_7ED1_A0B4_28DB);
    for _ in 0..200_000 {
        let apart = (patterns.next() % 18_000_000) as i64 - 9_000_000;
        let nanos = (patterns.next() % 1_000_000_000) as u32;
        let count = apart as i128 * 1_000_000_000 + nanos as i128;
        assert!(count.unsigned_abs() < 1 << 53);
        let expected = if count == 0 { 0.0 } else { count as f64 / 1e9 };
        assert_eq!(date_from_timestamp(978_307_200 + apart, nanos), expected.to_bits());
    }
    assert_eq!(nearest_double_bits(0, 1, 3), (1.0f64 / 3.0).to_bits());
    assert_eq!(nearest_double_bits(1, 2, 3), (-2.0f64 / 3.0).to_bits());
    assert_eq!(nearest_double_bits(0, 1 << 60, 1), ((1u64 << 60) as f64).to_bits());
    assert_eq!(nearest_double_bits(0, 10, 4), 2.5f64.to_bits());
}

#[test]
fn timestamps_of_chosen_dates() {
    assert_eq!(timestamp_exact(0), Some((978_307_200, 0)));
    assert_eq!(timestamp_exact((-0.0f64).to_bits()), Some((978_307_200, 0)));
    assert_eq!(timestamp_exact(1.0f64.to_bits()), Some((978_307_201, 0)));
    assert_eq!(timestamp_exact(0.5f64.to_bits()), Some((978_307_200, 500_000_000)));
    assert_eq!(timestamp_exact((-0.5f64).to_bits()), Some((978_307_199, 500_000_000)));
    assert_eq!(timestamp_exact((-0.25f64).to_bits()), Some((978_307_199, 750_000_000)));
    assert_eq!(timestamp_exact((-978_307_200.0f64).to_bits()), Some((0, 0)));
    assert_eq!(timestamp_exact((-978_307_200.5f64).to_bits()), Some((-1, 500_000_000)));
    assert_eq!(timestamp_exact(745_554_290.0f64.to_bits()), Some((1_723_861_490, 0)));
    // rounded down to the nanosecond
    assert_eq!(timestamp_exact(0.1f64.to_bits()), Some((978_307_200, 100_000_000)));
    assert_eq!(timestamp_exact(0.3f64.to_bits()), Some((978_307_200, 299_999_999)));
    assert_eq!(timestamp_exact((-1e-30f64).to_bits()), Some((978_307_199, 999_999_999)));
    assert_eq!(timestamp_exact(1e-30f64.to_bits()), Some((978_307_200, 0)));
    assert_eq!(timestamp_exact(1u64), Some((978_307_200, 0)));
    assert_eq!(timestamp_exact(0x8000_0000_0000_0001), Some((978_307_199, 999_999_999)));
    // the largest and the smallest seconds that fit
    assert_eq!(timestamp_exact(9.2e18f64.to_bits()), Some((9_200_000_000_978_307_200, 0)));
    assert_eq!(timestamp_exact(9.3e18f64.to_bits()), None);
    assert_eq!(
        timestamp_exact((-9_223_372_036_854_775_808.0f64).to_bits()),
        Some((i64::MIN + 978_307_200, 0))
    );
    assert_eq!(timestamp_exact((-9.3e18f64).to_bits()), None);
    assert_eq!(timestamp_exact(1e300f64.to_bits()), None);
    assert_eq!(timestamp_exact(f64::NAN.to_bits()), None);
    assert_eq!(timestamp_exact(f64::INFINITY.to_bits()), None);
    assert_eq!(timestamp_exact(f64::NEG_INFINITY.to_bits()), None);
}

#[test]
fn timestamps_agree_with_the_hardware_where_it_is_exact() {
    // doubles with twenty bits below the point, small enough for the sum
    // with the epoch to be exact
    let mut patterns = Patterns(0x8EBC_6AF0_9C88_C6E3);
    for _ in 0..200_000 {
        let count = (patterns.next() % (1 << 50)) as i64 - (1 << 49);
        let value = count as f64 / 1_048_576.0;
        let unix = value + 978_307_200.0;
        let secs = unix.floor();
        let nanos = ((unix - secs) * 1e9).floor();
        assert_eq!(timestamp_exact(value.to_bits()), Some((secs as i64, nanos as u32)), "{value}");
    }
}

#[test]
fn whole_seconds_come_back() {
    let mut patterns = Patterns(0x5895_65E8_7D3A_A1F1);
    for _ in 0..200_000 {
        let apart = (patterns.next() >> 10) as i64 - (1 << 53);
        let secs = apart + 978_307_200;
        assert_eq!(timestamp_exact(date_from_timestamp(secs, 0)), Some((secs, 0)));
    }
    for secs in [978_307_200 + (1i64 << 53), 978_307_200 - (1i64 << 53), 0, -1, 1] {
        assert_eq!(timestamp_exact(date_from_timestamp(secs, 0)), Some((secs, 0)));
    }
}

#[test]
fn instants_are_what_chrono_has() {
    assert_eq!(timestamp_of_date(0), Some((978_307_200, 0)));
    assert_eq!(timestamp_of_date(0.5f64.to_bits()), Some((978_307_200, 500_000_000)));
    assert_eq!(timestamp_of_date(f64::NAN.to_bits()), None);
    assert_eq!(timestamp_of_date(9.3e18f64.to_bits()), None);
    // seconds that fit 64 bits and no calendar
    assert_eq!(timestamp_exact(1e18f64.to_bits()), Some((1_000_000_000_978_307_200, 0)));
    assert_eq!(timestamp_of_date(1e18f64.to_bits()), None);
    assert_eq!(timestamp_of_date((-1e18f64).to_bits()), None);
    // the years that chrono still has
    let last = chrono::DateTime::<chrono::Utc>::MAX_UTC;
    let bits = date_from_timestamp(last.timestamp(), 0);
    assert_eq!(timestamp_of_date(bits), timestamp_exact(bits));
    let first = chrono::DateTime::<chrono::Utc>::MIN_UTC;
    let bits = date_from_timestamp(first.timestamp(), 0);
    assert_eq!(timestamp_of_date(bits), timestamp_exact(bits));
    assert!(timestamp_of_date(bits).is_some());
    assert_eq!(checked_timestamp(Some((1, 2)), true), Some((1, 2)));
    assert_eq!(checked_timestamp(Some((1, 2)), false), None);
    assert_eq!(checked_timestamp(None, true), None);
}
