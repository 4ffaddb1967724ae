use lib::checksum::{Adler32, RollingChecksum};
use lib::text::{decimal_string, format_byte_count};

/// The byte count as floating-point formatting renders it.
fn float_rendering(n: u64) -> String {
    if n >= 1024 * 1024 * 1024 {
        format!("{:.2} GiB", n as f64 / (1024.0 * 1024.0 * 1024.0))
    } else if n >= 1024 * 1024 {
        format!("{:.2} MiB", n as f64 / (1024.0 * 1024.0))
    } else if n >= 1024 {
        format!("{:.2} KiB", n as f64 / 1024.0)
    } else {
        format!("{} B", n)
    }
}

#[test]
fn adler32_rolls_over_any_split() {
    let mut whole = Adler32::new();
    whole.update(b"Wikipedia");
    let mut parts = Adler32::new();
    parts.update(b"Wiki");
    parts.update(b"");
    parts.update(b"pedia");
    assert_eq!(whole.value(), parts.value());
    assert_eq!(parts.value(), 0x11E60398);
}

#[test]
fn adler32_low_half_is_byte_sum_mod_65536() {
    let data = vec![0xFFu8; 1000];
    let mut c = Adler32::new();
    c.update(&data);
    let expected_a = ((1u64 + 255 * 1000) % 65536) as u32;
    assert_eq!(c.value() & 0xFFFF, expected_a);
    // high half: sum of the running low sums, modulo 65536
    let mut b: u64 = 0;
    for k in 1..=1000u64 {
        b += (1 + 255 * k) % 65536;
    }
    assert_eq!(c.value() >> 16, (b % 65536) as u32);
}

#[test]
fn adler32_update_on_fresh_state_wraps() {
    let mut c = Adler32 { a: 0xFFFF, b: 0xFFFF };
    c.update(&[2]);
    assert_eq!(c.a, 1);
    assert_eq!(c.b, 0);
}

#[test]
fn decimal_text_examples() {
    assert_eq!(decimal_string(0), "0");
    assert_eq!(decimal_string(7), "7");
    assert_eq!(decimal_string(2077), "2077");
    assert_eq!(decimal_string(u64::MAX), "18446744073709551615");
}

#[test]
fn byte_count_examples() {
    assert_eq!(format_byte_count(0), "0 B");
    assert_eq!(format_byte_count(1023), "1023 B");
    assert_eq!(format_byte_count(1024), "1.00 KiB");
    assert_eq!(format_byte_count(1536), "1.50 KiB");
    assert_eq!(format_byte_count(32 * 1024 * 1024), "32.00 MiB");
    assert_eq!(format_byte_count(1024 * 1024 * 1024), "1.00 GiB");
    // 1.125 KiB: a tie, rounded to the even hundredth
    assert_eq!(format_byte_count(1152), "1.12 KiB");
    // 1.375 KiB: a tie, rounded up to the even hundredth
    assert_eq!(format_byte_count(1408), "1.38 KiB");
    assert_eq!(format_byte_count(u64::MAX), "17179869184.00 GiB");
}

#[test]
fn byte_count_agrees_with_float_rendering() {
    let mut samples: Vec<u64> = vec![
        0, 1, 9, 10, 99, 100, 1000, 1023, 1024, 1025, 1029, 1030, 1152, 1408, 2047, 2048,
        1024 * 1024 - 1, 1024 * 1024, 1024 * 1024 + 5243, 1024 * 1024 * 1024 - 1,
        1024 * 1024 * 1024, (1 << 53) - 1, 1 << 53, (1 << 53) + 1, (1 << 53) + 3,
        (1 << 54) + 2, (1 << 54) + 6, u64::MAX - 1, u64::MAX, 1 << 63, (1 << 63) + 1024,
    ];
    // ties at each unit: k + 1/8, k + 3/8, k + 5/8, k + 7/8 of a unit
    for unit in [1u64 << 10, 1 << 20, 1 << 30] {
        for k in 1..40u64 {
            for eighth in [1u64, 3, 5, 7] {
                samples.push(k * unit + eighth * unit / 8);
            }
        }
    }
    let mut x: u64 = 0x9E37_79B9_7F4A_7C15;
    for _ in 0..20000 {
        x ^= x << 13;
        x ^= x >> 7;
        x ^= x << 17;
        samples.push(x);
        samples.push(x >> (x % 64));
    }
    for n in samples {
        assert_eq!(format_byte_count(n), float_rendering(n), "n = {}", n);
    }
}

#[test]
fn adler32_high_sum_closed_form() {
    // b' = b + len * a + sum of (len - i) * data[i], modulo 65536
    let data: Vec<u8> = (0..300u32).map(|x| (x * 37 + 11) as u8).collect();
    let mut c = Adler32 { a: 1234, b: 60000 };
    c.update(&data);
    let len = data.len() as u64;
    let s: u64 = data.iter().map(|&x| x as u64).sum();
    let w: u64 = data.iter().enumerate().map(|(i, &x)| (len - i as u64) * x as u64).sum();
    assert_eq!(c.a as u64, (1234 + s) % 65536);
    assert_eq!(c.b as u64, (60000 + len * 1234 + w) % 65536);
}
