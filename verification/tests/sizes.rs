use nxdl::numerals::{decimal_text, hex_byte_text, hex_word_text, signed_decimal_text};
use nxdl::sizes::{format_bytes, gib_size, human_size};

fn human_by_float(bytes: u64) -> String {
    const UNITS: &[&str] = &["B", "KiB", "MiB", "GiB", "TiB"];
    let mut size = bytes as f64;
    let mut unit_idx = 0;
    while size >= 1024.0 && unit_idx < UNITS.len() - 1 {
        size /= 1024.0;
        unit_idx += 1;
    }
    format!("{size:.1} {}", UNITS[unit_idx])
}

fn gib_by_float(bytes: u64) -> String {
    format!("{:.2}", bytes as f64 / (1024.0 * 1024.0 * 1024.0))
}

fn grouped_by_chars(bytes: u64) -> String {
    let s = bytes.to_string();
    let mut out = String::new();
    for (i, c) in s.chars().enumerate() {
        if i > 0 && (s.len() - i) % 3 == 0 {
            out.push(',');
        }
        out.push(c);
    }
    out
}

/// Numbers of every size, with those next to powers of two and halves of units.
fn samples() -> Vec<u64> {
    let mut all: Vec<u64> = (0..5000).collect();
    for k in 0..64u32 {
        let p = 1u64 << k;
        for d in 0..40u64 {
            all.push(p.wrapping_add(d));
            all.push(p.wrapping_sub(d));
            all.push(p.wrapping_add(p / 20 * d));
            all.push(p.wrapping_add(p / 40 * d));
        }
    }
    let mut x: u64 = 0x9E37_79B9_7F4A_7C15;
    for _ in 0..20000 {
        x ^= x << 13;
        x ^= x >> 7;
        x ^= x << 17;
        all.push(x);
        all.push(x >> (x % 60));
    }
    all
}

#[test]
fn sizes_read_as_floats_would_print_them() {
    for n in samples() {
        assert_eq!(human_size(n), human_by_float(n), "{n}");
        assert_eq!(gib_size(n), gib_by_float(n), "{n}");
        assert_eq!(format_bytes(n), grouped_by_chars(n), "{n}");
    }
}

#[test]
fn sizes_have_known_texts() {
    assert_eq!(human_size(0), "0.0 B");
    assert_eq!(human_size(1023), "1023.0 B");
    assert_eq!(human_size(1536), "1.5 KiB");
    assert_eq!(human_size(1610612736), "1.5 GiB");
    assert_eq!(human_size(u64::MAX), "16777216.0 TiB");
    assert_eq!(gib_size(1610612736), "1.50");
    assert_eq!(gib_size(0), "0.00");
    assert_eq!(format_bytes(21676736368), "21,676,736,368");
    assert_eq!(format_bytes(999), "999");
    assert_eq!(format_bytes(1000), "1,000");
    assert_eq!(format_bytes(0), "0");
}

#[test]
fn grouping_only_adds_commas() {
    for n in samples() {
        assert_eq!(format_bytes(n).replace(',', ""), n.to_string());
    }
}

#[test]
fn numbers_are_written_as_std_writes_them() {
    for n in [0u64, 9, 10, 99, 100, 12345, u64::MAX] {
        assert_eq!(decimal_text(n), n.to_string());
    }
    for n in [0i16, -1, 7, -10, 1999, i16::MIN, i16::MAX] {
        assert_eq!(signed_decimal_text(n), n.to_string());
    }
    for b in 0..=255u8 {
        assert_eq!(hex_byte_text(b), format!("{b:#04x}"));
    }
    for w in [0u16, 0x7D, 0xABCD, 0x0100, u16::MAX] {
        assert_eq!(hex_word_text(w), format!("{w:#06X}"));
    }
}
