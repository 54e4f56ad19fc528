use nxdl::diff::{apply_diff, read_le_n, DiffError, DiffField, ReadError};

#[test]
fn numbers_of_each_width_are_read() {
    let data = [1u8, 2, 3, 4, 5];
    assert_eq!(read_le_n(&data, 4, 1), Ok(5));
    assert_eq!(read_le_n(&data, 3, 2), Ok(0x0504));
    assert_eq!(read_le_n(&data, 1, 4), Ok(0x05040302));
    let cases = [
        (5usize, 1usize, "diff: read 1 byte at offset 5 out of bounds (len 5)"),
        (4, 2, "diff: read 2 bytes at offset 4 out of bounds (len 5)"),
        (2, 4, "diff: read 4 bytes at offset 2 out of bounds (len 5)"),
        (0, 3, "diff: unsupported byte-width 3"),
    ];
    for (offset, width, words) in cases {
        assert_eq!(read_le_n(&data, offset, width).unwrap_err().message(), words);
    }
    assert_eq!(
        read_le_n(&data, 0, 0),
        Err(ReadError::UnsupportedWidth { width: 0 })
    );
}

/// A command with fields of the given widths.
fn command(source: u8, position: u32, wide_position: u8, len: u32, wide_len: u8) -> Vec<u8> {
    let mut out = vec![source << 6 | wide_position << 4 | wide_len << 2];
    out.extend_from_slice(&position.to_le_bytes()[..1 << wide_position]);
    out.extend_from_slice(&len.to_le_bytes()[..1 << wide_len]);
    out
}

#[test]
fn an_empty_diff_makes_an_empty_file() {
    assert_eq!(apply_diff(&[], b"old"), Ok(vec![]));
}

#[test]
fn commands_copy_from_either_source() {
    let old = b"0123456789";
    for wp in 0..3u8 {
        for wl in 0..3u8 {
            let mut diff = command(0, 2, wp, 3, wl);
            diff.extend(command(1, 3, wp, 4, wl));
            diff.extend_from_slice(b"new!");
            diff.extend(command(0, 9, wp, 1, wl));
            diff.extend(command(0, 10, wp, 0, wl));
            assert_eq!(apply_diff(&diff, old), Ok(b"234new!9".to_vec()));
        }
    }
}

#[test]
fn unused_bits_are_not_looked_at() {
    assert_eq!(apply_diff(&[0x43, 200, 1, 7], b""), Ok(vec![7]));
}

#[test]
fn joined_diffs_make_joined_files() {
    let old = b"abcdef";
    let mut a = command(1, 0, 0, 2, 1);
    a.extend_from_slice(b"xy");
    let b = command(0, 1, 2, 3, 0);
    let mut both = a.clone();
    both.extend_from_slice(&b);
    let mut meant = apply_diff(&a, old).unwrap();
    meant.extend(apply_diff(&b, old).unwrap());
    assert_eq!(apply_diff(&both, old), Ok(meant));
}

#[test]
fn a_new_file_needs_no_old_one() {
    let mut diff = command(1, 0, 0, 3, 0);
    diff.extend_from_slice(b"new");
    assert_eq!(apply_diff(&diff, b""), Ok(b"new".to_vec()));
    assert_eq!(apply_diff(&diff, b"anything"), Ok(b"new".to_vec()));
}

#[test]
fn broken_diffs_are_explained() {
    let old = b"0123";
    let cases: Vec<(Vec<u8>, &str)> = vec![
        (
            vec![0x30, 0, 0],
            "diff: invalid position bitlen 3 in flag 0x30 at offset 0",
        ),
        (
            vec![0x0C, 0, 0],
            "diff: invalid data-length bitlen 3 in flag 0x0c at offset 0",
        ),
        (
            vec![0x10, 1],
            "diff: reading position at offset 1: diff: read 2 bytes at offset 1 out of bounds (len 2)",
        ),
        (
            vec![0x00, 1],
            "diff: reading data length at offset 2: diff: read 1 byte at offset 2 out of bounds (len 2)",
        ),
        (
            vec![0x00, 2, 3],
            "diff: copy-from-old-file [2..5) out of bounds (old file is 4 bytes)",
        ),
        (
            vec![0x40, 0, 2, 9],
            "diff: copy-from-diff [3..5) out of bounds (diff data is 4 bytes)",
        ),
        (
            vec![0x80, 0, 0],
            "diff: unknown source flag 0x02 in flag 0x80 at offset 2",
        ),
        (
            vec![0x40, 0, 1, 7, 0xE8, 0, 0, 0, 0, 0, 0, 0, 0],
            "diff: unknown source flag 0x03 in flag 0xe8 at offset 12",
        ),
    ];
    for (diff, words) in cases {
        assert_eq!(apply_diff(&diff, old).unwrap_err().message(), words);
    }
    assert_eq!(
        apply_diff(&[0x00], old),
        Err(DiffError::Truncated { field: DiffField::Position, width: 1, offset: 1, len: 1 })
    );
}
