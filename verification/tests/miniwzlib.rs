use nxdl::miniwzlib::{
    compute_enc_version, compute_version_hash, directory_offsets_valid, get_wz_version_from_bytes,
    header_region_len, is_base_wz, read_compressed_int, read_offset, resolve_version,
    skip_wz_string, WzVersion, WZ_OFFSET_CONSTANT,
};

const PKG1_MAGIC: &[u8; 4] = b"PKG1";

#[test]
fn version_hash_known_values() {
    assert_ne!(compute_version_hash(83), 0);
    assert_eq!(compute_version_hash(176), compute_version_hash(176));
    // '8' = 56, '3' = 51: (56 + 1) * 32 + 51 + 1.
    assert_eq!(compute_version_hash(83), 57 * 32 + 52);
    assert_eq!(compute_version_hash(0), 49);
    assert_eq!(compute_version_hash(-1), (45 + 1) * 32 + 49 + 1);
}

#[test]
fn encver_known_values() {
    // Version 280 has the marker 0x7D.
    assert_eq!(compute_enc_version(compute_version_hash(280)), 0x7D);
}

#[test]
fn encver_is_valid_u8() {
    for ver in 0..1500i16 {
        let hash = compute_version_hash(ver);
        let marker: u8 = compute_enc_version(hash);
        let b = hash.to_be_bytes();
        assert_eq!(marker, !(b[0] ^ b[1] ^ b[2] ^ b[3]));
    }
}

/// Encodes an offset so that a synthetic directory decodes back to `target`
/// under `version_hash`.
fn encode_offset(offset_pos: u32, data_start: u32, version_hash: u32, target: u32) -> u32 {
    let mut scrambled = (offset_pos.wrapping_sub(data_start)) ^ 0xFFFF_FFFF;
    scrambled = scrambled.wrapping_mul(version_hash);
    scrambled = scrambled.wrapping_sub(WZ_OFFSET_CONSTANT);
    scrambled = scrambled.rotate_left(scrambled & 0x1F);
    let xored = target.wrapping_sub(data_start.wrapping_mul(2));
    scrambled ^ xored
}

/// A header with its data from `data_start` on, up to and with the marker.
fn header(data_start: u32, encver: u16) -> Vec<u8> {
    let mut buf = vec![0u8; 16];
    buf[0..4].copy_from_slice(PKG1_MAGIC);
    buf[12..16].copy_from_slice(&data_start.to_le_bytes());
    buf.resize(data_start as usize, 0);
    buf.extend_from_slice(&encver.to_le_bytes());
    buf
}

#[test]
fn from_bytes_reads_a_synthetic_header() {
    // A one-entry root directory whose offset only decodes into range under
    // the correct version's hash.
    let version: i16 = 280;
    let hash = compute_version_hash(version);
    let encver = compute_enc_version(hash) as u16;

    let data_start: u32 = 60;
    let file_len: u64 = 100_000;

    let mut buf = vec![0u8; 16];
    buf[0..4].copy_from_slice(PKG1_MAGIC); // signature
    buf[4..12].copy_from_slice(&0u64.to_le_bytes()); // file_size (ignored)
    buf[12..16].copy_from_slice(&data_start.to_le_bytes()); // data_start

    // Padding/copyright up to data_start.
    buf.resize(data_start as usize, 0);

    buf.extend_from_slice(&encver.to_le_bytes()); // encver at data_start
    buf.push(0x01); // directory entry count = 1 (compressed int)
    buf.push(4); // entry type = image
    buf.push(0x00); // empty name (WZ string, length 0)
    buf.push(0x0A); // size (compressed int)
    buf.push(0x00); // checksum (compressed int)

    // The 4-byte offset field starts here.
    let offset_pos = buf.len() as u32;
    let encoded = encode_offset(offset_pos, data_start, hash, 500);
    buf.extend_from_slice(&encoded.to_le_bytes());

    let v = get_wz_version_from_bytes(&buf, file_len).expect("should parse");
    assert_eq!(v.version, version);
}

#[test]
fn from_bytes_non_pkg1_is_version_zero() {
    let mut buf = vec![0u8; 32];
    buf[0..4].copy_from_slice(b"PKG2");
    let v = get_wz_version_from_bytes(&buf, 32).expect("should parse");
    assert_eq!(v.version, 0);
    assert_eq!(v, WzVersion { version: 0, version_hash: 0 });
}

#[test]
fn colliding_markers_are_told_apart_by_the_directory() {
    // 347 and 443 have the same marker; the directory decides for either.
    let a = compute_version_hash(347);
    let b = compute_version_hash(443);
    assert_eq!(compute_enc_version(a), compute_enc_version(b));
    let encver = compute_enc_version(a) as u16;
    for version in [347i16, 443] {
        let hash = compute_version_hash(version);
        let data_start: u32 = 60;
        let mut buf = header(data_start, encver);
        // A two-byte compressed count would need the escape: use it here.
        buf.push(0x80);
        buf.extend_from_slice(&5i32.to_le_bytes());
        for i in 0..5u32 {
            buf.push(3); // sub-directory
            buf.push(0xFD); // three ASCII bytes
            buf.extend_from_slice(b"abc");
            buf.push(1);
            buf.push(2);
            let pos = buf.len() as u32;
            buf.extend_from_slice(&encode_offset(pos, data_start, hash, 700 + i).to_le_bytes());
        }
        let v = get_wz_version_from_bytes(&buf, 5_000).expect("should parse");
        assert_eq!(v, WzVersion { version, version_hash: hash });
    }
}

#[test]
fn every_entry_kind_is_read() {
    let version: i16 = 95;
    let hash = compute_version_hash(version);
    let data_start: u32 = 24;
    let mut buf = header(data_start, compute_enc_version(hash) as u16);
    buf.push(4); // four entries
    buf.push(1); // unknown entry: six bytes, then the offset
    buf.extend_from_slice(&[9, 9, 9, 9, 9, 9]);
    let pos = buf.len() as u32;
    buf.extend_from_slice(&encode_offset(pos, data_start, hash, 100).to_le_bytes());
    buf.push(2); // name stored elsewhere
    buf.extend_from_slice(&7i32.to_le_bytes());
    buf.extend_from_slice(&[0x80, 1, 0, 0, 0, 5]);
    let pos = buf.len() as u32;
    buf.extend_from_slice(&encode_offset(pos, data_start, hash, 101).to_le_bytes());
    buf.push(3); // two UTF-16 characters
    buf.push(2);
    buf.extend_from_slice(&[1, 2, 3, 4]);
    buf.extend_from_slice(&[5, 5]);
    let pos = buf.len() as u32;
    buf.extend_from_slice(&encode_offset(pos, data_start, hash, 102).to_le_bytes());
    buf.push(4); // one UTF-16 character, with the long length
    buf.push(127);
    buf.extend_from_slice(&1i32.to_le_bytes());
    buf.extend_from_slice(&[1, 2]);
    buf.extend_from_slice(&[5, 5]);
    let pos = buf.len() as u32;
    buf.extend_from_slice(&encode_offset(pos, data_start, hash, 103).to_le_bytes());
    let v = get_wz_version_from_bytes(&buf, 104).expect("should parse");
    assert_eq!(v, WzVersion { version, version_hash: hash });
}

#[test]
fn without_a_directory_the_first_match_is_taken() {
    let hash = compute_version_hash(280);
    let encver = compute_enc_version(hash);
    let first = (0..2000i16)
        .find(|v| compute_enc_version(compute_version_hash(*v)) == encver)
        .expect("a match");
    let buf = header(60, encver as u16);
    let v = get_wz_version_from_bytes(&buf, 100_000).expect("should parse");
    assert_eq!(v.version, first);
}

#[test]
fn wz_errors_say_what_is_wrong() {
    assert_eq!(
        get_wz_version_from_bytes(&[0u8; 15], 15).unwrap_err(),
        "buffer too small to contain a WZ header"
    );
    let mut low = header(60, 0);
    low[12..16].copy_from_slice(&15u32.to_le_bytes());
    assert_eq!(
        get_wz_version_from_bytes(&low, 1000).unwrap_err(),
        "invalid data_start 15 (file size 1000)"
    );
    let high = header(60, 0);
    assert_eq!(
        get_wz_version_from_bytes(&high, 59).unwrap_err(),
        "invalid data_start 60 (file size 59)"
    );
    assert_eq!(
        get_wz_version_from_bytes(&high[..61], 1000).unwrap_err(),
        "buffer only covers 61 bytes but data_start is 60"
    );
    let unknown = header(60, 0xABCD);
    assert_eq!(
        get_wz_version_from_bytes(&unknown, 1000).unwrap_err(),
        format!("cannot determine version from encver {:#06X}", 0xABCDu16)
    );
    let unknown = header(60, 0x0100);
    assert_eq!(
        get_wz_version_from_bytes(&unknown, 1000).unwrap_err(),
        "cannot determine version from encver 0x0100"
    );
}

#[test]
fn base_wz_is_recognised_by_its_place() {
    assert!(is_base_wz("Base.wz"));
    assert!(is_base_wz("BASE.WZ"));
    assert!(is_base_wz("appdata\\Data\\Base\\Base.wz"));
    assert!(is_base_wz("appdata/data/base/base.wz"));
    assert!(!is_base_wz("appdata/Base.wz"));
    assert!(!is_base_wz("Base.wz.bak"));
    assert!(!is_base_wz(""));
}

#[test]
fn header_region_is_capped() {
    assert_eq!(header_region_len(0), 0);
    assert_eq!(header_region_len(5), 5);
    assert_eq!(header_region_len(8 * 1024 * 1024), 8 * 1024 * 1024);
    assert_eq!(header_region_len(u64::MAX), 8 * 1024 * 1024);
}

#[test]
fn compressed_numbers_move_the_position() {
    let cases: [(&[u8], Option<i32>, usize); 7] = [
        (&[0x7F], Some(127), 1),
        (&[0xFF], Some(-1), 1),
        (&[0x81], Some(-127), 1),
        (&[0x80, 1, 2, 0, 0], Some(513), 5),
        (&[0x80, 0xFE, 0xFF, 0xFF, 0xFF], Some(-2), 5),
        (&[0x80, 1], None, 1),
        (&[], None, 0),
    ];
    for (data, value, end) in cases {
        let mut pos = 0;
        assert_eq!(read_compressed_int(data, &mut pos), value);
        assert_eq!(pos, end);
    }
    let mut pos = usize::MAX;
    assert_eq!(read_compressed_int(&[1], &mut pos), None);
    assert_eq!(pos, usize::MAX);
}

#[test]
fn strings_are_skipped() {
    let cases: [(&[u8], Option<()>, usize); 10] = [
        (&[], None, 0),
        (&[0], Some(()), 1),
        (&[2, 1, 2, 3, 4], Some(()), 5),
        (&[2, 1, 2, 3], None, 1),
        (&[0xFE, 1, 2], Some(()), 3),
        (&[0xFE, 1], None, 1),
        (&[127, 1, 0, 0, 0, 9, 9], Some(()), 7),
        (&[127, 1, 0, 0], None, 1),
        (&[0x80, 1, 0, 0, 0, 9], Some(()), 6),
        (&[0x80, 0xFF, 0xFF, 0xFF, 0xFF, 9], None, 5),
    ];
    for (data, skipped, end) in cases {
        let mut pos = 0;
        assert_eq!(skip_wz_string(data, &mut pos), skipped);
        assert_eq!(pos, end);
    }
}

#[test]
fn written_offsets_are_read_back() {
    let hash = compute_version_hash(176);
    for (pos, target) in [(0u32, 0u32), (3, 500), (7, u32::MAX)] {
        let mut data = vec![0u8; pos as usize];
        data.extend_from_slice(&encode_offset(pos, 60, hash, target).to_le_bytes());
        let mut at = pos as usize;
        assert_eq!(read_offset(&data, &mut at, 60, hash), Some(target));
        assert_eq!(at, pos as usize + 4);
        let mut at = pos as usize + 1;
        assert_eq!(read_offset(&data, &mut at, 60, hash), None);
        assert_eq!(at, pos as usize + 1);
    }
}

#[test]
fn more_data_keeps_a_directory() {
    let hash = compute_version_hash(280);
    let data_start: u32 = 20;
    let mut buf = header(data_start, 0);
    buf.extend_from_slice(&[1, 4, 0, 10, 0]);
    let pos = buf.len() as u32;
    buf.extend_from_slice(&encode_offset(pos, data_start, hash, 500).to_le_bytes());
    assert!(!directory_offsets_valid(&buf, data_start, 500, hash));
    assert!(!directory_offsets_valid(&buf[..buf.len() - 1], data_start, 501, hash));
    for extra in 0..3u8 {
        for file_len in [501, 502, u64::MAX] {
            assert!(directory_offsets_valid(&buf, data_start, file_len, hash));
        }
        buf.push(extra);
    }
}

#[test]
fn a_buffer_that_ends_early_gives_the_first_match() {
    let encver = compute_enc_version(compute_version_hash(280)) as u16;
    let first = (0..2000i16)
        .find(|v| compute_enc_version(compute_version_hash(*v)) as u16 == encver)
        .expect("a match");
    let expected = WzVersion { version: first, version_hash: compute_version_hash(first) };
    for (data, data_start) in [(&[][..], 0u32), (&[0, 0][..], 0), (&[0][..], u32::MAX)] {
        assert!(!directory_offsets_valid(data, data_start, 1000, expected.version_hash));
        assert_eq!(resolve_version(data, data_start, 1000, encver), Ok(expected));
    }
    assert!(resolve_version(&[], 0, 1000, 0x0100).is_err());
}
