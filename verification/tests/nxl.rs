use base64::Engine;
use nxdl::filter::FileFilter;
use nxdl::nxl::{
    accept_object, classify_source, decode_file_path, decompress_zlib, default_base_url,
    file_workers, hash_in_bytes, hash_in_text, list_files, manifest_size, manifest_url, object_url,
    open_object, plan_download, run_outcome, DownloadFailed, DownloadPlan, EmptyHash, Manifest,
    ManifestFile, NotZlib, ObjectError,
    Source,
};
use nxdl::paths::{decode_utf16_path, decode_utf8_path, PathFault};
use sha1::Digest;
use std::io::{Read, Write};

fn compress(data: &[u8]) -> Vec<u8> {
    let mut encoder =
        flate2::write::ZlibEncoder::new(Vec::new(), flate2::Compression::default());
    encoder.write_all(data).unwrap();
    encoder.finish().unwrap()
}

fn utf16(s: &str, mark: bool) -> Vec<u8> {
    let mut out = Vec::new();
    if mark {
        out.extend_from_slice(&[0xFF, 0xFE]);
    }
    for unit in s.encode_utf16() {
        out.extend_from_slice(&unit.to_le_bytes());
    }
    out
}

fn name(s: &str) -> String {
    base64::engine::general_purpose::STANDARD.encode(utf16(s, true))
}

fn file(fsize: u64, objects: &[&str]) -> ManifestFile {
    ManifestFile {
        fsize,
        mtime: None,
        objects: objects.iter().map(|s| s.to_string()).collect(),
        objects_fsize: vec![fsize],
    }
}

const HASH: &str = "0123456789abcdefABCDEF0123456789abcdef01";

#[test]
fn sources_are_addresses_or_hashes() {
    assert!(matches!(
        classify_source(" http://x/y \n").unwrap(),
        Source::Address(a) if a == "http://x/y"
    ));
    assert!(matches!(
        classify_source("https://x").unwrap(),
        Source::Address(a) if a == "https://x"
    ));
    assert!(matches!(
        classify_source(&format!("\t{HASH}")).unwrap(),
        Source::Hash(h) if h == HASH
    ));
    for bad in ["", "HTTP://x", "latest", &HASH[1..], &format!("{HASH}0"), &format!("g{}", &HASH[1..])] {
        assert_eq!(
            classify_source(bad).err().unwrap().message(),
            format!(
                "invalid manifest hash '{bad}': must be a 40-character hex string or an http(s) URL"
            )
        );
    }
}

#[test]
fn hashes_are_taken_out_of_replies() {
    assert_eq!(hash_in_text(" abc\r\n"), Ok("abc".to_owned()));
    assert_eq!(hash_in_text("\n"), Err(EmptyHash));
    assert_eq!(hash_in_bytes(b"  ab\xC3\xA9\n"), Ok("abé".to_owned()));
    assert_eq!(hash_in_bytes(b"a\xFFb"), Ok("a\u{FFFD}b".to_owned()));
    assert_eq!(hash_in_bytes(b""), Err(EmptyHash));
    assert_eq!(EmptyHash.message(), "manifest hash is empty");
}

#[test]
fn addresses_are_put_together() {
    let base = default_base_url("10100");
    assert_eq!(base, "http://download2.nexon.net/Game/nxl/games/10100");
    assert_eq!(manifest_url(&base, "abc"), "http://download2.nexon.net/Game/nxl/games/10100/abc");
    assert_eq!(
        object_url(&base, "10100", "3ed487"),
        "http://download2.nexon.net/Game/nxl/games/10100/10100/3e/3ed487"
    );
    assert_eq!(object_url("b", "a", "éx"), "b/a/é/éx");
}

#[test]
fn paths_are_base64_of_utf16() {
    for path in ["", "a", "Data\\Base\\Base.wz", "한글/파일", "🦀", "x\u{FEFF}"] {
        assert_eq!(decode_utf16_path(&utf16(path, true)), Ok(path.to_owned()));
        assert_eq!(decode_utf16_path(&utf16(path, false)), Ok(path.to_owned()));
        assert_eq!(decode_file_path(&name(path)), Ok(path.to_owned()));
    }
    // Only one mark is stripped.
    assert_eq!(decode_utf16_path(&utf16("\u{FEFF}a", true)), Ok("\u{FEFF}a".to_owned()));
    assert_eq!(decode_utf16_path(&utf16("\u{FEFF}a", false)), Ok("a".to_owned()));
}

#[test]
fn unreadable_paths_are_explained() {
    assert_eq!(decode_file_path("!"), Err(PathFault::NotBase64));
    assert_eq!(decode_file_path("YQ"), Err(PathFault::NotBase64));
    assert_eq!(decode_file_path("YQ=="), Err(PathFault::OddLength));
    for bytes in [
        vec![0x00, 0xD8],
        vec![0x00, 0xDC],
        vec![0x00, 0xD8, 0x41, 0x00],
        vec![0x00, 0xD8, 0x00, 0xD8],
        vec![0x41, 0x00, 0x00, 0xDC, 0x00, 0xD8],
    ] {
        assert_eq!(decode_utf16_path(&bytes), Err(PathFault::NotUtf16));
    }
    assert_eq!(decode_utf8_path(vec![0xFF]), Err(PathFault::NotUtf8));
    assert_eq!(decode_utf8_path("é\\b".as_bytes().to_vec()), Ok("é\\b".to_owned()));
    let words: Vec<&str> = [
        PathFault::NotBase64,
        PathFault::OddLength,
        PathFault::NotUtf16,
        PathFault::NotUtf8,
    ]
    .iter()
    .map(|f| f.message())
    .collect();
    assert_eq!(
        words,
        vec![
            "failed to base64-decode file path",
            "decoded path bytes have odd length (not valid UTF-16)",
            "failed to decode UTF-16 file path",
            "failed to decode file path as UTF-8",
        ]
    );
}

#[test]
fn utf16_agrees_with_std() {
    let interesting = [0x41u16, 0xFEFF, 0xD7FF, 0xD800, 0xDBFF, 0xDC00, 0xDFFF, 0xE000, 0xFFFF];
    for a in interesting {
        for b in interesting {
            for c in interesting {
                let units = [a, b, c];
                let bytes: Vec<u8> = units.iter().flat_map(|u| u.to_le_bytes()).collect();
                let rest = if a == 0xFEFF { &units[1..] } else { &units[..] };
                assert_eq!(decode_utf16_path(&bytes).ok(), String::from_utf16(rest).ok());
            }
        }
    }
}

#[test]
fn blocks_are_opened_and_checked() {
    let data = b"some block of a file".to_vec();
    let id = hex::encode(sha1::Sha1::digest(&data));
    let packed = compress(&data);
    assert_ne!(packed, data);
    assert_eq!(decompress_zlib(&packed), Ok(data.clone()));
    assert_eq!(open_object(&id, &packed).unwrap(), data);
    assert_eq!(open_object(&id.to_uppercase(), &packed).unwrap(), data);

    let other = "0".repeat(40);
    let err = open_object(&other, &packed).unwrap_err();
    assert_eq!(
        err.message(),
        format!("SHA-1 mismatch for object {other}: expected {other}, got {id}")
    );
    assert!(matches!(open_object(&id, &data).unwrap_err(), ObjectError::NotZlib { .. }));
    assert_eq!(
        open_object("ab", b"").unwrap_err().message(),
        "failed to decompress object ab: zlib decompression failed: incomplete deflate stream"
    );
    let err = decompress_zlib(b"xx").unwrap_err();
    assert_eq!(err, NotZlib { cause: "corrupt deflate stream".to_owned() });
    assert_eq!(err.message(), "zlib decompression failed: corrupt deflate stream");
    // The cause is what the decoder itself says.
    for data in [&b"xx"[..], b"", &packed[..packed.len() - 6]] {
        let mut out = Vec::new();
        let said = flate2::read::ZlibDecoder::new(data).read_to_end(&mut out).unwrap_err();
        assert_eq!(decompress_zlib(data), Err(NotZlib { cause: said.to_string() }));
    }
}

#[test]
fn digests_are_names_in_either_case() {
    assert_eq!(accept_object("0AfF", vec![1], &[0x0A, 0xFF]).unwrap(), vec![1]);
    assert_eq!(
        accept_object("0AfE", vec![1], &[0x0A, 0xFF]).unwrap_err().message(),
        "SHA-1 mismatch for object 0AfE: expected 0AfE, got 0aff"
    );
}

fn sample() -> Vec<(String, ManifestFile)> {
    vec![
        (name("b/two"), file(20, &["x", "y"])),
        ("!".to_owned(), file(1, &["x"])),
        (name("a"), file(0, &["__DIR__"])),
        (name("b"), file(0, &["__DIR__"])),
        (name("a/one"), file(10, &["x"])),
        (name("b/marker"), file(5, &["__DIR__", "__DIR__"])),
        (name("a/empty"), file(0, &[])),
    ]
}

#[test]
fn a_check_lists_files_by_path() {
    let tally = list_files(&sample(), None);
    let shown: Vec<(&str, u64, usize)> =
        tally.entries.iter().map(|e| (e.path.as_str(), e.size, e.chunks)).collect();
    assert_eq!(
        shown,
        vec![("a/empty", 0, 0), ("a/one", 10, 1), ("b/marker", 5, 2), ("b/two", 20, 2)]
    );
    assert_eq!(tally.dir_count, 2);
    assert_eq!(tally.filtered_out, 0);
    assert_eq!(tally.faults, vec![PathFault::NotBase64]);
    assert_eq!(tally.total_size(), 35);
    assert_eq!(manifest_size(&sample()), 36);
}

#[test]
fn a_check_counts_directories_before_it_filters() {
    let only_b = FileFilter::from_substrings("b", false).unwrap();
    let tally = list_files(&sample(), Some(&only_b));
    assert_eq!(tally.entries.len(), 2);
    assert_eq!(tally.dir_count, 2);
    assert_eq!(tally.filtered_out, 2);
    // A download filters first.
    let plan = plan_download(&sample(), Some(&only_b));
    assert_eq!(plan.dirs, vec!["b"]);
    assert_eq!(plan.filtered_out, 3);
    assert_eq!(plan.faults.len(), 1);
    assert_eq!(plan.entries.len(), 2);
}

#[test]
fn a_download_fetches_what_a_check_lists() {
    let plan = plan_download(&sample(), None);
    let names: Vec<&str> = plan.entries.iter().map(|e| e.rel_path.as_str()).collect();
    assert_eq!(names, vec!["b/two", "a/one", "b/marker", "a/empty"]);
    assert_eq!(plan.entries[0].objects, vec!["x", "y"]);
    assert_eq!(plan.entries[0].objects_fsize, vec![20]);
    assert_eq!(plan.sizes(), vec![20, 10, 5, 0]);
    assert_eq!(plan.dirs, vec!["a", "b"]);
    let mut fetched: Vec<String> = plan.entries.into_iter().map(|e| e.rel_path).collect();
    fetched.sort();
    let listed: Vec<String> =
        list_files(&sample(), None).entries.into_iter().map(|e| e.path).collect();
    assert_eq!(fetched, listed);
}

#[test]
fn entries_are_taken_by_what_was_decoded() {
    let mut plan = DownloadPlan::new();
    plan.add_entry(Err(PathFault::OddLength), &file(1, &["x"]), None);
    plan.add_entry(Ok("d".to_owned()), &file(1, &["__DIR__"]), None);
    plan.add_entry(Ok("f".to_owned()), &file(7, &["x"]), None);
    let none = FileFilter::from_substrings("z", false).unwrap();
    plan.add_entry(Ok("g".to_owned()), &file(7, &["x"]), Some(&none));
    assert_eq!(plan.faults, vec![PathFault::OddLength]);
    assert_eq!(plan.dirs, vec!["d"]);
    assert_eq!(plan.filtered_out, 1);
    assert_eq!(plan.entries.len(), 1);
    assert_eq!(plan.entries[0].fsize, 7);
}

#[test]
fn no_more_workers_than_files() {
    assert_eq!(file_workers(0), 0);
    assert_eq!(file_workers(3), 3);
    assert_eq!(file_workers(10), 10);
    assert_eq!(file_workers(11), 10);
}

#[test]
fn a_download_succeeds_where_nothing_failed() {
    assert_eq!(run_outcome(0), Ok(()));
    assert_eq!(run_outcome(1), Err(DownloadFailed { failed: 1 }));
    assert_eq!(run_outcome(12).unwrap_err().message(), "12 file(s) failed to download");
}

#[test]
fn manifests_are_cloned_whole() {
    let manifest = Manifest {
        filepath_encoding: Some("utf16".to_owned()),
        files: vec![(
            "key".to_owned(),
            ManifestFile {
                fsize: 3,
                mtime: Some(-1),
                objects: vec!["a".to_owned()],
                objects_fsize: vec![3],
            },
        )],
        platform: None,
        product: Some("10100".to_owned()),
        total_compressed_size: Some(1),
        total_objects: Some(1),
        total_uncompressed_size: Some(3),
        version: None,
    };
    assert_eq!(format!("{:?}", manifest.clone()), format!("{manifest:?}"));
}
