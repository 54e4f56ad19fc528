use base64::Engine;
use nxdl::nxl::ManifestFile;
use nxdl::nxl_patch::{
    add_block, already_current, apply_to, base_url_from_hash_url, block_count,
    check_joined, check_part, check_whole, classify_target, completed_line, completed_paths, current_hash,
    decode_paths, default_patch_base_url, diff_manifest_hash_url, diff_manifest_name,
    diff_manifest_url, diff_url, find_fallback, first_step,
    hash_file_name, judge_data, next_stage, next_step, part_url, patch_base_url,
    patch_workers, patched, plan_fallback, record_file_name, remaining_entries, resolve_bytes,
    resolve_given,
    resolve_text, total_compressed, DiffEntry, DiffPart, EmptyReply, FallbackEntry, PatchError,
    PatchRun, PatchStep, Piece, Stage, StageEnd, Target,
};
use std::io::Write;

fn compress(data: &[u8]) -> Vec<u8> {
    let mut encoder =
        flate2::write::ZlibEncoder::new(Vec::new(), flate2::Compression::default());
    encoder.write_all(data).unwrap();
    encoder.finish().unwrap()
}

fn md5_hex(data: &[u8]) -> String {
    format!("{:x}", md5::compute(data))
}

fn entry(path: &str, data: &[u8]) -> DiffEntry {
    DiffEntry {
        path: path.to_owned(),
        checksum: md5_hex(data),
        file_size: data.len() as u64,
        parts: vec![],
        entry_type: 0,
    }
}

const HASH: &str = "0123456789abcdefABCDEF0123456789abcdef01";

#[test]
fn targets_are_latest_addresses_or_hashes() {
    assert!(matches!(classify_target(" LaTest ").unwrap(), Target::Latest));
    assert!(matches!(
        classify_target("https://h/x.manifest.hash\n").unwrap(),
        Target::Address(a) if a == "https://h/x.manifest.hash"
    ));
    assert!(matches!(classify_target(HASH).unwrap(), Target::Hash(h) if h == HASH));
    assert_eq!(
        classify_target(" nope ").err().unwrap().message(),
        "invalid target hash 'nope': must be 'latest', a 40-character hex string, or an http(s) URL"
    );
    assert!(classify_target(&HASH[..39]).is_err());
}

#[test]
fn a_target_is_found_beside_its_hash_file() {
    let r = resolve_bytes(EmptyReply::Target, "http://h/a/x.hash/", b" abc\n").unwrap();
    assert_eq!((r.hash.as_str(), r.base_url.as_str()), ("abc", "http://h/a"));
    let r = resolve_text(EmptyReply::Latest, "http://h/x", "abc").unwrap();
    assert_eq!((r.hash.as_str(), r.base_url.as_str()), ("abc", "http://h"));
    assert_eq!(
        resolve_bytes(EmptyReply::Latest, "u", b"\r\n").err().unwrap().message(),
        "latest manifest hash URL returned an empty response"
    );
    assert_eq!(
        resolve_text(EmptyReply::Target, "u", "").err().unwrap().message(),
        "target manifest hash URL returned an empty response"
    );
    let r = resolve_given(HASH.to_owned(), "10100");
    assert_eq!(r.hash, HASH);
    assert_eq!(r.base_url, "http://download2.nexon.net/Game/nxl/games/10100");
}

#[test]
fn directories_are_cut_out_of_addresses() {
    assert_eq!(base_url_from_hash_url("http://h/a/b.hash"), "http://h/a");
    assert_eq!(base_url_from_hash_url("http://h/a/b.hash//"), "http://h/a");
    assert_eq!(base_url_from_hash_url("plain"), "plain");
    assert_eq!(base_url_from_hash_url("///"), "");
    assert_eq!(
        default_patch_base_url("1"),
        "http://download2.nexon.net/Game/nxl/games/1"
    );
}

#[test]
fn patch_addresses_are_put_together() {
    let base = patch_base_url("http://h/1", "aaaaaaaabbbb", "ccccccccdddd");
    assert_eq!(base, "http://h/1/patches/patch-aaaaaaaa-cccccccc");
    assert_eq!(diff_manifest_hash_url(&base), format!("{base}/diff_manifest.hash"));
    assert_eq!(diff_manifest_name(b" abc \n"), "abc");
    assert_eq!(diff_manifest_name(b""), "");
    assert_eq!(diff_manifest_url(&base, "abc"), format!("{base}/abc"));
    let e = entry("Data/a.wz", b"x");
    assert_eq!(diff_url(&base, "1", &e), format!("{base}/1/Data/a.wz.diff"));
    let part = DiffPart { path: "a.diff.001".to_owned(), checksum: String::new(), file_size: 0 };
    assert_eq!(part_url(&base, "1", &part), format!("{base}/1/a.diff.001"));
}

#[test]
fn clients_at_the_target_are_left_alone() {
    assert!(already_current("aB", "Ab"));
    assert!(!already_current("ab", "abc"));
}

#[test]
fn diffs_are_held_against_size_and_checksum() {
    let data = b"compressed".to_vec();
    let good = entry("p", &data);
    assert!(check_whole(&good, &data).is_ok());
    let upper = DiffEntry { checksum: md5_hex(&data).to_uppercase(), ..entry("p", &data) };
    assert!(check_whole(&upper, &data).is_ok());
    assert_eq!(
        check_whole(&good, &data[1..]).unwrap_err().message(),
        "diff 'p': compressed-size mismatch (expected 10, got 9)"
    );
    let mut other = data.clone();
    other[0] ^= 1;
    assert_eq!(
        check_whole(&good, &other).unwrap_err().message(),
        format!(
            "diff 'p': MD5 mismatch (expected {}, got {})",
            md5_hex(&data),
            md5_hex(&other)
        )
    );
    // An empty checksum is no checksum only for parts together.
    let blank = DiffEntry { checksum: String::new(), ..entry("p", &data) };
    assert!(check_whole(&blank, &data).is_err());
    assert!(check_joined(&blank, &data).is_ok());
}

#[test]
fn patch_files_have_their_names() {
    assert_eq!(hash_file_name("10100"), "10100.manifest.hash");
    assert_eq!(record_file_name("10100", "abc"), ".incomplete-10100_abc");
    assert_eq!(current_hash(" abc\r\n"), "abc");
}

/// Runs the fetching of a diff with the given replies, and returns the
/// addresses and the end.
fn run(e: &DiffEntry, replies: &[&[u8]]) -> (Vec<String>, Result<Vec<u8>, String>) {
    let (mut state, mut step): (PatchRun, PatchStep) = first_step("b", "1", e);
    let mut urls = Vec::new();
    let mut i = 0;
    loop {
        match step {
            PatchStep::Fetch { url } => {
                urls.push(url);
                step = next_step(&mut state, "b", "1", e, replies[i].to_vec());
                i += 1;
            }
            PatchStep::Apply { compressed } => return (urls, Ok(compressed)),
            PatchStep::Fail { error } => return (urls, Err(error.message())),
        }
    }
}

#[test]
fn a_diff_in_one_piece_is_fetched_once() {
    let e = entry("p", b"data");
    assert_eq!(run(&e, &[b"data"]), (vec!["b/1/p.diff".to_owned()], Ok(b"data".to_vec())));
    let (urls, end) = run(&e, &[b"date"]);
    assert_eq!(urls.len(), 1);
    assert!(end.unwrap_err().starts_with("diff 'p': MD5 mismatch"));
}

#[test]
fn parts_are_checked_and_joined() {
    let halves: [&[u8]; 2] = [b"first", b"second!"];
    let whole: Vec<u8> = halves.concat();
    let parts: Vec<DiffPart> = halves
        .iter()
        .map(|h| DiffPart {
            path: format!("p.{}", h.len()),
            checksum: md5_hex(h),
            file_size: h.len() as u64,
        })
        .collect();
    let e = DiffEntry { parts: parts.clone(), ..entry("p", &whole) };
    let both = vec!["b/1/p.5".to_owned(), "b/1/p.7".to_owned()];
    assert_eq!(run(&e, &halves), (both.clone(), Ok(whole.clone())));
    // The first part that is wrong ends the run.
    assert_eq!(
        run(&e, &[b"fir", b"second!"]),
        (
            both[..1].to_vec(),
            Err("diff part 'p.5': compressed-size mismatch (expected 5, got 3)".to_owned())
        )
    );
    assert_eq!(
        run(&e, &[b"first", b"SECOND!"]).1,
        Err(format!(
            "diff part 'p.7': MD5 mismatch (expected {}, got {})",
            md5_hex(b"second!"),
            md5_hex(b"SECOND!")
        ))
    );
    // Parts that are right on their own can be wrong together.
    let e = DiffEntry { file_size: 13, parts: parts.clone(), ..entry("p", &whole) };
    assert_eq!(
        run(&e, &halves),
        (
            both,
            Err("diff 'p': concatenated-size mismatch (expected 13, got 12)".to_owned())
        )
    );
    let e = DiffEntry { checksum: "00".to_owned(), parts: parts.clone(), ..entry("p", &whole) };
    assert_eq!(
        run(&e, &halves).1,
        Err(format!(
            "diff 'p': concatenated MD5 mismatch (expected 00, got {})",
            md5_hex(&whole)
        ))
    );
    let e = DiffEntry { checksum: String::new(), parts: parts.clone(), ..entry("p", &whole) };
    assert_eq!(run(&e, &halves).1, Ok(whole));
    assert!(check_part(&parts[0], b"first").is_ok());
}

#[test]
fn data_is_judged_by_its_digest() {
    let sum = "00FF".to_owned();
    assert!(judge_data(Piece::Whole, "p", 1, Some(&sum), b"x", &[0, 255]).is_ok());
    assert!(matches!(
        judge_data(Piece::Whole, "p", 1, Some(&sum), b"x", &[0, 254]).unwrap_err(),
        PatchError::Digest { piece: Piece::Whole, .. }
    ));
    assert!(judge_data(Piece::Joined, "p", 1, None, b"x", &[1]).is_ok());
    assert!(matches!(
        judge_data(Piece::Joined, "p", 2, Some(&sum), b"x", &[1]).unwrap_err(),
        PatchError::Size { piece: Piece::Joined, expected: 2, got: 1, .. }
    ));
}

#[test]
fn diffs_are_decompressed_and_applied() {
    let diff = [0x40u8, 0, 2, b'h', b'i', 0x00, 1, 2];
    assert_eq!(patched("p", &compress(&diff), b"abc").unwrap(), b"hibc");
    assert_eq!(apply_to("p", &diff, b"abc").unwrap(), b"hibc");
    assert_eq!(
        patched("p", &diff, b"abc").unwrap_err().message(),
        "failed to decompress diff for 'p': zlib decompression failed: corrupt deflate stream"
    );
    assert_eq!(
        patched("p", &compress(&diff), b"ab").unwrap_err().message(),
        "failed to apply diff for 'p': diff: copy-from-old-file [1..3) out of bounds (old file is 2 bytes)"
    );
}

#[test]
fn a_later_run_finds_what_was_recorded() {
    let mut record = String::new();
    for path in ["a/b", "c", "a/b", "d e"] {
        record.push_str(&completed_line(path));
    }
    assert_eq!(record, "a/b\nc\na/b\nd e\n");
    let done = completed_paths(&record);
    assert_eq!(done, vec!["a/b", "c", "d e"]);
    assert_eq!(completed_paths("\n\r\na\r\n\n"), vec!["a"]);
    assert!(completed_paths("").is_empty());

    let entries: Vec<DiffEntry> =
        ["c", "x", "a/b", "y", "A/b"].iter().map(|p| entry(p, b"1234")).collect();
    let left = remaining_entries(entries, &done);
    let names: Vec<&str> = left.iter().map(|e| e.path.as_str()).collect();
    assert_eq!(names, vec!["x", "y", "A/b"]);
    assert_eq!(total_compressed(&left), 12);
}

#[test]
fn patch_workers_are_bounded() {
    assert_eq!(patch_workers(0), 1);
    assert_eq!(patch_workers(1), 1);
    assert_eq!(patch_workers(10), 10);
    assert_eq!(patch_workers(99), 10);
}

fn name(s: &str) -> String {
    let bytes: Vec<u8> = s.encode_utf16().flat_map(|u| u.to_le_bytes()).collect();
    base64::engine::general_purpose::STANDARD.encode(bytes)
}

fn file(fsize: u64) -> ManifestFile {
    ManifestFile {
        fsize,
        mtime: Some(1),
        objects: vec![format!("o{fsize}")],
        objects_fsize: vec![fsize, 0],
    }
}

#[test]
fn files_that_failed_are_fetched_whole() {
    let files = vec![
        (name("a\\b"), file(1)),
        ("!".to_owned(), file(2)),
        (name("c/d"), file(3)),
        (name("e"), file(4)),
        (name("\u{FEFF}e"), file(5)),
    ];
    let failed: Vec<String> =
        ["a/b", "c\\d", "none", "e"].iter().map(|s| s.to_string()).collect();
    let (entries, missing) = plan_fallback(&files, &failed);
    let got: Vec<(&str, u64)> = entries.iter().map(|e| (e.path.as_str(), e.fsize)).collect();
    // Both slashes are tried; of two entries with one path the last counts.
    assert_eq!(got, vec![("a/b", 1), ("c\\d", 3), ("e", 5)]);
    assert_eq!(entries[1].objects, vec!["o3"]);
    assert_eq!(entries[1].objects_fsize, vec![3, 0]);
    assert_eq!(missing, vec!["none"]);
    assert_eq!(block_count(&entries[0]), 1);
    let short = FallbackEntry {
        path: String::new(),
        objects: vec!["a".to_owned(), "b".to_owned()],
        objects_fsize: vec![1],
        fsize: 1,
    };
    assert_eq!(block_count(&short), 1);
}

#[test]
fn exact_paths_go_before_turned_slashes() {
    let decoded: Vec<Option<String>> =
        [Some("a/b"), None, Some("a\\b"), Some("a/b")].iter().map(|s| s.map(str::to_owned)).collect();
    assert_eq!(find_fallback(&decoded, "a/b"), Some(3));
    assert_eq!(find_fallback(&decoded, "a\\b"), Some(2));
    assert_eq!(find_fallback(&decoded[..1].to_vec(), "a\\b"), Some(0));
    assert_eq!(find_fallback(&decoded, "b"), None);
    let files = vec![(name("x"), file(1)), ("?".to_owned(), file(2))];
    assert_eq!(decode_paths(&files), vec![Some("x".to_owned()), None]);
}

#[test]
fn blocks_of_a_whole_file_are_joined() {
    let mut out = vec![1u8];
    add_block("id", 2, &[2, 3], &mut out).unwrap();
    assert_eq!(out, vec![1, 2, 3]);
    assert_eq!(
        add_block("id", 2, &[4], &mut out).unwrap_err().message(),
        "object id: size mismatch (expected 2, got 1)"
    );
    assert_eq!(out, vec![1, 2, 3]);
}

#[test]
fn the_hash_is_updated_once_everything_was_moved() {
    let run = |ends: &[StageEnd]| -> Option<Stage> {
        let mut stage = Stage::Comparing;
        for end in ends {
            stage = next_stage(stage, *end)?;
        }
        Some(stage)
    };
    let go = StageEnd::Compared { current: false };
    assert_eq!(run(&[StageEnd::Compared { current: true }]), Some(Stage::Done));
    assert_eq!(run(&[go]), Some(Stage::Patching));
    assert_eq!(run(&[go, StageEnd::Patched { failed: 0 }]), Some(Stage::Moving));
    assert_eq!(run(&[go, StageEnd::Patched { failed: 2 }]), Some(Stage::Fetching));
    let moved = [go, StageEnd::Patched { failed: 2 }, StageEnd::Fetched];
    assert_eq!(run(&moved), Some(Stage::Moving));
    let end = |failed| [moved[0], moved[1], moved[2], StageEnd::Moved { failed }];
    assert_eq!(run(&end(0)), Some(Stage::Updating));
    assert_eq!(run(&end(1)), Some(Stage::Unfinished));
    assert_eq!(next_stage(Stage::Updating, StageEnd::Updated), Some(Stage::Done));
    assert_eq!(next_stage(Stage::Patching, StageEnd::Updated), None);
    assert_eq!(next_stage(Stage::Done, StageEnd::Updated), None);
}

#[test]
fn only_sound_parts_are_added_to_a_run() {
    let halves: [&[u8]; 2] = [b"first", b"second!"];
    let parts = halves
        .iter()
        .map(|h| DiffPart {
            path: format!("p.{}", h.len()),
            checksum: md5_hex(h),
            file_size: h.len() as u64,
        })
        .collect();
    let e = DiffEntry { parts, ..entry("p", &halves.concat()) };
    let mut state = PatchRun { done: 0, buf: vec![] };
    assert!(matches!(
        next_step(&mut state, "b", "1", &e, b"FIRST".to_vec()),
        PatchStep::Fail { .. }
    ));
    assert_eq!((state.done, state.buf.as_slice()), (0, &b""[..]));
    assert!(matches!(
        next_step(&mut state, "b", "1", &e, b"first".to_vec()),
        PatchStep::Fetch { .. }
    ));
    assert_eq!((state.done, state.buf.as_slice()), (1, &b"first"[..]));
    assert!(matches!(
        next_step(&mut state, "b", "1", &e, b"second!".to_vec()),
        PatchStep::Apply { .. }
    ));
    assert_eq!((state.done, state.buf.as_slice()), (2, &b"firstsecond!"[..]));
    let whole = entry("p", b"data");
    let mut state = PatchRun { done: 0, buf: vec![] };
    assert!(matches!(
        next_step(&mut state, "b", "1", &whole, b"data".to_vec()),
        PatchStep::Apply { .. }
    ));
    assert_eq!((state.done, state.buf.len()), (0, 0));
}
