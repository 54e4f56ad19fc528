use nxdl::filter::FileFilter;
use nxdl::listing::{sort_by_path, ListEntry, Tally};
use nxdl::paths::PathFault;
use nxdl::report::{
    after_download_line, before_download_line, left_out_line, listing_head, listing_row,
    listing_rule, manifest_line, ngm_check_lines, nxl_check_lines, size_phrase,
};

fn entry(path: &str, size: u64) -> ListEntry {
    ListEntry { path: path.to_owned(), size, chunks: 1 }
}

fn shown(list: &[ListEntry]) -> Vec<(String, u64)> {
    list.iter().map(|e| (e.path.clone(), e.size)).collect()
}

#[test]
fn sorting_is_the_stable_sort_of_std() {
    let mut x: u64 = 88172645463325252;
    for n in [0usize, 1, 2, 3, 7, 8, 100, 257] {
        let list: Vec<ListEntry> = (0..n)
            .map(|i| {
                x ^= x << 13;
                x ^= x >> 7;
                x ^= x << 17;
                let name = ["", "a", "a/b", "A", "é", "🦀", "b"][(x % 7) as usize];
                entry(name, i as u64)
            })
            .collect();
        let mut meant = shown(&list);
        meant.sort_by(|a, b| a.0.cmp(&b.0));
        assert_eq!(shown(&sort_by_path(&list)), meant);
    }
}

#[test]
fn a_listing_does_not_depend_on_the_order_found() {
    let a = vec![entry("c", 1), entry("a", 2), entry("b", 3)];
    let b = vec![entry("b", 3), entry("c", 1), entry("a", 2)];
    assert_eq!(shown(&sort_by_path(&a)), shown(&sort_by_path(&b)));
}

#[test]
fn every_entry_is_accounted_for() {
    let keep = FileFilter::from_substrings("k", false).unwrap();
    let mut tally = Tally::new();
    tally.add_entry(Ok("k2".to_owned()), false, 5, 2, Some(&keep));
    tally.add_entry(Ok("dir".to_owned()), true, 0, 1, Some(&keep));
    tally.add_entry(Ok("x".to_owned()), false, 7, 1, Some(&keep));
    tally.add_entry(Err(PathFault::NotUtf8), false, 9, 1, Some(&keep));
    tally.add_entry(Ok("k1".to_owned()), false, u64::MAX, 3, Some(&keep));
    assert_eq!(tally.total_size(), u64::MAX as u128 + 5);
    let sorted = tally.sorted();
    assert_eq!(shown(&sorted.entries), vec![("k1".to_owned(), u64::MAX), ("k2".to_owned(), 5)]);
    assert_eq!((sorted.dir_count, sorted.filtered_out), (1, 1));
    assert_eq!(sorted.faults, vec![PathFault::NotUtf8]);
}

#[test]
fn listings_are_set_in_columns() {
    assert_eq!(listing_head(), format!("{:<70} {:>8} {:>12}", "PATH", "CHUNKS", "SIZE"));
    assert_eq!(listing_rule(), format!("{:-<70} {:-<8} {:-<12}", "", "", ""));
    for path in ["short", "ünïcode", &"long".repeat(30)] {
        let e = ListEntry { path: path.to_owned(), size: 1536, chunks: 12 };
        assert_eq!(listing_row(&e), format!("{:<70} {:>8} {:>12}", path, 12, "1.5 KiB"));
    }
}

#[test]
fn reports_have_their_words() {
    assert_eq!(
        manifest_line(12, 1610612736),
        "Manifest loaded: 12 file(s), 1.50 GiB total."
    );
    assert_eq!(size_phrase(1610612736), "1.50 GiB (1,610,612,736 bytes)");
    assert_eq!(left_out_line(0, 0, 0), None);
    assert_eq!(
        left_out_line(1, 0, 2),
        Some("  (1 directories, 0 filtered out, 2 path errors)".to_owned())
    );
    assert_eq!(
        before_download_line(1, 2, 3, 4),
        "After filtering: 1 file(s) to download, 2 directories, 3 filtered out (4 path errors)."
    );
    assert_eq!(
        after_download_line(1, 2, 3, 4, 5),
        "Done: 1 downloaded, 2 directories, 3 filtered out, 4 failed (5 path errors)."
    );
}

#[test]
fn checks_are_reported() {
    let mut tally = Tally::new();
    tally.add_entry(Ok("b".to_owned()), false, 1024, 2, None);
    tally.add_entry(Ok("a".to_owned()), false, 512, 1, None);
    let tally = tally.sorted();
    assert_eq!(
        nxl_check_lines("10100", &tally, 1536, false),
        vec![
            "",
            "  product:      10100",
            "  files:        2",
            "  total size:   0.00 GiB (1,536 bytes)",
        ]
    );
    let rows = vec![
        String::new(),
        listing_head(),
        listing_rule(),
        format!("{:<70} {:>8} {:>12}", "a", 1, "512.0 B"),
        format!("{:<70} {:>8} {:>12}", "b", 2, "1.0 KiB"),
    ];
    assert_eq!(nxl_check_lines("10100", &tally, 1536, true)[4..], rows);
    let ngm = ngm_check_lines("Game", "1@2", 7, &tally, 1536, true);
    assert_eq!(
        ngm[..6],
        [
            "",
            "  game:                Game",
            "  product:             1@2",
            "  files in manifest:   7",
            "  files to download:   2",
            "  total size:          0.00 GiB (1,536 bytes)",
        ]
    );
    assert_eq!(ngm[6..], rows);
    let mut nothing = Tally::new();
    nothing.add_entry(Ok("d".to_owned()), true, 0, 0, None);
    let lines = ngm_check_lines("G", "1", 1, &nothing, 0, true);
    assert_eq!(lines.len(), 7);
    assert_eq!(lines[6], "  (1 directories, 0 filtered out, 0 path errors)");
    // An empty listing of an NXL client still has its head.
    assert_eq!(nxl_check_lines("1", &nothing, 0, true).len(), 8);
}
