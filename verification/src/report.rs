//! Lines of the reports that the program prints.
use vstd::prelude::*;
use vstd::string::*;
use crate::listing;
use crate::listing::{ListEntry, Tally};
use crate::numerals;
use crate::sizes;
use crate::text;

verus! {

/// A text of `n` times the same character.
pub open spec fn run_of(c: char, n: int) -> Seq<char> {
    Seq::new(
        (if n > 0 {
            n
        } else {
            0
        }) as nat,
        |i: int| c,
    )
}

/// Appends a character `n` times.
fn push_run(out: &mut String, c: char, n: usize)
    ensures
        final(out)@ == old(out)@ + run_of(c, n as int),
{
    let mut i: usize = 0;
    assert(out@ =~= old(out)@ + run_of(c, 0));
    while i < n
        invariant
            i <= n,
            out@ == old(out)@ + run_of(c, i as int),
        decreases n - i,
    {
        out.push(c);
        assert(out@ =~= old(out)@ + run_of(c, i + 1));
        i = i + 1;
    }
}

/// A text with spaces behind it up to a width.
pub open spec fn to_the_left(s: Seq<char>, width: int) -> Seq<char> {
    s + run_of(' ', width - s.len())
}

/// A text with spaces before it up to a width.
pub open spec fn to_the_right(s: Seq<char>, width: int) -> Seq<char> {
    run_of(' ', width - s.len()) + s
}

/// Appends a text with spaces behind it up to a width.
fn push_left(out: &mut String, s: &str, width: usize)
    ensures
        final(out)@ == old(out)@ + to_the_left(s@, width as int),
{
    let len = text::to_chars(s).len();
    out.append(s);
    if len < width {
        push_run(out, ' ', width - len);
    }
    assert(out@ =~= old(out)@ + to_the_left(s@, width as int));
}

/// Appends a text with spaces before it up to a width.
fn push_right(out: &mut String, s: &str, width: usize)
    ensures
        final(out)@ == old(out)@ + to_the_right(s@, width as int),
{
    let len = text::to_chars(s).len();
    if len < width {
        push_run(out, ' ', width - len);
    }
    out.append(s);
    assert(out@ =~= old(out)@ + to_the_right(s@, width as int));
}

/// Three columns of a listing.
pub open spec fn columns(path: Seq<char>, chunks: Seq<char>, size: Seq<char>) -> Seq<char> {
    to_the_left(path, 70) + " "@ + to_the_right(chunks, 8) + " "@ + to_the_right(size, 12)
}

/// Computes `columns`.
fn lay_out(path: &str, chunks: &str, size: &str) -> (line: String)
    ensures
        line@ == columns(path@, chunks@, size@),
{
    let mut line = String::new();
    push_left(&mut line, path, 70);
    line.append(" ");
    push_right(&mut line, chunks, 8);
    line.append(" ");
    push_right(&mut line, size, 12);
    assert(line@ =~= columns(path@, chunks@, size@));
    line
}

/// The head of a listing.
pub open spec fn head() -> Seq<char> {
    columns("PATH"@, "CHUNKS"@, "SIZE"@)
}

/// The rule beneath the head of a listing.
pub open spec fn rule() -> Seq<char> {
    run_of('-', 70) + " "@ + run_of('-', 8) + " "@ + run_of('-', 12)
}

/// Computes `head`.
pub fn listing_head() -> (line: String)
    ensures
        line@ == head(),
{
    lay_out("PATH", "CHUNKS", "SIZE")
}

/// Computes `rule`.
pub fn listing_rule() -> (line: String)
    ensures
        line@ == rule(),
{
    let mut line = String::new();
    push_run(&mut line, '-', 70);
    line.append(" ");
    push_run(&mut line, '-', 8);
    line.append(" ");
    push_run(&mut line, '-', 12);
    assert(line@ =~= rule());
    line
}

/// The line of an entry in a listing.
pub open spec fn row(entry: listing::EntryModel) -> Seq<char> {
    columns(entry.0, numerals::decimal(entry.2 as nat), sizes::human(entry.1 as nat))
}

/// Computes `row`.
pub fn listing_row(entry: &ListEntry) -> (line: String)
    ensures
        line@ == row(entry.model()),
{
    lay_out(
        entry.path.as_str(),
        numerals::decimal_text(entry.chunks as u64).as_str(),
        sizes::human_size(entry.size).as_str(),
    )
}

/// What a manifest holds in all.
pub fn manifest_line(files: usize, bytes: u64) -> (line: String)
    ensures
        line@ == "Manifest loaded: "@ + numerals::decimal(files as nat) + " file(s), "@
            + sizes::gib(bytes as nat) + " GiB total."@,
{
    let mut line = String::new();
    line.append("Manifest loaded: ");
    numerals::push_decimal(&mut line, files as u128);
    line.append(" file(s), ");
    line.append(sizes::gib_size(bytes).as_str());
    line.append(" GiB total.");
    line
}

/// A size in GiB and in bytes.
pub open spec fn size_words(bytes: nat) -> Seq<char> {
    sizes::gib(bytes) + " GiB ("@ + sizes::grouped(bytes) + " bytes)"@
}

/// Computes `size_words`.
pub fn size_phrase(bytes: u64) -> (phrase: String)
    ensures
        phrase@ == size_words(bytes as nat),
{
    let mut phrase = sizes::gib_size(bytes);
    phrase.append(" GiB (");
    phrase.append(sizes::format_bytes(bytes).as_str());
    phrase.append(" bytes)");
    phrase
}

/// What a listing leaves out, where it leaves out anything.
pub open spec fn left_out(dirs: nat, filtered: nat, faults: nat) -> Option<Seq<char>> {
    if dirs == 0 && filtered == 0 && faults == 0 {
        None
    } else {
        Some(
            "  ("@ + numerals::decimal(dirs) + " directories, "@ + numerals::decimal(filtered)
                + " filtered out, "@ + numerals::decimal(faults) + " path errors)"@,
        )
    }
}

/// Computes `left_out`.
pub fn left_out_line(dirs: usize, filtered: usize, faults: usize) -> (line: Option<String>)
    ensures
        text::text_in(line) == left_out(dirs as nat, filtered as nat, faults as nat),
{
    if dirs == 0 && filtered == 0 && faults == 0 {
        return None;
    }
    let mut line = String::new();
    line.append("  (");
    numerals::push_decimal(&mut line, dirs as u128);
    line.append(" directories, ");
    numerals::push_decimal(&mut line, filtered as u128);
    line.append(" filtered out, ");
    numerals::push_decimal(&mut line, faults as u128);
    line.append(" path errors)");
    Some(line)
}

/// What ends the report of a check: what is left out, and the listing where it
/// is asked for.
pub open spec fn closing(tally: Tally, list: bool) -> Seq<Seq<char>> {
    let out = match left_out(
        tally.dir_count as nat,
        tally.filtered_out as nat,
        tally.faults@.len(),
    ) {
        Some(line) => seq![line],
        None => Seq::empty(),
    };
    if list {
        out + seq![Seq::empty(), head(), rule()] + rows(listing::models(tally.entries@))
    } else {
        out
    }
}

/// The lines of the entries.
pub open spec fn rows(entries: Seq<listing::EntryModel>) -> Seq<Seq<char>> {
    Seq::new(entries.len(), |i: int| row(entries[i]))
}

/// Appends a line.
fn push_line(lines: &mut Vec<String>, line: String)
    ensures
        text::texts(final(lines)@) == text::texts(old(lines)@).push(line@),
{
    let ghost before = lines@;
    let ghost words = line@;
    lines.push(line);
    assert(text::texts(lines@) =~= text::texts(before).push(words));
}

/// Appends `closing`.
fn push_closing(lines: &mut Vec<String>, tally: &Tally, list: bool)
    ensures
        text::texts(final(lines)@) == text::texts(old(lines)@) + closing(*tally, list),
{
    let ghost start = text::texts(lines@);
    let ghost entries = listing::models(tally.entries@);
    if let Some(line) = left_out_line(tally.dir_count, tally.filtered_out, tally.faults.len()) {
        push_line(lines, line);
    }
    let ghost mid = text::texts(lines@);
    assert(mid =~= start + closing(*tally, false));
    if list {
        push_line(lines, String::new());
        push_line(lines, listing_head());
        push_line(lines, listing_rule());
        let ghost top = mid + seq![Seq::<char>::empty(), head(), rule()];
        assert(text::texts(lines@) =~= top + rows(entries).take(0));
        let mut i: usize = 0;
        while i < tally.entries.len()
            invariant
                i <= tally.entries@.len(),
                entries == listing::models(tally.entries@),
                text::texts(lines@) == top + rows(entries).take(i as int),
            decreases tally.entries@.len() - i,
        {
            push_line(lines, listing_row(&tally.entries[i]));
            assert(text::texts(lines@) =~= top + rows(entries).take(i + 1));
            i = i + 1;
        }
        assert(rows(entries).take(i as int) =~= rows(entries));
        assert(text::texts(lines@) =~= start + closing(*tally, true));
    }
}

/// A line of a report: a label and what it is about.
fn labelled(label: &str, value: &str) -> (line: String)
    ensures
        line@ == label@ + value@,
{
    let mut line = String::new();
    line.append(label);
    line.append(value);
    line
}

/// The report of a check of an NXL client.
pub open spec fn nxl_report(
    product: Seq<char>,
    tally: Tally,
    bytes: nat,
    verbose: bool,
) -> Seq<Seq<char>> {
    seq![
        Seq::empty(),
        "  product:      "@ + product,
        "  files:        "@ + numerals::decimal(tally.entries@.len()),
        "  total size:   "@ + size_words(bytes),
    ] + closing(tally, verbose)
}

/// Computes `nxl_report`.
pub fn nxl_check_lines(product: &str, tally: &Tally, bytes: u64, verbose: bool) -> (lines: Vec<
    String,
>)
    ensures
        text::texts(lines@) == nxl_report(product@, *tally, bytes as nat, verbose),
{
    let mut lines: Vec<String> = Vec::new();
    assert(text::texts(lines@) =~= Seq::empty());
    let count = numerals::decimal_text(tally.entries.len() as u64);
    let size = size_phrase(bytes);
    push_line(&mut lines, String::new());
    push_line(&mut lines, labelled("  product:      ", product));
    push_line(&mut lines, labelled("  files:        ", count.as_str()));
    push_line(&mut lines, labelled("  total size:   ", size.as_str()));
    push_closing(&mut lines, tally, verbose);
    proof {
        assert(text::texts(lines@) =~= nxl_report(product@, *tally, bytes as nat, verbose));
    }
    lines
}

/// The report of a check of an NGM client; a listing without entries is left
/// out.
pub open spec fn ngm_report(
    game: Seq<char>,
    product: Seq<char>,
    in_manifest: nat,
    tally: Tally,
    bytes: nat,
    verbose: bool,
) -> Seq<Seq<char>> {
    seq![
        Seq::empty(),
        "  game:                "@ + game,
        "  product:             "@ + product,
        "  files in manifest:   "@ + numerals::decimal(in_manifest),
        "  files to download:   "@ + numerals::decimal(tally.entries@.len()),
        "  total size:          "@ + size_words(bytes),
    ] + closing(tally, verbose && tally.entries@.len() > 0)
}

/// Computes `ngm_report`.
pub fn ngm_check_lines(
    game: &str,
    product: &str,
    in_manifest: usize,
    tally: &Tally,
    bytes: u64,
    verbose: bool,
) -> (lines: Vec<String>)
    ensures
        text::texts(lines@) == ngm_report(
            game@,
            product@,
            in_manifest as nat,
            *tally,
            bytes as nat,
            verbose,
        ),
{
    let mut lines: Vec<String> = Vec::new();
    assert(text::texts(lines@) =~= Seq::empty());
    let all = numerals::decimal_text(in_manifest as u64);
    let count = numerals::decimal_text(tally.entries.len() as u64);
    let size = size_phrase(bytes);
    push_line(&mut lines, String::new());
    push_line(&mut lines, labelled("  game:                ", game));
    push_line(&mut lines, labelled("  product:             ", product));
    push_line(&mut lines, labelled("  files in manifest:   ", all.as_str()));
    push_line(&mut lines, labelled("  files to download:   ", count.as_str()));
    push_line(&mut lines, labelled("  total size:          ", size.as_str()));
    push_closing(&mut lines, tally, verbose && tally.entries.len() > 0);
    proof {
        assert(text::texts(lines@) =~= ngm_report(
            game@,
            product@,
            in_manifest as nat,
            *tally,
            bytes as nat,
            verbose,
        ));
    }
    lines
}

/// What a download has before it.
pub fn before_download_line(files: usize, dirs: usize, filtered: usize, faults: usize) -> (line:
    String)
    ensures
        line@ == "After filtering: "@ + numerals::decimal(files as nat) + " file(s) to download, "@
            + numerals::decimal(dirs as nat) + " directories, "@ + numerals::decimal(
            filtered as nat,
        ) + " filtered out ("@ + numerals::decimal(faults as nat) + " path errors)."@,
{
    let mut line = String::new();
    line.append("After filtering: ");
    numerals::push_decimal(&mut line, files as u128);
    line.append(" file(s) to download, ");
    numerals::push_decimal(&mut line, dirs as u128);
    line.append(" directories, ");
    numerals::push_decimal(&mut line, filtered as u128);
    line.append(" filtered out (");
    numerals::push_decimal(&mut line, faults as u128);
    line.append(" path errors).");
    line
}

/// What a download came to.
pub fn after_download_line(
    downloaded: usize,
    dirs: usize,
    filtered: usize,
    failed: usize,
    faults: usize,
) -> (line: String)
    ensures
        line@ == "Done: "@ + numerals::decimal(downloaded as nat) + " downloaded, "@
            + numerals::decimal(dirs as nat) + " directories, "@ + numerals::decimal(
            filtered as nat,
        ) + " filtered out, "@ + numerals::decimal(failed as nat) + " failed ("@
            + numerals::decimal(faults as nat) + " path errors)."@,
{
    let mut line = String::new();
    line.append("Done: ");
    numerals::push_decimal(&mut line, downloaded as u128);
    line.append(" downloaded, ");
    numerals::push_decimal(&mut line, dirs as u128);
    line.append(" directories, ");
    numerals::push_decimal(&mut line, filtered as u128);
    line.append(" filtered out, ");
    numerals::push_decimal(&mut line, failed as u128);
    line.append(" failed (");
    numerals::push_decimal(&mut line, faults as u128);
    line.append(" path errors).");
    line
}

// ---------------------------------------------------------------------------
// Laws
// ---------------------------------------------------------------------------

/// The larger of two numbers.
pub open spec fn at_least(n: nat, width: int) -> int {
    if n < width {
        width
    } else {
        n as int
    }
}

/// A line has its path at the front, its chunks at the end of the second column
/// and its size at the end of the third, with nothing but spaces around them. The
/// columns are 70, 8 and 12 wide, with a space between them, and wider where what
/// stands in them is: nothing is cut off.
pub proof fn law_columns_hold_everything(path: Seq<char>, chunks: Seq<char>, size: Seq<char>)
    ensures
        ({
            let line = columns(path, chunks, size);
            let a = at_least(path.len(), 70);
            let b = a + 1 + at_least(chunks.len(), 8);
            let c = b + 1 + at_least(size.len(), 12);
            &&& line.len() == c
            &&& line.subrange(0, path.len() as int) == path
            &&& line.subrange(b - chunks.len(), b) == chunks
            &&& line.subrange(c - size.len(), c) == size
            &&& forall|i: int|
                path.len() <= i < b - chunks.len() || b <= i < c - size.len() ==> #[trigger] line[i]
                    == ' '
        }),
{
    reveal_strlit(" ");
    let line = columns(path, chunks, size);
    let a = at_least(path.len(), 70);
    let b = a + 1 + at_least(chunks.len(), 8);
    let c = b + 1 + at_least(size.len(), 12);
    assert(line.subrange(0, path.len() as int) =~= path);
    assert(line.subrange(b - chunks.len(), b) =~= chunks);
    assert(line.subrange(c - size.len(), c) =~= size);
}

/// The head names the columns, and the rule beneath it has strokes over their
/// widths and spaces between them.
pub proof fn law_head_and_rule_span_the_columns(i: int)
    requires
        0 <= i < 92,
    ensures
        head().len() == 92 && rule().len() == 92,
        rule()[i] == (if i == 70 || i == 79 {
            ' '
        } else {
            '-'
        }),
        text::begins(head(), "PATH "@),
        head().subrange(73, 79) == "CHUNKS"@,
        head().subrange(88, 92) == "SIZE"@,
{
    reveal_strlit(" ");
    reveal_strlit("PATH");
    reveal_strlit("PATH ");
    reveal_strlit("CHUNKS");
    reveal_strlit("SIZE");
    law_columns_hold_everything("PATH"@, "CHUNKS"@, "SIZE"@);
    assert(head()[4] == ' ');
    assert(head().subrange(0, 5) =~= "PATH "@) by {
        assert forall|k: int| 0 <= k < 4 implies head()[k] == "PATH"@[k] by {
            assert(head().subrange(0, 4)[k] == head()[k]);
        }
    }
}

/// The line of an entry holds its path, the number of its chunks and its size, and
/// there is one for each entry, in order.
pub proof fn law_rows_are_of_the_entries(entries: Seq<listing::EntryModel>, i: int)
    requires
        0 <= i < entries.len(),
    ensures
        rows(entries).len() == entries.len(),
        rows(entries)[i] == columns(
            entries[i].0,
            numerals::decimal(entries[i].2 as nat),
            sizes::human(entries[i].1 as nat),
        ),
{
}

/// Nothing is said of what is left out where nothing is; otherwise the three counts
/// are told in this order.
pub proof fn law_what_is_left_out_is_counted(dirs: nat, filtered: nat, faults: nat)
    ensures
        left_out(dirs, filtered, faults) is None <==> dirs + filtered + faults == 0,
        dirs + filtered + faults > 0 ==> left_out(dirs, filtered, faults) == Some(
            "  ("@ + numerals::decimal(dirs) + " directories, "@ + numerals::decimal(filtered)
                + " filtered out, "@ + numerals::decimal(faults) + " path errors)"@,
        ),
{
}

/// A report ends with the line on what is left out, where there is one, and then
/// with the listing, where it is asked for: an empty line, the head, the rule and
/// a line for each entry.
pub proof fn law_reports_end_with_the_listing(tally: Tally, i: int)
    requires
        0 <= i < tally.entries@.len(),
    ensures
        ({
            let counts = left_out(
                tally.dir_count as nat,
                tally.filtered_out as nat,
                tally.faults@.len(),
            );
            let first: int = if counts is Some {
                1
            } else {
                0
            };
            let short = closing(tally, false);
            let full = closing(tally, true);
            &&& short.len() == first
            &&& counts matches Some(line) ==> short == seq![line]
            &&& full.len() == first + 3 + tally.entries@.len()
            &&& full.take(first) == short
            &&& full[first].len() == 0
            &&& full[first + 1] == head()
            &&& full[first + 2] == rule()
            &&& full[first + 3 + i] == columns(
                tally.entries@[i].path@,
                numerals::decimal(tally.entries@[i].chunks as nat),
                sizes::human(tally.entries@[i].size as nat),
            )
        }),
{
    let counts = left_out(
        tally.dir_count as nat,
        tally.filtered_out as nat,
        tally.faults@.len(),
    );
    let first: int = if counts is Some {
        1
    } else {
        0
    };
    assert(closing(tally, true).take(first) =~= closing(tally, false));
}

/// A size is told in GiB and then in bytes.
pub proof fn law_sizes_are_told_twice(bytes: nat)
    ensures
        text::begins(size_words(bytes), sizes::gib(bytes) + " GiB ("@),
        text::ends(size_words(bytes), sizes::grouped(bytes) + " bytes)"@),
        size_words(bytes).len() == sizes::gib(bytes).len() + " GiB ("@.len() + sizes::grouped(
            bytes,
        ).len() + " bytes)"@.len(),
{
    let front = sizes::gib(bytes) + " GiB ("@;
    let back = sizes::grouped(bytes) + " bytes)"@;
    assert(size_words(bytes) =~= front + back);
    text::law_parts_are_found(front, back, Seq::empty());
    text::law_parts_are_found(Seq::empty(), front, back);
}

/// The report on an NXL client: an empty line, the product, the number of files
/// and their size, and then what ends a report.
pub proof fn law_nxl_report_line_by_line(
    product: Seq<char>,
    tally: Tally,
    bytes: nat,
    verbose: bool,
)
    ensures
        ({
            let lines = nxl_report(product, tally, bytes, verbose);
            &&& lines.len() == 4 + closing(tally, verbose).len()
            &&& lines[0].len() == 0
            &&& lines[1] == "  product:      "@ + product
            &&& lines[2] == "  files:        "@ + numerals::decimal(tally.entries@.len())
            &&& lines[3] == "  total size:   "@ + size_words(bytes)
            &&& lines.skip(4) == closing(tally, verbose)
        }),
{
    let lines = nxl_report(product, tally, bytes, verbose);
    assert(lines.skip(4) =~= closing(tally, verbose));
}

/// The report on an NGM client: an empty line, the game, the product, the number
/// of files in the manifest and of those to download and their size, and then what
/// ends a report; a listing is only asked for where there is something to list.
pub proof fn law_ngm_report_line_by_line(
    game: Seq<char>,
    product: Seq<char>,
    in_manifest: nat,
    tally: Tally,
    bytes: nat,
    verbose: bool,
)
    ensures
        ({
            let lines = ngm_report(game, product, in_manifest, tally, bytes, verbose);
            &&& lines[0].len() == 0
            &&& lines[1] == "  game:                "@ + game
            &&& lines[2] == "  product:             "@ + product
            &&& lines[3] == "  files in manifest:   "@ + numerals::decimal(in_manifest)
            &&& lines[4] == "  files to download:   "@ + numerals::decimal(tally.entries@.len())
            &&& lines[5] == "  total size:          "@ + size_words(bytes)
            &&& verbose && tally.entries@.len() > 0 ==> lines.skip(6) == closing(tally, true)
            &&& !verbose || tally.entries@.len() == 0 ==> lines.skip(6) == closing(tally, false)
        }),
{
    let lines = ngm_report(game, product, in_manifest, tally, bytes, verbose);
    assert(lines.skip(6) =~= closing(tally, verbose && tally.entries@.len() > 0));
}

} // verus!
