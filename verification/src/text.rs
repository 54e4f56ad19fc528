//! Text as sequences of characters.
//!
//! Strings are taken apart into characters, worked on as slices of them, and
//! put together again; each step says which sequence of characters it yields.
use vstd::prelude::*;
use vstd::string::*;

verus! {

/// `String::push` of std: one character is added at the end.
pub assume_specification[ String::push ](s: &mut String, ch: char)
    ensures
        final(s)@ == old(s)@.push(ch),
;

/// The views of a list of strings.
pub open spec fn texts(list: Seq<String>) -> Seq<Seq<char>> {
    Seq::new(list.len(), |i: int| list[i]@)
}

/// The characters of `s`.
pub fn to_chars(s: &str) -> (chars: Vec<char>)
    ensures
        chars@ == s@,
{
    let mut chars: Vec<char> = Vec::new();
    for c in it: s.chars()
        invariant
            it.seq() == s@,
            chars@ == s@.take(it.index() as int),
    {
        chars.push(c);
    }
    assert(chars@ =~= s@);
    chars
}

/// The string of the characters `chars`.
pub fn from_chars(chars: &[char]) -> (s: String)
    ensures
        s@ == chars@,
{
    let mut s = String::new();
    let mut i: usize = 0;
    while i < chars.len()
        invariant
            i <= chars@.len(),
            s@ == chars@.take(i as int),
        decreases chars@.len() - i,
    {
        s.push(chars[i]);
        i = i + 1;
    }
    assert(s@ =~= chars@);
    s
}

/// Whether two slices hold the same characters.
pub fn same_chars(a: &[char], b: &[char]) -> (same: bool)
    ensures
        same == (a@ == b@),
{
    if a.len() != b.len() {
        return false;
    }
    let mut i: usize = 0;
    while i < a.len()
        invariant
            i <= a@.len(),
            a@.len() == b@.len(),
            forall|j: int| 0 <= j < i ==> a@[j] == b@[j],
        decreases a@.len() - i,
    {
        if a[i] != b[i] {
            return false;
        }
        i = i + 1;
    }
    assert(a@ =~= b@);
    true
}

/// Whether two strings are equal.
pub fn same_text(a: &str, b: &str) -> (same: bool)
    ensures
        same == (a@ == b@),
{
    same_chars(to_chars(a).as_slice(), to_chars(b).as_slice())
}

/// Whether `chars` spells `literal`.
pub fn spells(chars: &[char], literal: &str) -> (same: bool)
    ensures
        same == (chars@ == literal@),
{
    same_chars(chars, to_chars(literal).as_slice())
}

// ---------------------------------------------------------------------------
// Characters
// ---------------------------------------------------------------------------

/// The characters with the Unicode property White_Space.
pub open spec fn white(c: char) -> bool {
    ||| '\u{9}' <= c <= '\u{d}'
    ||| c == ' '
    ||| c == '\u{85}'
    ||| c == '\u{a0}'
    ||| c == '\u{1680}'
    ||| '\u{2000}' <= c <= '\u{200a}'
    ||| c == '\u{2028}'
    ||| c == '\u{2029}'
    ||| c == '\u{202f}'
    ||| c == '\u{205f}'
    ||| c == '\u{3000}'
}

/// Whether `c` is white space.
pub fn is_white(c: char) -> (r: bool)
    ensures
        r == white(c),
{
    ('\u{9}' <= c && c <= '\u{d}') || c == ' ' || c == '\u{85}' || c == '\u{a0}' || c == '\u{1680}'
        || ('\u{2000}' <= c && c <= '\u{200a}') || c == '\u{2028}' || c == '\u{2029}' || c
        == '\u{202f}' || c == '\u{205f}' || c == '\u{3000}'
}

/// The ASCII decimal digits.
pub open spec fn digit(c: char) -> bool {
    '0' <= c <= '9'
}

/// Whether `c` is an ASCII decimal digit.
pub fn is_digit(c: char) -> (r: bool)
    ensures
        r == digit(c),
{
    '0' <= c && c <= '9'
}

/// The ASCII hexadecimal digits.
pub open spec fn hex_digit(c: char) -> bool {
    digit(c) || 'a' <= c <= 'f' || 'A' <= c <= 'F'
}

/// Whether `c` is an ASCII hexadecimal digit.
pub fn is_hex_digit(c: char) -> (r: bool)
    ensures
        r == hex_digit(c),
{
    is_digit(c) || ('a' <= c && c <= 'f') || ('A' <= c && c <= 'F')
}

/// `c` with the 26 ASCII capitals made small; every other character is kept.
pub open spec fn lower_char(c: char) -> char {
    if 'A' <= c <= 'Z' {
        (c as u32 + 32) as char
    } else {
        c
    }
}

/// `s` with its ASCII capitals made small.
pub open spec fn lower(s: Seq<char>) -> Seq<char> {
    Seq::new(s.len(), |i: int| lower_char(s[i]))
}

/// Computes `lower_char`.
pub fn to_lower_char(c: char) -> (r: char)
    ensures
        r == lower_char(c),
{
    if 'A' <= c && c <= 'Z' {
        ((c as u8) + 32) as char
    } else {
        c
    }
}

/// Computes `lower`.
pub fn to_lower(s: &[char]) -> (r: Vec<char>)
    ensures
        r@ == lower(s@),
{
    let mut r: Vec<char> = Vec::new();
    let mut i: usize = 0;
    while i < s.len()
        invariant
            i <= s@.len(),
            r@ == lower(s@).take(i as int),
        decreases s@.len() - i,
    {
        r.push(to_lower_char(s[i]));
        i = i + 1;
    }
    assert(r@ =~= lower(s@));
    r
}

/// Whether two strings differ at most in the case of ASCII letters.
pub fn same_ignoring_case(a: &str, b: &str) -> (same: bool)
    ensures
        same == (lower(a@) == lower(b@)),
{
    let x = to_lower(to_chars(a).as_slice());
    let y = to_lower(to_chars(b).as_slice());
    same_chars(x.as_slice(), y.as_slice())
}

/// `s` with every `from` turned into `to`.
pub open spec fn replaced(s: Seq<char>, from: char, to: char) -> Seq<char> {
    Seq::new(
        s.len(),
        |i: int|
            if s[i] == from {
                to
            } else {
                s[i]
            },
    )
}

/// Computes `replaced`.
pub fn replace_char(s: &[char], from: char, to: char) -> (r: Vec<char>)
    ensures
        r@ == replaced(s@, from, to),
{
    let mut r: Vec<char> = Vec::new();
    let mut i: usize = 0;
    while i < s.len()
        invariant
            i <= s@.len(),
            r@ == replaced(s@, from, to).take(i as int),
        decreases s@.len() - i,
    {
        if s[i] == from {
            r.push(to);
        } else {
            r.push(s[i]);
        }
        i = i + 1;
    }
    assert(r@ =~= replaced(s@, from, to));
    r
}

/// Whether every character of `s` is an ASCII digit.
pub open spec fn all_digits(s: Seq<char>) -> bool {
    forall|i: int| 0 <= i < s.len() ==> digit(#[trigger] s[i])
}

/// Whether every character of `s` is an ASCII hexadecimal digit.
pub open spec fn all_hex_digits(s: Seq<char>) -> bool {
    forall|i: int| 0 <= i < s.len() ==> hex_digit(#[trigger] s[i])
}

/// Computes `all_digits`.
pub fn only_digits(s: &[char]) -> (r: bool)
    ensures
        r == all_digits(s@),
{
    let mut i: usize = 0;
    while i < s.len()
        invariant
            i <= s@.len(),
            forall|j: int| 0 <= j < i ==> digit(#[trigger] s@[j]),
        decreases s@.len() - i,
    {
        if !is_digit(s[i]) {
            return false;
        }
        i = i + 1;
    }
    true
}

/// Computes `all_hex_digits`.
pub fn only_hex_digits(s: &[char]) -> (r: bool)
    ensures
        r == all_hex_digits(s@),
{
    let mut i: usize = 0;
    while i < s.len()
        invariant
            i <= s@.len(),
            forall|j: int| 0 <= j < i ==> hex_digit(#[trigger] s@[j]),
        decreases s@.len() - i,
    {
        if !is_hex_digit(s[i]) {
            return false;
        }
        i = i + 1;
    }
    true
}

// ---------------------------------------------------------------------------
// Trimming
// ---------------------------------------------------------------------------

/// `s` without its leading white space.
pub open spec fn trim_start(s: Seq<char>) -> Seq<char>
    decreases s.len(),
{
    if s.len() > 0 && white(s[0]) {
        trim_start(s.drop_first())
    } else {
        s
    }
}

/// `s` without its trailing white space.
pub open spec fn trim_end(s: Seq<char>) -> Seq<char>
    decreases s.len(),
{
    if s.len() > 0 && white(s.last()) {
        trim_end(s.drop_last())
    } else {
        s
    }
}

/// `s` without the white space around it.
pub open spec fn trimmed(s: Seq<char>) -> Seq<char> {
    trim_end(trim_start(s))
}

/// Computes `trimmed`.
pub fn trim(s: &[char]) -> (r: &[char])
    ensures
        r@ == trimmed(s@),
{
    let n = s.len();
    let mut i: usize = 0;
    assert(s@.subrange(0, n as int) =~= s@);
    while i < n && is_white(s[i])
        invariant
            i <= n == s@.len(),
            trim_start(s@) == trim_start(s@.subrange(i as int, n as int)),
        decreases n - i,
    {
        assert(s@.subrange(i as int, n as int).drop_first() =~= s@.subrange(i + 1, n as int));
        i = i + 1;
    }
    let mut j: usize = n;
    while j > i && is_white(s[j - 1])
        invariant
            i <= j <= n == s@.len(),
            trim_end(s@.subrange(i as int, n as int)) == trim_end(
                s@.subrange(i as int, j as int),
            ),
        decreases j,
    {
        assert(s@.subrange(i as int, j as int).drop_last() =~= s@.subrange(i as int, j - 1));
        j = j - 1;
    }
    vstd::slice::slice_subrange(s, i, j)
}

/// `s` without the `c`s at its end.
pub open spec fn without_trailing(s: Seq<char>, c: char) -> Seq<char>
    decreases s.len(),
{
    if s.len() > 0 && s.last() == c {
        without_trailing(s.drop_last(), c)
    } else {
        s
    }
}

/// Computes `without_trailing`.
pub fn trim_trailing(s: &[char], c: char) -> (r: &[char])
    ensures
        r@ == without_trailing(s@, c),
{
    let mut j: usize = s.len();
    assert(s@.subrange(0, j as int) =~= s@);
    while j > 0 && s[j - 1] == c
        invariant
            j <= s@.len(),
            without_trailing(s@, c) == without_trailing(s@.subrange(0, j as int), c),
        decreases j,
    {
        assert(s@.subrange(0, j as int).drop_last() =~= s@.subrange(0, j - 1));
        j = j - 1;
    }
    vstd::slice::slice_subrange(s, 0, j)
}

// ---------------------------------------------------------------------------
// Optional texts
// ---------------------------------------------------------------------------

/// The view of an optional string.
pub open spec fn text_in(s: Option<String>) -> Option<Seq<char>> {
    match s {
        Some(s) => Some(s@),
        None => None,
    }
}

/// The views of a list of optional strings.
pub open spec fn texts_in(list: Seq<Option<String>>) -> Seq<Option<Seq<char>>> {
    Seq::new(list.len(), |i: int| text_in(list[i]))
}

/// The first of the candidates that is there and not blank, without the white
/// space around it.
pub open spec fn first_filled_in(candidates: Seq<Option<Seq<char>>>) -> Option<Seq<char>>
    decreases candidates.len(),
{
    if candidates.len() == 0 {
        None
    } else {
        match candidates[0] {
            Some(s) if trimmed(s).len() > 0 => Some(trimmed(s)),
            _ => first_filled_in(candidates.drop_first()),
        }
    }
}

/// Picks the first candidate that is there and not blank, trimmed.
pub fn pick_filled_in(candidates: &[Option<String>]) -> (message: Option<String>)
    ensures
        text_in(message) == first_filled_in(texts_in(candidates@)),
{
    let n = candidates.len();
    let ghost all = texts_in(candidates@);
    let mut i: usize = 0;
    assert(all.subrange(0, n as int) =~= all);
    while i < n
        invariant
            i <= n == candidates@.len(),
            all == texts_in(candidates@),
            first_filled_in(all) == first_filled_in(all.subrange(i as int, n as int)),
        decreases n - i,
    {
        proof {
            let rest = all.subrange(i as int, n as int);
            assert(rest[0] == text_in(candidates@[i as int]));
            assert(rest.drop_first() =~= all.subrange(i + 1, n as int));
        }
        if let Some(s) = &candidates[i] {
            let chars = to_chars(s.as_str());
            let shown = trim(chars.as_slice());
            if shown.len() > 0 {
                return Some(from_chars(shown));
            }
        }
        i = i + 1;
    }
    None
}

// ---------------------------------------------------------------------------
// Searching
// ---------------------------------------------------------------------------

/// Whether `s` begins with `p`.
pub open spec fn begins(s: Seq<char>, p: Seq<char>) -> bool {
    p.len() <= s.len() && s.subrange(0, p.len() as int) == p
}

/// Whether `s` ends with `p`.
pub open spec fn ends(s: Seq<char>, p: Seq<char>) -> bool {
    p.len() <= s.len() && s.subrange(s.len() - p.len(), s.len() as int) == p
}

/// Whether `p` stands in `s` from position `i` on.
pub open spec fn occurs_at(s: Seq<char>, p: Seq<char>, i: int) -> bool {
    0 <= i && i + p.len() <= s.len() && s.subrange(i, i + p.len()) == p
}

/// Whether `p` stands anywhere in `s`.
pub open spec fn occurs(s: Seq<char>, p: Seq<char>) -> bool {
    exists|i: int| #[trigger] occurs_at(s, p, i)
}

/// Computes `begins`.
pub fn starts_with(s: &[char], p: &[char]) -> (r: bool)
    ensures
        r == begins(s@, p@),
{
    p.len() <= s.len() && same_chars(vstd::slice::slice_subrange(s, 0, p.len()), p)
}

/// Computes `ends`.
pub fn ends_with(s: &[char], p: &[char]) -> (r: bool)
    ensures
        r == ends(s@, p@),
{
    p.len() <= s.len() && same_chars(
        vstd::slice::slice_subrange(s, s.len() - p.len(), s.len()),
        p,
    )
}

/// Computes `occurs`.
pub fn contains(s: &[char], p: &[char]) -> (r: bool)
    ensures
        r == occurs(s@, p@),
{
    let n = s.len();
    let m = p.len();
    if m > n {
        return false;
    }
    let mut i: usize = 0;
    while i <= n - m
        invariant
            n == s@.len(),
            m == p@.len(),
            m <= n,
            i <= n - m + 1,
            forall|j: int| 0 <= j < i ==> !#[trigger] occurs_at(s@, p@, j),
        decreases n - m + 1 - i,
    {
        if same_chars(vstd::slice::slice_subrange(s, i, i + m), p) {
            assert(occurs_at(s@, p@, i as int));
            return true;
        }
        if i == n - m {
            return false;
        }
        i = i + 1;
    }
    false
}

/// The position of the first `c` in `s`, or the length of `s` without one.
pub open spec fn first_at(s: Seq<char>, c: char) -> int
    decreases s.len(),
{
    if s.len() == 0 || s[0] == c {
        0
    } else {
        1 + first_at(s.drop_first(), c)
    }
}

/// What `first_at` says of the characters before and at the position.
pub proof fn lemma_first_at(s: Seq<char>, c: char)
    ensures
        0 <= first_at(s, c) <= s.len(),
        forall|j: int| 0 <= j < first_at(s, c) ==> s[j] != c,
        first_at(s, c) < s.len() ==> s[first_at(s, c)] == c,
    decreases s.len(),
{
    if s.len() > 0 && s[0] != c {
        let rest = s.drop_first();
        lemma_first_at(rest, c);
        assert forall|j: int| 0 <= j < first_at(s, c) implies s[j] != c by {
            if j > 0 {
                assert(rest[j - 1] == s[j]);
            }
        }
    }
}

/// A position that stops at the first `c`, or at the end, is `first_at`.
pub proof fn lemma_first_at_is(s: Seq<char>, c: char, i: int)
    requires
        0 <= i <= s.len(),
        forall|j: int| 0 <= j < i ==> s[j] != c,
        i < s.len() ==> s[i] == c,
    ensures
        first_at(s, c) == i,
{
    lemma_first_at(s, c);
    let k = first_at(s, c);
    if k < i {
        assert(s[k] != c);
    }
    if i < k {
        assert(s[i] != c);
    }
}

/// Computes `first_at`.
pub fn find_char(s: &[char], c: char) -> (i: usize)
    ensures
        i == first_at(s@, c),
        i <= s@.len(),
{
    let mut i: usize = 0;
    while i < s.len() && s[i] != c
        invariant
            i <= s@.len(),
            forall|j: int| 0 <= j < i ==> s@[j] != c,
        decreases s@.len() - i,
    {
        i = i + 1;
    }
    proof {
        lemma_first_at_is(s@, c, i as int);
    }
    i
}

/// Whether `c` stands in `s`.
pub fn has_char(s: &[char], c: char) -> (r: bool)
    ensures
        r == s@.contains(c),
{
    let i = find_char(s, c);
    proof {
        lemma_first_at(s@, c);
    }
    i < s.len()
}

/// `s` up to its last `c`, or all of it where it has none.
pub open spec fn before_last(s: Seq<char>, c: char) -> Seq<char> {
    if s.contains(c) {
        s.subrange(0, last_at(s, c))
    } else {
        s
    }
}

/// The position of the last `c` in `s`, or `-1` without one.
pub open spec fn last_at(s: Seq<char>, c: char) -> int
    decreases s.len(),
{
    if s.len() == 0 {
        -1
    } else if s.last() == c {
        s.len() - 1
    } else {
        last_at(s.drop_last(), c)
    }
}

/// Computes `before_last`.
pub fn cut_before_last(s: &[char], c: char) -> (r: &[char])
    ensures
        r@ == before_last(s@, c),
{
    let mut j: usize = s.len();
    assert(s@.subrange(0, j as int) =~= s@);
    while j > 0 && s[j - 1] != c
        invariant
            j <= s@.len(),
            last_at(s@, c) == last_at(s@.subrange(0, j as int), c),
            forall|k: int| j <= k < s@.len() ==> s@[k] != c,
        decreases j,
    {
        assert(s@.subrange(0, j as int).drop_last() =~= s@.subrange(0, j - 1));
        j = j - 1;
    }
    if j == 0 {
        s
    } else {
        assert(s@.subrange(0, j as int).last() == s@[j - 1]);
        assert(s@[j - 1] == c);
        vstd::slice::slice_subrange(s, 0, j - 1)
    }
}

// ---------------------------------------------------------------------------
// Splitting
// ---------------------------------------------------------------------------

/// The pieces of `s` between its `sep`s; one more than there are of them.
pub open spec fn split_on(s: Seq<char>, sep: char) -> Seq<Seq<char>>
    decreases s.len(),
    via split_on_decreases
{
    let i = first_at(s, sep);
    if i < s.len() {
        seq![s.subrange(0, i)] + split_on(s.subrange(i + 1, s.len() as int), sep)
    } else {
        seq![s]
    }
}

#[via_fn]
proof fn split_on_decreases(s: Seq<char>, sep: char) {
    lemma_first_at(s, sep);
}

/// Computes `split_on`.
pub fn split(s: &[char], sep: char) -> (parts: Vec<String>)
    ensures
        texts(parts@) == split_on(s@, sep),
{
    let n = s.len();
    let mut parts: Vec<String> = Vec::new();
    let mut from: usize = 0;
    assert(s@.subrange(0, n as int) =~= s@);
    loop
        invariant
            from <= n == s@.len(),
            split_on(s@, sep) == texts(parts@) + split_on(
                s@.subrange(from as int, n as int),
                sep,
            ),
        decreases n - from,
    {
        let rest = vstd::slice::slice_subrange(s, from, n);
        let i = find_char(rest, sep);
        let ghost before = parts@;
        if i < rest.len() {
            parts.push(from_chars(vstd::slice::slice_subrange(rest, 0, i)));
            proof {
                let piece = rest@.subrange(0, i as int);
                let tail = rest@.subrange(i + 1, rest@.len() as int);
                assert(tail =~= s@.subrange(from + i + 1, n as int));
                assert(texts(parts@) =~= texts(before) + seq![piece]);
                assert(split_on(s@, sep) =~= texts(parts@) + split_on(tail, sep));
            }
            from = from + i + 1;
        } else {
            parts.push(from_chars(rest));
            proof {
                assert(texts(parts@) =~= texts(before) + seq![rest@]);
            }
            return parts;
        }
    }
}

/// The lines of `s`: each ends at a line feed, which does not belong to it,
/// nor does a carriage return right before it; after the last line feed there
/// is a line only where characters follow.
pub open spec fn lines_of(s: Seq<char>) -> Seq<Seq<char>>
    decreases s.len(),
    via lines_of_decreases
{
    let i = first_at(s, '\n');
    if s.len() == 0 {
        Seq::empty()
    } else if i < s.len() {
        seq![without_cr(s.subrange(0, i))] + lines_of(s.subrange(i + 1, s.len() as int))
    } else {
        seq![s]
    }
}

#[via_fn]
proof fn lines_of_decreases(s: Seq<char>) {
    lemma_first_at(s, '\n');
}

/// `s` without one carriage return at its end.
pub open spec fn without_cr(s: Seq<char>) -> Seq<char> {
    if s.len() > 0 && s.last() == '\r' {
        s.drop_last()
    } else {
        s
    }
}

/// Computes `lines_of`.
pub fn lines(s: &[char]) -> (found: Vec<String>)
    ensures
        texts(found@) == lines_of(s@),
{
    let n = s.len();
    let mut found: Vec<String> = Vec::new();
    let mut from: usize = 0;
    assert(s@.subrange(0, n as int) =~= s@);
    while from < n
        invariant
            from <= n == s@.len(),
            lines_of(s@) == texts(found@) + lines_of(s@.subrange(from as int, n as int)),
        decreases n - from,
    {
        let rest = vstd::slice::slice_subrange(s, from, n);
        let i = find_char(rest, '\n');
        let ghost before = found@;
        if i < rest.len() {
            let end: usize = if i > 0 && rest[i - 1] == '\r' {
                i - 1
            } else {
                i
            };
            found.push(from_chars(vstd::slice::slice_subrange(rest, 0, end)));
            proof {
                let line = without_cr(rest@.subrange(0, i as int));
                let tail = rest@.subrange(i + 1, rest@.len() as int);
                assert(rest@.subrange(0, end as int) =~= line);
                assert(tail =~= s@.subrange(from + i + 1, n as int));
                assert(texts(found@) =~= texts(before) + seq![line]);
                assert(lines_of(s@) =~= texts(found@) + lines_of(tail));
            }
            from = from + i + 1;
        } else {
            found.push(from_chars(rest));
            proof {
                let tail = s@.subrange(n as int, n as int);
                assert(tail =~= Seq::empty());
                assert(texts(found@) =~= texts(before) + seq![rest@]);
                assert(lines_of(s@) =~= texts(found@) + lines_of(tail));
            }
            from = n;
        }
    }
    proof {
        let tail = s@.subrange(n as int, n as int);
        assert(tail =~= Seq::empty());
        assert(texts(found@) + lines_of(tail) =~= texts(found@));
    }
    found
}

// ---------------------------------------------------------------------------
// Lengths in bytes
// ---------------------------------------------------------------------------

/// The number of bytes of a character in UTF-8.
pub open spec fn byte_len(c: char) -> nat {
    if c <= '\u{7f}' {
        1
    } else if c <= '\u{7ff}' {
        2
    } else if c <= '\u{ffff}' {
        3
    } else {
        4
    }
}

/// The characters that make up the first `n` bytes of `s` in UTF-8; nothing
/// where `s` is shorter or a character lies across the end.
pub open spec fn first_bytes(s: Seq<char>, n: nat) -> Option<Seq<char>>
    decreases s.len(),
{
    if n == 0 {
        Some(Seq::empty())
    } else if s.len() == 0 || byte_len(s[0]) > n {
        None
    } else {
        match first_bytes(s.drop_first(), (n - byte_len(s[0])) as nat) {
            Some(rest) => Some(seq![s[0]] + rest),
            None => None,
        }
    }
}

/// Computes `byte_len`.
pub fn char_bytes(c: char) -> (n: usize)
    ensures
        n == byte_len(c),
{
    if c <= '\u{7f}' {
        1
    } else if c <= '\u{7ff}' {
        2
    } else if c <= '\u{ffff}' {
        3
    } else {
        4
    }
}

/// What remains of `first_bytes` after some characters.
proof fn lemma_first_bytes_step(s: Seq<char>, taken: Seq<char>, i: int, left: nat, n: nat)
    requires
        0 <= i < s.len(),
        left > 0,
        byte_len(s[i]) <= left,
        first_bytes(s, n) == (match first_bytes(s.subrange(i, s.len() as int), left) {
            Some(rest) => Some(taken + rest),
            None => None::<Seq<char>>,
        }),
    ensures
        first_bytes(s, n) == (match first_bytes(
            s.subrange(i + 1, s.len() as int),
            (left - byte_len(s[i])) as nat,
        ) {
            Some(rest) => Some(taken.push(s[i]) + rest),
            None => None::<Seq<char>>,
        }),
{
    let here = s.subrange(i, s.len() as int);
    assert(here.drop_first() =~= s.subrange(i + 1, s.len() as int));
    match first_bytes(s.subrange(i + 1, s.len() as int), (left - byte_len(s[i])) as nat) {
        Some(rest) => {
            assert(taken + (seq![s[i]] + rest) =~= taken.push(s[i]) + rest);
        },
        None => {},
    }
}

/// Computes `first_bytes`.
pub fn take_bytes(s: &str, n: usize) -> (r: Option<String>)
    ensures
        match first_bytes(s@, n as nat) {
            Some(chars) => r matches Some(t) && t@ == chars,
            None => r is None,
        },
{
    let chars = to_chars(s);
    let mut taken = String::new();
    let mut left: usize = n;
    let mut i: usize = 0;
    proof {
        assert(s@.subrange(0, s@.len() as int) =~= s@);
        match first_bytes(s@, n as nat) {
            Some(rest) => {
                assert(Seq::<char>::empty() + rest =~= rest);
            },
            None => {},
        }
    }
    while left > 0
        invariant
            chars@ == s@,
            i <= s@.len(),
            first_bytes(s@, n as nat) == (match first_bytes(
                s@.subrange(i as int, s@.len() as int),
                left as nat,
            ) {
                Some(rest) => Some(taken@ + rest),
                None => None::<Seq<char>>,
            }),
        decreases left,
    {
        if i >= chars.len() {
            return None;
        }
        let width = char_bytes(chars[i]);
        assert(s@.subrange(i as int, s@.len() as int)[0] == chars@[i as int]);
        if width > left {
            return None;
        }
        proof {
            lemma_first_bytes_step(s@, taken@, i as int, left as nat, n as nat);
        }
        taken.push(chars[i]);
        left = left - width;
        i = i + 1;
    }
    assert(taken@ + Seq::<char>::empty() =~= taken@);
    Some(taken)
}

// ---------------------------------------------------------------------------
// Order
// ---------------------------------------------------------------------------

/// Whether `a` comes before `b`, character by character by code point; a text
/// comes before its continuations.
pub open spec fn before(a: Seq<char>, b: Seq<char>) -> bool
    decreases a.len(),
{
    if b.len() == 0 {
        false
    } else if a.len() == 0 {
        true
    } else if a[0] != b[0] {
        a[0] < b[0]
    } else {
        before(a.drop_first(), b.drop_first())
    }
}

/// No text comes before itself.
pub proof fn lemma_before_irreflexive(a: Seq<char>)
    ensures
        !before(a, a),
    decreases a.len(),
{
    if a.len() > 0 {
        lemma_before_irreflexive(a.drop_first());
    }
}

/// What comes before something that comes before a third comes before that.
pub proof fn lemma_before_transitive(a: Seq<char>, b: Seq<char>, c: Seq<char>)
    requires
        before(a, b),
        before(b, c),
    ensures
        before(a, c),
    decreases a.len(),
{
    if a.len() > 0 && a[0] == b[0] && b[0] == c[0] {
        lemma_before_transitive(a.drop_first(), b.drop_first(), c.drop_first());
    }
}

/// Of two different texts one comes before the other.
pub proof fn lemma_before_total(a: Seq<char>, b: Seq<char>)
    ensures
        before(a, b) || before(b, a) || a == b,
    decreases a.len(),
{
    if a.len() > 0 && b.len() > 0 {
        if a[0] == b[0] {
            lemma_before_total(a.drop_first(), b.drop_first());
            if a.drop_first() == b.drop_first() {
                assert(a =~= seq![a[0]] + a.drop_first());
                assert(b =~= seq![b[0]] + b.drop_first());
            }
        }
    } else if a.len() == 0 && b.len() == 0 {
        assert(a =~= b);
    }
}

/// Computes `before`.
pub fn comes_before(a: &[char], b: &[char]) -> (r: bool)
    ensures
        r == before(a@, b@),
{
    let mut i: usize = 0;
    assert(a@.subrange(0, a@.len() as int) =~= a@);
    assert(b@.subrange(0, b@.len() as int) =~= b@);
    while i < a.len() && i < b.len() && a[i] == b[i]
        invariant
            i <= a@.len(),
            i <= b@.len(),
            before(a@, b@) == before(
                a@.subrange(i as int, a@.len() as int),
                b@.subrange(i as int, b@.len() as int),
            ),
        decreases a@.len() - i,
    {
        assert(a@.subrange(i as int, a@.len() as int).drop_first() =~= a@.subrange(
            i + 1,
            a@.len() as int,
        ));
        assert(b@.subrange(i as int, b@.len() as int).drop_first() =~= b@.subrange(
            i + 1,
            b@.len() as int,
        ));
        i = i + 1;
    }
    if i >= b.len() {
        false
    } else if i >= a.len() {
        true
    } else {
        a[i] < b[i]
    }
}

// ---------------------------------------------------------------------------
// Facts about trimming, case and lines
// ---------------------------------------------------------------------------

/// Trimming at the front never lengthens a text.
proof fn lemma_trim_start_len(s: Seq<char>)
    ensures
        trim_start(s).len() <= s.len(),
    decreases s.len(),
{
    if s.len() > 0 && white(s[0]) {
        lemma_trim_start_len(s.drop_first());
    }
}

/// Trimming at the end never lengthens a text.
proof fn lemma_trim_end_len(s: Seq<char>)
    ensures
        trim_end(s).len() <= s.len(),
    decreases s.len(),
{
    if s.len() > 0 && white(s.last()) {
        lemma_trim_end_len(s.drop_last());
    }
}

/// A text is its own trimming exactly where no white space stands at its ends.
pub proof fn lemma_trimmed_is(s: Seq<char>)
    ensures
        trimmed(s) == s <==> (s.len() == 0 || (!white(s[0]) && !white(s.last()))),
{
    if s.len() > 0 {
        if white(s[0]) {
            lemma_trim_start_len(s.drop_first());
            lemma_trim_end_len(trim_start(s));
        } else if white(s.last()) {
            lemma_trim_end_len(s.drop_last());
        }
    }
}

/// A space before or after a trimmed text is trimmed away.
pub proof fn lemma_trimmed_space(s: Seq<char>)
    requires
        trimmed(s) == s,
    ensures
        trimmed(s.push(' ')) == s,
        trimmed(seq![' '] + s) == s,
{
    lemma_trimmed_is(s);
    assert((seq![' '] + s).drop_first() =~= s);
    assert(s.push(' ').drop_last() =~= s);
    if s.len() == 0 {
        assert(s.push(' ').drop_first() =~= s);
    }
}

/// Whether a character is white space does not depend on its case.
proof fn lemma_trim_start_lower(s: Seq<char>)
    ensures
        trim_start(lower(s)) == lower(trim_start(s)),
    decreases s.len(),
{
    if s.len() > 0 && white(s[0]) {
        lemma_trim_start_lower(s.drop_first());
        assert(lower(s).drop_first() =~= lower(s.drop_first()));
    }
}

/// The same at the end.
proof fn lemma_trim_end_lower(s: Seq<char>)
    ensures
        trim_end(lower(s)) == lower(trim_end(s)),
    decreases s.len(),
{
    if s.len() > 0 && white(s.last()) {
        lemma_trim_end_lower(s.drop_last());
        assert(lower(s).drop_last() =~= lower(s.drop_last()));
    }
}

/// Trimming and making small may change places.
pub proof fn lemma_trimmed_lower(s: Seq<char>)
    ensures
        trimmed(lower(s)) == lower(trimmed(s)),
{
    lemma_trim_start_lower(s);
    lemma_trim_end_lower(trim_start(s));
}

/// Whether a text has no ASCII capital.
pub open spec fn no_capitals(s: Seq<char>) -> bool {
    forall|i: int| 0 <= i < s.len() ==> !('A' <= #[trigger] s[i] <= 'Z')
}

/// A text without capitals stays as it is when made small.
pub proof fn lemma_lower_is(s: Seq<char>)
    requires
        no_capitals(s),
    ensures
        lower(s) == s,
{
    assert(lower(s) =~= s);
}

/// Where a text ends with a line feed, what is appended to it makes lines of
/// its own.
pub proof fn lemma_lines_append(x: Seq<char>, y: Seq<char>)
    requires
        x.len() == 0 || x.last() == '\n',
    ensures
        lines_of(x + y) == lines_of(x) + lines_of(y),
    decreases x.len(),
{
    if x.len() == 0 {
        assert(x + y =~= y);
        assert(lines_of(x) + lines_of(y) =~= lines_of(y));
    } else {
        lemma_first_at(x, '\n');
        let i = first_at(x, '\n');
        let rest = x.subrange(i + 1, x.len() as int);
        lemma_first_at_is(x + y, '\n', i);
        assert((x + y).subrange(0, i) =~= x.subrange(0, i));
        assert((x + y).subrange(i + 1, (x + y).len() as int) =~= rest + y);
        lemma_lines_append(rest, y);
        assert(lines_of(x + y) =~= lines_of(x) + lines_of(y));
    }
}

/// A text without line feeds, followed by one, is one line.
pub proof fn lemma_one_line(s: Seq<char>)
    requires
        !s.contains('\n'),
    ensures
        lines_of(s.push('\n')) == seq![without_cr(s)],
{
    let t = s.push('\n');
    assert forall|j: int| 0 <= j < s.len() implies t[j] != '\n' by {
        assert(s[j] != '\n');
    }
    lemma_first_at_is(t, '\n', s.len() as int);
    assert(t.subrange(0, s.len() as int) =~= s);
    let rest = t.subrange(s.len() as int + 1, t.len() as int);
    assert(rest =~= Seq::empty());
    assert(lines_of(rest) =~= Seq::empty());
    assert(lines_of(t) == seq![without_cr(s)] + lines_of(rest));
    assert(lines_of(t) =~= seq![without_cr(s)]);
}

// ---------------------------------------------------------------------------
// Laws
// ---------------------------------------------------------------------------

/// A list of strings is seen as the texts of the strings, in order.
pub proof fn law_texts_are_the_strings(list: Seq<String>, optional: Seq<Option<String>>)
    ensures
        texts(list).len() == list.len(),
        forall|i: int| 0 <= i < list.len() ==> #[trigger] texts(list)[i] == list[i]@,
        texts_in(optional).len() == optional.len(),
        forall|i: int|
            0 <= i < optional.len() ==> (#[trigger] texts_in(optional)[i] is Some <==> optional[i]
                is Some),
        forall|i: int|
            0 <= i < optional.len() && optional[i] is Some ==> (#[trigger] texts_in(
                optional,
            )[i])->Some_0 == optional[i]->Some_0@,
{
}

/// Making a text small moves the 26 ASCII capitals by 32 code points and keeps
/// every other character in its place.
pub proof fn law_lower_moves_capitals(s: Seq<char>, i: int)
    requires
        0 <= i < s.len(),
    ensures
        lower(s).len() == s.len(),
        65 <= s[i] as u32 <= 90 ==> lower(s)[i] as u32 == s[i] as u32 + 32,
        !(65 <= s[i] as u32 <= 90) ==> lower(s)[i] == s[i],
{
    lemma_capital_code(s[i]);
}

/// The capitals are the characters with the codes 65 to 90.
proof fn lemma_capital_code(c: char)
    ensures
        'A' <= c <= 'Z' <==> 65 <= c as u32 <= 90,
        'A' <= c <= 'Z' ==> lower_char(c) as u32 == c as u32 + 32,
{
}

/// Turning a character turns each place where it stands and no other.
pub proof fn law_replacing_is_everywhere(s: Seq<char>, from: char, to: char, i: int)
    requires
        0 <= i < s.len(),
    ensures
        replaced(s, from, to).len() == s.len(),
        s[i] == from ==> replaced(s, from, to)[i] == to,
        s[i] != from ==> replaced(s, from, to)[i] == s[i],
{
}

/// Whether all of a text is white space.
pub open spec fn blank(s: Seq<char>) -> bool {
    forall|i: int| 0 <= i < s.len() ==> white(#[trigger] s[i])
}

/// Trimming takes away the white space around a text, all of it and nothing
/// else.
pub proof fn law_trimming_bares_the_text(before: Seq<char>, s: Seq<char>, after: Seq<char>)
    requires
        blank(before),
        blank(after),
        s.len() == 0 || (!white(s[0]) && !white(s.last())),
    ensures
        trimmed(before + s + after) == s,
    decreases before.len(),
{
    let whole = before + s + after;
    if before.len() > 0 {
        assert(white(before[0]));
        assert(whole.drop_first() =~= before.drop_first() + s + after);
        assert forall|i: int| 0 <= i < before.drop_first().len() implies white(
            #[trigger] before.drop_first()[i],
        ) by {
            assert(white(before[i + 1]));
        }
        law_trimming_bares_the_text(before.drop_first(), s, after);
    } else {
        assert(whole =~= s + after);
        if s.len() == 0 {
            assert(whole =~= after);
            lemma_trim_start_of_blank(after);
            assert(trim_end(trim_start(after)) =~= s);
        } else {
            assert(whole[0] == s[0]);
            lemma_trim_end_of_tail(s, after);
        }
    }
}

/// Nothing is left of white space.
proof fn lemma_trim_start_of_blank(s: Seq<char>)
    requires
        blank(s),
    ensures
        trim_start(s).len() == 0,
    decreases s.len(),
{
    if s.len() > 0 {
        assert(white(s[0]));
        assert forall|i: int| 0 <= i < s.drop_first().len() implies white(
            #[trigger] s.drop_first()[i],
        ) by {
            assert(white(s[i + 1]));
        }
        lemma_trim_start_of_blank(s.drop_first());
    }
}

/// White space behind a text is trimmed away.
proof fn lemma_trim_end_of_tail(s: Seq<char>, tail: Seq<char>)
    requires
        s.len() > 0,
        !white(s.last()),
        blank(tail),
    ensures
        trim_end(s + tail) == s,
    decreases tail.len(),
{
    if tail.len() == 0 {
        assert(s + tail =~= s);
    } else {
        assert(white(tail[tail.len() - 1]));
        assert((s + tail).drop_last() =~= s + tail.drop_last());
        assert forall|i: int| 0 <= i < tail.drop_last().len() implies white(
            #[trigger] tail.drop_last()[i],
        ) by {
            assert(white(tail[i]));
        }
        lemma_trim_end_of_tail(s, tail.drop_last());
    }
}

/// A text and so many of a character behind it, which it does not end with
/// itself, is that text once those are gone.
pub proof fn law_trailing_characters_go(s: Seq<char>, c: char, n: nat)
    requires
        s.len() == 0 || s.last() != c,
    ensures
        without_trailing(s + Seq::new(n, |i: int| c), c) == s,
    decreases n,
{
    let tail = Seq::new(n, |i: int| c);
    if n == 0 {
        assert(s + tail =~= s);
    } else {
        let fewer = Seq::new((n - 1) as nat, |i: int| c);
        assert((s + tail).drop_last() =~= s + fewer);
        law_trailing_characters_go(s, c, (n - 1) as nat);
    }
}

/// Of candidates with none that says anything before it, the first that says
/// something is picked, without the white space around it; without such a one
/// nothing is.
pub proof fn law_first_that_says_something(
    silent: Seq<Option<Seq<char>>>,
    s: Seq<char>,
    rest: Seq<Option<Seq<char>>>,
)
    requires
        forall|i: int|
            0 <= i < silent.len() ==> (#[trigger] silent[i] is None || blank(silent[i]->Some_0)),
    ensures
        first_filled_in(silent) is None,
        s.len() > 0 && !white(s[0]) && !white(s.last()) ==> first_filled_in(
            silent + seq![Some(s)] + rest,
        ) == Some(s),
    decreases silent.len(),
{
    let all = silent + seq![Some(s)] + rest;
    if silent.len() == 0 {
        lemma_trimmed_is(s);
        assert(all[0] == Some(s));
    } else {
        assert(silent[0] is None || blank(silent[0]->Some_0));
        if silent[0] is Some {
            lemma_trim_start_of_blank(silent[0]->Some_0);
            lemma_trim_end_len(trim_start(silent[0]->Some_0));
        }
        let fewer = silent.drop_first();
        assert forall|i: int| 0 <= i < fewer.len() implies (#[trigger] fewer[i] is None || blank(
            fewer[i]->Some_0,
        )) by {
            assert(fewer[i] == silent[i + 1]);
        }
        assert(all.drop_first() =~= fewer + seq![Some(s)] + rest);
        law_first_that_says_something(fewer, s, rest);
    }
}

/// A text begins with its own beginning and ends with its own end, and holds
/// whatever stands between the two.
pub proof fn law_parts_are_found(a: Seq<char>, p: Seq<char>, b: Seq<char>)
    ensures
        begins(p + b, p),
        ends(a + p, p),
        occurs(a + p + b, p),
{
    assert((p + b).subrange(0, p.len() as int) =~= p);
    assert((a + p).subrange(a.len() as int, (a + p).len() as int) =~= p);
    let s = a + p + b;
    assert(s.subrange(a.len() as int, a.len() as int + p.len()) =~= p);
    assert(occurs_at(s, p, a.len() as int));
}

/// What is found in a text is part of it: the text is made of it and of what
/// comes before and after it.
pub proof fn law_found_parts_are_there(s: Seq<char>, p: Seq<char>)
    ensures
        begins(s, p) ==> exists|b: Seq<char>| s == #[trigger] (p + b),
        ends(s, p) ==> exists|a: Seq<char>| s == #[trigger] (a + p),
        occurs(s, p) ==> exists|a: Seq<char>, b: Seq<char>| s == #[trigger] (a + p + b),
{
    if begins(s, p) {
        let b = s.subrange(p.len() as int, s.len() as int);
        assert(s =~= p + b);
    }
    if ends(s, p) {
        let a = s.subrange(0, s.len() - p.len());
        assert(s =~= a + p);
    }
    if occurs(s, p) {
        let i = choose|i: int| #[trigger] occurs_at(s, p, i);
        let a = s.subrange(0, i);
        let b = s.subrange(i + p.len(), s.len() as int);
        assert(s =~= a + p + b);
    }
}

/// What comes before the last of a character is what is cut off there; a text
/// without it stays whole.
pub proof fn law_cut_at_the_last(a: Seq<char>, c: char, b: Seq<char>)
    requires
        !b.contains(c),
    ensures
        before_last(a + seq![c] + b, c) == a,
        before_last(b, c) == b,
    decreases b.len(),
{
    let s = a + seq![c] + b;
    assert(s[a.len() as int] == c);
    lemma_last_at_is(a, c, b);
    assert(s.subrange(0, a.len() as int) =~= a);
}

/// The last of a character stands where none follows it.
proof fn lemma_last_at_is(a: Seq<char>, c: char, b: Seq<char>)
    requires
        !b.contains(c),
    ensures
        last_at(a + seq![c] + b, c) == a.len(),
    decreases b.len(),
{
    let s = a + seq![c] + b;
    if b.len() > 0 {
        let shorter = b.drop_last();
        assert(s.last() == b.last());
        assert(b.contains(b[b.len() - 1]));
        assert(s.drop_last() =~= a + seq![c] + shorter);
        assert forall|i: int| 0 <= i < shorter.len() implies shorter[i] != c by {
            assert(b.contains(b[i]));
        }
        lemma_last_at_is(a, c, shorter);
    }
}

/// Texts with a separator between them.
pub open spec fn joined_by(parts: Seq<Seq<char>>, sep: char) -> Seq<char>
    decreases parts.len(),
{
    if parts.len() == 0 {
        Seq::empty()
    } else if parts.len() == 1 {
        parts[0]
    } else {
        parts[0] + seq![sep] + joined_by(parts.drop_first(), sep)
    }
}

/// Splitting is undone by joining, and no piece holds the separator.
pub proof fn law_split_pieces_join(s: Seq<char>, sep: char)
    ensures
        split_on(s, sep).len() > 0,
        joined_by(split_on(s, sep), sep) == s,
        forall|i: int|
            0 <= i < split_on(s, sep).len() ==> !(#[trigger] split_on(s, sep)[i]).contains(sep),
    decreases s.len(),
{
    lemma_first_at(s, sep);
    let i = first_at(s, sep);
    let parts = split_on(s, sep);
    if i < s.len() {
        let piece = s.subrange(0, i);
        let tail = s.subrange(i + 1, s.len() as int);
        law_split_pieces_join(tail, sep);
        assert(parts.drop_first() =~= split_on(tail, sep));
        assert(parts[0] == piece);
        assert(s =~= piece + seq![sep] + tail);
        assert forall|k: int| 0 <= k < parts.len() implies !(#[trigger] parts[k]).contains(
            sep,
        ) by {
            if k > 0 {
                assert(parts[k] == split_on(tail, sep)[k - 1]);
            }
        }
    }
}

/// Lines are what line feeds part: a line feed ends one, and with it a carriage
/// return before it; what follows the last line feed is a line as it stands.
pub proof fn law_line_feeds_end_lines(line: Seq<char>, rest: Seq<char>)
    requires
        !line.contains('\n'),
    ensures
        lines_of(line.push('\r').push('\n') + rest) == seq![line] + lines_of(rest),
        line.len() == 0 || line.last() != '\r' ==> lines_of(line.push('\n') + rest) == seq![line]
            + lines_of(rest),
        line.len() > 0 ==> lines_of(line) == seq![line],
        lines_of(Seq::empty()) == Seq::<Seq<char>>::empty(),
{
    let ended = line.push('\r');
    assert(!ended.contains('\n')) by {
        if ended.contains('\n') {
            let i = choose|i: int| 0 <= i < ended.len() && ended[i] == '\n';
            assert(line.contains(line[i]));
        }
    }
    lemma_one_line(ended);
    assert(ended.drop_last() =~= line);
    lemma_lines_append(ended.push('\n'), rest);
    lemma_one_line(line);
    lemma_lines_append(line.push('\n'), rest);
    if line.len() > 0 {
        assert forall|j: int| 0 <= j < line.len() implies line[j] != '\n' by {
            assert(line.contains(line[j]));
        }
        lemma_first_at_is(line, '\n', line.len() as int);
    }
}

/// The first bytes of a text are those of its beginning in UTF-8, where a
/// character ends there.
pub proof fn law_first_bytes_are_a_beginning(s: Seq<char>, n: nat)
    ensures
        match first_bytes(s, n) {
            Some(taken) => {
                &&& begins(s, taken)
                &&& vstd::utf8::encode_utf8(taken).len() == n
            },
            None => forall|k: int|
                0 <= k <= s.len() ==> vstd::utf8::encode_utf8(#[trigger] s.take(k)).len() != n,
        },
    decreases s.len(),
{
    if n == 0 {
        assert(s.subrange(0, 0) =~= Seq::empty());
    } else if s.len() > 0 {
        lemma_byte_len(s[0]);
        let width = byte_len(s[0]);
        let rest = s.drop_first();
        if width <= n {
            let left = (n - width) as nat;
            law_first_bytes_are_a_beginning(rest, left);
            match first_bytes(rest, left) {
                Some(taken) => {
                    let all = seq![s[0]] + taken;
                    assert(all.drop_first() =~= taken);
                    assert(rest.subrange(0, taken.len() as int) =~= s.subrange(
                        1,
                        taken.len() as int + 1,
                    ));
                    assert(s.subrange(0, all.len() as int) =~= all);
                },
                None => {},
            }
        }
        if first_bytes(s, n) is None {
            assert forall|k: int| 0 <= k <= s.len() implies vstd::utf8::encode_utf8(
                #[trigger] s.take(k),
            ).len() != n by {
                let part = s.take(k);
                if k > 0 {
                    assert(part.drop_first() =~= rest.take(k - 1));
                    assert(part[0] == s[0]);
                }
            }
        }
    } else {
        assert forall|k: int| 0 <= k <= s.len() implies vstd::utf8::encode_utf8(
            #[trigger] s.take(k),
        ).len() != n by {
            assert(s.take(k) =~= Seq::empty());
        }
    }
}

/// The bytes of a character in UTF-8 are so many.
proof fn lemma_byte_len(c: char)
    ensures
        vstd::utf8::encode_scalar(c as u32).len() == byte_len(c),
{
    vstd::utf8::char_is_scalar(c);
}

/// The first characters of an ASCII text are its first bytes.
pub proof fn law_first_bytes_of_ascii(s: Seq<char>, n: nat)
    requires
        n <= s.len(),
        forall|i: int| 0 <= i < s.len() ==> #[trigger] s[i] <= '\u{7f}',
    ensures
        first_bytes(s, n) == Some(s.take(n as int)),
    decreases n,
{
    if n > 0 {
        assert(s[0] <= '\u{7f}');
        let rest = s.drop_first();
        assert forall|i: int| 0 <= i < rest.len() implies #[trigger] rest[i] <= '\u{7f}' by {
            assert(rest[i] == s[i + 1]);
        }
        law_first_bytes_of_ascii(rest, (n - 1) as nat);
        assert(seq![s[0]] + rest.take(n - 1) =~= s.take(n as int));
    } else {
        assert(s.take(0) =~= Seq::empty());
    }
}

/// Texts are ordered by the first character in which they differ, and a text
/// comes before what continues it.
pub proof fn law_order_is_by_the_first_difference(
    common: Seq<char>,
    c: char,
    x: Seq<char>,
    d: char,
    y: Seq<char>,
)
    ensures
        c != d ==> (before(common + seq![c] + x, common + seq![d] + y) <==> (c as u32) < (
        d as u32)),
        before(common, common + seq![c] + x),
        !before(common + x, common),
    decreases common.len(),
{
    let a = common + seq![c] + x;
    let b = common + seq![d] + y;
    if common.len() == 0 {
        lemma_char_order(c, d);
        assert(a[0] == c && b[0] == d);
    } else {
        let rest = common.drop_first();
        law_order_is_by_the_first_difference(rest, c, x, d, y);
        assert(a.drop_first() =~= rest + seq![c] + x);
        assert(b.drop_first() =~= rest + seq![d] + y);
        assert((common + x).drop_first() =~= rest + x);
    }
}

/// Characters are ordered by their codes.
proof fn lemma_char_order(c: char, d: char)
    ensures
        c < d <==> (c as u32) < (d as u32),
{
}

/// The characters with the property White_Space are those 25, by their codes;
/// digits and hexadecimal digits are those of ASCII.
pub proof fn law_kinds_of_characters(c: char)
    ensures
        ({
            let code = c as u32;
            &&& white(c) <==> {
                ||| 0x9 <= code <= 0xD
                ||| code == 0x20 || code == 0x85 || code == 0xA0 || code == 0x1680
                ||| 0x2000 <= code <= 0x200A
                ||| code == 0x2028 || code == 0x2029 || code == 0x202F || code == 0x205F
                ||| code == 0x3000
            }
            &&& digit(c) <==> 0x30 <= code <= 0x39
            &&& hex_digit(c) <==> {
                ||| 0x30 <= code <= 0x39
                ||| 0x41 <= code <= 0x46
                ||| 0x61 <= code <= 0x66
            }
        }),
{
}

/// A piece behind a separator, without separators of its own, is the last piece.
pub proof fn law_last_piece_is_split_off(front: Seq<char>, sep: char, piece: Seq<char>)
    requires
        !piece.contains(sep),
    ensures
        split_on(piece, sep) == seq![piece],
        split_on(front + seq![sep] + piece, sep) == split_on(front, sep).push(piece),
    decreases front.len(),
{
    assert forall|j: int| 0 <= j < piece.len() implies piece[j] != sep by {
        assert(piece.contains(piece[j]));
    }
    lemma_first_at_is(piece, sep, piece.len() as int);
    lemma_first_at(front, sep);
    let whole = front + seq![sep] + piece;
    let i = first_at(front, sep);
    lemma_first_at_is(whole, sep, i);
    if i < front.len() {
        let rest = front.subrange(i + 1, front.len() as int);
        assert(whole.subrange(0, i) =~= front.subrange(0, i));
        assert(whole.subrange(i + 1, whole.len() as int) =~= rest + seq![sep] + piece);
        law_last_piece_is_split_off(rest, sep, piece);
        assert(split_on(whole, sep) =~= split_on(front, sep).push(piece));
    } else {
        assert(whole.subrange(0, i) =~= front);
        assert(whole.subrange(i + 1, whole.len() as int) =~= piece);
        assert(split_on(piece, sep) == seq![piece]);
        assert(split_on(whole, sep) == seq![front] + split_on(piece, sep));
        assert(split_on(whole, sep) =~= split_on(front, sep).push(piece));
    }
}

/// A string that may be there is seen as its text, where it is there.
pub proof fn law_optional_texts_are_the_strings(s: String)
    ensures
        text_in(Some(s)) == Some(s@),
        text_in(None) is None,
{
}

/// White space around the text that is picked does not count.
pub proof fn law_picked_texts_are_bared(
    silent: Seq<Option<Seq<char>>>,
    before: Seq<char>,
    s: Seq<char>,
    after: Seq<char>,
    rest: Seq<Option<Seq<char>>>,
)
    requires
        forall|i: int|
            0 <= i < silent.len() ==> (#[trigger] silent[i] is None || blank(silent[i]->Some_0)),
        blank(before),
        blank(after),
        s.len() > 0 && !white(s[0]) && !white(s.last()),
    ensures
        first_filled_in(silent + seq![Some(before + s + after)] + rest) == Some(s),
    decreases silent.len(),
{
    let all = silent + seq![Some(before + s + after)] + rest;
    if silent.len() == 0 {
        law_trimming_bares_the_text(before, s, after);
        assert(all[0] == Some(before + s + after));
    } else {
        assert(silent[0] is None || blank(silent[0]->Some_0));
        if silent[0] is Some {
            lemma_trim_start_of_blank(silent[0]->Some_0);
            lemma_trim_end_len(trim_start(silent[0]->Some_0));
        }
        let fewer = silent.drop_first();
        assert forall|i: int| 0 <= i < fewer.len() implies (#[trigger] fewer[i] is None || blank(
            fewer[i]->Some_0,
        )) by {
            assert(fewer[i] == silent[i + 1]);
        }
        assert(all.drop_first() =~= fewer + seq![Some(before + s + after)] + rest);
        law_picked_texts_are_bared(fewer, before, s, after, rest);
    }
}

/// A text is all digits where each of its parts is, and a character is where it is
/// a digit; so it is with hexadecimal digits.
pub proof fn law_digits_throughout(a: Seq<char>, b: Seq<char>, c: char)
    ensures
        all_digits(Seq::empty()) && all_hex_digits(Seq::empty()),
        all_digits(seq![c]) <==> digit(c),
        all_hex_digits(seq![c]) <==> hex_digit(c),
        all_digits(a + b) <==> all_digits(a) && all_digits(b),
        all_hex_digits(a + b) <==> all_hex_digits(a) && all_hex_digits(b),
{
    let one = seq![c];
    assert(one[0] == c);
    let s = a + b;
    assert(forall|i: int| 0 <= i < a.len() ==> #[trigger] a[i] == s[i]);
    assert(forall|i: int| 0 <= i < b.len() ==> #[trigger] b[i] == s[i + a.len()]);
    if all_digits(s) {
        assert forall|i: int| 0 <= i < a.len() implies digit(#[trigger] a[i]) by {
            assert(digit(s[i]));
        }
        assert forall|i: int| 0 <= i < b.len() implies digit(#[trigger] b[i]) by {
            assert(digit(s[i + a.len()]));
        }
    }
    if all_hex_digits(s) {
        assert forall|i: int| 0 <= i < a.len() implies hex_digit(#[trigger] a[i]) by {
            assert(hex_digit(s[i]));
        }
        assert forall|i: int| 0 <= i < b.len() implies hex_digit(#[trigger] b[i]) by {
            assert(hex_digit(s[i + a.len()]));
        }
    }
}

} // verus!
