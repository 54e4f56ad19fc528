//! Paths as bytes: UTF-16LE with or without a byte order mark, and UTF-8.
use vstd::prelude::*;
use crate::outside;

verus! {

/// Why a path cannot be read.
#[derive(Clone, Copy, Debug, PartialEq, Eq, Structural)]
pub enum PathFault {
    NotBase64,
    OddLength,
    NotUtf16,
    NotUtf8,
}

impl PathFault {
    /// The words for this error.
    pub open spec fn words(self) -> Seq<char> {
        match self {
            PathFault::NotBase64 => "failed to base64-decode file path"@,
            PathFault::OddLength => "decoded path bytes have odd length (not valid UTF-16)"@,
            PathFault::NotUtf16 => "failed to decode UTF-16 file path"@,
            PathFault::NotUtf8 => "failed to decode file path as UTF-8"@,
        }
    }

    /// The message for this error.
    pub fn message(&self) -> (s: &'static str)
        ensures
            s@ == self.words(),
    {
        match self {
            PathFault::NotBase64 => "failed to base64-decode file path",
            PathFault::OddLength => "decoded path bytes have odd length (not valid UTF-16)",
            PathFault::NotUtf16 => "failed to decode UTF-16 file path",
            PathFault::NotUtf8 => "failed to decode file path as UTF-8",
        }
    }
}

/// The 16-bit units in a list of bytes, the low byte of each first.
pub open spec fn units(bytes: Seq<u8>) -> Seq<u16> {
    Seq::new(
        bytes.len() / 2,
        |i: int| (bytes[2 * i] as int + 256 * (bytes[2 * i + 1] as int)) as u16,
    )
}

/// Whether a unit is the first half of a pair.
pub open spec fn leads_pair(u: u16) -> bool {
    0xD800 <= u < 0xDC00
}

/// Whether a unit is the second half of a pair.
pub open spec fn ends_pair(u: u16) -> bool {
    0xDC00 <= u < 0xE000
}

/// The character of a pair of units.
pub open spec fn pair_char(high: u16, low: u16) -> char {
    (0x10000 + (high - 0xD800) * 0x400 + (low - 0xDC00)) as char
}

/// The text of UTF-16 units; nothing where one half of a pair lacks the other.
pub open spec fn utf16_text(units: Seq<u16>) -> Option<Seq<char>>
    decreases units.len(),
{
    if units.len() == 0 {
        Some(Seq::empty())
    } else if ends_pair(units[0]) {
        None
    } else if leads_pair(units[0]) {
        if units.len() < 2 || !ends_pair(units[1]) {
            None
        } else {
            match utf16_text(units.subrange(2, units.len() as int)) {
                Some(rest) => Some(seq![pair_char(units[0], units[1])] + rest),
                None => None,
            }
        }
    } else {
        match utf16_text(units.drop_first()) {
            Some(rest) => Some(seq![units[0] as char] + rest),
            None => None,
        }
    }
}

/// The units without a byte order mark at their beginning.
pub open spec fn without_mark(units: Seq<u16>) -> Seq<u16> {
    if units.len() > 0 && units[0] == 0xFEFF {
        units.drop_first()
    } else {
        units
    }
}

/// The path that bytes in UTF-16LE spell.
pub open spec fn utf16_path(bytes: Seq<u8>) -> Result<Seq<char>, PathFault> {
    if bytes.len() % 2 != 0 {
        Err(PathFault::OddLength)
    } else {
        match utf16_text(without_mark(units(bytes))) {
            Some(path) => Ok(path),
            None => Err(PathFault::NotUtf16),
        }
    }
}

/// What an outcome says.
pub open spec fn path_in(result: Result<String, PathFault>) -> Result<Seq<char>, PathFault> {
    match result {
        Ok(s) => Ok(s@),
        Err(fault) => Err(fault),
    }
}

/// Reads UTF-16 units as text.
fn read_utf16(units: &[u16]) -> (result: Option<String>)
    ensures
        match utf16_text(units@) {
            Some(s) => result matches Some(t) && t@ == s,
            None => result is None,
        },
{
    let n = units.len();
    let mut out = String::new();
    let mut i: usize = 0;
    assert(units@.subrange(0, n as int) =~= units@);
    proof {
        match utf16_text(units@) {
            Some(s) => {
                assert(Seq::<char>::empty() + s =~= s);
            },
            None => {},
        }
    }
    while i < n
        invariant
            i <= n == units@.len(),
            utf16_text(units@) == (match utf16_text(units@.subrange(i as int, n as int)) {
                Some(rest) => Some(out@ + rest),
                None => None::<Seq<char>>,
            }),
        decreases n - i,
    {
        let u = units[i];
        let ghost here = units@.subrange(i as int, n as int);
        assert(here[0] == u);
        if 0xDC00 <= u && u < 0xE000 {
            return None;
        }
        let mut code: u32 = u as u32;
        let mut width: usize = 1;
        if 0xD800 <= u && u < 0xDC00 {
            if i + 1 >= n {
                return None;
            }
            let low = units[i + 1];
            assert(here[1] == low);
            if !(0xDC00 <= low && low < 0xE000) {
                return None;
            }
            code = 0x10000 + (u - 0xD800) as u32 * 0x400 + (low - 0xDC00) as u32;
            width = 2;
        }
        match char::from_u32(code) {
            Some(c) => {
                let ghost before = out@;
                out.push(c);
                proof {
                    let next = units@.subrange(i + width, n as int);
                    if width == 2 {
                        assert(here.subrange(2, here.len() as int) =~= next);
                    } else {
                        assert(here.drop_first() =~= next);
                    }
                    match utf16_text(next) {
                        Some(rest) => {
                            assert(before + (seq![c] + rest) =~= out@ + rest);
                        },
                        None => {},
                    }
                }
            },
            None => {
                assert(false);
                return None;
            },
        }
        i = i + width;
    }
    assert(out@ + Seq::<char>::empty() =~= out@);
    Some(out)
}

/// Reads the bytes of a path: UTF-16LE, with or without a byte order mark.
pub fn decode_utf16_path(bytes: &[u8]) -> (result: Result<String, PathFault>)
    ensures
        path_in(result) == utf16_path(bytes@),
{
    if bytes.len() % 2 != 0 {
        return Err(PathFault::OddLength);
    }
    let len = bytes.len();
    let n = len / 2;
    let mut found: Vec<u16> = Vec::new();
    let mut i: usize = 0;
    while i < n
        invariant
            i <= n,
            n == len / 2,
            len == bytes@.len(),
            found@ == units(bytes@).take(i as int),
        decreases n - i,
    {
        let unit = bytes[2 * i] as u16 + 256 * (bytes[2 * i + 1] as u16);
        found.push(unit);
        assert(found@ =~= units(bytes@).take(i + 1));
        i = i + 1;
    }
    assert(found@ =~= units(bytes@));
    let start: usize = if found.len() > 0 && found[0] == 0xFEFF {
        1
    } else {
        0
    };
    let rest = vstd::slice::slice_subrange(found.as_slice(), start, found.len());
    assert(rest@ =~= without_mark(units(bytes@)));
    match read_utf16(rest) {
        Some(path) => Ok(path),
        None => Err(PathFault::NotUtf16),
    }
}

/// The path that bytes in UTF-8 spell.
pub open spec fn utf8_path(bytes: Seq<u8>) -> Result<Seq<char>, PathFault> {
    if vstd::utf8::valid_utf8(bytes) {
        Ok(vstd::utf8::decode_utf8(bytes))
    } else {
        Err(PathFault::NotUtf8)
    }
}

/// Reads the bytes of a path in UTF-8.
pub fn decode_utf8_path(bytes: Vec<u8>) -> (result: Result<String, PathFault>)
    ensures
        path_in(result) == utf8_path(bytes@),
{
    match outside::text_of_utf8(bytes) {
        Ok(path) => Ok(path),
        Err(_) => Err(PathFault::NotUtf8),
    }
}

// ---------------------------------------------------------------------------
// Laws
// ---------------------------------------------------------------------------

/// A text in UTF-16.
pub open spec fn utf16_units(s: Seq<char>) -> Seq<u16>
    decreases s.len(),
{
    if s.len() == 0 {
        Seq::empty()
    } else {
        let code = s[0] as int;
        let first = if code < 0x10000 {
            seq![code as u16]
        } else {
            seq![
                (0xD800 + (code - 0x10000) / 0x400) as u16,
                (0xDC00 + (code - 0x10000) % 0x400) as u16,
            ]
        };
        first + utf16_units(s.drop_first())
    }
}

/// Units as bytes, the low byte of each first.
pub open spec fn unit_bytes(units: Seq<u16>) -> Seq<u8> {
    Seq::new(
        2 * units.len(),
        |i: int| if i % 2 == 0 {
            (units[i / 2] as int % 256) as u8
        } else {
            (units[i / 2] as int / 256) as u8
        },
    )
}

/// The number of a character is a Unicode scalar value, and stands for it.
proof fn lemma_char_code(c: char)
    ensures
        0 <= (c as int) < 0xD800 || 0xE000 <= (c as int) <= 0x10FFFF,
        (c as int) as char == c,
        (c as int) < 0x10000 ==> ((c as int) as u16) as char == c,
{
}

/// A text in UTF-16 reads as that text.
proof fn lemma_utf16_round_trip(s: Seq<char>)
    ensures
        utf16_text(utf16_units(s)) == Some(s),
    decreases s.len(),
{
    if s.len() == 0 {
        assert(s =~= Seq::empty());
    } else {
        let rest = s.drop_first();
        lemma_utf16_round_trip(rest);
        let all = utf16_units(s);
        let code = s[0] as int;
        lemma_char_code(s[0]);
        if code < 0x10000 {
            assert(all.drop_first() =~= utf16_units(rest));
            assert(all[0] == code as u16);
            assert(all[0] as char == s[0]);
        } else {
            assert(all.subrange(2, all.len() as int) =~= utf16_units(rest));
            let high = 0xD800 + (code - 0x10000) / 0x400;
            let low = 0xDC00 + (code - 0x10000) % 0x400;
            assert(0x10000 <= code <= 0x10FFFF);
            assert(0xD800 <= high < 0xDC00);
            assert(all[0] == high as u16);
            assert(all[1] == low as u16);
            assert(leads_pair(all[0]));
            assert(ends_pair(all[1]));
            assert(pair_char(all[0], all[1]) == s[0]);
        }
        assert(seq![s[0]] + rest =~= s);
    }
}

/// A path written in UTF-16LE reads as that path, with a byte order mark in
/// front of it or, where it does not begin with one itself, without.
pub proof fn law_utf16_path_round_trip(path: Seq<char>)
    ensures
        utf16_path(unit_bytes(seq![0xFEFFu16] + utf16_units(path))) == Ok::<Seq<char>, PathFault>(
            path,
        ),
        (path.len() == 0 || path[0] != '\u{FEFF}') ==> utf16_path(unit_bytes(utf16_units(path)))
            == Ok::<Seq<char>, PathFault>(path),
{
    let plain = utf16_units(path);
    let marked = seq![0xFEFFu16] + plain;
    lemma_utf16_round_trip(path);
    lemma_unit_bytes(plain);
    lemma_unit_bytes(marked);
    assert(marked.drop_first() =~= plain);
    if path.len() > 0 && path[0] != '\u{FEFF}' {
        assert(plain[0] != 0xFEFF);
    }
}

/// Units written as bytes read as those units.
proof fn lemma_unit_bytes(list: Seq<u16>)
    ensures
        units(unit_bytes(list)) == list,
        unit_bytes(list).len() % 2 == 0,
{
    let bytes = unit_bytes(list);
    assert(bytes.len() / 2 == list.len());
    assert forall|i: int| 0 <= i < list.len() implies units(bytes)[i] == list[i] by {
        assert((2 * i) / 2 == i);
        assert((2 * i + 1) / 2 == i);
        assert((2 * i) % 2 == 0);
        assert((2 * i + 1) % 2 == 1);
    }
    assert(units(bytes) =~= list);
}

/// What UTF-16 reads as is written as the same UTF-16.
proof fn lemma_utf16_is_written_alike(list: Seq<u16>)
    ensures
        utf16_text(list) matches Some(s) ==> utf16_units(s) == list,
    decreases list.len(),
{
    if utf16_text(list) is Some {
        let s = utf16_text(list)->Some_0;
        if list.len() == 0 {
            assert(utf16_units(s) =~= list);
        } else if leads_pair(list[0]) {
            let tail = list.subrange(2, list.len() as int);
            lemma_utf16_is_written_alike(tail);
            let rest = utf16_text(tail)->Some_0;
            let c = pair_char(list[0], list[1]);
            let code = 0x10000 + (list[0] - 0xD800) * 0x400 + (list[1] - 0xDC00);
            assert(0x10000 <= code <= 0x10FFFF);
            assert(s.drop_first() =~= rest);
            assert(s[0] == c);
            lemma_code_of_char(code);
            assert(s[0] as int == code);
            assert((code - 0x10000) / 0x400 == list[0] - 0xD800);
            assert((code - 0x10000) % 0x400 == list[1] - 0xDC00);
            assert(utf16_units(s) =~= list);
        } else {
            let tail = list.drop_first();
            lemma_utf16_is_written_alike(tail);
            let rest = utf16_text(tail)->Some_0;
            assert(s.drop_first() =~= rest);
            lemma_code_of_char(list[0] as int);
            assert(utf16_units(s) =~= list);
        }
    }
}

/// A number that is a Unicode scalar value is the code of its character.
proof fn lemma_code_of_char(code: int)
    requires
        0 <= code < 0xD800 || 0xE000 <= code <= 0x10FFFF,
    ensures
        (code as char) as int == code,
{
}

/// Only what is a path written in UTF-16LE, with a byte order mark in front of it
/// or without, reads as a path: bytes that no path is written as, such as half of
/// a pair, are refused, and so is half a unit.
pub proof fn law_only_utf16_paths_are_read(bytes: Seq<u8>)
    ensures
        utf16_path(bytes) matches Ok(path) ==> bytes == unit_bytes(utf16_units(path)) || bytes
            == unit_bytes(seq![0xFEFFu16] + utf16_units(path)),
        bytes.len() % 2 == 1 <==> utf16_path(bytes) == Err::<Seq<char>, PathFault>(
            PathFault::OddLength,
        ),
        utf16_path(bytes) is Err && bytes.len() % 2 == 0 ==> utf16_path(bytes) == Err::<
            Seq<char>,
            PathFault,
        >(PathFault::NotUtf16),
{
    if utf16_path(bytes) is Ok {
        let list = units(bytes);
        let path = utf16_path(bytes)->Ok_0;
        lemma_utf16_is_written_alike(without_mark(list));
        assert(bytes =~= unit_bytes(list)) by {
            assert(bytes.len() == 2 * list.len());
            assert forall|i: int| 0 <= i < bytes.len() implies bytes[i] == unit_bytes(list)[i] by {
                let k = i / 2;
                assert(list[k] == (bytes[2 * k] as int + 256 * (bytes[2 * k + 1] as int)) as u16);
                assert(i == 2 * k || i == 2 * k + 1);
            }
        }
        if list.len() > 0 && list[0] == 0xFEFF {
            assert(list =~= seq![0xFEFFu16] + without_mark(list));
        }
    }
}

/// A path written in UTF-8 reads as that path, and nothing else is read.
pub proof fn law_utf8_path_round_trip(path: Seq<char>, bytes: Seq<u8>)
    ensures
        utf8_path(vstd::utf8::encode_utf8(path)) == Ok::<Seq<char>, PathFault>(path),
        utf8_path(bytes) matches Ok(read) ==> vstd::utf8::encode_utf8(read) == bytes,
        utf8_path(bytes) matches Err(fault) ==> fault == PathFault::NotUtf8
            && !vstd::utf8::valid_utf8(bytes),
{
    vstd::utf8::encode_utf8_valid_utf8(path);
    vstd::utf8::encode_utf8_decode_utf8(path);
    if vstd::utf8::valid_utf8(bytes) {
        vstd::utf8::decode_utf8_encode_utf8(bytes);
    }
}

/// An outcome is seen as the path or the fault that it holds.
pub proof fn law_path_outcomes_are_seen_whole(s: String, fault: PathFault)
    ensures
        path_in(Ok(s)) == Ok::<Seq<char>, PathFault>(s@),
        path_in(Err(fault)) == Err::<Seq<char>, PathFault>(fault),
{
}

/// The words for each fault.
pub proof fn law_path_messages()
    ensures
        PathFault::NotBase64.words() == "failed to base64-decode file path"@,
        PathFault::OddLength.words() == "decoded path bytes have odd length (not valid UTF-16)"@,
        PathFault::NotUtf16.words() == "failed to decode UTF-16 file path"@,
        PathFault::NotUtf8.words() == "failed to decode file path as UTF-8"@,
{
}

} // verus!
