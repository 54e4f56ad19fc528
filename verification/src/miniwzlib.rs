//! Minimal reader of WZ archives: just enough to tell which client version an
//! archive belongs to.
//!
//! ```text
//! 0x00  signature "PKG1"
//! 0x04  file size (not looked at)
//! 0x0C  data_start (u32)
//! ...
//! data_start      two-byte marker of the version
//! data_start + 2  root directory: a count, then the entries
//! ```
//!
//! The marker is an 8-bit checksum of the version, so versions collide. The
//! offsets in the directory are scrambled with a hash of the version, and only
//! the right one makes them all point into the file.
use vstd::prelude::*;
use vstd::string::*;
use crate::bytes;
use crate::numerals;
use crate::text;

verus! {

/// Version information extracted from a WZ file.
#[derive(Debug, Clone, Copy, PartialEq, Eq, Structural)]
pub struct WzVersion {
    /// The client version (e.g. 83).
    pub version: i16,
    /// Hash computed from the version's decimal digits.
    pub version_hash: u32,
}

/// The constant subtracted while an offset is unscrambled.
pub const WZ_OFFSET_CONSTANT: u32 = 0x581C_3F6D;

/// The number of bytes at the start of a file that hold its header and root
/// directory.
pub const READ_CAP: u64 = 8388608;

/// Versions are looked for below this one.
pub const VERSION_LIMIT: i16 = 2000;

/// The largest number of directory entries that is taken for genuine.
pub const ENTRY_LIMIT: i32 = 500000;

// ---------------------------------------------------------------------------
// Paths
// ---------------------------------------------------------------------------

/// A path with `/` as its separator and without capitals.
pub open spec fn plain_path(path: Seq<char>) -> Seq<char> {
    text::lower(text::replaced(path, '\\', '/'))
}

/// Whether `path` is a client's `Base.wz`.
pub open spec fn base_wz(path: Seq<char>) -> bool {
    plain_path(path) == "base.wz"@ || text::ends(plain_path(path), "data/base/base.wz"@)
}

/// Returns `true` when `rel_path` points at a client `Base.wz`: `Base.wz` at
/// the client root, or a path that ends in `Data\Base\Base.wz`, in any case
/// and with either separator.
pub fn is_base_wz(rel_path: &str) -> (r: bool)
    ensures
        r == base_wz(rel_path@),
{
    let slashed = text::replace_char(text::to_chars(rel_path).as_slice(), '\\', '/');
    let norm = text::to_lower(slashed.as_slice());
    text::spells(norm.as_slice(), "base.wz") || text::ends_with(
        norm.as_slice(),
        text::to_chars("data/base/base.wz").as_slice(),
    )
}

/// The number of leading bytes of a file that are worth reading.
pub fn header_region_len(file_len: u64) -> (n: u64)
    ensures
        n == (if file_len < READ_CAP {
            file_len
        } else {
            READ_CAP
        }),
{
    if file_len < READ_CAP {
        file_len
    } else {
        READ_CAP
    }
}

// ---------------------------------------------------------------------------
// Version hash and marker
// ---------------------------------------------------------------------------

/// The hash of a text: per character, times 32 plus its code plus one, modulo
/// 2^32.
pub open spec fn hash_text(s: Seq<char>) -> u32
    decreases s.len(),
{
    if s.len() == 0 {
        0
    } else {
        hash_text(s.drop_last()).wrapping_mul(32).wrapping_add(s.last() as u32).wrapping_add(1)
    }
}

/// The hash of a version: that of its decimal digits.
pub open spec fn version_hash(version: int) -> u32 {
    hash_text(numerals::signed_decimal(version))
}

/// Hashes the version number.
pub fn compute_version_hash(version: i16) -> (hash: u32)
    ensures
        hash == version_hash(version as int),
{
    let s = text::to_chars(numerals::signed_decimal_text(version).as_str());
    let mut hash: u32 = 0;
    let mut i: usize = 0;
    while i < s.len()
        invariant
            i <= s@.len(),
            hash == hash_text(s@.take(i as int)),
        decreases s@.len() - i,
    {
        assert(s@.take(i + 1).drop_last() =~= s@.take(i as int));
        hash = hash.wrapping_mul(32).wrapping_add(s[i] as u32).wrapping_add(1);
        i = i + 1;
    }
    assert(s@.take(i as int) =~= s@);
    hash
}

/// The marker of a hash: the complement of its four bytes combined by
/// exclusive or.
pub open spec fn enc_version(hash: u32) -> u8 {
    !(((hash >> 24) as u8) ^ ((hash >> 16) as u8) ^ ((hash >> 8) as u8) ^ (hash as u8))
}

/// Computes the one-byte marker of a version hash.
pub fn compute_enc_version(hash: u32) -> (marker: u8)
    ensures
        marker == enc_version(hash),
{
    let b0: u8 = #[verifier::truncate] ((hash >> 24) as u8);
    let b1: u8 = #[verifier::truncate] ((hash >> 16) as u8);
    let b2: u8 = #[verifier::truncate] ((hash >> 8) as u8);
    let b3: u8 = #[verifier::truncate] (hash as u8);
    !(b0 ^ b1 ^ b2 ^ b3)
}

// ---------------------------------------------------------------------------
// Primitive fields
// ---------------------------------------------------------------------------

/// A byte as a signed number.
pub open spec fn signed8(b: u8) -> int {
    if b < 128 {
        b as int
    } else {
        b - 256
    }
}

/// The signed 32-bit number at `pos`, and the position after it.
pub open spec fn i32_at(data: Seq<u8>, pos: int) -> Option<(int, int)> {
    if pos + 4 > data.len() {
        None
    } else {
        let v = bytes::le_value(data.subrange(pos, pos + 4)) as int;
        Some(
            (
                if v < 0x8000_0000 {
                    v
                } else {
                    v - 0x1_0000_0000
                },
                pos + 4,
            ),
        )
    }
}

/// The position after the byte at `pos`, if there is one.
pub open spec fn after_first(data: Seq<u8>, pos: int) -> int {
    if pos < data.len() {
        pos + 1
    } else {
        pos
    }
}

/// The compressed number at `pos`, and the position after it: one signed byte,
/// or four bytes more where that byte is -128.
pub open spec fn compressed_int_at(data: Seq<u8>, pos: int) -> Option<(int, int)> {
    if pos >= data.len() {
        None
    } else if signed8(data[pos]) == -128 {
        i32_at(data, pos + 1)
    } else {
        Some((signed8(data[pos]), pos + 1))
    }
}

/// The number of bytes of the string whose length marker stands at `pos`, and
/// the position where they begin. A positive marker counts two-byte characters
/// (127: the count follows), a negative one counts bytes (-128: the count
/// follows).
pub open spec fn string_extent(data: Seq<u8>, pos: int) -> Option<(int, int)> {
    if pos >= data.len() {
        None
    } else {
        let marker = signed8(data[pos]);
        if marker == 127 {
            match i32_at(data, pos + 1) {
                Some((count, body)) => Some((2 * count, body)),
                None => None,
            }
        } else if marker == -128 {
            i32_at(data, pos + 1)
        } else if marker >= 0 {
            Some((2 * marker, pos + 1))
        } else {
            Some((-marker, pos + 1))
        }
    }
}

/// The position after the string at `pos`.
pub open spec fn string_end(data: Seq<u8>, pos: int) -> Option<int> {
    match string_extent(data, pos) {
        Some((len, body)) => if len >= 0 && body + len <= data.len() {
            Some(body + len)
        } else {
            None
        },
        None => None,
    }
}

fn read_u8(data: &[u8], pos: &mut usize) -> (value: Option<u8>)
    ensures
        *old(pos) < data@.len() ==> value == Some(data@[*old(pos) as int]) && *final(pos) == *old(
            pos,
        ) + 1,
        *old(pos) >= data@.len() ==> value is None && *final(pos) == *old(pos),
{
    if *pos >= data.len() {
        return None;
    }
    let b = data[*pos];
    *pos = *pos + 1;
    Some(b)
}

fn read_i8(data: &[u8], pos: &mut usize) -> (value: Option<i8>)
    ensures
        *old(pos) < data@.len() ==> {
            &&& value matches Some(v)
            &&& v == signed8(data@[*old(pos) as int])
            &&& *final(pos) == *old(pos) + 1
        },
        *old(pos) >= data@.len() ==> value is None && *final(pos) == *old(pos),
{
    match read_u8(data, pos) {
        Some(b) => if b < 128 {
            Some(b as i8)
        } else {
            Some((b as i16 - 256) as i8)
        },
        None => None,
    }
}

fn read_u32(data: &[u8], pos: &mut usize) -> (value: Option<u32>)
    ensures
        *old(pos) + 4 <= data@.len() ==> {
            &&& value matches Some(v)
            &&& v == bytes::le_value(data@.subrange(*old(pos) as int, *old(pos) + 4))
            &&& *final(pos) == *old(pos) + 4
        },
        *old(pos) + 4 > data@.len() ==> value is None && *final(pos) == *old(pos),
{
    if *pos > data.len() || data.len() - *pos < 4 {
        return None;
    }
    let v = bytes::read_u32_le(data, *pos);
    *pos = *pos + 4;
    Some(v)
}

fn read_i32(data: &[u8], pos: &mut usize) -> (value: Option<i32>)
    ensures
        match i32_at(data@, *old(pos) as int) {
            Some((v, next)) => value matches Some(found) && found == v && *final(pos) == next,
            None => value is None && *final(pos) == *old(pos),
        },
{
    match read_u32(data, pos) {
        Some(v) => if v < 0x8000_0000 {
            Some(v as i32)
        } else {
            Some((v as i64 - 0x1_0000_0000) as i32)
        },
        None => None,
    }
}

/// Reads a compressed number. Where it is cut off, only its first byte is read.
pub fn read_compressed_int(data: &[u8], pos: &mut usize) -> (value: Option<i32>)
    ensures
        match compressed_int_at(data@, *old(pos) as int) {
            Some((v, next)) => value matches Some(found) && found == v && *final(pos) == next,
            None => value is None && *final(pos) == after_first(data@, *old(pos) as int),
        },
{
    match read_i8(data, pos) {
        Some(b) => if b == -128 {
            read_i32(data, pos)
        } else {
            Some(b as i32)
        },
        None => None,
    }
}

/// Advances `pos` past a string without decoding it. Where the string is cut
/// off, `pos` stands after what was read of its length marker.
pub fn skip_wz_string(data: &[u8], pos: &mut usize) -> (skipped: Option<()>)
    ensures
        match string_end(data@, *old(pos) as int) {
            Some(next) => skipped is Some && *final(pos) == next,
            None => skipped is None && *final(pos) == (match string_extent(
                data@,
                *old(pos) as int,
            ) {
                Some((_, body)) => body,
                None => after_first(data@, *old(pos) as int),
            }),
        },
{
    let marker: i8 = match read_i8(data, pos) {
        Some(m) => m,
        None => {
            return None;
        },
    };
    let byte_len: i64 = if marker == 127 {
        match read_i32(data, pos) {
            Some(count) => 2 * (count as i64),
            None => {
                return None;
            },
        }
    } else if marker == -128 {
        match read_i32(data, pos) {
            Some(count) => count as i64,
            None => {
                return None;
            },
        }
    } else if marker >= 0 {
        2 * (marker as i64)
    } else {
        -(marker as i64)
    };
    if byte_len < 0 || byte_len as u64 > (data.len() - *pos) as u64 {
        return None;
    }
    *pos = *pos + byte_len as usize;
    Some(())
}

// ---------------------------------------------------------------------------
// Scrambled offsets
// ---------------------------------------------------------------------------

/// `x` turned left by `k` bits.
pub open spec fn turned_left(x: u32, k: u32) -> u32 {
    if k == 0 {
        x
    } else {
        (x << k) | (x >> ((32 - k) as u32))
    }
}

/// The mask of an offset field at `pos`: a function of its place in the file
/// and of the version hash.
pub open spec fn offset_mask(pos: u32, data_start: u32, hash: u32) -> u32 {
    let x = (pos.wrapping_sub(data_start) ^ 0xFFFF_FFFF).wrapping_mul(hash).wrapping_sub(
        WZ_OFFSET_CONSTANT,
    );
    turned_left(x, x & 0x1F)
}

/// The offset that the field `stored` at `pos` stands for.
pub open spec fn unscrambled(stored: u32, pos: u32, data_start: u32, hash: u32) -> u32 {
    (offset_mask(pos, data_start, hash) ^ stored).wrapping_add(data_start.wrapping_mul(2))
}

/// The field that stands for `offset` at `pos`.
pub open spec fn scrambled(offset: u32, pos: u32, data_start: u32, hash: u32) -> u32 {
    offset_mask(pos, data_start, hash) ^ offset.wrapping_sub(data_start.wrapping_mul(2))
}

/// Computes `turned_left`.
fn rotate_left(x: u32, k: u32) -> (r: u32)
    requires
        k < 32,
    ensures
        r == turned_left(x, k),
{
    if k == 0 {
        x
    } else {
        (x << k) | (x >> (32 - k))
    }
}

/// The offset that the field at `pos` stands for, and the position after it.
pub open spec fn offset_at(data: Seq<u8>, pos: int, data_start: u32, hash: u32) -> Option<
    (u32, int),
> {
    if pos + 4 > data.len() {
        None
    } else {
        Some(
            (
                unscrambled(
                    bytes::le_value(data.subrange(pos, pos + 4)) as u32,
                    pos as u32,
                    data_start,
                    hash,
                ),
                pos + 4,
            ),
        )
    }
}

/// Decodes the entry offset at the current position and advances past it.
pub fn read_offset(data: &[u8], pos: &mut usize, data_start: u32, version_hash: u32) -> (offset: Option<
    u32,
>)
    ensures
        match offset_at(data@, *old(pos) as int, data_start, version_hash) {
            Some((found, next)) => offset == Some(found) && *final(pos) == next,
            None => offset is None && *final(pos) == *old(pos),
        },
{
    let offset_pos: u32 = #[verifier::truncate] (*pos as u32);
    let x: u32 = (offset_pos.wrapping_sub(data_start) ^ 0xFFFF_FFFF).wrapping_mul(
        version_hash,
    ).wrapping_sub(WZ_OFFSET_CONSTANT);
    let turn: u32 = x & 0x1F;
    assert(turn < 32) by (bit_vector)
        requires
            turn == x & 0x1F,
    ;
    let mask = rotate_left(x, turn);
    match read_u32(data, pos) {
        Some(stored) => Some((mask ^ stored).wrapping_add(data_start.wrapping_mul(2))),
        None => None,
    }
}

/// Whether `offset` points inside the file body.
pub open spec fn in_body(offset: u32, data_start: u32, file_len: u64) -> bool {
    data_start <= offset < file_len
}

/// Returns `true` when `offset` points inside the file body.
fn offset_in_range(offset: u32, data_start: u32, file_len: u64) -> (r: bool)
    ensures
        r == in_body(offset, data_start, file_len),
{
    let o: u64 = offset as u64;
    o >= data_start as u64 && o < file_len
}

// ---------------------------------------------------------------------------
// Root directory
// ---------------------------------------------------------------------------

/// The position after two compressed numbers at `pos`.
pub open spec fn after_two_ints(data: Seq<u8>, pos: int) -> Option<int> {
    match compressed_int_at(data, pos) {
        None => None,
        Some((_, second)) => match compressed_int_at(data, second) {
            None => None,
            Some((_, after)) => Some(after),
        },
    }
}

/// Where the offset field of the directory entry at `pos` stands. By its type
/// byte, an entry goes on with: 1, six bytes; 2, a reference to a name, a size
/// and a checksum; 3 or 4, a name, a size and a checksum.
pub open spec fn offset_field_at(data: Seq<u8>, pos: int) -> Option<int> {
    if pos >= data.len() {
        None
    } else if data[pos] == 1 {
        if pos + 7 > data.len() {
            None
        } else {
            Some(pos + 7)
        }
    } else if data[pos] == 2 {
        match i32_at(data, pos + 1) {
            Some((_, next)) => after_two_ints(data, next),
            None => None,
        }
    } else if data[pos] == 3 || data[pos] == 4 {
        match string_end(data, pos + 1) {
            Some(next) => after_two_ints(data, next),
            None => None,
        }
    } else {
        None
    }
}

/// Whether `count` entries can be read from `pos` on, each with an offset
/// inside the file under `hash`.
pub open spec fn entries_valid(
    data: Seq<u8>,
    pos: int,
    count: int,
    data_start: u32,
    file_len: u64,
    hash: u32,
) -> bool
    decreases count,
{
    count <= 0 || match offset_field_at(data, pos) {
        None => false,
        Some(at) => match offset_at(data, at, data_start, hash) {
            None => false,
            Some((offset, next)) => in_body(offset, data_start, file_len) && entries_valid(
                data,
                next,
                count - 1,
                data_start,
                file_len,
                hash,
            ),
        },
    }
}

/// Whether the root directory makes sense under `hash`.
pub open spec fn directory_valid(
    data: Seq<u8>,
    data_start: u32,
    file_len: u64,
    hash: u32,
) -> bool {
    match compressed_int_at(data, data_start + 2) {
        None => false,
        Some((count, pos)) => 0 < count <= ENTRY_LIMIT && entries_valid(
            data,
            pos,
            count,
            data_start,
            file_len,
            hash,
        ),
    }
}

/// Finds the offset field of the entry at `entry_pos`.
fn find_offset_field(data: &[u8], entry_pos: usize) -> (found: Option<usize>)
    ensures
        match offset_field_at(data@, entry_pos as int) {
            Some(at) => found matches Some(f) && f == at,
            None => found is None,
        },
{
    let mut pos: usize = entry_pos;
    let type_byte = match read_u8(data, &mut pos) {
        Some(b) => b,
        None => {
            return None;
        },
    };
    if type_byte == 1 {
        if data.len() - pos < 6 {
            return None;
        }
        return Some(pos + 6);
    }
    if type_byte == 2 {
        if read_i32(data, &mut pos).is_none() {
            return None;
        }
    } else if type_byte == 3 || type_byte == 4 {
        if skip_wz_string(data, &mut pos).is_none() {
            return None;
        }
    } else {
        return None;
    }
    if read_compressed_int(data, &mut pos).is_none() || read_compressed_int(
        data,
        &mut pos,
    ).is_none() {
        return None;
    }
    Some(pos)
}

/// Parses the root directory with `version_hash` and returns `true` if every
/// entry decodes to an offset inside `[data_start, file_len)`. A buffer that ends
/// before the directory gives `false`.
pub fn directory_offsets_valid(
    data: &[u8],
    data_start: u32,
    file_len: u64,
    version_hash: u32,
) -> (r: bool)
    ensures
        r == directory_valid(data@, data_start, file_len, version_hash),
{
    if data_start as u64 + 2 >= data.len() as u64 {
        return false;
    }
    let mut pos: usize = data_start as usize + 2;
    let count: i32 = match read_compressed_int(data, &mut pos) {
        Some(c) => c,
        None => {
            return false;
        },
    };
    if count <= 0 || count > ENTRY_LIMIT {
        return false;
    }
    let mut left: i32 = count;
    while left > 0
        invariant
            0 <= left <= count,
            directory_valid(data@, data_start, file_len, version_hash) == entries_valid(
                data@,
                pos as int,
                left as int,
                data_start,
                file_len,
                version_hash,
            ),
        decreases left,
    {
        pos =
        match find_offset_field(data, pos) {
            Some(at) => at,
            None => {
                return false;
            },
        };
        match read_offset(data, &mut pos, data_start, version_hash) {
            Some(offset) => {
                if !offset_in_range(offset, data_start, file_len) {
                    return false;
                }
            },
            None => {
                return false;
            },
        }
        left = left - 1;
    }
    true
}

// ---------------------------------------------------------------------------
// Version resolution
// ---------------------------------------------------------------------------

/// Whether `version` is one of those looked at and has the marker `encver`.
pub open spec fn candidate(version: int, encver: u16) -> bool {
    0 <= version < VERSION_LIMIT && enc_version(version_hash(version)) as u16 == encver
}

/// Whether `version` is a candidate under which the directory makes sense.
pub open spec fn confirmed(
    data: Seq<u8>,
    data_start: u32,
    file_len: u64,
    encver: u16,
    version: int,
) -> bool {
    candidate(version, encver) && directory_valid(
        data,
        data_start,
        file_len,
        version_hash(version),
    )
}

/// The version that a marker and a directory stand for: the least confirmed
/// candidate; where none is confirmed, the least candidate; where there is no
/// candidate, an error.
pub open spec fn resolves_to(
    data: Seq<u8>,
    data_start: u32,
    file_len: u64,
    encver: u16,
    result: Result<WzVersion, String>,
) -> bool {
    match result {
        Ok(found) => {
            let v = found.version as int;
            &&& found.version_hash == version_hash(v)
            &&& candidate(v, encver)
            &&& if confirmed(data, data_start, file_len, encver, v) {
                forall|w: int|
                    w < v ==> !#[trigger] confirmed(data, data_start, file_len, encver, w)
            } else {
                &&& forall|w: int| !#[trigger] confirmed(data, data_start, file_len, encver, w)
                &&& forall|w: int| w < v ==> !#[trigger] candidate(w, encver)
            }
        },
        Err(message) => {
            &&& forall|w: int| !#[trigger] candidate(w, encver)
            &&& message@ == "cannot determine version from encver "@ + numerals::hex_word(encver)
        },
    }
}

/// Resolves the version from its marker: the least version with that marker
/// under which the directory makes sense, or the least with that marker where
/// there is none, as when the buffer does not cover the directory.
pub fn resolve_version(data: &[u8], data_start: u32, file_len: u64, encver: u16) -> (result: Result<
    WzVersion,
    String,
>)
    ensures
        resolves_to(data@, data_start, file_len, encver, result),
{
    let mut first_match: Option<WzVersion> = None;
    let mut ver: i16 = 0;
    while ver < VERSION_LIMIT
        invariant
            0 <= ver <= VERSION_LIMIT,
            forall|w: int|
                w < ver ==> !#[trigger] confirmed(data@, data_start, file_len, encver, w),
            match first_match {
                None => forall|w: int| w < ver ==> !#[trigger] candidate(w, encver),
                Some(found) => {
                    &&& found.version < ver
                    &&& found.version_hash == version_hash(found.version as int)
                    &&& candidate(found.version as int, encver)
                    &&& forall|w: int| w < found.version ==> !#[trigger] candidate(w, encver)
                },
            },
        decreases VERSION_LIMIT - ver,
    {
        let hash = compute_version_hash(ver);
        if compute_enc_version(hash) as u16 == encver {
            if first_match.is_none() {
                first_match = Some(WzVersion { version: ver, version_hash: hash });
            }
            if directory_offsets_valid(data, data_start, file_len, hash) {
                return Ok(WzVersion { version: ver, version_hash: hash });
            }
        }
        ver = ver + 1;
    }
    match first_match {
        Some(found) => Ok(found),
        None => {
            let mut message = String::new();
            message.append("cannot determine version from encver ");
            message.append(numerals::hex_word_text(encver).as_str());
            Err(message)
        },
    }
}

/// Where the data of the archive begins, as its header says.
pub open spec fn data_start_of(data: Seq<u8>) -> int {
    bytes::le_value(data.subrange(12, 16)) as int
}

/// Whether the archive begins with the signature `PKG1`.
pub open spec fn has_signature(data: Seq<u8>) -> bool {
    data[0] == 0x50 && data[1] == 0x4B && data[2] == 0x47 && data[3] == 0x31
}

/// Reads the version from the start of a WZ file.
///
/// `data` has to hold the header and the two-byte marker; `file_len` is the
/// size of the whole file. An archive with another signature has version 0.
pub fn get_wz_version_from_bytes(data: &[u8], file_len: u64) -> (result: Result<WzVersion, String>)
    ensures
        data@.len() < 16 ==> {
            &&& result matches Err(message)
            &&& message@ == "buffer too small to contain a WZ header"@
        },
        data@.len() >= 16 && !has_signature(data@) ==> result == Ok::<WzVersion, String>(
            WzVersion { version: 0, version_hash: 0 },
        ),
        data@.len() >= 16 && has_signature(data@) ==> {
            let start = data_start_of(data@);
            if start < 16 || start > file_len {
                &&& result matches Err(message)
                &&& message@ == "invalid data_start "@ + numerals::decimal(start as nat)
                    + " (file size "@ + numerals::decimal(file_len as nat) + ")"@
            } else if start + 2 > data@.len() {
                &&& result matches Err(message)
                &&& message@ == "buffer only covers "@ + numerals::decimal(data@.len())
                    + " bytes but data_start is "@ + numerals::decimal(start as nat)
            } else {
                resolves_to(
                    data@,
                    start as u32,
                    file_len,
                    bytes::le_value(data@.subrange(start, start + 2)) as u16,
                    result,
                )
            }
        },
{
    if data.len() < 16 {
        let mut message = String::new();
        message.append("buffer too small to contain a WZ header");
        return Err(message);
    }
    if !(data[0] == 0x50 && data[1] == 0x4B && data[2] == 0x47 && data[3] == 0x31) {
        return Ok(WzVersion { version: 0, version_hash: 0 });
    }
    let data_start: u32 = bytes::read_u32_le(data, 12);
    if data_start < 16 || data_start as u64 > file_len {
        let mut message = String::new();
        message.append("invalid data_start ");
        numerals::push_decimal(&mut message, data_start as u128);
        message.append(" (file size ");
        numerals::push_decimal(&mut message, file_len as u128);
        message.append(")");
        return Err(message);
    }
    if data_start as u64 > (data.len() - 2) as u64 {
        let mut message = String::new();
        message.append("buffer only covers ");
        numerals::push_decimal(&mut message, data.len() as u128);
        message.append(" bytes but data_start is ");
        numerals::push_decimal(&mut message, data_start as u128);
        return Err(message);
    }
    let encver = bytes::read_u16_le(data, data_start as usize);
    resolve_version(data, data_start, file_len, encver)
}

// ---------------------------------------------------------------------------
// Laws
// ---------------------------------------------------------------------------

/// Unscrambling undoes scrambling: an offset written for a version reads back
/// as itself under that version.
pub proof fn law_offset_round_trip(offset: u32, pos: u32, data_start: u32, hash: u32)
    ensures
        unscrambled(scrambled(offset, pos, data_start, hash), pos, data_start, hash) == offset,
{
    let mask = offset_mask(pos, data_start, hash);
    let twice = data_start.wrapping_mul(2);
    let x = offset.wrapping_sub(twice);
    assert(mask ^ (mask ^ x) == x) by (bit_vector);
    assert(x.wrapping_add(twice) == offset);
}

/// Whether the field at `pos` was written for `offset` under `hash`.
pub open spec fn offset_written(
    data: Seq<u8>,
    pos: int,
    offset: u32,
    data_start: u32,
    hash: u32,
) -> bool {
    pos + 4 <= data.len() && bytes::le_value(data.subrange(pos, pos + 4)) as u32 == scrambled(
        offset,
        pos as u32,
        data_start,
        hash,
    )
}

/// An offset that was written under a hash is read back under it, and the
/// position moves past the field.
pub proof fn law_written_offset_is_read(
    data: Seq<u8>,
    pos: int,
    offset: u32,
    data_start: u32,
    hash: u32,
)
    requires
        offset_written(data, pos, offset, data_start, hash),
    ensures
        offset_at(data, pos, data_start, hash) == Some((offset, pos + 4)),
{
    law_offset_round_trip(offset, pos as u32, data_start, hash);
}

/// Whether `count` entries can be read from `pos` on, each with an offset field
/// that was written for `hash` and points inside the file.
pub open spec fn entries_written(
    data: Seq<u8>,
    pos: int,
    count: int,
    data_start: u32,
    file_len: u64,
    hash: u32,
) -> bool
    decreases count,
{
    count <= 0 || match offset_field_at(data, pos) {
        None => false,
        Some(at) => {
            &&& exists|offset: u32|
                in_body(offset, data_start, file_len) && #[trigger] offset_written(
                    data,
                    at,
                    offset,
                    data_start,
                    hash,
                )
            &&& entries_written(data, at + 4, count - 1, data_start, file_len, hash)
        },
    }
}

/// Entries that were written for a version make sense under it.
proof fn lemma_written_entries_are_valid(
    data: Seq<u8>,
    pos: int,
    count: int,
    data_start: u32,
    file_len: u64,
    hash: u32,
)
    requires
        entries_written(data, pos, count, data_start, file_len, hash),
    ensures
        entries_valid(data, pos, count, data_start, file_len, hash),
    decreases count,
{
    if count > 0 {
        let at = offset_field_at(data, pos)->Some_0;
        let offset = choose|offset: u32|
            in_body(offset, data_start, file_len) && #[trigger] offset_written(
                data,
                at,
                offset,
                data_start,
                hash,
            );
        law_written_offset_is_read(data, at, offset, data_start, hash);
        lemma_written_entries_are_valid(data, at + 4, count - 1, data_start, file_len, hash);
    }
}

/// A directory that was written for a version, with that version's marker, is
/// resolved to a version with the same marker under which the directory makes
/// sense: to that one, or to a lower one that cannot be told from it.
pub proof fn law_written_version_is_resolved(
    data: Seq<u8>,
    data_start: u32,
    file_len: u64,
    encver: u16,
    version: int,
    result: Result<WzVersion, String>,
)
    requires
        candidate(version, encver),
        compressed_int_at(data, data_start + 2) matches Some((count, pos)) && 0 < count
            <= ENTRY_LIMIT && entries_written(
            data,
            pos,
            count,
            data_start,
            file_len,
            version_hash(version),
        ),
        resolves_to(data, data_start, file_len, encver, result),
    ensures
        result matches Ok(found) && found.version <= version && confirmed(
            data,
            data_start,
            file_len,
            encver,
            found.version as int,
        ),
{
    let (count, pos) = compressed_int_at(data, data_start + 2)->Some_0;
    lemma_written_entries_are_valid(
        data,
        pos,
        count,
        data_start,
        file_len,
        version_hash(version),
    );
    assert(confirmed(data, data_start, file_len, encver, version));
}

/// A number that can be read is read alike from a longer buffer.
proof fn lemma_longer_i32(data: Seq<u8>, extra: Seq<u8>, pos: int)
    requires
        0 <= pos,
        i32_at(data, pos) is Some,
    ensures
        i32_at(data + extra, pos) == i32_at(data, pos),
{
    assert((data + extra).subrange(pos, pos + 4) =~= data.subrange(pos, pos + 4));
}

/// So is a compressed number.
proof fn lemma_longer_compressed_int(data: Seq<u8>, extra: Seq<u8>, pos: int)
    requires
        0 <= pos,
        compressed_int_at(data, pos) is Some,
    ensures
        compressed_int_at(data + extra, pos) == compressed_int_at(data, pos),
{
    assert((data + extra)[pos] == data[pos]);
    if signed8(data[pos]) == -128 {
        lemma_longer_i32(data, extra, pos + 1);
    }
}

/// A string that ends within a buffer ends there in a longer one too.
proof fn lemma_longer_string(data: Seq<u8>, extra: Seq<u8>, pos: int)
    requires
        0 <= pos,
        string_end(data, pos) is Some,
    ensures
        string_end(data + extra, pos) == string_end(data, pos),
        string_end(data, pos)->Some_0 >= pos,
{
    assert((data + extra)[pos] == data[pos]);
    let marker = signed8(data[pos]);
    if marker == 127 || marker == -128 {
        lemma_longer_i32(data, extra, pos + 1);
    }
}

/// The offset field of an entry stands where it stands in a longer buffer.
proof fn lemma_longer_entry(data: Seq<u8>, extra: Seq<u8>, pos: int)
    requires
        0 <= pos,
        offset_field_at(data, pos) is Some,
    ensures
        offset_field_at(data + extra, pos) == offset_field_at(data, pos),
        offset_field_at(data, pos)->Some_0 >= pos,
{
    assert((data + extra)[pos] == data[pos]);
    if data[pos] != 1 {
        let sizes = if data[pos] == 2 {
            lemma_longer_i32(data, extra, pos + 1);
            i32_at(data, pos + 1)->Some_0.1
        } else {
            lemma_longer_string(data, extra, pos + 1);
            string_end(data, pos + 1)->Some_0
        };
        lemma_longer_compressed_int(data, extra, sizes);
        lemma_longer_compressed_int(data, extra, compressed_int_at(data, sizes)->Some_0.1);
    }
}

/// Entries that make sense still do in a longer buffer and a longer file.
proof fn lemma_longer_entries(
    data: Seq<u8>,
    extra: Seq<u8>,
    pos: int,
    count: int,
    data_start: u32,
    file_len: u64,
    longer: u64,
    hash: u32,
)
    requires
        0 <= pos,
        file_len <= longer,
        entries_valid(data, pos, count, data_start, file_len, hash),
    ensures
        entries_valid(data + extra, pos, count, data_start, longer, hash),
    decreases count,
{
    if count > 0 {
        lemma_longer_entry(data, extra, pos);
        let at = offset_field_at(data, pos)->Some_0;
        assert((data + extra).subrange(at, at + 4) =~= data.subrange(at, at + 4));
        assert(offset_at(data + extra, at, data_start, hash) == offset_at(
            data,
            at,
            data_start,
            hash,
        ));
        lemma_longer_entries(
            data,
            extra,
            at + 4,
            count - 1,
            data_start,
            file_len,
            longer,
            hash,
        );
    }
}

/// More buffer or a longer file never makes a directory that makes sense one
/// that does not.
pub proof fn law_more_data_keeps_a_directory(
    data: Seq<u8>,
    extra: Seq<u8>,
    data_start: u32,
    file_len: u64,
    longer: u64,
    hash: u32,
)
    requires
        file_len <= longer,
        directory_valid(data, data_start, file_len, hash),
    ensures
        directory_valid(data + extra, data_start, longer, hash),
{
    lemma_longer_compressed_int(data, extra, data_start + 2);
    let (count, pos) = compressed_int_at(data, data_start + 2)->Some_0;
    lemma_longer_entries(data, extra, pos, count, data_start, file_len, longer, hash);
}

/// Neither the case of its letters nor the separators decide whether a path is
/// a client's `Base.wz`.
pub proof fn law_base_wz_ignores_case_and_separators(path: Seq<char>)
    ensures
        base_wz(text::lower(path)) == base_wz(path),
        base_wz(text::replaced(path, '\\', '/')) == base_wz(path),
        base_wz(text::replaced(path, '/', '\\')) == base_wz(path),
{
    assert(plain_path(text::lower(path)) =~= plain_path(path));
    assert(plain_path(text::replaced(path, '\\', '/')) =~= plain_path(path));
    assert(plain_path(text::replaced(path, '/', '\\')) =~= plain_path(path));
}

/// A path is a client's `Base.wz` exactly where it is `base.wz`, or ends in
/// `data/base/base.wz`, once its capitals are small and its separators `/`.
pub proof fn law_base_wz_by_its_end(front: Seq<char>, path: Seq<char>, i: int)
    ensures
        plain_path(path).len() == path.len(),
        0 <= i < path.len() && path[i] == '\\' ==> plain_path(path)[i] == '/',
        0 <= i < path.len() && path[i] != '\\' ==> plain_path(path)[i] == text::lower(path)[i],
        plain_path(path) == "base.wz"@ ==> base_wz(path),
        plain_path(path) == front + "data/base/base.wz"@ ==> base_wz(path),
        base_wz(path) ==> plain_path(path) == "base.wz"@ || exists|a: Seq<char>|
            plain_path(path) == #[trigger] (a + "data/base/base.wz"@),
{
    text::law_parts_are_found(front, "data/base/base.wz"@, Seq::empty());
    text::law_found_parts_are_there(plain_path(path), "data/base/base.wz"@);
}

/// A hash goes on with a character as 32 times itself, the character's code and
/// one, in 32 bits; that of a version goes on with its digits.
pub proof fn law_hash_goes_on_with_each_digit(s: Seq<char>, c: char, version: nat, digit: nat)
    requires
        digit < 10,
    ensures
        hash_text(Seq::empty()) == 0,
        hash_text(s.push(c)) == (hash_text(s) * 32 + c as u32 + 1) % 0x1_0000_0000,
        version_hash(digit as int) == 49 + digit,
        version > 0 ==> version_hash((10 * version + digit) as int) == (version_hash(version as int)
            * 32 + 49 + digit) % 0x1_0000_0000,
{
    lemma_hash_push(s, c);
    let last = numerals::digit_char(digit);
    assert(last as u32 == 48 + digit);
    lemma_hash_push(Seq::empty(), last);
    assert(numerals::decimal(digit) =~= Seq::empty().push(last));
    if version > 0 {
        let longer = 10 * version + digit;
        assert(longer / 10 == version && longer % 10 == digit);
        assert(numerals::decimal(longer) =~= numerals::decimal(version).push(last));
        lemma_hash_push(numerals::decimal(version), last);
    }
}

proof fn lemma_hash_push(s: Seq<char>, c: char)
    ensures
        hash_text(s.push(c)) == (hash_text(s) * 32 + c as u32 + 1) % 0x1_0000_0000,
{
    assert(s.push(c).drop_last() =~= s);
    assert(s.push(c).last() == c);
}

/// The marker of a version has a bit set exactly where an even number of the four
/// bytes of its hash do: it is the complement of the four combined.
pub proof fn law_marker_combines_the_bytes(hash: u32, a: u8, b: u8, c: u8, d: u8)
    requires
        hash == 16777216 * a + 65536 * b + 256 * c + d,
    ensures
        enc_version(hash) == !(a ^ b ^ c ^ d),
{
    assert(!(((hash >> 24) as u8) ^ ((hash >> 16) as u8) ^ ((hash >> 8) as u8) ^ (hash as u8))
        == !(a ^ b ^ c ^ d)) by (bit_vector)
        requires
            hash == 16777216 * a + 65536 * b + 256 * c + d,
    ;
}

/// Four bytes are a number with the least significant first, and a negative one
/// where the highest bit is set.
pub proof fn law_numbers_are_two_complement(data: Seq<u8>, pos: int)
    requires
        0 <= pos,
    ensures
        pos + 4 > data.len() <==> i32_at(data, pos) is None,
        pos + 4 <= data.len() ==> {
            let sum = data[pos] + 256 * data[pos + 1] + 65536 * data[pos + 2] + 16777216 * data[pos
                + 3];
            &&& data[pos + 3] < 128 ==> i32_at(data, pos) == Some((sum, pos + 4))
            &&& data[pos + 3] >= 128 ==> i32_at(data, pos) == Some((sum - 4294967296, pos + 4))
        },
{
    if pos + 4 <= data.len() {
        bytes::lemma_le_value_unfold(data.subrange(pos, pos + 4));
    }
}

/// The number of bytes of the compressed number that begins with a byte.
pub open spec fn number_len(first: u8) -> int {
    if first == 128 {
        5
    } else {
        1
    }
}

/// A compressed number is one byte from -127 to 127, or the byte 128 and four
/// bytes behind it.
pub proof fn law_compressed_numbers(data: Seq<u8>, pos: int)
    requires
        0 <= pos < data.len(),
    ensures
        data[pos] < 128 ==> compressed_int_at(data, pos) == Some((data[pos] as int, pos + 1)),
        data[pos] > 128 ==> compressed_int_at(data, pos) == Some((data[pos] - 256, pos + 1)),
        data[pos] == 128 ==> compressed_int_at(data, pos) == i32_at(data, pos + 1),
        compressed_int_at(data, pos) is Some <==> pos + number_len(data[pos]) <= data.len(),
        compressed_int_at(data, pos) matches Some((_, next)) ==> next == pos + number_len(
            data[pos],
        ),
        compressed_int_at(data, data.len() as int) is None,
        after_first(data, pos) == pos + 1,
        after_first(data, data.len() as int) == data.len(),
{
}

/// A string ends behind its characters: two bytes for each where its marker is
/// positive and one where it is negative. Where the marker is the largest or the
/// smallest, the number of characters follows it in four bytes.
pub proof fn law_strings_end_behind_their_characters(data: Seq<u8>, pos: int)
    requires
        0 <= pos < data.len(),
    ensures
        ({
            let m = data[pos] as int;
            let end = string_end(data, pos);
            let short = if m < 127 {
                pos + 1 + 2 * m
            } else {
                pos + 1 + (256 - m)
            };
            &&& m != 127 && m != 128 ==> (end is Some <==> short <= data.len())
            &&& m != 127 && m != 128 && end is Some ==> end == Some(short)
            &&& m == 127 || m == 128 ==> match i32_at(data, pos + 1) {
                None => end is None,
                Some((count, _)) => {
                    let long = pos + 5 + (if m == 127 {
                        2 * count
                    } else {
                        count
                    });
                    &&& end is Some <==> 0 <= count && long <= data.len()
                    &&& end is Some ==> end == Some(long)
                },
            }
            &&& string_end(data, data.len() as int) is None
        }),
{
}

/// Where a name that could not be passed over leaves the position: behind its
/// marker, and behind the count where one follows.
pub proof fn law_strings_begin_behind_their_marker(data: Seq<u8>, pos: int)
    requires
        0 <= pos < data.len(),
    ensures
        data[pos] != 127 && data[pos] != 128 ==> (string_extent(data, pos) matches Some((_, body))
            && body == pos + 1),
        data[pos] == 127 || data[pos] == 128 ==> (string_extent(data, pos) is Some <==> pos + 5
            <= data.len()),
        data[pos] == 127 || data[pos] == 128 ==> (string_extent(data, pos) matches Some((_, body))
            ==> body == pos + 5),
{
}

/// The offset field of an entry stands seven bytes behind it where its type is 1;
/// behind a reference of four bytes and two numbers where it is 2; behind a name
/// and two numbers where it is 3 or 4. There are no other types.
pub proof fn law_entries_by_their_type(data: Seq<u8>, pos: int, names_end: int)
    requires
        0 <= pos < data.len(),
        data[pos] == 2 ==> names_end == pos + 5,
        data[pos] == 3 || data[pos] == 4 ==> string_end(data, pos + 1) == Some(names_end),
    ensures
        ({
            let kind = data[pos];
            let field = offset_field_at(data, pos);
            let second = names_end + number_len(data[names_end]);
            let end = second + number_len(data[second]);
            &&& kind == 1 ==> field == (if pos + 7 <= data.len() {
                Some(pos + 7)
            } else {
                None
            })
            &&& kind == 2 || kind == 3 || kind == 4 ==> field == (if names_end < data.len()
                && second < data.len() && end <= data.len() {
                Some(end)
            } else {
                None
            })
            &&& !(1 <= kind <= 4) ==> field is None
        }),
{
    let kind = data[pos];
    if kind == 3 || kind == 4 {
        assert(names_end >= pos + 1) by {
            if pos + 1 < data.len() {
                law_strings_end_behind_their_characters(data, pos + 1);
            }
        }
    }
    if kind == 2 || kind == 3 || kind == 4 {
        if names_end < data.len() {
            law_compressed_numbers(data, names_end);
            let second = names_end + number_len(data[names_end]);
            if second < data.len() {
                law_compressed_numbers(data, second);
            }
        }
    }
}

/// An entry whose name does not end within the data has no offset field.
pub proof fn law_entries_need_their_name(data: Seq<u8>, pos: int)
    requires
        0 <= pos < data.len(),
        data[pos] == 3 || data[pos] == 4,
        string_end(data, pos + 1) is None,
    ensures
        offset_field_at(data, pos) is None,
        offset_field_at(data, data.len() as int) is None,
{
}

/// Turning by a number of bits and then by the rest of the 32 gives the number
/// back; the bits that leave at the top come in at the bottom.
pub proof fn law_turning_goes_round(x: u32, k: u32)
    requires
        0 < k < 32,
    ensures
        turned_left(x, 0) == x,
        turned_left(turned_left(x, k), (32 - k) as u32) == x,
        x < (1u32 << ((32 - k) as u32)) ==> turned_left(x, k) == x << k,
{
    let rest = (32 - k) as u32;
    let turned = (x << k) | (x >> rest);
    assert(((turned << rest) | (turned >> k)) == x) by (bit_vector)
        requires
            0 < k < 32,
            rest == 32 - k,
            turned == (x << k) | (x >> rest),
    ;
    assert(x < (1u32 << rest) ==> (x << k) | (x >> rest) == x << k) by (bit_vector)
        requires
            0 < k < 32,
            rest == 32 - k,
    ;
    assert((32 - rest) as u32 == k);
}

/// A field is masked by the distance to the end of the 32-bit numbers from its
/// place behind the start of the data, times the hash and less the constant, all
/// in 32 bits and turned by its own lowest five bits. What it stands for is that
/// mask combined with the field, and twice the start of the data.
pub proof fn law_offsets_by_arithmetic(stored: u32, pos: u32, data_start: u32, hash: u32, mask: u32)
    requires
        ({
            let place = (pos - data_start) % 0x1_0000_0000;
            let x = ((0xFFFF_FFFF - place) * hash - 0x581C_3F6D) % 0x1_0000_0000;
            mask == turned_left(x as u32, (x % 32) as u32)
        }),
    ensures
        offset_mask(pos, data_start, hash) == mask,
        unscrambled(stored, pos, data_start, hash) == ((mask ^ stored) + 2 * data_start)
            % 0x1_0000_0000,
{
    let place = pos.wrapping_sub(data_start);
    assert(place == (pos - data_start) % 0x1_0000_0000);
    assert(place ^ 0xFFFF_FFFF == 0xFFFF_FFFF - place) by (bit_vector);
    let flipped = place ^ 0xFFFF_FFFF;
    let product = flipped.wrapping_mul(hash);
    let p = (0xFFFF_FFFF - place) * hash;
    assert(product == p % 0x1_0000_0000);
    let x = product.wrapping_sub(WZ_OFFSET_CONSTANT);
    assert(x == (p - 0x581C_3F6D) % 0x1_0000_0000);
    assert(x & 0x1F == x % 32) by (bit_vector);
    assert(data_start.wrapping_mul(2) == (2 * data_start) % 0x1_0000_0000);
}

/// An offset field is four bytes with the least significant first, and the next
/// entry begins behind it.
pub proof fn law_offset_fields_have_four_bytes(data: Seq<u8>, pos: int, data_start: u32, hash: u32)
    requires
        0 <= pos <= u32::MAX,
    ensures
        pos + 4 > data.len() <==> offset_at(data, pos, data_start, hash) is None,
        pos + 4 <= data.len() ==> offset_at(data, pos, data_start, hash) == Some(
            (
                unscrambled(
                    (data[pos] + 256 * data[pos + 1] + 65536 * data[pos + 2] + 16777216 * data[pos
                        + 3]) as u32,
                    pos as u32,
                    data_start,
                    hash,
                ),
                pos + 4,
            ),
        ),
{
    if pos + 4 <= data.len() {
        bytes::lemma_le_value_unfold(data.subrange(pos, pos + 4));
    }
}

/// A directory makes sense where it has from one to five hundred thousand entries
/// and each can be read, one behind the other, and points from the start of the
/// data up to the end of the file.
pub proof fn law_every_entry_points_inside(
    data: Seq<u8>,
    data_start: u32,
    file_len: u64,
    hash: u32,
    pos: int,
    count: int,
    offset: u32,
)
    ensures
        in_body(offset, data_start, file_len) <==> data_start <= offset && offset < file_len,
        entries_valid(data, pos, 0, data_start, file_len, hash),
        count > 0 ==> (entries_valid(data, pos, count, data_start, file_len, hash) <==> (
        offset_field_at(data, pos) matches Some(at) && (offset_at(
            data,
            at,
            data_start,
            hash,
        ) matches Some((first, next)) && data_start <= first && first < file_len && entries_valid(
            data,
            next,
            count - 1,
            data_start,
            file_len,
            hash,
        )))),
        directory_valid(data, data_start, file_len, hash) <==> (compressed_int_at(
            data,
            data_start + 2,
        ) matches Some((n, first)) && 1 <= n && n <= 500000 && entries_valid(
            data,
            first,
            n,
            data_start,
            file_len,
            hash,
        )),
{
}

/// The versions looked at are those from 0 to 1999 with the marker, and of those
/// the least under which the directory makes sense is found; where there is none,
/// the least of all. There is an error only where no version has the marker.
pub proof fn law_least_version_is_found(
    data: Seq<u8>,
    data_start: u32,
    file_len: u64,
    encver: u16,
    result: Result<WzVersion, String>,
    other: int,
)
    requires
        resolves_to(data, data_start, file_len, encver, result),
        0 <= other < 2000,
        enc_version(version_hash(other)) == encver,
    ensures
        result matches Ok(found) && {
            let v = found.version as int;
            &&& 0 <= v < 2000
            &&& found.version_hash == version_hash(v)
            &&& enc_version(version_hash(v)) == encver
            &&& directory_valid(data, data_start, file_len, version_hash(other)) ==> v <= other
                && directory_valid(data, data_start, file_len, version_hash(v))
            &&& !directory_valid(data, data_start, file_len, version_hash(v)) ==> v <= other
        },
{
    assert(candidate(other, encver));
    assert(confirmed(data, data_start, file_len, encver, other) == directory_valid(
        data,
        data_start,
        file_len,
        version_hash(other),
    ));
}

/// The header begins with the letters `PKG1`, and says in its thirteenth byte and
/// the three behind it where the data begins.
pub proof fn law_header_says_where_data_begins(data: Seq<u8>)
    requires
        data.len() >= 16,
    ensures
        has_signature(data) <==> data[0] == 'P' as u8 && data[1] == 'K' as u8 && data[2]
            == 'G' as u8 && data[3] == '1' as u8,
        data_start_of(data) == data[12] + 256 * data[13] + 65536 * data[14] + 16777216 * data[15],
{
    bytes::lemma_le_value_unfold(data.subrange(12, 16));
}

/// The first eight mebibytes of a file are worth reading.
pub proof fn law_eight_mebibytes_are_read()
    ensures
        READ_CAP == 8 * 1024 * 1024,
{
}

} // verus!
