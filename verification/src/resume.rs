//! Resume support for downloads made of object blocks.
//!
//! A sidecar file next to the download records which object blocks have been
//! written. After an interruption the next run reads it and skips them.
//!
//! ```text
//! 0x00-0x04  ASCII magic (e.g. "NXLDL" or "NGMDL")
//! 0x05       version (1)
//! 0x06-0x07  reserved (zeroed)
//! 0x08-0x0B  number of objects (u32 LE)
//! 0x0C-0x13  total file size (u64 LE)
//! 0x14+      completion bitmap: 1 bit per object, LSB of each byte first,
//!            padded to whole bytes (0 = not done, 1 = done)
//! ```
use vstd::prelude::*;
use vstd::string::*;
use crate::bytes;
use crate::numerals;

verus! {

/// Describes the magic bytes and file extension of a sidecar format.
#[derive(Clone, Copy, Debug)]
pub struct SidecarKind {
    pub magic: [u8; 5],
    pub ext: &'static str,
}

/// The magic bytes `NXLDL`.
pub open spec fn nxl_magic() -> Seq<u8> {
    seq![0x4Eu8, 0x58, 0x4C, 0x44, 0x4C]
}

/// The magic bytes `NGMDL`.
pub open spec fn ngm_magic() -> Seq<u8> {
    seq![0x4Eu8, 0x47, 0x4D, 0x44, 0x4C]
}

/// NXL sidecar format (`.nxldl`, magic `NXLDL`).
pub fn sidecar_nxl() -> (kind: SidecarKind)
    ensures
        kind.magic@ == nxl_magic(),
        kind.ext@ == ".nxldl"@,
{
    SidecarKind { magic: [0x4E, 0x58, 0x4C, 0x44, 0x4C], ext: ".nxldl" }
}

/// NGM sidecar format (`.ngmdl`, magic `NGMDL`).
pub fn sidecar_ngm() -> (kind: SidecarKind)
    ensures
        kind.magic@ == ngm_magic(),
        kind.ext@ == ".ngmdl"@,
{
    SidecarKind { magic: [0x4E, 0x47, 0x4D, 0x44, 0x4C], ext: ".ngmdl" }
}

/// The version of the layout.
pub const VERSION: u8 = 1;

/// The number of bytes before the bitmap.
pub const HEADER_SIZE: usize = 20;

/// The number of objects that a sidecar is for.
pub open spec fn objects_in(data: Seq<u8>) -> nat {
    bytes::le_value(data.subrange(8, 12))
}

/// The size of the file that a sidecar is for.
pub open spec fn size_in(data: Seq<u8>) -> nat {
    bytes::le_value(data.subrange(12, 20))
}

/// The number of bytes in a bitmap of `n` bits.
pub open spec fn packed_len(n: nat) -> nat {
    (n + 7) / 8
}

/// Bit `i` of the bitmap.
pub open spec fn done_bit(data: Seq<u8>, i: int) -> u8 {
    (data[HEADER_SIZE + i / 8] >> ((i % 8) as u8)) & 1
}

/// Whether `data` is a sidecar of this kind that covers all its objects.
pub open spec fn is_sidecar(data: Seq<u8>, kind: SidecarKind) -> bool {
    &&& data.len() >= HEADER_SIZE
    &&& data.subrange(0, 5) == kind.magic@
    &&& data[5] == VERSION
    &&& data.len() >= HEADER_SIZE + packed_len(objects_in(data))
}

/// The bitmap of a sidecar, one byte (0 or 1) per object.
pub open spec fn unpacked(data: Seq<u8>) -> Seq<u8> {
    Seq::new(objects_in(data), |i: int| done_bit(data, i))
}

/// A sidecar with nothing done yet.
pub open spec fn fresh_sidecar(num_objects: nat, total_size: nat, kind: SidecarKind) -> Seq<u8> {
    kind.magic@ + seq![VERSION, 0u8, 0u8] + bytes::le_bytes(num_objects, 4) + bytes::le_bytes(
        total_size,
        8,
    ) + Seq::new(packed_len(num_objects), |i: int| 0u8)
}

/// A sidecar with one object more marked as done.
pub open spec fn with_done(data: Seq<u8>, index: int) -> Seq<u8> {
    let at = HEADER_SIZE + index / 8;
    data.update(at, data[at] | (1u8 << ((index % 8) as u8)))
}

/// Returns the path of the sidecar file for `dest`.
pub fn progress_path(dest: &str, kind: &SidecarKind) -> (path: String)
    ensures
        path@ == dest@ + kind.ext@,
{
    let mut path = String::new();
    path.append(dest);
    path.append(kind.ext);
    path
}

/// The number of bytes in a bitmap of `num_objects` bits.
fn bitmap_len(num_objects: u32) -> (n: usize)
    ensures
        n == packed_len(num_objects as nat),
{
    let whole: u32 = num_objects / 8;
    if num_objects % 8 == 0 {
        whole as usize
    } else {
        whole as usize + 1
    }
}

/// Reads the contents of a sidecar file, or `None` where they are not a
/// sidecar of this kind.
///
/// Returns the bitmap, one byte per object (1 where the object is done), the
/// number of objects and the total size.
pub fn read_progress(data: &[u8], kind: &SidecarKind) -> (progress: Option<(Vec<u8>, u32, u64)>)
    ensures
        match progress {
            Some((bitmap, num_objects, total_size)) => {
                &&& is_sidecar(data@, *kind)
                &&& bitmap@ == unpacked(data@)
                &&& num_objects == objects_in(data@)
                &&& total_size == size_in(data@)
            },
            None => !is_sidecar(data@, *kind),
        },
{
    if data.len() < HEADER_SIZE {
        return None;
    }
    let mut i: usize = 0;
    while i < 5
        invariant
            i <= 5,
            data@.len() >= HEADER_SIZE,
            forall|j: int| 0 <= j < i ==> data@[j] == kind.magic@[j],
        decreases 5 - i,
    {
        if data[i] != kind.magic[i] {
            assert(data@.subrange(0, 5)[i as int] != kind.magic@[i as int]);
            return None;
        }
        i = i + 1;
    }
    assert(data@.subrange(0, 5) =~= kind.magic@);
    if data[5] != VERSION {
        return None;
    }
    let num_objects: u32 = bytes::read_u32_le(data, 8);
    let total_size: u64 = bytes::read_u64_le(data, 12);
    if data.len() - HEADER_SIZE < bitmap_len(num_objects) {
        return None;
    }
    let mut bitmap: Vec<u8> = Vec::new();
    let n = num_objects as usize;
    let mut k: usize = 0;
    while k < n
        invariant
            k <= n,
            n == objects_in(data@),
            data@.len() >= HEADER_SIZE + packed_len(n as nat),
            bitmap@ == unpacked(data@).take(k as int),
        decreases n - k,
    {
        let byte = data[HEADER_SIZE + k / 8];
        bitmap.push((byte >> ((k % 8) as u8)) & 1);
        k = k + 1;
    }
    assert(bitmap@ =~= unpacked(data@));
    Some((bitmap, num_objects, total_size))
}

/// The contents of a new sidecar file for a download.
pub fn create_progress(num_objects: u32, total_size: u64, kind: &SidecarKind) -> (data: Vec<u8>)
    ensures
        data@ == fresh_sidecar(num_objects as nat, total_size as nat, *kind),
{
    let mut data: Vec<u8> = Vec::new();
    let mut i: usize = 0;
    while i < 5
        invariant
            i <= 5,
            data@ == kind.magic@.take(i as int),
        decreases 5 - i,
    {
        data.push(kind.magic[i]);
        i = i + 1;
    }
    data.push(VERSION);
    data.push(0);
    data.push(0);
    assert(data@ =~= kind.magic@ + seq![VERSION, 0u8, 0u8]);
    bytes::push_le(&mut data, num_objects as u64, 4);
    bytes::push_le(&mut data, total_size, 8);
    let packed = bitmap_len(num_objects);
    let ghost header = data@;
    let mut k: usize = 0;
    while k < packed
        invariant
            k <= packed,
            data@ == header + Seq::new(k as nat, |i: int| 0u8),
        decreases packed - k,
    {
        data.push(0);
        k = k + 1;
        assert(data@ =~= header + Seq::new(k as nat, |i: int| 0u8));
    }
    data
}

/// Why an object cannot be marked.
#[derive(Clone, Copy, Debug, PartialEq, Eq, Structural)]
pub enum SidecarError {
    OutOfRange { index: u32, num_objects: u32 },
}

impl SidecarError {
    /// The words for this error.
    pub open spec fn words(self) -> Seq<char> {
        match self {
            SidecarError::OutOfRange { index, num_objects } => "object index "@
                + numerals::decimal(index as nat) + " out of range ("@ + numerals::decimal(
                num_objects as nat,
            ) + " objects)"@,
        }
    }

    /// The message for this error.
    pub fn message(&self) -> (text: String)
        ensures
            text@ == self.words(),
    {
        let mut text = String::new();
        match *self {
            SidecarError::OutOfRange { index, num_objects } => {
                text.append("object index ");
                numerals::push_decimal(&mut text, index as u128);
                text.append(" out of range (");
                numerals::push_decimal(&mut text, num_objects as u128);
                text.append(" objects)");
            },
        }
        text
    }
}

/// Marks an object as done in the contents of a sidecar file.
///
/// Returns an error, and changes nothing, if `index` is out of bounds.
pub fn mark_done(data: &mut Vec<u8>, index: u32) -> (result: Result<(), SidecarError>)
    requires
        old(data)@.len() >= 12,
        index < objects_in(old(data)@) ==> HEADER_SIZE + index as int / 8 < old(data)@.len(),
    ensures
        if index < objects_in(old(data)@) {
            result is Ok && final(data)@ == with_done(old(data)@, index as int)
        } else {
            &&& result == Err::<(), SidecarError>(
                SidecarError::OutOfRange { index, num_objects: objects_in(old(data)@) as u32 },
            )
            &&& final(data)@ == old(data)@
        },
{
    let num_objects = bytes::read_u32_le(data.as_slice(), 8);
    if index >= num_objects {
        return Err(SidecarError::OutOfRange { index, num_objects });
    }
    let offset: usize = HEADER_SIZE + (index / 8) as usize;
    let bit: u8 = (index % 8) as u8;
    let byte = data[offset];
    data.set(offset, byte | (1u8 << bit));
    Ok(())
}

// ---------------------------------------------------------------------------
// Laws
// ---------------------------------------------------------------------------

/// A new sidecar reads back as what it was made for, with nothing done.
pub proof fn law_fresh_reads_back(num_objects: nat, total_size: nat, kind: SidecarKind)
    requires
        num_objects <= u32::MAX,
        total_size <= u64::MAX,
    ensures
        ({
            let data = fresh_sidecar(num_objects, total_size, kind);
            &&& is_sidecar(data, kind)
            &&& objects_in(data) == num_objects
            &&& size_in(data) == total_size
            &&& forall|i: int| 0 <= i < num_objects ==> #[trigger] unpacked(data)[i] == 0
        }),
{
    let data = fresh_sidecar(num_objects, total_size, kind);
    reveal_with_fuel(bytes::byte_span, 9);
    bytes::lemma_le_round_trip(num_objects, 4);
    bytes::lemma_le_round_trip(total_size, 8);
    assert(data.subrange(0, 5) =~= kind.magic@);
    assert(data.subrange(8, 12) =~= bytes::le_bytes(num_objects, 4));
    assert(data.subrange(12, 20) =~= bytes::le_bytes(total_size, 8));
    assert forall|i: int| 0 <= i < num_objects implies #[trigger] unpacked(data)[i] == 0 by {
        let shift = (i % 8) as u8;
        assert(data[HEADER_SIZE + i / 8] == 0);
        assert((0u8 >> shift) & 1 == 0) by (bit_vector);
    }
}

/// Marking an object marks that one, keeps every other as it was, and keeps
/// what else the sidecar says.
pub proof fn law_mark_sets_one_bit(data: Seq<u8>, kind: SidecarKind, index: int)
    requires
        is_sidecar(data, kind),
        0 <= index < objects_in(data),
    ensures
        ({
            let marked = with_done(data, index);
            &&& is_sidecar(marked, kind)
            &&& objects_in(marked) == objects_in(data)
            &&& size_in(marked) == size_in(data)
            &&& unpacked(marked) == unpacked(data).update(index, 1)
        }),
{
    let marked = with_done(data, index);
    let at = HEADER_SIZE + index / 8;
    assert(marked.subrange(0, 5) =~= data.subrange(0, 5));
    assert(marked.subrange(8, 12) =~= data.subrange(8, 12));
    assert(marked.subrange(12, 20) =~= data.subrange(12, 20));
    assert forall|i: int| 0 <= i < objects_in(data) implies #[trigger] unpacked(marked)[i]
        == unpacked(data).update(index, 1)[i] by {
        let byte = data[at];
        let k = (index % 8) as u8;
        let j = (i % 8) as u8;
        assert(((byte | (1u8 << k)) >> j) & 1 == (if j == k {
            1u8
        } else {
            (byte >> j) & 1
        })) by (bit_vector)
            requires
                k < 8,
                j < 8,
        ;
        if i != index && i / 8 == index / 8 {
            assert(j != k);
        }
    }
    assert(unpacked(marked) =~= unpacked(data).update(index, 1));
}

/// The order in which two objects are marked does not matter.
pub proof fn law_marks_commute(data: Seq<u8>, i: int, j: int)
    requires
        data.len() >= HEADER_SIZE,
        0 <= i,
        0 <= j,
        HEADER_SIZE + i / 8 < data.len(),
        HEADER_SIZE + j / 8 < data.len(),
    ensures
        with_done(with_done(data, i), j) == with_done(with_done(data, j), i),
{
    let byte = data[HEADER_SIZE + i / 8];
    let x = 1u8 << ((i % 8) as u8);
    let y = 1u8 << ((j % 8) as u8);
    assert((byte | x) | y == (byte | y) | x) by (bit_vector);
    assert(with_done(with_done(data, i), j) =~= with_done(with_done(data, j), i));
}

/// An NXL sidecar is never taken for an NGM one.
pub proof fn law_kinds_are_told_apart(data: Seq<u8>, nxl: SidecarKind, ngm: SidecarKind)
    requires
        nxl.magic@ == nxl_magic(),
        ngm.magic@ == ngm_magic(),
    ensures
        !(is_sidecar(data, nxl) && is_sidecar(data, ngm)),
{
    assert(nxl_magic()[1] != ngm_magic()[1]);
}

/// The weight of a bit, the lowest first.
pub open spec fn bit_weight(k: int) -> int {
    if k == 0 {
        1
    } else if k == 1 {
        2
    } else if k == 2 {
        4
    } else if k == 3 {
        8
    } else if k == 4 {
        16
    } else if k == 5 {
        32
    } else if k == 6 {
        64
    } else {
        128
    }
}

/// Object `i` has its bit in byte `i / 8` behind the header, with the weight of
/// `i % 8`: its byte tells by that bit whether it is done, and marking it adds that
/// weight where the bit was not set, and changes no other byte.
pub proof fn law_bits_go_up_within_a_byte(data: Seq<u8>, i: int, j: int)
    requires
        0 <= i < objects_in(data),
        20 + i / 8 < data.len(),
    ensures
        ({
            let byte = data[20 + i / 8] as int;
            let weight = bit_weight(i % 8);
            let marked = with_done(data, i);
            &&& unpacked(data).len() == objects_in(data)
            &&& unpacked(data)[i] == byte / weight % 2
            &&& marked.len() == data.len()
            &&& byte / weight % 2 == 1 ==> marked == data
            &&& byte / weight % 2 == 0 ==> marked[20 + i / 8] == byte + weight
            &&& 0 <= j < data.len() && j != 20 + i / 8 ==> marked[j] == data[j]
        }),
{
    let byte = data[20 + i / 8];
    let k = (i % 8) as u8;
    assert(k < 8);
    assert((byte >> 0u8) & 1 == byte / 1 % 2 && (byte >> 1u8) & 1 == byte / 2 % 2 && (byte >> 2u8)
        & 1 == byte / 4 % 2 && (byte >> 3u8) & 1 == byte / 8 % 2 && (byte >> 4u8) & 1 == byte / 16
        % 2 && (byte >> 5u8) & 1 == byte / 32 % 2 && (byte >> 6u8) & 1 == byte / 64 % 2 && (byte
        >> 7u8) & 1 == byte / 128 % 2) by (bit_vector);
    assert(k == 0 || k == 1 || k == 2 || k == 3 || k == 4 || k == 5 || k == 6 || k == 7);
    let weight: u8 = bit_weight(i % 8) as u8;
    let after = byte | (1u8 << k);
    assert((byte / weight % 2 == 1 ==> after == byte) && (byte / weight % 2 == 0 ==> after == byte
        + weight)) by (bit_vector)
        requires
            after == byte | (1u8 << k),
            (k == 0 && weight == 1) || (k == 1 && weight == 2) || (k == 2 && weight == 4) || (k == 3
                && weight == 8) || (k == 4 && weight == 16) || (k == 5 && weight == 32) || (k == 6
                && weight == 64) || (k == 7 && weight == 128),
    ;
    let marked = with_done(data, i);
    if byte as int / bit_weight(i % 8) % 2 == 1 {
        assert(marked =~= data);
    }
}

/// A sidecar is told by its first five bytes, by the version behind them and by
/// having a bit for each object; the number of objects and the size are read with
/// the least significant byte first.
pub proof fn law_sidecars_are_told_by_their_header(data: Seq<u8>, kind: SidecarKind)
    requires
        data.len() >= 20,
    ensures
        is_sidecar(data, kind) <==> {
            &&& forall|i: int| 0 <= i < 5 ==> #[trigger] data[i] == kind.magic@[i]
            &&& data[5] == 1
            &&& 8 * (data.len() - 20) >= objects_in(data)
        },
        objects_in(data) == data[8] + 256 * data[9] + 65536 * data[10] + 16777216 * data[11],
        size_in(data) == data[12] + 256 * data[13] + 65536 * data[14] + 16777216 * data[15]
            + 4294967296 * data[16] + 1099511627776 * data[17] + 281474976710656 * data[18]
            + 72057594037927936 * data[19],
{
    bytes::lemma_le_value_unfold(data.subrange(8, 12));
    bytes::lemma_le_value_unfold(data.subrange(12, 20));
    let head = data.subrange(0, 5);
    if forall|i: int| 0 <= i < 5 ==> #[trigger] data[i] == kind.magic@[i] {
        assert(head =~= kind.magic@) by {
            assert forall|i: int| 0 <= i < 5 implies head[i] == kind.magic@[i] by {
                assert(data[i] == kind.magic@[i]);
            }
        }
    }
    if head == kind.magic@ {
        assert forall|i: int| 0 <= i < 5 implies #[trigger] data[i] == kind.magic@[i] by {
            assert(head[i] == data[i]);
        }
    }
}

/// Nothing shorter than a header is a sidecar. A new one is just as long as its
/// header and its bits need.
pub proof fn law_new_sidecars_are_just_long_enough(
    num_objects: nat,
    total_size: nat,
    kind: SidecarKind,
    data: Seq<u8>,
)
    requires
        num_objects <= u32::MAX,
        total_size <= u64::MAX,
    ensures
        data.len() < 20 ==> !is_sidecar(data, kind),
        fresh_sidecar(num_objects, total_size, kind).len() == 20 + (num_objects + 7) / 8,
        forall|i: int|
            (i == 6 || i == 7 || i >= 20) && i < fresh_sidecar(num_objects, total_size, kind).len()
                ==> #[trigger] fresh_sidecar(num_objects, total_size, kind)[i] == 0,
{
    reveal_with_fuel(bytes::byte_span, 9);
    bytes::lemma_le_round_trip(num_objects, 4);
    bytes::lemma_le_round_trip(total_size, 8);
}

/// A message about an object names it and then how many there are.
pub proof fn law_sidecar_messages(index: u32, num_objects: u32)
    ensures
        (SidecarError::OutOfRange { index, num_objects }).words() == "object index "@
            + numerals::decimal(index as nat) + " out of range ("@ + numerals::decimal(
            num_objects as nat,
        ) + " objects)"@,
{
}

/// The magic bytes spell the names of the formats.
pub proof fn law_magic_bytes_spell_the_format(i: int)
    requires
        0 <= i < 5,
    ensures
        nxl_magic().len() == 5 && nxl_magic()[i] as int == "NXLDL"@[i] as int,
        ngm_magic().len() == 5 && ngm_magic()[i] as int == "NGMDL"@[i] as int,
{
    reveal_strlit("NXLDL");
    reveal_strlit("NGMDL");
    assert(i == 0 || i == 1 || i == 2 || i == 3 || i == 4);
}

} // verus!
