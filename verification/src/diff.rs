//! Binary diffs between two builds of a file.
//!
//! A diff is a run of commands. Each begins with a flag byte:
//!
//! ```text
//! bits 7-6: source of the bytes (0 = old file, 1 = the diff itself)
//! bits 5-4: width of the position field (0, 1, 2 = one, two, four bytes)
//! bits 3-2: width of the length field (0, 1, 2 = one, two, four bytes)
//! bits 1-0: unused
//! ```
//!
//! and goes on with the position, the length and, where the diff is the
//! source, the bytes themselves. The position is a read offset in the old
//! file; where the diff is the source it is not looked at.
use vstd::prelude::*;
use vstd::string::*;
use crate::bytes;
use crate::numerals;

verus! {

// ---------------------------------------------------------------------------
// Reading commands
// ---------------------------------------------------------------------------

/// The fields of a command that are read with a width of their own.
#[derive(Clone, Copy, Debug, PartialEq, Eq, Structural)]
pub enum DiffField {
    Position,
    Length,
}

/// Why a diff cannot be applied.
#[derive(Clone, Copy, Debug, PartialEq, Eq, Structural)]
pub enum DiffError {
    /// The flag gives the field a width code that has no meaning.
    BadWidth { field: DiffField, code: u8, flag: u8, offset: usize },
    /// The diff ends inside the field.
    Truncated { field: DiffField, width: usize, offset: usize, len: usize },
    /// The bytes to copy do not all lie in the old file.
    OutsideOld { position: u32, end: u128, len: usize },
    /// The bytes to copy do not all lie in the diff.
    OutsideDiff { cursor: usize, end: u128, len: usize },
    /// The flag names neither the old file nor the diff as the source.
    UnknownSource { source: u8, flag: u8, offset: usize },
}

/// Why a fixed-width number cannot be read.
#[derive(Clone, Copy, Debug, PartialEq, Eq, Structural)]
pub enum ReadError {
    /// The buffer, of length `len`, ends before `offset + width`.
    OutOfBounds { width: usize, offset: usize, len: usize },
    /// Only one, two and four bytes can be read.
    UnsupportedWidth { width: usize },
}

/// The number of `n` bytes at `offset`.
pub open spec fn le_n(data: Seq<u8>, offset: int, n: int) -> nat {
    bytes::le_value(data.subrange(offset, offset + n))
}

/// Reads `n` bytes (one, two or four) at `offset` as a little-endian number.
pub fn read_le_n(data: &[u8], offset: usize, n: usize) -> (result: Result<u32, ReadError>)
    ensures
        result == (if n != 1 && n != 2 && n != 4 {
            Err(ReadError::UnsupportedWidth { width: n })
        } else if offset + n > data@.len() {
            Err(ReadError::OutOfBounds { width: n, offset, len: data@.len() as usize })
        } else {
            Ok(le_n(data@, offset as int, n as int) as u32)
        }),
        result matches Ok(v) ==> v == le_n(data@, offset as int, n as int),
{
    if n != 1 && n != 2 && n != 4 {
        return Err(ReadError::UnsupportedWidth { width: n });
    }
    if offset > data.len() || data.len() - offset < n {
        return Err(ReadError::OutOfBounds { width: n, offset, len: data.len() });
    }
    if n == 1 {
        proof {
            bytes::lemma_le_value_unfold(data@.subrange(offset as int, offset + 1));
        }
        Ok(data[offset] as u32)
    } else if n == 2 {
        Ok(bytes::read_u16_le(data, offset) as u32)
    } else {
        Ok(bytes::read_u32_le(data, offset))
    }
}

/// The number of bytes that a width code stands for.
pub open spec fn width_of(code: int) -> Option<int> {
    if code == 0 {
        Some(1)
    } else if code == 1 {
        Some(2)
    } else if code == 2 {
        Some(4)
    } else {
        None
    }
}

/// What one command does.
pub enum DiffCommand {
    /// Copy `len` bytes of the old file from `position` on.
    CopyOld { position: nat, len: nat },
    /// Take these bytes.
    Literal { data: Seq<u8> },
}

/// The command at `at` and the position after it, or why there is none.
pub open spec fn command_at(diff: Seq<u8>, at: int) -> Result<(DiffCommand, int), DiffError> {
    let flag = diff[at];
    let source = flag as int / 64;
    let pos_code = flag as int / 16 % 4;
    let len_code = flag as int / 4 % 4;
    match (width_of(pos_code), width_of(len_code)) {
        (None, _) => Err(
            DiffError::BadWidth {
                field: DiffField::Position,
                code: pos_code as u8,
                flag,
                offset: at as usize,
            },
        ),
        (_, None) => Err(
            DiffError::BadWidth {
                field: DiffField::Length,
                code: len_code as u8,
                flag,
                offset: at as usize,
            },
        ),
        (Some(pos_width), Some(len_width)) => {
            let pos_at = at + 1;
            let len_at = pos_at + pos_width;
            let body = len_at + len_width;
            if len_at > diff.len() {
                Err(
                    DiffError::Truncated {
                        field: DiffField::Position,
                        width: pos_width as usize,
                        offset: pos_at as usize,
                        len: diff.len() as usize,
                    },
                )
            } else if body > diff.len() {
                Err(
                    DiffError::Truncated {
                        field: DiffField::Length,
                        width: len_width as usize,
                        offset: len_at as usize,
                        len: diff.len() as usize,
                    },
                )
            } else {
                let position = le_n(diff, pos_at, pos_width);
                let len = le_n(diff, len_at, len_width);
                if source == 0 {
                    Ok((DiffCommand::CopyOld { position, len }, body))
                } else if source == 1 {
                    if body + len > diff.len() {
                        Err(
                            DiffError::OutsideDiff {
                                cursor: body as usize,
                                end: (body + len) as u128,
                                len: diff.len() as usize,
                            },
                        )
                    } else {
                        Ok(
                            (
                                DiffCommand::Literal { data: diff.subrange(body, body + len) },
                                body + len as int,
                            ),
                        )
                    }
                } else {
                    Err(
                        DiffError::UnknownSource {
                            source: source as u8,
                            flag,
                            offset: (body - 1) as usize,
                        },
                    )
                }
            }
        },
    }
}

/// The bytes that a command yields, given the old file.
pub open spec fn command_output(command: DiffCommand, old: Seq<u8>) -> Result<Seq<u8>, DiffError> {
    match command {
        DiffCommand::CopyOld { position, len } => if position + len > old.len() {
            Err(
                DiffError::OutsideOld {
                    position: position as u32,
                    end: (position + len) as u128,
                    len: old.len() as usize,
                },
            )
        } else {
            Ok(old.subrange(position as int, (position + len) as int))
        },
        DiffCommand::Literal { data } => Ok(data),
    }
}

/// The bytes that the commands from `at` on yield one after the other; the
/// first command that fails makes the whole diff fail.
pub open spec fn diff_output(diff: Seq<u8>, at: int, old: Seq<u8>) -> Result<Seq<u8>, DiffError>
    decreases diff.len() - at,
    via diff_output_decreases
{
    if at >= diff.len() {
        Ok(Seq::empty())
    } else {
        match command_at(diff, at) {
            Err(e) => Err(e),
            Ok((command, next)) => match command_output(command, old) {
                Err(e) => Err(e),
                Ok(bytes) => match diff_output(diff, next, old) {
                    Err(e) => Err(e),
                    Ok(rest) => Ok(bytes + rest),
                },
            },
        }
    }
}

#[via_fn]
proof fn diff_output_decreases(diff: Seq<u8>, at: int, old: Seq<u8>) {
}

/// A command as it is carried out.
enum Step {
    CopyOld { position: u32, len: u32 },
    Literal { from: usize, to: usize },
}

/// Reads the command at `at`, with the position after it.
fn next_command(diff: &[u8], at: usize) -> (result: Result<(Step, usize), DiffError>)
    requires
        at < diff@.len(),
    ensures
        match command_at(diff@, at as int) {
            Err(e) => result == Err::<(Step, usize), DiffError>(e),
            Ok((DiffCommand::CopyOld { position, len }, next)) => {
                &&& result matches Ok((Step::CopyOld { position: p, len: l }, after))
                &&& p == position
                &&& l == len
                &&& after == next
                &&& at < after <= diff@.len()
            },
            Ok((DiffCommand::Literal { data }, next)) => {
                &&& result matches Ok((Step::Literal { from, to }, after))
                &&& from <= to <= diff@.len()
                &&& data == diff@.subrange(from as int, to as int)
                &&& after == next
                &&& at < after <= diff@.len()
            },
        },
{
    let n = diff.len();
    let flag = diff[at];
    let source: u8 = flag >> 6;
    let pos_code: u8 = (flag >> 4) & 3;
    let len_code: u8 = (flag >> 2) & 3;
    assert(source == flag / 64 && pos_code == flag / 16 % 4 && len_code == flag / 4 % 4)
        by (bit_vector)
        requires
            source == flag >> 6u8,
            pos_code == (flag >> 4u8) & 3,
            len_code == (flag >> 2u8) & 3,
    ;
    let pos_width: usize = match pos_code {
        0 => 1,
        1 => 2,
        2 => 4,
        _ => {
            return Err(
                DiffError::BadWidth {
                    field: DiffField::Position,
                    code: pos_code,
                    flag,
                    offset: at,
                },
            );
        },
    };
    let len_width: usize = match len_code {
        0 => 1,
        1 => 2,
        2 => 4,
        _ => {
            return Err(
                DiffError::BadWidth { field: DiffField::Length, code: len_code, flag, offset: at },
            );
        },
    };
    let pos_at = at + 1;
    let position: u32 = match read_le_n(diff, pos_at, pos_width) {
        Ok(v) => v,
        Err(_) => {
            return Err(
                DiffError::Truncated {
                    field: DiffField::Position,
                    width: pos_width,
                    offset: pos_at,
                    len: n,
                },
            );
        },
    };
    let len_at = pos_at + pos_width;
    let len: u32 = match read_le_n(diff, len_at, len_width) {
        Ok(v) => v,
        Err(_) => {
            return Err(
                DiffError::Truncated {
                    field: DiffField::Length,
                    width: len_width,
                    offset: len_at,
                    len: n,
                },
            );
        },
    };
    let body = len_at + len_width;
    if source == 0 {
        Ok((Step::CopyOld { position, len }, body))
    } else if source == 1 {
        if len as u64 > (n - body) as u64 {
            return Err(
                DiffError::OutsideDiff {
                    cursor: body,
                    end: body as u128 + len as u128,
                    len: n,
                },
            );
        }
        let end = body + len as usize;
        Ok((Step::Literal { from: body, to: end }, end))
    } else {
        Err(DiffError::UnknownSource { source, flag, offset: body - 1 })
    }
}

/// Applies every command of `diff_data` to `old_data` and returns the bytes of
/// the new file.
pub fn apply_diff(diff_data: &[u8], old_data: &[u8]) -> (result: Result<Vec<u8>, DiffError>)
    ensures
        match diff_output(diff_data@, 0, old_data@) {
            Ok(bytes) => result matches Ok(out) && out@ == bytes,
            Err(e) => result == Err::<Vec<u8>, DiffError>(e),
        },
{
    let mut output: Vec<u8> = Vec::new();
    let mut cursor: usize = 0;
    let n = diff_data.len();
    let ghost whole = diff_output(diff_data@, 0, old_data@);
    proof {
        if whole is Ok {
            assert(output@ + whole->Ok_0 =~= whole->Ok_0);
        }
    }
    while cursor < n
        invariant
            cursor <= n == diff_data@.len(),
            whole == diff_output(diff_data@, 0, old_data@),
            match diff_output(diff_data@, cursor as int, old_data@) {
                Ok(rest) => whole == Ok::<Seq<u8>, DiffError>(output@ + rest),
                Err(e) => whole == Err::<Seq<u8>, DiffError>(e),
            },
        decreases n - cursor,
    {
        let (step, next) = match next_command(diff_data, cursor) {
            Ok(found) => found,
            Err(e) => {
                return Err(e);
            },
        };
        let ghost before = output@;
        match step {
            Step::CopyOld { position, len } => {
                let end: u64 = position as u64 + len as u64;
                if end > old_data.len() as u64 {
                    return Err(
                        DiffError::OutsideOld { position, end: end as u128, len: old_data.len() },
                    );
                }
                bytes::push_range(&mut output, old_data, position as usize, end as usize);
            },
            Step::Literal { from, to } => {
                bytes::push_range(&mut output, diff_data, from, to);
            },
        }
        proof {
            let rest = diff_output(diff_data@, next as int, old_data@);
            let command = command_at(diff_data@, cursor as int)->Ok_0.0;
            let piece = command_output(command, old_data@)->Ok_0;
            assert(output@ == before + piece);
            if rest is Ok {
                assert(before + (piece + rest->Ok_0) =~= output@ + rest->Ok_0);
            }
        }
        cursor = next;
    }
    assert(output@ + Seq::<u8>::empty() =~= output@);
    Ok(output)
}

// ---------------------------------------------------------------------------
// Messages
// ---------------------------------------------------------------------------

impl DiffField {
    /// The name of the field where a width is wrong.
    pub open spec fn width_name(self) -> Seq<char> {
        match self {
            DiffField::Position => "position"@,
            DiffField::Length => "data-length"@,
        }
    }

    /// The name of the field where the diff ends.
    pub open spec fn read_name(self) -> Seq<char> {
        match self {
            DiffField::Position => "position"@,
            DiffField::Length => "data length"@,
        }
    }
}

impl ReadError {
    /// The words for this error.
    pub open spec fn words(self) -> Seq<char> {
        match self {
            ReadError::OutOfBounds { width, offset, len } => "diff: read "@ + numerals::decimal(
                width as nat,
            ) + (if width == 1 {
                " byte"@
            } else {
                " bytes"@
            }) + " at offset "@ + numerals::decimal(offset as nat) + " out of bounds (len "@
                + numerals::decimal(len as nat) + ")"@,
            ReadError::UnsupportedWidth { width } => "diff: unsupported byte-width "@
                + numerals::decimal(width as nat),
        }
    }

    /// The message for this error.
    pub fn message(&self) -> (text: String)
        ensures
            text@ == self.words(),
    {
        let mut text = String::new();
        match *self {
            ReadError::OutOfBounds { width, offset, len } => {
                text.append("diff: read ");
                numerals::push_decimal(&mut text, width as u128);
                if width == 1 {
                    text.append(" byte");
                } else {
                    text.append(" bytes");
                }
                text.append(" at offset ");
                numerals::push_decimal(&mut text, offset as u128);
                text.append(" out of bounds (len ");
                numerals::push_decimal(&mut text, len as u128);
                text.append(")");
            },
            ReadError::UnsupportedWidth { width } => {
                text.append("diff: unsupported byte-width ");
                numerals::push_decimal(&mut text, width as u128);
            },
        }
        text
    }
}

impl DiffError {
    /// The words for this error.
    pub open spec fn words(self) -> Seq<char> {
        match self {
            DiffError::BadWidth { field, code, flag, offset } => "diff: invalid "@
                + field.width_name() + " bitlen "@ + numerals::decimal(code as nat) + " in flag "@
                + numerals::hex_byte(flag) + " at offset "@ + numerals::decimal(offset as nat),
            DiffError::Truncated { field, width, offset, len } => "diff: reading "@
                + field.read_name() + " at offset "@ + numerals::decimal(offset as nat) + ": "@ + (
            ReadError::OutOfBounds { width, offset, len }).words(),
            DiffError::OutsideOld { position, end, len } => "diff: copy-from-old-file ["@
                + numerals::decimal(position as nat) + ".."@ + numerals::decimal(end as nat)
                + ") out of bounds (old file is "@ + numerals::decimal(len as nat) + " bytes)"@,
            DiffError::OutsideDiff { cursor, end, len } => "diff: copy-from-diff ["@
                + numerals::decimal(cursor as nat) + ".."@ + numerals::decimal(end as nat)
                + ") out of bounds (diff data is "@ + numerals::decimal(len as nat) + " bytes)"@,
            DiffError::UnknownSource { source, flag, offset } => "diff: unknown source flag "@
                + numerals::hex_byte(source) + " in flag "@ + numerals::hex_byte(flag)
                + " at offset "@ + numerals::decimal(offset as nat),
        }
    }

    /// The message for this error.
    pub fn message(&self) -> (text: String)
        ensures
            text@ == self.words(),
    {
        let mut text = String::new();
        match *self {
            DiffError::BadWidth { field, code, flag, offset } => {
                text.append("diff: invalid ");
                match field {
                    DiffField::Position => text.append("position"),
                    DiffField::Length => text.append("data-length"),
                }
                text.append(" bitlen ");
                numerals::push_decimal(&mut text, code as u128);
                text.append(" in flag ");
                text.append(numerals::hex_byte_text(flag).as_str());
                text.append(" at offset ");
                numerals::push_decimal(&mut text, offset as u128);
            },
            DiffError::Truncated { field, width, offset, len } => {
                text.append("diff: reading ");
                match field {
                    DiffField::Position => text.append("position"),
                    DiffField::Length => text.append("data length"),
                }
                text.append(" at offset ");
                numerals::push_decimal(&mut text, offset as u128);
                text.append(": ");
                text.append((ReadError::OutOfBounds { width, offset, len }).message().as_str());
            },
            DiffError::OutsideOld { position, end, len } => {
                text.append("diff: copy-from-old-file [");
                numerals::push_decimal(&mut text, position as u128);
                text.append("..");
                numerals::push_decimal(&mut text, end);
                text.append(") out of bounds (old file is ");
                numerals::push_decimal(&mut text, len as u128);
                text.append(" bytes)");
            },
            DiffError::OutsideDiff { cursor, end, len } => {
                text.append("diff: copy-from-diff [");
                numerals::push_decimal(&mut text, cursor as u128);
                text.append("..");
                numerals::push_decimal(&mut text, end);
                text.append(") out of bounds (diff data is ");
                numerals::push_decimal(&mut text, len as u128);
                text.append(" bytes)");
            },
            DiffError::UnknownSource { source, flag, offset } => {
                text.append("diff: unknown source flag ");
                text.append(numerals::hex_byte_text(source).as_str());
                text.append(" in flag ");
                text.append(numerals::hex_byte_text(flag).as_str());
                text.append(" at offset ");
                numerals::push_decimal(&mut text, offset as u128);
            },
        }
        text
    }
}

// ---------------------------------------------------------------------------
// Laws of diffs
// ---------------------------------------------------------------------------

/// A command that takes `data` from the diff, with four-byte fields.
pub open spec fn literal_command(position: nat, data: Seq<u8>) -> Seq<u8> {
    seq![0x68u8] + bytes::le_bytes(position, 4) + bytes::le_bytes(data.len(), 4) + data
}

/// A command that copies from the old file, with four-byte fields.
pub open spec fn copy_command(position: nat, len: nat) -> Seq<u8> {
    seq![0x28u8] + bytes::le_bytes(position, 4) + bytes::le_bytes(len, 4)
}

/// The fields of a command with four-byte fields are those it was written
/// with.
proof fn lemma_wide_fields(flag: u8, position: nat, len: nat, data: Seq<u8>)
    requires
        position < 0x1_0000_0000,
        len < 0x1_0000_0000,
    ensures
        ({
            let diff = seq![flag] + bytes::le_bytes(position, 4) + bytes::le_bytes(len, 4) + data;
            &&& diff.len() == 9 + data.len()
            &&& diff[0] == flag
            &&& le_n(diff, 1, 4) == position
            &&& le_n(diff, 5, 4) == len
            &&& diff.subrange(9, diff.len() as int) == data
        }),
{
    reveal_with_fuel(bytes::byte_span, 5);
    bytes::lemma_le_round_trip(position, 4);
    bytes::lemma_le_round_trip(len, 4);
    let diff = seq![flag] + bytes::le_bytes(position, 4) + bytes::le_bytes(len, 4) + data;
    assert(diff.subrange(1, 5) =~= bytes::le_bytes(position, 4));
    assert(diff.subrange(5, 9) =~= bytes::le_bytes(len, 4));
    assert(diff.subrange(9, diff.len() as int) =~= data);
}

/// Bytes embedded in a diff come out as they are, whatever position the
/// command gives and whatever the old file holds.
pub proof fn law_literal_is_kept(position: nat, data: Seq<u8>, old: Seq<u8>)
    requires
        position < 0x1_0000_0000,
        data.len() < 0x1_0000_0000,
    ensures
        diff_output(literal_command(position, data), 0, old) == Ok::<Seq<u8>, DiffError>(data),
{
    let diff = literal_command(position, data);
    lemma_wide_fields(0x68, position, data.len(), data);
    reveal_with_fuel(diff_output, 2);
    assert(data + Seq::<u8>::empty() =~= data);
}

/// A copy command yields the range of the old file that it names, if and only
/// if the whole range lies in the file.
pub proof fn law_copy_takes_the_range(position: nat, len: nat, old: Seq<u8>)
    requires
        position < 0x1_0000_0000,
        len < 0x1_0000_0000,
    ensures
        position + len <= old.len() ==> diff_output(copy_command(position, len), 0, old) == Ok::<
            Seq<u8>,
            DiffError,
        >(old.subrange(position as int, (position + len) as int)),
        position + len > old.len() ==> diff_output(copy_command(position, len), 0, old) is Err,
{
    let diff = copy_command(position, len);
    lemma_wide_fields(0x28, position, len, Seq::empty());
    assert(diff =~= diff + Seq::<u8>::empty());
    reveal_with_fuel(diff_output, 2);
    if position + len <= old.len() {
        let piece = old.subrange(position as int, (position + len) as int);
        assert(piece + Seq::<u8>::empty() =~= piece);
    }
}

/// A command that is whole in the first of two diffs is the same command in
/// the two joined.
proof fn lemma_command_in_prefix(a: Seq<u8>, b: Seq<u8>, at: int)
    requires
        0 <= at < a.len(),
        command_at(a, at) is Ok,
    ensures
        command_at(a + b, at) == command_at(a, at),
        at < command_at(a, at)->Ok_0.1 <= a.len(),
{
    let ab = a + b;
    let flag = a[at];
    assert(ab[at] == flag);
    let pw = width_of(flag as int / 16 % 4)->Some_0;
    let lw = width_of(flag as int / 4 % 4)->Some_0;
    assert(ab.subrange(at + 1, at + 1 + pw) =~= a.subrange(at + 1, at + 1 + pw));
    assert(ab.subrange(at + 1 + pw, at + 1 + pw + lw) =~= a.subrange(
        at + 1 + pw,
        at + 1 + pw + lw,
    ));
    let body = at + 1 + pw + lw;
    let len = le_n(a, at + 1 + pw, lw);
    if flag as int / 64 == 1 {
        assert(ab.subrange(body, body + len) =~= a.subrange(body, body + len));
    }
}

/// A command of the second of two diffs is the same command in the two
/// joined, so much further on.
proof fn lemma_command_in_suffix(a: Seq<u8>, b: Seq<u8>, at: int)
    requires
        0 <= at < b.len(),
    ensures
        match command_at(b, at) {
            Ok((command, next)) => command_at(a + b, a.len() + at) == Ok::<
                (DiffCommand, int),
                DiffError,
            >((command, a.len() + next)) && at < next <= b.len(),
            Err(_) => command_at(a + b, a.len() + at) is Err,
        },
{
    let ab = a + b;
    let n = a.len() as int;
    let flag = b[at];
    assert(ab[n + at] == flag);
    match (width_of(flag as int / 16 % 4), width_of(flag as int / 4 % 4)) {
        (Some(pw), Some(lw)) => {
            let body = at + 1 + pw + lw;
            if body <= b.len() {
                assert(ab.subrange(n + at + 1, n + at + 1 + pw) =~= b.subrange(at + 1, at + 1 + pw));
                assert(ab.subrange(n + at + 1 + pw, n + body) =~= b.subrange(at + 1 + pw, body));
                let len = le_n(b, at + 1 + pw, lw);
                if flag as int / 64 == 1 && body + len <= b.len() {
                    assert(ab.subrange(n + body, n + body + len) =~= b.subrange(body, body + len));
                }
            }
        },
        _ => {},
    }
}

/// The outcome from a position of the second diff on, in the two joined.
proof fn lemma_output_in_suffix(a: Seq<u8>, b: Seq<u8>, at: int, old: Seq<u8>)
    requires
        0 <= at,
    ensures
        match diff_output(b, at, old) {
            Ok(bytes) => diff_output(a + b, a.len() + at, old) == Ok::<Seq<u8>, DiffError>(bytes),
            Err(_) => diff_output(a + b, a.len() + at, old) is Err,
        },
    decreases b.len() - at,
{
    if at < b.len() {
        lemma_command_in_suffix(a, b, at);
        if command_at(b, at) is Ok {
            let next = command_at(b, at)->Ok_0.1;
            lemma_output_in_suffix(a, b, next, old);
        }
    }
}

/// The outcome from a position of the first diff on, in the two joined.
proof fn lemma_output_in_prefix(a: Seq<u8>, b: Seq<u8>, at: int, old: Seq<u8>)
    requires
        0 <= at <= a.len(),
        diff_output(a, at, old) is Ok,
    ensures
        match diff_output(b, 0, old) {
            Ok(tail) => diff_output(a + b, at, old) == Ok::<Seq<u8>, DiffError>(
                diff_output(a, at, old)->Ok_0 + tail,
            ),
            Err(_) => diff_output(a + b, at, old) is Err,
        },
    decreases a.len() - at,
{
    if at < a.len() {
        lemma_command_in_prefix(a, b, at);
        let (command, next) = command_at(a, at)->Ok_0;
        lemma_output_in_prefix(a, b, next, old);
        if diff_output(b, 0, old) is Ok {
            let piece = command_output(command, old)->Ok_0;
            let rest = diff_output(a, next, old)->Ok_0;
            let tail = diff_output(b, 0, old)->Ok_0;
            assert(piece + (rest + tail) =~= (piece + rest) + tail);
        }
    } else {
        lemma_output_in_suffix(a, b, 0, old);
        if diff_output(b, 0, old) is Ok {
            let tail = diff_output(b, 0, old)->Ok_0;
            assert(Seq::<u8>::empty() + tail =~= tail);
        }
    }
}

/// Diffs compose: where the first applies, the two joined yield the first
/// one's bytes followed by the second one's, and fail if and only if the
/// second fails.
pub proof fn law_joined_diffs(a: Seq<u8>, b: Seq<u8>, old: Seq<u8>)
    requires
        diff_output(a, 0, old) is Ok,
    ensures
        match diff_output(b, 0, old) {
            Ok(tail) => diff_output(a + b, 0, old) == Ok::<Seq<u8>, DiffError>(
                diff_output(a, 0, old)->Ok_0 + tail,
            ),
            Err(_) => diff_output(a + b, 0, old) is Err,
        },
{
    lemma_output_in_prefix(a, b, 0, old);
}

/// Whether no command from `at` on, as far as commands can be read, copies
/// from the old file.
pub open spec fn needs_no_old_file(diff: Seq<u8>, at: int) -> bool
    decreases diff.len() - at,
    via needs_no_old_file_decreases
{
    at >= diff.len() || match command_at(diff, at) {
        Err(_) => true,
        Ok((command, next)) => command is Literal && needs_no_old_file(diff, next),
    }
}

#[via_fn]
proof fn needs_no_old_file_decreases(diff: Seq<u8>, at: int) {
}

/// A diff that copies nothing from the old file gives the same outcome
/// whatever the old file holds; it builds a brand-new file from nothing.
pub proof fn law_new_file_needs_no_old(diff: Seq<u8>, at: int, old: Seq<u8>, other: Seq<u8>)
    requires
        0 <= at,
        needs_no_old_file(diff, at),
    ensures
        diff_output(diff, at, old) == diff_output(diff, at, other),
    decreases diff.len() - at,
{
    if at < diff.len() && command_at(diff, at) is Ok {
        law_new_file_needs_no_old(diff, command_at(diff, at)->Ok_0.1, old, other);
    }
}

/// The width of a field, by the two bits that stand for it: one, two or four
/// bytes.
pub open spec fn field_width(bits: nat) -> nat {
    if bits == 0 {
        1
    } else if bits == 1 {
        2
    } else {
        4
    }
}

/// Whether a number fits a field.
pub open spec fn fits_field(value: nat, bits: nat) -> bool {
    if bits == 0 {
        value < 256
    } else if bits == 1 {
        value < 65536
    } else {
        value < 4294967296
    }
}

/// A number as a field, the least significant byte first.
pub open spec fn field(value: nat, bits: nat) -> Seq<u8> {
    if bits == 0 {
        seq![value as u8]
    } else if bits == 1 {
        seq![(value % 256) as u8, (value / 256) as u8]
    } else {
        seq![
            (value % 256) as u8,
            (value / 256 % 256) as u8,
            (value / 65536 % 256) as u8,
            (value / 16777216) as u8,
        ]
    }
}

/// The head of a command: the flag with its four pairs of bits, then the
/// position and the length.
pub open spec fn command_head(
    source: nat,
    pos_bits: nat,
    len_bits: nat,
    spare: nat,
    position: nat,
    len: nat,
) -> Seq<u8> {
    seq![(64 * source + 16 * pos_bits + 4 * len_bits + spare) as u8] + field(position, pos_bits)
        + field(len, len_bits)
}

/// A field reads as the number it was written for.
proof fn lemma_field_reads(before: Seq<u8>, value: nat, bits: nat, after: Seq<u8>)
    requires
        bits < 3,
        fits_field(value, bits),
    ensures
        field(value, bits).len() == field_width(bits),
        le_n(
            before + field(value, bits) + after,
            before.len() as int,
            field_width(bits) as int,
        ) == value,
{
    let all = before + field(value, bits) + after;
    let at = before.len() as int;
    let piece = all.subrange(at, at + field_width(bits));
    assert(piece =~= field(value, bits));
    bytes::lemma_le_value_unfold(piece);
    if bits == 2 {
        assert(value == value % 256 + 256 * (value / 256 % 256) + 65536 * (value / 65536 % 256)
            + 16777216 * (value / 16777216));
    }
}

/// What the head of a command says, whatever follows it.
proof fn lemma_head_reads(
    source: nat,
    pos_bits: nat,
    len_bits: nat,
    spare: nat,
    position: nat,
    len: nat,
    tail: Seq<u8>,
)
    requires
        source < 4 && pos_bits < 3 && len_bits < 3 && spare < 4,
        fits_field(position, pos_bits),
        fits_field(len, len_bits),
    ensures
        ({
            let diff = command_head(source, pos_bits, len_bits, spare, position, len) + tail;
            let flag = diff[0] as int;
            let body = 1 + field_width(pos_bits) + field_width(len_bits);
            &&& flag / 64 == source && flag / 16 % 4 == pos_bits && flag / 4 % 4 == len_bits
            &&& width_of(pos_bits as int) == Some(field_width(pos_bits) as int)
            &&& width_of(len_bits as int) == Some(field_width(len_bits) as int)
            &&& diff.len() == body + tail.len()
            &&& le_n(diff, 1, field_width(pos_bits) as int) == position
            &&& le_n(diff, 1 + field_width(pos_bits) as int, field_width(len_bits) as int) == len
            &&& diff.subrange(body as int, diff.len() as int) == tail
        }),
{
    let flag: nat = 64 * source + 16 * pos_bits + 4 * len_bits + spare;
    let first = seq![flag as u8];
    let p = field(position, pos_bits);
    let l = field(len, len_bits);
    let diff = command_head(source, pos_bits, len_bits, spare, position, len) + tail;
    lemma_field_reads(first, position, pos_bits, l + tail);
    assert(first + p + (l + tail) =~= diff);
    lemma_field_reads(first + p, len, len_bits, tail);
    assert((first + p) + l + tail =~= diff);
    let body = 1 + field_width(pos_bits) + field_width(len_bits);
    assert(diff.subrange(body as int, diff.len() as int) =~= tail);
    assert(diff[0] == flag as u8);
    assert(flag < 256);
    assert(flag / 64 == source && flag / 16 % 4 == pos_bits && flag / 4 % 4 == len_bits);
}

/// A copy command of any field widths yields the bytes of the old file from its
/// position on, as many as its length says, where the old file has them all;
/// otherwise it fails and says which bytes it wanted.
pub proof fn law_copies_of_every_width(
    pos_bits: nat,
    len_bits: nat,
    spare: nat,
    position: nat,
    len: nat,
    old: Seq<u8>,
)
    requires
        pos_bits < 3 && len_bits < 3 && spare < 4,
        fits_field(position, pos_bits),
        fits_field(len, len_bits),
    ensures
        ({
            let diff = command_head(0, pos_bits, len_bits, spare, position, len);
            &&& position + len <= old.len() ==> diff_output(diff, 0, old) == Ok::<
                Seq<u8>,
                DiffError,
            >(old.subrange(position as int, position + len as int))
            &&& position + len > old.len() ==> diff_output(diff, 0, old) == Err::<
                Seq<u8>,
                DiffError,
            >(
                DiffError::OutsideOld {
                    position: position as u32,
                    end: (position + len) as u128,
                    len: old.len() as usize,
                },
            )
        }),
{
    let diff = command_head(0, pos_bits, len_bits, spare, position, len);
    lemma_head_reads(0, pos_bits, len_bits, spare, position, len, Seq::empty());
    assert(diff + Seq::<u8>::empty() =~= diff);
    reveal_with_fuel(diff_output, 2);
    if position + len <= old.len() {
        let piece = old.subrange(position as int, position + len as int);
        assert(piece + Seq::<u8>::empty() =~= piece);
    }
}

/// A command of any field widths that brings its own bytes yields them, all and
/// unchanged, whatever its position says and whatever the old file holds.
pub proof fn law_literals_of_every_width(
    pos_bits: nat,
    len_bits: nat,
    spare: nat,
    position: nat,
    data: Seq<u8>,
    old: Seq<u8>,
)
    requires
        pos_bits < 3 && len_bits < 3 && spare < 4,
        fits_field(position, pos_bits),
        fits_field(data.len(), len_bits),
    ensures
        diff_output(
            command_head(1, pos_bits, len_bits, spare, position, data.len()) + data,
            0,
            old,
        ) == Ok::<Seq<u8>, DiffError>(data),
{
    let diff = command_head(1, pos_bits, len_bits, spare, position, data.len()) + data;
    lemma_head_reads(1, pos_bits, len_bits, spare, position, data.len(), data);
    reveal_with_fuel(diff_output, 2);
    assert(data + Seq::<u8>::empty() =~= data);
}

/// Commands are carried out in their order: what a copy yields stands before
/// what the rest of the diff yields.
pub proof fn law_commands_follow_each_other(
    pos_bits: nat,
    len_bits: nat,
    spare: nat,
    position: nat,
    len: nat,
    data: Seq<u8>,
    rest: Seq<u8>,
    old: Seq<u8>,
)
    requires
        pos_bits < 3 && len_bits < 3 && spare < 4,
        fits_field(position, pos_bits),
        fits_field(len, len_bits),
        fits_field(data.len(), len_bits),
        position + len <= old.len(),
    ensures
        ({
            let copy = command_head(0, pos_bits, len_bits, spare, position, len);
            let literal = command_head(1, pos_bits, len_bits, spare, position, data.len()) + data;
            match diff_output(rest, 0, old) {
                Ok(tail) => {
                    &&& diff_output(copy + rest, 0, old) == Ok::<Seq<u8>, DiffError>(
                        old.subrange(position as int, position + len as int) + tail,
                    )
                    &&& diff_output(literal + rest, 0, old) == Ok::<Seq<u8>, DiffError>(
                        data + tail,
                    )
                },
                Err(_) => {
                    &&& diff_output(copy + rest, 0, old) is Err
                    &&& diff_output(literal + rest, 0, old) is Err
                },
            }
        }),
{
    law_copies_of_every_width(pos_bits, len_bits, spare, position, len, old);
    law_literals_of_every_width(pos_bits, len_bits, spare, position, data, old);
    let copy = command_head(0, pos_bits, len_bits, spare, position, len);
    let literal = command_head(1, pos_bits, len_bits, spare, position, data.len()) + data;
    law_joined_diffs(copy, rest, old);
    law_joined_diffs(literal, rest, old);
}

/// Nothing is made of an empty diff, and what cannot be read as a command fails:
/// a width that has no meaning, a field or embedded bytes that are cut off, and a
/// source that is neither the old file nor the diff.
pub proof fn law_unreadable_commands_fail(diff: Seq<u8>, old: Seq<u8>)
    ensures
        diff.len() == 0 ==> diff_output(diff, 0, old) == Ok::<Seq<u8>, DiffError>(Seq::empty()),
        diff.len() > 0 ==> ({
            let flag = diff[0] as nat;
            let pos_bits = flag / 16 % 4;
            let len_bits = flag / 4 % 4;
            let head = 1 + field_width(pos_bits) + field_width(len_bits);
            &&& pos_bits == 3 ==> diff_output(diff, 0, old) == Err::<Seq<u8>, DiffError>(
                DiffError::BadWidth {
                    field: DiffField::Position,
                    code: 3,
                    flag: diff[0],
                    offset: 0,
                },
            )
            &&& pos_bits < 3 && len_bits == 3 ==> diff_output(diff, 0, old) == Err::<
                Seq<u8>,
                DiffError,
            >(
                DiffError::BadWidth {
                    field: DiffField::Length,
                    code: 3,
                    flag: diff[0],
                    offset: 0,
                },
            )
            &&& pos_bits < 3 && len_bits < 3 && diff.len() < 1 + field_width(pos_bits)
                ==> diff_output(diff, 0, old) == Err::<Seq<u8>, DiffError>(
                DiffError::Truncated {
                    field: DiffField::Position,
                    width: field_width(pos_bits) as usize,
                    offset: 1,
                    len: diff.len() as usize,
                },
            )
            &&& pos_bits < 3 && len_bits < 3 && 1 + field_width(pos_bits) <= diff.len() < head
                ==> diff_output(diff, 0, old) == Err::<Seq<u8>, DiffError>(
                DiffError::Truncated {
                    field: DiffField::Length,
                    width: field_width(len_bits) as usize,
                    offset: (1 + field_width(pos_bits)) as usize,
                    len: diff.len() as usize,
                },
            )
            &&& pos_bits < 3 && len_bits < 3 && head <= diff.len() && flag >= 128 ==> diff_output(
                diff,
                0,
                old,
            ) == Err::<Seq<u8>, DiffError>(
                DiffError::UnknownSource {
                    source: (flag / 64) as u8,
                    flag: diff[0],
                    offset: (head - 1) as usize,
                },
            )
        }),
{
}

/// Embedded bytes that are cut off make the diff fail, which says how far they
/// should have gone.
pub proof fn law_cut_off_literals_fail(
    pos_bits: nat,
    len_bits: nat,
    spare: nat,
    position: nat,
    len: nat,
    data: Seq<u8>,
    old: Seq<u8>,
)
    requires
        pos_bits < 3 && len_bits < 3 && spare < 4,
        fits_field(position, pos_bits),
        fits_field(len, len_bits),
        data.len() < len,
    ensures
        ({
            let head = command_head(1, pos_bits, len_bits, spare, position, len);
            diff_output(head + data, 0, old) == Err::<Seq<u8>, DiffError>(
                DiffError::OutsideDiff {
                    cursor: head.len() as usize,
                    end: (head.len() + len) as u128,
                    len: (head.len() + data.len()) as usize,
                },
            )
        }),
{
    lemma_head_reads(1, pos_bits, len_bits, spare, position, len, data);
    reveal_with_fuel(diff_output, 2);
}

/// A number of one, two or four bytes is read with the least significant byte
/// first.
pub proof fn law_fields_are_little_endian(data: Seq<u8>, at: int)
    requires
        0 <= at,
        at + 4 <= data.len(),
    ensures
        le_n(data, at, 1) == data[at],
        le_n(data, at, 2) == data[at] + 256 * data[at + 1],
        le_n(data, at, 4) == data[at] + 256 * data[at + 1] + 65536 * data[at + 2] + 16777216
            * data[at + 3],
{
    bytes::lemma_le_value_unfold(data.subrange(at, at + 1));
    bytes::lemma_le_value_unfold(data.subrange(at, at + 2));
    bytes::lemma_le_value_unfold(data.subrange(at, at + 4));
}

/// An error with its places counted from `n` bytes further to the front.
pub open spec fn further_on(error: DiffError, n: int) -> DiffError {
    match error {
        DiffError::BadWidth { field, code, flag, offset } => DiffError::BadWidth {
            field,
            code,
            flag,
            offset: (offset + n) as usize,
        },
        DiffError::Truncated { field, width, offset, len } => DiffError::Truncated {
            field,
            width,
            offset: (offset + n) as usize,
            len: (len + n) as usize,
        },
        DiffError::OutsideOld { position, end, len } => DiffError::OutsideOld {
            position,
            end,
            len,
        },
        DiffError::OutsideDiff { cursor, end, len } => DiffError::OutsideDiff {
            cursor: (cursor + n) as usize,
            end: (end + n) as u128,
            len: (len + n) as usize,
        },
        DiffError::UnknownSource { source, flag, offset } => DiffError::UnknownSource {
            source,
            flag,
            offset: (offset + n) as usize,
        },
    }
}

/// A command that cannot be read fails alike behind other commands.
proof fn lemma_command_error_further_on(a: Seq<u8>, b: Seq<u8>, at: int)
    requires
        0 <= at < b.len(),
        a.len() + b.len() <= usize::MAX,
        command_at(b, at) is Err,
    ensures
        command_at(a + b, a.len() + at) == Err::<(DiffCommand, int), DiffError>(
            further_on(command_at(b, at)->Err_0, a.len() as int),
        ),
{
    let ab = a + b;
    let n = a.len() as int;
    let flag = b[at];
    assert(ab[n + at] == flag);
    match (width_of(flag as int / 16 % 4), width_of(flag as int / 4 % 4)) {
        (Some(pw), Some(lw)) => {
            let body = at + 1 + pw + lw;
            if body <= b.len() {
                let len_at = at + 1 + pw;
                assert(ab.subrange(n + at + 1, n + len_at) =~= b.subrange(at + 1, len_at));
                assert(ab.subrange(n + len_at, n + body) =~= b.subrange(len_at, body));
                bytes::lemma_le_value_unfold(b.subrange(len_at, body));
            }
        },
        _ => {},
    }
}

/// A diff that fails does so alike behind other commands.
proof fn lemma_output_error_further_on(a: Seq<u8>, b: Seq<u8>, at: int, old: Seq<u8>)
    requires
        0 <= at,
        a.len() + b.len() <= usize::MAX,
        diff_output(b, at, old) is Err,
    ensures
        diff_output(a + b, a.len() + at, old) == Err::<Seq<u8>, DiffError>(
            further_on(diff_output(b, at, old)->Err_0, a.len() as int),
        ),
    decreases b.len() - at,
{
    lemma_command_in_suffix(a, b, at);
    match command_at(b, at) {
        Err(_) => {
            lemma_command_error_further_on(a, b, at);
        },
        Ok((command, next)) => {
            if command_output(command, old) is Ok {
                lemma_output_error_further_on(a, b, next, old);
            }
        },
    }
}

/// So it does behind what is left of the commands before it.
proof fn lemma_error_behind_prefix(a: Seq<u8>, b: Seq<u8>, at: int, old: Seq<u8>)
    requires
        0 <= at <= a.len(),
        a.len() + b.len() <= usize::MAX,
        diff_output(a, at, old) is Ok,
        diff_output(b, 0, old) is Err,
    ensures
        diff_output(a + b, at, old) == Err::<Seq<u8>, DiffError>(
            further_on(diff_output(b, 0, old)->Err_0, a.len() as int),
        ),
    decreases a.len() - at,
{
    if at < a.len() {
        lemma_command_in_prefix(a, b, at);
        lemma_error_behind_prefix(a, b, command_at(a, at)->Ok_0.1, old);
    } else {
        lemma_output_error_further_on(a, b, 0, old);
    }
}

/// An error tells where it is in the whole diff: commands in front of it that
/// can be carried out move the place that it names by their length.
pub proof fn law_errors_name_their_place(a: Seq<u8>, b: Seq<u8>, old: Seq<u8>)
    requires
        a.len() + b.len() <= usize::MAX,
        diff_output(a, 0, old) is Ok,
        diff_output(b, 0, old) is Err,
    ensures
        diff_output(a + b, 0, old) == Err::<Seq<u8>, DiffError>(
            further_on(diff_output(b, 0, old)->Err_0, a.len() as int),
        ),
{
    lemma_error_behind_prefix(a, b, 0, old);
}

/// A message about a read names the number of bytes, in the singular for one, then
/// where they should have stood, then the length of the data.
pub proof fn law_read_messages(width: usize, offset: usize, len: usize)
    ensures
        (ReadError::OutOfBounds { width, offset, len }).words() == "diff: read "@
            + numerals::decimal(width as nat) + (if width == 1 {
            " byte at offset "@
        } else {
            " bytes at offset "@
        }) + numerals::decimal(offset as nat) + " out of bounds (len "@ + numerals::decimal(
            len as nat,
        ) + ")"@,
        (ReadError::UnsupportedWidth { width }).words() == "diff: unsupported byte-width "@
            + numerals::decimal(width as nat),
{
    reveal_strlit(" byte");
    reveal_strlit(" bytes");
    reveal_strlit(" at offset ");
    reveal_strlit(" byte at offset ");
    reveal_strlit(" bytes at offset ");
    assert(" byte"@ + " at offset "@ =~= " byte at offset "@);
    assert(" bytes"@ + " at offset "@ =~= " bytes at offset "@);
    let front = "diff: read "@ + numerals::decimal(width as nat);
    assert(front + " byte"@ + " at offset "@ =~= front + (" byte"@ + " at offset "@));
    assert(front + " bytes"@ + " at offset "@ =~= front + (" bytes"@ + " at offset "@));
}

/// A message about a command names what is wrong with it, and then its numbers in
/// the order in which they are read.
pub proof fn law_diff_messages(
    code: u8,
    flag: u8,
    source: u8,
    offset: usize,
    width: usize,
    len: usize,
    position: u32,
    cursor: usize,
    end: u128,
)
    ensures
        (DiffError::BadWidth { field: DiffField::Position, code, flag, offset }).words()
            == "diff: invalid "@ + "position"@ + " bitlen "@ + numerals::decimal(code as nat)
            + " in flag "@ + numerals::hex_byte(flag) + " at offset "@ + numerals::decimal(
            offset as nat,
        ),
        (DiffError::BadWidth { field: DiffField::Length, code, flag, offset }).words()
            == "diff: invalid "@ + "data-length"@ + " bitlen "@ + numerals::decimal(code as nat)
            + " in flag "@ + numerals::hex_byte(flag) + " at offset "@ + numerals::decimal(
            offset as nat,
        ),
        (DiffError::Truncated { field: DiffField::Position, width, offset, len }).words()
            == "diff: reading "@ + "position"@ + " at offset "@ + numerals::decimal(offset as nat)
            + ": "@ + (ReadError::OutOfBounds { width, offset, len }).words(),
        (DiffError::Truncated { field: DiffField::Length, width, offset, len }).words()
            == "diff: reading "@ + "data length"@ + " at offset "@ + numerals::decimal(
            offset as nat,
        ) + ": "@ + (ReadError::OutOfBounds { width, offset, len }).words(),
        (DiffError::OutsideOld { position, end, len }).words() == "diff: copy-from-old-file ["@
            + numerals::decimal(position as nat) + ".."@ + numerals::decimal(end as nat)
            + ") out of bounds (old file is "@ + numerals::decimal(len as nat) + " bytes)"@,
        (DiffError::OutsideDiff { cursor, end, len }).words() == "diff: copy-from-diff ["@
            + numerals::decimal(cursor as nat) + ".."@ + numerals::decimal(end as nat)
            + ") out of bounds (diff data is "@ + numerals::decimal(len as nat) + " bytes)"@,
        (DiffError::UnknownSource { source, flag, offset }).words() == "diff: unknown source flag "@
            + numerals::hex_byte(source) + " in flag "@ + numerals::hex_byte(flag) + " at offset "@
            + numerals::decimal(offset as nat),
{
}

} // verus!
