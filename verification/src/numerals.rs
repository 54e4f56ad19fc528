//! Numbers written out in text.
use vstd::prelude::*;
use crate::text;

verus! {

/// The digit of value `d`, in small letters from ten on.
pub open spec fn digit_char(d: nat) -> char {
    if d < 10 {
        (48 + d) as char
    } else {
        (87 + d) as char
    }
}

/// The digit of value `d`, in capitals from ten on.
pub open spec fn capital_digit_char(d: nat) -> char {
    if d < 10 {
        (48 + d) as char
    } else {
        (55 + d) as char
    }
}

/// `n` in decimal, without leading zeros.
pub open spec fn decimal(n: nat) -> Seq<char>
    decreases n,
{
    if n < 10 {
        seq![digit_char(n)]
    } else {
        decimal(n / 10).push(digit_char(n % 10))
    }
}

/// `n` in decimal, with a minus sign where it is negative.
pub open spec fn signed_decimal(n: int) -> Seq<char> {
    if n < 0 {
        seq!['-'] + decimal((-n) as nat)
    } else {
        decimal(n as nat)
    }
}

/// The bytes of `data`, two small hexadecimal digits each.
pub open spec fn hex(data: Seq<u8>) -> Seq<char>
    decreases data.len(),
{
    if data.len() == 0 {
        Seq::empty()
    } else {
        hex(data.drop_last()).push(digit_char(data.last() as nat / 16)).push(
            digit_char(data.last() as nat % 16),
        )
    }
}

/// A byte as `0x` and two small hexadecimal digits.
pub open spec fn hex_byte(b: u8) -> Seq<char> {
    seq!['0', 'x', digit_char(b as nat / 16), digit_char(b as nat % 16)]
}

/// A 16-bit number as `0x` and four capital hexadecimal digits.
pub open spec fn hex_word(w: u16) -> Seq<char> {
    seq![
        '0',
        'x',
        capital_digit_char(w as nat / 4096),
        capital_digit_char(w as nat / 256 % 16),
        capital_digit_char(w as nat / 16 % 16),
        capital_digit_char(w as nat % 16),
    ]
}

/// Computes `digit_char`.
pub fn to_digit_char(d: u8) -> (c: char)
    requires
        d < 16,
    ensures
        c == digit_char(d as nat),
{
    if d < 10 {
        (48 + d) as char
    } else {
        (87 + d) as char
    }
}

/// Computes `capital_digit_char`.
pub fn to_capital_digit_char(d: u8) -> (c: char)
    requires
        d < 16,
    ensures
        c == capital_digit_char(d as nat),
{
    if d < 10 {
        (48 + d) as char
    } else {
        (55 + d) as char
    }
}

/// Appends `n` in decimal.
pub fn push_decimal(out: &mut String, n: u128)
    ensures
        final(out)@ == old(out)@ + decimal(n as nat),
    decreases n,
{
    if n >= 10 {
        push_decimal(out, n / 10);
    }
    out.push(to_digit_char((n % 10) as u8));
    assert(out@ =~= old(out)@ + decimal(n as nat));
}

/// `n` in decimal.
pub fn decimal_text(n: u64) -> (s: String)
    ensures
        s@ == decimal(n as nat),
{
    let mut s = String::new();
    push_decimal(&mut s, n as u128);
    assert(s@ =~= decimal(n as nat));
    s
}

/// `n` in decimal, with its sign where it is negative.
pub fn signed_decimal_text(n: i16) -> (s: String)
    ensures
        s@ == signed_decimal(n as int),
{
    let mut s = String::new();
    if n < 0 {
        s.push('-');
        push_decimal(&mut s, (-(n as i64)) as u128);
    } else {
        push_decimal(&mut s, n as u128);
    }
    assert(s@ =~= signed_decimal(n as int));
    s
}

/// Computes `hex_byte`.
pub fn hex_byte_text(b: u8) -> (s: String)
    ensures
        s@ == hex_byte(b),
{
    let mut s = String::new();
    s.push('0');
    s.push('x');
    s.push(to_digit_char(b / 16));
    s.push(to_digit_char(b % 16));
    assert(s@ =~= hex_byte(b));
    s
}

/// Computes `hex_word`.
pub fn hex_word_text(w: u16) -> (s: String)
    ensures
        s@ == hex_word(w),
{
    let mut s = String::new();
    s.push('0');
    s.push('x');
    s.push(to_capital_digit_char((w / 4096) as u8));
    s.push(to_capital_digit_char((w / 256 % 16) as u8));
    s.push(to_capital_digit_char((w / 16 % 16) as u8));
    s.push(to_capital_digit_char((w % 16) as u8));
    assert(s@ =~= hex_word(w));
    s
}

/// Every character of a number written in decimal is a digit, and there is at
/// least one.
pub proof fn lemma_decimal_digits(n: nat)
    ensures
        decimal(n).len() >= 1,
        text::all_digits(decimal(n)),
    decreases n,
{
    if n >= 10 {
        lemma_decimal_digits(n / 10);
    }
}

// ---------------------------------------------------------------------------
// Laws
// ---------------------------------------------------------------------------

/// The number that decimal digits spell.
pub open spec fn decimal_value(s: Seq<char>) -> int
    decreases s.len(),
{
    if s.len() == 0 {
        0
    } else {
        10 * decimal_value(s.drop_last()) + (s.last() as int - 48)
    }
}

/// A number written in decimal reads back as that number, has nothing but digits
/// and does not begin with a zero that it could do without.
pub proof fn law_decimal_reads_back(n: nat)
    ensures
        decimal_value(decimal(n)) == n,
        decimal(n).len() >= 1,
        forall|i: int| 0 <= i < decimal(n).len() ==> 48 <= (#[trigger] decimal(n)[i]) as int <= 57,
        n > 0 ==> decimal(n)[0] != '0',
    decreases n,
{
    if n < 10 {
        let s = decimal(n);
        assert(s.drop_last() =~= Seq::empty());
        assert(decimal_value(s.drop_last()) == 0);
    } else {
        law_decimal_reads_back(n / 10);
        assert(decimal(n).drop_last() =~= decimal(n / 10));
    }
}

/// A negative number is a minus sign and what stands for its absolute value.
pub proof fn law_sign_comes_first(n: nat)
    ensures
        signed_decimal(n as int) == decimal(n),
        n > 0 ==> signed_decimal(-n) == seq!['-'] + decimal(n),
{
}

/// The value of a hexadecimal digit, in either case.
pub open spec fn nibble(c: char) -> int {
    if '0' <= c <= '9' {
        c as int - 48
    } else if 'a' <= c <= 'f' {
        c as int - 87
    } else {
        c as int - 55
    }
}

/// Bytes in hexadecimal are two digits each, the higher first, with small
/// letters.
pub proof fn law_hex_spells_each_byte(data: Seq<u8>, i: int)
    requires
        0 <= i < data.len(),
    ensures
        hex(data).len() == 2 * data.len(),
        16 * nibble(hex(data)[2 * i]) + nibble(hex(data)[2 * i + 1]) == data[i],
        text::hex_digit(hex(data)[2 * i]) && text::hex_digit(hex(data)[2 * i + 1]),
        !('A' <= hex(data)[2 * i] <= 'F') && !('A' <= hex(data)[2 * i + 1] <= 'F'),
    decreases data.len(),
{
    lemma_hex_len(data);
    let rest = data.drop_last();
    lemma_hex_len(rest);
    if i < rest.len() {
        law_hex_spells_each_byte(rest, i);
        assert(hex(data)[2 * i] == hex(rest)[2 * i]);
        assert(hex(data)[2 * i + 1] == hex(rest)[2 * i + 1]);
    } else {
        lemma_digit_value(data.last() as nat / 16);
        lemma_digit_value(data.last() as nat % 16);
    }
}

/// There are two digits for each byte.
proof fn lemma_hex_len(data: Seq<u8>)
    ensures
        hex(data).len() == 2 * data.len(),
    decreases data.len(),
{
    if data.len() > 0 {
        lemma_hex_len(data.drop_last());
    }
}

/// A digit stands for its value.
proof fn lemma_digit_value(d: nat)
    requires
        d < 16,
    ensures
        nibble(digit_char(d)) == d,
        nibble(capital_digit_char(d)) == d,
        text::hex_digit(digit_char(d)),
        !('A' <= digit_char(d) <= 'F'),
        !('a' <= capital_digit_char(d) <= 'f'),
{
}

/// A byte and a 16-bit number read back from their hexadecimal digits, which
/// follow `0x`.
pub proof fn law_hex_numbers_read_back(b: u8, w: u16)
    ensures
        hex_byte(b).len() == 4 && hex_byte(b)[0] == '0' && hex_byte(b)[1] == 'x',
        16 * nibble(hex_byte(b)[2]) + nibble(hex_byte(b)[3]) == b,
        !('A' <= hex_byte(b)[2] <= 'F') && !('A' <= hex_byte(b)[3] <= 'F'),
        hex_word(w).len() == 6 && hex_word(w)[0] == '0' && hex_word(w)[1] == 'x',
        4096 * nibble(hex_word(w)[2]) + 256 * nibble(hex_word(w)[3]) + 16 * nibble(hex_word(w)[4])
            + nibble(hex_word(w)[5]) == w,
        forall|i: int| 2 <= i < 6 ==> !('a' <= #[trigger] hex_word(w)[i] <= 'f'),
{
    lemma_digit_value(b as nat / 16);
    lemma_digit_value(b as nat % 16);
    lemma_digit_value(w as nat / 4096);
    lemma_digit_value(w as nat / 256 % 16);
    lemma_digit_value(w as nat / 16 % 16);
    lemma_digit_value(w as nat % 16);
}

} // verus!
