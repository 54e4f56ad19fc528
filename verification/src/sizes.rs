//! Byte counts for people to read.
use vstd::prelude::*;
use vstd::string::*;
use crate::numerals;
use crate::text;

verus! {

// ---------------------------------------------------------------------------
// Thousands separators
// ---------------------------------------------------------------------------

/// Three digits of `n`, which is below a thousand.
pub open spec fn three_digits(n: nat) -> Seq<char> {
    seq![
        numerals::digit_char(n / 100),
        numerals::digit_char(n / 10 % 10),
        numerals::digit_char(n % 10),
    ]
}

/// `n` in decimal, with a comma before every group of three digits but the
/// first.
pub open spec fn grouped(n: nat) -> Seq<char>
    decreases n,
{
    if n < 1000 {
        numerals::decimal(n)
    } else {
        grouped(n / 1000) + seq![','] + three_digits(n % 1000)
    }
}

/// Appends `grouped`.
fn push_grouped(out: &mut String, n: u64)
    ensures
        final(out)@ == old(out)@ + grouped(n as nat),
    decreases n,
{
    if n < 1000 {
        numerals::push_decimal(out, n as u128);
    } else {
        push_grouped(out, n / 1000);
        let low: u64 = n % 1000;
        out.push(',');
        out.push(numerals::to_digit_char((low / 100) as u8));
        out.push(numerals::to_digit_char((low / 10 % 10) as u8));
        out.push(numerals::to_digit_char((low % 10) as u8));
        assert(out@ =~= old(out)@ + grouped(n as nat));
    }
}

/// Formats a byte count with thousands separators (e.g. "21,676,736,368").
pub fn format_bytes(bytes: u64) -> (s: String)
    ensures
        s@ == grouped(bytes as nat),
{
    let mut s = String::new();
    push_grouped(&mut s, bytes);
    assert(s@ =~= grouped(bytes as nat));
    s
}

/// `s` without its commas.
pub open spec fn without_commas(s: Seq<char>) -> Seq<char>
    decreases s.len(),
{
    if s.len() == 0 {
        s
    } else if s.last() == ',' {
        without_commas(s.drop_last())
    } else {
        without_commas(s.drop_last()).push(s.last())
    }
}

proof fn lemma_without_commas_digits(s: Seq<char>)
    requires
        text::all_digits(s),
    ensures
        without_commas(s) == s,
    decreases s.len(),
{
    if s.len() > 0 {
        assert(text::digit(s[s.len() - 1]));
        lemma_without_commas_digits(s.drop_last());
        assert(s.drop_last().push(s.last()) =~= s);
    }
}

proof fn lemma_without_commas_join(a: Seq<char>, b: Seq<char>)
    ensures
        without_commas(a + b) == without_commas(a) + without_commas(b),
    decreases b.len(),
{
    if b.len() == 0 {
        assert(a + b =~= a);
        assert(without_commas(a) + without_commas(b) =~= without_commas(a));
    } else {
        assert((a + b).drop_last() =~= a + b.drop_last());
        assert((a + b).last() == b.last());
        lemma_without_commas_join(a, b.drop_last());
        assert(without_commas(a + b) =~= without_commas(a) + without_commas(b));
    }
}

proof fn lemma_digit_positions(n: nat)
    ensures
        n / 10 / 10 / 10 == n / 1000,
        n / 10 / 10 % 10 == n % 1000 / 100,
        n / 10 % 10 == n % 1000 / 10 % 10,
        n % 10 == n % 1000 % 10,
{
    let q = n / 1000;
    let r = n % 1000;
    assert(n == 1000 * q + r);
    assert(n / 10 == 100 * q + r / 10);
    assert(n / 10 / 10 == 10 * q + r / 100);
}

proof fn lemma_last_three_digits(n: nat)
    requires
        n >= 1000,
    ensures
        numerals::decimal(n) == numerals::decimal(n / 1000) + three_digits(n % 1000),
{
    let a = n / 10;
    let b = a / 10;
    assert(numerals::decimal(n) == numerals::decimal(a).push(numerals::digit_char(n % 10)));
    assert(numerals::decimal(a) == numerals::decimal(b).push(numerals::digit_char(a % 10)));
    assert(numerals::decimal(b) == numerals::decimal(b / 10).push(numerals::digit_char(b % 10)));
    lemma_digit_positions(n);
    assert(numerals::decimal(n) =~= numerals::decimal(n / 1000) + three_digits(n % 1000));
}

/// The separators add nothing but themselves: without them the digits of the
/// number are left.
pub proof fn law_grouping_keeps_the_digits(n: nat)
    ensures
        without_commas(grouped(n)) == numerals::decimal(n),
    decreases n,
{
    numerals::lemma_decimal_digits(n);
    if n < 1000 {
        lemma_without_commas_digits(numerals::decimal(n));
    } else {
        law_grouping_keeps_the_digits(n / 1000);
        let head = grouped(n / 1000);
        let comma = seq![','];
        let tail = three_digits(n % 1000);
        lemma_without_commas_join(head + comma, tail);
        lemma_without_commas_join(head, comma);
        assert(without_commas(comma) =~= Seq::empty()) by {
            reveal_with_fuel(without_commas, 2);
            assert(comma.drop_last() =~= Seq::empty());
        }
        lemma_without_commas_digits(tail);
        lemma_last_three_digits(n);
        assert(without_commas(head) + without_commas(comma) =~= without_commas(head));
    }
}

// ---------------------------------------------------------------------------
// Units
// ---------------------------------------------------------------------------

/// `n / d` rounded to the nearest whole number, halves to the even one.
pub open spec fn rounded(n: nat, d: nat) -> nat
    recommends
        d > 0,
{
    let q = n / d;
    let r = n % d;
    if 2 * r < d || (2 * r == d && q % 2 == 0) {
        q
    } else {
        q + 1
    }
}

/// The distance between neighbouring double-precision numbers at `n`, where
/// they are whole numbers; one below 2^53.
pub open spec fn spacing(n: nat) -> nat
    decreases n,
{
    if n < 0x20_0000_0000_0000 {
        1
    } else {
        2 * spacing(n / 2)
    }
}

/// The double-precision number next to `n`.
pub open spec fn nearest_double(n: nat) -> nat {
    rounded(n, spacing(n)) * spacing(n)
}

/// The size of a unit: 1024 to the power of its rank.
pub open spec fn unit_size(rank: nat) -> nat
    decreases rank,
{
    if rank == 0 {
        1
    } else {
        1024 * unit_size((rank - 1) as nat)
    }
}

/// The rank of the largest unit, up to the fourth, that is not above `n`.
pub open spec fn unit_rank(n: nat) -> nat {
    if n < unit_size(1) {
        0
    } else if n < unit_size(2) {
        1
    } else if n < unit_size(3) {
        2
    } else if n < unit_size(4) {
        3
    } else {
        4
    }
}

/// The name of a unit.
pub open spec fn unit_name(rank: nat) -> Seq<char> {
    if rank == 0 {
        "B"@
    } else if rank == 1 {
        "KiB"@
    } else if rank == 2 {
        "MiB"@
    } else if rank == 3 {
        "GiB"@
    } else {
        "TiB"@
    }
}

/// A size in its unit with one digit after the point.
pub open spec fn human(bytes: nat) -> Seq<char> {
    let rank = unit_rank(bytes);
    let tenths = rounded(10 * nearest_double(bytes), unit_size(rank));
    numerals::decimal(tenths / 10) + seq!['.', numerals::digit_char(tenths % 10), ' '] + unit_name(
        rank,
    )
}

/// A size in GiB with two digits after the point.
pub open spec fn gib(bytes: nat) -> Seq<char> {
    let hundredths = rounded(100 * nearest_double(bytes), unit_size(3));
    numerals::decimal(hundredths / 100) + seq![
        '.',
        numerals::digit_char(hundredths / 10 % 10),
        numerals::digit_char(hundredths % 10),
    ]
}

/// Computes `rounded`.
fn round(n: u128, d: u128) -> (r: u128)
    requires
        0 < d <= 0x1_0000_0000_0000_0000,
        n < 0x1_0000_0000_0000_0000_0000_0000,
    ensures
        r == rounded(n as nat, d as nat),
        r <= n / d + 1,
{
    let q: u128 = n / d;
    let rest: u128 = n % d;
    assert(q <= n) by (nonlinear_arith)
        requires
            q == n / d,
            d >= 1,
    ;
    assert(rest < d) by (nonlinear_arith)
        requires
            rest == n % d,
            d >= 1,
    ;
    if 2 * rest < d || (2 * rest == d && q % 2 == 0) {
        q
    } else {
        q + 1
    }
}

/// Computes `spacing`.
fn spacing_at(n: u64) -> (s: u128)
    ensures
        s == spacing(n as nat),
        1 <= s <= 4096,
{
    let mut s: u128 = 1;
    let mut rest: u64 = n;
    while rest >= 0x20_0000_0000_0000
        invariant
            spacing(n as nat) == s * spacing(rest as nat),
            1 <= s,
            s * (rest as int) <= n,
            s * 0x10_0000_0000_0000 <= n || s == 1,
        decreases rest,
    {
        let half: u64 = rest / 2;
        assert(spacing(rest as nat) == 2 * spacing(half as nat));
        assert(s * (2 * spacing(half as nat)) == (2 * s) * spacing(half as nat))
            by (nonlinear_arith);
        assert((2 * s) * (half as int) <= n) by (nonlinear_arith)
            requires
                s * (rest as int) <= n,
                2 * half <= rest,
                1 <= s,
        ;
        assert((2 * s) * 0x10_0000_0000_0000 <= n) by (nonlinear_arith)
            requires
                s * (rest as int) <= n,
                rest >= 0x20_0000_0000_0000,
                1 <= s,
        ;
        s = 2 * s;
        rest = half;
    }
    assert(spacing(rest as nat) == 1);
    let ghost one = spacing(rest as nat);
    assert(s * one == s) by (nonlinear_arith)
        requires
            one == 1,
    ;
    s
}

/// Computes `nearest_double`.
fn to_nearest_double(n: u64) -> (d: u128)
    ensures
        d == nearest_double(n as nat),
        d <= n + 4096,
{
    let s = spacing_at(n);
    let q = round(n as u128, s);
    assert(q * s <= n + s) by (nonlinear_arith)
        requires
            q <= (n as u128) / s + 1,
            s >= 1,
            n >= 0,
    ;
    q * s
}

/// Formats a byte count as a human-readable string (e.g. "1.5 GiB").
pub fn human_size(bytes: u64) -> (s: String)
    ensures
        s@ == human(bytes as nat),
{
    reveal_with_fuel(unit_size, 5);
    let (unit, name): (u128, &str) = if bytes < 1024 {
        (1, "B")
    } else if bytes < 1048576 {
        (1024, "KiB")
    } else if bytes < 1073741824 {
        (1048576, "MiB")
    } else if bytes < 1099511627776 {
        (1073741824, "GiB")
    } else {
        (1099511627776, "TiB")
    };
    let tenths = round(10 * to_nearest_double(bytes), unit);
    let mut s = String::new();
    numerals::push_decimal(&mut s, tenths / 10);
    s.push('.');
    s.push(numerals::to_digit_char((tenths % 10) as u8));
    s.push(' ');
    s.append(name);
    assert(s@ =~= human(bytes as nat));
    s
}

/// Formats a byte count in GiB with two digits after the point.
pub fn gib_size(bytes: u64) -> (s: String)
    ensures
        s@ == gib(bytes as nat),
{
    reveal_with_fuel(unit_size, 5);
    let hundredths = round(100 * to_nearest_double(bytes), 1073741824);
    let mut s = String::new();
    numerals::push_decimal(&mut s, hundredths / 100);
    s.push('.');
    s.push(numerals::to_digit_char((hundredths / 10 % 10) as u8));
    s.push(numerals::to_digit_char((hundredths % 10) as u8));
    assert(s@ =~= gib(bytes as nat));
    s
}

// ---------------------------------------------------------------------------
// Laws
// ---------------------------------------------------------------------------

/// Commas stand where a whole number of groups of three digits follows, and
/// nowhere else.
pub proof fn law_commas_part_groups_of_three(n: nat, j: int)
    requires
        0 <= j < grouped(n).len(),
    ensures
        grouped(n)[j] == ',' <==> (grouped(n).len() - j) % 4 == 0,
    decreases n,
{
    if n < 1000 {
        numerals::law_decimal_reads_back(n);
        lemma_short_decimal(n);
        assert(48 <= numerals::decimal(n)[j] as int <= 57);
        lemma_comma_is_no_digit(grouped(n)[j]);
    } else {
        let front = grouped(n / 1000);
        if j < front.len() {
            law_commas_part_groups_of_three(n / 1000, j);
            assert(grouped(n)[j] == front[j]);
        } else if j > front.len() {
            lemma_three_digits(n % 1000);
            assert(grouped(n)[j] == three_digits(n % 1000)[j - front.len() - 1]);
            lemma_comma_is_no_digit(grouped(n)[j]);
        }
    }
}

proof fn lemma_comma_is_no_digit(c: char)
    ensures
        48 <= c as int <= 57 ==> c != ',',
{
}

proof fn lemma_three_digits(n: nat)
    requires
        n < 1000,
    ensures
        forall|i: int| 0 <= i < 3 ==> 48 <= (#[trigger] three_digits(n)[i]) as int <= 57,
{
}

proof fn lemma_short_decimal(n: nat)
    requires
        n < 1000,
    ensures
        numerals::decimal(n).len() <= 3,
{
    reveal_with_fuel(numerals::decimal, 4);
}

/// Rounding gives the nearest whole number: the distance is at most a half, and
/// where it is a half the number is even.
pub proof fn law_rounding_is_to_the_nearest(n: nat, d: nat)
    requires
        d > 0,
    ensures
        2 * (rounded(n, d) * d - n) <= d,
        2 * (n - rounded(n, d) * d) <= d,
        2 * (rounded(n, d) * d - n) == d || 2 * (n - rounded(n, d) * d) == d ==> rounded(n, d) % 2
            == 0,
{
    let q = n / d;
    let r = n % d;
    vstd::arithmetic::div_mod::lemma_fundamental_div_mod(n as int, d as int);
    assert(r < d) by (nonlinear_arith)
        requires
            r == n % d,
            d > 0,
    ;
    assert(d * q == q * d) by (nonlinear_arith);
    assert((q + 1) * d == q * d + d) by (nonlinear_arith);
}

/// Nothing is lost by rounding a multiple.
proof fn lemma_rounded_multiple(k: nat, d: nat)
    requires
        d > 0,
    ensures
        rounded(k * d, d) == k,
{
    assert((k * d) / d == k && (k * d) % d == 0) by {
        vstd::arithmetic::div_mod::lemma_div_multiples_vanish(k as int, d as int);
        vstd::arithmetic::div_mod::lemma_mod_multiples_basic(k as int, d as int);
        vstd::arithmetic::mul::lemma_mul_is_commutative(k as int, d as int);
    }
}

/// A double holds 53 bits: neighbouring ones are so far apart that between 2^52
/// and 2^53 of those distances make up the number, and twice as far at twice the
/// number.
pub proof fn law_doubles_hold_53_bits(n: nat)
    ensures
        n < 0x20_0000_0000_0000 ==> spacing(n) == 1,
        n >= 0x10_0000_0000_0000 ==> spacing(n) * 0x10_0000_0000_0000 <= n < spacing(n)
            * 0x20_0000_0000_0000,
        n >= 0x10_0000_0000_0000 ==> spacing(2 * n) == 2 * spacing(n) && spacing(2 * n + 1) == 2
            * spacing(n),
        spacing(n) >= 1,
    decreases n,
{
    if n >= 0x20_0000_0000_0000 {
        law_doubles_hold_53_bits(n / 2);
    }
}

/// The double next to a number is within half the distance of two doubles, and a
/// number below 2^53 is one itself.
pub proof fn law_nearest_double_is_near(n: nat)
    ensures
        n < 0x20_0000_0000_0000 ==> nearest_double(n) == n,
        2 * (nearest_double(n) - n) <= spacing(n),
        2 * (n - nearest_double(n)) <= spacing(n),
        nearest_double(n) % spacing(n) == 0,
{
    law_doubles_hold_53_bits(n);
    law_rounding_is_to_the_nearest(n, spacing(n));
    let k = rounded(n, spacing(n));
    let s = spacing(n);
    vstd::arithmetic::div_mod::lemma_mod_multiples_basic(k as int, s as int);
    if n < 0x20_0000_0000_0000 {
        assert(n / 1 == n && n % 1 == 0);
        assert(k * s == k) by (nonlinear_arith)
            requires
                s == 1,
        ;
    }
}

/// Whether words are a number of tenths of a unit, with one digit after the
/// point, that is nearest to a number of bytes.
pub open spec fn tells_in_tenths(
    words: Seq<char>,
    tenths: nat,
    bytes: nat,
    unit: nat,
    name: Seq<char>,
) -> bool {
    &&& words == numerals::decimal(tenths / 10) + "."@ + numerals::decimal(tenths % 10) + " "@
        + name
    &&& 2 * (tenths * unit - 10 * bytes) <= unit
    &&& 2 * (10 * bytes - tenths * unit) <= unit
}

/// A size is told in the largest unit that is not above it, to the nearest tenth.
pub proof fn law_sizes_are_told_to_the_tenth(n: nat)
    ensures
        n < 1024 ==> exists|t: nat|
            #[trigger] tells_in_tenths(human(n), t, nearest_double(n), 1, "B"@),
        1024 <= n < 1048576 ==> exists|t: nat|
            #[trigger] tells_in_tenths(human(n), t, nearest_double(n), 1024, "KiB"@),
        1048576 <= n < 1073741824 ==> exists|t: nat|
            #[trigger] tells_in_tenths(human(n), t, nearest_double(n), 1048576, "MiB"@),
        1073741824 <= n < 1099511627776 ==> exists|t: nat|
            #[trigger] tells_in_tenths(human(n), t, nearest_double(n), 1073741824, "GiB"@),
        1099511627776 <= n ==> exists|t: nat|
            #[trigger] tells_in_tenths(human(n), t, nearest_double(n), 1099511627776, "TiB"@),
{
    reveal_with_fuel(unit_size, 5);
    let rank = unit_rank(n);
    let unit = unit_size(rank);
    let t = rounded(10 * nearest_double(n), unit);
    law_rounding_is_to_the_nearest(10 * nearest_double(n), unit);
    lemma_one_digit(t % 10);
    reveal_strlit(".");
    reveal_strlit(" ");
    let words = numerals::decimal(t / 10) + "."@ + numerals::decimal(t % 10) + " "@ + unit_name(
        rank,
    );
    assert(human(n) =~= words);
    assert(tells_in_tenths(human(n), t, nearest_double(n), unit, unit_name(rank)));
}

proof fn lemma_one_digit(d: nat)
    requires
        d < 10,
    ensures
        numerals::decimal(d) == seq![numerals::digit_char(d)],
{
    assert(numerals::decimal(d) =~= seq![numerals::digit_char(d)]);
}

/// A whole number of units is told as just that number.
pub proof fn law_whole_units_are_told_exactly(k: nat, rank: nat)
    requires
        1 <= k < 1024,
        rank <= 4,
    ensures
        human(k * unit_size(rank)) == numerals::decimal(k) + ".0 "@ + unit_name(rank),
        unit_size(0) == 1,
        unit_size(rank + 1) == 1024 * unit_size(rank),
{
    reveal_with_fuel(unit_size, 6);
    let n = k * unit_size(rank);
    let unit = unit_size(rank);
    assert(rank == 0 || rank == 1 || rank == 2 || rank == 3 || rank == 4);
    assert(1 <= unit <= 1099511627776);
    assert(unit <= k * unit < 1024 * unit) by (nonlinear_arith)
        requires
            1 <= k < 1024,
            1 <= unit,
    ;
    assert(n < 0x20_0000_0000_0000);
    law_nearest_double_is_near(n);
    assert(unit_rank(n) == rank);
    assert(10 * n == (10 * k) * unit_size(rank)) by (nonlinear_arith)
        requires
            n == k * unit_size(rank),
    ;
    lemma_rounded_multiple(10 * k, unit_size(rank));
    reveal_strlit(".0 ");
    assert(numerals::digit_char(0) == '0');
    assert(human(n) =~= numerals::decimal(k) + ".0 "@ + unit_name(rank));
}

/// Whether words are a number of hundredths of a GiB, with two digits after the
/// point, that is nearest to a number of bytes.
pub open spec fn tells_in_hundredths(words: Seq<char>, hundredths: nat, bytes: nat) -> bool {
    &&& words == numerals::decimal(hundredths / 100) + "."@ + numerals::decimal(
        hundredths / 10 % 10,
    ) + numerals::decimal(hundredths % 10)
    &&& 2 * (hundredths * 1073741824 - 100 * bytes) <= 1073741824
    &&& 2 * (100 * bytes - hundredths * 1073741824) <= 1073741824
}

/// A size in GiB is told to the nearest hundredth.
pub proof fn law_gibs_are_told_to_the_hundredth(n: nat)
    ensures
        exists|h: nat| #[trigger] tells_in_hundredths(gib(n), h, nearest_double(n)),
{
    reveal_with_fuel(unit_size, 5);
    let h = rounded(100 * nearest_double(n), unit_size(3));
    law_rounding_is_to_the_nearest(100 * nearest_double(n), unit_size(3));
    lemma_one_digit(h % 10);
    lemma_one_digit(h / 10 % 10);
    reveal_strlit(".");
    assert(gib(n) =~= numerals::decimal(h / 100) + "."@ + numerals::decimal(h / 10 % 10)
        + numerals::decimal(h % 10));
    assert(tells_in_hundredths(gib(n), h, nearest_double(n)));
}

} // verus!
