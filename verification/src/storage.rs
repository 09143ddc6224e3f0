//! Storage sizes as people write them.

use vstd::arithmetic::power2::pow2;
use vstd::prelude::*;

use crate::text::{chars_of, decimal, decimal_text, digit_char, ends_with, finishes_with, is_digit,
    letter_case_is_ascii, text_of, to_upper, trim, trim_end, trim_start, trimmed, uppered};

verus! {

/// The bytes of a gigabyte.
pub const GB: u64 = 1_073_741_824;

/// The bytes of a megabyte.
pub const MB: u64 = 1_048_576;

/// The unit that a size is written in.
#[derive(Debug, Clone, Copy, PartialEq, Eq, Structural)]
pub enum SizeUnit {
    Gigabytes,
    Megabytes,
}

impl SizeUnit {
    /// The power of two that the unit's bytes are.
    pub open spec fn power(self) -> int {
        match self {
            SizeUnit::Gigabytes => 30,
            SizeUnit::Megabytes => 20,
        }
    }

    /// The unit's bytes.
    pub open spec fn bytes(self) -> int {
        match self {
            SizeUnit::Gigabytes => GB as int,
            SizeUnit::Megabytes => MB as int,
        }
    }
}

/// A storage size that round-trips through human-friendly strings
/// ("2 GB", "500 MB", "1.5 GB") but is used as bytes internally.
#[derive(Debug, Clone, Copy, PartialEq, Eq, Structural)]
pub struct StorageSize(pub u64);

/// A number of hundredths as a decimal, with as many decimals as it takes.
pub open spec fn short_decimal(hundredths: int) -> Seq<char> {
    let whole = decimal((hundredths / 100) as nat);
    if hundredths % 100 == 0 {
        whole
    } else if hundredths % 10 == 0 {
        whole + seq!['.', digit_char(hundredths % 100 / 10)]
    } else {
        whole + seq!['.', digit_char(hundredths % 100 / 10), digit_char(hundredths % 10)]
    }
}

/// A number of hundredths as a decimal, with two decimals unless it is whole.
pub open spec fn padded_decimal(hundredths: int) -> Seq<char> {
    let whole = decimal((hundredths / 100) as nat);
    if hundredths % 100 == 0 {
        whole
    } else {
        whole + seq!['.', digit_char(hundredths % 100 / 10), digit_char(hundredths % 10)]
    }
}

/// Whether a size is exactly a number of hundredths of a gigabyte, and at least
/// one.
pub open spec fn is_exact_in_gigabytes(bytes: int) -> bool {
    bytes >= GB && bytes * 100 % GB as int == 0
}

/// Whether a size is a number of steps of the hundredth part of a gigabyte, cut
/// to whole bytes, and at least a gigabyte. Steps that are whole megabytes, but
/// no exact hundredths of a gigabyte, do not count: megabytes write them exactly.
pub open spec fn is_in_steps(bytes: int) -> bool {
    &&& bytes >= GB
    &&& bytes % (GB as int / 100) == 0
    &&& bytes % MB as int == 0 ==> is_exact_in_gigabytes(bytes)
}

/// The unit that a size is written in: gigabytes where two decimals of them are
/// exact and for sizes in steps, and megabytes otherwise.
pub open spec fn size_unit(bytes: int) -> SizeUnit {
    if is_in_steps(bytes) || is_exact_in_gigabytes(bytes) {
        SizeUnit::Gigabytes
    } else {
        SizeUnit::Megabytes
    }
}

/// The number that a size is written with, in hundredths of its unit, rounded
/// down; in megabytes it is rounded down to a whole one.
pub open spec fn written_hundredths(bytes: int) -> int {
    match size_unit(bytes) {
        SizeUnit::Gigabytes => bytes * 100 / GB as int,
        SizeUnit::Megabytes => bytes / MB as int * 100,
    }
}

/// How the number of a size is written.
pub open spec fn size_number(bytes: int) -> Seq<char> {
    if is_in_steps(bytes) {
        padded_decimal(written_hundredths(bytes))
    } else {
        short_decimal(written_hundredths(bytes))
    }
}

/// How a unit is written behind its number.
pub open spec fn unit_text(unit: SizeUnit) -> Seq<char> {
    match unit {
        SizeUnit::Gigabytes => " GB"@,
        SizeUnit::Megabytes => " MB"@,
    }
}

/// How a size is written: its number, then its unit.
pub open spec fn size_text(bytes: int) -> Seq<char> {
    size_number(bytes) + unit_text(size_unit(bytes))
}

impl StorageSize {
    /// The size in bytes.
    pub fn bytes(self) -> (res: u64)
        ensures
            res == self.0,
    {
        self.0
    }

    /// The size as a human-friendly string.
    #[verifier::spinoff_prover]
    pub fn to_string(&self) -> (res: String)
        ensures
            res@ == size_text(self.0 as int),
    {
        let hundred: u128 = self.0 as u128 * 100;
        let exact = self.0 >= GB && hundred % GB as u128 == 0;
        let steps = self.0 >= GB && self.0 % (GB / 100) == 0 && (exact || self.0 % MB != 0);
        assert(exact == is_exact_in_gigabytes(self.0 as int));
        assert(steps == is_in_steps(self.0 as int));
        if exact || steps {
            let hundredths: u64 = (hundred / GB as u128) as u64;
            let mut res = decimal_text(hundredths / 100);
            if hundredths % 100 != 0 {
                res.push('.');
                res.push((0x30u8 + (hundredths % 100 / 10) as u8) as char);
                if steps || hundredths % 10 != 0 {
                    res.push((0x30u8 + (hundredths % 10) as u8) as char);
                }
            }
            assert(res@ =~= size_number(self.0 as int));
            res.append(" GB");
            res
        } else {
            let mut res = decimal_text(self.0 / MB);
            res.append(" MB");
            res
        }
    }
}

/// A size as text: the number as it is written, and its unit.
#[derive(Debug, Clone, PartialEq, Eq)]
pub struct SizeParts {
    pub number: String,
    pub unit: SizeUnit,
}

/// The number and the unit that a size is written with, if it has a known unit:
/// letter case does not matter, nor does whitespace around either.
pub open spec fn size_parts(raw: Seq<char>) -> Option<(Seq<char>, SizeUnit)> {
    let cleaned = uppered(trimmed(raw));
    if finishes_with(cleaned, "GB"@) {
        Some((trimmed(cleaned.take(cleaned.len() - 2)), SizeUnit::Gigabytes))
    } else if finishes_with(cleaned, "MB"@) {
        Some((trimmed(cleaned.take(cleaned.len() - 2)), SizeUnit::Megabytes))
    } else {
        None
    }
}

/// Takes `"<number> <GB|MB>"` (case-insensitive, whitespace-lenient) apart.
pub fn split_storage_size(raw: &str) -> (res: Option<SizeParts>)
    ensures
        match size_parts(raw@) {
            Some((number, unit)) => res is Some && res->0.number@ == number && res->0.unit == unit,
            None => res is None,
        },
{
    let v = chars_of(to_upper(trim(raw).as_str()).as_str());
    proof {
        reveal_strlit("GB");
        reveal_strlit("MB");
    }
    let unit = if ends_with(&v, "GB") {
        SizeUnit::Gigabytes
    } else if ends_with(&v, "MB") {
        SizeUnit::Megabytes
    } else {
        return None;
    };
    let number = text_of(&v, 0, v.len() - 2);
    assert(number@ =~= v@.take(v@.len() - 2));
    Some(SizeParts { number: trim(number.as_str()), unit })
}

/// The significand of a finite binary64 number, given its bit pattern.
pub open spec fn significand(bits: u64) -> int {
    let fraction = bits as int % 0x10_0000_0000_0000;
    if bits < 0x10_0000_0000_0000 {
        fraction
    } else {
        0x10_0000_0000_0000 + fraction
    }
}

/// The power of two that scales the significand of a positive finite binary64
/// number, given its bit pattern.
pub open spec fn exponent(bits: u64) -> int {
    let field = bits as int / 0x10_0000_0000_0000;
    (if field == 0 {
        1
    } else {
        field
    }) - 1075
}

/// Whether a bit pattern is that of a binary64 number above zero and finite.
pub open spec fn is_positive_finite(bits: u64) -> bool {
    0 < bits < 0x7ff0_0000_0000_0000
}

/// `m` times two to the power `e`, rounded down.
pub open spec fn scaled(m: int, e: int) -> int {
    if e >= 0 {
        m * pow2(e as nat)
    } else {
        m / pow2((-e) as nat) as int
    }
}

/// The bytes of a size, given the bit pattern of its number: the product with
/// the unit, rounded down, and cut to the largest 64-bit number.
pub open spec fn size_bytes(bits: u64, unit: SizeUnit) -> int {
    let product = scaled(significand(bits), exponent(bits) + unit.power());
    if product <= u64::MAX {
        product
    } else {
        u64::MAX as int
    }
}

proof fn lemma_pow2_step(n: nat)
    ensures
        pow2(n + 1) == 2 * pow2(n),
        pow2(n) >= 1,
        pow2(0) == 1,
{
    vstd::arithmetic::power2::lemma_pow2_unfold(n + 1);
    vstd::arithmetic::power2::lemma_pow2_pos(n);
    vstd::arithmetic::power2::lemma2_to64();
}

proof fn lemma_pow2_grows(a: nat, b: nat)
    requires
        a <= b,
    ensures
        pow2(a) <= pow2(b),
    decreases b - a,
{
    if a < b {
        lemma_pow2_step((b - 1) as nat);
        lemma_pow2_grows(a, (b - 1) as nat);
    }
}

/// `m` times two to the power `e`, rounded down and cut to 64 bits.
fn scale(m: u64, e: i64) -> (res: u64)
    requires
        m < 0x20_0000_0000_0000,
        e >= 12 ==> m >= 0x10_0000_0000_0000,
        -2000 <= e <= 2000,
    ensures
        res == if scaled(m as int, e as int) <= u64::MAX {
            scaled(m as int, e as int)
        } else {
            u64::MAX as int
        },
{
    if e >= 12 {
        proof {
            vstd::arithmetic::power2::lemma2_to64();
            lemma_pow2_grows(12, e as nat);
            let p = pow2(e as nat) as int;
            assert(m * p >= 0x10_0000_0000_0000 * 4096) by (nonlinear_arith)
                requires
                    m >= 0x10_0000_0000_0000,
                    p >= 4096,
            ;
        }
        return u64::MAX;
    }
    let mut v: u64 = m;
    if e >= 0 {
        let mut i: i64 = 0;
        proof {
            lemma_pow2_step(0);
            let p = pow2(0) as int;
            assert(m * p == m) by (nonlinear_arith)
                requires
                    p == 1,
            ;
        }
        while i < e
            invariant
                0 <= i <= e < 12,
                m < 0x20_0000_0000_0000,
                v == m * pow2(i as nat),
            decreases e - i,
        {
            proof {
                lemma_pow2_step(i as nat);
                vstd::arithmetic::power2::lemma2_to64();
                lemma_pow2_grows(i as nat, 10);
                let p = pow2(i as nat) as int;
                assert(m * p <= 0x1f_ffff_ffff_ffff * 1024) by (nonlinear_arith)
                    requires
                        m < 0x20_0000_0000_0000,
                        0 <= p <= 1024,
                ;
                assert(m * (2 * p) == 2 * (m * p)) by (nonlinear_arith);
            }
            v = v * 2;
            i = i + 1;
        }
    } else {
        let mut i: i64 = 0;
        proof {
            lemma_pow2_step(0);
            let p = pow2(0) as int;
            assert(m as int / p == m) by (nonlinear_arith)
                requires
                    p == 1,
            ;
        }
        while i < -e
            invariant
                0 <= i <= -e <= 2000,
                v == m as int / pow2(i as nat) as int,
            decreases -e - i,
        {
            proof {
                lemma_pow2_step(i as nat);
                vstd::arithmetic::div_mod::lemma_div_denominator(
                    m as int,
                    pow2(i as nat) as int,
                    2,
                );
            }
            v = v / 2;
            i = i + 1;
        }
    }
    v
}

/// The bytes of a size in `unit` whose number has the binary64 bit pattern
/// `bits`; `None` unless the number is above zero and finite.
pub fn storage_bytes(bits: u64, unit: SizeUnit) -> (res: Option<u64>)
    ensures
        res is Some == is_positive_finite(bits),
        res matches Some(bytes) ==> bytes == size_bytes(bits, unit),
{
    if bits == 0 || bits >= 0x7ff0_0000_0000_0000 {
        return None;
    }
    let field: u64 = bits / 0x10_0000_0000_0000;
    let fraction: u64 = bits % 0x10_0000_0000_0000;
    let m: u64 = if field == 0 {
        fraction
    } else {
        0x10_0000_0000_0000 + fraction
    };
    let e: i64 = (if field == 0 {
        1
    } else {
        field as i64
    }) - 1075;
    let power: i64 = match unit {
        SizeUnit::Gigabytes => 30,
        SizeUnit::Megabytes => 20,
    };
    Some(scale(m, e + power))
}

/// The bytes that a text states, given the bit pattern of the number in it.
pub open spec fn parsed_size(raw: Seq<char>, number: Option<u64>) -> Option<u64> {
    match (size_parts(raw), number) {
        (Some((_, unit)), Some(bits)) if is_positive_finite(bits) => Some(
            size_bytes(bits, unit) as u64,
        ),
        _ => None,
    }
}

/// Parse `"<number> <GB|MB>"` (case-insensitive, whitespace-lenient) to bytes.
///
/// `number` is the binary64 bit pattern of the number that
/// [`split_storage_size`] finds in `raw`, or `None` where that is no number.
pub fn parse_storage_size(raw: &str, number: Option<u64>) -> (res: Option<u64>)
    ensures
        res == parsed_size(raw@, number),
{
    let parts = split_storage_size(raw)?;
    let bits = number?;
    storage_bytes(bits, parts.unit)
}

/// A positive finite binary64 number, given its bit pattern, in units of the
/// smallest one, which is two to the power -1074.
pub open spec fn magnitude(bits: u64) -> int {
    significand(bits) * pow2((exponent(bits) + 1074) as nat)
}

/// How far a binary64 number, given its bit pattern, is from a number of
/// hundredths.
pub open spec fn distance(bits: u64, hundredths: int) -> int {
    let d = 100 * magnitude(bits) - hundredths * pow2(1074);
    if d >= 0 {
        d
    } else {
        -d
    }
}

/// Whether a bit pattern is that of the binary64 number closest to a number of
/// hundredths, which is what a decimal is read as.
pub open spec fn is_closest(bits: u64, hundredths: int) -> bool {
    &&& is_positive_finite(bits)
    &&& forall|other: u64|
        is_positive_finite(other) ==> distance(bits, hundredths) <= #[trigger] distance(
            other,
            hundredths,
        )
}

/// The bit pattern of `c` times two to the power `x`, which a binary64 number
/// holds exactly; `n` says how often `c` can be doubled to fill 53 bits.
proof fn lemma_pattern(c: int, x: int, n: nat) -> (bits: u64)
    requires
        0 < c < 0x20_0000_0000_0000,
        c * pow2(n) >= 0x10_0000_0000_0000,
        -1074 <= x - n,
        x <= 900,
    ensures
        is_positive_finite(bits),
        magnitude(bits) == c * pow2((x + 1074) as nat),
    decreases n,
{
    if c >= 0x10_0000_0000_0000 {
        let fraction = c - 0x10_0000_0000_0000;
        let all = (x + 1075) * 0x10_0000_0000_0000 + fraction;
        assert(0 < all < 0x7ff0_0000_0000_0000);
        let bits = all as u64;
        assert(bits as int % 0x10_0000_0000_0000 == fraction);
        assert(bits as int / 0x10_0000_0000_0000 == x + 1075);
        bits
    } else {
        if n == 0 {
            lemma_pow2_step(0);
            let p = pow2(0) as int;
            assert(c * p == c) by (nonlinear_arith)
                requires
                    p == 1,
            ;
        }
        let m = (n - 1) as nat;
        lemma_pow2_step(m);
        let p = pow2(m) as int;
        assert(c * (2 * p) == (2 * c) * p) by (nonlinear_arith);
        let bits = lemma_pattern(2 * c, x - 1, m);
        let e = (x - 1 + 1074) as nat;
        lemma_pow2_step(e);
        let q = pow2(e) as int;
        assert((2 * c) * q == c * (2 * q)) by (nonlinear_arith);
        bits
    }
}

/// A number that is exactly a number of units gives exactly those bytes.
proof fn lemma_exact_bytes(bits: u64, unit: SizeUnit, bytes: int)
    requires
        is_positive_finite(bits),
        0 < bytes <= u64::MAX,
        magnitude(bits) * unit.bytes() == bytes * pow2(1074),
    ensures
        size_bytes(bits, unit) == bytes,
{
    let e = exponent(bits);
    let k = unit.power();
    let m = significand(bits);
    let all = pow2(1074) as int;
    let pe = pow2((e + 1074) as nat) as int;
    let pk = pow2(k as nat) as int;
    vstd::arithmetic::power2::lemma2_to64();
    assert(pk == unit.bytes());
    vstd::arithmetic::power2::lemma_pow2_pos(1074);
    vstd::arithmetic::power2::lemma_pow2_adds((e + 1074) as nat, k as nat);
    let sum = pow2((e + 1074 + k) as nat) as int;
    assert((m * pe) * pk == m * (pe * pk)) by (nonlinear_arith);
    assert(m * sum == bytes * all);
    if e + k >= 0 {
        let ps = pow2((e + k) as nat) as int;
        vstd::arithmetic::power2::lemma_pow2_adds((e + k) as nat, 1074);
        assert(m * ps == bytes) by (nonlinear_arith)
            requires
                m * sum == bytes * all,
                sum == ps * all,
                all > 0,
        ;
    } else {
        let ps = pow2((-(e + k)) as nat) as int;
        vstd::arithmetic::power2::lemma_pow2_pos((-(e + k)) as nat);
        vstd::arithmetic::power2::lemma_pow2_pos((e + 1074 + k) as nat);
        vstd::arithmetic::power2::lemma_pow2_adds((-(e + k)) as nat, (e + 1074 + k) as nat);
        assert(m == bytes * ps) by (nonlinear_arith)
            requires
                m * sum == bytes * all,
                all == ps * sum,
                sum > 0,
        ;
        assert((bytes * ps) / ps == bytes) by (nonlinear_arith)
            requires
                ps > 0,
        ;
    }
}

/// Where a number of hundredths of a unit is some bytes exactly, and is `c`
/// times two to the power `x`, the closest binary64 number gives those bytes.
proof fn lemma_closest_bytes(
    bits: u64,
    hundredths: int,
    c: int,
    x: int,
    unit: SizeUnit,
    bytes: int,
)
    requires
        is_closest(bits, hundredths),
        0 < c < 0x20_0000_0000_0000,
        -500 <= x <= 900,
        100 * (c * pow2((x + 1074) as nat)) == hundredths * pow2(1074),
        hundredths * unit.bytes() == 100 * bytes,
        0 < bytes <= u64::MAX,
    ensures
        size_bytes(bits, unit) == bytes,
{
    vstd::arithmetic::power2::lemma2_to64();
    let p = pow2(52) as int;
    assert(p == 0x10_0000_0000_0000) by {
        vstd::arithmetic::power2::lemma2_to64_rest();
    }
    assert(c * p >= 0x10_0000_0000_0000) by (nonlinear_arith)
        requires
            c >= 1,
            p == 0x10_0000_0000_0000,
    ;
    let exact = lemma_pattern(c, x, 52);
    assert(distance(exact, hundredths) == 0);
    assert(distance(bits, hundredths) == 0);
    let m = magnitude(bits);
    let u = unit.bytes();
    let all = pow2(1074) as int;
    assert(m * u == bytes * all) by (nonlinear_arith)
        requires
            100 * m == hundredths * all,
            hundredths * u == 100 * bytes,
    ;
    lemma_exact_bytes(bits, unit, bytes);
}

/// A whole number of units is exactly that many times the unit.
pub proof fn whole_numbers_are_exact(bits: u64, n: int, unit: SizeUnit)
    requires
        n > 0,
        n * unit.bytes() <= u64::MAX,
        is_closest(bits, 100 * n),
    ensures
        size_bytes(bits, unit) == n * unit.bytes(),
{
    let u = unit.bytes();
    let all = pow2(1074) as int;
    assert(n <= 0xffff_ffff_ffff && n * u > 0) by (nonlinear_arith)
        requires
            n > 0,
            u >= 1_048_576,
            n * u <= u64::MAX,
    ;
    assert(100 * (n * all) == (100 * n) * all) by (nonlinear_arith);
    assert((100 * n) * u == 100 * (n * u)) by (nonlinear_arith);
    lemma_closest_bytes(bits, 100 * n, n, 0, unit, n * u);
}

proof fn lemma_decimal(n: nat)
    ensures
        decimal(n).len() > 0,
        forall|i: int| 0 <= i < decimal(n).len() ==> is_digit(#[trigger] decimal(n)[i]),
    decreases n,
{
    if n >= 10 {
        lemma_decimal(n / 10);
    }
}

/// What is left of a written size once its unit is cut off is its number.
proof fn lemma_written_parts(number: Seq<char>, suffix: Seq<char>, letter: char)
    requires
        number.len() > 0,
        forall|i: int|
            0 <= i < number.len() ==> is_digit(#[trigger] number[i]) || number[i] == '.',
        letter == 'G' || letter == 'M',
        suffix == seq![' ', letter, 'B'],
    ensures
        size_parts(number + suffix) == Some(
            (
                number,
                if letter == 'G' {
                    SizeUnit::Gigabytes
                } else {
                    SizeUnit::Megabytes
                },
            ),
        ),
{
    let text = number + suffix;
    let n = text.len() as int;
    assert(is_digit(number[0]) || number[0] == '.');
    assert(trim_start(text) == text);
    assert(text.last() == 'B');
    assert(trimmed(text) == text);
    assert forall|i: int| 0 <= i < n implies uppered(text)[i] == text[i] by {
        if i < number.len() {
            assert(is_digit(number[i]) || number[i] == '.');
        }
    }
    assert(uppered(text) =~= text);
    reveal_strlit("GB");
    reveal_strlit("MB");
    if letter == 'G' {
        assert(text.skip(n - 2) =~= "GB"@);
    } else {
        assert(text.skip(n - 2)[0] == 'M');
        assert("GB"@[0] == 'G');
        assert(text.skip(n - 2) =~= "MB"@);
    }
    let cut = text.take(n - 2);
    assert(cut =~= number.push(' '));
    assert(trim_start(cut) == cut);
    assert(cut.drop_last() =~= number);
    assert(is_digit(number[number.len() - 1]) || number[number.len() - 1] == '.');
    assert(trim_end(number) == number);
    assert(trim_end(cut) == trim_end(number));
}

proof fn lemma_number_text(bytes: int)
    requires
        bytes >= 0,
    ensures
        size_number(bytes).len() > 0,
        forall|i: int|
            0 <= i < size_number(bytes).len() ==> is_digit(#[trigger] size_number(bytes)[i])
                || size_number(bytes)[i] == '.',
{
    let hundredths = written_hundredths(bytes);
    let number = size_number(bytes);
    let digits = decimal((hundredths / 100) as nat);
    lemma_decimal((hundredths / 100) as nat);
    assert forall|i: int| 0 <= i < number.len() implies is_digit(#[trigger] number[i]) || number[i]
        == '.' by {
        if i < digits.len() {
            assert(is_digit(digits[i]));
        }
    }
}

/// Every size that is a whole number of megabytes reads back as the same size:
/// its text comes apart into its number and its unit, and with the binary64
/// number that is closest to that number the text states the size again.
pub proof fn whole_megabytes_read_back(bytes: u64, bits: u64)
    requires
        bytes > 0,
        bytes % MB == 0,
        is_closest(bits, written_hundredths(bytes as int)),
    ensures
        size_parts(size_text(bytes as int)) == Some(
            (size_number(bytes as int), size_unit(bytes as int)),
        ),
        parsed_size(size_text(bytes as int), Some(bits)) == Some(bytes),
{
    let b = bytes as int;
    let unit = size_unit(b);
    let hundredths = written_hundredths(b);
    let c = b / 1_048_576;
    let all = pow2(1074) as int;
    assert(b == c * 1_048_576);
    reveal_strlit(" GB");
    reveal_strlit(" MB");
    lemma_number_text(b);
    match unit {
        SizeUnit::Gigabytes => {
            assert(unit_text(unit) =~= seq![' ', 'G', 'B']);
            lemma_written_parts(size_number(b), unit_text(unit), 'G');
            assert(hundredths * 1_073_741_824 == 100 * b);
            assert(hundredths * 1024 == 100 * c);
            let p = pow2(1064) as int;
            assert(all == 1024 * p) by {
                vstd::arithmetic::power2::lemma2_to64();
                vstd::arithmetic::power2::lemma_pow2_adds(10, 1064);
            }
            assert(100 * (c * p) == hundredths * all) by (nonlinear_arith)
                requires
                    all == 1024 * p,
                    hundredths * 1024 == 100 * c,
            ;
            lemma_closest_bytes(bits, hundredths, c, -10, unit, b);
        },
        SizeUnit::Megabytes => {
            assert(unit_text(unit) =~= seq![' ', 'M', 'B']);
            lemma_written_parts(size_number(b), unit_text(unit), 'M');
            assert(hundredths == 100 * c);
            assert(hundredths * 1_048_576 == 100 * b);
            assert(100 * (c * all) == hundredths * all) by (nonlinear_arith)
                requires
                    hundredths == 100 * c,
            ;
            lemma_closest_bytes(bits, hundredths, c, 0, unit, b);
        },
    }
}

/// Units are powers of 1024.
pub proof fn units_are_powers_of_1024(unit: SizeUnit)
    ensures
        SizeUnit::Megabytes.bytes() == 1024 * 1024,
        SizeUnit::Gigabytes.bytes() == 1024 * SizeUnit::Megabytes.bytes(),
        pow2(unit.power() as nat) == unit.bytes(),
        GB == 1024 * 1024 * 1024,
        MB == 1024 * 1024,
{
    vstd::arithmetic::power2::lemma2_to64();
}

/// Binary64 numbers are counted off by their bit patterns: up to twice the
/// smallest normal number the pattern counts the smallest numbers, and from there
/// on the next exponent is twice as much.
pub proof fn patterns_count_off_magnitudes(bits: u64)
    requires
        is_positive_finite(bits),
    ensures
        bits <= 0x20_0000_0000_0000 ==> magnitude(bits) == bits,
        bits >= 0x10_0000_0000_0000 && is_positive_finite((bits + 0x10_0000_0000_0000) as u64)
            && bits + 0x10_0000_0000_0000 <= u64::MAX ==> magnitude(
            (bits + 0x10_0000_0000_0000) as u64,
        ) == 2 * magnitude(bits),
{
    vstd::arithmetic::power2::lemma2_to64();
    let m = significand(bits);
    if bits <= 0x20_0000_0000_0000 {
        let e = (exponent(bits) + 1074) as nat;
        if bits < 0x20_0000_0000_0000 {
            assert(e == 0);
            let p = pow2(0) as int;
            assert(m * p == m) by (nonlinear_arith)
                requires
                    p == 1,
            ;
        } else {
            assert(e == 1);
            assert(m == 0x10_0000_0000_0000);
            assert(pow2(1) == 2);
        }
    }
    if bits >= 0x10_0000_0000_0000 && bits + 0x10_0000_0000_0000 <= u64::MAX {
        let next = (bits + 0x10_0000_0000_0000) as u64;
        if is_positive_finite(next) {
            assert(significand(next) == m);
            assert(exponent(next) == exponent(bits) + 1);
            let e = (exponent(bits) + 1074) as nat;
            lemma_pow2_step(e);
            let p = pow2(e) as int;
            assert(m * (2 * p) == 2 * (m * p)) by (nonlinear_arith);
        }
    }
}

/// A pattern is that of a number above zero and finite exactly when its sign is
/// clear, its exponent is not the greatest one, and not everything is clear.
pub proof fn positive_finite_patterns(bits: u64)
    ensures
        is_positive_finite(bits) <==> bits != 0 && bits / 0x8000_0000_0000_0000 == 0 && bits
            / 0x10_0000_0000_0000 != 0x7ff,
{
}

/// A size is the product of its number and its unit, rounded down to whole bytes
/// and cut to the largest 64-bit number.
pub proof fn sizes_are_rounded_down(bits: u64, unit: SizeUnit)
    requires
        is_positive_finite(bits),
    ensures
        0 <= size_bytes(bits, unit) <= u64::MAX,
        size_bytes(bits, unit) * pow2(1074) <= magnitude(bits) * unit.bytes(),
        size_bytes(bits, unit) < u64::MAX ==> magnitude(bits) * unit.bytes() < (size_bytes(bits, unit)
            + 1) * pow2(1074),
{
    let e = exponent(bits);
    let k = unit.power();
    let m = significand(bits);
    let all = pow2(1074) as int;
    let pe = pow2((e + 1074) as nat) as int;
    let pk = pow2(k as nat) as int;
    vstd::arithmetic::power2::lemma2_to64();
    assert(pk == unit.bytes());
    vstd::arithmetic::power2::lemma_pow2_pos(1074);
    vstd::arithmetic::power2::lemma_pow2_adds((e + 1074) as nat, k as nat);
    let sum = pow2((e + 1074 + k) as nat) as int;
    assert((m * pe) * pk == m * (pe * pk)) by (nonlinear_arith);
    assert(magnitude(bits) * unit.bytes() == m * sum);
    let q = scaled(m, e + k);
    if e + k >= 0 {
        let ps = pow2((e + k) as nat) as int;
        vstd::arithmetic::power2::lemma_pow2_pos((e + k) as nat);
        vstd::arithmetic::power2::lemma_pow2_adds((e + k) as nat, 1074);
        assert(q * all == m * sum && q >= 0) by (nonlinear_arith)
            requires
                q == m * ps,
                sum == ps * all,
                m >= 0,
                ps > 0,
        ;
        assert(q * all < (q + 1) * all) by (nonlinear_arith)
            requires
                all > 0,
        ;
    } else {
        let ps = pow2((-(e + k)) as nat) as int;
        vstd::arithmetic::power2::lemma_pow2_pos((-(e + k)) as nat);
        vstd::arithmetic::power2::lemma_pow2_pos((e + 1074 + k) as nat);
        vstd::arithmetic::power2::lemma_pow2_adds((-(e + k)) as nat, (e + 1074 + k) as nat);
        assert(q * ps <= m < (q + 1) * ps && q >= 0) by (nonlinear_arith)
            requires
                q == m / ps,
                ps > 0,
                m >= 0,
        ;
        assert(q * all <= m * sum < (q + 1) * all) by (nonlinear_arith)
            requires
                q * ps <= m < (q + 1) * ps,
                all == ps * sum,
                sum > 0,
        ;
    }
    if q > u64::MAX {
        let top = u64::MAX as int;
        assert(top * all <= q * all) by (nonlinear_arith)
            requires
                top <= q,
                all > 0,
        ;
    }
}

/// A text states a size exactly when it ends in one of the two units, in any
/// letter case: what stands before the unit is the number.
pub proof fn sizes_end_in_their_unit(raw: Seq<char>)
    ensures
        ({
            let t = trimmed(raw);
            let n = t.len();
            let b = n >= 2 && (t[n - 1] as int == 0x42 || t[n - 1] as int == 0x62);
            let g = n >= 2 && (t[n - 2] as int == 0x47 || t[n - 2] as int == 0x67);
            let m = n >= 2 && (t[n - 2] as int == 0x4d || t[n - 2] as int == 0x6d);
            let number = trimmed(uppered(t.take(n - 2)));
            &&& g && b ==> size_parts(raw) == Some((number, SizeUnit::Gigabytes))
            &&& m && b ==> size_parts(raw) == Some((number, SizeUnit::Megabytes))
            &&& !b || (!g && !m) ==> size_parts(raw) is None
        }),
{
    let t = trimmed(raw);
    let n = t.len();
    let c = uppered(t);
    reveal_strlit("GB");
    reveal_strlit("MB");
    if n >= 2 {
        letter_case_is_ascii(t, n - 1);
        letter_case_is_ascii(t, n - 2);
        let end = c.skip(n - 2);
        assert(end[0] == c[n - 2] && end[1] == c[n - 1]);
        assert(c.take(n - 2) =~= uppered(t.take(n - 2)));
        if c[n - 2] == 'G' && c[n - 1] == 'B' {
            assert(end =~= "GB"@);
        }
        if c[n - 2] == 'M' && c[n - 1] == 'B' {
            assert(end =~= "MB"@);
        }
    }
}

/// Nothing is read from a text without a unit, without a number, or with a number
/// that is not above zero and finite.
pub proof fn sizes_need_a_number_and_a_unit(raw: Seq<char>, bits: u64)
    ensures
        parsed_size(raw, None) is None,
        size_parts(raw) is None ==> parsed_size(raw, Some(bits)) is None,
        !is_positive_finite(bits) ==> parsed_size(raw, Some(bits)) is None,
        is_positive_finite(bits) ==> (size_parts(raw) matches Some((_, unit)) ==> parsed_size(
            raw,
            Some(bits),
        ) == Some(size_bytes(bits, unit) as u64)),
{
}

/// Decimals have two digits behind the point or, in the short form, lose the
/// zeros at their end; whole numbers have no point.
pub proof fn decimals_show_their_hundredths(h: int)
    requires
        h >= 0,
    ensures
        h % 100 == 0 ==> padded_decimal(h) == decimal((h / 100) as nat) && short_decimal(h)
            == decimal((h / 100) as nat),
        h % 100 != 0 ==> {
            let s = padded_decimal(h);
            let n = s.len();
            &&& s.take(n - 3) == decimal((h / 100) as nat)
            &&& s[n - 3] == '.'
            &&& 10 * (s[n - 2] as int - 0x30) + (s[n - 1] as int - 0x30) == h % 100
            &&& 0x30 <= s[n - 2] as int <= 0x39
            &&& 0x30 <= s[n - 1] as int <= 0x39
        },
        h % 10 != 0 ==> short_decimal(h) == padded_decimal(h),
        h % 10 == 0 && h % 100 != 0 ==> short_decimal(h).push('0') == padded_decimal(h),
{
    if h % 100 != 0 {
        let s = padded_decimal(h);
        assert(s.take(s.len() - 3) =~= decimal((h / 100) as nat));
        if h % 10 == 0 {
            assert(short_decimal(h).push('0') =~= s);
        }
    }
}

/// A size is written in gigabytes from one gigabyte on, where two decimals of
/// them are exact, or where it is made of steps of a hundredth that are cut to
/// whole bytes and is no whole number of megabytes; else in megabytes.
pub proof fn units_fit_their_sizes(bytes: int)
    requires
        bytes >= 0,
    ensures
        bytes < GB ==> size_unit(bytes) == SizeUnit::Megabytes,
        bytes >= GB && bytes * 100 % 1_073_741_824 == 0 ==> size_unit(bytes)
            == SizeUnit::Gigabytes,
        bytes >= GB && bytes % 10_737_418 == 0 && bytes % 1_048_576 != 0 ==> size_unit(bytes)
            == SizeUnit::Gigabytes,
        bytes * 100 % 1_073_741_824 != 0 && (bytes % 10_737_418 != 0 || bytes % 1_048_576 == 0)
            ==> size_unit(bytes) == SizeUnit::Megabytes,
{
}

/// A size is written with the greatest number of its unit that it reaches:
/// hundredths of a gigabyte, whole megabytes.
pub proof fn written_numbers_are_rounded_down(bytes: int)
    requires
        bytes >= 0,
    ensures
        size_unit(bytes) == SizeUnit::Gigabytes ==> written_hundredths(bytes) * 1_073_741_824
            <= bytes * 100 < (written_hundredths(bytes) + 1) * 1_073_741_824,
        size_unit(bytes) == SizeUnit::Megabytes ==> written_hundredths(bytes) % 100 == 0
            && written_hundredths(bytes) / 100 * 1_048_576 <= bytes < (written_hundredths(bytes)
            / 100 + 1) * 1_048_576,
{
}

/// A size is written as its number, a space and its unit. Steps of a hundredth
/// that are cut to whole bytes show both decimals.
pub proof fn sizes_are_written_out(bytes: int)
    requires
        bytes >= 0,
    ensures
        size_unit(bytes) == SizeUnit::Gigabytes ==> size_text(bytes) == size_number(bytes).push(
            ' ',
        ).push('G').push('B'),
        size_unit(bytes) == SizeUnit::Megabytes ==> size_text(bytes) == size_number(bytes).push(
            ' ',
        ).push('M').push('B'),
        bytes >= GB && bytes % 10_737_418 == 0 && bytes % 1_048_576 != 0 ==> size_number(bytes)
            == padded_decimal(written_hundredths(bytes)),
        bytes % 10_737_418 != 0 ==> size_number(bytes) == short_decimal(written_hundredths(bytes)),
        size_unit(bytes) == SizeUnit::Megabytes ==> size_number(bytes) == decimal(
            (bytes / 1_048_576) as nat,
        ),
        bytes > 0 && bytes % 1_073_741_824 == 0 ==> size_number(bytes) == decimal(
            (bytes / 1_073_741_824) as nat,
        ),
{
    reveal_strlit(" GB");
    reveal_strlit(" MB");
    let n = size_number(bytes);
    assert(n + " GB"@ =~= n.push(' ').push('G').push('B'));
    assert(n + " MB"@ =~= n.push(' ').push('M').push('B'));
}

} // verus!
