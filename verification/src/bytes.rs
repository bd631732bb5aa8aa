//! Rendering of byte counts in SI units.
//!
//! A count below a thousand is written out in whole bytes. A larger one is
//! written in the largest unit that it reaches, up to exabytes, rounded to the
//! number of decimals of that unit: none for kilobytes, one for megabytes, two
//! from gigabytes on. Rounding is to the nearest step, and a count exactly
//! halfway between two steps goes to the even one. All of it is integer
//! arithmetic, so every `u64` renders exactly as its decimal expansion rounds.
use vstd::prelude::*;

verus! {

/// Every unit of the ladder is a thousand of the one below it.
pub const BASE: u64 = 1_000;

/// The character that writes the decimal digit `d`.
pub open spec fn digit(d: int) -> char {
    if d == 0 {
        '0'
    } else if d == 1 {
        '1'
    } else if d == 2 {
        '2'
    } else if d == 3 {
        '3'
    } else if d == 4 {
        '4'
    } else if d == 5 {
        '5'
    } else if d == 6 {
        '6'
    } else if d == 7 {
        '7'
    } else if d == 8 {
        '8'
    } else {
        '9'
    }
}

/// The decimal numeral of `n`, most significant digit first, without
/// leading zeros.
pub open spec fn decimal(n: nat) -> Seq<char>
    decreases n,
{
    if n < 10 {
        seq![digit(n as int)]
    } else {
        decimal(n / 10).push(digit((n % 10) as int))
    }
}

/// The last `width` decimal digits of `n`, with leading zeros kept.
pub open spec fn zero_padded(n: nat, width: nat) -> Seq<char>
    decreases width,
{
    if width == 0 {
        Seq::empty()
    } else {
        zero_padded(n / 10, (width - 1) as nat).push(digit((n % 10) as int))
    }
}

/// Ten to the power `e`.
pub open spec fn pow10(e: nat) -> nat
    decreases e,
{
    if e == 0 {
        1
    } else {
        10 * pow10((e - 1) as nat)
    }
}

/// The numeral of `count / 10^places` with exactly `places` decimals, and
/// without a decimal point where `places` is zero.
pub open spec fn fixed_point(count: nat, places: nat) -> Seq<char> {
    if places == 0 {
        decimal(count)
    } else {
        decimal(count / pow10(places)) + seq!['.'] + zero_padded(count % pow10(places), places)
    }
}

/// `n / d` rounded to the nearest integer; a quotient exactly halfway between
/// two integers goes to the even one.
pub open spec fn round_half_even(n: nat, d: nat) -> nat
    recommends
        d > 0,
{
    let q = n / d;
    let r = n % d;
    if 2 * r < d || (2 * r == d && q % 2 == 0) {
        q
    } else {
        q + 1
    }
}

/// The power of [`BASE`] of the unit that `bytes` is written in: the largest
/// one that `bytes` reaches, and at most six.
pub open spec fn exponent(bytes: u64) -> nat {
    if bytes < 1_000 {
        0
    } else if bytes < 1_000_000 {
        1
    } else if bytes < 1_000_000_000 {
        2
    } else if bytes < 1_000_000_000_000 {
        3
    } else if bytes < 1_000_000_000_000_000 {
        4
    } else if bytes < 1_000_000_000_000_000_000 {
        5
    } else {
        6
    }
}

/// The number of decimals that the unit of a power of [`BASE`] is shown with.
pub open spec fn decimals(power: nat) -> nat {
    if power <= 1 {
        0
    } else if power == 2 {
        1
    } else {
        2
    }
}

/// The number of bytes in the smallest step that the unit of a power of
/// [`BASE`] shows: the unit itself, divided by ten for each of its decimals.
pub open spec fn step(power: nat) -> nat {
    pow10((3 * power - decimals(power)) as nat)
}

/// The symbol of the unit of a power of [`BASE`].
pub open spec fn symbol(power: nat) -> Seq<char> {
    if power == 0 {
        seq!['B']
    } else if power == 1 {
        seq!['K', 'B']
    } else if power == 2 {
        seq!['M', 'B']
    } else if power == 3 {
        seq!['G', 'B']
    } else if power == 4 {
        seq!['T', 'B']
    } else if power == 5 {
        seq!['P', 'B']
    } else {
        seq!['E', 'B']
    }
}

/// A byte count in the unit it is displayed in. The number that a variant
/// holds counts the smallest steps that the unit shows: whole bytes, whole
/// kilobytes, tenths of a megabyte, and hundredths of every larger unit.
#[derive(Clone, Copy, Debug, PartialEq, Eq)]
pub enum Unit {
    /// Whole bytes.
    Bytes(u64),
    /// Whole kilobytes.
    Kilobytes(u64),
    /// Tenths of a megabyte.
    Megabytes(u64),
    /// Hundredths of a gigabyte.
    Gigabytes(u64),
    /// Hundredths of a terabyte.
    Terabytes(u64),
    /// Hundredths of a petabyte.
    Petabytes(u64),
    /// Hundredths of an exabyte.
    Exabytes(u64),
}

impl Unit {
    /// The number of steps held.
    pub open spec fn count(self) -> nat {
        match self {
            Unit::Bytes(v) => v as nat,
            Unit::Kilobytes(v) => v as nat,
            Unit::Megabytes(v) => v as nat,
            Unit::Gigabytes(v) => v as nat,
            Unit::Terabytes(v) => v as nat,
            Unit::Petabytes(v) => v as nat,
            Unit::Exabytes(v) => v as nat,
        }
    }

    /// The power of [`BASE`] that the unit stands for.
    pub open spec fn power(self) -> nat {
        match self {
            Unit::Bytes(_) => 0,
            Unit::Kilobytes(_) => 1,
            Unit::Megabytes(_) => 2,
            Unit::Gigabytes(_) => 3,
            Unit::Terabytes(_) => 4,
            Unit::Petabytes(_) => 5,
            Unit::Exabytes(_) => 6,
        }
    }

    /// `count` steps of the unit of `power`; of the largest unit where
    /// `power` is beyond it.
    pub open spec fn of(power: nat, count: u64) -> Unit {
        if power == 0 {
            Unit::Bytes(count)
        } else if power == 1 {
            Unit::Kilobytes(count)
        } else if power == 2 {
            Unit::Megabytes(count)
        } else if power == 3 {
            Unit::Gigabytes(count)
        } else if power == 4 {
            Unit::Terabytes(count)
        } else if power == 5 {
            Unit::Petabytes(count)
        } else {
            Unit::Exabytes(count)
        }
    }

    /// `bytes` in the unit it is displayed in, rounded to that unit's steps.
    pub open spec fn scale(bytes: u64) -> Unit {
        let power = exponent(bytes);
        Unit::of(power, round_half_even(bytes as nat, step(power)) as u64)
    }

    /// What the value is displayed as: the number, a space, the symbol.
    pub open spec fn text(self) -> Seq<char> {
        fixed_point(self.count(), decimals(self.power())) + seq![' '] + symbol(self.power())
    }
}

/// What [`humanize`] writes for `bytes`.
pub open spec fn humanized(bytes: u64) -> Seq<char> {
    Unit::scale(bytes).text()
}

impl Unit {
    /// Writes the value out: the number with the unit's decimals, a space,
    /// the unit's symbol.
    pub fn to_string(&self) -> (text: String)
        ensures
            text@ == self.text(),
    {
        let (count, places, unit): (u64, u32, &str) = match *self {
            Unit::Bytes(v) => (v, 0, " B"),
            Unit::Kilobytes(v) => (v, 0, " KB"),
            Unit::Megabytes(v) => (v, 1, " MB"),
            Unit::Gigabytes(v) => (v, 2, " GB"),
            Unit::Terabytes(v) => (v, 2, " TB"),
            Unit::Petabytes(v) => (v, 2, " PB"),
            Unit::Exabytes(v) => (v, 2, " EB"),
        };
        proof {
            reveal_strlit(" B");
            reveal_strlit(" KB");
            reveal_strlit(" MB");
            reveal_strlit(" GB");
            reveal_strlit(" TB");
            reveal_strlit(" PB");
            reveal_strlit(" EB");
            assert(unit@ =~= seq![' '] + symbol(self.power()));
        }
        let mut out = String::new();
        push_fixed_point(&mut out, count, places);
        out.append(unit);
        assert(out@ =~= self.text());
        out
    }
}

impl From<u64> for Unit {
    fn from(value: u64) -> (unit: Unit) {
        proof {
            lemma_steps();
            lemma_round_by_one(value as nat);
        }
        if value < BASE {
            Unit::Bytes(value)
        } else if value < 1_000_000 {
            Unit::Kilobytes(rounded_quotient(value, 1_000))
        } else if value < 1_000_000_000 {
            Unit::Megabytes(rounded_quotient(value, 100_000))
        } else if value < 1_000_000_000_000 {
            Unit::Gigabytes(rounded_quotient(value, 10_000_000))
        } else if value < 1_000_000_000_000_000 {
            Unit::Terabytes(rounded_quotient(value, 10_000_000_000))
        } else if value < 1_000_000_000_000_000_000 {
            Unit::Petabytes(rounded_quotient(value, 10_000_000_000_000))
        } else {
            Unit::Exabytes(rounded_quotient(value, 10_000_000_000_000_000))
        }
    }
}

impl vstd::std_specs::convert::FromSpecImpl<u64> for Unit {
    open spec fn obeys_from_spec() -> bool {
        true
    }

    open spec fn from_spec(v: u64) -> Unit {
        Unit::scale(v)
    }
}

/// Writes `bytes` as a number and a unit, such as `738 KB` or `1.2 MB`.
///
/// A count below [`BASE`] is written exactly, in bytes: its numeral has no
/// decimal point and `" B"` follows it.
pub fn humanize(bytes: u64) -> (text: String)
    ensures
        text@ == humanized(bytes),
        bytes < BASE ==> text@ == decimal(bytes as nat) + seq![' ', 'B'],
        bytes < BASE ==> !text@.contains('.'),
        bytes < BASE ==> seq![' ', 'B'].is_suffix_of(text@),
{
    proof {
        if bytes < BASE {
            lemma_round_by_one(bytes as nat);
            lemma_decimal_is_digits(bytes as nat);
            let numeral = decimal(bytes as nat);
            let whole = numeral + seq![' ', 'B'];
            assert(humanized(bytes) =~= whole);
            assert(whole.subrange(whole.len() - 2, whole.len() as int) =~= seq![' ', 'B']);
            assert forall|i: int| 0 <= i < whole.len() implies whole[i] != '.' by {
                if i < numeral.len() {
                    assert(whole[i] == numeral[i]);
                }
            }
        }
    }
    Unit::from(bytes).to_string()
}

/// Whether `c` is one of the ten decimal digits.
pub open spec fn is_digit(c: char) -> bool {
    exists|d: int| 0 <= d < 10 && c == digit(d)
}

/// A decimal numeral is made of digits alone.
pub proof fn lemma_decimal_is_digits(n: nat)
    ensures
        decimal(n).len() >= 1,
        forall|i: int| 0 <= i < decimal(n).len() ==> is_digit(#[trigger] decimal(n)[i]),
        forall|i: int| 0 <= i < decimal(n).len() ==> #[trigger] decimal(n)[i] != '.',
    decreases n,
{
    if n >= 10 {
        lemma_decimal_is_digits(n / 10);
    }
    assert forall|i: int| 0 <= i < decimal(n).len() implies is_digit(#[trigger] decimal(n)[i])
        && decimal(n)[i] != '.' by {
        if n >= 10 && i < decimal(n / 10).len() {
            assert(decimal(n)[i] == decimal(n / 10)[i]);
        } else {
            assert(decimal(n)[i] == digit((n % 10) as int));
        }
    }
}

/// Rounding to steps of one changes nothing.
proof fn lemma_round_by_one(n: nat)
    ensures
        round_half_even(n, 1) == n,
{
    assert(n / 1 == n && n % 1 == 0);
}

/// Rounding keeps the order: of two counts, the larger never rounds to
/// fewer steps.
pub proof fn lemma_round_half_even_monotonic(a: nat, b: nat, d: nat)
    requires
        a <= b,
        d > 0,
    ensures
        round_half_even(a, d) <= round_half_even(b, d),
{
    vstd::arithmetic::div_mod::lemma_div_is_ordered(a as int, b as int, d as int);
    vstd::arithmetic::div_mod::lemma_fundamental_div_mod(a as int, d as int);
    vstd::arithmetic::div_mod::lemma_fundamental_div_mod(b as int, d as int);
    let qa = a / d;
    let qb = b / d;
    if qa == qb {
        assert(d * qa == d * qb);
        assert(a % d <= b % d);
    }
}

/// The unit that a count is written in is the largest that it reaches: a
/// count of at least one byte lies between its unit and the next, but for the
/// largest unit, which takes every count beyond it too.
pub proof fn lemma_exponent_is_clamped_logarithm(bytes: u64)
    ensures
        exponent(bytes) <= 6,
        bytes >= 1 ==> pow10(3 * exponent(bytes)) <= bytes,
        exponent(bytes) < 6 ==> bytes < pow10(3 * (exponent(bytes) + 1)),
{
    lemma_powers();
}

/// What [`Unit::scale`] holds: the unit of the count's exponent, and the
/// count divided by that unit's step, rounded half to even. A step times ten
/// for each decimal shown is the unit itself.
pub proof fn lemma_scale_rounds_to_steps(bytes: u64)
    ensures
        Unit::scale(bytes).power() == exponent(bytes),
        Unit::scale(bytes).count() == round_half_even(bytes as nat, step(exponent(bytes))),
        step(exponent(bytes)) * pow10(decimals(exponent(bytes))) == pow10(3 * exponent(bytes)),
        bytes < BASE ==> Unit::scale(bytes) == Unit::Bytes(bytes),
{
    lemma_steps();
    let power = exponent(bytes);
    let d = step(power);
    lemma_powers();
    if power == 0 {
        assert(d * pow10(0) == pow10(0));
    } else if power == 1 {
        assert(d * pow10(0) == pow10(3));
    } else if power == 2 {
        assert(d * pow10(1) == pow10(6));
    } else if power == 3 {
        assert(d * pow10(2) == pow10(9));
    } else if power == 4 {
        assert(d * pow10(2) == pow10(12));
    } else if power == 5 {
        assert(d * pow10(2) == pow10(15));
    } else {
        assert(d * pow10(2) == pow10(18));
    }
    if power > 0 {
        assert(bytes as nat / d <= bytes / 2) by (nonlinear_arith)
            requires
                d >= 2,
        ;
    } else {
        lemma_round_by_one(bytes as nat);
    }
}

/// The number that a decimal digit stands for; zero for any other character.
pub open spec fn digit_value(c: char) -> nat {
    if c == '1' {
        1
    } else if c == '2' {
        2
    } else if c == '3' {
        3
    } else if c == '4' {
        4
    } else if c == '5' {
        5
    } else if c == '6' {
        6
    } else if c == '7' {
        7
    } else if c == '8' {
        8
    } else if c == '9' {
        9
    } else {
        0
    }
}

/// The number that a numeral is read as when its decimal point is left out:
/// `12.50` reads as 1250. Of two numerals with the same number of decimals,
/// the one that reads as more is the larger number.
pub open spec fn numeral_value(numeral: Seq<char>) -> nat
    decreases numeral.len(),
{
    if numeral.len() == 0 {
        0
    } else if numeral.last() == '.' {
        numeral_value(numeral.drop_last())
    } else {
        10 * numeral_value(numeral.drop_last()) + digit_value(numeral.last())
    }
}

/// The number that [`humanize`] writes for `bytes`: what stands before the
/// space and the unit.
pub open spec fn shown_number(bytes: u64) -> Seq<char> {
    fixed_point(Unit::scale(bytes).count(), decimals(exponent(bytes)))
}

/// A decimal numeral reads as the number that it was written for.
pub proof fn lemma_decimal_reads_back(n: nat)
    ensures
        numeral_value(decimal(n)) == n,
    decreases n,
{
    if n < 10 {
        assert(decimal(n).drop_last() =~= Seq::<char>::empty());
        reveal_with_fuel(numeral_value, 2);
    } else {
        lemma_decimal_reads_back(n / 10);
        assert(decimal(n).drop_last() =~= decimal(n / 10));
    }
}

/// Digits with their leading zeros, written behind a numeral, move what the
/// numeral reads as up by their number of places and add what they read as.
proof fn lemma_zero_padded_reads_back(before: Seq<char>, n: nat, width: nat)
    ensures
        numeral_value(before + zero_padded(n, width)) == numeral_value(before) * pow10(width) + n
            % pow10(width),
        pow10(width) > 0,
    decreases width,
{
    if width == 0 {
        assert(before + zero_padded(n, width) =~= before);
        assert(numeral_value(before) * 1 == numeral_value(before));
    } else {
        let shorter = (width - 1) as nat;
        lemma_zero_padded_reads_back(before, n / 10, shorter);
        let written = before + zero_padded(n, width);
        let (high, power, last) = (numeral_value(before), pow10(shorter), n % 10);
        assert(written.drop_last() =~= before + zero_padded(n / 10, shorter));
        assert(written.last() == digit(last as int));
        assert(digit_value(digit(last as int)) == last);
        assert(numeral_value(written) == 10 * (high * power + (n / 10) % power) + last);
        vstd::arithmetic::div_mod::lemma_mod_breakdown(n as int, 10, power as int);
        assert(n % (10 * power) == 10 * ((n / 10) % power) + last);
        let low = (n / 10) % power;
        assert(10 * (high * power + low) == high * (10 * power) + 10 * low) by (nonlinear_arith);
    }
}

/// A numeral with a fixed number of decimals reads as the count of steps
/// that it was written for.
pub proof fn lemma_fixed_point_reads_back(count: nat, places: nat)
    ensures
        numeral_value(fixed_point(count, places)) == count,
{
    if places == 0 {
        lemma_decimal_reads_back(count);
    } else {
        let whole = decimal(count / pow10(places));
        let before = whole + seq!['.'];
        lemma_decimal_reads_back(count / pow10(places));
        assert(before.drop_last() =~= whole);
        lemma_zero_padded_reads_back(before, count % pow10(places), places);
        vstd::arithmetic::div_mod::lemma_fundamental_div_mod(count as int, pow10(places) as int);
        vstd::arithmetic::div_mod::lemma_mod_twice(count as int, pow10(places) as int);
        assert((count / pow10(places)) * pow10(places) == pow10(places) * (count / pow10(places)))
            by (nonlinear_arith);
    }
}

/// Within one unit, a larger count of bytes never shows a smaller number.
///
/// Both counts are written as a number, a space and the same symbol, both
/// numbers have the same number of decimals, and the number of the larger
/// count reads as no less than that of the smaller one.
pub proof fn lemma_humanize_monotonic(b1: u64, b2: u64)
    requires
        b1 < b2,
        exponent(b1) == exponent(b2),
    ensures
        humanized(b1) == shown_number(b1) + seq![' '] + symbol(exponent(b1)),
        humanized(b2) == shown_number(b2) + seq![' '] + symbol(exponent(b1)),
        shown_number(b1) == fixed_point(Unit::scale(b1).count(), decimals(exponent(b1))),
        shown_number(b2) == fixed_point(Unit::scale(b2).count(), decimals(exponent(b1))),
        numeral_value(shown_number(b1)) <= numeral_value(shown_number(b2)),
{
    lemma_scale_rounds_to_steps(b1);
    lemma_scale_rounds_to_steps(b2);
    lemma_steps();
    lemma_round_half_even_monotonic(b1 as nat, b2 as nat, step(exponent(b1)));
    lemma_fixed_point_reads_back(Unit::scale(b1).count(), decimals(exponent(b1)));
    lemma_fixed_point_reads_back(Unit::scale(b2).count(), decimals(exponent(b1)));
}

/// The powers of ten that the units are made of, written out.
proof fn lemma_powers()
    ensures
        pow10(0) == 1,
        pow10(1) == 10,
        pow10(2) == 100,
        pow10(3) == 1_000,
        pow10(6) == 1_000_000,
        pow10(9) == 1_000_000_000,
        pow10(12) == 1_000_000_000_000,
        pow10(15) == 1_000_000_000_000_000,
        pow10(18) == 1_000_000_000_000_000_000,
        pow10(21) == 1_000_000_000_000_000_000_000,
{
    reveal_with_fuel(pow10, 22);
}

/// The steps of the seven units, written out.
proof fn lemma_steps()
    ensures
        step(0) == 1,
        step(1) == 1_000,
        step(2) == 100_000,
        step(3) == 10_000_000,
        step(4) == 10_000_000_000,
        step(5) == 10_000_000_000_000,
        step(6) == 10_000_000_000_000_000,
{
    reveal_with_fuel(pow10, 17);
}

/// `n / d`, rounded half to even.
fn rounded_quotient(n: u64, d: u64) -> (q: u64)
    requires
        2 <= d <= 10_000_000_000_000_000,
    ensures
        q == round_half_even(n as nat, d as nat),
{
    let q: u64 = n / d;
    let r: u64 = n % d;
    assert(q <= n / 2) by (nonlinear_arith)
        requires
            q == n / d,
            2 <= d,
    ;
    if 2 * r < d || (2 * r == d && q % 2 == 0) {
        q
    } else {
        q + 1
    }
}

fn digit_str(d: u64) -> (s: &'static str)
    requires
        d < 10,
    ensures
        s@ == seq![digit(d as int)],
{
    proof {
        reveal_strlit("0");
        reveal_strlit("1");
        reveal_strlit("2");
        reveal_strlit("3");
        reveal_strlit("4");
        reveal_strlit("5");
        reveal_strlit("6");
        reveal_strlit("7");
        reveal_strlit("8");
        reveal_strlit("9");
    }
    if d == 0 {
        "0"
    } else if d == 1 {
        "1"
    } else if d == 2 {
        "2"
    } else if d == 3 {
        "3"
    } else if d == 4 {
        "4"
    } else if d == 5 {
        "5"
    } else if d == 6 {
        "6"
    } else if d == 7 {
        "7"
    } else if d == 8 {
        "8"
    } else {
        "9"
    }
}

/// Appends the decimal numeral of `n` to `out`.
pub(crate) fn push_decimal(out: &mut String, n: u64)
    ensures
        final(out)@ == old(out)@ + decimal(n as nat),
    decreases n,
{
    if n >= 10 {
        push_decimal(out, n / 10);
    }
    out.append(digit_str(n % 10));
}

/// Appends the last `width` digits of `n` to `out`, leading zeros included.
fn push_zero_padded(out: &mut String, n: u64, width: u32)
    ensures
        final(out)@ == old(out)@ + zero_padded(n as nat, width as nat),
    decreases width,
{
    if width > 0 {
        push_zero_padded(out, n / 10, width - 1);
        out.append(digit_str(n % 10));
    }
}

/// Appends `count / 10^places` to `out`, written with `places` decimals.
fn push_fixed_point(out: &mut String, count: u64, places: u32)
    requires
        places <= 2,
    ensures
        final(out)@ == old(out)@ + fixed_point(count as nat, places as nat),
{
    if places == 0 {
        push_decimal(out, count);
    } else {
        let scale: u64 = if places == 1 {
            10
        } else {
            100
        };
        assert(scale == pow10(places as nat)) by {
            reveal_with_fuel(pow10, 3);
        }
        push_decimal(out, count / scale);
        proof {
            reveal_strlit(".");
        }
        out.append(".");
        push_zero_padded(out, count % scale, places);
        assert(out@ =~= old(out)@ + fixed_point(count as nat, places as nat));
    }
}

} // verus!
