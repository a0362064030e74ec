//! How an ordinal is written: decimal, bijective base-26 letters, or roman numerals.

use std::collections::BTreeSet;
use vstd::prelude::*;
use crate::text::{char_set, string_from_chars};

verus! {

/// The character for decimal digit `d` (`0 <= d < 10`).
pub open spec fn digit_char(d: nat) -> char {
    ('0' as u32 + d) as char
}

/// `n` written in decimal, most significant digit first, with no leading zeros.
pub open spec fn decimal_digits(n: nat) -> Seq<char>
    decreases n,
{
    if n < 10 {
        seq![digit_char(n)]
    } else {
        decimal_digits(n / 10).push(digit_char(n % 10))
    }
}

fn digit(d: u32) -> (c: char)
    requires
        d < 10,
    ensures
        c == digit_char(d as nat),
{
    let b: u8 = 48u8 + (d as u8);
    b as char
}

/// Append `n` in decimal to `out`.
pub fn push_decimal_u64(n: u64, out: &mut Vec<char>)
    ensures
        final(out)@ == old(out)@ + decimal_digits(n as nat),
    decreases n,
{
    if n >= 10 {
        push_decimal_u64(n / 10, out);
    }
    out.push(digit((n % 10) as u32));
}

/// Append `n` in decimal to `out`.
pub fn push_decimal(n: u32, out: &mut Vec<char>)
    ensures
        final(out)@ == old(out)@ + decimal_digits(n as nat),
{
    push_decimal_u64(n as u64, out);
}


/// Bijective base 26 over the alphabet starting at `base`: 1 is `a`, 26 is `z`, 27 is `aa`.
/// Empty for zero.
pub open spec fn alpha_chars(n: nat, base: char) -> Seq<char>
    decreases n,
{
    if n == 0 {
        Seq::empty()
    } else {
        alpha_chars(((n - 1) as nat) / 26, base).push(((base as u32) + ((n - 1) as nat) % 26) as char)
    }
}

/// The roman symbol at position `i` of the additive-subtractive table, and its value.
pub open spec fn roman_value(i: nat) -> nat {
    if i == 0 { 1000 }
    else if i == 1 { 900 }
    else if i == 2 { 500 }
    else if i == 3 { 400 }
    else if i == 4 { 100 }
    else if i == 5 { 90 }
    else if i == 6 { 50 }
    else if i == 7 { 40 }
    else if i == 8 { 10 }
    else if i == 9 { 9 }
    else if i == 10 { 5 }
    else if i == 11 { 4 }
    else { 1 }
}

/// A roman letter in upper or lower case.
pub open spec fn roman_letter(upper: char, lower: char, up: bool) -> char {
    if up { upper } else { lower }
}

pub open spec fn roman_symbol(i: nat, up: bool) -> Seq<char> {
    let m = roman_letter('M', 'm', up);
    let d = roman_letter('D', 'd', up);
    let c = roman_letter('C', 'c', up);
    let l = roman_letter('L', 'l', up);
    let x = roman_letter('X', 'x', up);
    let v = roman_letter('V', 'v', up);
    let one = roman_letter('I', 'i', up);
    if i == 0 { seq![m] }
    else if i == 1 { seq![c, m] }
    else if i == 2 { seq![d] }
    else if i == 3 { seq![c, d] }
    else if i == 4 { seq![c] }
    else if i == 5 { seq![x, c] }
    else if i == 6 { seq![l] }
    else if i == 7 { seq![x, l] }
    else if i == 8 { seq![x] }
    else if i == 9 { seq![one, x] }
    else if i == 10 { seq![v] }
    else if i == 11 { seq![one, v] }
    else { seq![one] }
}

/// Greedy additive-subtractive roman numerals for `n`, starting at table row `i`.
pub open spec fn roman_from(n: nat, i: nat, up: bool) -> Seq<char>
    decreases 13 - i, n,
{
    if i >= 13 {
        Seq::empty()
    } else if n >= roman_value(i) {
        roman_symbol(i, up) + roman_from((n - roman_value(i)) as nat, i, up)
    } else {
        roman_from(n, i + 1, up)
    }
}

/// Roman numerals for `1..=3999`; decimal outside that range.
pub open spec fn roman_chars(n: nat, up: bool) -> Seq<char> {
    if n == 0 || n > 3999 {
        decimal_digits(n)
    } else {
        roman_from(n, 0, up)
    }
}

/// Append the bijective base-26 form of `n` (`n > 0`) to `out`.
fn push_alpha(n: u32, base: u8, out: &mut Vec<char>)
    requires
        n > 0,
        base == 97 || base == 65,
    ensures
        final(out)@ == old(out)@ + alpha_chars(n as nat, base as char),
    decreases n,
{
    let q: u32 = (n - 1) / 26;
    let r: u32 = (n - 1) % 26;
    if q > 0 {
        push_alpha(q, base, out);
    } else {
        assert(alpha_chars(0, base as char) =~= Seq::<char>::empty());
    }
    let b: u8 = base + (r as u8);
    out.push(b as char);
}

fn roman_value_exec(i: usize) -> (v: u32)
    requires
        i < 13,
    ensures
        v == roman_value(i as nat),
{
    if i == 0 { 1000 }
    else if i == 1 { 900 }
    else if i == 2 { 500 }
    else if i == 3 { 400 }
    else if i == 4 { 100 }
    else if i == 5 { 90 }
    else if i == 6 { 50 }
    else if i == 7 { 40 }
    else if i == 8 { 10 }
    else if i == 9 { 9 }
    else if i == 10 { 5 }
    else if i == 11 { 4 }
    else { 1 }
}

fn letter(upper: char, lower: char, up: bool) -> (c: char)
    ensures
        c == roman_letter(upper, lower, up),
{
    if up { upper } else { lower }
}

fn push_roman_symbol(i: usize, up: bool, out: &mut Vec<char>)
    requires
        i < 13,
    ensures
        final(out)@ == old(out)@ + roman_symbol(i as nat, up),
{
    let m = letter('M', 'm', up);
    let d = letter('D', 'd', up);
    let c = letter('C', 'c', up);
    let l = letter('L', 'l', up);
    let x = letter('X', 'x', up);
    let v = letter('V', 'v', up);
    let one = letter('I', 'i', up);
    let ghost before = out@;
    if i == 0 { out.push(m); }
    else if i == 1 { out.push(c); out.push(m); }
    else if i == 2 { out.push(d); }
    else if i == 3 { out.push(c); out.push(d); }
    else if i == 4 { out.push(c); }
    else if i == 5 { out.push(x); out.push(c); }
    else if i == 6 { out.push(l); }
    else if i == 7 { out.push(x); out.push(l); }
    else if i == 8 { out.push(x); }
    else if i == 9 { out.push(one); out.push(x); }
    else if i == 10 { out.push(v); }
    else if i == 11 { out.push(one); out.push(v); }
    else { out.push(one); }
    assert(out@ =~= before + roman_symbol(i as nat, up));
}

/// Append the roman form of `n` (or its decimal fallback) to `out`.
fn push_roman(n: u32, up: bool, out: &mut Vec<char>)
    ensures
        final(out)@ == old(out)@ + roman_chars(n as nat, up),
{
    if n == 0 || n > 3999 {
        push_decimal(n, out);
        return;
    }
    let ghost start = out@;
    let mut rest: u32 = n;
    let mut i: usize = 0;
    while i < 13
        invariant
            0 <= i <= 13,
            out@ + roman_from(rest as nat, i as nat, up) == start + roman_from(n as nat, 0, up),
        decreases 13 - i,
    {
        let v = roman_value_exec(i);
        while rest >= v
            invariant
                i < 13,
                v == roman_value(i as nat),
                out@ + roman_from(rest as nat, i as nat, up) == start + roman_from(n as nat, 0, up),
            decreases rest,
        {
            let ghost pre = out@;
            push_roman_symbol(i, up, out);
            assert(roman_from(rest as nat, i as nat, up) == roman_symbol(i as nat, up) + roman_from((rest - v) as nat, i as nat, up));
            assert(pre + roman_from(rest as nat, i as nat, up) =~= out@ + roman_from((rest - v) as nat, i as nat, up));
            rest = rest - v;
        }
        i = i + 1;
    }
    assert(roman_from(rest as nat, 13, up) =~= Seq::<char>::empty());
    assert(out@ =~= start + roman_chars(n as nat, up));
}

/// How an ordinal is written.
#[derive(Debug, Clone, Copy, PartialEq, Eq, PartialOrd, Ord, Hash, Default, Structural)]
pub enum NumberFormat {
    #[default]
    Decimal,
    LowerAlpha,
    UpperAlpha,
    LowerRoman,
    UpperRoman,
}

/// What `format` writes `n` as.
pub open spec fn format_chars(format: NumberFormat, n: nat) -> Seq<char> {
    match format {
        NumberFormat::Decimal => decimal_digits(n),
        NumberFormat::LowerAlpha => if n == 0 { seq!['0'] } else { alpha_chars(n, 'a') },
        NumberFormat::UpperAlpha => if n == 0 { seq!['0'] } else { alpha_chars(n, 'A') },
        NumberFormat::LowerRoman => roman_chars(n, false),
        NumberFormat::UpperRoman => roman_chars(n, true),
    }
}

impl NumberFormat {
    /// Append `n` written in this format to `out`.
    pub fn push_formatted(self, n: u32, out: &mut Vec<char>)
        ensures
            final(out)@ == old(out)@ + format_chars(self, n as nat),
    {
        match self {
            NumberFormat::Decimal => push_decimal(n, out),
            NumberFormat::LowerAlpha => {
                if n == 0 {
                    out.push('0');
                } else {
                    push_alpha(n, 97u8, out);
                }
            },
            NumberFormat::UpperAlpha => {
                if n == 0 {
                    out.push('0');
                } else {
                    push_alpha(n, 65u8, out);
                }
            },
            NumberFormat::LowerRoman => push_roman(n, false, out),
            NumberFormat::UpperRoman => push_roman(n, true, out),
        }
    }

    /// Format `n` (1-based). `0` and anything a format cannot express fall back to decimal.
    pub fn format(self, n: u32) -> (s: String)
        ensures
            s@ == format_chars(self, n as nat),
    {
        let mut out: Vec<char> = Vec::new();
        self.push_formatted(n, &mut out);
        assert(out@ =~= format_chars(self, n as nat));
        string_from_chars(&out)
    }
}


/// The roman numeral for 3888 uses every one of the seven roman letters.
proof fn lemma_roman_3888(up: bool)
    ensures
        roman_from(3888, 0, up) =~= seq![
            roman_letter('M', 'm', up), roman_letter('M', 'm', up), roman_letter('M', 'm', up),
            roman_letter('D', 'd', up), roman_letter('C', 'c', up), roman_letter('C', 'c', up),
            roman_letter('C', 'c', up), roman_letter('L', 'l', up), roman_letter('X', 'x', up),
            roman_letter('X', 'x', up), roman_letter('X', 'x', up), roman_letter('V', 'v', up),
            roman_letter('I', 'i', up), roman_letter('I', 'i', up), roman_letter('I', 'i', up)
        ],
{
    let m = roman_letter('M', 'm', up);
    let d = roman_letter('D', 'd', up);
    let c = roman_letter('C', 'c', up);
    let l = roman_letter('L', 'l', up);
    let x = roman_letter('X', 'x', up);
    let v = roman_letter('V', 'v', up);
    let one = roman_letter('I', 'i', up);
    assert(roman_from(0, 13, up) =~= Seq::<char>::empty());
    assert(roman_from(0, 12, up) =~= Seq::<char>::empty());
    assert(roman_from(1, 12, up) =~= seq![one]);
    assert(roman_from(2, 12, up) =~= seq![one, one]);
    assert(roman_from(3, 12, up) =~= seq![one, one, one]);
    assert(roman_from(3, 11, up) =~= seq![one, one, one]);
    assert(roman_from(3, 10, up) =~= seq![one, one, one]);
    assert(roman_from(8, 10, up) =~= seq![v, one, one, one]);
    assert(roman_from(8, 9, up) =~= seq![v, one, one, one]);
    assert(roman_from(8, 8, up) =~= seq![v, one, one, one]);
    assert(roman_from(18, 8, up) =~= seq![x, v, one, one, one]);
    assert(roman_from(28, 8, up) =~= seq![x, x, v, one, one, one]);
    assert(roman_from(38, 8, up) =~= seq![x, x, x, v, one, one, one]);
    assert(roman_from(38, 7, up) =~= seq![x, x, x, v, one, one, one]);
    assert(roman_from(38, 6, up) =~= seq![x, x, x, v, one, one, one]);
    assert(roman_from(88, 6, up) =~= seq![l, x, x, x, v, one, one, one]);
    assert(roman_from(88, 5, up) =~= seq![l, x, x, x, v, one, one, one]);
    assert(roman_from(88, 4, up) =~= seq![l, x, x, x, v, one, one, one]);
    assert(roman_from(188, 4, up) =~= seq![c, l, x, x, x, v, one, one, one]);
    assert(roman_from(288, 4, up) =~= seq![c, c, l, x, x, x, v, one, one, one]);
    assert(roman_from(388, 4, up) =~= seq![c, c, c, l, x, x, x, v, one, one, one]);
    assert(roman_from(388, 3, up) =~= seq![c, c, c, l, x, x, x, v, one, one, one]);
    assert(roman_from(388, 2, up) =~= seq![c, c, c, l, x, x, x, v, one, one, one]);
    assert(roman_from(888, 2, up) =~= seq![d, c, c, c, l, x, x, x, v, one, one, one]);
    assert(roman_from(888, 1, up) =~= seq![d, c, c, c, l, x, x, x, v, one, one, one]);
    assert(roman_from(888, 0, up) =~= seq![d, c, c, c, l, x, x, x, v, one, one, one]);
    assert(roman_from(1888, 0, up) =~= seq![m, d, c, c, c, l, x, x, x, v, one, one, one]);
    assert(roman_from(2888, 0, up) =~= seq![m, m, d, c, c, c, l, x, x, x, v, one, one, one]);
    assert(roman_from(3888, 0, up) =~= seq![m, m, m, d, c, c, c, l, x, x, x, v, one, one, one]);
}

/// `1234567890` written in decimal uses every digit.
proof fn lemma_decimal_1234567890()
    ensures
        decimal_digits(1234567890) =~= seq!['1', '2', '3', '4', '5', '6', '7', '8', '9', '0'],
{
    assert(decimal_digits(0) =~= seq!['0']);
    assert(decimal_digits(1) =~= seq!['1']);
    assert(decimal_digits(12) =~= seq!['1', '2']);
    assert(decimal_digits(123) =~= seq!['1', '2', '3']);
    assert(decimal_digits(1234) =~= seq!['1', '2', '3', '4']);
    assert(decimal_digits(12345) =~= seq!['1', '2', '3', '4', '5']);
    assert(decimal_digits(123456) =~= seq!['1', '2', '3', '4', '5', '6']);
    assert(decimal_digits(1234567) =~= seq!['1', '2', '3', '4', '5', '6', '7']);
    assert(decimal_digits(12345678) =~= seq!['1', '2', '3', '4', '5', '6', '7', '8']);
    assert(decimal_digits(123456789) =~= seq!['1', '2', '3', '4', '5', '6', '7', '8', '9']);
    assert(decimal_digits(1234567890) =~= seq!['1', '2', '3', '4', '5', '6', '7', '8', '9', '0']);
}

/// The `k`-th letter (1-based) of the alphabet starting at `base`.
pub open spec fn nth_letter(base: char, k: u32) -> char {
    ((base as u32) + k - 1) as char
}

pub open spec fn is_digit(c: char) -> bool {
    48 <= (c as u32) <= 57
}

/// One of the 26 letters starting at `base`.
pub open spec fn in_letter_range(c: char, base: char) -> bool {
    exists|k: u32| 1 <= k <= 26 && c == #[trigger] nth_letter(base, k)
}

pub open spec fn is_roman_letter(c: char, up: bool) -> bool {
    ||| c == roman_letter('M', 'm', up)
    ||| c == roman_letter('D', 'd', up)
    ||| c == roman_letter('C', 'c', up)
    ||| c == roman_letter('L', 'l', up)
    ||| c == roman_letter('X', 'x', up)
    ||| c == roman_letter('V', 'v', up)
    ||| c == roman_letter('I', 'i', up)
}

/// Every character `format` can produce, for any ordinal.
pub open spec fn alphabet_of(format: NumberFormat) -> Set<char> {
    match format {
        NumberFormat::Decimal => Set::new(|c: char| is_digit(c)),
        NumberFormat::LowerAlpha => Set::new(|c: char| c == '0' || in_letter_range(c, 'a')),
        NumberFormat::UpperAlpha => Set::new(|c: char| c == '0' || in_letter_range(c, 'A')),
        NumberFormat::LowerRoman => Set::new(|c: char| is_digit(c) || is_roman_letter(c, false)),
        NumberFormat::UpperRoman => Set::new(|c: char| is_digit(c) || is_roman_letter(c, true)),
    }
}

proof fn lemma_decimal_digits_are_digits(n: nat)
    ensures
        forall|i: int| 0 <= i < decimal_digits(n).len() ==> is_digit(#[trigger] decimal_digits(n)[i]),
    decreases n,
{
    if n >= 10 {
        lemma_decimal_digits_are_digits(n / 10);
        let pre = decimal_digits(n / 10);
        assert forall|i: int| 0 <= i < decimal_digits(n).len() implies is_digit(#[trigger] decimal_digits(n)[i]) by {
            if i < pre.len() {
                assert(decimal_digits(n)[i] == pre[i]);
            } else {
                assert(decimal_digits(n)[i] == digit_char(n % 10));
            }
        }
    } else {
        assert(decimal_digits(n)[0] == digit_char(n));
    }
}

proof fn lemma_alpha_chars_in_range(n: nat, base: char)
    requires
        base == 'a' || base == 'A',
    ensures
        forall|i: int| 0 <= i < alpha_chars(n, base).len() ==> in_letter_range(#[trigger] alpha_chars(n, base)[i], base),
    decreases n,
{
    if n > 0 {
        let q = ((n - 1) as nat) / 26;
        lemma_alpha_chars_in_range(q, base);
        let pre = alpha_chars(q, base);
        let last = ((base as u32) + ((n - 1) as nat) % 26) as char;
        assert(alpha_chars(n, base) == pre.push(last));
        let k: u32 = (((n - 1) as nat) % 26 + 1) as u32;
        assert(last == nth_letter(base, k));
        assert forall|i: int| 0 <= i < alpha_chars(n, base).len() implies in_letter_range(#[trigger] alpha_chars(n, base)[i], base) by {
            if i < pre.len() {
                assert(alpha_chars(n, base)[i] == pre[i]);
            } else {
                assert(alpha_chars(n, base)[i] == last);
            }
        }
    }
}

proof fn lemma_roman_symbol_letters(i: nat, up: bool, k: int)
    requires
        0 <= k < roman_symbol(i, up).len(),
    ensures
        is_roman_letter(roman_symbol(i, up)[k], up),
{
}

proof fn lemma_roman_from_letters(n: nat, i: nat, up: bool)
    ensures
        forall|k: int| 0 <= k < roman_from(n, i, up).len() ==> is_roman_letter(#[trigger] roman_from(n, i, up)[k], up),
    decreases 13 - i, n,
{
    if i < 13 {
        if n >= roman_value(i) {
            lemma_roman_from_letters((n - roman_value(i)) as nat, i, up);
            let sym = roman_symbol(i, up);
            let rest = roman_from((n - roman_value(i)) as nat, i, up);
            assert(roman_from(n, i, up) == sym + rest);
            assert forall|k: int| 0 <= k < sym.len() implies is_roman_letter(#[trigger] sym[k], up) by {
                lemma_roman_symbol_letters(i, up, k);
            }
            assert forall|k: int| 0 <= k < roman_from(n, i, up).len() implies is_roman_letter(#[trigger] roman_from(n, i, up)[k], up) by {
                if k >= sym.len() {
                    assert((sym + rest)[k] == rest[k - sym.len()]);
                } else {
                    assert((sym + rest)[k] == sym[k]);
                }
            }
        } else {
            lemma_roman_from_letters(n, i + 1, up);
            assert(roman_from(n, i, up) == roman_from(n, i + 1, up));
        }
    }
}

/// **The font-subset guarantee**: every character any ordinal is written with in `format`
/// is in that format's alphabet.
pub proof fn lemma_alphabet_covers_format(format: NumberFormat, n: nat)
    ensures
        forall|i: int| 0 <= i < format_chars(format, n).len()
            ==> alphabet_of(format).contains(#[trigger] format_chars(format, n)[i]),
{
    lemma_decimal_digits_are_digits(n);
    match format {
        NumberFormat::LowerAlpha => lemma_alpha_chars_in_range(n, 'a'),
        NumberFormat::UpperAlpha => lemma_alpha_chars_in_range(n, 'A'),
        NumberFormat::LowerRoman => lemma_roman_from_letters(n, 0, false),
        NumberFormat::UpperRoman => lemma_roman_from_letters(n, 0, true),
        NumberFormat::Decimal => {},
    }
}

proof fn lemma_digit_is_one_of_ten(c: char)
    requires
        is_digit(c),
    ensures
        c == '0' || c == '1' || c == '2' || c == '3' || c == '4' || c == '5' || c == '6'
            || c == '7' || c == '8' || c == '9',
{
    let v = c as u32;
    assert(v == 48 || v == 49 || v == 50 || v == 51 || v == 52 || v == 53 || v == 54 || v == 55
        || v == 56 || v == 57);
}

impl NumberFormat {
    /// Every character this format can ever produce, for any ordinal.
    ///
    /// Derived by running the formatter over ordinals that exercise every symbol it has: `0`,
    /// a value past every format's expressible range, then 3888 (all seven roman letters) for
    /// roman and one full turn of the alphabet for letters.
    pub fn alphabet(self) -> (out: BTreeSet<char>)
        ensures
            out@ == alphabet_of(self),
    {
        let mut chars: Vec<char> = Vec::new();
        self.push_formatted(0, &mut chars);
        self.push_formatted(1_234_567_890, &mut chars);
        let ghost probes = chars@;
        proof {
            lemma_alphabet_covers_format(self, 0);
            lemma_alphabet_covers_format(self, 1_234_567_890);
            lemma_decimal_1234567890();
            assert(decimal_digits(0) =~= seq!['0']);
            assert(chars@ =~= format_chars(self, 0) + format_chars(self, 1_234_567_890));
            assert forall|i: int| 0 <= i < chars@.len() implies alphabet_of(self).contains(#[trigger] chars@[i]) by {
                if i >= format_chars(self, 0).len() {
                    assert(chars@[i] == format_chars(self, 1_234_567_890)[i - format_chars(self, 0).len()]);
                }
            }
            assert(chars@[0] == '0');
        }
        match self {
            NumberFormat::LowerRoman | NumberFormat::UpperRoman => {
                self.push_formatted(3888, &mut chars);
                proof {
                    lemma_alphabet_covers_format(self, 3888);
                    let up = self == NumberFormat::UpperRoman;
                    lemma_roman_3888(up);
                    let r = format_chars(self, 3888);
                    assert(chars@ =~= probes + r);
                    assert forall|i: int| 0 <= i < chars@.len() implies alphabet_of(self).contains(#[trigger] chars@[i]) by {
                        if i >= probes.len() {
                            assert(chars@[i] == r[i - probes.len()]);
                        } else {
                            assert(chars@[i] == probes[i]);
                        }
                    }
                    assert forall|k: int| 0 <= k < r.len() implies chars@.contains(#[trigger] r[k]) by {
                        assert(chars@[probes.len() + k] == r[k]);
                    }
                    assert(r[0] == roman_letter('M', 'm', up));
                    assert(r[3] == roman_letter('D', 'd', up));
                    assert(r[4] == roman_letter('C', 'c', up));
                    assert(r[7] == roman_letter('L', 'l', up));
                    assert(r[8] == roman_letter('X', 'x', up));
                    assert(r[11] == roman_letter('V', 'v', up));
                    assert(r[12] == roman_letter('I', 'i', up));
                }
            },
            NumberFormat::LowerAlpha | NumberFormat::UpperAlpha => {
                let ghost base: char = if self == NumberFormat::LowerAlpha { 'a' } else { 'A' };
                let mut n: u32 = 1;
                while n <= 26
                    invariant
                        1 <= n <= 27,
                        self == NumberFormat::LowerAlpha || self == NumberFormat::UpperAlpha,
                        base == (if self == NumberFormat::LowerAlpha { 'a' } else { 'A' }),
                        chars@.len() >= probes.len(),
                        chars@.subrange(0, probes.len() as int) == probes,
                        probes[0] == '0',
                        forall|i: int| 0 <= i < chars@.len() ==> alphabet_of(self).contains(#[trigger] chars@[i]),
                        forall|k: u32| 1 <= k < n ==> chars@.contains(#[trigger] nth_letter(base, k)),
                    decreases 27 - n,
                {
                    let ghost pre = chars@;
                    self.push_formatted(n, &mut chars);
                    proof {
                        assert(alpha_chars(((n - 1) as nat) / 26, base) =~= Seq::<char>::empty());
                        let c = ((base as u32) + n - 1) as char;
                        assert(format_chars(self, n as nat) =~= seq![c]);
                        assert(chars@ =~= pre.push(c));
                        assert(c == nth_letter(base, n));
                        assert(chars@[pre.len() as int] == c);
                        assert(chars@.subrange(0, probes.len() as int) =~= pre.subrange(0, probes.len() as int));
                        assert forall|k: u32| 1 <= k < n + 1 implies chars@.contains(#[trigger] nth_letter(base, k)) by {
                            if k < n {
                                assert(pre.contains(nth_letter(base, k)));
                                let j = choose|j: int| 0 <= j < pre.len() && #[trigger] pre[j] == nth_letter(base, k);
                                assert(chars@[j] == pre[j]);
                            }
                        }
                        assert forall|i: int| 0 <= i < chars@.len() implies alphabet_of(self).contains(#[trigger] chars@[i]) by {
                            if i < pre.len() {
                                assert(chars@[i] == pre[i]);
                            }
                        }
                    }
                    n = n + 1;
                }
                proof {
                    assert(chars@[0] == probes[0]);
                }
            },
            NumberFormat::Decimal => {},
        }
        let out = char_set(&chars);
        proof {
            assert(chars@.contains('0')) by {
                assert(chars@.subrange(0, probes.len() as int)[0] == '0');
            }
            assert forall|c: char| alphabet_of(self).contains(c) implies chars@.contains(c) by {
                if is_digit(c) && self != NumberFormat::LowerAlpha && self != NumberFormat::UpperAlpha {
                    lemma_digit_is_one_of_ten(c);
                    let z = format_chars(self, 0).len();
                    let big = format_chars(self, 1_234_567_890);
                    assert(big =~= seq!['1', '2', '3', '4', '5', '6', '7', '8', '9', '0']);
                    assert forall|k: int| 0 <= k < 10 implies chars@.contains(#[trigger] big[k]) by {
                        assert(probes[z + k] == big[k]);
                        assert(chars@.subrange(0, probes.len() as int)[z + k] == big[k]);
                        assert(chars@[z + k] == big[k]);
                    }
                    assert(big[0] == '1' && big[1] == '2' && big[2] == '3' && big[3] == '4' && big[4] == '5');
                    assert(big[5] == '6' && big[6] == '7' && big[7] == '8' && big[8] == '9');
                }
                if (self == NumberFormat::LowerAlpha || self == NumberFormat::UpperAlpha) && c != '0' {
                    let base: char = if self == NumberFormat::LowerAlpha { 'a' } else { 'A' };
                    let k: u32 = choose|k: u32| 1 <= k <= 26 && c == #[trigger] nth_letter(base, k);
                    assert(nth_letter(base, k) == c);
                }
            }
            assert(out@ =~= alphabet_of(self));
        }
        out
    }
}


/// What footnote `n` prints: decimal, document-sequential.
pub fn footnote_number(n: u32) -> (s: String)
    ensures
        s@ == decimal_digits(n as nat),
{
    NumberFormat::Decimal.format(n)
}

/// What separates the two ends of a coalesced page range in an index entry: an en dash.
pub const INDEX_RANGE_SEPARATOR: &'static str = "\u{2013}";

/// What separates one page reference from the next in an index entry.
pub const INDEX_PAGE_SEPARATOR: &'static str = ", ";

/// The separator between page references, as characters.
pub open spec fn page_separator() -> Seq<char> {
    seq![',', ' ']
}

/// The separator between the two ends of a range, as characters.
pub open spec fn range_separator() -> Seq<char> {
    seq!['\u{2013}']
}

/// Whether entry `k + 1` continues the run that entry `k` is in: the same format, and the
/// next number (saturating at `u32::MAX`).
pub open spec fn continues(folios: Seq<(NumberFormat, u32)>, k: int) -> bool {
    &&& folios[k + 1].0 == folios[k].0
    &&& folios[k + 1].1 == folios[k].1.saturating_add(1)
}

/// The last index of the run of consecutive folios starting at `i`.
pub open spec fn run_end(folios: Seq<(NumberFormat, u32)>, i: int) -> int
    decreases folios.len() - i,
{
    if 0 <= i && i + 1 < folios.len() && continues(folios, i) {
        run_end(folios, i + 1)
    } else {
        i
    }
}

pub proof fn lemma_run_end_bounds(folios: Seq<(NumberFormat, u32)>, i: int)
    requires
        0 <= i < folios.len(),
    ensures
        i <= run_end(folios, i) < folios.len(),
        forall|k: int| i <= k < run_end(folios, i) ==> #[trigger] continues(folios, k),
    decreases folios.len() - i,
{
    if i + 1 < folios.len() && continues(folios, i) {
        lemma_run_end_bounds(folios, i + 1);
    }
}

/// One coalesced entry: `first`, or `first–last` for a run of two or more.
pub open spec fn run_text(folios: Seq<(NumberFormat, u32)>, i: int) -> Seq<char> {
    let e = run_end(folios, i);
    let first = format_chars(folios[i].0, folios[i].1 as nat);
    if e > i {
        first + range_separator() + format_chars(folios[i].0, folios[e].1 as nat)
    } else {
        first
    }
}

/// The coalesced page list from entry `i` onwards, each entry preceded by a separator.
pub open spec fn coalesce_rest(folios: Seq<(NumberFormat, u32)>, i: int) -> Seq<char>
    decreases folios.len() - i,
{
    if 0 <= i < folios.len() {
        let e = run_end(folios, i);
        proof {
            lemma_run_end_bounds(folios, i);
        }
        page_separator() + run_text(folios, i) + coalesce_rest(folios, e + 1)
    } else {
        Seq::empty()
    }
}

/// What a term's pages print as: runs of consecutive folios joined into ranges, runs separated
/// by `, `. Two folios join only when they share a format **and** their numbers are consecutive.
pub open spec fn coalesce_spec(folios: Seq<(NumberFormat, u32)>) -> Seq<char> {
    if folios.len() == 0 {
        Seq::empty()
    } else {
        let e = run_end(folios, 0);
        run_text(folios, 0) + coalesce_rest(folios, e + 1)
    }
}

/// What a term's pages print as: `iv, 42–45, 47`.
pub fn coalesce_folios(folios: &[(NumberFormat, u32)]) -> (s: String)
    ensures
        s@ == coalesce_spec(folios@),
{
    let mut out: Vec<char> = Vec::new();
    let mut i: usize = 0;
    while i < folios.len()
        invariant
            0 <= i <= folios.len(),
            i == 0 ==> out@ + coalesce_spec(folios@) == coalesce_spec(folios@),
            i > 0 ==> out@ + coalesce_rest(folios@, i as int) == coalesce_spec(folios@),
        decreases folios.len() - i,
    {
        let (format, start) = folios[i];
        let mut end: usize = i;
        proof {
            lemma_run_end_bounds(folios@, i as int);
        }
        while end + 1 < folios.len() && folios[end + 1].0 == format
            && folios[end + 1].1 == folios[end].1.saturating_add(1)
            invariant
                i <= end < folios.len(),
                folios@[end as int].0 == format,
                format == folios@[i as int].0,
                run_end(folios@, i as int) == run_end(folios@, end as int),
            decreases folios.len() - end,
        {
            end = end + 1;
        }
        let ghost e = run_end(folios@, i as int);
        assert(e == end);
        let ghost pre = out@;
        if i > 0 {
            out.push(',');
            out.push(' ');
        }
        format.push_formatted(start, &mut out);
        if end > i {
            out.push('\u{2013}');
            format.push_formatted(folios[end].1, &mut out);
        }
        proof {
            let piece = run_text(folios@, i as int);
            if i > 0 {
                assert(out@ =~= pre + page_separator() + piece);
                assert(coalesce_rest(folios@, i as int) == page_separator() + piece + coalesce_rest(folios@, e + 1));
                assert(out@ + coalesce_rest(folios@, e + 1) =~= pre + coalesce_rest(folios@, i as int));
            } else {
                assert(out@ =~= pre + piece);
                assert(pre + coalesce_spec(folios@) == coalesce_spec(folios@));
                assert(pre =~= Seq::<char>::empty());
                assert(out@ + coalesce_rest(folios@, e + 1) =~= coalesce_spec(folios@));
            }
        }
        i = end + 1;
    }
    proof {
        if folios.len() == 0 {
            assert(out@ =~= coalesce_spec(folios@));
        } else {
            assert(coalesce_rest(folios@, i as int) =~= Seq::<char>::empty());
            assert(out@ =~= coalesce_spec(folios@));
        }
    }
    string_from_chars(&out)
}

} // verus!
