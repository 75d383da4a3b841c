//! Command-line options and the parser for size arguments such as `1MB` or `500KB`.
use vstd::prelude::*;
use vstd::string::*;

use std::path::PathBuf;

use crate::text::{
    ascii_uppercase, chars_of, first_match, lemma_first_match, lemma_first_match_unique,
    trim_bounds, trimmed,
};
use vstd::utf8::is_ascii_chars;

verus! {

/// Options of one run.
#[derive(Debug)]
pub struct Args {
    /// The directory to scan.
    pub path: PathBuf,
    /// Only files larger than this many bytes are scanned.
    pub min_size: Option<u64>,
    /// Print the report as JSON.
    pub json: bool,
    /// Only preview; nothing is deleted.
    pub dry_run: bool,
    /// Where to write a deletion script for review.
    pub delete_script: Option<PathBuf>,
}

/// What `str::to_uppercase` makes of a text (full Unicode case mapping).
pub uninterp spec fn uppercase_chars(s: Seq<char>) -> Seq<char>;

/// `str::to_uppercase`: the Unicode uppercase of the text, named by
/// `uppercase_chars`. On an ASCII text it raises `a`..`z` to `A`..`Z` and keeps
/// every other character; the mapping of other characters is not written out.
#[verifier::external_body]
fn to_uppercase(s: &str) -> (r: String)
    ensures
        r@ == uppercase_chars(s@),
        is_ascii_chars(s@) ==> r@ == ascii_uppercase(s@),
{
    s.to_uppercase()
}

/// A character that can stand in the numeric part of a size: an ASCII digit or `.`.
pub open spec fn is_number_char(c: char) -> bool {
    ('0' <= c && c <= '9') || c == '.'
}

pub open spec fn is_digit(c: char) -> bool {
    '0' <= c && c <= '9'
}

pub open spec fn digit_value(c: char) -> int {
    c as int - 48
}

/// The value of a string of decimal digits (0 for the empty string).
pub open spec fn digits_value(s: Seq<char>) -> int
    decreases s.len(),
{
    if s.len() == 0 {
        0
    } else {
        digits_value(s.drop_last()) * 10 + digit_value(s.last())
    }
}

pub open spec fn pow10(k: nat) -> int
    decreases k,
{
    if k == 0 {
        1
    } else {
        10 * pow10((k - 1) as nat)
    }
}

/// A numeric part that `f64::from_str` accepts: at least one digit and at most one dot
/// (the part holds digits and dots only).
pub open spec fn is_decimal_text(num: Seq<char>) -> bool {
    &&& exists|i: int| 0 <= i < num.len() && is_digit(#[trigger] num[i])
    &&& forall|i: int, j: int| 0 <= i < j < num.len() ==> !(#[trigger] num[i] == '.' && #[trigger] num[j] == '.')
}

/// Position of the dot in the numeric part, or its length when it has none.
pub open spec fn dot_position(num: Seq<char>) -> int {
    first_match(num, |c: char| c == '.')
}

pub open spec fn integer_digits(num: Seq<char>) -> Seq<char> {
    num.take(dot_position(num))
}

pub open spec fn fraction_digits(num: Seq<char>) -> Seq<char> {
    if dot_position(num) < num.len() {
        num.skip(dot_position(num) + 1)
    } else {
        Seq::empty()
    }
}

/// `num * multiplier`, rounded down: the integer digits scaled exactly, plus the
/// fraction digits scaled and rounded down.
pub open spec fn scaled_amount(num: Seq<char>, multiplier: int) -> int {
    digits_value(integer_digits(num)) * multiplier + (digits_value(fraction_digits(num)) * multiplier)
        / pow10(fraction_digits(num).len())
}

/// Values beyond the range of `u64` become `u64::MAX`.
pub open spec fn saturate(x: int) -> u64 {
    if x > u64::MAX {
        u64::MAX
    } else {
        x as u64
    }
}

/// Bytes per unit, for the (uppercase) unit names the parser knows.
pub open spec fn unit_multiplier(s: Seq<char>) -> Option<u64> {
    if s =~= Seq::<char>::empty() || s =~= seq!['B'] {
        Some(1)
    } else if s =~= seq!['K'] || s =~= seq!['K', 'B'] {
        Some(1_000)
    } else if s =~= seq!['M'] || s =~= seq!['M', 'B'] {
        Some(1_000_000)
    } else if s =~= seq!['G'] || s =~= seq!['G', 'B'] {
        Some(1_000_000_000)
    } else if s =~= seq!['K', 'I'] || s =~= seq!['K', 'I', 'B'] {
        Some(1_024)
    } else if s =~= seq!['M', 'I'] || s =~= seq!['M', 'I', 'B'] {
        Some(1_048_576)
    } else if s =~= seq!['G', 'I'] || s =~= seq!['G', 'I', 'B'] {
        Some(1_073_741_824)
    } else {
        None
    }
}

/// The message for a numeric part that is not a number.
pub open spec fn number_error(num: Seq<char>) -> Seq<char> {
    "无效的数字 '"@ + num + "': "@ + if num.len() == 0 {
        "cannot parse float from empty string"@
    } else {
        "invalid float literal"@
    }
}

/// The message for an unknown unit.
pub open spec fn unit_error(unit: Seq<char>) -> Seq<char> {
    "不支持的单位 '"@ + unit + "'，支持: B, KB, MB, GB（或 KiB, MiB, GiB）"@
}

/// Where the numeric part of a size text ends.
pub open spec fn number_end(text: Seq<char>) -> int {
    first_match(text, |c: char| !is_number_char(c))
}

/// The result owed for an already trimmed and uppercased size text: the number
/// is the longest prefix of digits and dots, the unit is the rest, trimmed.
pub open spec fn size_text_result(text: Seq<char>) -> Result<u64, Seq<char>> {
    let num = text.take(number_end(text));
    let unit = trimmed(text.skip(number_end(text)));
    if !is_decimal_text(num) {
        Err(number_error(num))
    } else {
        match unit_multiplier(unit) {
            None => Err(unit_error(unit)),
            Some(m) => Ok(saturate(scaled_amount(num, m as int))),
        }
    }
}

/// The uppercase of a text: ASCII letters raised, other characters by the
/// Unicode mapping of `str::to_uppercase`.
pub open spec fn uppercase_of(s: Seq<char>) -> Seq<char> {
    if is_ascii_chars(s) {
        ascii_uppercase(s)
    } else {
        uppercase_chars(s)
    }
}

/// The result owed for a raw size argument: trimmed, uppercased, then read.
pub open spec fn min_size_result(input: Seq<char>) -> Result<u64, Seq<char>> {
    size_text_result(uppercase_of(trimmed(input)))
}


proof fn lemma_pow10_positive(k: nat)
    ensures
        pow10(k) >= 1,
    decreases k,
{
    if k > 0 {
        lemma_pow10_positive((k - 1) as nat);
    }
}

/// Digit strings have values below `10^len`.
proof fn lemma_digits_value_bound(s: Seq<char>)
    requires
        forall|i: int| 0 <= i < s.len() ==> is_digit(#[trigger] s[i]),
    ensures
        0 <= digits_value(s) < pow10(s.len()),
    decreases s.len(),
{
    if s.len() > 0 {
        let init = s.drop_last();
        assert forall|i: int| 0 <= i < init.len() implies is_digit(#[trigger] init[i]) by {
            assert(init[i] == s[i]);
        }
        lemma_digits_value_bound(init);
        assert(is_digit(s[s.len() - 1]));
        let v = digits_value(init);
        let p = pow10(init.len());
        assert(v * 10 + digit_value(s.last()) < 10 * p) by (nonlinear_arith)
            requires
                0 <= v < p,
                0 <= digit_value(s.last()) <= 9,
        ;
    }
}

/// Reading a digit string from its first digit: `value(d :: t) = d * 10^len(t) + value(t)`.
proof fn lemma_digits_value_prepend(d: char, t: Seq<char>)
    ensures
        digits_value(seq![d] + t) == digit_value(d) * pow10(t.len()) + digits_value(t),
    decreases t.len(),
{
    let s = seq![d] + t;
    if t.len() == 0 {
        assert(s.drop_last() =~= Seq::<char>::empty());
        assert(s.last() == d);
        assert(digits_value(t) == 0);
        assert(digits_value(s) == digits_value(s.drop_last()) * 10 + digit_value(d));
    } else {
        let ti = t.drop_last();
        assert(s.drop_last() =~= seq![d] + ti);
        lemma_digits_value_prepend(d, ti);
        assert(s.last() == t.last());
        assert(pow10(t.len()) == 10 * pow10(ti.len()));
        assert(digits_value(s) == digits_value(seq![d] + ti) * 10 + digit_value(t.last()));
        assert(digits_value(t) == digits_value(ti) * 10 + digit_value(t.last()));
        let dd = digit_value(d);
        let p = pow10(ti.len());
        let v = digits_value(ti);
        assert((dd * p + v) * 10 + digit_value(t.last()) == dd * (10 * p) + (v * 10 + digit_value(
            t.last(),
        ))) by (nonlinear_arith);
    }
}

/// One step of rounding down: `(a + floor(b / p)) / 10 == floor((a * p + b) / (10 * p))`.
proof fn lemma_floor_step(a: int, b: int, p: int)
    requires
        a >= 0,
        b >= 0,
        p > 0,
    ensures
        (a + b / p) / 10 == (a * p + b) / (10 * p),
{
    let q = b / p;
    let r = b % p;
    assert(b == p * q + r && 0 <= r < p) by {
        vstd::arithmetic::div_mod::lemma_fundamental_div_mod(b, p);
    }
    let t = (a + q) / 10;
    let u = (a + q) % 10;
    assert(a + q == 10 * t + u && 0 <= u < 10) by {
        vstd::arithmetic::div_mod::lemma_fundamental_div_mod(a + q, 10);
    }
    assert(a * p + b == (10 * p) * t + (u * p + r)) by (nonlinear_arith)
        requires
            b == p * q + r,
            a + q == 10 * t + u,
    ;
    assert(0 <= u * p + r < 10 * p) by (nonlinear_arith)
        requires
            0 <= u < 10,
            0 <= r < p,
            p > 0,
    ;
    assert((a * p + b) / (10 * p) == t) by {
        vstd::arithmetic::div_mod::lemma_div_basics(10 * p);
        vstd::arithmetic::div_mod::lemma_fundamental_div_mod_converse(a * p + b, 10 * p, t, u * p + r);
    }
}

/// `floor(x * m / q) < m` when `x < q`.
proof fn lemma_scaled_below(x: int, m: int, q: int)
    requires
        0 <= x < q,
        m > 0,
    ensures
        0 <= (x * m) / q < m,
{
    assert(0 <= x * m < m * q) by (nonlinear_arith)
        requires
            0 <= x < q,
            m > 0,
    ;
    vstd::arithmetic::div_mod::lemma_div_pos_is_pos(x * m, q);
    vstd::arithmetic::div_mod::lemma_div_by_multiple_is_strongly_ordered(x * m, m * q, m, q);
    vstd::arithmetic::div_mod::lemma_div_by_multiple(m, q);
}

/// `floor(value(v[lo..hi]) * m / 10^(hi - lo))`, computed digit by digit from the right.
fn fraction_scaled(v: &Vec<char>, lo: usize, hi: usize, m: u64) -> (r: u64)
    requires
        lo <= hi <= v@.len(),
        forall|i: int| lo <= i < hi ==> is_digit(#[trigger] v@[i]),
        1 <= m <= 1_073_741_824,
    ensures
        r as int == (digits_value(v@.subrange(lo as int, hi as int)) * m) / pow10((hi - lo) as nat),
        r < m,
{
    let mut c: u64 = 0;
    let mut j: usize = hi;
    assert(v@.subrange(hi as int, hi as int) =~= Seq::<char>::empty());
    while j > lo
        invariant
            lo <= j <= hi <= v@.len(),
            forall|i: int| lo <= i < hi ==> is_digit(#[trigger] v@[i]),
            1 <= m <= 1_073_741_824,
            c as int == (digits_value(v@.subrange(j as int, hi as int)) * m) / pow10((hi - j) as nat),
            c < m,
        decreases j,
    {
        let ch = v[j - 1];
        assert(is_digit(v@[j - 1]));
        let d = (ch as u32 - 48) as u64;
        let ghost tail = v@.subrange(j as int, hi as int);
        let ghost x = digits_value(tail);
        let ghost p = pow10((hi - j) as nat);
        assert(v@.subrange(j - 1, hi as int) =~= seq![ch] + tail);
        proof {
            lemma_digits_value_prepend(ch, tail);
            assert forall|i: int| 0 <= i < tail.len() implies is_digit(#[trigger] tail[i]) by {
                assert(tail[i] == v@[j + i]);
            }
            lemma_digits_value_bound(tail);
            lemma_pow10_positive((hi - j) as nat);
            assert(d * m <= 9 * 1_073_741_824) by (nonlinear_arith)
                requires
                    d <= 9,
                    m <= 1_073_741_824,
            ;
            assert(x * m >= 0) by (nonlinear_arith)
                requires
                    x >= 0,
                    m > 0,
            ;
            lemma_floor_step(d * m, x * m, p);
            assert((d * m) * p + x * m == (d * p + x) * m) by (nonlinear_arith);
            assert(pow10((hi - j + 1) as nat) == 10 * p);
            let s2 = seq![ch] + tail;
            assert(forall|i: int| 0 <= i < s2.len() ==> is_digit(#[trigger] s2[i])) by {
                assert forall|i: int| 0 <= i < s2.len() implies is_digit(#[trigger] s2[i]) by {
                    if i > 0 {
                        assert(s2[i] == tail[i - 1]);
                    }
                }
            }
            lemma_digits_value_bound(s2);
            lemma_scaled_below(digits_value(s2), m as int, 10 * p);
        }
        c = (d * m + c) / 10;
        j = j - 1;
    }
    c
}

/// `min(value(v[lo..hi]) * m + extra, u64::MAX)`.
fn integer_scaled(v: &Vec<char>, lo: usize, hi: usize, m: u64, extra: u64) -> (r: u64)
    requires
        lo <= hi <= v@.len(),
        forall|i: int| lo <= i < hi ==> is_digit(#[trigger] v@[i]),
        1 <= m <= 1_073_741_824,
    ensures
        r == saturate(digits_value(v@.subrange(lo as int, hi as int)) * m + extra),
{
    let mut acc: u64 = 0;
    let mut over = false;
    let mut i: usize = lo;
    assert(v@.subrange(lo as int, lo as int) =~= Seq::<char>::empty());
    while i < hi
        invariant
            lo <= i <= hi <= v@.len(),
            forall|k: int| lo <= k < hi ==> is_digit(#[trigger] v@[k]),
            1 <= m <= 1_073_741_824,
            digits_value(v@.subrange(lo as int, i as int)) >= 0,
            !over ==> acc as int == digits_value(v@.subrange(lo as int, i as int)) * m,
            over ==> digits_value(v@.subrange(lo as int, i as int)) * m > u64::MAX,
        decreases hi - i,
    {
        let ch = v[i];
        assert(is_digit(v@[i as int]));
        let d = (ch as u32 - 48) as u64;
        let ghost prev = digits_value(v@.subrange(lo as int, i as int));
        assert(v@.subrange(lo as int, i + 1).drop_last() =~= v@.subrange(lo as int, i as int));
        assert(digits_value(v@.subrange(lo as int, i + 1)) == prev * 10 + d);
        assert(d * m <= 9 * 1_073_741_824) by (nonlinear_arith)
            requires
                d <= 9,
                m <= 1_073_741_824,
        ;
        assert((prev * 10 + d) * m == (prev * m) * 10 + d * m) by (nonlinear_arith);
        assert(prev * m >= 0) by (nonlinear_arith)
            requires
                prev >= 0,
                m > 0,
        ;
        let dm = d * m;
        if !over {
            if acc > (u64::MAX - dm) / 10 {
                over = true;
            } else {
                acc = acc * 10 + dm;
            }
        }
        i = i + 1;
    }
    if over {
        u64::MAX
    } else if acc > u64::MAX - extra {
        u64::MAX
    } else {
        acc + extra
    }
}


/// Bytes per unit for the unit name `v[a..b]` (already uppercase), if known.
fn unit_multiplier_of(v: &Vec<char>, a: usize, b: usize) -> (r: Option<u64>)
    requires
        a <= b <= v@.len(),
    ensures
        r == unit_multiplier(v@.subrange(a as int, b as int)),
{
    let ghost u = v@.subrange(a as int, b as int);
    let len = b - a;
    if len == 0 {
        assert(u =~= Seq::<char>::empty());
        Some(1)
    } else if len == 1 {
        let c0 = v[a];
        assert(u[0] == c0);
        if c0 == 'B' {
            assert(u =~= seq!['B']);
            Some(1)
        } else if c0 == 'K' {
            assert(u =~= seq!['K']);
            Some(1_000)
        } else if c0 == 'M' {
            assert(u =~= seq!['M']);
            Some(1_000_000)
        } else if c0 == 'G' {
            assert(u =~= seq!['G']);
            Some(1_000_000_000)
        } else {
            None
        }
    } else if len == 2 {
        let c0 = v[a];
        let c1 = v[a + 1];
        assert(u[0] == c0 && u[1] == c1);
        if c0 == 'K' && c1 == 'B' {
            assert(u =~= seq!['K', 'B']);
            Some(1_000)
        } else if c0 == 'M' && c1 == 'B' {
            assert(u =~= seq!['M', 'B']);
            Some(1_000_000)
        } else if c0 == 'G' && c1 == 'B' {
            assert(u =~= seq!['G', 'B']);
            Some(1_000_000_000)
        } else if c0 == 'K' && c1 == 'I' {
            assert(u =~= seq!['K', 'I']);
            Some(1_024)
        } else if c0 == 'M' && c1 == 'I' {
            assert(u =~= seq!['M', 'I']);
            Some(1_048_576)
        } else if c0 == 'G' && c1 == 'I' {
            assert(u =~= seq!['G', 'I']);
            Some(1_073_741_824)
        } else {
            None
        }
    } else if len == 3 {
        let c0 = v[a];
        let c1 = v[a + 1];
        let c2 = v[a + 2];
        assert(u[0] == c0 && u[1] == c1 && u[2] == c2);
        if c1 == 'I' && c2 == 'B' {
            if c0 == 'K' {
                assert(u =~= seq!['K', 'I', 'B']);
                Some(1_024)
            } else if c0 == 'M' {
                assert(u =~= seq!['M', 'I', 'B']);
                Some(1_048_576)
            } else if c0 == 'G' {
                assert(u =~= seq!['G', 'I', 'B']);
                Some(1_073_741_824)
            } else {
                None
            }
        } else {
            None
        }
    } else {
        None
    }
}

/// Law: a whole number followed directly by a known unit is that many units,
/// capped at `u64::MAX` (so `1MB` is 1,000,000 bytes and `500KB` is 500,000).
pub proof fn law_whole_number_with_unit(digits: Seq<char>, unit: Seq<char>)
    requires
        digits.len() > 0,
        forall|i: int| 0 <= i < digits.len() ==> is_digit(#[trigger] digits[i]),
        unit_multiplier(unit) is Some,
    ensures
        size_text_result(digits + unit) == Ok::<u64, Seq<char>>(
            saturate(digits_value(digits) * unit_multiplier(unit)->0 as int),
        ),
{
    let text = digits + unit;
    let n = digits.len() as int;
    // Every unit name starts and ends with a letter.
    assert(unit.len() == 0 || (unit[0] != '.' && !is_digit(unit[0]) && !crate::text::is_white_space(
        unit[0],
    ) && !crate::text::is_white_space(unit.last())));
    assert forall|j: int| 0 <= j < n implies !(|c: char| !is_number_char(c))(#[trigger] text[j]) by {
        assert(text[j] == digits[j]);
    }
    if n < text.len() {
        assert(text[n] == unit[0]);
    }
    crate::text::lemma_first_match_unique(text, |c: char| !is_number_char(c), n);
    assert(text.take(n) =~= digits);
    assert(text.skip(n) =~= unit);
    if unit.len() > 0 {
        assert(unit.drop_first().len() + 1 == unit.len());
        assert(crate::text::trim_start(unit) == unit);
        assert(crate::text::trim_end(unit) == unit);
    } else {
        assert(trimmed(unit) == unit);
    }
    assert(is_digit(digits[0]));
    assert forall|i: int, j: int| 0 <= i < j < digits.len() implies !(#[trigger] digits[i] == '.'
        && #[trigger] digits[j] == '.') by {
        assert(is_digit(digits[i]));
    }
    crate::text::lemma_first_match_unique(digits, |c: char| c == '.', n);
    assert(integer_digits(digits) =~= digits);
    assert(fraction_digits(digits) =~= Seq::<char>::empty());
    assert(digits_value(Seq::<char>::empty()) == 0);
    assert(pow10(0) == 1);
}

/// Reading the digits of `a` then `b`: `value(a ++ b) = value(a) * 10^len(b) + value(b)`.
pub(crate) proof fn lemma_digits_value_append(a: Seq<char>, b: Seq<char>)
    ensures
        digits_value(a + b) == digits_value(a) * pow10(b.len()) + digits_value(b),
    decreases b.len(),
{
    if b.len() == 0 {
        assert(a + b =~= a);
    } else {
        let bi = b.drop_last();
        lemma_digits_value_append(a, bi);
        assert((a + b).drop_last() =~= a + bi);
        assert((a + b).last() == b.last());
        let va = digits_value(a);
        let p = pow10(bi.len());
        let vb = digits_value(bi);
        assert((va * p + vb) * 10 + digit_value(b.last()) == va * (10 * p) + (vb * 10 + digit_value(b.last())))
            by (nonlinear_arith);
    }
}

/// Law: a decimal number `I.F` (digits, one dot, digits, with at least one
/// digit) followed directly by a known unit is its value times the unit,
/// rounded down and capped at `u64::MAX`:
/// `min(floor((value(I) + value(F) / 10^len(F)) * m), u64::MAX)`, written over
/// the integers as `floor(value(I ++ F) * m / 10^len(F))`. So `1.5MB` is
/// 1,500,000 bytes and `2.5GB` is 2,500,000,000.
pub proof fn law_decimal_number_with_unit(int_digits: Seq<char>, frac_digits: Seq<char>, unit: Seq<char>)
    requires
        int_digits.len() + frac_digits.len() > 0,
        forall|i: int| 0 <= i < int_digits.len() ==> is_digit(#[trigger] int_digits[i]),
        forall|i: int| 0 <= i < frac_digits.len() ==> is_digit(#[trigger] frac_digits[i]),
        unit_multiplier(unit) is Some,
    ensures
        size_text_result(int_digits + seq!['.'] + frac_digits + unit) == Ok::<u64, Seq<char>>(
            saturate(
                (digits_value(int_digits + frac_digits) * unit_multiplier(unit)->0 as int) / pow10(
                    frac_digits.len(),
                ),
            ),
        ),
{
    let num = int_digits + seq!['.'] + frac_digits;
    let text = num + unit;
    let n = num.len() as int;
    let d = int_digits.len() as int;
    let m = unit_multiplier(unit)->0 as int;
    assert(int_digits + seq!['.'] + frac_digits + unit == text);
    // Every unit name starts and ends with a letter.
    assert(unit.len() == 0 || (unit[0] != '.' && !is_digit(unit[0]) && !crate::text::is_white_space(
        unit[0],
    ) && !crate::text::is_white_space(unit.last())));
    assert forall|j: int| 0 <= j < n implies !(|c: char| !is_number_char(c))(#[trigger] text[j]) by {
        assert(text[j] == num[j]);
        if j < d {
            assert(num[j] == int_digits[j]);
        } else if j > d {
            assert(num[j] == frac_digits[j - d - 1]);
        }
    }
    if n < text.len() {
        assert(text[n] == unit[0]);
    }
    crate::text::lemma_first_match_unique(text, |c: char| !is_number_char(c), n);
    assert(text.take(n) =~= num);
    assert(text.skip(n) =~= unit);
    if unit.len() > 0 {
        assert(unit.drop_first().len() + 1 == unit.len());
        assert(crate::text::trim_start(unit) == unit);
        assert(crate::text::trim_end(unit) == unit);
    } else {
        assert(trimmed(unit) == unit);
    }
    // The number: one dot, at position `d`, and a digit.
    if d > 0 {
        assert(num[0] == int_digits[0]);
        assert(is_digit(num[0]));
    } else {
        assert(num[1] == frac_digits[0]);
        assert(is_digit(num[1]));
    }
    assert forall|i: int, j: int| 0 <= i < j < num.len() implies !(#[trigger] num[i] == '.' && #[trigger] num[j]
        == '.') by {
        if i < d {
            assert(num[i] == int_digits[i]);
        } else if i > d {
            assert(num[i] == frac_digits[i - d - 1]);
        } else {
            assert(num[j] == frac_digits[j - d - 1]);
        }
    }
    assert forall|j: int| 0 <= j < d implies !(|c: char| c == '.')(#[trigger] num[j]) by {
        assert(num[j] == int_digits[j]);
    }
    assert(num[d] == '.');
    crate::text::lemma_first_match_unique(num, |c: char| c == '.', d);
    assert(integer_digits(num) =~= int_digits);
    assert(fraction_digits(num) =~= frac_digits);
    // The scaled amount, over the integers.
    let vi = digits_value(int_digits);
    let vf = digits_value(frac_digits);
    let p = pow10(frac_digits.len());
    lemma_digits_value_append(int_digits, frac_digits);
    lemma_pow10_positive(frac_digits.len());
    assert((vi * p + vf) * m == vf * m + (vi * m) * p) by (nonlinear_arith);
    vstd::arithmetic::div_mod::lemma_hoist_over_denominator(vf * m, vi * m, p as nat);
    assert(scaled_amount(num, m) == (digits_value(int_digits + frac_digits) * m) / p);
}

/// Law: the units the parser knows, and their sizes in bytes: decimal units
/// are powers of 1000 and binary units (`Ki`, `Mi`, `Gi`) powers of 1024;
/// `B` or no unit at all is one byte.
pub proof fn law_unit_sizes()
    ensures
        unit_multiplier(Seq::<char>::empty()) == Some(1u64),
        unit_multiplier(seq!['B']) == Some(1u64),
        unit_multiplier(seq!['K']) == Some(1_000u64),
        unit_multiplier(seq!['K', 'B']) == Some(1_000u64),
        unit_multiplier(seq!['M']) == Some(1_000_000u64),
        unit_multiplier(seq!['M', 'B']) == Some(1_000_000u64),
        unit_multiplier(seq!['G']) == Some(1_000_000_000u64),
        unit_multiplier(seq!['G', 'B']) == Some(1_000_000_000u64),
        unit_multiplier(seq!['K', 'I']) == Some(1_024u64),
        unit_multiplier(seq!['K', 'I', 'B']) == Some(1_024u64),
        unit_multiplier(seq!['M', 'I']) == Some(1_048_576u64),
        unit_multiplier(seq!['M', 'I', 'B']) == Some(1_048_576u64),
        unit_multiplier(seq!['G', 'I']) == Some(1_073_741_824u64),
        unit_multiplier(seq!['G', 'I', 'B']) == Some(1_073_741_824u64),
{
    let names = seq![
        seq!['B'],
        seq!['K'],
        seq!['K', 'B'],
        seq!['M'],
        seq!['M', 'B'],
        seq!['G'],
        seq!['G', 'B'],
        seq!['K', 'I'],
        seq!['K', 'I', 'B'],
        seq!['M', 'I'],
        seq!['M', 'I', 'B'],
        seq!['G', 'I'],
        seq!['G', 'I', 'B'],
    ];
    // Names differ in their length or in their first or last letters.
    assert forall|a: int, b: int| 0 <= a < names.len() && 0 <= b < names.len() && a != b implies !(
    #[trigger] names[a] =~= #[trigger] names[b]) by {
        let x = names[a];
        let y = names[b];
        if x.len() == y.len() {
            if x[0] == y[0] {
                assert(x[x.len() - 1] != y[y.len() - 1] || x[1] != y[1]);
            } else {
                assert(x[0] != y[0]);
            }
        }
    }
    assert(!(seq!['B'] =~= Seq::<char>::empty()));
}

/// Law: whitespace around a size argument does not change how it is read.
pub proof fn law_surrounding_white_space_ignored(input: Seq<char>)
    ensures
        min_size_result(trimmed(input)) == min_size_result(input),
{
    crate::text::law_trim_idempotent(input);
}

/// Law: the letter case of an ASCII size argument does not change how it is
/// read (`1mb`, `1Mb` and `1MB` give the same result, and so do their errors).
pub proof fn law_ascii_case_ignored(s: Seq<char>, t: Seq<char>)
    requires
        is_ascii_chars(s),
        is_ascii_chars(t),
        ascii_uppercase(s) == ascii_uppercase(t),
    ensures
        min_size_result(s) == min_size_result(t),
{
    lemma_trimmed_ascii(s);
    lemma_trimmed_ascii(t);
    crate::text::lemma_trim_ascii_uppercase(s);
    crate::text::lemma_trim_ascii_uppercase(t);
}

/// Trimming an ASCII text leaves an ASCII text.
proof fn lemma_trimmed_ascii(s: Seq<char>)
    requires
        is_ascii_chars(s),
    ensures
        is_ascii_chars(trimmed(s)),
{
    crate::text::lemma_trimmed_chars(s);
    assert forall|i: int| 0 <= i < trimmed(s).len() implies '\0' <= #[trigger] trimmed(s)[i]
        <= '\u{7f}' by {
        let j = choose|j: int| 0 <= j < s.len() && trimmed(s)[i] == s[j];
        assert(s[j] <= '\u{7f}');
    }
}

/// Reads a size text that has already been trimmed and uppercased: a number
/// (digits with at most one dot) followed by an optional unit
/// (`B`, `K`/`KB`, `M`/`MB`, `G`/`GB`, `KI`/`KIB`, `MI`/`MIB`, `GI`/`GIB`).
/// The number of bytes is the number times the unit, rounded down and capped at `u64::MAX`.
pub fn parse_size_text(text: &str) -> (r: Result<u64, String>)
    ensures
        match (r, size_text_result(text@)) {
            (Ok(v), Ok(w)) => v == w,
            (Err(e), Err(m)) => e@ == m,
            _ => false,
        },
{
    let cs = chars_of(text);
    let n = cs.len();
    let ghost not_number = |c: char| !is_number_char(c);
    let mut k: usize = 0;
    while k < n && (('0' <= cs[k] && cs[k] <= '9') || cs[k] == '.')
        invariant
            k <= n == cs@.len(),
            forall|j: int| 0 <= j < k ==> is_number_char(#[trigger] cs@[j]),
        decreases n - k,
    {
        k = k + 1;
    }
    proof {
        lemma_first_match_unique(cs@, not_number, k as int);
    }
    let ghost num = cs@.take(k as int);
    assert(num =~= cs@.subrange(0, k as int));
    // The numeric part: find the first dot, whether a second one follows, whether a digit occurs.
    let ghost is_dot = |c: char| c == '.';
    let mut dot_at: usize = k;
    let mut second_dot = false;
    let mut has_digit = false;
    let mut i: usize = 0;
    while i < k
        invariant
            k <= n == cs@.len(),
            i <= k,
            num == cs@.subrange(0, k as int),
            dot_at == k || (dot_at < i && cs@[dot_at as int] == '.'),
            forall|j: int| 0 <= j < i && j < dot_at ==> cs@[j] != '.',
            has_digit <==> exists|j: int| 0 <= j < i && is_digit(#[trigger] num[j]),
            !second_dot <==> forall|x: int, y: int|
                0 <= x < y < i ==> !(#[trigger] num[x] == '.' && #[trigger] num[y] == '.'),
        decreases k - i,
    {
        let c = cs[i];
        assert(num[i as int] == c);
        if c == '.' {
            if dot_at == k {
                dot_at = i;
            } else {
                second_dot = true;
                assert(num[dot_at as int] == '.');
            }
        } else if '0' <= c && c <= '9' {
            has_digit = true;
        }
        i = i + 1;
    }
    if !has_digit || second_dot {
        let mut e = String::from_str("无效的数字 '");
        e.append(text.substring_char(0, k));
        e.append("': ");
        if k == 0 {
            e.append("cannot parse float from empty string");
        } else {
            e.append("invalid float literal");
        }
        return Err(e);
    }
    proof {
        lemma_first_match_unique(num, is_dot, dot_at as int);
    }
    let (ua, ub) = trim_bounds(&cs, k, n);
    assert(cs@.subrange(k as int, n as int) =~= text@.skip(k as int));
    let m = match unit_multiplier_of(&cs, ua, ub) {
        Some(m) => m,
        None => {
            let mut e = String::from_str("不支持的单位 '");
            e.append(text.substring_char(ua, ub));
            e.append("'，支持: B, KB, MB, GB（或 KiB, MiB, GiB）");
            return Err(e);
        },
    };
    // Digits of the integer part are v[0..dot_at], those of the fraction v[dot_at + 1..k].
    let frac_lo = if dot_at < k {
        dot_at + 1
    } else {
        k
    };
    assert forall|j: int| 0 <= j < k && j != dot_at implies is_digit(#[trigger] cs@[j]) by {
        assert(is_number_char(cs@[j]));
        if cs@[j] == '.' {
            if j < dot_at {
            } else {
                assert(num[dot_at as int] == '.' && num[j] == '.');
            }
        }
    }
    assert(integer_digits(num) =~= cs@.subrange(0, dot_at as int));
    assert(fraction_digits(num) =~= cs@.subrange(frac_lo as int, k as int));
    let frac = fraction_scaled(&cs, frac_lo, k, m);
    let value = integer_scaled(&cs, 0, dot_at, m, frac);
    Ok(value)
}

/// Converts a size text such as `1MB`, `500KB`, `100B` or `1.5GiB` into a number of bytes.
/// The text is trimmed and uppercased first, then read as `parse_size_text` does.
pub fn parse_min_size(input: &str) -> (r: Result<u64, String>)
    ensures
        match (r, min_size_result(input@)) {
            (Ok(v), Ok(w)) => v == w,
            (Err(e), Err(m)) => e@ == m,
            _ => false,
        },
{
    let cs = chars_of(input);
    let (a, b) = trim_bounds(&cs, 0, cs.len());
    assert(cs@.subrange(0, cs@.len() as int) =~= input@);
    let t = input.substring_char(a, b);
    let upper = to_uppercase(t);
    assert(upper@ == uppercase_of(trimmed(input@)));
    parse_size_text(upper.as_str())
}

} // verus!
