//! Text of the report: counts written with thousands separators (`1,234`), and
//! paths quoted for the deletion script.
use vstd::prelude::*;
use vstd::string::*;

use crate::cli::{digit_value, digits_value, is_digit};
use crate::types::{hex_digit_char, hex_digit_str};

verus! {

/// The decimal digit for `d < 10`.
pub open spec fn digit_char(d: int) -> char {
    (48 + d) as char
}

/// The decimal text of a number, without leading zeros (`0` for zero).
pub open spec fn decimal_text(n: nat) -> Seq<char>
    decreases n,
{
    if n < 10 {
        seq![digit_char(n as int)]
    } else {
        decimal_text(n / 10).push(digit_char((n % 10) as int))
    }
}

/// Three decimal digits, with leading zeros, for `r < 1000`.
pub open spec fn three_digits(r: nat) -> Seq<char> {
    seq![digit_char((r / 100) as int), digit_char(((r / 10) % 10) as int), digit_char((r % 10) as int)]
}

/// The decimal text of a number with a comma between groups of three digits,
/// counted from the right: `1234567` is `1,234,567`.
pub open spec fn thousands_text(n: nat) -> Seq<char>
    decreases n,
{
    if n < 1000 {
        decimal_text(n)
    } else {
        thousands_text(n / 1000) + seq![','] + three_digits(n % 1000)
    }
}

/// Appends the digit `d < 10`.
fn push_digit(s: &mut String, d: u64)
    requires
        d < 10,
    ensures
        final(s)@ == old(s)@.push(digit_char(d as int)),
{
    let t = hex_digit_str(d as u8);
    assert(hex_digit_char(d as int) == digit_char(d as int));
    s.append(t);
}

/// Appends the decimal text of `n < 1000`.
fn push_small(s: &mut String, n: u64)
    requires
        n < 1000,
    ensures
        final(s)@ == old(s)@ + decimal_text(n as nat),
{
    if n >= 100 {
        push_digit(s, n / 100);
        push_digit(s, (n / 10) % 10);
        push_digit(s, n % 10);
        assert(decimal_text((n / 100) as nat) == seq![digit_char((n / 100) as int)]);
        assert((n / 10) / 10 == n / 100);
        assert(decimal_text((n / 10) as nat) =~= seq![digit_char((n / 100) as int)].push(
            digit_char(((n / 10) % 10) as int),
        ));
    } else if n >= 10 {
        push_digit(s, n / 10);
        push_digit(s, n % 10);
        assert(decimal_text((n / 10) as nat) == seq![digit_char((n / 10) as int)]);
    } else {
        push_digit(s, n);
    }
    assert(final(s)@ =~= old(s)@ + decimal_text(n as nat));
}

/// Appends `n` with thousands separators.
fn push_thousands(s: &mut String, n: u64)
    ensures
        final(s)@ == old(s)@ + thousands_text(n as nat),
    decreases n,
{
    if n < 1000 {
        push_small(s, n);
    } else {
        push_thousands(s, n / 1000);
        let comma = ",";
        proof {
            reveal_strlit(",");
        }
        s.append(comma);
        let r = n % 1000;
        push_digit(s, r / 100);
        push_digit(s, (r / 10) % 10);
        push_digit(s, r % 10);
        assert(final(s)@ =~= old(s)@ + thousands_text(n as nat));
    }
}

/// A count as text with a comma between groups of three digits (`1,234`).
pub fn with_thousands(n: u64) -> (r: String)
    ensures
        r@ == thousands_text(n as nat),
{
    let mut s = String::new();
    push_thousands(&mut s, n);
    assert(s@ =~= thousands_text(n as nat));
    s
}

/// The text with every `'` replaced by `escape`.
pub open spec fn quotes_escaped(s: Seq<char>, escape: Seq<char>) -> Seq<char>
    decreases s.len(),
{
    if s.len() == 0 {
        Seq::empty()
    } else {
        quotes_escaped(s.drop_last(), escape) + if s.last() == '\'' {
            escape
        } else {
            seq![s.last()]
        }
    }
}

/// The text between single quotes, each `'` inside written as `escape`.
fn single_quoted(text: &str, escape: &str) -> (r: String)
    ensures
        r@ == seq!['\''] + quotes_escaped(text@, escape@) + seq!['\''],
{
    let quote = "'";
    proof {
        reveal_strlit("'");
    }
    let n = text.unicode_len();
    let mut out = String::from_str(quote);
    let mut i: usize = 0;
    while i < n
        invariant
            n == text@.len(),
            i <= n,
            quote@ == seq!['\''],
            out@ == seq!['\''] + quotes_escaped(text@.take(i as int), escape@),
        decreases n - i,
    {
        let c = text.get_char(i);
        if c == '\'' {
            out.append(escape);
        } else {
            out.append(text.substring_char(i, i + 1));
            assert(text@.subrange(i as int, i + 1) =~= seq![c]);
        }
        assert(text@.take(i + 1).drop_last() =~= text@.take(i as int));
        assert(text@.take(i + 1).last() == c);
        i = i + 1;
    }
    out.append(quote);
    assert(text@.take(n as int) =~= text@);
    out
}

/// A path as a POSIX shell word: in single quotes, each `'` written as `'\''`.
pub fn shell_quoted(text: &str) -> (r: String)
    ensures
        r@ == seq!['\''] + quotes_escaped(text@, seq!['\'', '\\', '\'', '\'']) + seq!['\''],
{
    let escape = "'\\''";
    proof {
        reveal_strlit("'\\''");
        assert(escape@ =~= seq!['\'', '\\', '\'', '\'']);
    }
    single_quoted(text, escape)
}

/// A path as a PowerShell literal string: in single quotes, each `'` doubled.
pub fn powershell_quoted(text: &str) -> (r: String)
    ensures
        r@ == seq!['\''] + quotes_escaped(text@, seq!['\'', '\'']) + seq!['\''],
{
    let escape = "''";
    proof {
        reveal_strlit("''");
        assert(escape@ =~= seq!['\'', '\'']);
    }
    single_quoted(text, escape)
}

/// The text with its commas left out.
pub open spec fn without_commas(s: Seq<char>) -> Seq<char>
    decreases s.len(),
{
    if s.len() == 0 {
        Seq::empty()
    } else if s.last() == ',' {
        without_commas(s.drop_last())
    } else {
        without_commas(s.drop_last()).push(s.last())
    }
}

proof fn lemma_without_commas_append(a: Seq<char>, b: Seq<char>)
    ensures
        without_commas(a + b) == without_commas(a) + without_commas(b),
    decreases b.len(),
{
    if b.len() == 0 {
        assert(a + b =~= a);
        assert(without_commas(a) + without_commas(b) =~= without_commas(a));
    } else {
        lemma_without_commas_append(a, b.drop_last());
        assert((a + b).drop_last() =~= a + b.drop_last());
        assert((a + b).last() == b.last());
        if b.last() != ',' {
            assert(without_commas(a) + without_commas(b) =~= (without_commas(a) + without_commas(b.drop_last())).push(
                b.last(),
            ));
        }
    }
}

/// The decimal text of `n`: one to twenty digits, reading back as `n`, with
/// no leading zero unless `n` is zero.
proof fn lemma_decimal_text(n: nat)
    ensures
        decimal_text(n).len() >= 1,
        n < 10 ==> decimal_text(n).len() == 1,
        n < 100 ==> decimal_text(n).len() <= 2,
        n < 1000 ==> decimal_text(n).len() <= 3,
        forall|i: int| 0 <= i < decimal_text(n).len() ==> is_digit(#[trigger] decimal_text(n)[i]),
        digits_value(decimal_text(n)) == n,
        n > 0 ==> decimal_text(n)[0] != '0',
        without_commas(decimal_text(n)) == decimal_text(n),
    decreases n,
{
    let t = decimal_text(n);
    if n < 10 {
        assert(t.drop_last() =~= Seq::<char>::empty());
        assert(digits_value(t.drop_last()) == 0);
        assert(digit_value(t.last()) == n);
        assert(without_commas(t.drop_last()) =~= Seq::<char>::empty());
        assert(without_commas(t) =~= t);
    } else {
        lemma_decimal_text(n / 10);
        let p = decimal_text(n / 10);
        assert(t == p.push(digit_char((n % 10) as int)));
        assert(t.drop_last() =~= p);
        assert(digit_value(t.last()) == n % 10);
        assert(digits_value(t) == digits_value(p) * 10 + digit_value(t.last()));
        assert(t[0] == p[0]);
        assert(without_commas(t) =~= t);
    }
}

/// Law: the text of `n` with separators is its decimal digits with a comma
/// before every group of three digits counted from the right: leaving out the
/// commas gives the digits of `n` (no leading zero), a character is a comma
/// exactly when it is not the first and its distance from the end is a
/// multiple of four, and the first group has one to three digits.
pub proof fn law_thousands_text(n: nat)
    ensures
        thousands_text(n).len() >= 1,
        thousands_text(n).len() % 4 != 0,
        forall|i: int|
            0 <= i < thousands_text(n).len() ==> (#[trigger] thousands_text(n)[i] == ',' <==> (i > 0 && (
            thousands_text(n).len() - i) % 4 == 0)),
        forall|i: int|
            0 <= i < thousands_text(n).len() && thousands_text(n)[i] != ',' ==> is_digit(
                #[trigger] thousands_text(n)[i],
            ),
        digits_value(without_commas(thousands_text(n))) == n,
        n > 0 ==> without_commas(thousands_text(n))[0] != '0',
    decreases n,
{
    let r = thousands_text(n);
    if n < 1000 {
        lemma_decimal_text(n);
        assert forall|i: int| 0 <= i < r.len() implies (#[trigger] r[i] == ',' <==> (i > 0 && (r.len() - i) % 4
            == 0)) by {
            assert(is_digit(r[i]));
        }
    } else {
        let q = n / 1000;
        let m = n % 1000;
        law_thousands_text(q);
        let t = thousands_text(q);
        let d = three_digits(m);
        assert(r == t + seq![','] + d);
        let tl = t.len() as int;
        assert(r.len() == tl + 4);
        assert forall|i: int| 0 <= i < r.len() implies (#[trigger] r[i] == ',' <==> (i > 0 && (r.len() - i) % 4
            == 0)) by {
            if i < tl {
                assert(r[i] == t[i]);
                assert((r.len() - i) % 4 == (t.len() - i) % 4);
            } else if i == tl {
                assert(r[i] == ',');
            } else {
                assert(r[i] == d[i - tl - 1]);
            }
        }
        assert forall|i: int| 0 <= i < r.len() && r[i] != ',' implies is_digit(#[trigger] r[i]) by {
            if i < tl {
                assert(r[i] == t[i]);
            } else if i > tl {
                assert(r[i] == d[i - tl - 1]);
            }
        }
        lemma_without_commas_append(t + seq![','], d);
        lemma_without_commas_append(t, seq![',']);
        let comma = seq![','];
        assert(comma.last() == ',');
        assert(comma.drop_last() =~= Seq::<char>::empty());
        assert(without_commas(Seq::<char>::empty()) == Seq::<char>::empty());
        assert(without_commas(comma) =~= Seq::<char>::empty());
        assert(without_commas(t) + Seq::<char>::empty() =~= without_commas(t));
        let d0 = digit_char(m as int / 100);
        let d1 = digit_char((m as int / 10) % 10);
        let d2 = digit_char(m as int % 10);
        assert(d == seq![d0, d1, d2]);
        let s1 = seq![d0];
        let s2 = seq![d0, d1];
        assert(s1.drop_last() =~= Seq::<char>::empty());
        assert(s2.drop_last() =~= s1);
        assert(d.drop_last() =~= s2);
        assert(without_commas(s1) =~= s1);
        assert(without_commas(s2) =~= s2);
        assert(without_commas(d) =~= d);
        let w = without_commas(t);
        assert(without_commas(r) == w + d);
        crate::cli::lemma_digits_value_append(w, d);
        assert(digits_value(Seq::<char>::empty()) == 0);
        assert(digits_value(s1) == m / 100);
        assert(digits_value(s2) == (m / 100) * 10 + (m / 10) % 10);
        assert(digits_value(d) == ((m / 100) * 10 + (m / 10) % 10) * 10 + m % 10);
        assert(digits_value(d) == m);
        assert(crate::cli::pow10(3) == 1000) by {
            assert(crate::cli::pow10(0) == 1);
            assert(crate::cli::pow10(1) == 10);
            assert(crate::cli::pow10(2) == 100);
        }
        assert((w + d)[0] == w[0]);
    }
}

/// Reads quoted text back, from its end: every `'` must end an `escape`, which
/// stands for one `'`; any other character stands for itself. `None` when some
/// `'` does not end an escape, so the quoting would be broken there.
pub open spec fn unquoted(s: Seq<char>, escape: Seq<char>) -> Option<Seq<char>>
    decreases s.len(),
{
    if s.len() == 0 {
        Some(Seq::empty())
    } else if s.last() != '\'' {
        match unquoted(s.drop_last(), escape) {
            Some(u) => Some(u.push(s.last())),
            None => None,
        }
    } else if 0 < escape.len() <= s.len() && s.skip(s.len() - escape.len()) == escape {
        match unquoted(s.take(s.len() - escape.len()), escape) {
            Some(u) => Some(u.push('\'')),
            None => None,
        }
    } else {
        None
    }
}

/// Escaping then reading back gives the text, for an escape that ends with `'`.
proof fn lemma_unquote_escaped(t: Seq<char>, escape: Seq<char>)
    requires
        escape.len() > 0,
        escape.last() == '\'',
    ensures
        unquoted(quotes_escaped(t, escape), escape) == Some(t),
    decreases t.len(),
{
    if t.len() == 0 {
    } else {
        let init = t.drop_last();
        lemma_unquote_escaped(init, escape);
        let q = quotes_escaped(init, escape);
        let s = quotes_escaped(t, escape);
        if t.last() == '\'' {
            assert(s == q + escape);
            assert(s.last() == escape.last());
            assert(s.skip(s.len() - escape.len()) =~= escape);
            assert(s.take(s.len() - escape.len()) =~= q);
            assert(init.push('\'') =~= t);
        } else {
            assert(s == q + seq![t.last()]);
            assert(s.drop_last() =~= q);
            assert(init.push(t.last()) =~= t);
        }
    }
}

/// Law: a path quoted for the shell reads back as itself: the word starts and
/// ends with `'`, and inside, every `'` ends a `'\''` that stands for one `'`
/// of the path, every other character stands for itself.
pub proof fn law_shell_quoting_reads_back(text: Seq<char>)
    ensures
        ({
            let r = seq!['\''] + quotes_escaped(text, seq!['\'', '\\', '\'', '\'']) + seq!['\''];
            &&& r.len() >= 2
            &&& r[0] == '\''
            &&& r.last() == '\''
            &&& unquoted(r.subrange(1, r.len() - 1), seq!['\'', '\\', '\'', '\'']) == Some(text)
        }),
{
    let esc = seq!['\'', '\\', '\'', '\''];
    let inner = quotes_escaped(text, esc);
    let r = seq!['\''] + inner + seq!['\''];
    lemma_unquote_escaped(text, esc);
    assert(r.subrange(1, r.len() - 1) =~= inner);
}

/// Law: a path quoted for PowerShell reads back as itself: the string starts
/// and ends with `'`, and inside, every `'` ends a `''` that stands for one `'`
/// of the path, every other character stands for itself.
pub proof fn law_powershell_quoting_reads_back(text: Seq<char>)
    ensures
        ({
            let r = seq!['\''] + quotes_escaped(text, seq!['\'', '\'']) + seq!['\''];
            &&& r.len() >= 2
            &&& r[0] == '\''
            &&& r.last() == '\''
            &&& unquoted(r.subrange(1, r.len() - 1), seq!['\'', '\'']) == Some(text)
        }),
{
    let esc = seq!['\'', '\''];
    let inner = quotes_escaped(text, esc);
    let r = seq!['\''] + inner + seq!['\''];
    lemma_unquote_escaped(text, esc);
    assert(r.subrange(1, r.len() - 1) =~= inner);
}

} // verus!
