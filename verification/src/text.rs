//! Character-level helpers shared by the parsers: copying a text into a
//! vector of characters, whitespace trimming, and first-match searches.
use vstd::prelude::*;

verus! {

/// Unicode `White_Space` property (what `char::is_whitespace` tests).
pub open spec fn is_white_space(c: char) -> bool {
    ||| ('\t' <= c && c <= '\r')
    ||| c == ' '
    ||| c == '\u{85}'
    ||| c == '\u{a0}'
    ||| c == '\u{1680}'
    ||| ('\u{2000}' <= c && c <= '\u{200a}')
    ||| c == '\u{2028}'
    ||| c == '\u{2029}'
    ||| c == '\u{202f}'
    ||| c == '\u{205f}'
    ||| c == '\u{3000}'
}

/// ASCII letters `a`..`z` raised to `A`..`Z`; every other character kept.
pub open spec fn ascii_uppercase(s: Seq<char>) -> Seq<char> {
    Seq::new(
        s.len(),
        |i: int|
            if 'a' <= s[i] && s[i] <= 'z' {
                ((s[i] as int) - 32) as char
            } else {
                s[i]
            },
    )
}

/// Drops leading whitespace.
pub open spec fn trim_start(s: Seq<char>) -> Seq<char>
    decreases s.len(),
{
    if s.len() > 0 && is_white_space(s[0]) {
        trim_start(s.drop_first())
    } else {
        s
    }
}

/// Drops trailing whitespace.
pub open spec fn trim_end(s: Seq<char>) -> Seq<char>
    decreases s.len(),
{
    if s.len() > 0 && is_white_space(s.last()) {
        trim_end(s.drop_last())
    } else {
        s
    }
}

/// Drops leading and trailing whitespace (what `str::trim` does).
pub open spec fn trimmed(s: Seq<char>) -> Seq<char> {
    trim_end(trim_start(s))
}

proof fn lemma_trim_start_shape(s: Seq<char>)
    ensures
        trim_start(s).len() == 0 || !is_white_space(trim_start(s)[0]),
        trim_start(s).len() > 0 ==> trim_start(s).last() == s.last(),
    decreases s.len(),
{
    if s.len() > 0 && is_white_space(s[0]) {
        lemma_trim_start_shape(s.drop_first());
    }
}

proof fn lemma_trim_end_shape(s: Seq<char>)
    ensures
        trim_end(s).len() <= s.len(),
        trim_end(s) == s.take(trim_end(s).len() as int),
        trim_end(s).len() == 0 || !is_white_space(trim_end(s).last()),
    decreases s.len(),
{
    if s.len() > 0 && is_white_space(s.last()) {
        lemma_trim_end_shape(s.drop_last());
        assert(s.drop_last().take(trim_end(s).len() as int) =~= s.take(trim_end(s).len() as int));
    } else {
        assert(s.take(s.len() as int) =~= s);
    }
}

proof fn lemma_trim_start_suffix(s: Seq<char>)
    ensures
        trim_start(s).len() <= s.len(),
        trim_start(s) == s.skip(s.len() - trim_start(s).len()),
    decreases s.len(),
{
    if s.len() > 0 && is_white_space(s[0]) {
        lemma_trim_start_suffix(s.drop_first());
        assert(s.drop_first().skip(s.len() - 1 - trim_start(s).len()) =~= s.skip(
            s.len() - trim_start(s).len(),
        ));
    } else {
        assert(s.skip(0) =~= s);
    }
}

/// Every character of the trimmed text comes from the text.
pub proof fn lemma_trimmed_chars(s: Seq<char>)
    ensures
        forall|i: int|
            0 <= i < trimmed(s).len() ==> exists|j: int| 0 <= j < s.len() && #[trigger] trimmed(s)[i] == s[j],
{
    let t = trim_start(s);
    lemma_trim_start_suffix(s);
    lemma_trim_end_shape(t);
    let off = s.len() - t.len();
    assert forall|i: int| 0 <= i < trimmed(s).len() implies exists|j: int|
        0 <= j < s.len() && #[trigger] trimmed(s)[i] == s[j] by {
        assert(trimmed(s)[i] == t[i]);
        assert(t[i] == s[off + i]);
    }
}

/// Raising ASCII letters to capitals commutes with trimming whitespace.
pub proof fn lemma_trim_ascii_uppercase(s: Seq<char>)
    ensures
        trim_start(ascii_uppercase(s)) == ascii_uppercase(trim_start(s)),
        trim_end(ascii_uppercase(s)) == ascii_uppercase(trim_end(s)),
        trimmed(ascii_uppercase(s)) == ascii_uppercase(trimmed(s)),
    decreases s.len(),
{
    let u = ascii_uppercase(s);
    if s.len() > 0 {
        lemma_trim_ascii_uppercase(s.drop_first());
        lemma_trim_ascii_uppercase(s.drop_last());
        assert(u.drop_first() =~= ascii_uppercase(s.drop_first()));
        assert(u.drop_last() =~= ascii_uppercase(s.drop_last()));
        assert(is_white_space(u[0]) == is_white_space(s[0]));
        assert(u.last() == u[s.len() - 1]);
        assert(is_white_space(u.last()) == is_white_space(s.last()));
    } else {
        assert(u =~= s);
    }
    lemma_trim_ascii_uppercase_end(trim_start(s));
}

proof fn lemma_trim_ascii_uppercase_end(s: Seq<char>)
    ensures
        trim_end(ascii_uppercase(s)) == ascii_uppercase(trim_end(s)),
    decreases s.len(),
{
    let u = ascii_uppercase(s);
    if s.len() > 0 {
        lemma_trim_ascii_uppercase_end(s.drop_last());
        assert(u.drop_last() =~= ascii_uppercase(s.drop_last()));
        assert(u.last() == u[s.len() - 1]);
        assert(is_white_space(u.last()) == is_white_space(s.last()));
    } else {
        assert(u =~= s);
    }
}

/// Law: trimming twice is trimming once.
pub proof fn law_trim_idempotent(s: Seq<char>)
    ensures
        trimmed(trimmed(s)) == trimmed(s),
{
    let t = trim_start(s);
    let u = trim_end(t);
    lemma_trim_start_shape(s);
    lemma_trim_end_shape(t);
    if u.len() > 0 {
        assert(u[0] == t[0]);
        assert(trim_start(u) == u);
        assert(trim_end(u) == u);
    }
}

/// Index of the first character satisfying `p`, or the length when there is none.
pub open spec fn first_match(s: Seq<char>, p: spec_fn(char) -> bool) -> int
    decreases s.len(),
{
    if s.len() == 0 {
        0
    } else {
        let k = first_match(s.drop_last(), p);
        if k < s.len() - 1 {
            k
        } else if p(s.last()) {
            s.len() - 1
        } else {
            s.len() as int
        }
    }
}

/// `first_match` is the least matching index, or the length.
pub proof fn lemma_first_match(s: Seq<char>, p: spec_fn(char) -> bool)
    ensures
        0 <= first_match(s, p) <= s.len(),
        forall|j: int| 0 <= j < first_match(s, p) ==> !p(#[trigger] s[j]),
        first_match(s, p) < s.len() ==> p(s[first_match(s, p)]),
    decreases s.len(),
{
    if s.len() > 0 {
        lemma_first_match(s.drop_last(), p);
        assert forall|j: int| 0 <= j < first_match(s, p) implies !p(#[trigger] s[j]) by {
            if j < s.len() - 1 {
                assert(s[j] == s.drop_last()[j]);
            }
        }
        let k = first_match(s.drop_last(), p);
        if k < s.len() - 1 {
            assert(s[k] == s.drop_last()[k]);
        }
    }
}

/// Any index with the two properties of `lemma_first_match` is `first_match`.
pub proof fn lemma_first_match_unique(s: Seq<char>, p: spec_fn(char) -> bool, k: int)
    requires
        0 <= k <= s.len(),
        forall|j: int| 0 <= j < k ==> !p(#[trigger] s[j]),
        k < s.len() ==> p(s[k]),
    ensures
        first_match(s, p) == k,
{
    lemma_first_match(s, p);
    let f = first_match(s, p);
    if f < k {
        assert(!p(s[f]));
    } else if k < f {
        assert(!p(s[k]));
    }
}

/// `char::is_whitespace`.
pub(crate) fn white_space(c: char) -> (r: bool)
    ensures
        r == is_white_space(c),
{
    ('\t' <= c && c <= '\r') || c == ' ' || c == '\u{85}' || c == '\u{a0}' || c == '\u{1680}' || (
    '\u{2000}' <= c && c <= '\u{200a}') || c == '\u{2028}' || c == '\u{2029}' || c == '\u{202f}'
        || c == '\u{205f}' || c == '\u{3000}'
}

/// The characters of a text, in order.
pub(crate) fn chars_of(s: &str) -> (r: Vec<char>)
    ensures
        r@ == s@,
{
    let n = s.unicode_len();
    let mut v: Vec<char> = Vec::new();
    let mut i: usize = 0;
    while i < n
        invariant
            n == s@.len(),
            i <= n,
            v@ == s@.take(i as int),
        decreases n - i,
    {
        let c = s.get_char(i);
        v.push(c);
        assert(s@.take(i + 1) =~= s@.take(i as int).push(c));
        i = i + 1;
    }
    assert(s@.take(n as int) =~= s@);
    v
}

/// Bounds `(a, b)` such that `v[a..b]` is `v[lo..hi]` with whitespace trimmed at both ends.
pub(crate) fn trim_bounds(v: &Vec<char>, lo: usize, hi: usize) -> (r: (usize, usize))
    requires
        lo <= hi <= v@.len(),
    ensures
        lo <= r.0 <= r.1 <= hi,
        v@.subrange(r.0 as int, r.1 as int) == trimmed(v@.subrange(lo as int, hi as int)),
{
    let mut a = lo;
    while a < hi && white_space(v[a])
        invariant
            lo <= a <= hi <= v@.len(),
            trim_start(v@.subrange(lo as int, hi as int)) == trim_start(v@.subrange(a as int, hi as int)),
        decreases hi - a,
    {
        assert(v@.subrange(a as int, hi as int).drop_first() =~= v@.subrange(a + 1, hi as int));
        a = a + 1;
    }
    assert(trim_start(v@.subrange(a as int, hi as int)) == v@.subrange(a as int, hi as int));
    let mut b = hi;
    while b > a && white_space(v[b - 1])
        invariant
            lo <= a <= b <= hi <= v@.len(),
            trim_end(v@.subrange(a as int, hi as int)) == trim_end(v@.subrange(a as int, b as int)),
        decreases b - a,
    {
        assert(v@.subrange(a as int, b as int).drop_last() =~= v@.subrange(a as int, b - 1));
        b = b - 1;
    }
    assert(trim_end(v@.subrange(a as int, b as int)) == v@.subrange(a as int, b as int));
    (a, b)
}

} // verus!
