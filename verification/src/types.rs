use vstd::prelude::*;
use vstd::utf8::*;
use vstd::string::*;

use crate::text::ascii_uppercase;

use std::path::PathBuf;
use std::time::SystemTime;

verus! {

/// `std::path::PathBuf`, carried through opaquely.
#[verifier::external_type_specification]
#[verifier::external_body]
pub struct ExPathBuf(PathBuf);

/// `std::time::SystemTime`, carried through opaquely.
#[verifier::external_type_specification]
#[verifier::external_body]
pub struct ExSystemTime(SystemTime);

/// `<PathBuf as Clone>::clone`: the copy is the same path.
pub assume_specification[ <PathBuf as Clone>::clone ](p: &PathBuf) -> (r: PathBuf)
    ensures
        r == *p,
;

/// `<SystemTime as Clone>::clone`: the copy is the same instant.
pub assume_specification[ <SystemTime as Clone>::clone ](t: &SystemTime) -> (r: SystemTime)
    ensures
        r == *t,
;

/// Metadata of one scanned file.
#[derive(Debug, Clone)]
pub struct FileEntry {
    pub path: PathBuf,
    pub size: u64,
    pub modified: SystemTime,
}

/// The digest of the first bytes of a file.
#[derive(Debug, Clone)]
pub struct PartialHash {
    pub path: PathBuf,
    pub size: u64,
    pub quick_hash: HashBytes,
}

/// The digest of a whole file.
#[derive(Debug, Clone)]
pub struct FullHash {
    pub path: PathBuf,
    pub size: u64,
    pub hash: HashBytes,
}

/// Files confirmed to hold the same bytes.
#[derive(Debug, Clone)]
pub struct DuplicateGroup {
    pub size: u64,
    pub hash: HashBytes,
    pub files: Vec<PathBuf>,
}

/// Totals of one scan.
#[derive(Debug, Clone, Copy, PartialEq, Eq)]
pub struct ScanStats {
    pub total_files: u64,
    pub total_size: u64,
    pub duplicate_groups: usize,
    pub wasted_bytes: u64,
}

/// A 32-byte digest.
#[derive(Debug, Clone, Copy, PartialEq, Eq, Hash)]
pub struct HashBytes(pub [u8; 32]);

impl View for HashBytes {
    type V = Seq<u8>;

    open spec fn view(&self) -> Seq<u8> {
        self.0@
    }
}

impl HashBytes {
    /// The digest as lowercase hexadecimal text, two digits per byte.
    pub fn to_hex(&self) -> (r: String)
        ensures
            r@ == hex_text(self@),
    {
        let mut s = String::new();
        let mut i: usize = 0;
        while i < 32
            invariant
                i <= 32,
                self@.len() == 32,
                s@ == hex_text(self@.take(i as int)),
            decreases 32 - i,
        {
            let b = self.0[i];
            s.append(hex_digit_str(b / 16));
            s.append(hex_digit_str(b % 16));
            assert(self@.take(i + 1).drop_last() =~= self@.take(i as int));
            assert(self@.take(i + 1).last() == b);
            i = i + 1;
        }
        assert(self@.take(32) =~= self@);
        s
    }

    /// Reads a digest back from its hexadecimal text: the text must decode
    /// to exactly 32 bytes.
    pub fn from_hex(text: &str) -> (r: Result<HashBytes, String>)
        ensures
            match (r, hex_decoding(text.spec_bytes())) {
                (Ok(h), Ok(w)) => w.len() == 32 && h@ == w,
                (Err(e), Ok(w)) => w.len() != 32 && e@ == "HashBytes must be 32 bytes"@,
                (Err(e), Err(m)) => e@ == m,
                _ => false,
            },
    {
        let bytes = match hex_to_bytes(text) {
            Ok(b) => b,
            Err(e) => {
                return Err(e);
            },
        };
        if bytes.len() != 32 {
            let e = String::from_str("HashBytes must be 32 bytes");
            return Err(e);
        }
        let mut arr = [0u8; 32];
        let mut i: usize = 0;
        while i < 32
            invariant
                i <= 32,
                bytes@.len() == 32,
                arr@.len() == 32,
                forall|j: int| 0 <= j < i ==> arr@[j] == bytes@[j],
            decreases 32 - i,
        {
            arr[i] = bytes[i];
            i = i + 1;
        }
        assert(arr@ =~= bytes@);
        Ok(HashBytes(arr))
    }

    /// Byte-wise equality of two digests.
    pub fn same_as(&self, other: &HashBytes) -> (r: bool)
        ensures
            r == (self@ == other@),
    {
        let mut i: usize = 0;
        while i < 32
            invariant
                i <= 32,
                self@.len() == 32,
                other@.len() == 32,
                forall|j: int| 0 <= j < i ==> self@[j] == other@[j],
            decreases 32 - i,
        {
            if self.0[i] != other.0[i] {
                return false;
            }
            i = i + 1;
        }
        assert(self@ =~= other@);
        true
    }
}


/// The hexadecimal digit for a nibble (`v < 16`), in capitals when `upper`.
pub open spec fn hex_digit_char_in(v: int, upper: bool) -> char {
    if v < 10 {
        (48 + v) as char
    } else if upper {
        (55 + v) as char
    } else {
        (87 + v) as char
    }
}

/// The lowercase hexadecimal digit for a nibble (`v < 16`).
pub open spec fn hex_digit_char(v: int) -> char {
    hex_digit_char_in(v, false)
}

/// Two hexadecimal digits per byte, most significant nibble first, in capitals when `upper`.
pub open spec fn hex_text_in(bytes: Seq<u8>, upper: bool) -> Seq<char>
    decreases bytes.len(),
{
    if bytes.len() == 0 {
        Seq::empty()
    } else {
        let b = bytes.last();
        hex_text_in(bytes.drop_last(), upper) + seq![
            hex_digit_char_in(b as int / 16, upper),
            hex_digit_char_in(b as int % 16, upper),
        ]
    }
}

/// Two lowercase hexadecimal digits per byte, most significant nibble first.
pub open spec fn hex_text(bytes: Seq<u8>) -> Seq<char> {
    hex_text_in(bytes, false)
}

/// The value of one ASCII hexadecimal digit (either case), if it is one.
pub open spec fn hex_value(b: u8) -> Option<u8> {
    if 48 <= b <= 57 {
        Some((b - 48) as u8)
    } else if 97 <= b <= 102 {
        Some((b - 87) as u8)
    } else if 65 <= b <= 70 {
        Some((b - 55) as u8)
    } else {
        None
    }
}

/// The byte written by two hexadecimal digits, most significant first; `None`
/// unless both bytes are hexadecimal digits.
pub open spec fn pair_value(b0: u8, b1: u8) -> Option<u8> {
    match (hex_value(b0), hex_value(b1)) {
        (Some(h), Some(l)) => Some((h * 16 + l) as u8),
        _ => None,
    }
}

/// Decodes consecutive byte pairs; `None` when some pair is not a hexadecimal number.
pub open spec fn decode_pairs(bytes: Seq<u8>) -> Option<Seq<u8>>
    decreases bytes.len(),
{
    if bytes.len() < 2 {
        Some(Seq::empty())
    } else {
        match decode_pairs(bytes.subrange(0, bytes.len() - 2)) {
            None => None,
            Some(prefix) => match pair_value(bytes[bytes.len() - 2], bytes[bytes.len() - 1]) {
                None => None,
                Some(v) => Some(prefix.push(v)),
            },
        }
    }
}

/// The result `hex_to_bytes` owes for a text with the given UTF-8 bytes.
pub open spec fn hex_decoding(bytes: Seq<u8>) -> Result<Seq<u8>, Seq<char>> {
    if bytes.len() % 2 == 1 {
        Err("hex string must have even length"@)
    } else {
        match decode_pairs(bytes) {
            Some(v) => Ok(v),
            None => Err("invalid digit found in string"@),
        }
    }
}

pub(crate) fn hex_digit_str(v: u8) -> (r: &'static str)
    requires
        v < 16,
    ensures
        r@ == seq![hex_digit_char(v as int)],
{
    let table = "0123456789abcdef";
    proof {
        reveal_strlit("0123456789abcdef");
    }
    table.substring_char(v as usize, v as usize + 1)
}

fn hex_value_exec(b: u8) -> (r: Option<u8>)
    ensures
        r == hex_value(b),
{
    if 48 <= b && b <= 57 {
        Some(b - 48)
    } else if 97 <= b && b <= 102 {
        Some(b - 87)
    } else if 65 <= b && b <= 70 {
        Some(b - 55)
    } else {
        None
    }
}

fn pair_value_exec(b0: u8, b1: u8) -> (r: Option<u8>)
    ensures
        r == pair_value(b0, b1),
{
    match (hex_value_exec(b0), hex_value_exec(b1)) {
        (Some(h), Some(l)) => Some(h * 16 + l),
        _ => None,
    }
}

/// Parses a text of hexadecimal digit pairs (either case) into bytes. A text of
/// odd byte length, or one with a byte that is not an ASCII hexadecimal digit
/// (a sign, a letter beyond `f`, any byte of a non-ASCII character), is an error.
pub fn hex_to_bytes(hex: &str) -> (r: Result<Vec<u8>, String>)
    ensures
        match (r, hex_decoding(hex.spec_bytes())) {
            (Ok(v), Ok(w)) => v@ == w,
            (Err(e), Err(m)) => e@ == m,
            _ => false,
        },
{
    let bytes = hex.as_bytes();
    let n = bytes.len();
    if n % 2 == 1 {
        let e = String::from_str("hex string must have even length");
        return Err(e);
    }
    let mut out: Vec<u8> = Vec::new();
    let mut i: usize = 0;
    while i < n
        invariant
            n == bytes@.len(),
            bytes@ == hex.spec_bytes(),
            n % 2 == 0,
            i % 2 == 0,
            i <= n,
            decode_pairs(bytes@.subrange(0, i as int)) == Some(out@),
        decreases n - i,
    {
        let ghost prefix = bytes@.subrange(0, i + 2);
        assert(prefix.subrange(0, prefix.len() - 2) =~= bytes@.subrange(0, i as int));
        match pair_value_exec(bytes[i], bytes[i + 1]) {
            None => {
                proof {
                    assert(prefix[prefix.len() - 2] == bytes@[i as int]);
                    assert(prefix[prefix.len() - 1] == bytes@[i + 1]);
                    assert(decode_pairs(prefix) is None);
                    lemma_decode_pairs_fails_on_prefix(bytes@, (i + 2) as int);
                }
                let e = String::from_str("invalid digit found in string");
                return Err(e);
            },
            Some(v) => {
                assert(prefix[prefix.len() - 2] == bytes@[i as int]);
                assert(prefix[prefix.len() - 1] == bytes@[i + 1]);
                out.push(v);
            },
        }
        i = i + 2;
    }
    assert(bytes@.subrange(0, n as int) =~= bytes@);
    Ok(out)
}

/// The UTF-8 bytes of an ASCII text: one byte per character.
pub open spec fn ascii_bytes(chars: Seq<char>) -> Seq<u8> {
    Seq::new(chars.len(), |i: int| chars[i] as u8)
}

proof fn lemma_hex_digit(v: int, upper: bool)
    requires
        0 <= v < 16,
    ensures
        (hex_digit_char_in(v, upper) as u8) as int == hex_digit_char_in(v, upper) as int,
        hex_value(hex_digit_char_in(v, upper) as u8) == Some(v as u8),
        '\0' <= hex_digit_char_in(v, upper) <= '\u{7f}',
        hex_digit_char_in(v, true) == (if 'a' <= hex_digit_char_in(v, false) && hex_digit_char_in(v, false) <= 'z' {
            ((hex_digit_char_in(v, false) as int) - 32) as char
        } else {
            hex_digit_char_in(v, false)
        }),
{
    assert(0 <= v < 10 || 10 <= v < 16);
}

/// Encoding a byte sequence as hexadecimal text (either case) and decoding that
/// text gives the bytes back; the text is ASCII, twice as long as the bytes.
pub proof fn lemma_hex_text_decodes(bytes: Seq<u8>, upper: bool)
    ensures
        hex_text_in(bytes, upper).len() == 2 * bytes.len(),
        is_ascii_chars(hex_text_in(bytes, upper)),
        decode_pairs(ascii_bytes(hex_text_in(bytes, upper))) == Some(bytes),
    decreases bytes.len(),
{
    if bytes.len() > 0 {
        let init = bytes.drop_last();
        let b = bytes.last();
        lemma_hex_text_decodes(init, upper);
        let hi = b as int / 16;
        let lo = b as int % 16;
        lemma_hex_digit(hi, upper);
        lemma_hex_digit(lo, upper);
        let t = hex_text_in(bytes, upper);
        let ti = hex_text_in(init, upper);
        assert(t =~= ti + seq![hex_digit_char_in(hi, upper), hex_digit_char_in(lo, upper)]);
        let a = ascii_bytes(t);
        assert(a.subrange(0, a.len() - 2) =~= ascii_bytes(ti));
        assert(a[a.len() - 2] == hex_digit_char_in(hi, upper) as u8);
        assert(a[a.len() - 1] == hex_digit_char_in(lo, upper) as u8);
        assert(pair_value(a[a.len() - 2], a[a.len() - 1]) == Some(b)) by {
            assert(hi * 16 + lo == b as int);
        }
        assert(init.push(b) =~= bytes);
        assert forall|i: int| 0 <= i < t.len() implies '\0' <= #[trigger] t[i] <= '\u{7f}' by {
            if i < ti.len() {
                assert(t[i] == ti[i]);
            }
        }
    }
}

/// The capital hexadecimal text is the lowercase one with its letters raised.
proof fn lemma_hex_text_upper(bytes: Seq<u8>)
    ensures
        hex_text_in(bytes, true) == ascii_uppercase(hex_text(bytes)),
    decreases bytes.len(),
{
    if bytes.len() > 0 {
        let init = bytes.drop_last();
        let b = bytes.last();
        lemma_hex_text_upper(init);
        lemma_hex_text_decodes(init, false);
        lemma_hex_digit(b as int / 16, false);
        lemma_hex_digit(b as int % 16, false);
        let lower = hex_text(bytes);
        let li = hex_text(init);
        assert(lower =~= li + seq![hex_digit_char(b as int / 16), hex_digit_char(b as int % 16)]);
        assert(hex_text_in(bytes, true) =~= ascii_uppercase(lower)) by {
            assert forall|i: int| 0 <= i < lower.len() implies #[trigger] hex_text_in(bytes, true)[i]
                == ascii_uppercase(lower)[i] by {
                if i < li.len() {
                    assert(lower[i] == li[i]);
                    assert(ascii_uppercase(li)[i] == ascii_uppercase(lower)[i]);
                }
            }
        }
    } else {
        assert(ascii_uppercase(hex_text(bytes)) =~= Seq::<char>::empty());
    }
}

/// Law: the hexadecimal text of a digest, in lowercase as `to_hex` writes it or
/// with its letters raised to capitals, decodes back to that digest.
pub proof fn law_hex_roundtrip(h: HashBytes)
    ensures
        hex_decoding(encode_utf8(hex_text(h@))) == Ok::<Seq<u8>, Seq<char>>(h@),
        hex_decoding(encode_utf8(ascii_uppercase(hex_text(h@)))) == Ok::<Seq<u8>, Seq<char>>(h@),
{
    lemma_hex_text_upper(h@);
    lemma_hex_text_decodes(h@, false);
    lemma_hex_text_decodes(h@, true);
    let t = hex_text(h@);
    let u = hex_text_in(h@, true);
    is_ascii_chars_encode_utf8(t);
    is_ascii_chars_encode_utf8(u);
    assert(encode_utf8(t) =~= ascii_bytes(t));
    assert(encode_utf8(u) =~= ascii_bytes(u));
    assert(h@.len() == 32);
}

/// A pair that fails anywhere makes the whole decoding fail.
proof fn lemma_decode_pairs_fails_on_prefix(bytes: Seq<u8>, k: int)
    requires
        2 <= k <= bytes.len(),
        k % 2 == 0,
        bytes.len() % 2 == 0,
        decode_pairs(bytes.subrange(0, k)) is None,
    ensures
        decode_pairs(bytes) is None,
    decreases bytes.len() - k,
{
    if k < bytes.len() {
        let next = bytes.subrange(0, k + 2);
        assert(next.subrange(0, next.len() - 2) =~= bytes.subrange(0, k));
        lemma_decode_pairs_fails_on_prefix(bytes, k + 2);
    } else {
        assert(bytes.subrange(0, k) =~= bytes);
    }
}

/// The lowercase hexadecimal digits, by value.
pub open spec fn lower_hex_digits() -> Seq<char> {
    seq!['0', '1', '2', '3', '4', '5', '6', '7', '8', '9', 'a', 'b', 'c', 'd', 'e', 'f']
}

/// The uppercase hexadecimal digits, by value.
pub open spec fn upper_hex_digits() -> Seq<char> {
    seq!['0', '1', '2', '3', '4', '5', '6', '7', '8', '9', 'A', 'B', 'C', 'D', 'E', 'F']
}

/// Law: the hexadecimal text of bytes has two characters per byte: for byte
/// `i`, character `2i` is the lowercase digit of its high nibble and character
/// `2i + 1` that of its low nibble.
pub proof fn law_hex_text_digits(bytes: Seq<u8>)
    ensures
        hex_text(bytes).len() == 2 * bytes.len(),
        forall|i: int|
            0 <= i < bytes.len() ==> hex_text(bytes)[2 * i] == lower_hex_digits()[#[trigger] bytes[i] as int / 16]
                && hex_text(bytes)[2 * i + 1] == lower_hex_digits()[bytes[i] as int % 16],
    decreases bytes.len(),
{
    if bytes.len() > 0 {
        let init = bytes.drop_last();
        law_hex_text_digits(init);
        let t = hex_text(bytes);
        let ti = hex_text(init);
        assert(t == ti + seq![hex_digit_char(bytes.last() as int / 16), hex_digit_char(bytes.last() as int % 16)]);
        assert forall|v: int| 0 <= v < 16 implies hex_digit_char(v) == #[trigger] lower_hex_digits()[v] by {
            assert(0 <= v < 16);
            if v == 0 {} else if v == 1 {} else if v == 2 {} else if v == 3 {} else if v == 4 {}
            else if v == 5 {} else if v == 6 {} else if v == 7 {} else if v == 8 {} else if v == 9 {}
            else if v == 10 {} else if v == 11 {} else if v == 12 {} else if v == 13 {} else if v == 14 {}
            else {}
        }
        assert forall|i: int|
            0 <= i < bytes.len() implies t[2 * i] == lower_hex_digits()[#[trigger] bytes[i] as int / 16]
            && t[2 * i + 1] == lower_hex_digits()[bytes[i] as int % 16] by {
            if i < init.len() {
                assert(init[i] == bytes[i]);
                assert(t[2 * i] == ti[2 * i]);
                assert(t[2 * i + 1] == ti[2 * i + 1]);
            } else {
                assert(bytes[i] == bytes.last());
            }
        }
    }
}

/// Law: two hexadecimal digits, in either case, give the byte `16 * high + low`.
pub proof fn law_pair_value_digits(hi: int, lo: int)
    requires
        0 <= hi < 16,
        0 <= lo < 16,
    ensures
        pair_value(lower_hex_digits()[hi] as u8, lower_hex_digits()[lo] as u8) == Some((16 * hi + lo) as u8),
        pair_value(upper_hex_digits()[hi] as u8, upper_hex_digits()[lo] as u8) == Some((16 * hi + lo) as u8),
{
    assert forall|v: int| 0 <= v < 16 implies hex_value(#[trigger] lower_hex_digits()[v] as u8) == Some(v as u8)
        && hex_value(upper_hex_digits()[v] as u8) == Some(v as u8) by {
        if v == 0 {} else if v == 1 {} else if v == 2 {} else if v == 3 {} else if v == 4 {}
        else if v == 5 {} else if v == 6 {} else if v == 7 {} else if v == 8 {} else if v == 9 {}
        else if v == 10 {} else if v == 11 {} else if v == 12 {} else if v == 13 {} else if v == 14 {}
        else {}
    }
    assert(hex_value(lower_hex_digits()[hi] as u8) == Some(hi as u8));
    assert(hex_value(lower_hex_digits()[lo] as u8) == Some(lo as u8));
    assert(hex_value(upper_hex_digits()[hi] as u8) == Some(hi as u8));
    assert(hex_value(upper_hex_digits()[lo] as u8) == Some(lo as u8));
}

/// Law: decoding reads the text pair by pair, in order: byte `i` of the result
/// is the value of characters `2i` and `2i + 1`.
pub proof fn law_decode_pairs_in_order(bytes: Seq<u8>)
    requires
        decode_pairs(bytes) is Some,
        bytes.len() % 2 == 0,
    ensures
        decode_pairs(bytes)->0.len() == bytes.len() / 2,
        forall|i: int|
            0 <= i < bytes.len() / 2 ==> pair_value(bytes[2 * i], bytes[2 * i + 1]) == Some(
                #[trigger] decode_pairs(bytes)->0[i],
            ),
    decreases bytes.len(),
{
    if bytes.len() >= 2 {
        let init = bytes.subrange(0, bytes.len() - 2);
        law_decode_pairs_in_order(init);
        let v = decode_pairs(bytes)->0;
        let vi = decode_pairs(init)->0;
        assert forall|i: int| 0 <= i < bytes.len() / 2 implies pair_value(bytes[2 * i], bytes[2 * i + 1]) == Some(
            #[trigger] v[i],
        ) by {
            if i < init.len() / 2 {
                assert(v[i] == vi[i]);
                assert(init[2 * i] == bytes[2 * i]);
                assert(init[2 * i + 1] == bytes[2 * i + 1]);
            }
        }
    }
}

} // verus!
