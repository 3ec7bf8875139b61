use crate::error::Error;
use vstd::prelude::*;
use vstd::string::StringSliceAdditionalSpecFns;
use vstd::utf8::{
    decode_utf8, encode_utf8, encode_utf8_decode_utf8, encode_utf8_valid_utf8, is_ascii_chars,
    is_ascii_chars_encode_utf8, valid_utf8,
};

verus! {

/// An ASCII decimal digit.
pub open spec fn is_digit(b: u8) -> bool {
    0x30 <= b <= 0x39
}

/// Every byte is an ASCII decimal digit.
pub open spec fn all_digits(s: Seq<u8>) -> bool {
    forall|i: int| 0 <= i < s.len() ==> is_digit(#[trigger] s[i])
}

/// The decimal value of a sequence of ASCII digits.
pub open spec fn dec_value(s: Seq<u8>) -> int
    decreases s.len(),
{
    if s.len() == 0 {
        0
    } else {
        dec_value(s.drop_last()) * 10 + (s.last() - 0x30)
    }
}

/// Ten to the power `n`.
pub open spec fn pow10(n: nat) -> int
    decreases n,
{
    if n == 0 {
        1
    } else {
        10 * pow10((n - 1) as nat)
    }
}

/// The byte sequence is accepted by a decimal integer parser: an optional
/// leading sign followed by at least one ASCII digit, and nothing else.
pub open spec fn parseable(s: Seq<u8>) -> bool {
    if s.len() == 0 {
        false
    } else if s[0] == 0x2b || s[0] == 0x2d {
        s.len() >= 2 && all_digits(s.skip(1))
    } else {
        all_digits(s)
    }
}

/// The signed decimal value of an accepted byte sequence.
pub open spec fn parsed_value(s: Seq<u8>) -> int {
    if s.len() > 0 && s[0] == 0x2b {
        dec_value(s.skip(1))
    } else if s.len() > 0 && s[0] == 0x2d {
        -dec_value(s.skip(1))
    } else {
        dec_value(s)
    }
}

/// An ASCII decimal digit, as a character.
pub open spec fn is_digit_char(c: char) -> bool {
    '0' <= c <= '9'
}

/// Every character is an ASCII decimal digit.
pub open spec fn all_digit_chars(s: Seq<char>) -> bool {
    forall|i: int| 0 <= i < s.len() ==> is_digit_char(#[trigger] s[i])
}

/// The decimal value of a sequence of ASCII digit characters.
pub open spec fn dec_value_chars(s: Seq<char>) -> int
    decreases s.len(),
{
    if s.len() == 0 {
        0
    } else {
        dec_value_chars(s.drop_last()) * 10 + (s.last() as u32 - 0x30)
    }
}

/// The character sequence is accepted by a decimal integer parser.
pub open spec fn parseable_chars(s: Seq<char>) -> bool {
    if s.len() == 0 {
        false
    } else if s[0] == '+' || s[0] == '-' {
        s.len() >= 2 && all_digit_chars(s.skip(1))
    } else {
        all_digit_chars(s)
    }
}

/// The signed decimal value of an accepted character sequence.
pub open spec fn parsed_value_chars(s: Seq<char>) -> int {
    if s.len() > 0 && s[0] == '+' {
        dec_value_chars(s.skip(1))
    } else if s.len() > 0 && s[0] == '-' {
        -dec_value_chars(s.skip(1))
    } else {
        dec_value_chars(s)
    }
}

/// A digit string's value is bounded by ten to its length.
pub proof fn lemma_dec_value_bound(s: Seq<u8>)
    requires
        all_digits(s),
    ensures
        0 <= dec_value(s) < pow10(s.len()),
    decreases s.len(),
{
    if s.len() > 0 {
        assert(all_digits(s.drop_last())) by {
            assert(forall|i: int|
                0 <= i < s.len() - 1 ==> s.drop_last()[i] == #[trigger] s[i]);
        }
        lemma_dec_value_bound(s.drop_last());
    }
}

/// A sequence of bytes below 0x80 is valid UTF-8 and decodes to the same
/// values read as characters.
pub proof fn lemma_ascii_bytes(b: Seq<u8>)
    requires
        forall|i: int| 0 <= i < b.len() ==> #[trigger] b[i] < 0x80,
    ensures
        valid_utf8(b),
        decode_utf8(b) == b.map(|i: int, x: u8| x as char),
        decode_utf8(b).len() == b.len(),
{
    let chars = b.map(|i: int, x: u8| x as char);
    assert forall|i: int| 0 <= i < chars.len() implies '\0' <= #[trigger] chars[i] <= '\u{7f}' by {
        assert(chars[i] == b[i] as char);
    }
    assert(is_ascii_chars(chars));
    is_ascii_chars_encode_utf8(chars);
    assert forall|i: int| 0 <= i < b.len() implies #[trigger] encode_utf8(chars)[i] == b[i] by {
        assert(encode_utf8(chars)[i] == chars[i] as u8);
        assert(chars[i] == b[i] as char);
        assert((b[i] as char) as u8 == b[i]);
    }
    assert(encode_utf8(chars) =~= b);
    encode_utf8_valid_utf8(chars);
    encode_utf8_decode_utf8(chars);
}

/// Character decoding of valid UTF-8 never yields more characters than
/// there were bytes.
pub proof fn lemma_decode_len(b: Seq<u8>)
    requires
        valid_utf8(b),
    ensures
        decode_utf8(b).len() <= b.len(),
    decreases b.len(),
{
    if b.len() > 0 {
        vstd::utf8::decode_utf8_first_scalar(b);
        lemma_decode_len(vstd::utf8::pop_first_scalar(b));
    }
}

/// For valid UTF-8 bytes, the byte-level decimal-parser predicates agree
/// with the character-level ones on the decoding, and an accepted byte
/// sequence is always valid UTF-8.
pub proof fn lemma_parse_bridge(b: Seq<u8>)
    ensures
        parseable(b) ==> valid_utf8(b),
        valid_utf8(b) ==> (parseable_chars(decode_utf8(b)) <==> parseable(b)),
        parseable(b) ==> parsed_value_chars(decode_utf8(b)) == parsed_value(b),
{
    if parseable(b) {
        assert forall|i: int| 0 <= i < b.len() implies #[trigger] b[i] < 0x80 by {
            if (b[0] == 0x2b || b[0] == 0x2d) && i >= 1 {
                assert(is_digit(b.skip(1)[i - 1]));
                assert(b.skip(1)[i - 1] == b[i]);
            } else if !(b[0] == 0x2b || b[0] == 0x2d) {
                assert(is_digit(b[i]));
            }
        }
        lemma_ascii_bytes(b);
        let chars = decode_utf8(b);
        assert forall|i: int| 0 <= i < b.len() implies #[trigger] chars[i] == b[i] as char by {
            assert(chars == b.map(|j: int, x: u8| x as char));
        }
        if b[0] == 0x2b || b[0] == 0x2d {
            assert(chars.skip(1) =~= b.skip(1).map(|i: int, x: u8| x as char));
            lemma_dec_value_map(b.skip(1));
            assert forall|i: int| 0 <= i < chars.skip(1).len() implies is_digit_char(
                #[trigger] chars.skip(1)[i],
            ) by {
                assert(is_digit(b.skip(1)[i]));
                assert(chars.skip(1)[i] == b[i + 1] as char);
                assert(b.skip(1)[i] == b[i + 1]);
            }
        } else {
            lemma_dec_value_map(b);
            assert forall|i: int| 0 <= i < chars.len() implies is_digit_char(
                #[trigger] chars[i],
            ) by {
                assert(is_digit(b[i]));
            }
        }
        assert(parseable_chars(chars));
    }
    if valid_utf8(b) && parseable_chars(decode_utf8(b)) {
        let chars = decode_utf8(b);
        assert forall|i: int| 0 <= i < chars.len() implies '\0' <= #[trigger] chars[i]
            <= '\u{7f}' by {
            if (chars[0] == '+' || chars[0] == '-') && i >= 1 {
                assert(is_digit_char(chars.skip(1)[i - 1]));
                assert(chars.skip(1)[i - 1] == chars[i]);
            } else if !(chars[0] == '+' || chars[0] == '-') {
                assert(is_digit_char(chars[i]));
            }
        }
        assert(is_ascii_chars(chars));
        is_ascii_chars_encode_utf8(chars);
        vstd::utf8::decode_utf8_encode_utf8(b);
        assert(chars.len() == b.len());
        assert forall|i: int| 0 <= i < b.len() implies #[trigger] b[i] == chars[i] as u8 by {
            assert(encode_utf8(chars)[i] == chars[i] as u8);
        }
        assert(parseable(b)) by {
            assert(b[0] == chars[0] as u8);
            if chars[0] == '+' || chars[0] == '-' {
                assert(b[0] == 0x2b || b[0] == 0x2d);
                assert forall|i: int| 0 <= i < b.skip(1).len() implies is_digit(
                    #[trigger] b.skip(1)[i],
                ) by {
                    assert(is_digit_char(chars.skip(1)[i]));
                    assert(chars.skip(1)[i] == chars[i + 1]);
                    assert(b.skip(1)[i] == b[i + 1]);
                    assert(b[i + 1] == chars[i + 1] as u8);
                }
            } else {
                assert(b[0] != 0x2b && b[0] != 0x2d) by {
                    assert(('+' as u8) == 0x2b && ('-' as u8) == 0x2d);
                }
                assert forall|i: int| 0 <= i < b.len() implies is_digit(#[trigger] b[i]) by {
                    assert(is_digit_char(chars[i]));
                }
            }
        }
    }
}

/// On all-digit bytes, the byte-level and character-level decimal values
/// agree.
proof fn lemma_dec_value_map(s: Seq<u8>)
    requires
        all_digits(s),
    ensures
        dec_value_chars(s.map(|i: int, x: u8| x as char)) == dec_value(s),
    decreases s.len(),
{
    let chars = s.map(|i: int, x: u8| x as char);
    if s.len() > 0 {
        assert(all_digits(s.drop_last())) by {
            assert(forall|i: int|
                0 <= i < s.len() - 1 ==> s.drop_last()[i] == #[trigger] s[i]);
        }
        lemma_dec_value_map(s.drop_last());
        assert(chars.drop_last() =~= s.drop_last().map(|i: int, x: u8| x as char));
        assert(chars.last() == s.last() as char);
    }
}

/// Relies on `core::str::from_utf8`: it succeeds exactly on valid UTF-8
/// input and returns the string of the decoded characters.
#[verifier::external_body]
pub(crate) fn bytes_to_str<'a>(v: &'a [u8]) -> (r: Result<&'a str, core::str::Utf8Error>)
    ensures
        r is Ok <==> valid_utf8(v@),
        r matches Ok(s) ==> s@ == decode_utf8(v@),
{
    core::str::from_utf8(v)
}

/// The successful outcome of a decimal parse, as a full `Result` value.
pub open spec fn parse_ok(v: int) -> Result<i64, core::num::ParseIntError> {
    Ok(v as i64)
}

/// Relies on `str::parse::<i64>` (`i64::from_str`): an optional leading
/// sign followed by one or more ASCII digits, and nothing else, parses to
/// its decimal value; every other string is rejected.  The length bound
/// keeps the value inside `i64`'s range.
#[verifier::external_body]
pub(crate) fn parse_i64(s: &str) -> (r: Result<i64, core::num::ParseIntError>)
    requires
        s@.len() <= 18,
    ensures
        parseable_chars(s@) ==> r == parse_ok(parsed_value_chars(s@)),
        !parseable_chars(s@) ==> r is Err,
{
    s.parse::<i64>()
}

/// `pow10` is monotone.
pub proof fn lemma_pow10_le(a: nat, b: nat)
    requires
        a <= b,
    ensures
        0 < pow10(a) <= pow10(b),
    decreases b,
{
    if b > 0 {
        if a == b {
            lemma_pow10_le((b - 1) as nat, (b - 1) as nat);
        } else {
            lemma_pow10_le(a, (b - 1) as nat);
        }
    }
}

/// The numeric value of `pow10(18)`, the largest power a decimal parse in
/// this crate can reach.
pub proof fn lemma_pow10_18()
    ensures
        pow10(18) == 1000000000000000000,
{
    assert(pow10(0) == 1);
    assert(pow10(1) == 10);
    assert(pow10(2) == 100);
    assert(pow10(3) == 1000);
    assert(pow10(4) == 10000);
    assert(pow10(5) == 100000);
    assert(pow10(6) == 1000000);
    assert(pow10(7) == 10000000);
    assert(pow10(8) == 100000000);
    assert(pow10(9) == 1000000000);
    assert(pow10(10) == 10000000000);
    assert(pow10(11) == 100000000000);
    assert(pow10(12) == 1000000000000);
    assert(pow10(13) == 10000000000000);
    assert(pow10(14) == 100000000000000);
    assert(pow10(15) == 1000000000000000);
    assert(pow10(16) == 10000000000000000);
    assert(pow10(17) == 100000000000000000);
    assert(pow10(18) == 1000000000000000000);
}

/// An accepted byte sequence of at most eighteen characters has a value
/// that fits comfortably inside `i64`.
pub proof fn lemma_parsed_value_bound(s: Seq<u8>)
    requires
        parseable(s),
        s.len() <= 18,
    ensures
        -1000000000000000000 < parsed_value(s) < 1000000000000000000,
{
    lemma_pow10_18();
    if s[0] == 0x2b || s[0] == 0x2d {
        lemma_dec_value_bound(s.skip(1));
        lemma_pow10_le(s.skip(1).len(), 18);
    } else {
        lemma_dec_value_bound(s);
        lemma_pow10_le(s.len(), 18);
    }
}

/// Parses a short byte sequence as a signed decimal integer, reporting a
/// UTF-8 failure and a numeric failure through their own error variants.
pub(crate) fn parse_decimal(digits: &Vec<u8>) -> (r: Result<i64, Error>)
    requires
        digits@.len() <= 18,
    ensures
        parseable(digits@) ==> (r matches Ok(v) && v == parsed_value(digits@)),
        !parseable(digits@) ==> {
            &&& r is Err
            &&& valid_utf8(digits@) ==> (r matches Err(Error::ParseLyrics3V2SizeInt(_)))
            &&& !valid_utf8(digits@) ==> (r matches Err(Error::ParseLyrics3V2SizeStr(_)))
        },
{
    proof {
        lemma_parse_bridge(digits@);
        if valid_utf8(digits@) {
            lemma_decode_len(digits@);
        }
        if parseable(digits@) {
            lemma_parsed_value_bound(digits@);
        }
    }
    match bytes_to_str(digits.as_slice()) {
        Err(e) => Err(Error::ParseLyrics3V2SizeStr(e)),
        Ok(s) => match parse_i64(s) {
            Err(e) => Err(Error::ParseLyrics3V2SizeInt(e)),
            Ok(v) => Ok(v),
        },
    }
}

/// The ASCII decimal digit bytes of `n`, most significant first.
pub open spec fn dec_bytes(n: nat) -> Seq<u8>
    decreases n,
{
    if n < 10 {
        seq![(0x30 + n) as u8]
    } else {
        dec_bytes(n / 10).push((0x30 + n % 10) as u8)
    }
}

/// The decimal digits of `n`, as characters.
pub open spec fn dec_chars(n: nat) -> Seq<char>
    decreases n,
{
    if n < 10 {
        seq![((0x30 + n) as u8) as char]
    } else {
        dec_chars(n / 10).push(((0x30 + n % 10) as u8) as char)
    }
}

/// Every decimal digit byte is an ASCII digit.
proof fn lemma_dec_bytes_range(n: nat)
    ensures
        dec_bytes(n).len() >= 1,
        forall|i: int|
            0 <= i < dec_bytes(n).len() ==> 0x30 <= #[trigger] dec_bytes(n)[i] <= 0x39,
    decreases n,
{
    if n >= 10 {
        lemma_dec_bytes_range(n / 10);
        assert forall|i: int|
            0 <= i < dec_bytes(n).len() implies 0x30 <= #[trigger] dec_bytes(n)[i] <= 0x39 by {
            if i < dec_bytes(n).len() - 1 {
                assert(dec_bytes(n)[i] == dec_bytes(n / 10)[i]);
            }
        }
    }
}

/// The digit bytes decode to the digit characters.
proof fn lemma_dec_bytes_chars(n: nat)
    ensures
        valid_utf8(dec_bytes(n)),
        decode_utf8(dec_bytes(n)) == dec_chars(n),
    decreases n,
{
    lemma_dec_bytes_range(n);
    lemma_ascii_bytes(dec_bytes(n));
    lemma_dec_chars_map(n);
}

/// The digit characters are the digit bytes read as characters.
proof fn lemma_dec_chars_map(n: nat)
    ensures
        dec_bytes(n).map(|i: int, x: u8| x as char) == dec_chars(n),
    decreases n,
{
    if n >= 10 {
        lemma_dec_chars_map(n / 10);
        assert(dec_bytes(n).map(|i: int, x: u8| x as char) =~= dec_bytes(n / 10).map(
            |i: int, x: u8| x as char,
        ).push(((0x30 + n % 10) as u8) as char));
    } else {
        assert(dec_bytes(n).map(|i: int, x: u8| x as char) =~= dec_chars(n));
    }
}

/// Formats a 32-bit integer in decimal.
pub(crate) fn u32_to_dec_string(x: u32) -> (r: String)
    ensures
        r@ == dec_chars(x as nat),
{
    let mut rev: Vec<u8> = Vec::new();
    if x == 0 {
        rev.push(0x30u8);
        proof {
            assert(rev@ =~= dec_bytes(0).reverse());
            assert(dec_bytes(0) =~= seq![0x30u8]);
        }
    } else {
        let mut tmp: u32 = x;
        while tmp > 0
            invariant
                0 <= tmp <= x,
                x > 0,
                tmp > 0 ==> dec_bytes(x as nat) == dec_bytes(tmp as nat) + rev@.reverse(),
                tmp == 0 ==> dec_bytes(x as nat) == rev@.reverse(),
            decreases tmp,
        {
            let ghost rev_old = rev@;
            let ghost t = tmp as nat;
            let d: u8 = 0x30 + (tmp % 10) as u8;
            rev.push(d);
            tmp = tmp / 10;
            proof {
                assert(rev@.reverse() =~= seq![d] + rev_old.reverse());
                if t >= 10 {
                    assert(dec_bytes(t) == dec_bytes(t / 10).push(d));
                    assert(dec_bytes(t / 10).push(d) + rev_old.reverse() =~= dec_bytes(t / 10)
                        + (seq![d] + rev_old.reverse()));
                } else {
                    assert(dec_bytes(t) =~= seq![d]);
                    assert(seq![d] + rev_old.reverse() =~= rev@.reverse());
                }
            }
        }
    }
    let n: usize = rev.len();
    let mut out: Vec<u8> = Vec::new();
    let mut j: usize = n;
    while j > 0
        invariant
            n == rev@.len(),
            0 <= j <= n,
            out@.len() == n - j,
            forall|k: int| 0 <= k < out@.len() ==> #[trigger] out@[k] == rev@[n - 1 - k],
        decreases j,
    {
        j -= 1;
        out.push(rev[j]);
    }
    proof {
        assert(out@ =~= rev@.reverse());
        assert(out@ == dec_bytes(x as nat));
        lemma_dec_bytes_chars(x as nat);
    }
    match bytes_to_str(out.as_slice()) {
        Ok(s) => <String as vstd::string::StringExecFns>::from_str(s),
        Err(_) => {
            proof {
                assert(false);
            }
            String::new()
        },
    }
}

/// ASCII lower-casing of one byte.
pub open spec fn fold_byte(b: u8) -> u8 {
    if 0x41 <= b <= 0x5a {
        (b + 0x20) as u8
    } else {
        b
    }
}

/// Byte sequences equal up to ASCII case.
pub open spec fn eq_ignore_case(a: Seq<u8>, b: Seq<u8>) -> bool {
    a.len() == b.len() && forall|i: int|
        0 <= i < a.len() ==> fold_byte(#[trigger] a[i]) == fold_byte(b[i])
}

/// Two keys match when their UTF-8 bytes are equal up to ASCII case.
pub open spec fn keys_match(a: Seq<char>, b: Seq<char>) -> bool {
    eq_ignore_case(encode_utf8(a), encode_utf8(b))
}

/// Compares two strings byte by byte, ignoring ASCII case.
pub(crate) fn str_eq_ignore_case(a: &str, b: &str) -> (r: bool)
    ensures
        r == keys_match(a@, b@),
{
    let ab = a.as_bytes();
    let bb = b.as_bytes();
    if ab.len() != bb.len() {
        return false;
    }
    let mut i: usize = 0;
    while i < ab.len()
        invariant
            ab@ == a.spec_bytes(),
            bb@ == b.spec_bytes(),
            ab@.len() == bb@.len(),
            0 <= i <= ab@.len(),
            forall|j: int| 0 <= j < i ==> fold_byte(#[trigger] ab@[j]) == fold_byte(bb@[j]),
        decreases ab@.len() - i,
    {
        let x = ab[i];
        let y = bb[i];
        let fx = if 0x41 <= x && x <= 0x5a {
            x + 0x20
        } else {
            x
        };
        let fy = if 0x41 <= y && y <= 0x5a {
            y + 0x20
        } else {
            y
        };
        if fx != fy {
            return false;
        }
        i += 1;
    }
    true
}

} // verus!
