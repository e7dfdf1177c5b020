//! Bytes and characters: ASCII classes, trimming, case and decimal numbers.

use vstd::prelude::*;
use vstd::string::*;
use vstd::utf8::*;

verus! {

/// The space character.
pub const SP: u8 = 32;

/// Whether `b` is ASCII whitespace: space, tab, line feed, form feed or
/// carriage return.
pub open spec fn is_ascii_whitespace(b: u8) -> bool {
    b == 32 || b == 9 || b == 10 || b == 12 || b == 13
}

/// `s` without its leading ASCII whitespace.
pub open spec fn trim_start(s: Seq<u8>) -> Seq<u8>
    decreases s.len(),
{
    if s.len() > 0 && is_ascii_whitespace(s[0]) {
        trim_start(s.skip(1))
    } else {
        s
    }
}

/// `s` without its trailing ASCII whitespace.
pub open spec fn trim_end(s: Seq<u8>) -> Seq<u8>
    decreases s.len(),
{
    if s.len() > 0 && is_ascii_whitespace(s.last()) {
        trim_end(s.drop_last())
    } else {
        s
    }
}

/// `s` without leading and trailing ASCII whitespace.
pub open spec fn trim_ascii(s: Seq<u8>) -> Seq<u8> {
    trim_end(trim_start(s))
}

/// Tests one byte for ASCII whitespace.
pub fn is_whitespace(b: u8) -> (r: bool)
    ensures
        r == is_ascii_whitespace(b),
{
    b == 32 || b == 9 || b == 10 || b == 12 || b == 13
}

proof fn lemma_trim_start_skips(s: Seq<u8>, k: int)
    requires
        0 <= k <= s.len(),
        forall|j: int| 0 <= j < k ==> is_ascii_whitespace(s[j]),
    ensures
        trim_start(s) == trim_start(s.skip(k)),
    decreases k,
{
    if k > 0 {
        assert(s.skip(1).skip(k - 1) =~= s.skip(k));
        lemma_trim_start_skips(s.skip(1), k - 1);
    } else {
        assert(s.skip(0) =~= s);
    }
}

proof fn lemma_trim_end_takes(s: Seq<u8>, k: int)
    requires
        0 <= k <= s.len(),
        forall|j: int| k <= j < s.len() ==> is_ascii_whitespace(s[j]),
    ensures
        trim_end(s) == trim_end(s.take(k)),
    decreases s.len() - k,
{
    if k < s.len() {
        assert(s.drop_last().take(k) =~= s.take(k));
        lemma_trim_end_takes(s.drop_last(), k);
    } else {
        assert(s.take(k) =~= s);
    }
}

/// The part of `data` between its leading and trailing ASCII whitespace.
pub fn trim_ascii_bytes(data: &[u8]) -> (r: &[u8])
    ensures
        r@ == trim_ascii(data@),
{
    let n = data.len();
    let mut start: usize = 0;
    while start < n && is_whitespace(data[start])
        invariant
            n == data@.len(),
            start <= n,
            forall|j: int| 0 <= j < start ==> is_ascii_whitespace(data@[j]),
        decreases n - start,
    {
        start = start + 1;
    }
    let mut end: usize = n;
    while end > start && is_whitespace(data[end - 1])
        invariant
            n == data@.len(),
            start <= end <= n,
            forall|j: int| end <= j < n ==> is_ascii_whitespace(data@[j]),
        decreases end,
    {
        end = end - 1;
    }
    proof {
        let front = data@.skip(start as int);
        lemma_trim_start_skips(data@, start as int);
        assert(trim_start(data@) == front);
        assert forall|j: int| end - start <= j < front.len() implies is_ascii_whitespace(
            front[j],
        ) by {
            assert(front[j] == data@[j + start]);
        }
        lemma_trim_end_takes(front, end - start);
        assert(front.take(end - start) =~= data@.subrange(start as int, end as int));
        if end > start {
            assert(front.take(end - start).last() == data@[end - 1]);
        }
    }
    &data[start..end]
}

/// Whether every byte of `bytes` is an ASCII character.
pub open spec fn all_ascii(bytes: Seq<u8>) -> bool {
    forall|i: int| 0 <= i < bytes.len() ==> bytes[i] < 128
}

/// The characters that ASCII `bytes` stand for, one per byte.
pub open spec fn ascii_text(bytes: Seq<u8>) -> Seq<char> {
    Seq::new(bytes.len(), |i: int| bytes[i] as char)
}

/// ASCII bytes are well-formed UTF-8 and decode to one character per byte.
pub proof fn lemma_ascii_decodes(bytes: Seq<u8>)
    requires
        all_ascii(bytes),
    ensures
        valid_utf8(bytes),
        decode_utf8(bytes) == ascii_text(bytes),
        is_ascii_chars(ascii_text(bytes)),
{
    let cs = ascii_text(bytes);
    assert(is_ascii_chars(cs));
    is_ascii_chars_encode_utf8(cs);
    assert(encode_utf8(cs) =~= bytes);
    encode_utf8_valid_utf8(cs);
    encode_utf8_decode_utf8(cs);
}

/// The text that lossy UTF-8 decoding makes of `bytes`: each ill-formed
/// sequence is replaced by U+FFFD.
pub uninterp spec fn utf8_lossy(bytes: Seq<u8>) -> Seq<char>;

/// Decodes `bytes` with `String::from_utf8_lossy`. The result is the lossy
/// decoding of the bytes; for well-formed UTF-8 that is the decoded text
/// itself, with nothing replaced.
#[verifier::external_body]
fn decode_utf8_lossy(bytes: &[u8]) -> (r: String)
    ensures
        r@ == utf8_lossy(bytes@),
        valid_utf8(bytes@) ==> r@ == decode_utf8(bytes@),
{
    String::from_utf8_lossy(bytes).into_owned()
}

/// The text that `bytes` stand for: what they decode to where they are
/// well-formed UTF-8, and their lossy decoding where they are not.
pub open spec fn lossy_text(bytes: Seq<u8>) -> Seq<char> {
    if valid_utf8(bytes) {
        decode_utf8(bytes)
    } else {
        utf8_lossy(bytes)
    }
}

/// Decodes `bytes` to text, replacing what is ill-formed.
pub fn decode_text(bytes: &[u8]) -> (r: String)
    ensures
        r@ == lossy_text(bytes@),
{
    decode_utf8_lossy(bytes)
}

/// The lower-case form of an ASCII letter; any other byte unchanged.
pub open spec fn lower_byte(b: u8) -> u8 {
    if 65 <= b <= 90 {
        (b + 32) as u8
    } else {
        b
    }
}

/// The lower-case form of an ASCII letter; any other character unchanged.
pub open spec fn lower_char(c: char) -> char {
    if 'A' <= c <= 'Z' {
        lower_byte(c as u8) as char
    } else {
        c
    }
}

/// The Unicode lower-case mapping of a text.
pub uninterp spec fn unicode_lowercase(text: Seq<char>) -> Seq<char>;

/// Lower-cases `text` with `str::to_lowercase`, which follows the Unicode
/// lower-case mapping.
#[verifier::external_body]
fn to_unicode_lowercase(text: &str) -> (r: String)
    ensures
        r@ == unicode_lowercase(text@),
{
    text.to_lowercase()
}

/// The form under which a header name is stored and looked up: lower case.
/// An ASCII name has each letter mapped to its lower-case form; any other
/// name goes through the Unicode lower-case mapping.
pub open spec fn normalized_name(name: Seq<char>) -> Seq<char> {
    if is_ascii_chars(name) {
        name.map_values(|c: char| lower_char(c))
    } else {
        unicode_lowercase(name)
    }
}

/// Brings a header name into its stored form.
pub fn normalize_name(name: &str) -> (r: String)
    ensures
        r@ == normalized_name(name@),
{
    if name.is_ascii() {
        let bytes = name.as_bytes();
        let n = bytes.len();
        proof {
            is_ascii_spec_bytes(name);
        }
        let mut lowered: Vec<u8> = Vec::with_capacity(n);
        let mut i: usize = 0;
        while i < n
            invariant
                n == bytes@.len(),
                i <= n,
                lowered@.len() == i,
                forall|j: int| 0 <= j < i ==> lowered@[j] == lower_byte(bytes@[j]),
            decreases n - i,
        {
            let b = bytes[i];
            if 65 <= b && b <= 90 {
                lowered.push(b + 32);
            } else {
                lowered.push(b);
            }
            i = i + 1;
        }
        let r = decode_text(lowered.as_slice());
        proof {
            assert(all_ascii(lowered@)) by {
                assert forall|j: int| 0 <= j < lowered@.len() implies lowered@[j] < 128 by {
                    assert(bytes@[j] == name@[j] as u8);
                }
            }
            lemma_ascii_decodes(lowered@);
            assert(ascii_text(lowered@) =~= normalized_name(name@)) by {
                assert forall|j: int| 0 <= j < lowered@.len() implies ascii_text(lowered@)[j]
                    == lower_char(name@[j]) by {
                    assert(bytes@[j] == name@[j] as u8);
                }
            }
        }
        r
    } else {
        to_unicode_lowercase(name)
    }
}

/// Whether `c` is a decimal digit.
pub open spec fn is_digit(c: char) -> bool {
    '0' <= c <= '9'
}

/// Whether `text` consists of decimal digits only.
pub open spec fn all_digits(text: Seq<char>) -> bool {
    forall|i: int| 0 <= i < text.len() ==> is_digit(#[trigger] text[i])
}

/// The number that a sequence of decimal digits denotes.
pub open spec fn digits_value(digits: Seq<char>) -> nat
    decreases digits.len(),
{
    if digits.len() == 0 {
        0
    } else {
        (digits_value(digits.drop_last()) * 10 + (digits.last() as nat - '0' as nat)) as nat
    }
}

/// `text` without the single `+` that may lead it.
pub open spec fn unsigned_part(text: Seq<char>) -> Seq<char> {
    if text.len() > 0 && text[0] == '+' {
        text.skip(1)
    } else {
        text
    }
}

/// The non-negative integer that `text` denotes in decimal notation: one or
/// more digits, which a single `+` may precede. Anything else denotes none.
pub open spec fn decimal_value(text: Seq<char>) -> Option<nat> {
    let digits = unsigned_part(text);
    if digits.len() > 0 && all_digits(digits) {
        Some(digits_value(digits))
    } else {
        None
    }
}

/// The value of `text` as a `usize`: its decimal value, where it has one
/// that fits the type.
pub open spec fn usize_value(text: Seq<char>) -> Option<usize> {
    if decimal_value(text) is Some && decimal_value(text).unwrap() <= usize::MAX {
        Some(decimal_value(text).unwrap() as usize)
    } else {
        None
    }
}

proof fn lemma_digits_value_grows(digits: Seq<char>, k: int)
    requires
        0 <= k <= digits.len(),
        all_digits(digits),
    ensures
        digits_value(digits.take(k)) <= digits_value(digits),
    decreases digits.len() - k,
{
    if k < digits.len() {
        let shorter = digits.drop_last();
        assert(all_digits(shorter)) by {
            assert forall|i: int| 0 <= i < shorter.len() implies is_digit(
                #[trigger] shorter[i],
            ) by {
                assert(is_digit(digits[i]));
            }
        }
        lemma_digits_value_grows(shorter, k);
        assert(shorter.take(k) =~= digits.take(k));
        assert(is_digit(digits.last()));
    } else {
        assert(digits.take(k) =~= digits);
    }
}

proof fn lemma_decimal_is_ascii(text: Seq<char>)
    requires
        decimal_value(text) is Some,
    ensures
        is_ascii_chars(text),
{
    let digits = unsigned_part(text);
    assert forall|i: int| 0 <= i < text.len() implies '\0' <= #[trigger] text[i] <= '\u{7f}' by {
        if digits.len() < text.len() {
            if i > 0 {
                assert(is_digit(digits[i - 1]));
            }
        } else {
            assert(is_digit(digits[i]));
        }
    }
}

/// Reads `text` as a decimal `usize`.
pub fn parse_usize(text: &str) -> (r: Option<usize>)
    ensures
        r == usize_value(text@),
{
    if !text.is_ascii() {
        proof {
            if decimal_value(text@) is Some {
                lemma_decimal_is_ascii(text@);
            }
        }
        return None;
    }
    let bytes = text.as_bytes();
    let n = bytes.len();
    proof {
        is_ascii_spec_bytes(text);
    }
    let start: usize = if n > 0 && bytes[0] == 43 {
        1
    } else {
        0
    };
    let ghost digits = unsigned_part(text@);
    assert(digits == text@.skip(start as int)) by {
        if n > 0 {
            assert(bytes@[0] == text@[0] as u8);
        }
        assert(text@.skip(0) =~= text@);
    }
    if start == n {
        return None;
    }
    let mut value: usize = 0;
    let mut i: usize = start;
    while i < n
        invariant
            n == bytes@.len(),
            n == text@.len(),
            start <= i <= n,
            digits == text@.skip(start as int),
            digits == unsigned_part(text@),
            digits.len() == n - start,
            digits.len() > 0,
            forall|j: int| 0 <= j < n ==> bytes@[j] == text@[j] as u8,
            is_ascii_chars(text@),
            all_digits(digits.take(i - start)),
            value == digits_value(digits.take(i - start)),
        decreases n - i,
    {
        let b = bytes[i];
        let ghost c = digits[i - start];
        assert(c == text@[i as int]);
        assert(b == c as u8);
        if b < 48 || b > 57 {
            assert(!is_digit(c));
            return None;
        }
        let d: usize = (b - 48) as usize;
        let ghost longer = digits.take(i - start + 1);
        proof {
            assert(longer.drop_last() =~= digits.take(i - start));
            assert(longer.last() == c);
            assert(digits_value(longer) == value * 10 + d);
            assert(all_digits(longer)) by {
                assert forall|j: int| 0 <= j < longer.len() implies is_digit(
                    #[trigger] longer[j],
                ) by {
                    if j < i - start {
                        assert(is_digit(digits.take(i - start)[j]));
                    }
                }
            }
        }
        let grown = match value.checked_mul(10) {
            Some(tens) => tens.checked_add(d),
            None => None,
        };
        match grown {
            Some(v) => {
                value = v;
            },
            None => {
                proof {
                    assert(digits_value(longer) > usize::MAX);
                    if all_digits(digits) {
                        lemma_digits_value_grows(digits, i - start + 1);
                    }
                }
                return None;
            },
        }
        i = i + 1;
    }
    proof {
        assert(digits.take(i - start) =~= digits);
    }
    Some(value)
}

} // verus!
