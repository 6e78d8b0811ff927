//! Operations on text that the standard library performs.

use vstd::prelude::*;
use vstd::string::StringSliceAdditionalSpecFns;
use vstd::utf8::{
    decode_utf8, encode_utf8, encode_utf8_decode_utf8, encode_utf8_valid_utf8,
    is_ascii_chars, is_ascii_chars_encode_utf8, valid_utf8,
};
use crate::decimal::{digits_of, format_u64, is_digit, lemma_digits_of_shape};
use crate::lex::bytes_eq;

verus! {

/// Whether `needle` occurs in `hay` as a run of consecutive characters.
pub open spec fn occurs_in(needle: Seq<char>, hay: Seq<char>) -> bool {
    exists|i: int|
        0 <= i && i + needle.len() <= hay.len() && #[trigger] hay.subrange(i, i + needle.len())
            == needle
}

/// Whether two string slices hold the same characters, which is whether
/// they hold the same bytes.
pub fn str_eq(a: &str, b: &str) -> (r: bool)
    ensures
        r == (a@ == b@),
{
    let r = bytes_eq(a.as_bytes(), b.as_bytes());
    proof {
        encode_utf8_decode_utf8(a@);
        encode_utf8_decode_utf8(b@);
    }
    r
}

/// Calls `str::contains` of the standard library with a string slice as the
/// pattern. Trusted: the result says whether the pattern occurs in the text
/// as a run of consecutive characters.
#[verifier::external_body]
pub(crate) fn str_contains(hay: &str, needle: &str) -> (r: bool)
    ensures
        r == occurs_in(needle@, hay@),
{
    hay.contains(needle)
}

/// The text `s` with every occurrence of `from` replaced by `to`, the
/// occurrences taken from left to right and not overlapping.
pub open spec fn replace_all(s: Seq<char>, from: Seq<char>, to: Seq<char>) -> Seq<char>
    decreases s.len(),
{
    if from.len() == 0 || s.len() < from.len() {
        s
    } else if s.subrange(0, from.len() as int) == from {
        to + replace_all(s.skip(from.len() as int), from, to)
    } else {
        seq![s[0]] + replace_all(s.skip(1), from, to)
    }
}

/// The decimal digits of `n` as characters.
pub open spec fn decimal_text(n: nat) -> Seq<char> {
    Seq::new(digits_of(n).len(), |i: int| digits_of(n)[i] as char)
}

/// Calls `str::replace` of the standard library with a string slice as the
/// pattern. Trusted: every match of the pattern, found from left to right
/// without overlap, is replaced, and the rest of the text is kept.
#[verifier::external_body]
pub(crate) fn str_replace(text: &str, from: &str, to: &str) -> (r: String)
    requires
        from@.len() > 0,
    ensures
        r@ == replace_all(text@, from@, to@),
{
    text.replace(from, to)
}

/// The text `s` in lower case, as the standard library converts it.
pub uninterp spec fn lowercase_of(s: Seq<char>) -> Seq<char>;

/// Calls `str::to_lowercase` of the standard library. Trusted: the result
/// depends on the text alone.
#[verifier::external_body]
pub(crate) fn to_lowercase(text: &str) -> (r: String)
    ensures
        r@ == lowercase_of(text@),
{
    text.to_lowercase()
}

/// The words of `s`: its runs of characters that are not white space, in
/// order, as the standard library splits them.
pub uninterp spec fn words_of(s: Seq<char>) -> Seq<Seq<char>>;

/// The texts of a list as mathematical values.
pub open spec fn texts_view(list: Seq<String>) -> Seq<Seq<char>> {
    Seq::new(list.len(), |i: int| list[i]@)
}

/// Calls `str::split_whitespace` of the standard library and collects the
/// words. Trusted: the words depend on the text alone.
#[verifier::external_body]
pub(crate) fn split_words(text: &str) -> (r: Vec<String>)
    ensures
        texts_view(r@) == words_of(text@),
{
    text.split_whitespace().map(str::to_owned).collect()
}

/// Calls `std::str::from_utf8`. Trusted: the bytes are accepted exactly when
/// they are well-formed UTF-8, and the text is then what they encode.
#[verifier::external_body]
pub(crate) fn utf8_text(bytes: &[u8]) -> (r: Option<String>)
    ensures
        r is Some <==> valid_utf8(bytes@),
        r matches Some(s) ==> s@ == decode_utf8(bytes@),
{
    match std::str::from_utf8(bytes) {
        Ok(s) => Some(s.to_owned()),
        Err(_) => None,
    }
}

/// The decimal digits of a number are text, and as text they are the digits
/// as characters.
pub proof fn lemma_decimal_text(n: nat)
    ensures
        valid_utf8(digits_of(n)),
        decode_utf8(digits_of(n)) == decimal_text(n),
{
    let chars = decimal_text(n);
    lemma_digits_of_shape(n);
    assert forall|i: int| 0 <= i < chars.len() implies '\0' <= #[trigger] chars[i] <= '\u{7f}' by {
        assert(is_digit(digits_of(n)[i]));
    }
    assert(is_ascii_chars(chars));
    is_ascii_chars_encode_utf8(chars);
    assert forall|i: int| 0 <= i < chars.len() implies encode_utf8(chars)[i] == digits_of(n)[i] by {
        assert(chars[i] as u8 == encode_utf8(chars)[i]);
        assert(is_digit(digits_of(n)[i]));
    }
    assert(encode_utf8(chars) =~= digits_of(n));
    encode_utf8_valid_utf8(chars);
    encode_utf8_decode_utf8(chars);
}

/// The decimal digits of `n` as text, without a sign or leading zeros.
pub fn decimal_string(n: u64) -> (r: String)
    ensures
        r@ == decimal_text(n as nat),
{
    let digits: Vec<u8> = format_u64(n);
    proof {
        lemma_decimal_text(n as nat);
    }
    match utf8_text(digits.as_slice()) {
        Some(text) => text,
        None => String::new(),
    }
}

} // verus!
