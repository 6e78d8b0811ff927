//! Decoding undoes encoding: a value in canonical form is read back from its
//! encoding as it was, whatever follows the encoding; and what decoding gives
//! is in canonical form.

use vstd::prelude::*;
use crate::decimal::{
    decimal_of, digits_of, is_digit, lemma_decimal_of_bytes, lemma_digits_of_shape,
    lemma_parse_signed_decimal_of, lemma_parse_unsigned_digits_of,
};
use crate::dict_laws::lemma_insert_wf;
use crate::lex::{lemma_lex_asymmetric, lex_lt};
use crate::term::{
    decode_entries, decode_int, decode_string, decode_term, dict_insert, encode_bytes,
    encode_entries, encode_int, encode_term, find_byte, insert_point, keys_sorted,
    lemma_find_byte, term_wf, BencodeTerm,
};

verus! {

/// Where `s` holds `b` at `k` and at no position from `from` up to `k`,
/// `find_byte` gives `k`.
pub proof fn lemma_find_byte_at(s: Seq<u8>, b: u8, from: int, k: int)
    requires
        0 <= from <= k < s.len(),
        s[k] == b,
        forall|j: int| from <= j < k ==> s[j] != b,
    ensures
        find_byte(s, b, from) == k,
    decreases k - from,
{
    if from < k {
        lemma_find_byte_at(s, b, from + 1, k);
    }
}

/// A byte string is read back from its encoding.
pub proof fn lemma_decode_string_encode(s: Seq<u8>, rest: Seq<u8>)
    requires
        s.len() <= usize::MAX,
    ensures
        decode_string(encode_bytes(s) + rest) == Some((s, encode_bytes(s).len())),
        is_digit((encode_bytes(s) + rest)[0]),
        encode_bytes(s).len() >= 2,
{
    let d = digits_of(s.len());
    lemma_digits_of_shape(s.len());
    let data = encode_bytes(s) + rest;
    let c = d.len() as int;
    assert(data[0] == d[0]);
    assert forall|j: int| 0 <= j < c implies data[j] != 58 by {
        assert(data[j] == d[j]);
        assert(is_digit(d[j]));
    }
    assert(data[c] == 58);
    lemma_find_byte_at(data, 58, 0, c);
    assert(data.subrange(0, c) =~= d);
    lemma_parse_unsigned_digits_of(s.len(), usize::MAX as nat);
    assert(data.subrange(c + 1, c + 1 + s.len()) =~= s);
}

/// An integer is read back from its encoding.
pub proof fn lemma_decode_int_encode(i: int, rest: Seq<u8>)
    requires
        i64::MIN <= i <= i64::MAX,
    ensures
        decode_int(encode_int(i) + rest) == Some((BencodeTerm::Int(i), encode_int(i).len())),
        (encode_int(i) + rest)[0] == 105,
{
    let d = decimal_of(i);
    lemma_decimal_of_bytes(i);
    let data = encode_int(i) + rest;
    let e = (d.len() + 1) as int;
    assert forall|j: int| 0 <= j < e implies data[j] != 101 by {
        if j > 0 {
            assert(data[j] == d[j - 1]);
            assert(is_digit(d[j - 1]) || d[j - 1] == 45);
        }
    }
    assert(data[e] == 101);
    lemma_find_byte_at(data, 101, 0, e);
    assert(data.subrange(1, e) =~= d);
    lemma_parse_signed_decimal_of(i);
}

/// The encoding of a sequence of entries starts with its first entry.
pub proof fn lemma_encode_entries_front(es: Seq<(Seq<u8>, BencodeTerm)>)
    requires
        es.len() > 0,
    ensures
        encode_entries(es) == encode_bytes(es[0].0) + encode_term(es[0].1) + encode_entries(
            es.skip(1),
        ),
    decreases es.len(),
{
    let tail = es.skip(1);
    if es.len() == 1 {
        assert(es.drop_last() =~= Seq::<(Seq<u8>, BencodeTerm)>::empty());
        assert(tail =~= Seq::<(Seq<u8>, BencodeTerm)>::empty());
        assert(encode_entries(es.drop_last()) =~= Seq::<u8>::empty());
        assert(encode_entries(tail) =~= Seq::<u8>::empty());
        assert(es.last() == es[0]);
        assert(encode_entries(es) =~= encode_bytes(es[0].0) + encode_term(es[0].1)
            + encode_entries(tail));
    } else {
        let front = es.drop_last();
        lemma_encode_entries_front(front);
        assert(front[0] == es[0]);
        assert(front.skip(1) =~= tail.drop_last());
        assert(tail.last() == es.last());
        assert(encode_entries(tail) == encode_entries(tail.drop_last()) + encode_bytes(
            es.last().0,
        ) + encode_term(es.last().1));
        assert(encode_entries(es) =~= encode_bytes(es[0].0) + encode_term(es[0].1)
            + encode_entries(tail));
    }
}

/// A value in canonical form is read back from its encoding as it was, with
/// the length of the encoding as the number of bytes read, whatever bytes
/// follow the encoding.
pub proof fn lemma_decode_encode(t: BencodeTerm, rest: Seq<u8>)
    requires
        term_wf(t),
    ensures
        decode_term(encode_term(t) + rest) == Some((t, encode_term(t).len())),
    decreases t,
{
    let data = encode_term(t) + rest;
    match t {
        BencodeTerm::String(s) => {
            lemma_decode_string_encode(s, rest);
        },
        BencodeTerm::Int(i) => {
            lemma_decode_int_encode(i, rest);
        },
        BencodeTerm::Dict(es) => {
            let none = Seq::<(Seq<u8>, BencodeTerm)>::empty();
            assert(data[0] == 100);
            assert(data.skip(1) =~= encode_entries(es) + seq![101u8] + rest);
            assert(none + es =~= es);
            lemma_decode_entries_encode(data, 1, none, es, rest);
        },
    }
}

/// The entries of a dictionary in canonical form are read back from their
/// encoding, each going behind those read before it.
pub proof fn lemma_decode_entries_encode(
    data: Seq<u8>,
    pos: nat,
    acc: Seq<(Seq<u8>, BencodeTerm)>,
    es: Seq<(Seq<u8>, BencodeTerm)>,
    rest: Seq<u8>,
)
    requires
        pos <= data.len(),
        data.skip(pos as int) == encode_entries(es) + seq![101u8] + rest,
        keys_sorted(acc + es),
        forall|i: int| 0 <= i < es.len() ==> (#[trigger] es[i]).0.len() <= usize::MAX,
        forall|i: int| 0 <= i < es.len() ==> term_wf((#[trigger] es[i]).1),
    ensures
        decode_entries(data, pos, acc) == Some(
            (acc + es, (pos + encode_entries(es).len() + 1) as nat),
        ),
    decreases es,
{
    let suffix = data.skip(pos as int);
    if es.len() == 0 {
        assert(suffix[0] == 101);
        assert(acc + es =~= acc);
    } else {
        let k = es[0].0;
        let v = es[0].1;
        let tail = es.skip(1);
        let after = encode_entries(tail) + seq![101u8] + rest;
        lemma_encode_entries_front(es);
        assert(suffix =~= encode_bytes(k) + (encode_term(v) + after));
        lemma_decode_string_encode(k, encode_term(v) + after);
        assert(data[pos as int] == suffix[0]);
        let klen = encode_bytes(k).len();
        let vlen = encode_term(v).len();
        assert(suffix.len() == data.len() - pos);
        assert(suffix.len() == klen + vlen + after.len());
        assert(data.skip((pos + klen) as int) =~= suffix.skip(klen as int));
        assert(suffix.skip(klen as int) =~= encode_term(v) + after);
        lemma_decode_encode(v, after);
        assert(data.skip((pos + klen + vlen) as int) =~= suffix.skip((klen + vlen) as int));
        assert(suffix.skip((klen + vlen) as int) =~= after);
        let all = acc + es;
        if acc.len() > 0 {
            assert(all[acc.len() - 1] == acc.last());
            assert(all[acc.len() as int] == es[0]);
            assert(lex_lt(all[acc.len() - 1].0, all[acc.len() as int].0));
            lemma_lex_asymmetric(acc.last().0, k);
        }
        assert(insert_point(acc, k) == acc.len());
        assert(dict_insert(acc, k, v) =~= acc.push((k, v)));
        let next = acc.push((k, v));
        assert(next + tail =~= acc + es);
        assert forall|i: int| 0 <= i < tail.len() implies (#[trigger] tail[i]).0.len()
            <= usize::MAX by {
            assert(tail[i] == es[i + 1]);
        }
        assert forall|i: int| 0 <= i < tail.len() implies term_wf((#[trigger] tail[i]).1) by {
            assert(tail[i] == es[i + 1]);
        }
        lemma_decode_entries_encode(data, pos + klen + vlen, next, tail, rest);
    }
}

/// A value in canonical form is what its encoding decodes to, and decoding
/// reads the whole encoding.
pub proof fn lemma_decode_encode_exact(t: BencodeTerm)
    requires
        term_wf(t),
    ensures
        decode_term(encode_term(t)) == Some((t, encode_term(t).len())),
{
    lemma_decode_encode(t, Seq::empty());
    assert(encode_term(t) + Seq::<u8>::empty() =~= encode_term(t));
}

/// What decoding gives is in canonical form, and decoding reads at least one
/// byte and no more than there are.
pub proof fn lemma_decode_wf(data: Seq<u8>)
    ensures
        decode_term(data) matches Some((t, n)) ==> term_wf(t) && 1 <= n <= data.len(),
    decreases data.len(), 1nat,
{
    if data.len() > 0 {
        if data[0] == 105 {
            lemma_find_byte(data, 101u8, 0);
        } else if data[0] == 100 {
            lemma_decode_entries_wf(data, 1, Seq::empty());
        } else if is_digit(data[0]) {
            lemma_find_byte(data, 58u8, 0);
        }
    }
}

/// The entries that decoding gives are in canonical form where those read
/// before them are, and the closing `e` lies behind `pos`.
pub proof fn lemma_decode_entries_wf(data: Seq<u8>, pos: nat, acc: Seq<(Seq<u8>, BencodeTerm)>)
    requires
        term_wf(BencodeTerm::Dict(acc)),
    ensures
        decode_entries(data, pos, acc) matches Some((es, n)) ==> term_wf(BencodeTerm::Dict(es))
            && pos < n <= data.len(),
    decreases
        (if pos <= data.len() {
            data.len() - pos
        } else {
            0
        }),
        0nat,
{
    if pos < data.len() && data[pos as int] != 101 && is_digit(data[pos as int]) {
        let suffix = data.skip(pos as int);
        lemma_find_byte(suffix, 58u8, 0);
        match decode_string(suffix) {
            None => {},
            Some((key, klen)) => {
                let after = data.skip((pos + klen) as int);
                lemma_decode_wf(after);
                match decode_term(after) {
                    None => {},
                    Some((value, vlen)) => {
                        let next = dict_insert(acc, key, value);
                        lemma_insert_wf(acc, key, value);
                        lemma_decode_entries_wf(data, pos + klen + vlen, next);
                    },
                }
            },
        }
    }
}

} // verus!
