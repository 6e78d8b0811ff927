//! The mathematical model of bencoded data: what a value is, what its
//! encoding is, and what a sequence of bytes decodes to.

use vstd::prelude::*;
use crate::decimal::{decimal_of, digits_of, is_digit, parse_signed, parse_unsigned};
use crate::lex::lex_lt;

verus! {

/// A bencoded value as a mathematical object. A dictionary is the sequence of
/// its entries, each a key and a value, in the order in which they are written.
pub enum BencodeTerm {
    String(Seq<u8>),
    Int(int),
    Dict(Seq<(Seq<u8>, BencodeTerm)>),
}

/// The byte `i`, which opens an integer.
pub const INT_START: u8 = 105;

/// The byte `d`, which opens a dictionary.
pub const DICT_START: u8 = 100;

/// The byte `e`, which closes an integer or a dictionary.
pub const END: u8 = 101;

/// The byte `:`, which stands between the length of a string and its bytes.
pub const COLON: u8 = 58;

/// The encoding of a byte string: its length in decimal, a colon, the bytes.
pub open spec fn encode_bytes(s: Seq<u8>) -> Seq<u8> {
    digits_of(s.len()) + seq![58u8] + s
}

/// The encoding of an integer: `i`, its decimal text, `e`.
pub open spec fn encode_int(i: int) -> Seq<u8> {
    seq![105u8] + decimal_of(i) + seq![101u8]
}

/// The encoding of a value. A dictionary is `d`, its entries one after the
/// other, `e`.
pub open spec fn encode_term(t: BencodeTerm) -> Seq<u8>
    decreases t,
{
    match t {
        BencodeTerm::String(s) => encode_bytes(s),
        BencodeTerm::Int(i) => encode_int(i),
        BencodeTerm::Dict(es) => seq![100u8] + encode_entries(es) + seq![101u8],
    }
}

/// The encoding of a sequence of entries: for each in turn, the key as a byte
/// string and then the value.
pub open spec fn encode_entries(es: Seq<(Seq<u8>, BencodeTerm)>) -> Seq<u8>
    decreases es,
{
    if es.len() == 0 {
        Seq::<u8>::empty()
    } else {
        encode_entries(es.drop_last()) + encode_bytes(es.last().0) + encode_term(es.last().1)
    }
}

/// Whether the keys of `es` stand in strictly increasing lexicographic order.
pub open spec fn keys_sorted(es: Seq<(Seq<u8>, BencodeTerm)>) -> bool {
    forall|i: int, j: int| 0 <= i < j < es.len() ==> lex_lt(#[trigger] es[i].0, #[trigger] es[j].0)
}

/// A value that the executable types can hold and that is in canonical form:
/// integers fit 64 bits, lengths fit the machine word, and in every
/// dictionary the keys are strictly increasing.
pub open spec fn term_wf(t: BencodeTerm) -> bool
    decreases t,
{
    match t {
        BencodeTerm::String(s) => s.len() <= usize::MAX,
        BencodeTerm::Int(i) => i64::MIN <= i <= i64::MAX,
        BencodeTerm::Dict(es) => {
            &&& keys_sorted(es)
            &&& forall|i: int| 0 <= i < es.len() ==> (#[trigger] es[i]).0.len() <= usize::MAX
            &&& forall|i: int| 0 <= i < es.len() ==> term_wf((#[trigger] es[i]).1)
        },
    }
}

/// Where in `es` an entry with the key `k` belongs: behind the last entry
/// whose key is `k` or comes before `k`.
pub open spec fn insert_point(es: Seq<(Seq<u8>, BencodeTerm)>, k: Seq<u8>) -> int
    decreases es.len(),
{
    if es.len() == 0 {
        0
    } else if es.last().0 == k || lex_lt(es.last().0, k) {
        es.len() as int
    } else {
        insert_point(es.drop_last(), k)
    }
}

/// The dictionary `es` after `k` is given the value `v`: an entry with that
/// key is replaced, and a new key goes between the smaller keys and the
/// greater ones.
pub open spec fn dict_insert(es: Seq<(Seq<u8>, BencodeTerm)>, k: Seq<u8>, v: BencodeTerm) -> Seq<
    (Seq<u8>, BencodeTerm),
> {
    let p = insert_point(es, k);
    if p > 0 && es[p - 1].0 == k {
        es.update(p - 1, (k, v))
    } else {
        es.insert(p, (k, v))
    }
}

/// Whether `p` is the place in `es` for the key `k`: every entry from `p` on
/// has a greater key, and the entry before `p`, if there is one, has not.
pub open spec fn is_insert_point(es: Seq<(Seq<u8>, BencodeTerm)>, k: Seq<u8>, p: int) -> bool {
    &&& 0 <= p <= es.len()
    &&& forall|j: int| p <= j < es.len() ==> (#[trigger] es[j]).0 != k && !lex_lt(es[j].0, k)
    &&& p > 0 ==> es[p - 1].0 == k || lex_lt(es[p - 1].0, k)
}

/// `insert_point` gives the one place that `is_insert_point` describes.
pub proof fn lemma_insert_point(es: Seq<(Seq<u8>, BencodeTerm)>, k: Seq<u8>)
    ensures
        is_insert_point(es, k, insert_point(es, k)),
        forall|p: int| is_insert_point(es, k, p) ==> p == insert_point(es, k),
    decreases es.len(),
{
    if es.len() > 0 && !(es.last().0 == k || lex_lt(es.last().0, k)) {
        let rest = es.drop_last();
        lemma_insert_point(rest, k);
        let q = insert_point(rest, k);
        assert forall|j: int| q <= j < es.len() implies (#[trigger] es[j]).0 != k && !lex_lt(
            es[j].0,
            k,
        ) by {
            if j < rest.len() {
                assert(es[j] == rest[j]);
            }
        }
        assert forall|p: int| is_insert_point(es, k, p) implies p == q by {
            if p == es.len() {
                assert(es[p - 1] == es.last());
            } else {
                assert forall|j: int| p <= j < rest.len() implies (#[trigger] rest[j]).0 != k
                    && !lex_lt(rest[j].0, k) by {
                    assert(rest[j] == es[j]);
                }
                assert(is_insert_point(rest, k, p));
            }
        }
    } else if es.len() > 0 {
        assert forall|p: int| is_insert_point(es, k, p) implies p == es.len() by {
            if p < es.len() {
                assert(es[es.len() - 1] == es.last());
            }
        }
    }
}

/// The value that `es` holds for `k`, if any.
pub open spec fn dict_lookup(es: Seq<(Seq<u8>, BencodeTerm)>, k: Seq<u8>) -> Option<BencodeTerm>
    decreases es.len(),
{
    if es.len() == 0 {
        None
    } else if es.last().0 == k {
        Some(es.last().1)
    } else {
        dict_lookup(es.drop_last(), k)
    }
}

/// The first position at or after `from` at which `s` holds `b`, or the
/// length of `s` if there is none.
pub open spec fn find_byte(s: Seq<u8>, b: u8, from: int) -> int
    decreases s.len() - from,
{
    if from < 0 || from >= s.len() {
        s.len() as int
    } else if s[from] == b {
        from
    } else {
        find_byte(s, b, from + 1)
    }
}

/// The position that `find_byte` gives lies between `from` and the length of
/// `s`, holds `b` unless it is the length, and no position before it from
/// `from` on holds `b`.
pub proof fn lemma_find_byte(s: Seq<u8>, b: u8, from: int)
    requires
        0 <= from <= s.len(),
    ensures
        from <= find_byte(s, b, from) <= s.len(),
        find_byte(s, b, from) < s.len() ==> s[find_byte(s, b, from)] == b,
        forall|j: int| from <= j < find_byte(s, b, from) ==> s[j] != b,
    decreases s.len() - from,
{
    if from < s.len() && s[from] != b {
        lemma_find_byte(s, b, from + 1);
    }
}

/// What `data` decodes to as an integer, with the number of bytes read: the
/// text between the leading `i` and the first `e` is a signed decimal number.
pub open spec fn decode_int(data: Seq<u8>) -> Option<(BencodeTerm, nat)> {
    let end = find_byte(data, 101u8, 0);
    if end >= data.len() {
        None
    } else {
        match parse_signed(data.subrange(1, end)) {
            Some(i) => Some((BencodeTerm::Int(i), (end + 1) as nat)),
            None => None,
        }
    }
}

/// What `data` decodes to as a byte string, with the number of bytes read:
/// the text before the first colon is the length, and that many bytes follow.
pub open spec fn decode_string(data: Seq<u8>) -> Option<(Seq<u8>, nat)> {
    let colon = find_byte(data, 58u8, 0);
    if colon >= data.len() {
        None
    } else {
        match parse_unsigned(data.subrange(0, colon), usize::MAX as nat) {
            Some(n) => if colon + 1 + n > data.len() {
                None
            } else {
                Some((data.subrange(colon + 1, colon + 1 + n), (colon + 1 + n) as nat))
            },
            None => None,
        }
    }
}

/// What the front of `data` decodes to, with the number of bytes read, or
/// `None` where `data` does not start with a well-formed value. What follows
/// the value is not looked at.
pub open spec fn decode_term(data: Seq<u8>) -> Option<(BencodeTerm, nat)>
    decreases data.len(), 1nat,
{
    if data.len() == 0 {
        None
    } else if data[0] == 105 {
        decode_int(data)
    } else if data[0] == 100 {
        match decode_entries(data, 1, Seq::empty()) {
            Some((es, n)) => Some((BencodeTerm::Dict(es), n)),
            None => None,
        }
    } else if is_digit(data[0]) {
        match decode_string(data) {
            Some((s, n)) => Some((BencodeTerm::String(s), n)),
            None => None,
        }
    } else {
        None
    }
}

/// The entries of a dictionary read from position `pos` of `data` up to and
/// with the closing `e`, put one by one into `acc`; with the position behind
/// the `e`. A key must be a byte string; of two entries with one key the
/// later one stays.
pub open spec fn decode_entries(data: Seq<u8>, pos: nat, acc: Seq<(Seq<u8>, BencodeTerm)>) -> Option<
    (Seq<(Seq<u8>, BencodeTerm)>, nat),
>
    decreases
        (if pos <= data.len() {
            data.len() - pos
        } else {
            0
        }),
        0nat,
{
    if pos >= data.len() {
        None
    } else if data[pos as int] == 101 {
        Some((acc, pos + 1))
    } else if !is_digit(data[pos as int]) {
        None
    } else {
        match decode_string(data.skip(pos as int)) {
            None => None,
            Some((key, klen)) => {
                proof {
                    lemma_find_byte(data.skip(pos as int), 58u8, 0);
                }
                match decode_term(data.skip((pos + klen) as int)) {
                None => None,
                Some((value, vlen)) => decode_entries(
                    data,
                    pos + klen + vlen,
                    dict_insert(acc, key, value),
                ),
                }
            },
        }
    }
}

} // verus!
