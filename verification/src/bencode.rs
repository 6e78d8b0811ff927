//! The bencode codec: byte strings, integers and dictionaries, their
//! encoding and their decoding.

use vstd::prelude::*;
use crate::decimal::{format_i64, format_u64, parse_digits, parse_i64, DIGIT_NINE, DIGIT_ZERO};
use crate::lex::{bytes_eq, bytes_lt, lex_lt};
use crate::term::{
    decode_entries, decode_string, decode_term, dict_insert, dict_lookup,
    encode_bytes, encode_entries, encode_int, encode_term, find_byte, is_insert_point,
    keys_sorted, lemma_find_byte, lemma_insert_point, term_wf, BencodeTerm, COLON, DICT_START,
    END, INT_START,
};
use crate::dict_laws::{lemma_insert_sorted, lemma_insert_wf};
use crate::roundtrip::lemma_decode_wf;
use vstd::slice::{slice_subrange, slice_to_vec};

verus! {

/// Why a sequence of bytes was not decoded.
#[derive(Debug, Clone, Copy, PartialEq, Eq, Structural)]
pub enum BencodeError {
    /// The bytes do not start with a well-formed value: a length or a number
    /// is missing or is not decimal, a string is longer than what is left, an
    /// integer or a dictionary is not closed, a dictionary key is not a byte
    /// string, or the first byte opens no value.
    MalformedEncoding,
}

/// A dictionary from byte strings to values. Its entries are kept in the order
/// that `insert` gives them: by increasing key, each key once.
#[derive(Debug, PartialEq, Eq)]
pub struct BencodeDict {
    entries: Vec<(Vec<u8>, BencodeValue)>,
}

/// A bencoded value: a byte string, an integer or a dictionary.
#[derive(Debug, PartialEq, Eq)]
pub enum BencodeValue {
    String(Vec<u8>),
    Int(i64),
    Dict(BencodeDict),
}

impl BencodeDict {
    /// The entries as mathematical values, in the order in which they are kept.
    pub closed spec fn view(&self) -> Seq<(Seq<u8>, BencodeTerm)>
        decreases self,
    {
        Seq::new(
            self.entries@.len(),
            |i: int|
                if 0 <= i < self.entries@.len() {
                    (self.entries@[i].0@, self.entries@[i].1.view())
                } else {
                    (Seq::empty(), BencodeTerm::Int(0))
                },
        )
    }
}

impl BencodeDict {
    /// Whether the dictionary is in canonical form: its keys are strictly
    /// increasing and its values are in canonical form.
    pub open spec fn wf(&self) -> bool {
        term_wf(BencodeTerm::Dict(self@))
    }

    /// A dictionary without entries.
    pub fn new() -> (r: Self)
        ensures
            r@ == Seq::<(Seq<u8>, BencodeTerm)>::empty(),
            r.wf(),
    {
        let r = BencodeDict { entries: Vec::new() };
        assert(r@ =~= Seq::<(Seq<u8>, BencodeTerm)>::empty());
        r
    }

    /// The number of entries.
    pub fn len(&self) -> (r: usize)
        ensures
            r == self@.len(),
    {
        self.entries.len()
    }

    /// Whether the dictionary has no entries.
    pub fn is_empty(&self) -> (r: bool)
        ensures
            r == (self@.len() == 0),
    {
        self.entries.len() == 0
    }

    /// The key of the entry at position `i`, counted in the order of the keys.
    pub fn key_at(&self, i: usize) -> (r: &Vec<u8>)
        requires
            i < self@.len(),
        ensures
            r@ == self@[i as int].0,
    {
        &self.entries[i].0
    }

    /// The value of the entry at position `i`, counted in the order of the keys.
    pub fn value_at(&self, i: usize) -> (r: &BencodeValue)
        requires
            i < self@.len(),
        ensures
            r@ == self@[i as int].1,
    {
        &self.entries[i].1
    }

    /// The value stored under `key`, if there is one.
    pub fn get(&self, key: &[u8]) -> (r: Option<&BencodeValue>)
        ensures
            match r {
                Some(v) => dict_lookup(self@, key@) == Some(v@),
                None => dict_lookup(self@, key@) is None,
            },
    {
        let mut i: usize = self.entries.len();
        assert(self@.take(i as int) =~= self@);
        while i > 0
            invariant
                0 <= i <= self.entries.len(),
                self@.len() == self.entries.len(),
                dict_lookup(self@, key@) == dict_lookup(self@.take(i as int), key@),
            decreases i,
        {
            let ghost front = self@.take(i as int);
            assert(front.last() == self@[i - 1]);
            assert(front.drop_last() =~= self@.take(i - 1));
            if bytes_eq(self.entries[i - 1].0.as_slice(), key) {
                return Some(&self.entries[i - 1].1);
            }
            i -= 1;
        }
        None
    }

    /// Whether an entry is stored under `key`.
    pub fn contains_key(&self, key: &[u8]) -> (r: bool)
        ensures
            r == dict_lookup(self@, key@) is Some,
    {
        self.get(key).is_some()
    }

    /// Stores `value` under `key`. An entry that had this key is replaced; a
    /// new key takes its place in the order of the keys.
    pub fn insert(&mut self, key: Vec<u8>, value: BencodeValue)
        ensures
            final(self)@ == dict_insert(old(self)@, key@, value@),
            keys_sorted(old(self)@) ==> keys_sorted(final(self)@),
            old(self).wf() && value.wf() ==> final(self).wf(),
    {
        let ghost es = self@;
        let ghost k = key@;
        let ghost v = value@;
        let mut i: usize = self.entries.len();
        let mut found: bool = false;
        let mut stop: bool = false;
        while i > 0 && !stop
            invariant
                0 <= i <= self.entries.len(),
                self@ == es,
                es.len() == self.entries.len(),
                k == key@,
                forall|j: int| i <= j < es.len() ==> (#[trigger] es[j]).0 != k && !lex_lt(es[j].0, k),
                stop ==> i > 0 && (es[i - 1].0 == k || lex_lt(es[i - 1].0, k)),
                found == (stop && es[i - 1].0 == k),
            decreases i + (if stop { 0int } else { 1int }),
        {
            if bytes_eq(self.entries[i - 1].0.as_slice(), key.as_slice()) {
                found = true;
                stop = true;
            } else if bytes_lt(self.entries[i - 1].0.as_slice(), key.as_slice()) {
                stop = true;
            } else {
                i -= 1;
            }
        }
        proof {
            lemma_insert_point(es, k);
            assert(is_insert_point(es, k, i as int));
            if keys_sorted(es) {
                lemma_insert_sorted(es, k, v);
            }
            if term_wf(BencodeTerm::Dict(es)) && term_wf(v) {
                assert(key@.len() == key.len());
                lemma_insert_wf(es, k, v);
            }
        }
        if found {
            self.entries[i - 1] = (key, value);
            assert(self@ =~= es.update(i - 1, (k, v)));
        } else {
            self.entries.insert(i, (key, value));
            assert(self@ =~= es.insert(i as int, (k, v)));
        }
    }
}

impl BencodeValue {
    /// Whether the value is in canonical form: in every dictionary of it the
    /// keys are strictly increasing.
    pub open spec fn wf(&self) -> bool {
        term_wf(self@)
    }

    /// The value as a mathematical object.
    pub open spec fn view(&self) -> BencodeTerm
        decreases self,
    {
        match self {
            BencodeValue::String(s) => BencodeTerm::String(s@),
            BencodeValue::Int(i) => BencodeTerm::Int(*i as int),
            BencodeValue::Dict(d) => BencodeTerm::Dict(d.view()),
        }
    }
}

/// Appends the bytes of `src` to `out`.
pub fn append_bytes(out: &mut Vec<u8>, src: &[u8])
    ensures
        final(out)@ == old(out)@ + src@,
{
    let mut i: usize = 0;
    while i < src.len()
        invariant
            0 <= i <= src.len(),
            out@ == old(out)@ + src@.take(i as int),
        decreases src.len() - i,
    {
        out.push(src[i]);
        assert(src@.take(i + 1) =~= src@.take(i as int).push(src@[i as int]));
        i += 1;
    }
    assert(src@.take(i as int) =~= src@);
}

/// Encodes a byte string: its length in decimal, a colon, and the bytes.
pub fn bencode_string(s: &[u8]) -> (r: Vec<u8>)
    ensures
        r@ == encode_bytes(s@),
{
    let mut result: Vec<u8> = format_u64(s.len() as u64);
    result.push(COLON);
    append_bytes(&mut result, s);
    result
}

/// Encodes an integer: `i`, its decimal text, `e`.
pub fn bencode_int(i: i64) -> (r: Vec<u8>)
    ensures
        r@ == encode_int(i as int),
{
    let mut result: Vec<u8> = Vec::new();
    result.push(INT_START);
    let text: Vec<u8> = format_i64(i);
    append_bytes(&mut result, text.as_slice());
    result.push(END);
    result
}

/// Encodes a dictionary: `d`, each key and value in the order of the keys,
/// `e`.
pub fn bencode_dict(d: &BencodeDict) -> (r: Vec<u8>)
    ensures
        r@ == encode_term(BencodeTerm::Dict(d@)),
    decreases d,
{
    let mut result: Vec<u8> = Vec::new();
    result.push(DICT_START);
    let mut i: usize = 0;
    assert(d@.take(0) =~= Seq::empty());
    while i < d.entries.len()
        invariant
            0 <= i <= d.entries.len(),
            d@.len() == d.entries.len(),
            result@ == seq![100u8] + encode_entries(d@.take(i as int)),
        decreases d.entries.len() - i,
    {
        let key: Vec<u8> = bencode_string(d.entries[i].0.as_slice());
        append_bytes(&mut result, key.as_slice());
        let value: Vec<u8> = d.entries[i].1.encode();
        append_bytes(&mut result, value.as_slice());
        proof {
            let next = d@.take(i + 1);
            assert(next.drop_last() =~= d@.take(i as int));
            assert(next.last() == d@[i as int]);
        }
        i += 1;
    }
    assert(d@.take(i as int) =~= d@);
    result.push(END);
    result
}

impl BencodeValue {
    /// Encodes the value.
    pub fn encode(&self) -> (r: Vec<u8>)
        ensures
            r@ == encode_term(self@),
        decreases self,
    {
        match self {
            BencodeValue::String(s) => bencode_string(s.as_slice()),
            BencodeValue::Int(i) => bencode_int(*i),
            BencodeValue::Dict(d) => bencode_dict(d),
        }
    }
}

/// Copies a byte string.
fn copy_bytes(s: &Vec<u8>) -> (r: Vec<u8>)
    ensures
        r@ == s@,
{
    slice_to_vec(s.as_slice())
}

impl Clone for BencodeDict {
    fn clone(&self) -> (r: BencodeDict)
        ensures
            r@ == self@,
        decreases self,
    {
        let mut entries: Vec<(Vec<u8>, BencodeValue)> = Vec::new();
        let mut i: usize = 0;
        while i < self.entries.len()
            invariant
                0 <= i <= self.entries.len(),
                entries@.len() == i,
                forall|j: int|
                    0 <= j < i ==> (#[trigger] entries@[j]).0@ == self.entries@[j].0@ && entries@[j].1@
                        == self.entries@[j].1@,
            decreases self.entries.len() - i,
        {
            let key: Vec<u8> = copy_bytes(&self.entries[i].0);
            let value: BencodeValue = self.entries[i].1.clone();
            entries.push((key, value));
            i += 1;
        }
        let r = BencodeDict { entries };
        assert(r@ =~= self@);
        r
    }
}

impl Clone for BencodeValue {
    fn clone(&self) -> (r: BencodeValue)
        ensures
            r@ == self@,
        decreases self,
    {
        match self {
            BencodeValue::String(s) => BencodeValue::String(copy_bytes(s)),
            BencodeValue::Int(i) => BencodeValue::Int(*i),
            BencodeValue::Dict(d) => BencodeValue::Dict(d.clone()),
        }
    }
}

/// The first position of `data` that holds `b`, or the length of `data`.
fn position_of(data: &[u8], b: u8) -> (r: usize)
    ensures
        r == find_byte(data@, b, 0),
        r <= data@.len(),
{
    let mut i: usize = 0;
    while i < data.len()
        invariant
            0 <= i <= data.len(),
            find_byte(data@, b, 0) == find_byte(data@, b, i as int),
        decreases data.len() - i,
    {
        if data[i] == b {
            return i;
        }
        i += 1;
    }
    i
}

/// Decodes the byte string at the front of `data`: the string and the number
/// of bytes read.
fn decode_byte_string(data: &[u8]) -> (r: Option<(Vec<u8>, usize)>)
    ensures
        match decode_string(data@) {
            Some((s, n)) => r matches Some((v, m)) && v@ == s && m == n && 1 <= m <= data@.len(),
            None => r is None,
        },
{
    let colon: usize = position_of(data, COLON);
    if colon >= data.len() {
        return None;
    }
    match parse_digits(data, 0, colon, usize::MAX as u64) {
        None => None,
        Some(n) => {
            if n > ((data.len() - colon - 1) as u64) {
                None
            } else {
                let start: usize = colon + 1;
                let end: usize = start + (n as usize);
                Some((slice_to_vec(slice_subrange(data, start, end)), end))
            }
        },
    }
}

/// Decodes the value at the front of `data`: the value and the number of
/// bytes read. What follows the value is not looked at.
///
/// Fails with `MalformedEncoding` where `data` does not start with a
/// well-formed value.
pub fn decode_bencode(data: &[u8]) -> (r: Result<(BencodeValue, usize), BencodeError>)
    ensures
        match decode_term(data@) {
            Some((t, n)) => r matches Ok((v, m)) && v@ == t && m == n && 1 <= m <= data@.len()
                && v.wf(),
            None => r == Err::<(BencodeValue, usize), BencodeError>(BencodeError::MalformedEncoding),
        },
    decreases data@.len(),
{
    proof {
        lemma_decode_wf(data@);
    }
    if data.len() == 0 {
        return Err(BencodeError::MalformedEncoding);
    }
    let first: u8 = data[0];
    if first == INT_START {
        let end: usize = position_of(data, END);
        if end >= data.len() {
            return Err(BencodeError::MalformedEncoding);
        }
        proof {
            lemma_find_byte(data@, 101u8, 0);
        }
        match parse_i64(data, 1, end) {
            Some(i) => Ok((BencodeValue::Int(i), end + 1)),
            None => Err(BencodeError::MalformedEncoding),
        }
    } else if first == DICT_START {
        let mut dict: BencodeDict = BencodeDict::new();
        let mut pos: usize = 1;
        loop
            invariant
                1 <= pos <= data.len(),
                data@[0] == 100,
                decode_term(data@) matches Some((t, n)) ==> term_wf(t),
                decode_entries(data@, 1, Seq::empty()) == decode_entries(data@, pos as nat, dict@),
            decreases data.len() - pos,
        {
            if pos >= data.len() {
                return Err(BencodeError::MalformedEncoding);
            }
            if data[pos] == END {
                return Ok((BencodeValue::Dict(dict), pos + 1));
            }
            if data[pos] < DIGIT_ZERO || data[pos] > DIGIT_NINE {
                return Err(BencodeError::MalformedEncoding);
            }
            let rest: &[u8] = slice_subrange(data, pos, data.len());
            assert(rest@ =~= data@.skip(pos as int));
            match decode_byte_string(rest) {
                None => {
                    return Err(BencodeError::MalformedEncoding);
                },
                Some((key, klen)) => {
                    let after_key: &[u8] = slice_subrange(data, pos + klen, data.len());
                    assert(after_key@ =~= data@.skip((pos + klen) as int));
                    match decode_bencode(after_key) {
                        Err(e) => {
                            return Err(BencodeError::MalformedEncoding);
                        },
                        Ok((value, vlen)) => {
                            dict.insert(key, value);
                            pos = pos + klen + vlen;
                        },
                    }
                },
            }
        }
    } else if first >= DIGIT_ZERO && first <= DIGIT_NINE {
        match decode_byte_string(data) {
            Some((s, n)) => Ok((BencodeValue::String(s), n)),
            None => Err(BencodeError::MalformedEncoding),
        }
    } else {
        Err(BencodeError::MalformedEncoding)
    }
}

} // verus!
