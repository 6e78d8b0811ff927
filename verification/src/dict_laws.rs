//! What holds of dictionaries in canonical form: inserting keeps the keys in
//! order, a lookup finds what was inserted, and the order of the entries is
//! fixed by what the dictionary maps, not by the order of the inserts.

use vstd::prelude::*;
use crate::lex::{lemma_lex_asymmetric, lemma_lex_irreflexive, lemma_lex_total, lemma_lex_transitive, lex_lt};
use crate::term::{
    dict_insert, dict_lookup, insert_point, keys_sorted, lemma_insert_point, term_wf, BencodeTerm,
};

verus! {

/// Where the keys are strictly increasing, they stay so after an insert.
pub proof fn lemma_insert_sorted(es: Seq<(Seq<u8>, BencodeTerm)>, k: Seq<u8>, v: BencodeTerm)
    requires
        keys_sorted(es),
    ensures
        keys_sorted(dict_insert(es, k, v)),
{
    lemma_insert_point(es, k);
    let p = insert_point(es, k);
    let r = dict_insert(es, k, v);
    if p > 0 && es[p - 1].0 == k {
        assert forall|i: int, j: int| 0 <= i < j < r.len() implies lex_lt(
            #[trigger] r[i].0,
            #[trigger] r[j].0,
        ) by {
            assert(r[i].0 == es[i].0);
            assert(r[j].0 == es[j].0);
        }
    } else {
        assert forall|i: int, j: int| 0 <= i < j < r.len() implies lex_lt(
            #[trigger] r[i].0,
            #[trigger] r[j].0,
        ) by {
            if j < p {
                assert(r[i] == es[i] && r[j] == es[j]);
                assert(lex_lt(es[i].0, es[j].0));
            } else if j == p {
                assert(r[i] == es[i]);
                assert(lex_lt(es[p - 1].0, k));
                if i < p - 1 {
                    assert(lex_lt(es[i].0, es[p - 1].0));
                    lemma_lex_transitive(es[i].0, es[p - 1].0, k);
                }
            } else {
                assert(r[j] == es[j - 1]);
                lemma_lex_total(es[j - 1].0, k);
                if i < p {
                    assert(r[i] == es[i]);
                    assert(lex_lt(es[i].0, es[j - 1].0));
                } else if i == p {
                    assert(r[i].0 == k);
                } else {
                    assert(r[i] == es[i - 1]);
                    assert(lex_lt(es[i - 1].0, es[j - 1].0));
                }
            }
        }
    }
}

/// A dictionary in canonical form stays so when a value in canonical form is
/// inserted under a key whose length the machine can hold.
pub proof fn lemma_insert_wf(es: Seq<(Seq<u8>, BencodeTerm)>, k: Seq<u8>, v: BencodeTerm)
    requires
        term_wf(BencodeTerm::Dict(es)),
        k.len() <= usize::MAX,
        term_wf(v),
    ensures
        term_wf(BencodeTerm::Dict(dict_insert(es, k, v))),
{
    let next = dict_insert(es, k, v);
    lemma_insert_sorted(es, k, v);
    lemma_insert_point(es, k);
    let p = insert_point(es, k);
    assert forall|i: int| 0 <= i < next.len() implies (#[trigger] next[i]).0.len() <= usize::MAX
        && term_wf(next[i].1) by {
        if p > 0 && es[p - 1].0 == k {
            if i != p - 1 {
                assert(next[i] == es[i]);
            }
        } else if i < p {
            assert(next[i] == es[i]);
        } else if i > p {
            assert(next[i] == es[i - 1]);
        }
    }
}

/// Where the keys are strictly increasing, looking up the key of an entry
/// finds the value of that entry.
pub proof fn lemma_lookup_entry(es: Seq<(Seq<u8>, BencodeTerm)>, i: int)
    requires
        keys_sorted(es),
        0 <= i < es.len(),
    ensures
        dict_lookup(es, es[i].0) == Some(es[i].1),
    decreases es.len(),
{
    if i < es.len() - 1 {
        assert(lex_lt(es[i].0, es[es.len() - 1].0));
        lemma_lex_asymmetric(es[i].0, es.last().0);
        let rest = es.drop_last();
        assert(rest[i] == es[i]);
        assert forall|a: int, b: int| 0 <= a < b < rest.len() implies lex_lt(
            #[trigger] rest[a].0,
            #[trigger] rest[b].0,
        ) by {
            assert(rest[a] == es[a] && rest[b] == es[b]);
            assert(lex_lt(es[a].0, es[b].0));
        }
        lemma_lookup_entry(rest, i);
    }
}

/// A lookup that finds a value finds it in an entry with that key, and a
/// lookup finds nothing only where no entry has the key.
pub proof fn lemma_lookup_found(es: Seq<(Seq<u8>, BencodeTerm)>, k: Seq<u8>)
    ensures
        dict_lookup(es, k) is Some ==> exists|i: int|
            0 <= i < es.len() && #[trigger] es[i] == (k, dict_lookup(es, k)->0),
        dict_lookup(es, k) is None ==> forall|i: int| 0 <= i < es.len() ==> (#[trigger] es[i]).0 != k,
    decreases es.len(),
{
    if es.len() > 0 {
        if es.last().0 == k {
            assert(es[es.len() - 1] == (k, dict_lookup(es, k)->0));
        } else {
            let rest = es.drop_last();
            lemma_lookup_found(rest, k);
            if dict_lookup(es, k) is Some {
                let i = choose|i: int|
                    0 <= i < rest.len() && #[trigger] rest[i] == (k, dict_lookup(rest, k)->0);
                assert(es[i] == rest[i]);
            } else {
                assert forall|i: int| 0 <= i < es.len() implies (#[trigger] es[i]).0 != k by {
                    if i < rest.len() {
                        assert(rest[i] == es[i]);
                    }
                }
            }
        }
    }
}

/// After an insert the key has the new value, and every other key has what
/// it had.
pub proof fn lemma_insert_lookup(
    es: Seq<(Seq<u8>, BencodeTerm)>,
    k: Seq<u8>,
    v: BencodeTerm,
    other: Seq<u8>,
)
    requires
        keys_sorted(es),
    ensures
        dict_lookup(dict_insert(es, k, v), other) == if other == k {
            Some(v)
        } else {
            dict_lookup(es, other)
        },
{
    lemma_insert_point(es, k);
    lemma_insert_sorted(es, k, v);
    let p = insert_point(es, k);
    let r = dict_insert(es, k, v);
    let replaced = p > 0 && es[p - 1].0 == k;
    if other == k {
        if replaced {
            lemma_lookup_entry(r, p - 1);
        } else {
            lemma_lookup_entry(r, p);
        }
    } else {
        lemma_lookup_found(es, other);
        if dict_lookup(es, other) is Some {
            let i = choose|i: int|
                0 <= i < es.len() && #[trigger] es[i] == (other, dict_lookup(es, other)->0);
            if replaced {
                assert(r[i] == es[i]);
                lemma_lookup_entry(r, i);
            } else if i < p {
                assert(r[i] == es[i]);
                lemma_lookup_entry(r, i);
            } else {
                assert(r[i + 1] == es[i]);
                lemma_lookup_entry(r, i + 1);
            }
        } else {
            lemma_lookup_found(r, other);
            if dict_lookup(r, other) is Some {
                let j = choose|j: int|
                    0 <= j < r.len() && #[trigger] r[j] == (other, dict_lookup(r, other)->0);
                if replaced {
                    assert(r[j].0 == es[j].0);
                } else if j < p {
                    assert(r[j] == es[j]);
                } else if j > p {
                    assert(r[j] == es[j - 1]);
                }
            }
        }
    }
}

/// The keys of all entries but the last are strictly increasing where those
/// of all entries are.
proof fn lemma_sorted_drop_last(es: Seq<(Seq<u8>, BencodeTerm)>)
    requires
        keys_sorted(es),
        es.len() > 0,
    ensures
        keys_sorted(es.drop_last()),
        dict_lookup(es.drop_last(), es.last().0) is None,
{
    let rest = es.drop_last();
    assert forall|a: int, b: int| 0 <= a < b < rest.len() implies lex_lt(
        #[trigger] rest[a].0,
        #[trigger] rest[b].0,
    ) by {
        assert(rest[a] == es[a] && rest[b] == es[b]);
        assert(lex_lt(es[a].0, es[b].0));
    }
    lemma_lookup_found(rest, es.last().0);
    if dict_lookup(rest, es.last().0) is Some {
        let i = choose|i: int|
            0 <= i < rest.len() && #[trigger] rest[i] == (
                es.last().0,
                dict_lookup(rest, es.last().0)->0,
            );
        assert(rest[i] == es[i]);
        assert(lex_lt(es[i].0, es[es.len() - 1].0));
        lemma_lex_irreflexive(es[i].0);
    }
}

/// Two dictionaries in canonical form that map every key to the same value
/// are the same sequence of entries.
pub proof fn lemma_sorted_extensional(
    a: Seq<(Seq<u8>, BencodeTerm)>,
    b: Seq<(Seq<u8>, BencodeTerm)>,
)
    requires
        keys_sorted(a),
        keys_sorted(b),
        forall|k: Seq<u8>| dict_lookup(a, k) == dict_lookup(b, k),
    ensures
        a == b,
    decreases a.len(),
{
    if a.len() == 0 {
        if b.len() > 0 {
            lemma_lookup_entry(b, 0);
            assert(dict_lookup(a, b[0].0) == dict_lookup(b, b[0].0));
        }
        assert(a =~= b);
    } else {
        let la = a.last();
        lemma_lookup_entry(a, a.len() - 1);
        assert(dict_lookup(a, la.0) == dict_lookup(b, la.0));
        lemma_lookup_found(b, la.0);
        let j = choose|j: int| 0 <= j < b.len() && #[trigger] b[j] == (la.0, dict_lookup(b, la.0)->0);
        let lb = b.last();
        lemma_lookup_entry(b, b.len() - 1);
        assert(dict_lookup(a, lb.0) == dict_lookup(b, lb.0));
        lemma_lookup_found(a, lb.0);
        let i = choose|i: int| 0 <= i < a.len() && #[trigger] a[i] == (lb.0, dict_lookup(a, lb.0)->0);
        if j < b.len() - 1 {
            assert(lex_lt(b[j].0, b[b.len() - 1].0));
            lemma_lex_asymmetric(la.0, lb.0);
            if i < a.len() - 1 {
                assert(lex_lt(a[i].0, a[a.len() - 1].0));
            }
            assert(false);
        }
        assert(la == lb);
        lemma_sorted_drop_last(a);
        lemma_sorted_drop_last(b);
        let ra = a.drop_last();
        let rb = b.drop_last();
        assert forall|k: Seq<u8>| dict_lookup(ra, k) == dict_lookup(rb, k) by {
            assert(dict_lookup(a, k) == dict_lookup(b, k));
        }
        lemma_sorted_extensional(ra, rb);
        assert(a =~= ra.push(la));
        assert(b =~= rb.push(lb));
    }
}

/// Inserts under different keys can be made in either order: the dictionary
/// that results is the same.
pub proof fn lemma_insert_commutes(
    es: Seq<(Seq<u8>, BencodeTerm)>,
    k1: Seq<u8>,
    v1: BencodeTerm,
    k2: Seq<u8>,
    v2: BencodeTerm,
)
    requires
        keys_sorted(es),
        k1 != k2,
    ensures
        dict_insert(dict_insert(es, k1, v1), k2, v2) == dict_insert(dict_insert(es, k2, v2), k1, v1),
{
    let a1 = dict_insert(es, k1, v1);
    let a2 = dict_insert(es, k2, v2);
    let x = dict_insert(a1, k2, v2);
    let y = dict_insert(a2, k1, v1);
    lemma_insert_sorted(es, k1, v1);
    lemma_insert_sorted(es, k2, v2);
    lemma_insert_sorted(a1, k2, v2);
    lemma_insert_sorted(a2, k1, v1);
    assert forall|k: Seq<u8>| dict_lookup(x, k) == dict_lookup(y, k) by {
        lemma_insert_lookup(es, k1, v1, k);
        lemma_insert_lookup(es, k2, v2, k);
        lemma_insert_lookup(a1, k2, v2, k);
        lemma_insert_lookup(a2, k1, v1, k);
    }
    lemma_sorted_extensional(x, y);
}

/// Inserting again under a key replaces what the first insert stored.
pub proof fn lemma_insert_overwrites(
    es: Seq<(Seq<u8>, BencodeTerm)>,
    k: Seq<u8>,
    v1: BencodeTerm,
    v2: BencodeTerm,
)
    requires
        keys_sorted(es),
    ensures
        dict_insert(dict_insert(es, k, v1), k, v2) == dict_insert(es, k, v2),
{
    let a1 = dict_insert(es, k, v1);
    let x = dict_insert(a1, k, v2);
    let y = dict_insert(es, k, v2);
    lemma_insert_sorted(es, k, v1);
    lemma_insert_sorted(es, k, v2);
    lemma_insert_sorted(a1, k, v2);
    assert forall|key: Seq<u8>| dict_lookup(x, key) == dict_lookup(y, key) by {
        lemma_insert_lookup(es, k, v1, key);
        lemma_insert_lookup(es, k, v2, key);
        lemma_insert_lookup(a1, k, v2, key);
    }
    lemma_sorted_extensional(x, y);
}

} // verus!
