//! Laws of the map model.
//!
//! Every mutating operation's contract is stated over [`model_insert`] and
//! [`model_remove`]; the lemmas here say how those transformations interact
//! with lookup, so that chains of operations can be reasoned about without
//! reopening the skip list's internals.

use vstd::prelude::*;

use crate::order::lemma_below_tied;
use crate::order::lemma_tied_below;
use crate::order::OrderedKey;
use crate::skip::has_key;
use crate::skip::lemma_seek_is;
use crate::skip::lemma_seek_props;
use crate::skip::model_insert;
use crate::skip::model_remove;
use crate::skip::seek;
use crate::skip::sorted_pairs;
use crate::skip::spec_get;

verus! {

/// In a sorted sequence, a lookup succeeds exactly when some entry's key is
/// tied with the one sought, and it returns that entry's value.
pub proof fn lemma_get_characterization<K: OrderedKey, V>(s: Seq<(K, V)>, k: K)
    requires
        sorted_pairs(s),
    ensures
        spec_get(s, k) is Some <==> exists|i: int|
            0 <= i < s.len() && !(#[trigger] s[i]).0.below(k) && !k.below(s[i].0),
        forall|i: int|
            0 <= i < s.len() && !(#[trigger] s[i]).0.below(k) && !k.below(s[i].0) ==> spec_get(
                s,
                k,
            ) == Some(s[i].1),
{
    lemma_seek_props(s, k);
    assert forall|i: int|
        0 <= i < s.len() && !(#[trigger] s[i]).0.below(k) && !k.below(s[i].0) implies spec_get(
        s,
        k,
    ) == Some(s[i].1) by {
        assert forall|j: int| 0 <= j < i implies (#[trigger] s[j]).0.below(k) by {
            assert(s[j].0.below(s[i].0));
            lemma_below_tied(s[j].0, s[i].0, k);
        }
        lemma_seek_is(s, k, i);
    }
    if spec_get(s, k) is Some {
        let i = seek(s, k);
        assert(!s[i].0.below(k) && !k.below(s[i].0));
    }
}

/// Inserting keeps the sequence sorted, and a later lookup of the same key
/// finds the inserted value. (The round trip of insert and get.)
pub proof fn lemma_insert_get<K: OrderedKey, V>(s: Seq<(K, V)>, k: K, v: V)
    requires
        sorted_pairs(s),
    ensures
        sorted_pairs(model_insert(s, k, v)),
        spec_get(model_insert(s, k, v), k) == Some(v),
{
    let s1 = model_insert(s, k, v);
    let i = seek(s, k);
    lemma_seek_props(s, k);
    if k.below(k) {
        K::lemma_asymmetry(k, k);
    }
    if has_key(s, k) {
        assert forall|a: int, b: int| 0 <= a < b < s1.len() implies (#[trigger] s1[a]).0.below(
            (#[trigger] s1[b]).0,
        ) by {
            if a == i {
                lemma_tied_below(k, s[i].0, s[b].0);
            } else if b == i {
                lemma_below_tied(s[a].0, s[i].0, k);
            } else {
                assert(s[a].0.below(s[b].0));
            }
        }
        lemma_get_characterization(s1, k);
        assert(!s1[i].0.below(k) && !k.below(s1[i].0));
    } else {
        s.insert_ensures(i, (k, v));
        assert forall|j: int| i <= j < s.len() implies k.below((#[trigger] s[j]).0) by {
            assert(!s[i].0.below(k));
            if !k.below(s[i].0) {
                lemma_get_characterization(s, k);
            }
            if j > i {
                K::lemma_transitivity(k, s[i].0, s[j].0);
            }
        }
        assert forall|a: int, b: int| 0 <= a < b < s1.len() implies (#[trigger] s1[a]).0.below(
            (#[trigger] s1[b]).0,
        ) by {
            if a == i {
                assert(s1[b] == s[b - 1]);
            } else if b == i {
                assert(s1[a] == s[a]);
            } else if a < i && b > i {
                assert(s1[a] == s[a] && s1[b] == s[b - 1]);
                assert(s[a].0.below(k));
                K::lemma_transitivity(s[a].0, k, s[b - 1].0);
            } else if b < i {
                assert(s1[a] == s[a] && s1[b] == s[b]);
            } else {
                assert(s1[a] == s[a - 1] && s1[b] == s[b - 1]);
            }
        }
        lemma_get_characterization(s1, k);
        assert(!s1[i].0.below(k) && !k.below(s1[i].0));
    }
}

/// Inserting under one key does not change what any untied key maps to.
pub proof fn lemma_insert_other<K: OrderedKey, V>(s: Seq<(K, V)>, k: K, v: V, k2: K)
    requires
        sorted_pairs(s),
        k.below(k2) || k2.below(k),
    ensures
        spec_get(model_insert(s, k, v), k2) == spec_get(s, k2),
{
    let s1 = model_insert(s, k, v);
    let i = seek(s, k);
    lemma_seek_props(s, k);
    lemma_insert_get(s, k, v);
    lemma_get_characterization(s, k2);
    lemma_get_characterization(s1, k2);
    if has_key(s, k) {
        assert forall|j: int| 0 <= j < s.len() && j != i implies s1[j] == s[j] by {}
        if spec_get(s, k2) is Some {
            let w = choose|j: int|
                0 <= j < s.len() && !(#[trigger] s[j]).0.below(k2) && !k2.below(s[j].0);
            assert(w != i) by {
                if w == i {
                    // the replaced entry is tied with `k`, not with `k2`
                    if k.below(k2) {
                        lemma_tied_below(s[i].0, k, k2);
                    } else {
                        lemma_below_tied(k2, k, s[i].0);
                    }
                }
            }
            assert(!s1[w].0.below(k2) && !k2.below(s1[w].0));
        }
        if spec_get(s1, k2) is Some {
            let w = choose|j: int|
                0 <= j < s1.len() && !(#[trigger] s1[j]).0.below(k2) && !k2.below(s1[j].0);
            assert(w != i) by {
                if w == i {
                    if k.below(k2) {
                        assert(!k2.below(s1[i].0));
                    } else {
                        assert(!s1[i].0.below(k2));
                    }
                }
            }
            assert(!s[w].0.below(k2) && !k2.below(s[w].0));
        }
    } else {
        s.insert_ensures(i, (k, v));
        if spec_get(s, k2) is Some {
            let w = choose|j: int|
                0 <= j < s.len() && !(#[trigger] s[j]).0.below(k2) && !k2.below(s[j].0);
            let w1 = if w < i {
                w
            } else {
                w + 1
            };
            assert(s1[w1] == s[w]);
            assert(!s1[w1].0.below(k2) && !k2.below(s1[w1].0));
        }
        if spec_get(s1, k2) is Some {
            let w = choose|j: int|
                0 <= j < s1.len() && !(#[trigger] s1[j]).0.below(k2) && !k2.below(s1[j].0);
            assert(w != i) by {
                if w == i {
                    if k.below(k2) {
                        assert(!k2.below(s1[i].0));
                    } else {
                        assert(!s1[i].0.below(k2));
                    }
                }
            }
            let w0 = if w < i {
                w
            } else {
                w - 1
            };
            assert(s[w0] == s1[w]);
            assert(!s[w0].0.below(k2) && !k2.below(s[w0].0));
        }
    }
}

/// After removal the key is absent, and the sequence stays sorted.
pub proof fn lemma_remove_get<K: OrderedKey, V>(s: Seq<(K, V)>, k: K)
    requires
        sorted_pairs(s),
    ensures
        sorted_pairs(model_remove(s, k)),
        spec_get(model_remove(s, k), k) is None,
{
    let s1 = model_remove(s, k);
    lemma_seek_props(s, k);
    if has_key(s, k) {
        let i = seek(s, k);
        s.remove_ensures(i);
        assert forall|a: int, b: int| 0 <= a < b < s1.len() implies (#[trigger] s1[a]).0.below(
            (#[trigger] s1[b]).0,
        ) by {
            let a2 = if a < i {
                a
            } else {
                a + 1
            };
            let b2 = if b < i {
                b
            } else {
                b + 1
            };
            assert(s1[a] == s[a2] && s1[b] == s[b2]);
            assert(s[a2].0.below(s[b2].0));
        }
        lemma_get_characterization(s1, k);
        if spec_get(s1, k) is Some {
            // a second entry tied with `k` would break sortedness
            let w = choose|j: int|
                0 <= j < s1.len() && !(#[trigger] s1[j]).0.below(k) && !k.below(s1[j].0);
            let w2 = if w < i {
                w
            } else {
                w + 1
            };
            assert(s1[w] == s[w2]);
            if w2 < i {
                assert(s[w2].0.below(s[i].0));
                lemma_below_tied(s[w2].0, s[i].0, k);
            } else {
                assert(s[i].0.below(s[w2].0));
                lemma_below_tied(s[i].0, s[w2].0, k);
            }
            assert(false);
        }
    } else {
        lemma_get_characterization(s1, k);
    }
}

/// Removing one key does not change what any untied key maps to.
pub proof fn lemma_remove_other<K: OrderedKey, V>(s: Seq<(K, V)>, k: K, k2: K)
    requires
        sorted_pairs(s),
        k.below(k2) || k2.below(k),
    ensures
        spec_get(model_remove(s, k), k2) == spec_get(s, k2),
{
    let s1 = model_remove(s, k);
    lemma_seek_props(s, k);
    lemma_remove_get(s, k);
    lemma_get_characterization(s, k2);
    lemma_get_characterization(s1, k2);
    if has_key(s, k) {
        let i = seek(s, k);
        s.remove_ensures(i);
        if spec_get(s, k2) is Some {
            let w = choose|j: int|
                0 <= j < s.len() && !(#[trigger] s[j]).0.below(k2) && !k2.below(s[j].0);
            assert(w != i) by {
                if w == i {
                    if k.below(k2) {
                        lemma_tied_below(s[i].0, k, k2);
                    } else {
                        lemma_below_tied(k2, k, s[i].0);
                    }
                }
            }
            let w1 = if w < i {
                w
            } else {
                w - 1
            };
            assert(s1[w1] == s[w]);
            assert(!s1[w1].0.below(k2) && !k2.below(s1[w1].0));
        }
        if spec_get(s1, k2) is Some {
            let w = choose|j: int|
                0 <= j < s1.len() && !(#[trigger] s1[j]).0.below(k2) && !k2.below(s1[j].0);
            let w2 = if w < i {
                w
            } else {
                w + 1
            };
            assert(s[w2] == s1[w]);
            assert(!s[w2].0.below(k2) && !k2.below(s[w2].0));
        }
    }
}

/// Inserting a key twice: the overwrite wins, and the overwritten value is
/// what the first insertion stored.
pub proof fn lemma_insert_overwrite<K: OrderedKey, V>(s: Seq<(K, V)>, k: K, v1: V, v2: V)
    requires
        sorted_pairs(s),
    ensures
        spec_get(model_insert(s, k, v1), k) == Some(v1),
        spec_get(model_insert(model_insert(s, k, v1), k, v2), k) == Some(v2),
{
    lemma_insert_get(s, k, v1);
    lemma_insert_get(model_insert(s, k, v1), k, v2);
}

} // verus!
