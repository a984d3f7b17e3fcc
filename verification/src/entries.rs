//! Spec-level model of entry sequences.
//!
//! Every component of the engine is specified against a sequence of
//! `(key, value)` pairs with strictly ascending keys. This module holds the
//! sortedness predicate, the lower-bound position used by every seek, and
//! the lemmas that connect them.

use vstd::prelude::*;

use crate::byte_order::{
    key_le, key_lt, lemma_cmp_basics, lemma_cmp_le_trans, lemma_key_lt_trans, lemma_key_total,
};

verus! {

/// A spec-level entry: key bytes paired with value bytes.
pub type EntryV = (Seq<u8>, Seq<u8>);

/// Keys are strictly ascending across the whole sequence.
pub open spec fn entries_sorted(es: Seq<EntryV>) -> bool {
    forall|i: int, j: int| 0 <= i < j < es.len() ==> key_lt(#[trigger] es[i].0, #[trigger] es[j].0)
}

/// Adjacent ascent suffices: transitivity lifts it to all pairs.
pub proof fn lemma_adjacent_implies_sorted(es: Seq<EntryV>)
    requires
        forall|i: int| 0 <= i < es.len() - 1 ==> key_lt(#[trigger] es[i].0, es[i + 1].0),
    ensures
        entries_sorted(es),
{
    assert forall|i: int, j: int| 0 <= i < j < es.len() implies key_lt(es[i].0, es[j].0) by {
        lemma_sorted_span(es, i, j);
    }
}

proof fn lemma_sorted_span(es: Seq<EntryV>, i: int, j: int)
    requires
        forall|k: int| 0 <= k < es.len() - 1 ==> key_lt(#[trigger] es[k].0, es[k + 1].0),
        0 <= i < j < es.len(),
    ensures
        key_lt(es[i].0, es[j].0),
    decreases j - i,
{
    if i + 1 == j {
    } else {
        lemma_sorted_span(es, i, j - 1);
        lemma_key_lt_trans(es[i].0, es[j - 1].0, es[j].0);
    }
}

/// Appending a strictly larger key keeps the sequence sorted.
pub proof fn lemma_sorted_push(es: Seq<EntryV>, e: EntryV)
    requires
        entries_sorted(es),
        es.len() > 0 ==> key_lt(es.last().0, e.0),
    ensures
        entries_sorted(es.push(e)),
{
    assert forall|i: int, j: int| 0 <= i < j < es.push(e).len() implies key_lt(
        es.push(e)[i].0,
        es.push(e)[j].0,
    ) by {
        if j < es.len() {
        } else {
            assert(es.push(e)[j] == e);
            if i < es.len() - 1 {
                lemma_key_lt_trans(es[i].0, es.last().0, e.0);
            }
        }
    }
}

/// A sorted sequence stays sorted when a prefix is dropped.
pub proof fn lemma_sorted_skip(es: Seq<EntryV>, n: int)
    requires
        entries_sorted(es),
        0 <= n <= es.len(),
    ensures
        entries_sorted(es.skip(n)),
{
    assert forall|i: int, j: int| 0 <= i < j < es.skip(n).len() implies key_lt(
        es.skip(n)[i].0,
        es.skip(n)[j].0,
    ) by {
        assert(es.skip(n)[i] == es[i + n]);
        assert(es.skip(n)[j] == es[j + n]);
    }
}

/// The spec-level entries of a vector of owned key/value pairs.
pub open spec fn pairs_view(items: Seq<(Vec<u8>, Vec<u8>)>) -> Seq<EntryV> {
    Seq::new(items.len(), |i: int| (items[i].0@, items[i].1@))
}

/// Some entry of `es` carries key `k`.
pub open spec fn contains_key(es: Seq<EntryV>, k: Seq<u8>) -> bool {
    exists|i: int| 0 <= i < es.len() && (#[trigger] es[i]).0 == k
}

/// The pair `e` is one of the entries of `es`.
pub open spec fn has_pair(es: Seq<EntryV>, e: EntryV) -> bool {
    exists|i: int| 0 <= i < es.len() && #[trigger] es[i] == e
}

/// In a sorted sequence every key is at or above the head key.
pub proof fn lemma_sorted_ge_head(es: Seq<EntryV>, j: int)
    requires
        entries_sorted(es),
        0 <= j < es.len(),
    ensures
        key_le(es[0].0, es[j].0),
{
    if j == 0 {
        lemma_cmp_basics(es[0].0, es[0].0);
    } else {
        assert(key_lt(es[0].0, es[j].0));
    }
}

/// Prepending an entry below every key keeps the sequence sorted.
pub proof fn lemma_sorted_cons(h: EntryV, s: Seq<EntryV>)
    requires
        entries_sorted(s),
        forall|j: int| 0 <= j < s.len() ==> key_lt(h.0, (#[trigger] s[j]).0),
    ensures
        entries_sorted(seq![h] + s),
{
    let t = seq![h] + s;
    assert forall|i: int, j: int| 0 <= i < j < t.len() implies key_lt(t[i].0, t[j].0) by {
        assert(t[j] == s[j - 1]);
        if i > 0 {
            assert(t[i] == s[i - 1]);
        }
    }
}

/// The value at the lower-bound position of `k`: on a sorted sequence
/// containing `k`, the value bound to `k`.
pub open spec fn entry_value(es: Seq<EntryV>, k: Seq<u8>) -> Seq<u8> {
    es[lower_bound_index(es, k)].1
}

/// In a sorted sequence a key occurs at most once, so the value of a
/// carrying entry is the key's value.
pub proof fn lemma_entry_value(es: Seq<EntryV>, k: Seq<u8>, j: int)
    requires
        entries_sorted(es),
        0 <= j < es.len(),
        es[j].0 == k,
    ensures
        contains_key(es, k),
        entry_value(es, k) == es[j].1,
{
    assert(contains_key(es, k));
    lemma_lower_bound_index(es, k);
    let p = lower_bound_index(es, k);
    lemma_cmp_basics(k, k);
    assert(p <= j) by {
        if j < p {
            assert(key_lt(es[j].0, k));
        }
    }
    assert(p == j) by {
        if p < j {
            assert(key_lt(es[p].0, es[j].0));
            assert(key_le(k, es[p].0));
            lemma_cmp_basics(es[p].0, k);
        }
    }
}

/// On a sorted sequence, a key is present exactly when the lower bound
/// lands on it.
pub proof fn lemma_lower_bound_contains(es: Seq<EntryV>, k: Seq<u8>)
    requires
        entries_sorted(es),
    ensures
        contains_key(es, k) <==> (lower_bound_index(es, k) < es.len() && es[lower_bound_index(
            es,
            k,
        )].0 == k),
        contains_key(es, k) ==> entry_value(es, k) == es[lower_bound_index(es, k)].1,
{
    lemma_lower_bound_index(es, k);
    assert(entry_value(es, k) == es[lower_bound_index(es, k)].1);
    let p = lower_bound_index(es, k);
    if contains_key(es, k) {
        let i = choose|i: int| 0 <= i < es.len() && (#[trigger] es[i]).0 == k;
        lemma_cmp_basics(k, k);
        assert(p <= i) by {
            if i < p {
                assert(key_lt(es[i].0, k));
            }
        }
        assert(es[p].0 == k) by {
            assert(key_le(k, es[p].0));
            if p < i {
                assert(key_lt(es[p].0, es[i].0));
            }
            lemma_key_total(k, es[p].0);
            lemma_cmp_basics(k, es[p].0);
            if es[p].0 != k {
                assert(key_lt(k, es[p].0));
                if p < i {
                    lemma_key_lt_trans(k, es[p].0, es[i].0);
                }
                lemma_cmp_basics(k, es[i].0);
            }
        }
    }
}

/// Concatenating sorted runs whose keys are strictly separated stays
/// sorted.
pub proof fn lemma_sorted_concat(x: Seq<EntryV>, y: Seq<EntryV>)
    requires
        entries_sorted(x),
        entries_sorted(y),
        forall|i: int, j: int|
            0 <= i < x.len() && 0 <= j < y.len() ==> key_lt((#[trigger] x[i]).0, (#[trigger] y[j]).0),
    ensures
        entries_sorted(x + y),
{
    let t = x + y;
    assert forall|i: int, j: int| 0 <= i < j < t.len() implies key_lt(t[i].0, t[j].0) by {
        if j < x.len() {
            assert(t[i] == x[i]);
            assert(t[j] == x[j]);
        } else if i >= x.len() {
            assert(t[i] == y[i - x.len()]);
            assert(t[j] == y[j - x.len()]);
        } else {
            assert(t[i] == x[i]);
            assert(t[j] == y[j - x.len()]);
        }
    }
}

/// The lower-bound position is characterized by its split: everything
/// before is strictly below `k`, everything from it on is at or above.
pub proof fn lemma_lower_bound_char(es: Seq<EntryV>, k: Seq<u8>, p: int)
    requires
        0 <= p <= es.len(),
        forall|i: int| 0 <= i < p ==> key_lt((#[trigger] es[i]).0, k),
        forall|i: int| p <= i < es.len() ==> key_le(k, (#[trigger] es[i]).0),
    ensures
        p == lower_bound_index(es, k),
    decreases es.len(),
{
    if es.len() == 0 {
    } else if p == 0 {
        assert(key_le(k, es[0].0));
    } else {
        assert(key_lt(es[0].0, k));
        lemma_cmp_basics(k, es[0].0);
        lemma_cmp_basics(es[0].0, k);
        assert(!key_le(k, es[0].0));
        assert forall|i: int| 0 <= i < p - 1 implies key_lt((#[trigger] es.skip(1)[i]).0, k) by {
            assert(es.skip(1)[i] == es[i + 1]);
        }
        assert forall|i: int| p - 1 <= i < es.skip(1).len() implies key_le(
            k,
            (#[trigger] es.skip(1)[i]).0,
        ) by {
            assert(es.skip(1)[i] == es[i + 1]);
        }
        lemma_lower_bound_char(es.skip(1), k, p - 1);
    }
}

/// The position of the first key at or after `k`; `es.len()` if none.
pub open spec fn lower_bound_index(es: Seq<EntryV>, k: Seq<u8>) -> int
    decreases es.len(),
{
    if es.len() == 0 {
        0
    } else if key_le(k, es[0].0) {
        0
    } else {
        1 + lower_bound_index(es.skip(1), k)
    }
}

/// What `lower_bound_index` promises on a sorted sequence: keys before it
/// are strictly below `k`, keys from it on are at or above `k`.
pub proof fn lemma_lower_bound_index(es: Seq<EntryV>, k: Seq<u8>)
    requires
        entries_sorted(es),
    ensures
        0 <= lower_bound_index(es, k) <= es.len(),
        forall|i: int| 0 <= i < lower_bound_index(es, k) ==> key_lt(#[trigger] es[i].0, k),
        forall|i: int| lower_bound_index(es, k) <= i < es.len() ==> key_le(k, #[trigger] es[i].0),
    decreases es.len(),
{
    if es.len() == 0 {
    } else if key_le(k, es[0].0) {
        assert forall|i: int| 0 <= i < es.len() implies key_le(k, #[trigger] es[i].0) by {
            if i > 0 {
                assert(key_lt(es[0].0, es[i].0));
                lemma_cmp_basics(k, es[0].0);
                lemma_cmp_le_trans(k, es[0].0, es[i].0);
            }
        }
    } else {
        lemma_sorted_skip(es, 1);
        lemma_lower_bound_index(es.skip(1), k);
        lemma_cmp_basics(k, es[0].0);
        assert forall|i: int| 0 <= i < lower_bound_index(es, k) implies key_lt(
            #[trigger] es[i].0,
            k,
        ) by {
            if i > 0 {
                assert(es.skip(1)[i - 1] == es[i]);
            }
        }
        assert forall|i: int| lower_bound_index(es, k) <= i < es.len() implies key_le(
            k,
            #[trigger] es[i].0,
        ) by {
            assert(es.skip(1)[i - 1] == es[i]);
        }
    }
}

} // verus!
