//! Merges two iterators of different types into one. If the two iterators
//! hold the same key, the key is produced once, with the entry from `A`.

use vstd::prelude::*;

use crate::byte_order::{
    key_compare, key_le, key_less, key_lt, lemma_cmp_basics, lemma_key_le_trans, KeyOrd,
};
use crate::entries::{
    contains_key, entries_sorted, has_pair, lemma_sorted_cons, lemma_sorted_ge_head,
    lemma_sorted_skip, EntryV,
};
use crate::errors::LsmError;
use crate::iterators::StorageIterator;

verus! {

/// The two-way merge with A-wins tie policy.
pub open spec fn merged2(a: Seq<EntryV>, b: Seq<EntryV>) -> Seq<EntryV>
    decreases a.len() + b.len(),
{
    if a.len() == 0 && b.len() == 0 {
        Seq::empty()
    } else if b.len() == 0 {
        a
    } else if a.len() == 0 {
        b
    } else if key_lt(a[0].0, b[0].0) {
        seq![a[0]] + merged2(a.skip(1), b)
    } else if a[0].0 == b[0].0 {
        seq![a[0]] + merged2(a.skip(1), b.skip(1))
    } else {
        seq![b[0]] + merged2(a, b.skip(1))
    }
}

/// The merge is empty exactly when both inputs are.
pub proof fn lemma_merged2_len(a: Seq<EntryV>, b: Seq<EntryV>)
    ensures
        merged2(a, b).len() == 0 <==> a.len() == 0 && b.len() == 0,
{
}

/// Merging with an exhausted second side emits the first unchanged, and
/// conversely.
pub proof fn lemma_merged2_one_sided(a: Seq<EntryV>)
    ensures
        merged2(a, Seq::<EntryV>::empty()) == a,
        merged2(Seq::<EntryV>::empty(), a) == a,
{
    if a.len() == 0 {
        assert(merged2(a, Seq::<EntryV>::empty()) =~= a);
        assert(merged2(Seq::<EntryV>::empty(), a) =~= a);
    }
}

/// What the two-way merge emits, for sorted inputs: a sorted sequence in
/// which every pair comes from `A` or `B`, every key of either side
/// appears, and a pair is taken from `B` only when `A` lacks its key.
pub proof fn lemma_merged2_props(a: Seq<EntryV>, b: Seq<EntryV>)
    requires
        entries_sorted(a),
        entries_sorted(b),
    ensures
        entries_sorted(merged2(a, b)),
        forall|j: int|
            0 <= j < merged2(a, b).len() ==> has_pair(a, #[trigger] merged2(a, b)[j]) || has_pair(
                b,
                merged2(a, b)[j],
            ),
        forall|j: int|
            0 <= j < merged2(a, b).len() && contains_key(a, (#[trigger] merged2(a, b)[j]).0)
                ==> has_pair(a, merged2(a, b)[j]),
        forall|i: int| 0 <= i < a.len() ==> contains_key(merged2(a, b), (#[trigger] a[i]).0),
        forall|i: int| 0 <= i < b.len() ==> contains_key(merged2(a, b), (#[trigger] b[i]).0),
    decreases a.len() + b.len(), 1int,
{
    let m = merged2(a, b);
    if a.len() == 0 && b.len() == 0 {
    } else if b.len() == 0 {
        assert forall|i: int| 0 <= i < a.len() implies contains_key(m, (#[trigger] a[i]).0) by {
            assert(m[i] == a[i]);
        }
        assert forall|j: int| 0 <= j < m.len() implies has_pair(a, #[trigger] m[j]) by {
            assert(a[j] == m[j]);
        }
    } else if a.len() == 0 {
        assert forall|i: int| 0 <= i < b.len() implies contains_key(m, (#[trigger] b[i]).0) by {
            assert(m[i] == b[i]);
        }
        assert forall|j: int| 0 <= j < m.len() implies has_pair(b, #[trigger] m[j]) by {
            assert(b[j] == m[j]);
        }
    } else {
        lemma_sorted_skip(a, 1);
        lemma_sorted_skip(b, 1);
        lemma_cmp_basics(a[0].0, b[0].0);
        if key_lt(a[0].0, b[0].0) {
            lemma_merged2_step(a, b, a[0], a.skip(1), b);
        } else if a[0].0 == b[0].0 {
            lemma_merged2_step(a, b, a[0], a.skip(1), b.skip(1));
        } else {
            lemma_merged2_step(a, b, b[0], a, b.skip(1));
        }
    }
}

/// One unfolding step of `lemma_merged2_props`: `h` is the emitted head and
/// `(ra, rb)` the remainders the merge recurses on.
proof fn lemma_merged2_step(
    a: Seq<EntryV>,
    b: Seq<EntryV>,
    h: EntryV,
    ra: Seq<EntryV>,
    rb: Seq<EntryV>,
)
    requires
        entries_sorted(a),
        entries_sorted(b),
        a.len() > 0,
        b.len() > 0,
        entries_sorted(ra),
        entries_sorted(rb),
        key_le(a[0].0, b[0].0) ==> h == a[0],
        !key_le(a[0].0, b[0].0) ==> h == b[0] && key_lt(b[0].0, a[0].0),
        merged2(a, b) == seq![h] + merged2(ra, rb),
        // the remainders: each side either untouched or beheaded, beheaded
        // exactly when its head key equals the emitted key
        ra == a || ra == a.skip(1),
        rb == b || rb == b.skip(1),
        ra == a.skip(1) <==> a[0].0 == h.0,
        rb == b.skip(1) <==> b[0].0 == h.0,
        ra.len() + rb.len() < a.len() + b.len(),
    ensures
        entries_sorted(merged2(a, b)),
        forall|j: int|
            0 <= j < merged2(a, b).len() ==> has_pair(a, #[trigger] merged2(a, b)[j]) || has_pair(
                b,
                merged2(a, b)[j],
            ),
        forall|j: int|
            0 <= j < merged2(a, b).len() && contains_key(a, (#[trigger] merged2(a, b)[j]).0)
                ==> has_pair(a, merged2(a, b)[j]),
        forall|i: int| 0 <= i < a.len() ==> contains_key(merged2(a, b), (#[trigger] a[i]).0),
        forall|i: int| 0 <= i < b.len() ==> contains_key(merged2(a, b), (#[trigger] b[i]).0),
    decreases a.len() + b.len(), 0int,
{
    lemma_merged2_props(ra, rb);
    let m = merged2(a, b);
    let sub = merged2(ra, rb);
    lemma_cmp_basics(a[0].0, b[0].0);
    // every element of the sub-merge has a key strictly above h.0
    assert forall|j: int| 0 <= j < sub.len() implies key_lt(h.0, (#[trigger] sub[j]).0) by {
        if has_pair(ra, sub[j]) {
            let i = choose|i: int| 0 <= i < ra.len() && #[trigger] ra[i] == sub[j];
            lemma_sorted_ge_head(ra, i);
            if ra == a.skip(1) {
                // a was beheaded, so h.0 == a[0].0 < every remaining key
                assert(key_lt(a[0].0, a[1].0));
                assert(ra[0] == a[1]);
                lemma_key_le_trans(h.0, ra[0].0, ra[i].0);
            } else {
                // a untouched, so h == b[0] with b[0].0 strictly below a[0].0
                assert(h == b[0]);
                lemma_key_le_trans(h.0, a[0].0, ra[i].0);
            }
        } else {
            let i = choose|i: int| 0 <= i < rb.len() && #[trigger] rb[i] == sub[j];
            lemma_sorted_ge_head(rb, i);
            if rb == b.skip(1) {
                assert(key_lt(b[0].0, b[1].0));
                assert(rb[0] == b[1]);
                assert(h.0 == b[0].0);
                lemma_key_le_trans(h.0, rb[0].0, rb[i].0);
            } else {
                // b untouched: its head key differs from h.0, so h == a[0]
                // and a[0].0 orders strictly below b[0].0
                assert(h != b[0]);
                assert(h == a[0]);
                assert(key_lt(a[0].0, b[0].0));
                lemma_key_le_trans(h.0, b[0].0, rb[i].0);
            }
        }
    }
    lemma_sorted_cons(h, sub);
    // membership of every emitted pair
    assert forall|j: int| 0 <= j < m.len() implies has_pair(a, #[trigger] m[j]) || has_pair(
        b,
        m[j],
    ) by {
        if j == 0 {
            if h == a[0] {
                assert(a[0] == m[0]);
                assert(has_pair(a, m[j]));
            } else {
                assert(b[0] == m[0]);
                assert(has_pair(b, m[j]));
            }
        } else {
            assert(m[j] == sub[j - 1]);
            if has_pair(ra, sub[j - 1]) {
                let i = choose|i: int| 0 <= i < ra.len() && #[trigger] ra[i] == sub[j - 1];
                if ra == a.skip(1) {
                    assert(a[i + 1] == ra[i]);
                } else {
                    assert(a[i] == ra[i]);
                }
                assert(has_pair(a, m[j]));
            } else {
                let i = choose|i: int| 0 <= i < rb.len() && #[trigger] rb[i] == sub[j - 1];
                if rb == b.skip(1) {
                    assert(b[i + 1] == rb[i]);
                } else {
                    assert(b[i] == rb[i]);
                }
                assert(has_pair(b, m[j]));
            }
        }
    }
    // A-wins: a pair whose key A holds is A's pair
    assert forall|j: int|
        0 <= j < m.len() && contains_key(a, (#[trigger] m[j]).0) implies has_pair(a, m[j]) by {
        if j == 0 {
            if h == a[0] {
                assert(a[0] == m[0]);
                assert(has_pair(a, m[j]));
            } else {
                // h == b[0] with b[0].0 strictly below a[0].0: A cannot
                // hold this key
                let i = choose|i: int| 0 <= i < a.len() && (#[trigger] a[i]).0 == m[0].0;
                lemma_sorted_ge_head(a, i);
                assert(key_le(a[0].0, b[0].0));
                assert(false);
            }
        } else {
            assert(m[j] == sub[j - 1]);
            assert(key_lt(h.0, sub[j - 1].0));
            // the witness in a cannot be index 0 when a was beheaded
            let i = choose|i: int| 0 <= i < a.len() && (#[trigger] a[i]).0 == m[j].0;
            if ra == a.skip(1) {
                assert(a[0].0 == h.0);
                if i == 0 {
                    lemma_cmp_basics(a[0].0, m[j].0);
                }
                assert(i != 0);
                assert(ra[i - 1] == a[i]);
                assert(contains_key(ra, m[j].0));
            } else {
                assert(ra[i] == a[i]);
                assert(contains_key(ra, m[j].0));
            }
            assert(has_pair(ra, sub[j - 1]));
            let w = choose|w: int| 0 <= w < ra.len() && #[trigger] ra[w] == sub[j - 1];
            if ra == a.skip(1) {
                assert(a[w + 1] == ra[w]);
            } else {
                assert(a[w] == ra[w]);
            }
            assert(has_pair(a, m[j]));
        }
    }
    // completeness for A
    assert forall|i: int| 0 <= i < a.len() implies contains_key(m, (#[trigger] a[i]).0) by {
        if h == a[0] && i == 0 {
            assert(m[0] == a[0]);
            assert(contains_key(m, a[0].0));
        } else {
            if ra == a.skip(1) {
                assert(i != 0 || h.0 == a[0].0);
                if i == 0 {
                    assert(m[0].0 == a[0].0);
                    assert(contains_key(m, a[i].0));
                } else {
                    assert(ra[i - 1] == a[i]);
                    assert(contains_key(sub, a[i].0));
                    let w = choose|w: int| 0 <= w < sub.len() && (#[trigger] sub[w]).0 == a[i].0;
                    assert(m[w + 1] == sub[w]);
                    assert(contains_key(m, a[i].0));
                }
            } else {
                assert(ra[i] == a[i]);
                assert(contains_key(sub, a[i].0));
                let w = choose|w: int| 0 <= w < sub.len() && (#[trigger] sub[w]).0 == a[i].0;
                assert(m[w + 1] == sub[w]);
                assert(contains_key(m, a[i].0));
            }
        }
    }
    // completeness for B
    assert forall|i: int| 0 <= i < b.len() implies contains_key(m, (#[trigger] b[i]).0) by {
        if i == 0 && b[0].0 == h.0 {
            assert(m[0].0 == h.0);
            assert(contains_key(m, b[i].0));
        } else {
            if rb == b.skip(1) {
                assert(i != 0);
                assert(rb[i - 1] == b[i]);
                assert(contains_key(sub, b[i].0));
                let w = choose|w: int| 0 <= w < sub.len() && (#[trigger] sub[w]).0 == b[i].0;
                assert(m[w + 1] == sub[w]);
                assert(contains_key(m, b[i].0));
            } else {
                assert(rb[i] == b[i]);
                assert(contains_key(sub, b[i].0));
                let w = choose|w: int| 0 <= w < sub.len() && (#[trigger] sub[w]).0 == b[i].0;
                assert(m[w + 1] == sub[w]);
                assert(contains_key(m, b[i].0));
            }
        }
    }
}

/// Merges two iterators of possibly different types. On equal keys the
/// entry from `a` is produced and both sides advance.
pub struct TwoMergeIterator<A: StorageIterator, B: StorageIterator> {
    /// The preferred side.
    pub a: A,
    /// The side that loses ties.
    pub b: B,
    /// True when the current entry is `b`'s.
    pub sel_b: bool,
    /// Latched after an inner `next` failed; the iterator is then empty.
    pub errored: bool,
}

impl<A: StorageIterator, B: StorageIterator> TwoMergeIterator<A, B> {
    /// Create the merge of `a` and `b`.
    pub fn create(a: A, b: B) -> (r: Result<Self, LsmError>)
        requires
            a.inv(),
            b.inv(),
        ensures
            r matches Ok(it) && it.inv() && it.entries() == merged2(a.entries(), b.entries())
                && it.infallible() == (a.infallible() && b.infallible()),
    {
        let sel_b = if a.is_valid() && b.is_valid() {
            key_less(b.key().as_slice(), a.key().as_slice())
        } else if a.is_valid() {
            false
        } else {
            true
        };
        Ok(TwoMergeIterator { a, b, sel_b, errored: false })
    }
}

impl<A: StorageIterator, B: StorageIterator> StorageIterator for TwoMergeIterator<A, B> {
    open spec fn inv(&self) -> bool {
        &&& self.a.inv()
        &&& self.b.inv()
        &&& (!self.errored && self.a.entries().len() > 0 && self.b.entries().len() > 0
            ==> self.sel_b == key_lt(self.b.entries()[0].0, self.a.entries()[0].0))
        &&& (!self.errored && self.a.entries().len() > 0 && self.b.entries().len() == 0
            ==> !self.sel_b)
        &&& (!self.errored && self.a.entries().len() == 0 && self.b.entries().len() > 0
            ==> self.sel_b)
    }

    open spec fn entries(&self) -> Seq<EntryV> {
        if self.errored {
            Seq::empty()
        } else {
            merged2(self.a.entries(), self.b.entries())
        }
    }

    open spec fn infallible(&self) -> bool {
        self.a.infallible() && self.b.infallible()
    }

    proof fn lemma_entries_sorted(&self) {
        if !self.errored {
            self.a.lemma_entries_sorted();
            self.b.lemma_entries_sorted();
            lemma_merged2_props(self.a.entries(), self.b.entries());
        }
    }

    fn is_valid(&self) -> (r: bool) {
        proof {
            lemma_merged2_len(self.a.entries(), self.b.entries());
        }
        if self.errored {
            false
        } else if self.sel_b {
            self.b.is_valid()
        } else {
            self.a.is_valid()
        }
    }

    fn key(&self) -> (k: &Vec<u8>) {
        proof {
            lemma_merged2_len(self.a.entries(), self.b.entries());
            if self.a.entries().len() > 0 && self.b.entries().len() > 0 {
                lemma_cmp_basics(self.a.entries()[0].0, self.b.entries()[0].0);
            }
        }
        if self.sel_b {
            self.b.key()
        } else {
            self.a.key()
        }
    }

    fn value(&self) -> (v: &Vec<u8>) {
        proof {
            lemma_merged2_len(self.a.entries(), self.b.entries());
            if self.a.entries().len() > 0 && self.b.entries().len() > 0 {
                lemma_cmp_basics(self.a.entries()[0].0, self.b.entries()[0].0);
            }
        }
        if self.sel_b {
            self.b.value()
        } else {
            self.a.value()
        }
    }

    fn next(&mut self) -> (r: Result<(), LsmError>) {
        proof {
            lemma_merged2_len(old(self).a.entries(), old(self).b.entries());
        }
        let ghost ae = self.a.entries();
        let ghost be = self.b.entries();
        if self.a.is_valid() && self.b.is_valid() {
            let ord = key_compare(self.a.key().as_slice(), self.b.key().as_slice());
            proof {
                lemma_cmp_basics(ae[0].0, be[0].0);
            }
            match ord {
                KeyOrd::Less => {
                    if let Err(e) = self.a.next() {
                        self.errored = true;
                        return Err(e);
                    }
                    proof {
                        assert((seq![ae[0]] + merged2(ae.skip(1), be)).skip(1) =~= merged2(
                            ae.skip(1),
                            be,
                        ));
                    }
                },
                KeyOrd::Equal => {
                    if let Err(e) = self.a.next() {
                        self.errored = true;
                        return Err(e);
                    }
                    if let Err(e) = self.b.next() {
                        self.errored = true;
                        return Err(e);
                    }
                    proof {
                        assert((seq![ae[0]] + merged2(ae.skip(1), be.skip(1))).skip(1) =~= merged2(
                            ae.skip(1),
                            be.skip(1),
                        ));
                    }
                },
                KeyOrd::Greater => {
                    if let Err(e) = self.b.next() {
                        self.errored = true;
                        return Err(e);
                    }
                    proof {
                        assert((seq![be[0]] + merged2(ae, be.skip(1))).skip(1) =~= merged2(
                            ae,
                            be.skip(1),
                        ));
                    }
                },
            }
        } else if self.a.is_valid() {
            if let Err(e) = self.a.next() {
                self.errored = true;
                return Err(e);
            }
            proof {
                assert(merged2(ae, be) == ae);
                assert(merged2(self.a.entries(), be) =~= self.a.entries());
            }
        } else {
            if let Err(e) = self.b.next() {
                self.errored = true;
                return Err(e);
            }
            proof {
                assert(merged2(ae, be) == be);
                assert(merged2(ae, self.b.entries()) =~= self.b.entries());
            }
        }
        // recompute the selector
        if self.a.is_valid() && self.b.is_valid() {
            let s = key_less(self.b.key().as_slice(), self.a.key().as_slice());
            self.sel_b = s;
        } else if self.a.is_valid() {
            self.sel_b = false;
        } else {
            self.sel_b = true;
        }
        Ok(())
    }
}

} // verus!
