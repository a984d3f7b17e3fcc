//! Merges any number of iterators of one type into one key-sorted stream.
//! If the same key occurs in several inputs, the input registered with the
//! smaller index wins and the others are advanced past that key.

use vstd::prelude::*;

use crate::block::copy_bytes;
use crate::byte_order::{
    key_eq, key_le, key_less, key_lt, lemma_cmp_basics, lemma_key_le_trans, lemma_key_total,
};
use crate::entries::{
    contains_key, entries_sorted, has_pair, lemma_sorted_cons, lemma_sorted_ge_head,
    lemma_sorted_skip, EntryV,
};
use crate::errors::LsmError;
use crate::iterators::StorageIterator;

verus! {

/// Every input sequence is exhausted.
pub open spec fn all_empty(s: Seq<Seq<EntryV>>) -> bool {
    forall|i: int| 0 <= i < s.len() ==> (#[trigger] s[i]).len() == 0
}

/// Total number of entries across all inputs.
pub open spec fn total_len(s: Seq<Seq<EntryV>>) -> nat
    decreases s.len(),
{
    if s.len() == 0 {
        0
    } else {
        s[0].len() + total_len(s.skip(1))
    }
}

/// `w` points at a non-exhausted input whose head key is minimal; on equal
/// head keys the smaller index wins.
pub open spec fn is_min_head(s: Seq<Seq<EntryV>>, w: int) -> bool {
    &&& 0 <= w < s.len()
    &&& s[w].len() > 0
    &&& forall|j: int|
        0 <= j < s.len() && (#[trigger] s[j]).len() > 0 ==> key_le(s[w][0].0, s[j][0].0) && (
        s[j][0].0 == s[w][0].0 ==> w <= j)
}

/// The winning input: the least index among the minimal head keys, or
/// `s.len()` when every input is exhausted.
pub open spec fn winner(s: Seq<Seq<EntryV>>) -> int
    decreases s.len(),
{
    if s.len() == 0 {
        0
    } else {
        let rest = 1 + winner(s.skip(1));
        if s[0].len() == 0 {
            rest
        } else if rest >= s.len() || s[rest].len() == 0 {
            0
        } else if key_le(s[0][0].0, s[rest][0].0) {
            0
        } else {
            rest
        }
    }
}

/// Behead every input whose head key is `k`.
pub open spec fn pop_heads(s: Seq<Seq<EntryV>>, k: Seq<u8>) -> Seq<Seq<EntryV>> {
    Seq::new(
        s.len(),
        |i: int|
            if s[i].len() > 0 && s[i][0].0 == k {
                s[i].skip(1)
            } else {
                s[i]
            },
    )
}

/// `winner` is a minimal head when one exists, and `s.len()` otherwise.
pub proof fn lemma_winner(s: Seq<Seq<EntryV>>)
    ensures
        all_empty(s) ==> winner(s) == s.len(),
        !all_empty(s) ==> is_min_head(s, winner(s)),
    decreases s.len(),
{
    if s.len() == 0 {
    } else {
        lemma_winner(s.skip(1));
        let rest = 1 + winner(s.skip(1));
        let w = winner(s);
        if all_empty(s) {
            assert(all_empty(s.skip(1))) by {
                assert forall|i: int| 0 <= i < s.skip(1).len() implies (#[trigger] s.skip(1)[
                    i]).len() == 0 by {
                    assert(s.skip(1)[i] == s[i + 1]);
                }
            }
            assert(s[0].len() == 0);
            assert(w == rest);
        } else {
            if all_empty(s.skip(1)) {
                // only s[0] can be non-empty
                assert forall|i: int| 1 <= i < s.len() implies (#[trigger] s[i]).len() == 0 by {
                    assert(s.skip(1)[i - 1] == s[i]);
                }
                assert(s[0].len() > 0);
                assert(rest == s.len());
                assert(w == 0);
                assert(is_min_head(s, 0)) by {
                    lemma_cmp_basics(s[0][0].0, s[0][0].0);
                }
            } else {
                let rw = winner(s.skip(1));
                assert(is_min_head(s.skip(1), rw));
                assert(s.skip(1)[rw] == s[rest]);
                assert(s[rest].len() > 0);
                if s[0].len() == 0 {
                    assert(w == rest);
                    assert(is_min_head(s, rest)) by {
                        assert forall|j: int|
                            0 <= j < s.len() && (#[trigger] s[j]).len() > 0 implies key_le(
                            s[rest][0].0,
                            s[j][0].0,
                        ) && (s[j][0].0 == s[rest][0].0 ==> rest <= j) by {
                            assert(j != 0);
                            assert(s.skip(1)[j - 1] == s[j]);
                        }
                    }
                } else if key_le(s[0][0].0, s[rest][0].0) {
                    assert(w == 0);
                    assert(is_min_head(s, 0)) by {
                        lemma_cmp_basics(s[0][0].0, s[0][0].0);
                        assert forall|j: int|
                            0 <= j < s.len() && (#[trigger] s[j]).len() > 0 implies key_le(
                            s[0][0].0,
                            s[j][0].0,
                        ) by {
                            if j > 0 {
                                assert(s.skip(1)[j - 1] == s[j]);
                                assert(key_le(s[rest][0].0, s[j][0].0));
                                lemma_key_le_trans(s[0][0].0, s[rest][0].0, s[j][0].0);
                            }
                        }
                    }
                } else {
                    assert(w == rest);
                    lemma_cmp_basics(s[0][0].0, s[rest][0].0);
                    assert(key_lt(s[rest][0].0, s[0][0].0));
                    assert(is_min_head(s, rest)) by {
                        assert forall|j: int|
                            0 <= j < s.len() && (#[trigger] s[j]).len() > 0 implies key_le(
                            s[rest][0].0,
                            s[j][0].0,
                        ) && (s[j][0].0 == s[rest][0].0 ==> rest <= j) by {
                            if j == 0 {
                                lemma_cmp_basics(s[rest][0].0, s[j][0].0);
                            } else {
                                assert(s.skip(1)[j - 1] == s[j]);
                            }
                        }
                    }
                }
            }
        }
    }
}

/// Two minimal heads are the same index.
pub proof fn lemma_min_head_unique(s: Seq<Seq<EntryV>>, w1: int, w2: int)
    requires
        is_min_head(s, w1),
        is_min_head(s, w2),
    ensures
        w1 == w2,
{
    lemma_key_total(s[w1][0].0, s[w2][0].0);
}

/// Beheading at least one input strictly lowers the total length.
pub proof fn lemma_total_len_lt(s: Seq<Seq<EntryV>>, t: Seq<Seq<EntryV>>, w: int)
    requires
        s.len() == t.len(),
        forall|i: int|
            0 <= i < s.len() ==> #[trigger] t[i] == s[i] || (s[i].len() > 0 && t[i] == s[
                i].skip(1)),
        0 <= w < s.len(),
        t[w].len() < s[w].len(),
    ensures
        total_len(t) < total_len(s),
    decreases s.len(),
{
    assert forall|i: int| 0 <= i < s.len() implies (#[trigger] t[i]).len() <= s[i].len() by {}
    if w == 0 {
        lemma_total_len_le(s.skip(1), t.skip(1));
        assert(t[0].len() < s[0].len());
    } else {
        assert(t[0].len() <= s[0].len());
        lemma_total_len_lt(s.skip(1), t.skip(1), w - 1);
        assert(s.skip(1)[w - 1] == s[w]);
        assert(t.skip(1)[w - 1] == t[w]);
    }
}

/// Pointwise no-longer inputs give a no-larger total length.
pub proof fn lemma_total_len_le(s: Seq<Seq<EntryV>>, t: Seq<Seq<EntryV>>)
    requires
        s.len() == t.len(),
        forall|i: int| 0 <= i < s.len() ==> (#[trigger] t[i]).len() <= s[i].len(),
    ensures
        total_len(t) <= total_len(s),
    decreases s.len(),
{
    if s.len() > 0 {
        assert forall|i: int| 0 <= i < s.skip(1).len() implies (#[trigger] t.skip(1)[i]).len()
            <= s.skip(1)[i].len() by {
            assert(s.skip(1)[i] == s[i + 1]);
            assert(t.skip(1)[i] == t[i + 1]);
        }
        lemma_total_len_le(s.skip(1), t.skip(1));
    }
}

proof fn lemma_pop_heads_decreases(s: Seq<Seq<EntryV>>)
    requires
        !all_empty(s),
    ensures
        total_len(pop_heads(s, s[winner(s)][0].0)) < total_len(s),
{
    lemma_winner(s);
    let w = winner(s);
    let k = s[w][0].0;
    let t = pop_heads(s, k);
    assert forall|i: int|
        0 <= i < s.len() implies #[trigger] t[i] == s[i] || (s[i].len() > 0 && t[i] == s[i].skip(
        1,
    )) by {}
    lemma_total_len_lt(s, t, w);
}

/// The N-way merged stream: repeatedly emit the winning head and advance
/// every input holding that key.
pub open spec fn merged(s: Seq<Seq<EntryV>>) -> Seq<EntryV>
    decreases total_len(s),
    via merged_decreases
{
    if all_empty(s) {
        Seq::empty()
    } else {
        seq![s[winner(s)][0]] + merged(pop_heads(s, s[winner(s)][0].0))
    }
}

#[via_fn]
proof fn merged_decreases(s: Seq<Seq<EntryV>>) {
    if !all_empty(s) {
        lemma_pop_heads_decreases(s);
    }
}

/// The merge is empty exactly when every input is exhausted.
pub proof fn lemma_merged_empty(s: Seq<Seq<EntryV>>)
    ensures
        merged(s).len() == 0 <==> all_empty(s),
{
}

/// `w` is the first input holding the pair `e`: no input before it has
/// `e`'s key at all.
pub open spec fn is_first_source(s: Seq<Seq<EntryV>>, e: EntryV, w: int) -> bool {
    &&& 0 <= w < s.len()
    &&& has_pair(s[w], e)
    &&& forall|i: int| 0 <= i < w ==> !contains_key(#[trigger] s[i], e.0)
}

/// Some input is the first source of the pair `e`.
pub open spec fn has_first_source(s: Seq<Seq<EntryV>>, e: EntryV) -> bool {
    exists|w: int| is_first_source(s, e, w)
}

/// What the N-way merge emits, for sorted inputs: a strictly ascending
/// (hence duplicate-free) stream; every emitted pair comes from the
/// smallest-indexed input that holds its key; and every key of every input
/// is emitted.
pub proof fn lemma_merged_props(s: Seq<Seq<EntryV>>)
    requires
        forall|i: int| 0 <= i < s.len() ==> entries_sorted(#[trigger] s[i]),
    ensures
        entries_sorted(merged(s)),
        forall|j: int| 0 <= j < merged(s).len() ==> has_first_source(s, #[trigger] merged(s)[j]),
        forall|i: int, j: int|
            0 <= i < s.len() && 0 <= j < s[i].len() ==> contains_key(
                merged(s),
                (#[trigger] s[i][j]).0,
            ),
    decreases total_len(s),
{
    if all_empty(s) {
    } else {
        lemma_winner(s);
        let w = winner(s);
        let k = s[w][0].0;
        let e = s[w][0];
        let p = pop_heads(s, k);
        let m = merged(s);
        let sub = merged(p);
        assert(m == seq![e] + sub);
        assert forall|i: int| 0 <= i < p.len() implies entries_sorted(#[trigger] p[i]) by {
            if s[i].len() > 0 && s[i][0].0 == k {
                lemma_sorted_skip(s[i], 1);
                assert(p[i] == s[i].skip(1));
            } else {
                assert(p[i] == s[i]);
            }
        }
        lemma_pop_heads_decreases(s);
        lemma_merged_props(p);
        // every entry of any p[i] has a key strictly above k
        assert forall|i: int, j: int|
            0 <= i < p.len() && 0 <= j < p[i].len() implies key_lt(k, (#[trigger] p[i][j]).0) by {
            assert(s[i].len() > 0);
            if s[i][0].0 == k {
                assert(p[i] == s[i].skip(1));
                assert(p[i][j] == s[i][j + 1]);
                assert(key_lt(s[i][0].0, s[i][j + 1].0));
            } else {
                assert(p[i] == s[i]);
                assert(key_le(k, s[i][0].0));
                lemma_sorted_ge_head(s[i], j);
                lemma_cmp_basics(k, s[i][0].0);
                lemma_key_le_trans(k, s[i][0].0, s[i][j].0);
            }
        }
        // hence every emitted entry of the sub-merge sits strictly above k
        assert forall|j: int| 0 <= j < sub.len() implies key_lt(k, (#[trigger] sub[j]).0) by {
            assert(has_first_source(p, sub[j]));
            let sw = choose|sw: int| #[trigger] is_first_source(p, sub[j], sw);
            assert(has_pair(p[sw], sub[j]));
            let idx = choose|idx: int| 0 <= idx < p[sw].len() && #[trigger] p[sw][idx] == sub[j];
            assert(key_lt(k, p[sw][idx].0));
        }
        lemma_sorted_cons(e, sub);
        assert(entries_sorted(m));
        // precedence of every emitted pair
        assert forall|j: int| 0 <= j < m.len() implies has_first_source(s, #[trigger] m[j]) by {
            if j == 0 {
                assert(m[0] == e);
                assert forall|i: int| 0 <= i < w implies !contains_key(#[trigger] s[i], e.0) by {
                    if contains_key(s[i], k) {
                        let idx = choose|idx: int|
                            0 <= idx < s[i].len() && (#[trigger] s[i][idx]).0 == k;
                        lemma_sorted_ge_head(s[i], idx);
                        assert(key_le(k, s[i][0].0));
                        lemma_key_total(s[i][0].0, k);
                        assert(s[i][0].0 == k);
                    }
                }
                assert(is_first_source(s, m[0], w));
                assert(has_first_source(s, m[j]));
            } else {
                assert(m[j] == sub[j - 1]);
                assert(has_first_source(p, sub[j - 1]));
                let sw = choose|sw: int| #[trigger] is_first_source(p, sub[j - 1], sw);
                let e2 = sub[j - 1];
                assert(key_lt(k, e2.0));
                lemma_cmp_basics(k, e2.0);
                // the pair itself sits in s[sw]
                assert(has_pair(s[sw], e2)) by {
                    let idx = choose|idx: int|
                        0 <= idx < p[sw].len() && #[trigger] p[sw][idx] == e2;
                    if s[sw].len() > 0 && s[sw][0].0 == k {
                        assert(p[sw] == s[sw].skip(1));
                        assert(s[sw][idx + 1] == p[sw][idx]);
                    } else {
                        assert(p[sw] == s[sw]);
                        assert(s[sw][idx] == p[sw][idx]);
                    }
                }
                // and no earlier input holds its key
                assert forall|i: int| 0 <= i < sw implies !contains_key(
                    #[trigger] s[i],
                    e2.0,
                ) by {
                    assert(!contains_key(p[i], e2.0));
                    if contains_key(s[i], e2.0) {
                        let idx = choose|idx: int|
                            0 <= idx < s[i].len() && (#[trigger] s[i][idx]).0 == e2.0;
                        if s[i].len() > 0 && s[i][0].0 == k {
                            assert(p[i] == s[i].skip(1));
                            assert(idx != 0);
                            assert(p[i][idx - 1] == s[i][idx]);
                            assert(contains_key(p[i], e2.0));
                        } else {
                            assert(p[i] == s[i]);
                            assert(p[i][idx] == s[i][idx]);
                            assert(contains_key(p[i], e2.0));
                        }
                    }
                }
                assert(is_first_source(s, m[j], sw));
                assert(has_first_source(s, m[j]));
            }
        }
        // completeness
        assert forall|i: int, j: int|
            0 <= i < s.len() && 0 <= j < s[i].len() implies contains_key(
            m,
            (#[trigger] s[i][j]).0,
        ) by {
            if s[i][j].0 == k {
                assert(m[0].0 == k);
                assert(contains_key(m, k));
            } else {
                // the entry survives into p[i]
                if s[i][0].0 == k {
                    assert(p[i] == s[i].skip(1));
                    assert(j != 0);
                    assert(p[i][j - 1] == s[i][j]);
                    assert(contains_key(sub, p[i][j - 1].0));
                } else {
                    assert(p[i] == s[i]);
                    assert(p[i][j] == s[i][j]);
                    assert(contains_key(sub, p[i][j].0));
                }
                let idx = choose|idx: int|
                    0 <= idx < sub.len() && (#[trigger] sub[idx]).0 == s[i][j].0;
                assert(m[idx + 1] == sub[idx]);
                assert(contains_key(m, s[i][j].0));
            }
        }
    }
}

/// Merging a single input emits it unchanged.
pub proof fn lemma_merged_singleton(es: Seq<EntryV>)
    ensures
        merged(seq![es]) == es,
    decreases es.len(),
{
    let s = seq![es];
    if es.len() == 0 {
        assert(all_empty(s));
        assert(merged(s) =~= es);
    } else {
        assert(s[0] == es);
        assert(!all_empty(s));
        assert(winner(s) == 0) by {
            assert(s.skip(1) =~= Seq::<Seq<EntryV>>::empty());
            assert(winner(Seq::<Seq<EntryV>>::empty()) == 0);
        }
        assert(pop_heads(s, es[0].0) =~= seq![es.skip(1)]);
        lemma_merged_singleton(es.skip(1));
        assert(merged(s) == seq![es[0]] + merged(seq![es.skip(1)]));
        assert(merged(s) =~= es);
    }
}

/// The per-input remaining streams of a vector of iterators.
pub open spec fn views_of<I: StorageIterator>(iters: Seq<I>) -> Seq<Seq<EntryV>> {
    Seq::new(iters.len(), |i: int| iters[i].entries())
}

/// Every input is infallible.
pub open spec fn all_infallible<I: StorageIterator>(iters: Seq<I>) -> bool {
    forall|i: int| 0 <= i < iters.len() ==> (#[trigger] iters[i]).infallible()
}

/// Merge multiple iterators of the same type. If the same key occurs in
/// several inputs, the one with the smaller index wins.
pub struct MergeIterator<I: StorageIterator> {
    /// All registered inputs, exhausted ones included, in registration
    /// order.
    pub iters: Vec<I>,
    /// Index of the winning input; the input count when none is valid.
    pub cur: usize,
    /// Latched after an inner `next` failed; the iterator is then empty.
    pub errored: bool,
}

impl<I: StorageIterator> MergeIterator<I> {
    /// The remaining streams of all inputs.
    pub open spec fn views(&self) -> Seq<Seq<EntryV>> {
        views_of(self.iters@)
    }

    /// Scan for the least index with a minimal head key.
    fn find_min(iters: &Vec<I>) -> (w: usize)
        requires
            forall|i: int| 0 <= i < iters@.len() ==> (#[trigger] iters@[i]).inv(),
        ensures
            all_empty(views_of(iters@)) ==> w == iters@.len(),
            !all_empty(views_of(iters@)) ==> is_min_head(views_of(iters@), w as int),
    {
        let ghost vs = views_of(iters@);
        let n: usize = iters.len();
        let mut w: usize = n;
        let mut j: usize = 0;
        while j < n
            invariant
                forall|i: int| 0 <= i < iters@.len() ==> (#[trigger] iters@[i]).inv(),
                vs == views_of(iters@),
                n == iters@.len(),
                j <= n,
                w == n || (w < j && vs[w as int].len() > 0),
                w == n ==> (forall|i: int| 0 <= i < j ==> (#[trigger] vs[i]).len() == 0),
                w < n ==> (forall|i: int|
                    0 <= i < j && (#[trigger] vs[i]).len() > 0 ==> key_le(
                        vs[w as int][0].0,
                        vs[i][0].0,
                    ) && (vs[i][0].0 == vs[w as int][0].0 ==> w <= i)),
            decreases n - j,
        {
            if iters[j].is_valid() {
                if w == n {
                    proof {
                        lemma_cmp_basics(vs[j as int][0].0, vs[j as int][0].0);
                    }
                    w = j;
                } else if key_less(iters[j].key().as_slice(), iters[w].key().as_slice()) {
                    proof {
                        assert forall|i: int|
                            0 <= i < j + 1 && (#[trigger] vs[i]).len() > 0 implies key_le(
                            vs[j as int][0].0,
                            vs[i][0].0,
                        ) && (vs[i][0].0 == vs[j as int][0].0 ==> j <= i) by {
                            if i < j {
                                lemma_cmp_basics(vs[j as int][0].0, vs[w as int][0].0);
                                lemma_key_le_trans(vs[j as int][0].0, vs[w as int][0].0, vs[i][0].0);
                                lemma_cmp_basics(vs[j as int][0].0, vs[i][0].0);
                            } else {
                                lemma_cmp_basics(vs[j as int][0].0, vs[i][0].0);
                            }
                        }
                    }
                    w = j;
                } else {
                    proof {
                        lemma_cmp_basics(vs[j as int][0].0, vs[w as int][0].0);
                    }
                }
            }
            j = j + 1;
        }
        w
    }

    /// Create the merge of the given inputs; input `i` has precedence over
    /// every input after it.
    pub fn create(iters: Vec<I>) -> (r: Self)
        requires
            forall|i: int| 0 <= i < iters@.len() ==> (#[trigger] iters@[i]).inv(),
        ensures
            r.inv(),
            r.entries() == merged(views_of(iters@)),
            r.infallible() == all_infallible(iters@),
    {
        let w = Self::find_min(&iters);
        MergeIterator { iters, cur: w, errored: false }
    }
}

impl<I: StorageIterator> StorageIterator for MergeIterator<I> {
    open spec fn inv(&self) -> bool {
        &&& forall|i: int| 0 <= i < self.iters@.len() ==> (#[trigger] self.iters@[i]).inv()
        &&& self.cur <= self.iters@.len()
        &&& (!self.errored && all_empty(self.views()) ==> self.cur == self.iters@.len())
        &&& (!self.errored && !all_empty(self.views()) ==> is_min_head(
            self.views(),
            self.cur as int,
        ))
    }

    open spec fn entries(&self) -> Seq<EntryV> {
        if self.errored {
            Seq::empty()
        } else {
            merged(self.views())
        }
    }

    open spec fn infallible(&self) -> bool {
        all_infallible(self.iters@)
    }

    proof fn lemma_entries_sorted(&self) {
        if !self.errored {
            assert forall|i: int| 0 <= i < self.views().len() implies entries_sorted(
                #[trigger] self.views()[i],
            ) by {
                self.iters@[i].lemma_entries_sorted();
            }
            lemma_merged_props(self.views());
        }
    }

    fn is_valid(&self) -> (r: bool) {
        proof {
            lemma_merged_empty(self.views());
        }
        !self.errored && self.cur < self.iters.len()
    }

    fn key(&self) -> (k: &Vec<u8>) {
        proof {
            lemma_merged_empty(self.views());
            lemma_winner(self.views());
            lemma_min_head_unique(self.views(), self.cur as int, winner(self.views()));
        }
        self.iters[self.cur].key()
    }

    fn value(&self) -> (v: &Vec<u8>) {
        proof {
            lemma_merged_empty(self.views());
            lemma_winner(self.views());
            lemma_min_head_unique(self.views(), self.cur as int, winner(self.views()));
        }
        self.iters[self.cur].value()
    }

    fn next(&mut self) -> (r: Result<(), LsmError>) {
        proof {
            lemma_merged_empty(self.views());
            lemma_winner(self.views());
            lemma_min_head_unique(self.views(), self.cur as int, winner(self.views()));
        }
        let ghost s0 = self.views();
        let ghost k = s0[self.cur as int][0].0;
        let key_now: Vec<u8> = copy_bytes(self.iters[self.cur].key().as_slice());
        let n: usize = self.iters.len();
        let mut j: usize = 0;
        while j < n
            invariant
                n == self.iters@.len(),
                n == old(self).iters@.len(),
                j <= n,
                !self.errored,
                self.cur <= n,
                key_now@ == k,
                s0.len() == n,
                forall|i: int| 0 <= i < self.iters@.len() ==> (#[trigger] self.iters@[i]).inv(),
                forall|i: int|
                    0 <= i < n ==> (#[trigger] self.iters@[i]).infallible() == old(
                        self,
                    ).iters@[i].infallible(),
                forall|i: int| 0 <= i < j ==> #[trigger] self.views()[i] == pop_heads(s0, k)[i],
                forall|i: int| j <= i < n ==> #[trigger] self.views()[i] == s0[i],
            decreases n - j,
        {
            proof {
                assert(self.views()[j as int] == s0[j as int]);
            }
            let advance = self.iters[j].is_valid() && key_eq(
                self.iters[j].key().as_slice(),
                key_now.as_slice(),
            );
            proof {
                assert(advance == (s0[j as int].len() > 0 && s0[j as int][0].0 == k));
            }
            let ghost pre_iters = self.iters@;
            if advance {
                let it = vstd::std_specs::vec::vec_index_mut(&mut self.iters, j);
                let res = it.next();
                proof {
                    assert(self.iters@ == pre_iters.update(j as int, self.iters@[j as int]));
                    assert forall|i: int| 0 <= i < n && i != j implies #[trigger] self.iters@[i]
                        == pre_iters[i] by {}
                }
                if let Err(e) = res {
                    proof {
                        // only a fallible input can fail
                        assert(!pre_iters[j as int].infallible());
                        assert(pre_iters[j as int].infallible() == old(self).iters@[j as int].infallible());
                        assert(!old(self).infallible());
                        assert forall|i: int|
                            0 <= i < n implies (#[trigger] self.iters@[i]).infallible() == old(
                            self,
                        ).iters@[i].infallible() by {
                            if i != j {
                                assert(self.iters@[i] == pre_iters[i]);
                            }
                        }
                        assert(!self.iters@[j as int].infallible());
                        assert(!self.infallible());
                    }
                    self.errored = true;
                    return Err(e);
                }
                proof {
                    assert(self.views()[j as int] == s0[j as int].skip(1));
                    assert forall|i: int|
                        0 <= i < n implies (#[trigger] self.iters@[i]).infallible() == old(
                        self,
                    ).iters@[i].infallible() by {
                        if i != j {
                            assert(self.iters@[i] == pre_iters[i]);
                        }
                    }
                }
            }
            proof {
                assert forall|i: int| 0 <= i < j + 1 implies #[trigger] self.views()[i]
                    == pop_heads(s0, k)[i] by {
                    assert(self.views()[i] == self.iters@[i].entries());
                    if i == j {
                        if advance {
                            assert(self.views()[i] == s0[i].skip(1));
                        } else {
                            assert(self.views()[i] == s0[i]);
                        }
                    } else {
                        assert(self.iters@[i] == pre_iters[i]);
                        assert(views_of(pre_iters)[i] == pre_iters[i].entries());
                        assert(views_of(pre_iters)[i] == pop_heads(s0, k)[i]);
                    }
                }
                assert forall|i: int| j + 1 <= i < n implies #[trigger] self.views()[i] == s0[i]
                    by {
                    assert(self.iters@[i] == pre_iters[i]);
                    assert(views_of(pre_iters)[i] == pre_iters[i].entries());
                    assert(views_of(pre_iters)[i] == s0[i]);
                }
            }
            j = j + 1;
        }
        proof {
            assert(self.views() =~= pop_heads(s0, k));
        }
        let w = Self::find_min(&self.iters);
        self.cur = w;
        proof {
            assert(merged(s0) == seq![s0[winner(s0)][0]] + merged(pop_heads(s0, k)));
            assert(merged(s0).skip(1) =~= merged(pop_heads(s0, k)));
            assert(self.infallible() == old(self).infallible()) by {
                if all_infallible(old(self).iters@) {
                    assert forall|i: int|
                        0 <= i < n implies (#[trigger] self.iters@[i]).infallible() by {
                        assert(old(self).iters@[i].infallible());
                    }
                }
                if all_infallible(self.iters@) {
                    assert forall|i: int|
                        0 <= i < n implies (#[trigger] old(self).iters@[i]).infallible() by {
                        assert(self.iters@[i].infallible());
                    }
                }
            }
        }
        Ok(())
    }
}

} // verus!
