//! Lexicographic ordering on byte-string keys.
//!
//! Keys are opaque byte sequences ordered lexicographically. The spec-level
//! three-way comparison `key_cmp_spec` is the single source of truth; the
//! executable `key_compare` is proved against it, and the proof functions
//! below establish that it is a total order.

use vstd::prelude::*;

verus! {

/// Result of a three-way key comparison.
#[derive(Clone, Copy, Debug, PartialEq, Eq, Structural)]
pub enum KeyOrd {
    Less,
    Equal,
    Greater,
}

/// Spec-level lexicographic three-way comparison: -1, 0 or 1.
pub open spec fn key_cmp_spec(a: Seq<u8>, b: Seq<u8>) -> int
    decreases a.len(),
{
    if a.len() == 0 && b.len() == 0 {
        0
    } else if a.len() == 0 {
        -1
    } else if b.len() == 0 {
        1
    } else if a[0] < b[0] {
        -1
    } else if a[0] > b[0] {
        1
    } else {
        key_cmp_spec(a.skip(1), b.skip(1))
    }
}

/// `a` orders strictly before `b`.
pub open spec fn key_lt(a: Seq<u8>, b: Seq<u8>) -> bool {
    key_cmp_spec(a, b) == -1
}

/// `a` orders before `b` or equals it.
pub open spec fn key_le(a: Seq<u8>, b: Seq<u8>) -> bool {
    key_cmp_spec(a, b) != 1
}

/// Comparison only looks past a common prefix.
pub proof fn lemma_cmp_skip_prefix(a: Seq<u8>, b: Seq<u8>, i: int)
    requires
        0 <= i <= a.len(),
        i <= b.len(),
        a.subrange(0, i) == b.subrange(0, i),
    ensures
        key_cmp_spec(a, b) == key_cmp_spec(a.skip(i), b.skip(i)),
    decreases i,
{
    if i == 0 {
        assert(a.skip(0) =~= a);
        assert(b.skip(0) =~= b);
    } else {
        assert(a.subrange(0, i)[0] == a[0]);
        assert(b.subrange(0, i)[0] == b[0]);
        assert(a.skip(1).subrange(0, i - 1) =~= b.skip(1).subrange(0, i - 1)) by {
            assert forall|j: int| 0 <= j < i - 1 implies #[trigger] a.skip(1).subrange(0, i - 1)[j]
                == b.skip(1).subrange(0, i - 1)[j] by {
                assert(a.subrange(0, i)[j + 1] == a[j + 1]);
                assert(b.subrange(0, i)[j + 1] == b[j + 1]);
                assert(a.skip(1).subrange(0, i - 1)[j] == a[j + 1]);
                assert(b.skip(1).subrange(0, i - 1)[j] == b[j + 1]);
            }
        }
        lemma_cmp_skip_prefix(a.skip(1), b.skip(1), i - 1);
        assert(a.skip(1).skip(i - 1) =~= a.skip(i));
        assert(b.skip(1).skip(i - 1) =~= b.skip(i));
    }
}

/// The comparison is antisymmetric, bounded, and zero exactly on equal keys.
pub proof fn lemma_cmp_basics(a: Seq<u8>, b: Seq<u8>)
    ensures
        key_cmp_spec(a, b) == 0 <==> a == b,
        key_cmp_spec(a, b) == -key_cmp_spec(b, a),
        -1 <= key_cmp_spec(a, b) <= 1,
    decreases a.len(),
{
    if a.len() == 0 && b.len() == 0 {
        assert(a =~= b);
    } else if a.len() == 0 || b.len() == 0 {
        assert(a.len() != b.len());
    } else {
        lemma_cmp_basics(a.skip(1), b.skip(1));
        if a[0] == b[0] {
            if key_cmp_spec(a, b) == 0 {
                assert(a.skip(1) == b.skip(1));
                assert(a =~= b) by {
                    assert forall|j: int| 0 <= j < a.len() implies a[j] == b[j] by {
                        if j > 0 {
                            assert(a.skip(1)[j - 1] == a[j]);
                            assert(b.skip(1)[j - 1] == b[j]);
                        }
                    }
                }
            }
            if a == b {
                assert(a.skip(1) == b.skip(1));
            }
        } else {
            assert(a[0] != b[0]);
            assert(a != b) by {
                if a == b {
                    assert(a[0] == b[0]);
                }
            }
        }
    }
}

/// Transitivity, in the form needed for sortedness reasoning: weak premises
/// give a weak conclusion, and one strict premise makes it strict.
pub proof fn lemma_cmp_le_trans(a: Seq<u8>, b: Seq<u8>, c: Seq<u8>)
    requires
        key_cmp_spec(a, b) <= 0,
        key_cmp_spec(b, c) <= 0,
    ensures
        key_cmp_spec(a, c) <= 0,
        key_cmp_spec(a, b) == -1 || key_cmp_spec(b, c) == -1 ==> key_cmp_spec(a, c) == -1,
    decreases a.len() + b.len() + c.len(),
{
    lemma_cmp_basics(a, b);
    lemma_cmp_basics(b, c);
    lemma_cmp_basics(a, c);
    if key_cmp_spec(a, b) == 0 {
        assert(a == b);
    } else if key_cmp_spec(b, c) == 0 {
        assert(b == c);
    } else {
        // both premises are strict
        if a.len() == 0 {
            if c.len() == 0 {
                assert(key_cmp_spec(b, c) >= 0);
            }
        } else {
            assert(b.len() > 0);
            assert(c.len() > 0);
            assert(a[0] <= b[0]);
            assert(b[0] <= c[0]);
            if a[0] == c[0] {
                lemma_cmp_le_trans(a.skip(1), b.skip(1), c.skip(1));
            }
        }
    }
}

/// Transitivity over `key_le`, with strictness carried through.
pub proof fn lemma_key_le_trans(a: Seq<u8>, b: Seq<u8>, c: Seq<u8>)
    requires
        key_le(a, b),
        key_le(b, c),
    ensures
        key_le(a, c),
        key_lt(a, b) || key_lt(b, c) ==> key_lt(a, c),
{
    lemma_cmp_basics(a, b);
    lemma_cmp_basics(b, c);
    lemma_cmp_le_trans(a, b, c);
}

/// Strict transitivity over `key_lt`.
pub proof fn lemma_key_lt_trans(a: Seq<u8>, b: Seq<u8>, c: Seq<u8>)
    requires
        key_lt(a, b),
        key_lt(b, c),
    ensures
        key_lt(a, c),
{
    lemma_cmp_le_trans(a, b, c);
}

/// Totality: of two keys, one orders at or before the other.
pub proof fn lemma_key_total(a: Seq<u8>, b: Seq<u8>)
    ensures
        key_le(a, b) || key_le(b, a),
        key_le(a, b) && key_le(b, a) ==> a == b,
        key_lt(a, b) ==> !key_le(b, a),
        a == b ==> key_le(a, b),
{
    lemma_cmp_basics(a, b);
}

/// Executable three-way comparison, proved against `key_cmp_spec`.
pub fn key_compare(a: &[u8], b: &[u8]) -> (r: KeyOrd)
    ensures
        r == KeyOrd::Less <==> key_cmp_spec(a@, b@) == -1,
        r == KeyOrd::Equal <==> a@ == b@,
        r == KeyOrd::Greater <==> key_cmp_spec(a@, b@) == 1,
{
    proof {
        lemma_cmp_basics(a@, b@);
    }
    let alen: usize = a.len();
    let blen: usize = b.len();
    let min: usize = if alen < blen {
        alen
    } else {
        blen
    };
    let mut i: usize = 0;
    while i < min
        invariant
            0 <= i <= min,
            min <= a@.len(),
            min <= b@.len(),
            min == if a@.len() < b@.len() {
                a@.len()
            } else {
                b@.len()
            },
            a@.subrange(0, i as int) == b@.subrange(0, i as int),
        decreases min - i,
    {
        let x: u8 = a[i];
        let y: u8 = b[i];
        if x < y {
            proof {
                lemma_cmp_skip_prefix(a@, b@, i as int);
                assert(a@.skip(i as int)[0] == a@[i as int]);
                assert(b@.skip(i as int)[0] == b@[i as int]);
            }
            return KeyOrd::Less;
        }
        if x > y {
            proof {
                lemma_cmp_skip_prefix(a@, b@, i as int);
                assert(a@.skip(i as int)[0] == a@[i as int]);
                assert(b@.skip(i as int)[0] == b@[i as int]);
            }
            return KeyOrd::Greater;
        }
        proof {
            assert(a@.subrange(0, i + 1) =~= b@.subrange(0, i + 1)) by {
                assert forall|j: int| 0 <= j < i + 1 implies #[trigger] a@.subrange(0, i + 1)[j]
                    == b@.subrange(0, i + 1)[j] by {
                    if j < i {
                        assert(a@.subrange(0, i as int)[j] == a@[j]);
                        assert(b@.subrange(0, i as int)[j] == b@[j]);
                    }
                }
            }
        }
        i = i + 1;
    }
    proof {
        lemma_cmp_skip_prefix(a@, b@, min as int);
        if alen == blen {
            assert(a@.skip(min as int).len() == 0);
            assert(b@.skip(min as int).len() == 0);
        }
    }
    if alen == blen {
        KeyOrd::Equal
    } else if alen < blen {
        KeyOrd::Less
    } else {
        KeyOrd::Greater
    }
}

/// Executable strict comparison `a < b`.
pub fn key_less(a: &[u8], b: &[u8]) -> (r: bool)
    ensures
        r == key_lt(a@, b@),
{
    matches!(key_compare(a, b), KeyOrd::Less)
}

/// Executable comparison `a <= b`.
pub fn key_less_eq(a: &[u8], b: &[u8]) -> (r: bool)
    ensures
        r == key_le(a@, b@),
{
    proof {
        lemma_cmp_basics(a@, b@);
    }
    !matches!(key_compare(a, b), KeyOrd::Greater)
}

/// Executable equality on keys.
pub fn key_eq(a: &[u8], b: &[u8]) -> (r: bool)
    ensures
        r == (a@ == b@),
{
    matches!(key_compare(a, b), KeyOrd::Equal)
}

} // verus!
