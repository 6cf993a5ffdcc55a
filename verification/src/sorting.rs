//! Sorting through the standard library, with the ordering that std documents.
use vstd::prelude::*;

verus! {

/// The order of `(u64, u64)` pairs that std's `Ord` for tuples implements: lexicographic.
pub open spec fn pair_le(a: (u64, u64), b: (u64, u64)) -> bool {
    a.0 < b.0 || (a.0 == b.0 && a.1 <= b.1)
}

/// The lexicographic order of byte strings that std's `Ord` for `Vec<u8>` implements:
/// the first differing byte decides, and a proper prefix comes first.
pub open spec fn bytes_le(a: Seq<u8>, b: Seq<u8>) -> bool
    decreases a.len(),
{
    if a.len() == 0 {
        true
    } else if b.len() == 0 {
        false
    } else if a[0] != b[0] {
        a[0] < b[0]
    } else {
        bytes_le(a.drop_first(), b.drop_first())
    }
}

/// The strict lexicographic order of byte strings.
pub open spec fn bytes_lt(a: Seq<u8>, b: Seq<u8>) -> bool {
    bytes_le(a, b) && a != b
}

/// Every byte string comes no later than itself.
pub proof fn lemma_bytes_le_reflexive(a: Seq<u8>)
    ensures
        bytes_le(a, a),
    decreases a.len(),
{
    if a.len() > 0 {
        lemma_bytes_le_reflexive(a.drop_first());
    }
}

/// Two byte strings that each come no later than the other are equal.
pub proof fn lemma_bytes_le_antisymmetric(a: Seq<u8>, b: Seq<u8>)
    requires
        bytes_le(a, b),
        bytes_le(b, a),
    ensures
        a == b,
    decreases a.len(),
{
    if a.len() == 0 {
        assert(a =~= b);
    } else {
        lemma_bytes_le_antisymmetric(a.drop_first(), b.drop_first());
        assert forall|i: int| 0 <= i < a.len() implies a[i] == b[i] by {
            if i > 0 {
                assert(a[i] == a.drop_first()[i - 1]);
                assert(b[i] == b.drop_first()[i - 1]);
            }
        }
        assert(a =~= b);
    }
}

/// The lexicographic order of byte strings is transitive.
pub proof fn lemma_bytes_le_transitive(a: Seq<u8>, b: Seq<u8>, c: Seq<u8>)
    requires
        bytes_le(a, b),
        bytes_le(b, c),
    ensures
        bytes_le(a, c),
    decreases a.len(),
{
    if a.len() > 0 && b.len() > 0 && c.len() > 0 && a[0] == b[0] && b[0] == c[0] {
        lemma_bytes_le_transitive(a.drop_first(), b.drop_first(), c.drop_first());
    }
}

/// Any two byte strings are ordered one way or the other.
pub proof fn lemma_bytes_le_total(a: Seq<u8>, b: Seq<u8>)
    ensures
        bytes_le(a, b) || bytes_le(b, a),
    decreases a.len(),
{
    if a.len() > 0 && b.len() > 0 && a[0] == b[0] {
        lemma_bytes_le_total(a.drop_first(), b.drop_first());
    }
}

/// Byte strings that agree on their first `k` bytes are ordered as what follows those bytes.
pub proof fn lemma_bytes_le_after_common_prefix(a: Seq<u8>, b: Seq<u8>, k: int)
    requires
        0 <= k <= a.len(),
        k <= b.len(),
        forall|i: int| 0 <= i < k ==> a[i] == b[i],
    ensures
        bytes_le(a, b) == bytes_le(a.subrange(k, a.len() as int), b.subrange(k, b.len() as int)),
    decreases k,
{
    if k == 0 {
        assert(a.subrange(0, a.len() as int) =~= a);
        assert(b.subrange(0, b.len() as int) =~= b);
    } else {
        lemma_bytes_le_after_common_prefix(a.drop_first(), b.drop_first(), k - 1);
        assert(a.drop_first().subrange(k - 1, a.len() - 1) =~= a.subrange(k, a.len() as int));
        assert(b.drop_first().subrange(k - 1, b.len() - 1) =~= b.subrange(k, b.len() as int));
    }
}

/// The strict order of byte strings is transitive.
pub proof fn lemma_bytes_lt_transitive(a: Seq<u8>, b: Seq<u8>, c: Seq<u8>)
    requires
        bytes_lt(a, b),
        bytes_lt(b, c),
    ensures
        bytes_lt(a, c),
{
    lemma_bytes_le_transitive(a, b, c);
    if a == c {
        lemma_bytes_le_antisymmetric(a, b);
    }
}

/// Of two byte strings, one is strictly before the other, or they are equal.
pub proof fn lemma_bytes_trichotomy(a: Seq<u8>, b: Seq<u8>)
    ensures
        bytes_lt(a, b) || bytes_lt(b, a) || a == b,
{
    lemma_bytes_le_total(a, b);
}

/// Whether `a` comes no later than `b` in byte order.
pub fn bytes_le_exec(a: &[u8], b: &[u8]) -> (r: bool)
    ensures
        r == bytes_le(a@, b@),
{
    let n = a.len();
    let m = b.len();
    let mut i: usize = 0;
    while i < n && i < m
        invariant
            n == a@.len(),
            m == b@.len(),
            i <= n,
            i <= m,
            forall|k: int| 0 <= k < i ==> a@[k] == b@[k],
        decreases n - i,
    {
        if a[i] != b[i] {
            proof {
                lemma_bytes_le_after_common_prefix(a@, b@, i as int);
                let ra = a@.subrange(i as int, n as int);
                let rb = b@.subrange(i as int, m as int);
                assert(ra[0] == a@[i as int] && rb[0] == b@[i as int]);
            }
            return a[i] < b[i];
        }
        i = i + 1;
    }
    proof {
        lemma_bytes_le_after_common_prefix(a@, b@, i as int);
    }
    i == n
}

/// Each byte string comes strictly before every later one.
pub open spec fn strictly_sorted(s: Seq<Seq<u8>>) -> bool {
    forall|i: int, j: int| 0 <= i < j < s.len() ==> bytes_lt(s[i], s[j])
}

/// A set of byte strings has one strictly ascending listing: two strictly sorted sequences
/// with the same elements are equal.
pub proof fn lemma_strictly_sorted_unique(a: Seq<Seq<u8>>, b: Seq<Seq<u8>>)
    requires
        strictly_sorted(a),
        strictly_sorted(b),
        a.to_set() == b.to_set(),
    ensures
        a == b,
    decreases a.len(),
{
    if a.len() == 0 {
        if b.len() > 0 {
            assert(b.to_set().contains(b[0]));
        }
        assert(a =~= b);
    } else {
        assert(a.to_set().contains(a[0]));
        assert(b.len() > 0);
        assert(b.to_set().contains(b[0]));
        let ia = choose|i: int| 0 <= i < a.len() && a[i] == b[0];
        let ib = choose|i: int| 0 <= i < b.len() && b[i] == a[0];
        if ia > 0 {
            assert(bytes_lt(a[0], a[ia]));
        } else {
            lemma_bytes_le_reflexive(a[0]);
        }
        if ib > 0 {
            assert(bytes_lt(b[0], b[ib]));
        } else {
            lemma_bytes_le_reflexive(b[0]);
        }
        lemma_bytes_le_antisymmetric(a[0], b[0]);
        let ta = a.drop_first();
        let tb = b.drop_first();
        assert forall|x: Seq<u8>| ta.to_set().contains(x) implies tb.to_set().contains(x) by {
            let i = choose|i: int| 0 <= i < ta.len() && ta[i] == x;
            assert(a[i + 1] == x);
            assert(bytes_lt(a[0], a[i + 1]));
            assert(a.to_set().contains(x));
            let j = choose|j: int| 0 <= j < b.len() && b[j] == x;
            assert(j != 0);
            assert(tb[j - 1] == x);
        }
        assert forall|x: Seq<u8>| tb.to_set().contains(x) implies ta.to_set().contains(x) by {
            let j = choose|j: int| 0 <= j < tb.len() && tb[j] == x;
            assert(b[j + 1] == x);
            assert(bytes_lt(b[0], b[j + 1]));
            assert(b.to_set().contains(x));
            let i = choose|i: int| 0 <= i < a.len() && a[i] == x;
            assert(i != 0);
            assert(ta[i - 1] == x);
        }
        assert(ta.to_set() =~= tb.to_set());
        assert forall|i: int, j: int| 0 <= i < j < ta.len() implies bytes_lt(ta[i], ta[j]) by {
            assert(bytes_lt(a[i + 1], a[j + 1]));
        }
        assert forall|i: int, j: int| 0 <= i < j < tb.len() implies bytes_lt(tb[i], tb[j]) by {
            assert(bytes_lt(b[i + 1], b[j + 1]));
        }
        lemma_strictly_sorted_unique(ta, tb);
        assert forall|i: int| 0 <= i < a.len() implies a[i] == b[i] by {
            if i > 0 {
                assert(a[i] == ta[i - 1]);
                assert(b[i] == tb[i - 1]);
            }
        }
        assert(a =~= b);
    }
}

/// Calls `slice::sort_unstable` on pairs. std documents that it sorts the slice in
/// ascending order of `Ord`, which for tuples is lexicographic; the result is a
/// permutation of the input.
#[verifier::external_body]
pub fn sort_pairs(v: &mut Vec<(u64, u64)>)
    ensures
        final(v)@.to_multiset() == old(v)@.to_multiset(),
        forall|i: int, j: int| 0 <= i < j < final(v)@.len() ==> pair_le(final(v)@[i], final(v)@[j]),
{
    v.sort_unstable();
}

/// Calls `slice::sort_unstable` on byte strings. std documents that it sorts the slice
/// in ascending order of `Ord`, which for `Vec<u8>` is lexicographic; the result is a
/// permutation of the input.
#[verifier::external_body]
pub fn sort_byte_strings(v: &mut Vec<Vec<u8>>)
    ensures
        final(v)@.map_values(|e: Vec<u8>| e@).to_multiset() == old(v)@.map_values(|e: Vec<u8>| e@).to_multiset(),
        forall|i: int, j: int|
            0 <= i < j < final(v)@.len() ==> bytes_le(final(v)@[i]@, final(v)@[j]@),
{
    v.sort_unstable();
}

} // verus!
