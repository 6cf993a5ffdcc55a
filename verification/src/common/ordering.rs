//! Sort orders of n-grams used when sorting the estimation pipeline's streams.
use vstd::prelude::*;
use crate::types::WordIndex;

verus! {

/// Strict lexicographic order of word sequences: the first differing word decides, and a
/// proper prefix comes first.
pub open spec fn lex_less(a: Seq<WordIndex>, b: Seq<WordIndex>) -> bool
    decreases a.len(),
{
    if a.len() == 0 {
        b.len() > 0
    } else if b.len() == 0 {
        false
    } else if a[0] != b[0] {
        a[0] < b[0]
    } else {
        lex_less(a.drop_first(), b.drop_first())
    }
}

/// The key of suffix order: the first `order` words, last word first.
pub open spec fn suffix_key(l: Seq<WordIndex>, order: usize) -> Seq<WordIndex> {
    l.subrange(0, order as int).reverse()
}

/// The key of context order: the context words (all but the `order`-th) last first, then the
/// predicted word.
pub open spec fn context_key(l: Seq<WordIndex>, order: usize) -> Seq<WordIndex> {
    l.subrange(0, order - 1).reverse().push(l[order - 1])
}

/// The key of prefix order: the first `order` words.
pub open spec fn prefix_key(l: Seq<WordIndex>, order: usize) -> Seq<WordIndex> {
    l.subrange(0, order as int)
}

/// Past a common prefix, the lexicographic order is decided by the rest.
pub proof fn lemma_lex_skip(a: Seq<WordIndex>, b: Seq<WordIndex>, k: int)
    requires
        0 <= k <= a.len(),
        k <= b.len(),
        forall|j: int| 0 <= j < k ==> a[j] == b[j],
    ensures
        lex_less(a, b) == lex_less(a.skip(k), b.skip(k)),
    decreases k,
{
    if k > 0 {
        lemma_lex_skip(a.drop_first(), b.drop_first(), k - 1);
        assert(a.drop_first().skip(k - 1) =~= a.skip(k));
        assert(b.drop_first().skip(k - 1) =~= b.skip(k));
    } else {
        assert(a.skip(0) =~= a);
        assert(b.skip(0) =~= b);
    }
}

/// The lexicographic order is irreflexive.
pub proof fn lemma_lex_irreflexive(a: Seq<WordIndex>)
    ensures
        !lex_less(a, a),
    decreases a.len(),
{
    if a.len() > 0 {
        lemma_lex_irreflexive(a.drop_first());
    }
}

/// The lexicographic order is asymmetric.
pub proof fn lemma_lex_asymmetric(a: Seq<WordIndex>, b: Seq<WordIndex>)
    ensures
        lex_less(a, b) ==> !lex_less(b, a),
    decreases a.len(),
{
    if a.len() > 0 && b.len() > 0 && a[0] == b[0] {
        lemma_lex_asymmetric(a.drop_first(), b.drop_first());
    }
}

/// The lexicographic order is transitive.
pub proof fn lemma_lex_transitive(a: Seq<WordIndex>, b: Seq<WordIndex>, c: Seq<WordIndex>)
    ensures
        lex_less(a, b) && lex_less(b, c) ==> lex_less(a, c),
    decreases a.len(),
{
    if a.len() > 0 && b.len() > 0 && c.len() > 0 {
        lemma_lex_transitive(a.drop_first(), b.drop_first(), c.drop_first());
    }
}

/// A strict order on n-grams, given by the words of their first `order` positions.
pub trait Comparator {
    /// Number of words compared.
    spec fn spec_order(&self) -> usize;

    /// Whether `compare` accepts inputs of these lengths.
    spec fn accepts(&self, lhs_len: nat, rhs_len: nat) -> bool;

    /// The order that `compare` decides.
    spec fn less(&self, lhs: Seq<WordIndex>, rhs: Seq<WordIndex>) -> bool;

    fn order(&self) -> (r: usize)
        ensures
            r == self.spec_order(),
    ;

    /// Whether `lhs` comes strictly before `rhs`.
    fn compare(&self, lhs: &[WordIndex], rhs: &[WordIndex]) -> (r: bool)
        requires
            self.accepts(lhs@.len(), rhs@.len()),
        ensures
            r == self.less(lhs@, rhs@),
    ;
}

/// The outcome of a three-way comparison of two records.
#[derive(Debug, Clone, Copy, PartialEq, Eq)]
pub enum RecordOrder {
    Less,
    Equal,
    Greater,
}

/// A three-way order on n-gram records, for walking several sorted streams together.
pub trait Compare {
    /// How many leading bytes of a record are skipped when it is matched against the record
    /// of the order below.
    fn k_match_offset() -> usize;

    /// The order of `a` and `b`.
    fn compare(a: &[u8], b: &[u8]) -> RecordOrder;
}

/// Compares the words `lhs[pos(i)]`, `rhs[pos(i)]` for `i` in `0..n`, where `pos(i)` is
/// `n - 1 - i` when `backward` and `i` otherwise; returns the order of the first differing
/// pair, or `tiebreak` when all pairs agree.
fn find_diff(lhs: &[WordIndex], rhs: &[WordIndex], n: usize, backward: bool, tiebreak: bool) -> (r: bool)
    requires
        n <= lhs@.len(),
        n <= rhs@.len(),
    ensures
        ({
            let ka = if backward {
                lhs@.subrange(0, n as int).reverse()
            } else {
                lhs@.subrange(0, n as int)
            };
            let kb = if backward {
                rhs@.subrange(0, n as int).reverse()
            } else {
                rhs@.subrange(0, n as int)
            };
            r == if ka == kb {
                tiebreak
            } else {
                lex_less(ka, kb)
            }
        }),
{
    let ghost ka = if backward {
        lhs@.subrange(0, n as int).reverse()
    } else {
        lhs@.subrange(0, n as int)
    };
    let ghost kb = if backward {
        rhs@.subrange(0, n as int).reverse()
    } else {
        rhs@.subrange(0, n as int)
    };
    let mut i: usize = 0;
    while i < n
        invariant
            n <= lhs@.len(),
            n <= rhs@.len(),
            i <= n,
            ka == if backward {
                lhs@.subrange(0, n as int).reverse()
            } else {
                lhs@.subrange(0, n as int)
            },
            kb == if backward {
                rhs@.subrange(0, n as int).reverse()
            } else {
                rhs@.subrange(0, n as int)
            },
            ka.len() == n,
            kb.len() == n,
            forall|j: int| 0 <= j < n ==> ka[j] == if backward { lhs@[n - 1 - j] } else { lhs@[j] },
            forall|j: int| 0 <= j < n ==> kb[j] == if backward { rhs@[n - 1 - j] } else { rhs@[j] },
            forall|j: int| 0 <= j < i ==> ka[j] == kb[j],
        decreases n - i,
    {
        let p = if backward { n - 1 - i } else { i };
        let a = lhs[p];
        let b = rhs[p];
        if a != b {
            proof {
                lemma_lex_skip(ka, kb, i as int);
                assert(ka.skip(i as int)[0] == a);
                assert(kb.skip(i as int)[0] == b);
                assert(ka != kb);
            }
            return a < b;
        }
        i = i + 1;
    }
    assert(ka =~= kb);
    tiebreak
}

/// Order by the first `order` words, last word first.
pub struct SuffixOrder {
    pub order: usize,
}

impl Comparator for SuffixOrder {
    open spec fn spec_order(&self) -> usize {
        self.order
    }

    open spec fn accepts(&self, lhs_len: nat, rhs_len: nat) -> bool {
        self.order <= lhs_len && self.order <= rhs_len
    }

    open spec fn less(&self, lhs: Seq<WordIndex>, rhs: Seq<WordIndex>) -> bool {
        lex_less(suffix_key(lhs, self.order), suffix_key(rhs, self.order))
    }

    fn order(&self) -> (r: usize) {
        self.order
    }

    fn compare(&self, lhs: &[WordIndex], rhs: &[WordIndex]) -> (r: bool) {
        let r = find_diff(lhs, rhs, self.order, true, false);
        proof {
            lemma_lex_irreflexive(suffix_key(lhs@, self.order));
        }
        r
    }
}

/// Order by the context words (last first), then by the predicted word.
pub struct ContextOrder {
    pub order: usize,
}

impl Comparator for ContextOrder {
    open spec fn spec_order(&self) -> usize {
        self.order
    }

    open spec fn accepts(&self, lhs_len: nat, rhs_len: nat) -> bool {
        1 <= self.order <= lhs_len && self.order <= rhs_len
    }

    open spec fn less(&self, lhs: Seq<WordIndex>, rhs: Seq<WordIndex>) -> bool {
        lex_less(context_key(lhs, self.order), context_key(rhs, self.order))
    }

    fn order(&self) -> (r: usize) {
        self.order
    }

    fn compare(&self, lhs: &[WordIndex], rhs: &[WordIndex]) -> (r: bool) {
        context_less(lhs, rhs, self.order)
    }
}

/// Context-order comparison of the first `o` words.
fn context_less(lhs: &[WordIndex], rhs: &[WordIndex], o: usize) -> (r: bool)
    requires
        1 <= o <= lhs@.len(),
        o <= rhs@.len(),
    ensures
        r == lex_less(context_key(lhs@, o), context_key(rhs@, o)),
{
    let last_less = lhs[o - 1] < rhs[o - 1];
    let r = find_diff(lhs, rhs, o - 1, true, last_less);
    proof {
        let pa = lhs@.subrange(0, o - 1).reverse();
        let pb = rhs@.subrange(0, o - 1).reverse();
        let ka = context_key(lhs@, o);
        let kb = context_key(rhs@, o);
        if pa == pb {
            lemma_lex_skip(ka, kb, o - 1);
            assert(ka.skip(o - 1) =~= seq![lhs@[o - 1]]);
            assert(kb.skip(o - 1) =~= seq![rhs@[o - 1]]);
            assert(seq![lhs@[o - 1]].drop_first() =~= Seq::<WordIndex>::empty());
            assert(seq![rhs@[o - 1]].drop_first() =~= Seq::<WordIndex>::empty());
            assert(!lex_less(Seq::<WordIndex>::empty(), Seq::<WordIndex>::empty()));
            assert(lex_less(seq![lhs@[o - 1]], seq![rhs@[o - 1]]) == (lhs@[o - 1] < rhs@[o - 1]));
        } else {
            assert(exists|i: int| 0 <= i < o - 1 && pa[i] != pb[i]) by {
                if !(exists|i: int| 0 <= i < o - 1 && pa[i] != pb[i]) {
                    assert(pa =~= pb);
                }
            }
            lemma_first_diff(pa, pb, (o - 1) as int);
            let m = choose|m: int| 0 <= m < o - 1 && pa[m] != pb[m] && forall|j: int| 0 <= j < m ==> pa[j] == pb[j];
            lemma_lex_skip(ka, kb, m);
            lemma_lex_skip(pa, pb, m);
            assert(ka[m] == pa[m]);
            assert(kb[m] == pb[m]);
            assert(ka.skip(m).len() > 0 && ka.skip(m)[0] == pa[m]);
            assert(kb.skip(m).len() > 0 && kb.skip(m)[0] == pb[m]);
            assert(pa.skip(m).len() > 0 && pa.skip(m)[0] == pa[m]);
            assert(pb.skip(m).len() > 0 && pb.skip(m)[0] == pb[m]);
            assert(lex_less(ka.skip(m), kb.skip(m)) == (pa[m] < pb[m]));
            assert(lex_less(pa.skip(m), pb.skip(m)) == (pa[m] < pb[m]));
        }
    }
    r
}

/// Two sequences that differ somewhere below `n` have a first difference.
proof fn lemma_first_diff(a: Seq<WordIndex>, b: Seq<WordIndex>, n: int)
    requires
        n <= a.len(),
        n <= b.len(),
        exists|i: int| 0 <= i < n && a[i] != b[i],
    ensures
        exists|m: int| 0 <= m < n && a[m] != b[m] && forall|j: int| 0 <= j < m ==> a[j] == b[j],
    decreases n,
{
    if exists|i: int| 0 <= i < n - 1 && a[i] != b[i] {
        lemma_first_diff(a, b, n - 1);
        let m = choose|m: int| 0 <= m < n - 1 && a[m] != b[m] && forall|j: int| 0 <= j < m ==> a[j] == b[j];
        assert(0 <= m < n && a[m] != b[m] && forall|j: int| 0 <= j < m ==> a[j] == b[j]);
    } else {
        assert(a[n - 1] != b[n - 1]);
        assert(forall|j: int| 0 <= j < n - 1 ==> a[j] == b[j]);
    }
}

/// Order by the first `order` words, first word first.
pub struct PrefixOrder {
    pub order: usize,
}

impl Comparator for PrefixOrder {
    open spec fn spec_order(&self) -> usize {
        self.order
    }

    open spec fn accepts(&self, lhs_len: nat, rhs_len: nat) -> bool {
        self.order <= lhs_len && self.order <= rhs_len
    }

    open spec fn less(&self, lhs: Seq<WordIndex>, rhs: Seq<WordIndex>) -> bool {
        lex_less(prefix_key(lhs, self.order), prefix_key(rhs, self.order))
    }

    fn order(&self) -> (r: usize) {
        self.order
    }

    fn compare(&self, lhs: &[WordIndex], rhs: &[WordIndex]) -> (r: bool) {
        let r = find_diff(lhs, rhs, self.order, false, false);
        proof {
            lemma_lex_irreflexive(prefix_key(lhs@, self.order));
        }
        r
    }
}

/// Lexicographic order of whole n-grams read from the last word back; a shorter n-gram
/// that is a suffix of a longer one comes first.
pub struct SuffixLexicographicLess;

impl SuffixLexicographicLess {
    /// Whether `first` comes strictly before `second`.
    pub fn compare(&self, first: &[WordIndex], second: &[WordIndex]) -> (r: bool)
        ensures
            r == lex_less(first@.reverse(), second@.reverse()),
    {
        reversed_less(first, second)
    }
}

/// Whether `first`, read from its last word back, comes strictly before `second`.
fn reversed_less(first: &[WordIndex], second: &[WordIndex]) -> (r: bool)
    ensures
        r == lex_less(first@.reverse(), second@.reverse()),
{
    let n1 = first.len();
    let n2 = second.len();
    let ghost ka = first@.reverse();
    let ghost kb = second@.reverse();
    let mut i: usize = 0;
    loop
        invariant
            n1 == first@.len(),
            n2 == second@.len(),
            ka == first@.reverse(),
            kb == second@.reverse(),
            i <= n1,
            i <= n2,
            forall|j: int| 0 <= j < i ==> ka[j] == kb[j],
        decreases n1 - i,
    {
        if i < n1 && i < n2 {
            let f = first[n1 - 1 - i];
            let s = second[n2 - 1 - i];
            if f != s {
                proof {
                    lemma_lex_skip(ka, kb, i as int);
                }
                return f < s;
            }
            i = i + 1;
        } else {
            proof {
                lemma_lex_skip(ka, kb, i as int);
            }
            if i < n1 {
                return false;
            } else if i < n2 {
                return true;
            } else {
                return n1 < n2;
            }
        }
    }
}

/// Start positions of the streams being merged.
pub struct ChainPositions<'a> {
    pub positions: Vec<&'a [u8]>,
}

impl<'a> ChainPositions<'a> {
    /// Number of streams.
    pub fn size(&self) -> (r: usize)
        ensures
            r == self.positions@.len(),
    {
        self.positions.len()
    }

    /// Stream `index`.
    pub fn get(&self, index: usize) -> (r: &'a [u8])
        requires
            index < self.positions@.len(),
        ensures
            r == self.positions@[index as int],
    {
        self.positions[index]
    }
}

/// A stream of records with a header describing it.
pub struct ProxyStream<'a, T> {
    pub data: Option<&'a [u8]>,
    pub header: T,
}

impl<'a, T> ProxyStream<'a, T> {
    pub fn new(data: Option<&'a [u8]>, header: T) -> (r: Self)
        ensures
            r.data == data,
            r.header == header,
    {
        ProxyStream { data, header }
    }

    /// The records, or nothing for a stream without data.
    pub fn begin(&self) -> (r: &[u8])
        ensures
            r@ == match self.data {
                Some(d) => d@,
                None => Seq::<u8>::empty(),
            },
    {
        match self.data {
            Some(d) => d,
            None => {
                let e: &[u8] = &[];
                assert(e@ =~= Seq::<u8>::empty());
                e
            },
        }
    }

    /// The header.
    pub fn get(&self) -> (r: &T)
        ensures
            r == &self.header,
    {
        &self.header
    }

    /// Whether the stream has data.
    pub fn is_some(&self) -> (r: bool)
        ensures
            r == self.data is Some,
    {
        self.data.is_some()
    }

    /// Moves to the next record; always succeeds.
    pub fn advance(&mut self) -> (r: bool)
        ensures
            r,
            final(self).data == old(self).data,
            final(self).header == old(self).header,
    {
        true
    }
}

/// Header of an n-gram stream: a marker slot and the stream's position.
pub struct NGramHeader {
    pub dummy: Option<usize>,
    pub value: usize,
}

impl NGramHeader {
    pub fn new(dummy: Option<usize>, value: usize) -> (r: Self)
        ensures
            r.dummy == dummy,
            r.value == value,
    {
        NGramHeader { dummy, value }
    }
}

} // verus!
