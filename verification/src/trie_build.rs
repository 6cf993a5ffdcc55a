//! Laying a trie out from the n-grams of an ARPA file: each order sorted by its words read
//! last word first, the pointers from each entry to the entries that extend it, and the
//! weights carried as the bit patterns that were read.
use vstd::prelude::*;
use vstd::seq_lib::{to_multiset_build, to_multiset_insert};
use crate::common::ordering::{lex_less, lemma_lex_asymmetric, lemma_lex_transitive};
use crate::types::WordIndex;
use crate::error::LMError;
use crate::trie_format::UnigramRecord;
use crate::trie::{
    context_before, law_sorted_layer_partitioned, law_word_starts_count_smaller, next_starts, word_starts,
};
use crate::model::{mark_independent, set_extension, with_sign, sign_bit};

verus! {

/// Whether `a` comes strictly before `b` when both are read last word first.
pub open spec fn suffix_less(a: Seq<WordIndex>, b: Seq<WordIndex>) -> bool {
    lex_less(a.reverse(), b.reverse())
}

/// An n-gram with the bits of its weights.
pub type Weighted = (Vec<WordIndex>, u32, u32);

/// The words and weights of weighted n-grams.
pub open spec fn weighted_views(v: Seq<Weighted>) -> Seq<(Seq<WordIndex>, u32, u32)> {
    v.map_values(|e: Weighted| (e.0@, e.1, e.2))
}

/// Whether the n-grams of `v` are in suffix order: none comes strictly before an earlier one.
pub open spec fn suffix_sorted(v: Seq<(Seq<WordIndex>, u32, u32)>) -> bool {
    forall|i: int, j: int| 0 <= i < j < v.len() ==> !suffix_less(#[trigger] v[j].0, #[trigger] v[i].0)
}

/// Compares two n-grams read last word first.
pub fn suffix_less_exec(a: &[WordIndex], b: &[WordIndex]) -> (r: bool)
    ensures
        r == suffix_less(a@, b@),
{
    let ghost ra = a@.reverse();
    let ghost rb = b@.reverse();
    let la = a.len();
    let lb = b.len();
    let mut i: usize = 0;
    while i < la && i < lb
        invariant
            la == a@.len(),
            lb == b@.len(),
            ra == a@.reverse(),
            rb == b@.reverse(),
            i <= la,
            i <= lb,
            forall|k: int| 0 <= k < i ==> ra[k] == rb[k],
        decreases la - i,
    {
        let x = a[la - 1 - i];
        let y = b[lb - 1 - i];
        assert(ra[i as int] == x && rb[i as int] == y);
        if x != y {
            proof {
                crate::common::ordering::lemma_lex_skip(ra, rb, i as int);
                assert(ra.skip(i as int)[0] == x);
                assert(rb.skip(i as int)[0] == y);
            }
            return x < y;
        }
        i = i + 1;
    }
    proof {
        crate::common::ordering::lemma_lex_skip(ra, rb, i as int);
        assert(ra.skip(i as int).len() == la - i);
        assert(rb.skip(i as int).len() == lb - i);
    }
    la < lb
}

/// A copy of weighted n-gram `e`.
fn copy_weighted(e: &Weighted) -> (r: Weighted)
    ensures
        (r.0@, r.1, r.2) == (e.0@, e.1, e.2),
{
    (vstd::slice::slice_to_vec(e.0.as_slice()), e.1, e.2)
}

/// The n-grams of `v` in suffix order; n-grams that compare equal keep their order.
pub fn sort_suffix_order(v: &Vec<Weighted>) -> (r: Vec<Weighted>)
    ensures
        suffix_sorted(weighted_views(r@)),
        weighted_views(r@).to_multiset() == weighted_views(v@).to_multiset(),
{
    let mut out: Vec<Weighted> = Vec::new();
    let mut i: usize = 0;
    assert(weighted_views(out@) =~= weighted_views(v@).take(0));
    while i < v.len()
        invariant
            i <= v@.len(),
            suffix_sorted(weighted_views(out@)),
            weighted_views(out@).to_multiset() == weighted_views(v@).take(i as int).to_multiset(),
        decreases v@.len() - i,
    {
        let e = copy_weighted(&v[i]);
        let ghost ev = (e.0@, e.1, e.2);
        let ghost ov = weighted_views(out@);
        let mut pos: usize = 0;
        while pos < out.len() && !suffix_less_exec(e.0.as_slice(), out[pos].0.as_slice())
            invariant
                pos <= out@.len(),
                ov == weighted_views(out@),
                ev == (e.0@, e.1, e.2),
                forall|k: int| 0 <= k < pos ==> !suffix_less(ev.0, #[trigger] ov[k].0),
            decreases out@.len() - pos,
        {
            assert(ov[pos as int].0 == out@[pos as int].0@);
            pos = pos + 1;
        }
        proof {
            if pos < out@.len() {
                assert(ov[pos as int].0 == out@[pos as int].0@);
            }
        }
        out.insert(pos, e);
        proof {
            let nv = weighted_views(out@);
            assert(nv =~= ov.insert(pos as int, ev));
            to_multiset_insert(ov, pos as int, ev);
            assert(weighted_views(v@).take(i + 1) =~= weighted_views(v@).take(i as int).push(ev));
            assert(weighted_views(v@)[i as int] == ev);
            to_multiset_build(weighted_views(v@).take(i as int), ev);
            assert forall|a: int, b: int| 0 <= a < b < nv.len() implies !suffix_less(#[trigger] nv[b].0, #[trigger] nv[a].0) by {
                if b < pos {
                    assert(nv[a] == ov[a] && nv[b] == ov[b]);
                } else if a > pos {
                    assert(nv[a] == ov[a - 1] && nv[b] == ov[b - 1]);
                } else if a == pos {
                    assert(nv[b] == ov[b - 1]);
                    assert(suffix_less(ev.0, ov[pos as int].0));
                    if b - 1 > pos {
                        assert(!suffix_less(ov[b - 1].0, ov[pos as int].0));
                    }
                    if suffix_less(ov[b - 1].0, ev.0) {
                        lemma_lex_transitive(ov[b - 1].0.reverse(), ev.0.reverse(), ov[pos as int].0.reverse());
                        if b - 1 == pos {
                            lemma_lex_asymmetric(ev.0.reverse(), ov[pos as int].0.reverse());
                        }
                    }
                } else if b == pos {
                    assert(nv[a] == ov[a]);
                } else {
                    assert(nv[a] == ov[a] && nv[b] == ov[b - 1]);
                }
            }
        }
        i = i + 1;
    }
    assert(weighted_views(v@).take(v@.len() as int) =~= weighted_views(v@));
    out
}

/// Whether every word of `ids` is below `n`.
pub open spec fn ids_below(ids: Seq<WordIndex>, n: u64) -> bool {
    forall|j: int| 0 <= j < ids.len() ==> ids[j] < n
}

/// Whether `list` holds `count` n-grams of `len` words each, every word below `vocab`.
pub open spec fn order_list_ok(list: Seq<(Seq<WordIndex>, u32, u32)>, len: int, count: u64, vocab: u64) -> bool {
    &&& list.len() == count
    &&& forall|i: int| 0 <= i < list.len() ==> (#[trigger] list[i]).0.len() == len && ids_below(list[i].0, vocab)
}

/// The words and weights of each list of weighted n-grams.
pub open spec fn ngram_views(ngrams: Seq<Vec<Weighted>>) -> Seq<Seq<(Seq<WordIndex>, u32, u32)>> {
    ngrams.map_values(|l: Vec<Weighted>| weighted_views(l@))
}

/// Whether the input of a trie is well formed: `counts` has one count per order, the
/// unigram weights one pair per word, and list `k` of `ngrams` the n-grams of order `k + 2`.
pub open spec fn layout_input_ok(
    counts: Seq<u64>,
    unigrams: Seq<(u32, u32)>,
    ngrams: Seq<Seq<(Seq<WordIndex>, u32, u32)>>,
) -> bool {
    &&& counts.len() >= 1
    &&& unigrams.len() == counts[0]
    &&& ngrams.len() + 1 == counts.len()
    &&& forall|k: int| 0 <= k < ngrams.len() ==> order_list_ok(#[trigger] ngrams[k], k + 2, counts[k + 1], counts[0])
}

/// Whether `list` holds `count` n-grams of `len` words each, every word below `vocab`.
fn list_valid(list: &Vec<Weighted>, len: usize, count: u64, vocab: u64) -> (r: bool)
    ensures
        r == order_list_ok(weighted_views(list@), len as int, count, vocab),
{
    let ghost wv = weighted_views(list@);
    if list.len() as u64 != count {
        return false;
    }
    let mut i: usize = 0;
    while i < list.len()
        invariant
            wv == weighted_views(list@),
            i <= list@.len(),
            forall|a: int| 0 <= a < i ==> (#[trigger] wv[a]).0.len() == len && ids_below(wv[a].0, vocab),
        decreases list@.len() - i,
    {
        let ids = &list[i].0;
        assert(wv[i as int].0 == ids@);
        if ids.len() != len {
            return false;
        }
        let mut j: usize = 0;
        while j < ids.len()
            invariant
                wv == weighted_views(list@),
                i < list@.len(),
                wv[i as int].0 == ids@,
                j <= ids@.len(),
                forall|b: int| 0 <= b < j ==> ids@[b] < vocab,
            decreases ids@.len() - j,
        {
            if ids[j] as u64 >= vocab {
                assert(!ids_below(wv[i as int].0, vocab));
                return false;
            }
            j = j + 1;
        }
        i = i + 1;
    }
    true
}

/// Whether the input of a trie is well formed (see `layout_input_ok`).
fn layout_input_valid(counts: &Vec<u64>, unigrams: &Vec<(u32, u32)>, ngrams: &Vec<Vec<Weighted>>) -> (r: bool)
    ensures
        r == layout_input_ok(counts@, unigrams@, ngram_views(ngrams@)),
{
    let ghost nv = ngram_views(ngrams@);
    if counts.len() == 0 {
        return false;
    }
    if unigrams.len() as u64 != counts[0] {
        return false;
    }
    if ngrams.len() != counts.len() - 1 {
        return false;
    }
    let mut k: usize = 0;
    while k < ngrams.len()
        invariant
            nv == ngram_views(ngrams@),
            ngrams@.len() + 1 == counts@.len(),
            counts@.len() <= usize::MAX,
            k <= ngrams@.len(),
            forall|a: int| 0 <= a < k ==> order_list_ok(#[trigger] nv[a], a + 2, counts@[a + 1], counts@[0]),
        decreases ngrams@.len() - k,
    {
        assert(nv[k as int] == weighted_views(ngrams@[k as int]@));
        if !list_valid(&ngrams[k], k + 2, counts[k + 1], counts[0]) {
            return false;
        }
        k = k + 1;
    }
    true
}

/// The word lists of weighted n-grams.
fn word_lists(v: &Vec<Weighted>) -> (r: Vec<Vec<WordIndex>>)
    ensures
        r@.len() == v@.len(),
        forall|i: int| 0 <= i < v@.len() ==> (#[trigger] r@[i])@ == v@[i].0@,
{
    let mut r: Vec<Vec<WordIndex>> = Vec::new();
    let mut i: usize = 0;
    while i < v.len()
        invariant
            i <= v@.len(),
            r@.len() == i,
            forall|a: int| 0 <= a < i ==> (#[trigger] r@[a])@ == v@[a].0@,
        decreases v@.len() - i,
    {
        r.push(vstd::slice::slice_to_vec(v[i].0.as_slice()));
        i = i + 1;
    }
    r
}

/// The last words of bigrams.
fn last_words(v: &Vec<Weighted>) -> (r: Vec<WordIndex>)
    requires
        forall|i: int| 0 <= i < v@.len() ==> (#[trigger] v@[i]).0@.len() == 2,
    ensures
        r@.len() == v@.len(),
        forall|i: int| 0 <= i < v@.len() ==> #[trigger] r@[i] == v@[i].0@[1],
{
    let mut r: Vec<WordIndex> = Vec::new();
    let mut i: usize = 0;
    while i < v.len()
        invariant
            i <= v@.len(),
            r@.len() == i,
            forall|a: int| 0 <= a < v@.len() ==> (#[trigger] v@[a]).0@.len() == 2,
            forall|a: int| 0 <= a < i ==> #[trigger] r@[a] == v@[a].0@[1],
        decreases v@.len() - i,
    {
        r.push(v[i].0[1]);
        i = i + 1;
    }
    r
}

/// A reordering of a well-formed list of n-grams is well formed.
proof fn lemma_reordered_list_ok(
    a: Seq<(Seq<WordIndex>, u32, u32)>,
    b: Seq<(Seq<WordIndex>, u32, u32)>,
    len: int,
    count: u64,
    vocab: u64,
)
    requires
        order_list_ok(b, len, count, vocab),
        a.to_multiset() == b.to_multiset(),
    ensures
        order_list_ok(a, len, count, vocab),
{
    vstd::seq_lib::to_multiset_len(a);
    vstd::seq_lib::to_multiset_len(b);
    assert forall|i: int| 0 <= i < a.len() implies (#[trigger] a[i]).0.len() == len && ids_below(a[i].0, vocab) by {
        vstd::seq_lib::to_multiset_contains(a, a[i]);
        assert(a.contains(a[i]));
        vstd::seq_lib::to_multiset_contains(b, a[i]);
        let j = choose|j: int| 0 <= j < b.len() && b[j] == a[i];
        assert(b[j] == a[i]);
    }
}

/// In suffix order, bigrams ascend by their last word.
proof fn lemma_bigrams_ascend(v: Seq<(Seq<WordIndex>, u32, u32)>)
    requires
        suffix_sorted(v),
        forall|i: int| 0 <= i < v.len() ==> (#[trigger] v[i]).0.len() == 2,
    ensures
        forall|i: int, j: int| 0 <= i <= j < v.len() ==> v[i].0[1] <= v[j].0[1],
{
    assert forall|i: int, j: int| 0 <= i <= j < v.len() implies v[i].0[1] <= v[j].0[1] by {
        if i < j {
            assert(!suffix_less(v[j].0, v[i].0));
            let ri = v[i].0.reverse();
            let rj = v[j].0.reverse();
            assert(ri[0] == v[i].0[1]);
            assert(rj[0] == v[j].0[1]);
        }
    }
}

/// Whether some bigram of `bigrams` ends in word `w`.
pub open spec fn ends_in(bigrams: Seq<(Seq<WordIndex>, u32, u32)>, w: int) -> bool {
    exists|i: int| 0 <= i < bigrams.len() && bigrams[i].0[1] == w
}

/// The stored weights of unigram `w`: its probability with the sign bit set, and its
/// backoff, where -0.0 becomes +0.0 once a bigram ends in `w`; the records past the
/// vocabulary hold zeros.
pub open spec fn stored_unigram(unigrams: Seq<(u32, u32)>, bigrams: Seq<(Seq<WordIndex>, u32, u32)>, w: int) -> (u32, u32) {
    if 0 <= w < unigrams.len() {
        (
            with_sign(unigrams[w].0),
            if ends_in(bigrams, w) && unigrams[w].1 == sign_bit() {
                0u32
            } else {
                unigrams[w].1
            },
        )
    } else {
        (0u32, 0u32)
    }
}

/// Whether record `rec` of word `w` says where the bigrams ending in `w` begin: after
/// exactly those ending in a smaller word.
pub open spec fn next_is_run_start(rec: UnigramRecord, w: int, bigrams: Seq<(Seq<WordIndex>, u32, u32)>) -> bool {
    &&& rec.next <= bigrams.len()
    &&& forall|i: int| 0 <= i < rec.next ==> bigrams[i].0[1] < w
    &&& forall|i: int| rec.next <= i < bigrams.len() ==> bigrams[i].0[1] >= w
}

/// The unigram records of a trie over bigrams in suffix order: one per word, then two that
/// close the table.
#[verifier::spinoff_prover]
fn unigram_records(unigrams: &Vec<(u32, u32)>, bigrams: &Vec<Weighted>) -> (r: Vec<UnigramRecord>)
    requires
        unigrams@.len() + 2 <= usize::MAX,
        suffix_sorted(weighted_views(bigrams@)),
        forall|i: int| 0 <= i < bigrams@.len() ==> (#[trigger] bigrams@[i]).0@.len() == 2,
    ensures
        r@.len() == unigrams@.len() + 2,
        forall|w: int| 0 <= w < r@.len() ==> (#[trigger] r@[w].prob, r@[w].backoff) == stored_unigram(
            unigrams@,
            weighted_views(bigrams@),
            w,
        ),
        forall|w: int| 0 <= w < r@.len() ==> next_is_run_start(#[trigger] r@[w], w, weighted_views(bigrams@)),
{
    let ghost bv = weighted_views(bigrams@);
    assert forall|i: int| 0 <= i < bv.len() implies (#[trigger] bv[i]).0.len() == 2 by {
        assert(bv[i].0 == bigrams@[i].0@);
    }
    proof {
        lemma_bigrams_ascend(bv);
    }
    let words = last_words(bigrams);
    assert forall|i: int| 0 <= i < words@.len() implies words@[i] == bv[i].0[1] by {
        assert(bv[i].0 == bigrams@[i].0@);
    }
    let n = unigrams.len();
    let starts = word_starts(&words, n + 2);
    let mut r: Vec<UnigramRecord> = Vec::new();
    let mut w: usize = 0;
    while w < n + 2
        invariant
            n == unigrams@.len(),
            n + 2 <= usize::MAX,
            w <= n + 2,
            r@.len() == w,
            starts@.len() == n + 2,
            words@.len() == bv.len(),
            forall|i: int| 0 <= i < words@.len() ==> words@[i] == bv[i].0[1],
            forall|i: int, j: int| 0 <= i <= j < bv.len() ==> bv[i].0[1] <= bv[j].0[1],
            forall|v: int| 0 <= v < n + 2 ==> #[trigger] starts@[v] == crate::trie::word_run_start(words@, v as nat),
            forall|v: int| 0 <= v < w ==> (#[trigger] r@[v].prob, r@[v].backoff) == stored_unigram(
                unigrams@,
                Seq::empty(),
                v,
            ),
            forall|v: int| 0 <= v < w ==> next_is_run_start(#[trigger] r@[v], v, bv),
        decreases n + 2 - w,
    {
        let (prob, backoff) = if w < n {
            (mark_independent(unigrams[w].0), unigrams[w].1)
        } else {
            (0u32, 0u32)
        };
        let rec = UnigramRecord { prob, backoff, next: starts[w] };
        proof {
            law_word_starts_count_smaller(words@, w as nat);
            assert(rec.next == crate::trie::word_run_start(words@, w as nat));
            assert forall|i: int| 0 <= i < rec.next implies bv[i].0[1] < w by {
                assert(words@[i] == bv[i].0[1]);
            }
            assert forall|i: int| rec.next <= i < bv.len() implies bv[i].0[1] >= w by {
                assert(words@[i] == bv[i].0[1]);
            }
        }
        r.push(rec);
        w = w + 1;
    }
    let mut i: usize = 0;
    while i < bigrams.len()
        invariant
            bv == weighted_views(bigrams@),
            n == unigrams@.len(),
            r@.len() == n + 2,
            i <= bv.len(),
            words@.len() == bv.len(),
            forall|a: int| 0 <= a < words@.len() ==> words@[a] == bv[a].0[1],
            forall|v: int| 0 <= v < n + 2 ==> (#[trigger] r@[v].prob, r@[v].backoff) == stored_unigram(
                unigrams@,
                bv.take(i as int),
                v,
            ),
            forall|v: int| 0 <= v < n + 2 ==> next_is_run_start(#[trigger] r@[v], v, bv),
        decreases bv.len() - i,
    {
        let word = words[i] as usize;
        if word < r.len() {
            let mut rec = r[word];
            set_extension(&mut rec.backoff);
            r.set(word, rec);
        }
        proof {
            let before = bv.take(i as int);
            let after = bv.take(i + 1);
            assert forall|v: int| 0 <= v < n + 2 implies (#[trigger] r@[v].prob, r@[v].backoff) == stored_unigram(
                unigrams@,
                after,
                v,
            ) by {
                assert(ends_in(after, v) == (ends_in(before, v) || bv[i as int].0[1] == v)) by {
                    if ends_in(after, v) {
                        let a = choose|a: int| 0 <= a < after.len() && after[a].0[1] == v;
                        if a < i {
                            assert(before[a] == after[a]);
                        }
                    }
                    if ends_in(before, v) {
                        let a = choose|a: int| 0 <= a < before.len() && before[a].0[1] == v;
                        assert(before[a] == after[a]);
                    }
                    if bv[i as int].0[1] == v {
                        assert(after[i as int] == bv[i as int]);
                    }
                }
            }
        }
        i = i + 1;
    }
    assert(bv.take(bv.len() as int) =~= bv);
    r
}

/// The tables of a trie before they are packed into bits: the unigram records, each order
/// of two words or more in suffix order, and for each order below the highest, where the
/// successors of each of its n-grams begin in the next order, closed by that order's size.
pub struct TrieLayout {
    pub unigrams: Vec<UnigramRecord>,
    pub orders: Vec<Vec<Weighted>>,
    pub nexts: Vec<Vec<u64>>,
}

/// The bigrams of a layout, empty when it has no order above the first.
pub open spec fn layout_bigrams(orders: Seq<Vec<Weighted>>) -> Seq<(Seq<WordIndex>, u32, u32)> {
    if orders.len() > 0 {
        weighted_views(orders[0]@)
    } else {
        Seq::empty()
    }
}

/// Whether `next` gives, for each n-gram of `cur`, where its successors in `succ` begin:
/// after exactly those whose context comes before it; the last pointer is `succ`'s size.
pub open spec fn next_pointers(
    next: Seq<u64>,
    cur: Seq<(Seq<WordIndex>, u32, u32)>,
    succ: Seq<(Seq<WordIndex>, u32, u32)>,
) -> bool {
    &&& next.len() == cur.len() + 1
    &&& next[cur.len() as int] == succ.len()
    &&& forall|c: int| 0 <= c < cur.len() ==> #[trigger] next[c] <= succ.len()
    &&& forall|c: int, j: int| 0 <= c < cur.len() && 0 <= j < next[c] ==> context_before(#[trigger] succ[j].0, #[trigger] cur[c].0)
    &&& forall|c: int, j: int| 0 <= c < cur.len() && next[c] <= j < succ.len() ==> !context_before(#[trigger] succ[j].0, #[trigger] cur[c].0)
}

/// Whether `t` lays out the trie of `unigrams` and the n-gram lists `input`: its unigram
/// records hold the stored weights and where each word's bigrams begin, each order holds the
/// n-grams of its list with their weights, in suffix order, and the next pointers link each
/// order to the next.
pub open spec fn layout_built(
    t: TrieLayout,
    unigrams: Seq<(u32, u32)>,
    input: Seq<Seq<(Seq<WordIndex>, u32, u32)>>,
) -> bool {
    let ov = ngram_views(t.orders@);
    let bigrams = layout_bigrams(t.orders@);
    &&& t.unigrams@.len() == unigrams.len() + 2
    &&& forall|w: int| 0 <= w < t.unigrams@.len() ==> (#[trigger] t.unigrams@[w].prob, t.unigrams@[w].backoff) == stored_unigram(unigrams, bigrams, w)
    &&& forall|w: int| 0 <= w < t.unigrams@.len() ==> next_is_run_start(#[trigger] t.unigrams@[w], w, bigrams)
    &&& ov.len() == input.len()
    &&& forall|k: int| 0 <= k < ov.len() ==> suffix_sorted(#[trigger] ov[k])
    &&& forall|k: int| 0 <= k < ov.len() ==> (#[trigger] ov[k]).to_multiset() == input[k].to_multiset()
    &&& t.nexts@.len() == if ov.len() > 0 { ov.len() - 1 } else { 0 }
    &&& forall|k: int| 0 <= k < t.nexts@.len() ==> next_pointers(#[trigger] t.nexts@[k]@, ov[k], ov[k + 1])
}

/// Lays out the trie of an ARPA file whose counts are `counts`, whose unigram weights (as
/// bits) are `unigrams`, by word, and whose n-grams of order `k + 2` are `ngrams[k]`: each
/// order is sorted by its words read last word first, each unigram record gets where the
/// bigrams ending in its word begin, and each n-gram below the highest order gets where its
/// successors begin in the next order. Fails when the lists do not match the counts.
#[verifier::spinoff_prover]
pub fn build_trie_layout(counts: &Vec<u64>, unigrams: &Vec<(u32, u32)>, ngrams: &Vec<Vec<Weighted>>) -> (r: Result<
    TrieLayout,
    LMError,
>)
    requires
        unigrams@.len() + 2 <= usize::MAX,
    ensures
        r is Ok <==> layout_input_ok(counts@, unigrams@, ngram_views(ngrams@)),
        r matches Ok(t) ==> layout_built(t, unigrams@, ngram_views(ngrams@)),
        r matches Err(e) ==> e matches LMError::FormatError(_),
{
    if !layout_input_valid(counts, unigrams, ngrams) {
        return Err(LMError::FormatError("n-gram lists do not match the counts".to_owned()));
    }
    let ghost nv = ngram_views(ngrams@);
    let mut orders: Vec<Vec<Weighted>> = Vec::new();
    let mut k: usize = 0;
    while k < ngrams.len()
        invariant
            nv == ngram_views(ngrams@),
            layout_input_ok(counts@, unigrams@, nv),
            k <= ngrams@.len(),
            orders@.len() == k,
            forall|a: int| 0 <= a < k ==> suffix_sorted(#[trigger] ngram_views(orders@)[a]),
            forall|a: int| 0 <= a < k ==> (#[trigger] ngram_views(orders@)[a]).to_multiset() == nv[a].to_multiset(),
            forall|a: int| 0 <= a < k ==> order_list_ok(#[trigger] ngram_views(orders@)[a], a + 2, counts@[a + 1], counts@[0]),
        decreases ngrams@.len() - k,
    {
        let sorted = sort_suffix_order(&ngrams[k]);
        proof {
            assert(nv[k as int] == weighted_views(ngrams@[k as int]@));
            assert(order_list_ok(nv[k as int], k + 2, counts@[k + 1], counts@[0]));
            lemma_reordered_list_ok(weighted_views(sorted@), nv[k as int], k + 2, counts@[k + 1], counts@[0]);
        }
        let ghost before = orders@;
        orders.push(sorted);
        proof {
            assert forall|a: int| 0 <= a <= k implies ngram_views(orders@)[a] == if a < k {
                ngram_views(before)[a]
            } else {
                weighted_views(sorted@)
            } by {}
        }
        k = k + 1;
    }
    let ghost ov = ngram_views(orders@);
    let mut nexts: Vec<Vec<u64>> = Vec::new();
    let mut k: usize = 0;
    while k < orders.len() && k + 1 < orders.len()
        invariant
            ov == ngram_views(orders@),
            orders@.len() == nv.len(),
            nv.len() + 1 == counts@.len(),
            forall|a: int| 0 <= a < ov.len() ==> suffix_sorted(#[trigger] ov[a]),
            forall|a: int| 0 <= a < ov.len() ==> order_list_ok(#[trigger] ov[a], a + 2, counts@[a + 1], counts@[0]),
            k <= orders@.len(),
            orders@.len() > 0 ==> k + 1 <= orders@.len(),
            nexts@.len() == k,
            forall|a: int| 0 <= a < k ==> next_pointers(#[trigger] nexts@[a]@, ov[a], ov[a + 1]),
        decreases orders@.len() - k,
    {
        let cur = word_lists(&orders[k]);
        let succ = word_lists(&orders[k + 1]);
        let ghost cv = ov[k as int];
        let ghost sv = ov[k + 1];
        let ghost succ_views = succ@.map_values(|e: Vec<WordIndex>| e@);
        proof {
            assert(order_list_ok(sv, k + 3, counts@[k + 2], counts@[0]));
            assert forall|j: int| 0 <= j < succ_views.len() implies (#[trigger] succ_views[j]).len() == k + 3 by {
                assert(succ_views[j] == succ@[j]@);
                assert(succ@[j]@ == orders@[k + 1]@[j].0@);
                assert(sv[j].0 == orders@[k + 1]@[j].0@);
            }
            assert forall|i: int, j: int| 0 <= i < j < succ_views.len() implies !crate::common::ordering::lex_less(
                succ_views[j].reverse(),
                succ_views[i].reverse(),
            ) by {
                assert(succ_views[i] == sv[i].0 && succ_views[j] == sv[j].0);
                assert(!suffix_less(sv[j].0, sv[i].0));
            }
            assert forall|key: Seq<WordIndex>| #[trigger] crate::trie::partitioned_by(succ_views, key) by {
                law_sorted_layer_partitioned(succ_views, (k + 3) as nat, key);
            }
            assert forall|j: int| 0 <= j < succ@.len() implies (#[trigger] succ@[j])@.len() >= 1 by {
                assert(succ_views[j] == succ@[j]@);
            }
        }
        let starts = next_starts(&cur, &succ);
        proof {
            assert forall|c: int| 0 <= c < cur@.len() implies crate::trie::partitioned_by(
                succ@.map_values(|e: Vec<WordIndex>| e@),
                #[trigger] cur@[c]@,
            ) by {
                assert(crate::trie::partitioned_by(succ_views, cur@[c]@));
            }
            assert forall|c: int| 0 <= c < cv.len() implies cur@[c]@ == (#[trigger] cv[c]).0 by {}
            assert forall|j: int| 0 <= j < sv.len() implies succ@[j]@ == (#[trigger] sv[j]).0 by {}
            assert(next_pointers(starts@, cv, sv));
        }
        nexts.push(starts);
        k = k + 1;
    }
    let empty: Vec<Weighted> = Vec::new();
    let bigrams = if orders.len() > 0 {
        &orders[0]
    } else {
        &empty
    };
    proof {
        if orders@.len() > 0 {
            assert(order_list_ok(ov[0], 2, counts@[1], counts@[0]));
            assert(ov[0] == weighted_views(orders@[0]@));
        }
        assert forall|i: int| 0 <= i < bigrams@.len() implies (#[trigger] bigrams@[i]).0@.len() == 2 by {
            assert(weighted_views(bigrams@)[i].0 == bigrams@[i].0@);
        }
        assert(weighted_views(bigrams@) == layout_bigrams(orders@));
    }
    let records = unigram_records(unigrams, bigrams);
    let t = TrieLayout { unigrams: records, orders, nexts };
    Ok(t)
}

} // verus!
