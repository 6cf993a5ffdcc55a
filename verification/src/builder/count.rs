//! Counting the n-grams of a text.
use vstd::prelude::*;
use vstd::string::StrSliceExecFns;
use crate::bit_packing::{le_encode, le_encode32, write_le_word};
use crate::stream::chain::{Block, Chain};
use crate::utils::pieces::file::{lemma_line_advances, lines_from, FilePiece};
use crate::text::{split_whitespace, str_eq, white_split};

verus! {

/// Statistics of one order: the number of n-grams seen once, twice, three and four or
/// more times, and the numbers of n-grams before and after pruning.
#[derive(Debug, Clone)]
pub struct OrderStat {
    pub n: [u64; 5],
    pub count: u64,
    pub count_pruned: u64,
}

/// Start value of the n-gram hash (the 64-bit FNV offset basis).
pub const FNV_OFFSET: u64 = 14695981039346656037;

/// Multiplier of the n-gram hash (the 64-bit FNV prime).
pub const FNV_PRIME: u64 = 1099511628211;

/// One byte mixed into the hash: xor, then multiply wrapping at 64 bits.
pub open spec fn fnv_step(h: u64, b: u8) -> u64 {
    (((h ^ (b as u64)) as int * FNV_PRIME as int) % 0x1_0000_0000_0000_0000) as u64
}

/// The hash of a byte string.
pub open spec fn fnv_bytes(bs: Seq<u8>) -> u64
    decreases bs.len(),
{
    if bs.len() == 0 {
        FNV_OFFSET
    } else {
        fnv_step(fnv_bytes(bs.drop_last()), bs.last())
    }
}

/// The little-endian bytes of the words of an n-gram.
pub open spec fn ngram_bytes(g: Seq<u32>) -> Seq<u8>
    decreases g.len(),
{
    if g.len() == 0 {
        Seq::empty()
    } else {
        ngram_bytes(g.drop_last()) + le_encode32(g.last())
    }
}

/// The hash under which an n-gram's count is recorded.
pub open spec fn spec_simple_hash(g: Seq<u32>) -> u64 {
    fnv_bytes(ngram_bytes(g))
}

/// Hashes the little-endian bytes of the words of `ngram`.
pub fn simple_hash(ngram: &[u32]) -> (h: u64)
    ensures
        h == spec_simple_hash(ngram@),
{
    let mut h: u64 = FNV_OFFSET;
    let mut i: usize = 0;
    assert(ngram@.take(0) =~= Seq::<u32>::empty());
    while i < ngram.len()
        invariant
            i <= ngram@.len(),
            h == fnv_bytes(ngram_bytes(ngram@.take(i as int))),
        decreases ngram@.len() - i,
    {
        let w = ngram[i];
        let ghost before = ngram_bytes(ngram@.take(i as int));
        let mut j: u64 = 0;
        assert(before + le_encode32(w).take(0) =~= before);
        while j < 4
            invariant
                j <= 4,
                h == fnv_bytes(before + le_encode32(w).take(j as int)),
            decreases 4 - j,
        {
            let b = ((w as u64 >> (8 * j)) & 0xff) as u8;
            proof {
                let next = before + le_encode32(w).take(j + 1);
                assert(next.drop_last() =~= before + le_encode32(w).take(j as int));
                assert(next.last() == b);
            }
            h = (h ^ b as u64).wrapping_mul(FNV_PRIME);
            j = j + 1;
        }
        proof {
            assert(le_encode32(w).take(4) =~= le_encode32(w));
            assert(ngram@.take(i + 1).drop_last() =~= ngram@.take(i as int));
        }
        i = i + 1;
    }
    assert(ngram@.take(ngram@.len() as int) =~= ngram@);
    h
}

/// Counts of n-grams, in the order in which they were first seen.
pub type NgramCountsView = Seq<(Seq<u32>, u64)>;

/// Whether no n-gram is listed twice.
pub open spec fn distinct_keys(es: NgramCountsView) -> bool {
    forall|i: int, j: int| 0 <= i < j < es.len() ==> es[i].0 != es[j].0
}

/// A count one higher, wrapping at 64 bits.
pub open spec fn next_count(c: u64) -> u64 {
    if c == u64::MAX {
        0
    } else {
        (c + 1) as u64
    }
}

/// `es` after one more occurrence of `g`: its count goes up by one (wrapping at 64 bits),
/// or it is listed with count 1.
pub open spec fn add_occurrence(es: NgramCountsView, g: Seq<u32>) -> NgramCountsView {
    if exists|i: int| 0 <= i < es.len() && es[i].0 == g {
        let i = choose|i: int| 0 <= i < es.len() && es[i].0 == g;
        es.update(i, (g, next_count(es[i].1)))
    } else {
        es.push((g, 1u64))
    }
}

/// `es` after the occurrences `t[0..1]`, `t[0..2]`, ..., `t[0..k]`.
pub open spec fn add_prefixes(es: NgramCountsView, t: Seq<u32>, k: nat) -> NgramCountsView
    decreases k,
{
    if k == 0 {
        es
    } else {
        add_occurrence(add_prefixes(es, t, (k - 1) as nat), t.take(k as int))
    }
}

/// The number of n-grams of a sentence that start at `start`: `order`, or fewer near the
/// end.
pub open spec fn lengths_at(tokens: Seq<u32>, order: nat, start: int) -> nat {
    if order < tokens.len() - start {
        order
    } else {
        (tokens.len() - start) as nat
    }
}

/// `es` after the n-grams of `tokens` (up to `order` words) that start before `start`,
/// shorter ones first at each start.
pub open spec fn add_sentence(es: NgramCountsView, tokens: Seq<u32>, order: nat, start: nat) -> NgramCountsView
    decreases start,
{
    if start == 0 {
        es
    } else {
        let s = start - 1;
        add_prefixes(add_sentence(es, tokens, order, s as nat), tokens.skip(s), lengths_at(tokens, order, s))
    }
}

/// Whether `g` is listed in `es`.
pub open spec fn listed(es: NgramCountsView, g: Seq<u32>) -> bool {
    exists|i: int| 0 <= i < es.len() && es[i].0 == g
}

/// The count listed for `g` in `es`, 0 when it is not listed.
pub open spec fn listed_count(es: NgramCountsView, g: Seq<u32>) -> u64 {
    if listed(es, g) {
        es[choose|i: int| 0 <= i < es.len() && es[i].0 == g].1
    } else {
        0
    }
}

/// The number of positions before `start` at which `g` begins in `tokens` as one of the
/// n-grams of at most `order` words counted there.
pub open spec fn occurrences(tokens: Seq<u32>, order: nat, start: nat, g: Seq<u32>) -> nat
    decreases start,
{
    if start == 0 {
        0
    } else {
        let s = start - 1;
        occurrences(tokens, order, s as nat, g) + if 1 <= g.len() <= lengths_at(tokens, order, s) && tokens.subrange(
            s as int,
            s + g.len(),
        ) == g {
            1nat
        } else {
            0nat
        }
    }
}

/// Adding to a count modulo 2^64 in two steps is adding once.
proof fn lemma_wrap_steps(a: int, b: int)
    ensures
        ((a % 0x1_0000_0000_0000_0000) + b) % 0x1_0000_0000_0000_0000 == (a + b) % 0x1_0000_0000_0000_0000,
{
    vstd::arithmetic::div_mod::lemma_add_mod_noop_right(b, a, 0x1_0000_0000_0000_0000);
}

/// One more occurrence of `g` raises its count by one modulo 2^64 and lists it; the other
/// counts stay.
proof fn lemma_add_occurrence(es: NgramCountsView, g: Seq<u32>, h: Seq<u32>)
    requires
        distinct_keys(es),
    ensures
        distinct_keys(add_occurrence(es, g)),
        listed(add_occurrence(es, g), h) == (listed(es, h) || h == g),
        listed_count(add_occurrence(es, g), h) as int == if h == g {
            (listed_count(es, h) + 1) % 0x1_0000_0000_0000_0000
        } else {
            listed_count(es, h) as int
        },
{
    let r = add_occurrence(es, g);
    if listed(es, g) {
        let i = choose|i: int| 0 <= i < es.len() && es[i].0 == g;
        assert(r == es.update(i, (g, next_count(es[i].1))));
        assert forall|a: int, b: int| 0 <= a < b < r.len() implies r[a].0 != r[b].0 by {
            assert(r[a].0 == es[a].0 && r[b].0 == es[b].0);
        }
        if listed(es, h) {
            let j = choose|j: int| 0 <= j < es.len() && es[j].0 == h;
            assert(r[j].0 == h);
            let jr = choose|j: int| 0 <= j < r.len() && r[j].0 == h;
            assert(jr == j);
        }
        if listed(r, h) {
            let jr = choose|j: int| 0 <= j < r.len() && r[j].0 == h;
            assert(es[jr].0 == h);
        }
        if h == g {
            let jr = choose|j: int| 0 <= j < r.len() && r[j].0 == h;
            assert(jr == i);
            if es[i].1 == u64::MAX {
                vstd::arithmetic::div_mod::lemma_mod_self_0(0x1_0000_0000_0000_0000);
            } else {
                vstd::arithmetic::div_mod::lemma_small_mod((es[i].1 + 1) as nat, 0x1_0000_0000_0000_0000);
            }
        }
    } else {
        assert(r == es.push((g, 1u64)));
        assert forall|a: int, b: int| 0 <= a < b < r.len() implies r[a].0 != r[b].0 by {
            if b == es.len() {
                assert(r[a].0 == es[a].0);
            }
        }
        let n = es.len() as int;
        assert(r[n].0 == g);
        if listed(es, h) {
            let j = choose|j: int| 0 <= j < es.len() && es[j].0 == h;
            assert(r[j].0 == h);
            let jr = choose|j: int| 0 <= j < r.len() && r[j].0 == h;
            if jr != j {
                assert(jr == n);
            }
        }
        if listed(r, h) {
            let jr = choose|j: int| 0 <= j < r.len() && r[j].0 == h;
            if jr < n {
                assert(es[jr].0 == h);
            }
        }
        if h == g {
            let jr = choose|j: int| 0 <= j < r.len() && r[j].0 == h;
            assert(jr == n);
            vstd::arithmetic::div_mod::lemma_small_mod(1, 0x1_0000_0000_0000_0000);
        }
    }
}

/// Adding the prefixes of `t` of 1 to `k` words counts `h` once more when it is one of them.
proof fn lemma_add_prefixes(es: NgramCountsView, t: Seq<u32>, k: nat, h: Seq<u32>)
    requires
        distinct_keys(es),
        k <= t.len(),
    ensures
        distinct_keys(add_prefixes(es, t, k)),
        ({
            let hit = 1 <= h.len() <= k && t.take(h.len() as int) == h;
            &&& listed(add_prefixes(es, t, k), h) == (listed(es, h) || hit)
            &&& listed_count(add_prefixes(es, t, k), h) as int == (listed_count(es, h) + if hit {
                1int
            } else {
                0int
            }) % 0x1_0000_0000_0000_0000
        }),
    decreases k,
{
    vstd::arithmetic::div_mod::lemma_small_mod(listed_count(es, h) as nat, 0x1_0000_0000_0000_0000);
    if k > 0 {
        let before = add_prefixes(es, t, (k - 1) as nat);
        lemma_add_prefixes(es, t, (k - 1) as nat, h);
        lemma_add_occurrence(before, t.take(k as int), h);
        let hit = 1 <= h.len() <= k && t.take(h.len() as int) == h;
        let hit0 = 1 <= h.len() <= k - 1 && t.take(h.len() as int) == h;
        assert((h == t.take(k as int)) == (hit && !hit0));
        let c0 = listed_count(es, h) as int + if hit0 { 1int } else { 0int };
        if h == t.take(k as int) {
            lemma_wrap_steps(c0, 1);
        }
    }
}

/// Counting the n-grams of a sentence that start before `start` adds, to the count of each
/// n-gram, the number of those starts at which it occurs (modulo 2^64), and lists exactly
/// the n-grams listed before or occurring there; no n-gram is listed twice.
pub proof fn law_sentence_counts(es: NgramCountsView, tokens: Seq<u32>, order: nat, start: nat, g: Seq<u32>)
    requires
        distinct_keys(es),
        start <= tokens.len(),
    ensures
        distinct_keys(add_sentence(es, tokens, order, start)),
        listed(add_sentence(es, tokens, order, start), g) == (listed(es, g) || occurrences(tokens, order, start, g) > 0),
        listed_count(add_sentence(es, tokens, order, start), g) as int == (listed_count(es, g) + occurrences(
            tokens,
            order,
            start,
            g,
        )) % 0x1_0000_0000_0000_0000,
    decreases start,
{
    vstd::arithmetic::div_mod::lemma_small_mod(listed_count(es, g) as nat, 0x1_0000_0000_0000_0000);
    if start > 0 {
        let s = (start - 1) as nat;
        let before = add_sentence(es, tokens, order, s);
        law_sentence_counts(es, tokens, order, s, g);
        let t = tokens.skip(s as int);
        let k = lengths_at(tokens, order, s as int);
        lemma_add_prefixes(before, t, k, g);
        let hit = 1 <= g.len() <= k && t.take(g.len() as int) == g;
        if 1 <= g.len() <= k {
            assert(t.take(g.len() as int) =~= tokens.subrange(s as int, (s + g.len()) as int));
        }
        lemma_wrap_steps(listed_count(es, g) + occurrences(tokens, order, s, g), if hit { 1int } else { 0int });
    }
}

/// Counts n-grams.
pub struct NgramCounter {
    ngrams: Vec<Vec<u32>>,
    counts: Vec<u64>,
}

impl NgramCounter {
    /// The counts so far.
    pub closed spec fn view(&self) -> NgramCountsView {
        Seq::new(self.ngrams@.len(), |i: int| (self.ngrams@[i]@, self.counts@[i]))
    }

    /// Invariant: one count per n-gram, each n-gram once.
    pub closed spec fn wf(&self) -> bool {
        &&& self.ngrams@.len() == self.counts@.len()
        &&& distinct_keys(self.view())
    }

    /// No n-grams yet.
    pub fn new() -> (r: Self)
        ensures
            r.wf(),
            r.view() == Seq::<(Seq<u32>, u64)>::empty(),
    {
        let r = NgramCounter { ngrams: Vec::new(), counts: Vec::new() };
        assert(r.view() =~= Seq::<(Seq<u32>, u64)>::empty());
        r
    }

    /// Number of distinct n-grams.
    pub fn len(&self) -> (r: usize)
        requires
            self.wf(),
        ensures
            r == self.view().len(),
    {
        self.ngrams.len()
    }

    /// The `i`-th n-gram and its count.
    pub fn get(&self, i: usize) -> (r: (&Vec<u32>, u64))
        requires
            self.wf(),
            i < self.view().len(),
        ensures
            r.0@ == self.view()[i as int].0,
            r.1 == self.view()[i as int].1,
    {
        (&self.ngrams[i], self.counts[i])
    }

    /// Records one occurrence of `g`.
    pub fn add(&mut self, g: &[u32])
        requires
            old(self).wf(),
        ensures
            final(self).wf(),
            final(self).view() == add_occurrence(old(self).view(), g@),
    {
        let ghost es = self.view();
        let mut i: usize = 0;
        while i < self.ngrams.len()
            invariant
                self.ngrams@.len() == self.counts@.len(),
                es == self.view(),
                es == old(self).view(),
                distinct_keys(es),
                i <= self.ngrams@.len(),
                forall|j: int| 0 <= j < i ==> es[j].0 != g@,
            decreases self.ngrams@.len() - i,
        {
            if words_eq(self.ngrams[i].as_slice(), g) {
                let c = self.counts[i];
                self.counts.set(i, if c == u64::MAX { 0 } else { c + 1 });
                proof {
                    assert(es[i as int].0 == g@);
                    let k = choose|k: int| 0 <= k < es.len() && es[k].0 == g@;
                    assert(k == i) by {
                        if k != i {
                            if k < i {
                                assert(es[k].0 != g@);
                            } else {
                                assert(es[i as int].0 != es[k].0);
                            }
                        }
                    }
                    assert(self.view() =~= es.update(i as int, (g@, next_count(es[i as int].1))));
                }
                return;
            }
            i = i + 1;
        }
        let copy = vstd::slice::slice_to_vec(g);
        self.ngrams.push(copy);
        self.counts.push(1);
        proof {
            assert(!exists|k: int| 0 <= k < es.len() && es[k].0 == g@);
            assert(self.view() =~= es.push((g@, 1u64)));
        }
    }

    /// Records the n-grams of `tokens` of up to `order` words: for each start, the n-grams
    /// of one word, two words, and so on.
    pub fn add_sentence(&mut self, tokens: &[u32], order: usize)
        requires
            old(self).wf(),
        ensures
            final(self).wf(),
            final(self).view() == add_sentence(old(self).view(), tokens@, order as nat, tokens@.len()),
    {
        let ghost es = self.view();
        let n = tokens.len();
        let mut start: usize = 0;
        while start < n
            invariant
                n == tokens@.len(),
                start <= n,
                self.wf(),
                self.view() == add_sentence(es, tokens@, order as nat, start as nat),
            decreases n - start,
        {
            let m = if order < n - start { order } else { n - start };
            let ghost base = self.view();
            let ghost t = tokens@.skip(start as int);
            let mut len: usize = 0;
            while len < m
                invariant
                    n == tokens@.len(),
                    start < n,
                    m == lengths_at(tokens@, order as nat, start as int),
                    m <= n - start,
                    t == tokens@.skip(start as int),
                    len <= m,
                    self.wf(),
                    self.view() == add_prefixes(base, t, len as nat),
                decreases m - len,
            {
                len = len + 1;
                let g = vstd::slice::slice_subrange(tokens, start, start + len);
                assert(g@ =~= t.take(len as int));
                self.add(g);
            }
            start = start + 1;
        }
    }
}

/// Whether two n-grams hold the same words.
pub(crate) fn words_eq(a: &[u32], b: &[u32]) -> (r: bool)
    ensures
        r == (a@ == b@),
{
    if a.len() != b.len() {
        return false;
    }
    let mut i: usize = 0;
    while i < a.len()
        invariant
            a@.len() == b@.len(),
            i <= a@.len(),
            forall|k: int| 0 <= k < i ==> a@[k] == b@[k],
        decreases a@.len() - i,
    {
        if a[i] != b[i] {
            return false;
        }
        i = i + 1;
    }
    assert(a@ =~= b@);
    true
}

/// Id of word `w` when `known` are the other words seen so far, in order: 1 for `<s>`, 2
/// for `</s>`, else 3 plus the position of its first sighting (wrapping at 32 bits).
pub open spec fn word_id(known: Seq<Seq<char>>, w: Seq<char>) -> u32 {
    if w == "<s>"@ {
        1
    } else if w == "</s>"@ {
        2
    } else if known.contains(w) {
        (3 + known.index_of(w)) as u32
    } else {
        (3 + known.len()) as u32
    }
}

/// The words seen so far once `w` is seen too.
pub open spec fn learn(known: Seq<Seq<char>>, w: Seq<char>) -> Seq<Seq<char>> {
    if w == "<s>"@ || w == "</s>"@ || known.contains(w) {
        known
    } else {
        known.push(w)
    }
}

/// The ids of `words` in turn, and the words seen after them.
pub open spec fn assign_ids(known: Seq<Seq<char>>, words: Seq<Seq<char>>) -> (Seq<u32>, Seq<Seq<char>>)
    decreases words.len(),
{
    if words.len() == 0 {
        (Seq::empty(), known)
    } else {
        let (ids, k2) = assign_ids(known, words.drop_last());
        (ids.push(word_id(k2, words.last())), learn(k2, words.last()))
    }
}

/// `x + y`, wrapping at 64 bits.
pub open spec fn wrap_add(x: u64, y: u64) -> u64 {
    if x + y > u64::MAX {
        (x + y - 0x1_0000_0000_0000_0000) as u64
    } else {
        (x + y) as u64
    }
}

/// What counting the text has built: the words seen (besides the markers), the n-gram
/// counts and the number of words.
pub struct CountState {
    pub known: Seq<Seq<char>>,
    pub counts: NgramCountsView,
    pub total: u64,
}

/// The state after one more line: an empty line changes nothing; otherwise its words, with
/// `<s>` before and `</s>` after, give the n-grams of up to `order` words.
pub open spec fn count_line(st: CountState, line: Seq<char>, order: nat) -> CountState {
    if line.len() == 0 {
        st
    } else {
        let words = white_split(line);
        let (ids, k2) = assign_ids(st.known, words);
        let tokens = seq![1u32] + ids + seq![2u32];
        CountState {
            known: k2,
            counts: add_sentence(st.counts, tokens, order, tokens.len()),
            total: wrap_add(st.total, words.len() as u64),
        }
    }
}

/// The state after the lines `lines`, in order.
pub open spec fn count_lines(lines: Seq<Seq<char>>, order: nat) -> CountState
    decreases lines.len(),
{
    if lines.len() == 0 {
        CountState { known: Seq::empty(), counts: Seq::empty(), total: 0 }
    } else {
        count_line(count_lines(lines.drop_last(), order), lines.last(), order)
    }
}

/// The tokens of line `line` when the words of `known` have been seen: `<s>`, the ids of its
/// words, `</s>`.
pub open spec fn line_tokens(known: Seq<Seq<char>>, line: Seq<char>) -> Seq<u32> {
    seq![1u32] + assign_ids(known, white_split(line)).0 + seq![2u32]
}

/// The number of times `g` occurs, as an n-gram of at most `order` words, over the
/// sentences of the non-empty lines of `lines`.
pub open spec fn lines_occurrences(lines: Seq<Seq<char>>, order: nat, g: Seq<u32>) -> nat
    decreases lines.len(),
{
    if lines.len() == 0 {
        0
    } else {
        let line = lines.last();
        lines_occurrences(lines.drop_last(), order, g) + if line.len() == 0 {
            0nat
        } else {
            let tokens = line_tokens(count_lines(lines.drop_last(), order).known, line);
            occurrences(tokens, order, tokens.len(), g)
        }
    }
}

/// Counting lines lists each n-gram once, exactly the n-grams that occur in their sentences,
/// each with its number of occurrences (modulo 2^64).
pub proof fn law_count_lines_counts(lines: Seq<Seq<char>>, order: nat, g: Seq<u32>)
    ensures
        distinct_keys(count_lines(lines, order).counts),
        listed(count_lines(lines, order).counts, g) == (lines_occurrences(lines, order, g) > 0),
        listed_count(count_lines(lines, order).counts, g) as int == lines_occurrences(lines, order, g)
            % 0x1_0000_0000_0000_0000,
    decreases lines.len(),
{
    if lines.len() == 0 {
        vstd::arithmetic::div_mod::lemma_small_mod(0, 0x1_0000_0000_0000_0000);
    } else {
        let init = lines.drop_last();
        let st = count_lines(init, order);
        law_count_lines_counts(init, order, g);
        let line = lines.last();
        if line.len() > 0 {
            let tokens = line_tokens(st.known, line);
            law_sentence_counts(st.counts, tokens, order, tokens.len(), g);
            lemma_wrap_steps(lines_occurrences(init, order, g) as int, occurrences(tokens, order, tokens.len(), g) as int);
        }
    }
}

/// Gives words their ids.
pub struct WordIds {
    known: Vec<String>,
}

impl WordIds {
    /// The words seen so far, besides the sentence markers.
    pub closed spec fn known(&self) -> Seq<Seq<char>> {
        self.known@.map_values(|w: String| w@)
    }

    /// Invariant: each word once, no marker.
    pub closed spec fn wf(&self) -> bool {
        &&& self.known().no_duplicates()
        &&& !self.known().contains("<s>"@)
        &&& !self.known().contains("</s>"@)
    }

    pub fn new() -> (r: Self)
        ensures
            r.wf(),
            r.known() == Seq::<Seq<char>>::empty(),
    {
        let r = WordIds { known: Vec::new() };
        assert(r.known() =~= Seq::<Seq<char>>::empty());
        r
    }

    /// The id of `w`, learning it when it is new.
    pub fn id_of(&mut self, w: &str) -> (r: u32)
        requires
            old(self).wf(),
        ensures
            final(self).wf(),
            r == word_id(old(self).known(), w@),
            final(self).known() == learn(old(self).known(), w@),
    {
        if str_eq(w, "<s>") {
            return 1;
        }
        if str_eq(w, "</s>") {
            return 2;
        }
        let ghost ks = self.known();
        let mut i: usize = 0;
        while i < self.known.len()
            invariant
                ks == self.known(),
                ks == old(self).known(),
                self.wf(),
                i <= self.known@.len(),
                forall|j: int| 0 <= j < i ==> ks[j] != w@,
            decreases self.known@.len() - i,
        {
            if str_eq(self.known[i].as_str(), w) {
                proof {
                    assert(ks[i as int] == w@);
                    assert(ks.contains(w@));
                    ks.index_of_first_ensures(w@);
                    assert(ks.index_of(w@) == i) by {
                        let k = ks.index_of(w@);
                        if k != i {
                            if k < i {
                                assert(ks[k] != w@);
                            } else {
                                assert(ks[i as int] != ks[k]);
                            }
                        }
                    }
                }
                return #[verifier::truncate] ((3u128 + i as u128) as u32);
            }
            i = i + 1;
        }
        let n = self.known.len();
        self.known.push(w.to_owned());
        proof {
            assert(!ks.contains(w@));
            assert(self.known() =~= ks.push(w@));
        }
        #[verifier::truncate] ((3u128 + n as u128) as u32)
    }
}

/// The record of an n-gram and its count: its hash, then the count, little-endian.
pub open spec fn count_record(e: (Seq<u32>, u64)) -> Seq<u8> {
    le_encode(spec_simple_hash(e.0)) + le_encode(e.1)
}

/// The records of the counts, one after the other.
pub open spec fn count_records(es: NgramCountsView) -> Seq<u8>
    decreases es.len(),
{
    if es.len() == 0 {
        Seq::empty()
    } else {
        count_records(es.drop_last()) + count_record(es.last())
    }
}

/// The contents of blocks, one after the other.
pub open spec fn blocks_contents(bs: Seq<Block>) -> Seq<u8>
    decreases bs.len(),
{
    if bs.len() == 0 {
        Seq::empty()
    } else {
        blocks_contents(bs.drop_last()) + bs.last().contents()
    }
}

/// The record of one count.
fn encode_count(g: &[u32], count: u64) -> (r: Vec<u8>)
    ensures
        r@ == count_record((g@, count)),
{
    let mut e: Vec<u8> = vec![0u8; 16];
    let h = simple_hash(g);
    write_le_word(e.as_mut_slice(), 0, h);
    write_le_word(e.as_mut_slice(), 8, count);
    assert(e@ =~= count_record((g@, count)));
    e
}

/// Each record takes 16 bytes.
proof fn lemma_count_records_len(es: NgramCountsView)
    ensures
        count_records(es).len() == 16 * es.len(),
    decreases es.len(),
{
    if es.len() > 0 {
        lemma_count_records_len(es.drop_last());
    }
}

/// The records of `es[a..c]` are those of `es[a..b]` followed by those of `es[b..c]`.
proof fn lemma_count_records_split(es: NgramCountsView, a: int, b: int, c: int)
    requires
        0 <= a <= b <= c <= es.len(),
    ensures
        count_records(es.subrange(a, c)) == count_records(es.subrange(a, b)) + count_records(es.subrange(b, c)),
    decreases c - b,
{
    if c == b {
        assert(es.subrange(b, c) =~= Seq::<(Seq<u32>, u64)>::empty());
        assert(count_records(es.subrange(a, b)) + Seq::<u8>::empty() =~= count_records(es.subrange(a, b)));
    } else {
        lemma_count_records_split(es, a, b, c - 1);
        assert(es.subrange(a, c).drop_last() =~= es.subrange(a, c - 1));
        assert(es.subrange(b, c).drop_last() =~= es.subrange(b, c - 1));
        assert(es.subrange(a, c).last() == es[c - 1]);
        assert(es.subrange(b, c).last() == es[c - 1]);
        assert(count_records(es.subrange(a, b)) + count_records(es.subrange(b, c - 1)) + count_record(es[c - 1])
            =~= count_records(es.subrange(a, b)) + (count_records(es.subrange(b, c - 1)) + count_record(es[c - 1])));
    }
}

/// Number of times a block fills up while `e` records are written `q` to a block.
pub open spec fn full_blocks(e: nat, q: nat) -> nat {
    if e == 0 || q == 0 {
        0
    } else {
        ((e - 1) / q as int) as nat
    }
}

/// Whether `chain` can take `e` records of 16 bytes, written as `write_counts` writes them:
/// its pool blocks are empty and of the chain's block size (plus 16 bytes, within `usize`),
/// and it has the blocks and the room that the writing takes.
pub open spec fn chain_can_take(chain: Chain, e: nat) -> bool {
    let b = chain.spec_block_size() as int;
    let q = (b / 16) as nat;
    &&& chain.wf()
    &&& b + 16 <= usize::MAX
    &&& chain.recycled().len() <= chain.block_count()
    &&& forall|i: int|
        0 <= i < chain.recycled().len() ==> (#[trigger] chain.recycled()[i]).wf() && chain.recycled()[i].write_pos()
            == 0 && chain.recycled()[i].data().len() == b
    &&& chain.recycled().len() >= full_blocks(e, q) + 1
    &&& q >= 1 && e > 0 ==> chain.filled().len() + full_blocks(e, q) + 1 <= chain.block_count()
}

/// Writes the record of each count, in order, into blocks of `chain`: a block that cannot
/// take the next record is passed on and a new one taken from the pool; the last block is
/// passed on too. With blocks smaller than a record nothing is written.
pub fn write_counts(chain: &mut Chain, counter: &NgramCounter)
    requires
        counter.wf(),
        chain_can_take(*old(chain), counter.view().len()),
    ensures
        final(chain).wf(),
        old(chain).spec_block_size() >= 16 ==> final(chain).filled().take(old(chain).filled().len() as int)
            == old(chain).filled() && blocks_contents(final(chain).filled().skip(old(chain).filled().len() as int))
            == count_records(counter.view()),
        old(chain).spec_block_size() < 16 ==> final(chain).filled() == old(chain).filled(),
{
    let ghost es = counter.view();
    let ghost f0 = chain.filled();
    let ghost r0 = chain.recycled();
    let ghost bsz = chain.spec_block_size() as int;
    let ghost q: int = bsz / 16;
    let e = counter.len();
    let mut block = chain.add();
    let ghost mut p: int = 0;
    let mut i: usize = 0;
    assert(es.subrange(0, 0) =~= Seq::<(Seq<u32>, u64)>::empty());
    assert(f0.skip(f0.len() as int) =~= Seq::<Block>::empty());
    assert(es.take(0) =~= Seq::<(Seq<u32>, u64)>::empty());
    assert(chain.filled().take(f0.len() as int) =~= f0);
    while i < e
        invariant
            es == counter.view(),
            counter.wf(),
            e == es.len(),
            i <= e,
            bsz == chain.spec_block_size(),
            q == bsz / 16,
            bsz >= 0,
            bsz + 16 <= usize::MAX,
            chain.wf(),
            chain.block_count() == old(chain).block_count(),
            block.wf(),
            block.data().len() == bsz,
            forall|k: int|
                0 <= k < chain.recycled().len() ==> (#[trigger] chain.recycled()[k]).wf()
                    && chain.recycled()[k].write_pos() == 0 && chain.recycled()[k].data().len() == bsz,
            q == 0 ==> block.write_pos() == 0 && chain.filled() == f0 && chain.recycled().len() == r0.len() - 1
                && r0.len() <= chain.block_count(),
            q >= 1 ==> 0 <= p,
            q >= 1 ==> p * q <= i,
            q >= 1 ==> i - p * q <= q,
            q >= 1 ==> (i > 0 ==> i - p * q >= 1),
            q >= 1 ==> block.write_pos() == 16 * (i - p * q),
            q >= 1 ==> block.contents() == count_records(es.subrange(p * q, i as int)),
            q >= 1 ==> chain.filled().take(f0.len() as int) == f0,
            q >= 1 ==> chain.filled().len() == f0.len() + p,
            q >= 1 ==> blocks_contents(chain.filled().skip(f0.len() as int)) == count_records(es.take(p * q)),
            q >= 1 ==> chain.recycled().len() == r0.len() - 1 - p,
            q >= 1 ==> r0.len() >= full_blocks(e as nat, q as nat) + 1,
            q >= 1 ==> (e > 0 ==> f0.len() + full_blocks(e as nat, q as nat) + 1 <= chain.block_count()),
            q >= 1 ==> (i > 0 ==> p <= full_blocks(i as nat, q as nat)),
        decreases e - i,
    {
        let (g, c) = counter.get(i);
        let rec = encode_count(g.as_slice(), c);
        proof {
            lemma_count_records_len(seq![es[i as int]]);
            assert(seq![es[i as int]].drop_last() =~= Seq::<(Seq<u32>, u64)>::empty());
            assert(rec@.len() == 16);
            if q >= 1 {
                assert(16 * (i - p * q) <= 16 * q) by (nonlinear_arith)
                    requires
                        i - p * q <= q,
                ;
                assert(16 * q <= bsz) by (nonlinear_arith)
                    requires
                        q == bsz / 16,
                        bsz >= 0,
                ;
            }
        }
        let pushed = block.push(rec.as_slice());
        if !pushed {
            let ghost old_block = block;
            let ghost prev_filled = chain.filled();
            proof {
                if q >= 1 {
                    assert(i - p * q == q) by (nonlinear_arith)
                        requires
                            16 * (i - p * q) + 16 > bsz,
                            i - p * q <= q,
                            q == bsz / 16,
                            bsz >= 0,
                    ;
                    assert(p + 1 <= full_blocks(e as nat, q as nat)) by (nonlinear_arith)
                        requires
                            p * q + q == i,
                            i < e,
                            q >= 1,
                            full_blocks(e as nat, q as nat) == (e - 1) / q,
                    ;
                }
            }
            chain.pass(block);
            block = chain.add();
            let again = block.push(rec.as_slice());
            proof {
                if q >= 1 {
                    assert(16 <= bsz) by (nonlinear_arith)
                        requires
                            q >= 1,
                            q == bsz / 16,
                    ;
                    let fil = chain.filled();
                    assert(fil.take(f0.len() as int) =~= f0);
                    assert(fil.skip(f0.len() as int) =~= prev_filled.skip(f0.len() as int).push(old_block));
                    assert(fil.skip(f0.len() as int).drop_last() =~= prev_filled.skip(f0.len() as int));
                    assert((p + 1) * q == p * q + q) by (nonlinear_arith);
                    lemma_count_records_split(es, 0, p * q, (p + 1) * q);
                    assert(es.subrange(0, p * q) =~= es.take(p * q));
                    assert(es.subrange(0, (p + 1) * q) =~= es.take((p + 1) * q));
                    assert(block.contents() =~= rec@);
                    assert(block.write_pos() == 16);
                    assert(es.subrange((p + 1) * q, i + 1) =~= seq![es[i as int]]);
                    assert(count_records(seq![es[i as int]]) =~= rec@);
                    assert(p + 1 <= full_blocks((i + 1) as nat, q as nat)) by (nonlinear_arith)
                        requires
                            (p + 1) * q <= i,
                            q >= 1,
                            full_blocks((i + 1) as nat, q as nat) == (i as int) / q,
                    ;
                    p = p + 1;
                }
            }
        } else {
            proof {
                if q >= 1 {
                    lemma_count_records_split(es, p * q, i as int, i + 1);
                    assert(es.subrange(i as int, i + 1) =~= seq![es[i as int]]);
                    assert(count_records(seq![es[i as int]]) =~= rec@);
                    if i > 0 {
                        assert(p <= full_blocks((i + 1) as nat, q as nat)) by (nonlinear_arith)
                            requires
                                p <= full_blocks(i as nat, q as nat),
                                full_blocks(i as nat, q as nat) == (i - 1) / q,
                                full_blocks((i + 1) as nat, q as nat) == (i as int) / q,
                                q >= 1,
                                i >= 1,
                        ;
                    } else {
                        assert(p == 0) by (nonlinear_arith)
                            requires
                                p * q <= 0,
                                q >= 1,
                                p >= 0,
                        ;
                    }
                    assert(i - p * q + 1 <= q) by (nonlinear_arith)
                        requires
                            16 * (i - p * q) + 16 <= bsz,
                            q == bsz / 16,
                            bsz >= 0,
                    ;
                    assert(block.write_pos() == 16 * (i + 1 - p * q));
                }
            }
        }
        i = i + 1;
    }
    let ghost prev_filled = chain.filled();
    let ghost last = block;
    chain.pass(block);
    proof {
        if q >= 1 {
            lemma_count_records_split(es, 0, p * q, e as int);
            assert(es.subrange(0, p * q) =~= es.take(p * q));
            assert(es.subrange(0, e as int) =~= es);
            let fil = chain.filled();
            if e > 0 {
                assert(fil.take(f0.len() as int) =~= f0);
                assert(fil.skip(f0.len() as int) =~= prev_filled.skip(f0.len() as int).push(last));
                assert(fil.skip(f0.len() as int).drop_last() =~= prev_filled.skip(f0.len() as int));
            } else {
                assert(es.subrange(0, 0) =~= Seq::<(Seq<u32>, u64)>::empty());
                assert(es.take(0) =~= Seq::<(Seq<u32>, u64)>::empty());
            }
        }
    }
}

/// Counts the n-grams of up to `order` words of the lines of a file, from the reader's
/// position to the end, each non-empty line a sentence between `<s>` and `</s>`, words
/// numbered as they are first seen, and writes the record of each distinct n-gram and its
/// count to `chain` (in the order in which the n-grams were first seen). Gives back the number
/// of words read.
pub fn count_ngrams_to_chain(fp: &mut FilePiece, order: usize, chain: &mut Chain) -> (r: u64)
    requires
        old(fp).wf(),
        chain_can_take(*old(chain), count_lines(lines_from(old(fp).bytes(), old(fp).pos()), order as nat).counts.len()),
    ensures
        final(fp).wf(),
        final(fp).bytes() == old(fp).bytes(),
        final(fp).name() == old(fp).name(),
        final(fp).pos() == old(fp).bytes().len(),
        r == count_lines(lines_from(old(fp).bytes(), old(fp).pos()), order as nat).total,
        final(chain).wf(),
        old(chain).spec_block_size() >= 16 ==> final(chain).filled().take(old(chain).filled().len() as int)
            == old(chain).filled() && blocks_contents(final(chain).filled().skip(old(chain).filled().len() as int))
            == count_records(count_lines(lines_from(old(fp).bytes(), old(fp).pos()), order as nat).counts),
        old(chain).spec_block_size() < 16 ==> final(chain).filled() == old(chain).filled(),
{
    let ghost all = lines_from(fp.bytes(), fp.pos());
    let ghost mut done: Seq<Seq<char>> = Seq::empty();
    let mut ids = WordIds::new();
    let mut counter = NgramCounter::new();
    let mut total: u64 = 0;
    assert(done + all =~= all);
    while !fp.at_end()
        invariant
            fp.wf(),
            fp.bytes() == old(fp).bytes(),
            fp.name() == old(fp).name(),
            all == lines_from(old(fp).bytes(), old(fp).pos()),
            done + lines_from(fp.bytes(), fp.pos()) == all,
            ids.wf(),
            counter.wf(),
            ids.known() == count_lines(done, order as nat).known,
            counter.view() == count_lines(done, order as nat).counts,
            total == count_lines(done, order as nat).total,
        ensures
            fp.wf(),
            fp.bytes() == old(fp).bytes(),
            fp.name() == old(fp).name(),
            done + lines_from(fp.bytes(), fp.pos()) == all,
            ids.wf(),
            counter.wf(),
            ids.known() == count_lines(done, order as nat).known,
            counter.view() == count_lines(done, order as nat).counts,
            total == count_lines(done, order as nat).total,
            fp.pos() >= fp.bytes().len(),
        decreases fp.bytes().len() - fp.pos(),
    {
        proof {
            fp.lemma_pos_bounds();
            lemma_line_advances(fp.bytes(), fp.pos(), '\n' as u8);
        }
        let ghost p = fp.pos();
        let text = match fp.read_line('\n', true) {
            Ok(t) => t,
            Err(_) => {
                break;
            },
        };
        let line = text.as_str();
        proof {
            let rest = lines_from(fp.bytes(), p);
            assert(rest == seq![line@] + lines_from(fp.bytes(), fp.pos()));
            assert(done.push(line@) + lines_from(fp.bytes(), fp.pos()) =~= done + rest);
            assert(done.push(line@).drop_last() =~= done);
            assert(done.push(line@).last() == line@);
        }
        if line.unicode_len() != 0 {
            let words = split_whitespace(line);
            let ghost ws = words@.map_values(|t: &str| t@);
            let ghost k0 = ids.known();
            let mut tokens: Vec<u32> = Vec::new();
            tokens.push(1);
            let mut j: usize = 0;
            assert(ws.take(0) =~= Seq::<Seq<char>>::empty());
            while j < words.len()
                invariant
                    ws == words@.map_values(|t: &str| t@),
                    j <= words@.len(),
                    ids.wf(),
                    tokens@ == seq![1u32] + assign_ids(k0, ws.take(j as int)).0,
                    ids.known() == assign_ids(k0, ws.take(j as int)).1,
                decreases words@.len() - j,
            {
                let id = ids.id_of(words[j]);
                tokens.push(id);
                proof {
                    assert(ws.take(j + 1).drop_last() =~= ws.take(j as int));
                    assert(ws.take(j + 1).last() == words@[j as int]@);
                    assert(tokens@ =~= seq![1u32] + assign_ids(k0, ws.take(j + 1)).0);
                }
                j = j + 1;
            }
            tokens.push(2);
            total = total.wrapping_add(words.len() as u64);
            proof {
                assert(ws.take(ws.len() as int) =~= ws);
                assert(tokens@ =~= seq![1u32] + assign_ids(k0, ws).0 + seq![2u32]);
            }
            counter.add_sentence(tokens.as_slice(), order);
        }
        proof {
            done = done.push(line@);
        }
    }
    proof {
        fp.lemma_pos_bounds();
        assert(lines_from(fp.bytes(), fp.pos()).len() == 0);
        assert(done =~= all);
    }
    write_counts(chain, &counter);
    total
}

} // verus!
