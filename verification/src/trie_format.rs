//! The binary format of a trie's tables: the unigram records and the bit-packed layers, as
//! bytes.
use vstd::prelude::*;
use crate::bit_packing::{le_byte, le_encode, le_encode32, lemma_le_decode_encode, read_le, read_le_word};
use crate::hash::le_bytes;
use crate::error::LMError;

verus! {

/// Appends the 8 little-endian bytes of `x`.
fn push_u64(out: &mut Vec<u8>, x: u64)
    ensures
        final(out)@ == old(out)@ + le_encode(x),
{
    let mut i: u64 = 0;
    while i < 8
        invariant
            i <= 8,
            out@ == old(out)@ + le_encode(x).take(i as int),
        decreases 8 - i,
    {
        let b = ((x >> (8 * i)) & 0xff) as u8;
        assert(b == le_byte(x, i as int));
        out.push(b);
        assert(le_encode(x).take(i + 1) =~= le_encode(x).take(i as int).push(b));
        i = i + 1;
    }
    assert(le_encode(x).take(8) =~= le_encode(x));
}

/// Appends the 4 little-endian bytes of `x`.
fn push_u32(out: &mut Vec<u8>, x: u32)
    ensures
        final(out)@ == old(out)@ + le_encode32(x),
{
    let mut i: u64 = 0;
    while i < 4
        invariant
            i <= 4,
            out@ == old(out)@ + le_encode32(x).take(i as int),
        decreases 4 - i,
    {
        let b = (((x as u64) >> (8 * i)) & 0xff) as u8;
        assert(b == le_byte(x as u64, i as int));
        out.push(b);
        assert(le_encode32(x).take(i + 1) =~= le_encode32(x).take(i as int).push(b));
        i = i + 1;
    }
    assert(le_encode32(x).take(4) =~= le_encode32(x));
}

proof fn lemma_le4_encode(x: u32)
    by (bit_vector)
    ensures
        x as u64 == (((0u64 | ((((x as u64 >> 0u64) & 0xff) as u8 as u64) << 0u64)) | ((((x as u64 >> 8u64)
            & 0xff) as u8 as u64) << 8u64)) | ((((x as u64 >> 16u64) & 0xff) as u8 as u64) << 16u64))
            | ((((x as u64 >> 24u64) & 0xff) as u8 as u64) << 24u64),
{
}

/// Reading back the 4 bytes that encode `x` gives `x`.
proof fn lemma_le_decode_encode32(data: Seq<u8>, start: int, x: u32)
    requires
        0 <= start,
        start + 4 <= data.len(),
        forall|i: int| #![trigger le_encode32(x)[i]] 0 <= i < 4 ==> data[start + i] == le_encode32(x)[i],
    ensures
        le_bytes(data, start, 4) == x as u64,
{
    reveal_with_fuel(le_bytes, 5);
    lemma_le4_encode(x);
    assert(le_encode32(x)[0] == le_byte(x as u64, 0));
    assert(le_encode32(x)[1] == le_byte(x as u64, 1));
    assert(le_encode32(x)[2] == le_byte(x as u64, 2));
    assert(le_encode32(x)[3] == le_byte(x as u64, 3));
    assert(data[start] == le_byte(x as u64, 0));
    assert(data[start + 1] == le_byte(x as u64, 1));
    assert(data[start + 2] == le_byte(x as u64, 2));
    assert(data[start + 3] == le_byte(x as u64, 3));
}


/// A bit-packed layer as the file holds it: the bits of its weights and of its next
/// pointers, its largest word, its number of entries, and its bytes.
pub struct LayerImage {
    pub quant_bits: u8,
    pub next_bits: u8,
    pub max_vocab: u64,
    pub insert_index: u64,
    pub base: Vec<u8>,
}

/// The fields of a layer, its bytes by their view.
pub type LayerView = (u8, u8, u64, u64, Seq<u8>);

impl LayerImage {
    pub open spec fn view_of(&self) -> LayerView {
        (self.quant_bits, self.next_bits, self.max_vocab, self.insert_index, self.base@)
    }
}

/// The bytes of a layer: its weight bits, its next-pointer bits (middle layers only), its
/// largest word, its number of entries, the number of its bytes, each integer little-endian
/// in 8 bytes, then its bytes.
pub open spec fn layer_bytes(l: LayerView, with_next: bool) -> Seq<u8> {
    seq![l.0] + (if with_next {
        seq![l.1]
    } else {
        Seq::<u8>::empty()
    }) + le_encode(l.2) + le_encode(l.3) + le_encode(l.4.len() as u64) + l.4
}

/// Reading a layer at `pos`: its fields and the position after it, or `None` when the bytes
/// end first. A layer without next pointers reads them as 0.
pub open spec fn parse_layer(b: Seq<u8>, pos: int, with_next: bool) -> Option<(LayerView, int)> {
    let h = if with_next {
        2int
    } else {
        1int
    };
    if pos < 0 || pos + h + 24 > b.len() {
        None
    } else {
        let n = le_bytes(b, pos + h + 16, 8);
        if pos + h + 24 + n > b.len() {
            None
        } else {
            Some(
                (
                    (
                        b[pos],
                        if with_next {
                            b[pos + 1]
                        } else {
                            0u8
                        },
                        le_bytes(b, pos + h, 8),
                        le_bytes(b, pos + h + 8, 8),
                        b.subrange(pos + h + 24, pos + h + 24 + n),
                    ),
                    pos + h + 24 + n,
                ),
            )
        }
    }
}

/// Appends the bytes of layer `l`.
pub fn write_layer(out: &mut Vec<u8>, l: &LayerImage, with_next: bool)
    ensures
        final(out)@ == old(out)@ + layer_bytes(l.view_of(), with_next),
{
    out.push(l.quant_bits);
    if with_next {
        out.push(l.next_bits);
    }
    push_u64(out, l.max_vocab);
    push_u64(out, l.insert_index);
    push_u64(out, l.base.len() as u64);
    let mut i: usize = 0;
    let ghost before = out@;
    while i < l.base.len()
        invariant
            i <= l.base@.len(),
            out@ == before + l.base@.take(i as int),
        decreases l.base@.len() - i,
    {
        out.push(l.base[i]);
        assert(l.base@.take(i + 1) =~= l.base@.take(i as int).push(l.base@[i as int]));
        i = i + 1;
    }
    assert(l.base@.take(l.base@.len() as int) =~= l.base@);
    assert(final(out)@ =~= old(out)@ + layer_bytes(l.view_of(), with_next));
}

/// Reads a layer at `pos`, as `parse_layer` says.
pub fn read_layer(b: &[u8], pos: usize, with_next: bool) -> (r: Option<(LayerImage, usize)>)
    ensures
        match parse_layer(b@, pos as int, with_next) {
            Some((v, end)) => r matches Some((l, e)) && l.view_of() == v && e == end,
            None => r is None,
        },
{
    let h: usize = if with_next { 2 } else { 1 };
    if b.len() < 24 + h || pos > b.len() - 24 - h {
        return None;
    }
    let quant_bits = b[pos];
    let next_bits = if with_next { b[pos + 1] } else { 0 };
    let max_vocab = read_le_word(b, pos + h);
    let insert_index = read_le_word(b, pos + h + 8);
    let n = read_le_word(b, pos + h + 16);
    let start = pos + h + 24;
    if n > (b.len() - start) as u64 {
        return None;
    }
    let n = n as usize;
    let base = vstd::slice::slice_to_vec(vstd::slice::slice_subrange(b, start, start + n));
    Some((LayerImage { quant_bits, next_bits, max_vocab, insert_index, base }, start + n))
}

/// Reading a layer back where its bytes were written gives the layer and the position after
/// it.
pub proof fn lemma_layer_read_after_write(pre: Seq<u8>, l: LayerView, with_next: bool, rest: Seq<u8>)
    requires
        l.4.len() <= u64::MAX,
    ensures
        parse_layer(pre + layer_bytes(l, with_next) + rest, pre.len() as int, with_next) == Some(
            (
                (l.0, if with_next {
                    l.1
                } else {
                    0u8
                }, l.2, l.3, l.4),
                (pre.len() + layer_bytes(l, with_next).len()) as int,
            ),
        ),
{
    let b = pre + layer_bytes(l, with_next) + rest;
    let p = pre.len() as int;
    let h = if with_next {
        2int
    } else {
        1int
    };
    let lb = layer_bytes(l, with_next);
    assert(lb.len() == h + 24 + l.4.len());
    assert forall|i: int| 0 <= i < lb.len() implies b[p + i] == lb[i] by {}
    assert(b[p] == l.0);
    if with_next {
        assert(b[p + 1] == lb[1]);
    }
    assert forall|i: int| 0 <= i < 8 implies b[p + h + i] == le_byte(l.2, i) by {
        assert(b[p + h + i] == lb[h + i]);
    }
    lemma_le_decode_encode(b, p + h, l.2);
    assert forall|i: int| 0 <= i < 8 implies b[p + h + 8 + i] == le_byte(l.3, i) by {
        assert(b[p + h + 8 + i] == lb[h + 8 + i]);
    }
    lemma_le_decode_encode(b, p + h + 8, l.3);
    let nl = l.4.len() as u64;
    assert forall|i: int| 0 <= i < 8 implies b[p + h + 16 + i] == le_byte(nl, i) by {
        assert(b[p + h + 16 + i] == lb[h + 16 + i]);
    }
    lemma_le_decode_encode(b, p + h + 16, nl);
    assert(b.subrange(p + h + 24, p + h + 24 + l.4.len()) =~= l.4) by {
        assert forall|i: int| 0 <= i < l.4.len() implies b[p + h + 24 + i] == l.4[i] by {
            assert(b[p + h + 24 + i] == lb[h + 24 + i]);
        }
    }
}

/// A unigram of the trie as the file holds it: the bits of its log probability and log
/// backoff, and where its successors start in the next layer.
#[derive(Debug, Clone, Copy, PartialEq, Eq, Structural)]
pub struct UnigramRecord {
    pub prob: u32,
    pub backoff: u32,
    pub next: u64,
}

/// The 16 bytes of a unigram record.
pub open spec fn unigram_bytes(u: UnigramRecord) -> Seq<u8> {
    le_encode32(u.prob) + le_encode32(u.backoff) + le_encode(u.next)
}

/// The bytes of unigram records, one after the other.
pub open spec fn unigrams_bytes(us: Seq<UnigramRecord>) -> Seq<u8>
    decreases us.len(),
{
    if us.len() == 0 {
        Seq::empty()
    } else {
        unigrams_bytes(us.drop_last()) + unigram_bytes(us.last())
    }
}

/// Reading `k` unigram records at `pos`.
pub open spec fn parse_unigrams(b: Seq<u8>, pos: int, k: nat) -> Option<(Seq<UnigramRecord>, int)>
    decreases k,
{
    if k == 0 {
        if 0 <= pos <= b.len() {
            Some((Seq::empty(), pos))
        } else {
            None
        }
    } else {
        match parse_unigrams(b, pos, (k - 1) as nat) {
            Some((us, p)) => if p + 16 <= b.len() {
                Some(
                    (
                        us.push(
                            UnigramRecord {
                                prob: le_bytes(b, p, 4) as u32,
                                backoff: le_bytes(b, p + 4, 4) as u32,
                                next: le_bytes(b, p + 8, 8),
                            },
                        ),
                        p + 16,
                    ),
                )
            } else {
                None
            },
            None => None,
        }
    }
}

/// The bytes of middle layers, one after the other.
pub open spec fn middles_bytes(ms: Seq<LayerView>) -> Seq<u8>
    decreases ms.len(),
{
    if ms.len() == 0 {
        Seq::empty()
    } else {
        middles_bytes(ms.drop_last()) + layer_bytes(ms.last(), true)
    }
}

/// Reading `k` middle layers at `pos`.
pub open spec fn parse_middles(b: Seq<u8>, pos: int, k: nat) -> Option<(Seq<LayerView>, int)>
    decreases k,
{
    if k == 0 {
        if 0 <= pos <= b.len() {
            Some((Seq::empty(), pos))
        } else {
            None
        }
    } else {
        match parse_middles(b, pos, (k - 1) as nat) {
            Some((ms, p)) => match parse_layer(b, p, true) {
                Some((l, e)) => Some((ms.push(l), e)),
                None => None,
            },
            None => None,
        }
    }
}

proof fn lemma_unigram_decode(b: Seq<u8>, p: int, u: UnigramRecord)
    requires
        0 <= p,
        p + 16 <= b.len(),
        b.subrange(p, p + 16) == unigram_bytes(u),
    ensures
        le_bytes(b, p, 4) as u32 == u.prob,
        le_bytes(b, p + 4, 4) as u32 == u.backoff,
        le_bytes(b, p + 8, 8) == u.next,
{
    let ub = unigram_bytes(u);
    assert forall|i: int| 0 <= i < 16 implies b[p + i] == ub[i] by {
        assert(b.subrange(p, p + 16)[i] == b[p + i]);
    }
    assert forall|i: int| #![trigger le_encode32(u.prob)[i]] 0 <= i < 4 implies b[p + i] == le_encode32(u.prob)[i] by {
        assert(ub[i] == le_encode32(u.prob)[i]);
    }
    lemma_le_decode_encode32(b, p, u.prob);
    assert forall|i: int| #![trigger le_encode32(u.backoff)[i]] 0 <= i < 4 implies b[p + 4 + i] == le_encode32(u.backoff)[i] by {
        assert(ub[4 + i] == le_encode32(u.backoff)[i]);
    }
    lemma_le_decode_encode32(b, p + 4, u.backoff);
    let nx = u.next;
    assert forall|i: int| 0 <= i < 8 implies b[p + 8 + i] == le_byte(nx, i) by {
        assert(ub[8 + i] == le_encode(nx)[i]);
    }
    lemma_le_decode_encode(b, p + 8, nx);
}

/// Reading unigram records back where they were written gives them back.
pub proof fn lemma_unigrams_read_after_write(pre: Seq<u8>, us: Seq<UnigramRecord>, rest: Seq<u8>)
    ensures
        unigrams_bytes(us).len() == 16 * us.len(),
        parse_unigrams(pre + unigrams_bytes(us) + rest, pre.len() as int, us.len()) == Some(
            (us, (pre.len() + 16 * us.len()) as int),
        ),
    decreases us.len(),
{
    let b = pre + unigrams_bytes(us) + rest;
    if us.len() == 0 {
        assert(b.len() >= pre.len());
    } else {
        let init = us.drop_last();
        let u = us.last();
        assert(b =~= pre + unigrams_bytes(init) + (unigram_bytes(u) + rest));
        lemma_unigrams_read_after_write(pre, init, unigram_bytes(u) + rest);
        let p = (pre.len() + 16 * init.len()) as int;
        assert(b.subrange(p, p + 16) =~= unigram_bytes(u));
        lemma_unigram_decode(b, p, u);
        assert(init.push(u) =~= us);
    }
}

/// Reading middle layers back where they were written gives them back.
pub proof fn lemma_middles_read_after_write(pre: Seq<u8>, ms: Seq<LayerView>, rest: Seq<u8>)
    requires
        forall|k: int| 0 <= k < ms.len() ==> (#[trigger] ms[k]).4.len() <= u64::MAX,
    ensures
        parse_middles(pre + middles_bytes(ms) + rest, pre.len() as int, ms.len()) == Some(
            (ms, (pre.len() + middles_bytes(ms).len()) as int),
        ),
    decreases ms.len(),
{
    let b = pre + middles_bytes(ms) + rest;
    if ms.len() == 0 {
    } else {
        let init = ms.drop_last();
        let l = ms.last();
        assert(b =~= pre + middles_bytes(init) + (layer_bytes(l, true) + rest));
        lemma_middles_read_after_write(pre, init, layer_bytes(l, true) + rest);
        assert(b =~= (pre + middles_bytes(init)) + layer_bytes(l, true) + rest);
        lemma_layer_read_after_write(pre + middles_bytes(init), l, true, rest);
        assert((l.0, l.1, l.2, l.3, l.4) == l);
        assert(init.push(l) =~= ms);
    }
}

/// The tables of a trie as the file holds them.
pub struct TrieImage {
    pub unigrams: Vec<UnigramRecord>,
    pub middles: Vec<LayerImage>,
    pub longest: LayerImage,
}

/// The layers of `ms` by their fields.
pub open spec fn layer_views(ms: Seq<LayerImage>) -> Seq<LayerView> {
    ms.map_values(|l: LayerImage| l.view_of())
}

/// The bytes of a trie: the number of middle layers in one byte, the number of unigrams in
/// four, the unigram records, the middle layers, and the layer of the highest order (whose
/// next-pointer bits are not stored).
pub open spec fn trie_bytes(us: Seq<UnigramRecord>, ms: Seq<LayerView>, lo: LayerView) -> Seq<u8> {
    seq![ms.len() as u8] + le_encode32(us.len() as u32) + unigrams_bytes(us) + middles_bytes(ms) + layer_bytes(
        lo,
        false,
    )
}

/// Reading a trie at the start of `b`: its unigrams, middle layers, highest layer and where
/// it ends, or `None` when the bytes end first.
pub open spec fn parse_trie(b: Seq<u8>) -> Option<(Seq<UnigramRecord>, Seq<LayerView>, LayerView, int)> {
    if b.len() < 5 {
        None
    } else {
        match parse_unigrams(b, 5, le_bytes(b, 1, 4) as nat) {
            Some((us, p)) => match parse_middles(b, p, b[0] as nat) {
                Some((ms, q)) => match parse_layer(b, q, false) {
                    Some((lo, e)) => Some((us, ms, lo, e)),
                    None => None,
                },
                None => None,
            },
            None => None,
        }
    }
}

/// A trie written and read back is the same trie, up to the next-pointer bits of its
/// highest layer, which are not stored; the bytes after it are not read.
pub proof fn law_trie_read_after_write(us: Seq<UnigramRecord>, ms: Seq<LayerView>, lo: LayerView, rest: Seq<u8>)
    requires
        us.len() <= u32::MAX,
        ms.len() <= 255,
        forall|k: int| 0 <= k < ms.len() ==> (#[trigger] ms[k]).4.len() <= u64::MAX,
        lo.4.len() <= u64::MAX,
    ensures
        parse_trie(trie_bytes(us, ms, lo) + rest) == Some(
            (us, ms, (lo.0, 0u8, lo.2, lo.3, lo.4), trie_bytes(us, ms, lo).len() as int),
        ),
{
    let b = trie_bytes(us, ms, lo) + rest;
    let head = seq![ms.len() as u8] + le_encode32(us.len() as u32);
    assert(head.len() == 5);
    assert(b[0] == ms.len() as u8);
    let n = us.len() as u32;
    assert forall|i: int| #![trigger le_encode32(n)[i]] 0 <= i < 4 implies b[1 + i] == le_encode32(n)[i] by {
        assert(b[1 + i] == head[1 + i]);
    }
    lemma_le_decode_encode32(b, 1, n);
    assert(b =~= head + unigrams_bytes(us) + (middles_bytes(ms) + layer_bytes(lo, false) + rest));
    lemma_unigrams_read_after_write(head, us, middles_bytes(ms) + layer_bytes(lo, false) + rest);
    let pre2 = head + unigrams_bytes(us);
    assert(b =~= pre2 + middles_bytes(ms) + (layer_bytes(lo, false) + rest));
    lemma_middles_read_after_write(pre2, ms, layer_bytes(lo, false) + rest);
    let pre3 = pre2 + middles_bytes(ms);
    assert(b =~= pre3 + layer_bytes(lo, false) + rest);
    lemma_layer_read_after_write(pre3, lo, false, rest);
}

/// The bytes of a trie's tables. At most 255 middle layers (the count takes one byte) and
/// at most `u32::MAX` unigrams (the count takes four).
pub fn write_trie_binary(t: &TrieImage) -> (r: Vec<u8>)
    requires
        t.unigrams@.len() <= u32::MAX,
        t.middles@.len() <= 255,
    ensures
        r@ == trie_bytes(t.unigrams@, layer_views(t.middles@), t.longest.view_of()),
{
    let mut out: Vec<u8> = Vec::new();
    out.push(t.middles.len() as u8);
    push_u32(&mut out, t.unigrams.len() as u32);
    let ghost head = out@;
    let mut i: usize = 0;
    while i < t.unigrams.len()
        invariant
            i <= t.unigrams@.len(),
            out@ == head + unigrams_bytes(t.unigrams@.take(i as int)),
        decreases t.unigrams@.len() - i,
    {
        let u = t.unigrams[i];
        push_u32(&mut out, u.prob);
        push_u32(&mut out, u.backoff);
        push_u64(&mut out, u.next);
        assert(t.unigrams@.take(i + 1).drop_last() =~= t.unigrams@.take(i as int));
        assert(out@ =~= head + unigrams_bytes(t.unigrams@.take(i + 1)));
        i = i + 1;
    }
    assert(t.unigrams@.take(t.unigrams@.len() as int) =~= t.unigrams@);
    let ghost mid = out@;
    let mut k: usize = 0;
    while k < t.middles.len()
        invariant
            k <= t.middles@.len(),
            out@ == mid + middles_bytes(layer_views(t.middles@).take(k as int)),
        decreases t.middles@.len() - k,
    {
        write_layer(&mut out, &t.middles[k], true);
        assert(layer_views(t.middles@).take(k + 1).drop_last() =~= layer_views(t.middles@).take(k as int));
        assert(out@ =~= mid + middles_bytes(layer_views(t.middles@).take(k + 1)));
        k = k + 1;
    }
    assert(layer_views(t.middles@).take(t.middles@.len() as int) =~= layer_views(t.middles@));
    write_layer(&mut out, &t.longest, false);
    assert(out@ =~= trie_bytes(t.unigrams@, layer_views(t.middles@), t.longest.view_of()));
    out
}

proof fn lemma_parse_unigrams_fails_after(b: Seq<u8>, pos: int, k: nat, n: nat)
    requires
        k <= n,
        parse_unigrams(b, pos, k) is None,
    ensures
        parse_unigrams(b, pos, n) is None,
    decreases n,
{
    if n > k {
        lemma_parse_unigrams_fails_after(b, pos, k, (n - 1) as nat);
    }
}

proof fn lemma_parse_middles_fails_after(b: Seq<u8>, pos: int, k: nat, n: nat)
    requires
        k <= n,
        parse_middles(b, pos, k) is None,
    ensures
        parse_middles(b, pos, n) is None,
    decreases n,
{
    if n > k {
        lemma_parse_middles_fails_after(b, pos, k, (n - 1) as nat);
    }
}

/// Reads a trie's tables from the start of `b`, as `parse_trie` says, with the position
/// after them; `EndOfFile` when the bytes end first.
pub fn read_trie_binary(b: &[u8]) -> (r: Result<(TrieImage, usize), LMError>)
    ensures
        match parse_trie(b@) {
            Some((us, ms, lo, e)) => r matches Ok((t, n)) && t.unigrams@ == us && layer_views(t.middles@) == ms
                && t.longest.view_of() == lo && n == e,
            None => r matches Err(LMError::EndOfFile),
        },
{
    if b.len() < 5 {
        return Err(LMError::EndOfFile);
    }
    let n_middles = b[0];
    let n_uni = read_le(b, 1, 4);
    let mut unigrams: Vec<UnigramRecord> = Vec::new();
    let mut p: usize = 5;
    let mut i: u64 = 0;
    while i < n_uni
        invariant
            b@.len() >= 5,
            n_uni == le_bytes(b@, 1, 4),
            i <= n_uni,
            p <= b@.len(),
            parse_unigrams(b@, 5, i as nat) == Some((unigrams@, p as int)),
        decreases n_uni - i,
    {
        if b.len() - p < 16 {
            proof {
                lemma_parse_unigrams_fails_after(b@, 5, (i + 1) as nat, n_uni as nat);
            }
            return Err(LMError::EndOfFile);
        }
        let prob = read_le(b, p, 4) as u32;
        let backoff = read_le(b, p + 4, 4) as u32;
        let next = read_le_word(b, p + 8);
        unigrams.push(UnigramRecord { prob, backoff, next });
        p = p + 16;
        i = i + 1;
    }
    let mut middles: Vec<LayerImage> = Vec::new();
    let mut q: usize = p;
    let mut k: u8 = 0;
    assert(layer_views(middles@) =~= Seq::<LayerView>::empty());
    while k < n_middles
        invariant
            b@.len() >= 5,
            n_middles == b@[0],
            n_uni == le_bytes(b@, 1, 4),
            parse_unigrams(b@, 5, n_uni as nat) == Some((unigrams@, p as int)),
            p <= b@.len(),
            k <= n_middles,
            parse_middles(b@, p as int, k as nat) == Some((layer_views(middles@), q as int)),
        decreases n_middles - k,
    {
        match read_layer(b, q, true) {
            Some((l, e)) => {
                let ghost before = layer_views(middles@);
                middles.push(l);
                assert(layer_views(middles@) =~= before.push(l.view_of()));
                q = e;
            },
            None => {
                proof {
                    lemma_parse_middles_fails_after(b@, p as int, (k + 1) as nat, n_middles as nat);
                }
                return Err(LMError::EndOfFile);
            },
        }
        k = k + 1;
    }
    match read_layer(b, q, false) {
        Some((longest, e)) => Ok((TrieImage { unigrams, middles, longest }, e)),
        None => Err(LMError::EndOfFile),
    }
}

} // verus!
