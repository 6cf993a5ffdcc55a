//! Chains of blocks that carry fixed-size records between pipeline stages.
use vstd::prelude::*;
use vstd::slice::{slice_subrange, slice_to_vec};
use std::collections::VecDeque;
use crate::sorting::{bytes_le, bytes_lt, lemma_bytes_le_antisymmetric, lemma_bytes_le_transitive, lemma_strictly_sorted_unique, sort_byte_strings, strictly_sorted};
use crate::text::bytes_eq;

verus! {

/// `s` cut into records of `entry_size` bytes, the last one shorter when the length is not
/// a multiple of `entry_size`.
pub open spec fn chunks(s: Seq<u8>, entry_size: int) -> Seq<Seq<u8>>
    decreases s.len(),
{
    if entry_size <= 0 || s.len() == 0 {
        Seq::empty()
    } else if s.len() <= entry_size {
        seq![s]
    } else {
        seq![s.subrange(0, entry_size)] + chunks(s.subrange(entry_size, s.len() as int), entry_size)
    }
}

/// A fixed-size buffer of serialized records.
pub struct Block {
    data: Vec<u8>,
    write_pos: usize,
    entry_size: usize,
}

impl Block {
    /// The whole buffer.
    pub closed spec fn data(&self) -> Seq<u8> {
        self.data@
    }

    /// Bytes written so far.
    pub closed spec fn write_pos(&self) -> usize {
        self.write_pos
    }

    pub closed spec fn spec_entry_size(&self) -> usize {
        self.entry_size
    }

    /// The records written so far, as bytes.
    pub open spec fn contents(&self) -> Seq<u8> {
        self.data().subrange(0, self.write_pos() as int)
    }

    /// The written records.
    pub open spec fn entries(&self) -> Seq<Seq<u8>> {
        chunks(self.contents(), self.spec_entry_size() as int)
    }

    /// Invariant: the write position lies inside the buffer.
    pub open spec fn wf(&self) -> bool {
        self.write_pos() <= self.data().len()
    }

    /// An empty block of `capacity` bytes for records of `entry_size` bytes.
    pub fn new(capacity: usize, entry_size: usize) -> (r: Self)
        ensures
            r.wf(),
            r.data().len() == capacity,
            r.write_pos() == 0,
            r.spec_entry_size() == entry_size,
    {
        Block { data: vec![0u8; capacity], write_pos: 0, entry_size }
    }

    /// Appends `entry` if it fits; returns whether it did.
    pub fn push(&mut self, entry: &[u8]) -> (r: bool)
        requires
            old(self).wf(),
            old(self).write_pos() + entry@.len() <= usize::MAX,
        ensures
            final(self).wf(),
            final(self).spec_entry_size() == old(self).spec_entry_size(),
            final(self).data().len() == old(self).data().len(),
            r == (old(self).write_pos() + entry@.len() <= old(self).data().len()),
            r ==> final(self).contents() == old(self).contents() + entry@ && final(self).write_pos()
                == old(self).write_pos() + entry@.len(),
            !r ==> final(self).contents() == old(self).contents() && final(self).write_pos()
                == old(self).write_pos(),
    {
        if self.write_pos + entry.len() > self.data.len() {
            return false;
        }
        let ghost before = self.data@;
        let start = self.write_pos;
        let mut i: usize = 0;
        while i < entry.len()
            invariant
                start == old(self).write_pos(),
                start + entry@.len() <= self.data@.len(),
                start + entry@.len() <= usize::MAX,
                self.data@.len() == before.len(),
                self.write_pos == start,
                self.entry_size == old(self).spec_entry_size(),
                before == old(self).data(),
                i <= entry@.len(),
                forall|k: int| 0 <= k < start ==> self.data@[k] == before[k],
                forall|k: int| start <= k < start + i ==> self.data@[k] == entry@[k - start],
            decreases entry@.len() - i,
        {
            self.data.set(start + i, entry[i]);
            i = i + 1;
        }
        self.write_pos = start + entry.len();
        assert(self.contents() =~= old(self).contents() + entry@);
        true
    }

    /// The records written so far (the last one shorter when the written bytes are not a
    /// multiple of the record size).
    pub fn as_entries(&self) -> (r: Vec<Vec<u8>>)
        ensures
            self.wf() ==> r@.map_values(|e: Vec<u8>| e@) == self.entries(),
    {
        if self.write_pos > self.data.len() {
            return Vec::new();
        }
        let es = self.entry_size;
        let wp = self.write_pos;
        let contents = slice_subrange(self.data.as_slice(), 0, wp);
        let mut out: Vec<Vec<u8>> = Vec::new();
        if es == 0 {
            assert(out@.map_values(|e: Vec<u8>| e@) =~= self.entries());
            return out;
        }
        let mut start: usize = 0;
        assert(contents@.subrange(0, wp as int) =~= contents@);
        while start < wp
            invariant
                es == self.spec_entry_size(),
                es > 0,
                wp == self.write_pos(),
                contents@ == self.contents(),
                contents@.len() == wp,
                start <= wp,
                out@.map_values(|e: Vec<u8>| e@) + chunks(contents@.subrange(start as int, wp as int), es as int)
                    == self.entries(),
            decreases wp - start,
        {
            let ghost rest = contents@.subrange(start as int, wp as int);
            let ghost before = out@;
            let end = if wp - start > es { start + es } else { wp };
            let piece = slice_to_vec(slice_subrange(contents, start, end));
            out.push(piece);
            proof {
                assert(out@.map_values(|e: Vec<u8>| e@) =~= before.map_values(|e: Vec<u8>| e@).push(piece@));
                if end < wp {
                    assert(piece@ =~= rest.subrange(0, es as int));
                    assert(contents@.subrange(end as int, wp as int) =~= rest.subrange(es as int, rest.len() as int));
                } else {
                    assert(piece@ =~= rest);
                    assert(contents@.subrange(end as int, wp as int) =~= Seq::<u8>::empty());
                }
                assert(chunks(rest, es as int) == seq![piece@] + chunks(contents@.subrange(end as int, wp as int), es as int));
                assert(out@.map_values(|e: Vec<u8>| e@) + chunks(contents@.subrange(end as int, wp as int), es as int)
                    =~= before.map_values(|e: Vec<u8>| e@) + chunks(rest, es as int));
            }
            start = end;
        }
        assert(contents@.subrange(start as int, wp as int) =~= Seq::<u8>::empty());
        assert(out@.map_values(|e: Vec<u8>| e@) =~= self.entries());
        out
    }

    /// Whether another full record would not fit.
    pub fn is_full(&self) -> (r: bool)
        requires
            self.write_pos() + self.spec_entry_size() <= usize::MAX,
        ensures
            r == (self.write_pos() + self.spec_entry_size() > self.data().len()),
    {
        self.write_pos + self.entry_size > self.data.len()
    }

    /// Whether nothing was written.
    pub fn is_empty(&self) -> (r: bool)
        ensures
            r == (self.write_pos() == 0),
    {
        self.write_pos == 0
    }

    /// Forgets the written records.
    pub fn clear(&mut self)
        ensures
            final(self).write_pos() == 0,
            final(self).data() == old(self).data(),
            final(self).spec_entry_size() == old(self).spec_entry_size(),
    {
        self.write_pos = 0;
    }

    /// Record size in bytes.
    pub fn entry_size(&self) -> (r: usize)
        ensures
            r == self.spec_entry_size(),
    {
        self.entry_size
    }

    /// Bytes written so far.
    pub fn written(&self) -> (r: usize)
        ensures
            r == self.write_pos(),
    {
        self.write_pos
    }

    /// Size of the buffer in bytes.
    pub fn capacity(&self) -> (r: usize)
        ensures
            r == self.data().len(),
    {
        self.data.len()
    }
}

/// A bounded first-in, first-out queue.
pub struct PCQueue<T> {
    queue: VecDeque<T>,
    capacity: usize,
}

impl<T> PCQueue<T> {
    /// The queued items, front first.
    pub closed spec fn items(&self) -> Seq<T> {
        self.queue@
    }

    pub closed spec fn spec_capacity(&self) -> usize {
        self.capacity
    }

    /// An empty queue of `capacity` items.
    pub fn new(capacity: usize) -> (r: Self)
        ensures
            r.items() == Seq::<T>::empty(),
            r.spec_capacity() == capacity,
    {
        PCQueue { queue: VecDeque::with_capacity(capacity), capacity }
    }

    /// Appends `item`. A full queue would wait for a consumer, so the queue must have room.
    pub fn push(&mut self, item: T)
        requires
            old(self).items().len() < old(self).spec_capacity(),
        ensures
            final(self).items() == old(self).items().push(item),
            final(self).spec_capacity() == old(self).spec_capacity(),
    {
        self.queue.push_back(item);
    }

    /// Removes the front item. An empty queue would wait for a producer, so the queue must
    /// hold an item.
    pub fn pop(&mut self) -> (r: Option<T>)
        requires
            old(self).items().len() > 0,
        ensures
            r == Some(old(self).items()[0]),
            final(self).items() == old(self).items().drop_first(),
            final(self).spec_capacity() == old(self).spec_capacity(),
    {
        self.queue.pop_front()
    }

    /// Number of queued items.
    pub fn len(&self) -> (r: usize)
        ensures
            r == self.items().len(),
    {
        self.queue.len()
    }

    /// How many items the queue holds at most.
    pub fn capacity(&self) -> (r: usize)
        ensures
            r == self.spec_capacity(),
    {
        self.capacity
    }

    /// Removes the front item, if any.
    pub fn try_pop(&mut self) -> (r: Option<T>)
        ensures
            old(self).items().len() == 0 ==> r is None && final(self).items() == old(self).items(),
            old(self).items().len() > 0 ==> r == Some(old(self).items()[0])
                && final(self).items() == old(self).items().drop_first(),
            final(self).spec_capacity() == old(self).spec_capacity(),
    {
        self.queue.pop_front()
    }
}

/// Connects pipeline stages: a producer takes empty blocks, fills them and passes them on;
/// the consumer pops filled blocks.
pub struct Chain {
    block_size: usize,
    entry_size: usize,
    filled: PCQueue<Block>,
    recycled: PCQueue<Block>,
}

impl Chain {
    pub closed spec fn filled(&self) -> Seq<Block> {
        self.filled.items()
    }

    pub closed spec fn recycled(&self) -> Seq<Block> {
        self.recycled.items()
    }

    pub closed spec fn spec_block_size(&self) -> usize {
        self.block_size
    }

    pub closed spec fn spec_entry_size(&self) -> usize {
        self.entry_size
    }

    /// How many blocks each queue holds at most.
    pub closed spec fn block_count(&self) -> usize {
        self.filled.spec_capacity()
    }

    /// Invariant: both queues have the same room.
    pub closed spec fn wf(&self) -> bool {
        self.filled.spec_capacity() == self.recycled.spec_capacity()
    }

    /// A chain of `block_count` empty blocks of `block_size` bytes.
    pub fn new(block_size: usize, entry_size: usize, block_count: usize) -> (r: Self)
        ensures
            r.wf(),
            r.spec_block_size() == block_size,
            r.spec_entry_size() == entry_size,
            r.block_count() == block_count,
            r.filled() == Seq::<Block>::empty(),
            r.recycled().len() == block_count,
            forall|i: int|
                0 <= i < block_count ==> (#[trigger] r.recycled()[i]).wf() && r.recycled()[i].write_pos() == 0
                    && r.recycled()[i].data().len() == block_size && r.recycled()[i].spec_entry_size()
                    == entry_size,
    {
        let mut recycled: PCQueue<Block> = PCQueue::new(block_count);
        let filled: PCQueue<Block> = PCQueue::new(block_count);
        let mut i: usize = 0;
        while i < block_count
            invariant
                i <= block_count,
                recycled.items().len() == i,
                recycled.spec_capacity() == block_count,
                forall|j: int|
                    0 <= j < i ==> (#[trigger] recycled.items()[j]).wf() && recycled.items()[j].write_pos() == 0
                        && recycled.items()[j].data().len() == block_size
                        && recycled.items()[j].spec_entry_size() == entry_size,
            decreases block_count - i,
        {
            recycled.push(Block::new(block_size, entry_size));
            i = i + 1;
        }
        Chain { block_size, entry_size, filled, recycled }
    }

    /// Takes an empty block from the pool. With no block in the pool the producer would wait
    /// for one, so the pool must hold a block.
    pub fn add(&mut self) -> (r: Block)
        requires
            old(self).recycled().len() > 0,
        ensures
            r == old(self).recycled()[0],
            final(self).recycled() == old(self).recycled().drop_first(),
            final(self).filled() == old(self).filled(),
            final(self).block_count() == old(self).block_count(),
            final(self).spec_block_size() == old(self).spec_block_size(),
            final(self).spec_entry_size() == old(self).spec_entry_size(),
            old(self).wf() ==> final(self).wf(),
    {
        match self.recycled.pop() {
            Some(b) => b,
            None => Block::new(self.block_size, self.entry_size),
        }
    }

    /// Hands a block on: a block with records to the consumer, an empty one back to the pool.
    pub fn pass(&mut self, block: Block)
        requires
            old(self).wf(),
            block.write_pos() != 0 ==> old(self).filled().len() < old(self).block_count(),
            block.write_pos() == 0 ==> old(self).recycled().len() < old(self).block_count(),
        ensures
            final(self).wf(),
            final(self).block_count() == old(self).block_count(),
            final(self).spec_block_size() == old(self).spec_block_size(),
            final(self).spec_entry_size() == old(self).spec_entry_size(),
            block.write_pos() != 0 ==> final(self).filled() == old(self).filled().push(block)
                && final(self).recycled() == old(self).recycled(),
            block.write_pos() == 0 ==> final(self).recycled() == old(self).recycled().push(block)
                && final(self).filled() == old(self).filled(),
    {
        if !block.is_empty() {
            self.filled.push(block);
        } else {
            self.recycled.push(block);
        }
    }

    /// The next filled block, if any.
    pub fn pop(&mut self) -> (r: Option<Block>)
        ensures
            old(self).filled().len() == 0 ==> r is None && final(self).filled() == old(self).filled(),
            old(self).filled().len() > 0 ==> r == Some(old(self).filled()[0])
                && final(self).filled() == old(self).filled().drop_first(),
            final(self).recycled() == old(self).recycled(),
            final(self).block_count() == old(self).block_count(),
            final(self).spec_block_size() == old(self).spec_block_size(),
            final(self).spec_entry_size() == old(self).spec_entry_size(),
            old(self).wf() ==> final(self).wf(),
    {
        self.filled.try_pop()
    }

    /// Record size in bytes.
    pub fn entry_size(&self) -> (r: usize)
        ensures
            r == self.spec_entry_size(),
    {
        self.entry_size
    }

    /// Number of empty blocks waiting in the pool.
    pub fn free_blocks(&self) -> (r: usize)
        ensures
            r == self.recycled().len(),
    {
        self.recycled.len()
    }

    /// Number of filled blocks waiting for the consumer.
    pub fn filled_blocks(&self) -> (r: usize)
        ensures
            r == self.filled().len(),
    {
        self.filled.len()
    }

    /// How many blocks each queue holds at most.
    pub fn capacity(&self) -> (r: usize)
        ensures
            r == self.block_count(),
    {
        self.filled.capacity()
    }

    /// Whether both queues have the same room, as every chain made by `new` has.
    pub fn queues_match(&self) -> (r: bool)
        ensures
            r == self.wf(),
    {
        self.filled.capacity() == self.recycled.capacity()
    }
}

/// A pipeline stage's handle on a chain.
pub struct ChainPosition {
    pub chain: Chain,
}

impl ChainPosition {
    pub fn new(chain: Chain) -> (r: Self)
        ensures
            r.chain == chain,
    {
        ChainPosition { chain }
    }

    /// Same as `Chain::add`.
    pub fn add(&mut self) -> (r: Block)
        requires
            old(self).chain.recycled().len() > 0,
        ensures
            r == old(self).chain.recycled()[0],
            final(self).chain.recycled() == old(self).chain.recycled().drop_first(),
            final(self).chain.filled() == old(self).chain.filled(),
    {
        self.chain.add()
    }

    /// Same as `Chain::pass`.
    pub fn pass(&mut self, block: Block)
        requires
            old(self).chain.wf(),
            block.write_pos() != 0 ==> old(self).chain.filled().len() < old(self).chain.block_count(),
            block.write_pos() == 0 ==> old(self).chain.recycled().len() < old(self).chain.block_count(),
        ensures
            block.write_pos() != 0 ==> final(self).chain.filled() == old(self).chain.filled().push(block),
            block.write_pos() == 0 ==> final(self).chain.recycled() == old(self).chain.recycled().push(block),
    {
        self.chain.pass(block);
    }

    /// Same as `Chain::pop`.
    pub fn pop(&mut self) -> (r: Option<Block>)
        ensures
            old(self).chain.filled().len() == 0 ==> r is None,
            old(self).chain.filled().len() > 0 ==> r == Some(old(self).chain.filled()[0])
                && final(self).chain.filled() == old(self).chain.filled().drop_first(),
    {
        self.chain.pop()
    }
}

/// Every record that `chunks` cuts is non-empty and at most `entry_size` bytes long.
pub proof fn lemma_chunks_lengths(s: Seq<u8>, entry_size: int)
    ensures
        forall|j: int|
            0 <= j < chunks(s, entry_size).len() ==> 0 < (#[trigger] chunks(s, entry_size)[j]).len()
                <= entry_size,
    decreases s.len(),
{
    if entry_size > 0 && s.len() > entry_size {
        let rest = s.subrange(entry_size, s.len() as int);
        lemma_chunks_lengths(rest, entry_size);
        assert forall|j: int| 0 < j < chunks(s, entry_size).len() implies chunks(s, entry_size)[j]
            == chunks(rest, entry_size)[j - 1] by {}
    }
}

/// The records of `blocks`, block after block.
pub open spec fn block_entries(blocks: Seq<Block>) -> Seq<Seq<u8>>
    decreases blocks.len(),
{
    if blocks.len() == 0 {
        Seq::empty()
    } else {
        block_entries(blocks.drop_last()) + blocks.last().entries()
    }
}

/// No block holds an empty record.
pub proof fn lemma_block_entries_nonempty(blocks: Seq<Block>)
    ensures
        forall|j: int| 0 <= j < block_entries(blocks).len() ==> (#[trigger] block_entries(blocks)[j]).len() > 0,
    decreases blocks.len(),
{
    if blocks.len() > 0 {
        let front = blocks.drop_last();
        lemma_block_entries_nonempty(front);
        let last = blocks.last();
        lemma_chunks_lengths(last.contents(), last.spec_entry_size() as int);
        assert forall|j: int| 0 <= j < block_entries(blocks).len() implies (#[trigger] block_entries(blocks)[j]).len() > 0 by {
            if j >= block_entries(front).len() {
                assert(block_entries(blocks)[j] == last.entries()[j - block_entries(front).len()]);
            } else {
                assert(block_entries(blocks)[j] == block_entries(front)[j]);
            }
        }
    }
}

/// The strictly ascending listing of a set of byte strings.
pub open spec fn sorted_listing(s: Set<Seq<u8>>) -> Seq<Seq<u8>> {
    choose|d: Seq<Seq<u8>>| strictly_sorted(d) && d.to_set() == s
}

/// The bytes of each record.
pub open spec fn record_views(v: Seq<Vec<u8>>) -> Seq<Seq<u8>> {
    v.map_values(|e: Vec<u8>| e@)
}

/// Pops every filled block of `input` and returns their records in order.
fn collect_entries(input: &mut Chain) -> (r: Vec<Vec<u8>>)
    requires
        forall|i: int| 0 <= i < old(input).filled().len() ==> (#[trigger] old(input).filled()[i]).wf(),
    ensures
        record_views(r@) == block_entries(old(input).filled()),
        final(input).filled().len() == 0,
        final(input).recycled() == old(input).recycled(),
        final(input).block_count() == old(input).block_count(),
        final(input).spec_block_size() == old(input).spec_block_size(),
        final(input).spec_entry_size() == old(input).spec_entry_size(),
        old(input).wf() ==> final(input).wf(),
{
    let ghost f0 = input.filled();
    let ghost wf0 = input.wf();
    let mut all: Vec<Vec<u8>> = Vec::new();
    let ghost mut k: int = 0;
    assert(f0.take(0) =~= Seq::<Block>::empty());
    assert(record_views(all@) =~= Seq::<Seq<u8>>::empty());
    loop
        invariant
            0 <= k <= f0.len(),
            f0 == old(input).filled(),
            forall|i: int| 0 <= i < f0.len() ==> (#[trigger] f0[i]).wf(),
            input.filled() == f0.skip(k),
            record_views(all@) == block_entries(f0.take(k)),
            input.recycled() == old(input).recycled(),
            input.block_count() == old(input).block_count(),
            input.spec_block_size() == old(input).spec_block_size(),
            input.spec_entry_size() == old(input).spec_entry_size(),
            wf0 == old(input).wf(),
            wf0 ==> input.wf(),
        ensures
            record_views(all@) == block_entries(f0),
            input.filled().len() == 0,
        decreases input.filled().len(),
    {
        match input.pop() {
            Some(block) => {
                proof {
                    assert(block == f0[k]);
                    assert(f0.skip(k).drop_first() =~= f0.skip(k + 1));
                }
                let ghost before = all@;
                let mut entries = block.as_entries();
                let ghost added = entries@;
                all.append(&mut entries);
                proof {
                    assert(f0.take(k + 1).drop_last() =~= f0.take(k));
                    assert(record_views(all@) =~= record_views(before) + record_views(added));
                    k = k + 1;
                }
            },
            None => {
                proof {
                    assert(f0.take(k) =~= f0);
                }
                break;
            },
        }
    }
    all
}

/// Keeps the first of each run of equal records of an ascending list.
pub(crate) fn dedup_sorted(v: &Vec<Vec<u8>>) -> (d: Vec<Vec<u8>>)
    requires
        forall|i: int, j: int| 0 <= i < j < v@.len() ==> bytes_le(v@[i]@, v@[j]@),
    ensures
        strictly_sorted(record_views(d@)),
        record_views(d@).to_set() == record_views(v@).to_set(),
        d@.len() <= v@.len(),
{
    let mut d: Vec<Vec<u8>> = Vec::new();
    let mut i: usize = 0;
    let ghost vv = record_views(v@);
    assert(vv.take(0).to_set() =~= record_views(d@).to_set());
    while i < v.len()
        invariant
            vv == record_views(v@),
            i <= v@.len(),
            d@.len() <= i,
            forall|a: int, b: int| 0 <= a < b < v@.len() ==> bytes_le(v@[a]@, v@[b]@),
            strictly_sorted(record_views(d@)),
            record_views(d@).to_set() == vv.take(i as int).to_set(),
            i > 0 ==> d@.len() > 0 && d@[d@.len() - 1]@ == v@[i - 1]@,
            i == 0 ==> d@.len() == 0,
        decreases v@.len() - i,
    {
        let ghost dv = record_views(d@);
        let x = v[i].as_slice();
        let fresh = d.len() == 0 || !bytes_eq(d[d.len() - 1].as_slice(), x);
        if fresh {
            let copy = slice_to_vec(x);
            d.push(copy);
            proof {
                assert(record_views(d@) =~= dv.push(x@));
                let nd = dv.push(x@);
                assert forall|a: int, b: int| 0 <= a < b < nd.len() implies bytes_lt(nd[a], nd[b]) by {
                    if b == dv.len() {
                        let last = dv[dv.len() - 1];
                        assert(bytes_le(v@[i - 1]@, v@[i as int]@));
                        if a < dv.len() - 1 {
                            assert(bytes_lt(dv[a], last));
                            lemma_bytes_le_transitive(dv[a], last, x@);
                            if dv[a] == x@ {
                                lemma_bytes_le_antisymmetric(last, x@);
                            }
                        }
                    } else {
                        assert(bytes_lt(dv[a], dv[b]));
                    }
                }
            }
        }
        proof {
            assert(vv.take(i + 1) =~= vv.take(i as int).push(x@));
            vv.take(i as int).lemma_push_to_set_commute(x@);
            if fresh {
                dv.lemma_push_to_set_commute(x@);
            } else {
                assert(dv[dv.len() - 1] == x@);
                assert(dv.to_set().contains(x@));
                assert(vv.take(i + 1).to_set() =~= vv.take(i as int).to_set());
            }
        }
        i = i + 1;
    }
    assert(vv.take(v@.len() as int) =~= vv);
    d
}

/// Writes `records` in order into one block of a new chain of two blocks, and hands the block
/// on when it holds any record.
pub fn records_to_chain(d: &Vec<Vec<u8>>, es: usize) -> (out: Chain)
    requires
        es > 0,
        forall|j: int| 0 <= j < d@.len() ==> 0 < (#[trigger] d@[j])@.len() <= es,
        d@.len() * es + 8191 <= usize::MAX,
    ensures
        out.wf(),
        out.spec_entry_size() == es,
        out.block_count() == 2,
        out.filled().len() == (if d@.len() == 0 { 0int } else { 1int }),
        d@.len() > 0 ==> out.filled()[0].contents() == record_views(d@).flatten()
            && out.filled()[0].spec_entry_size() == es,
{
    let n = d.len();
    let ghost dv = record_views(d@);
    assert forall|j: int| 0 <= j < dv.len() implies 0 < (#[trigger] dv[j]).len() <= es by {
        assert(dv[j] == d@[j]@);
    }
    let block_size = (n * es + 4095) / 4096 * 4096 + 4096;
    proof {
        assert((n * es + 4095) / 4096 * 4096 + 4096 >= n * es + 4096) by (nonlinear_arith);
    }
    let block_size = if block_size < 4096 { 4096 } else { block_size };
    let mut out = Chain::new(block_size, es, 2);
    let mut block = out.add();
    let mut i: usize = 0;
    assert(dv.take(0).flatten() =~= block.contents());
    while i < n
        invariant
            n == d@.len(),
            dv == record_views(d@),
            i <= n,
            es > 0,
            n * es + 8191 <= usize::MAX,
            n * es <= block_size,
            forall|j: int| 0 <= j < dv.len() ==> 0 < (#[trigger] dv[j]).len() <= es,
            block.wf(),
            block.data().len() == block_size,
            block.spec_entry_size() == es,
            block.contents() == dv.take(i as int).flatten(),
            block.write_pos() <= i * es,
            i > 0 ==> block.write_pos() > 0,
            out.wf(),
            out.block_count() == 2,
            out.spec_entry_size() == es,
            out.filled().len() == 0,
            out.recycled().len() == 1,
        decreases n - i,
    {
        proof {
            assert((i + 1) * es <= n * es) by (nonlinear_arith)
                requires
                    i + 1 <= n,
            ;
            assert((i + 1) * es == i * es + es) by (nonlinear_arith);
        }
        assert(dv[i as int] == d@[i as int]@);
        block.push(d[i].as_slice());
        proof {
            dv.take(i as int).lemma_flatten_push(dv[i as int]);
            assert(dv.take(i + 1) =~= dv.take(i as int).push(dv[i as int]));
        }
        i = i + 1;
    }
    proof {
        assert(dv.take(n as int) =~= dv);
    }
    out.pass(block);
    out
}

/// Sorts the records of `input`'s filled blocks, drops repeats, and writes them into a new
/// chain. `temp_prefix` names where an external sort would keep its files; this in-memory
/// sort does not use it.
#[allow(unused_variables)]
pub fn sort_chain(input: &mut Chain, temp_prefix: &str) -> (r: Chain)
    requires
        forall|i: int| 0 <= i < old(input).filled().len() ==> (#[trigger] old(input).filled()[i]).wf(),
        forall|j: int|
            0 <= j < block_entries(old(input).filled()).len() ==> (#[trigger] block_entries(
                old(input).filled(),
            )[j]).len() <= old(input).spec_entry_size(),
        block_entries(old(input).filled()).len() * old(input).spec_entry_size() + 8191 <= usize::MAX,
    ensures
        old(input).spec_entry_size() == 0 ==> {
            &&& *final(input) == *old(input)
            &&& r.wf()
            &&& r.spec_entry_size() == 1
            &&& r.spec_block_size() == 4096
            &&& r.block_count() == 2
            &&& r.filled().len() == 0
            &&& r.recycled().len() == 2
        },
        old(input).spec_entry_size() > 0 ==> {
            let listing = sorted_listing(block_entries(old(input).filled()).to_set());
            &&& final(input).filled().len() == 0
            &&& final(input).recycled() == old(input).recycled()
            &&& final(input).block_count() == old(input).block_count()
            &&& final(input).spec_block_size() == old(input).spec_block_size()
            &&& final(input).spec_entry_size() == old(input).spec_entry_size()
            &&& (old(input).wf() ==> final(input).wf())
            &&& strictly_sorted(listing)
            &&& listing.to_set() == block_entries(old(input).filled()).to_set()
            &&& r.wf()
            &&& r.spec_entry_size() == old(input).spec_entry_size()
            &&& r.block_count() == 2
            &&& r.filled().len() == (if listing.len() == 0 { 0int } else { 1int })
            &&& listing.len() > 0 ==> r.filled()[0].contents() == listing.flatten()
                && r.filled()[0].spec_entry_size() == old(input).spec_entry_size()
        },
{
    let es = input.entry_size();
    if es == 0 {
        return Chain::new(4096, 1, 2);
    }
    let ghost entries0 = block_entries(input.filled());
    proof {
        lemma_block_entries_nonempty(input.filled());
    }
    let mut all = collect_entries(input);
    let ghost collected = all@;
    sort_byte_strings(&mut all);
    proof {
        broadcast use vstd::seq_lib::group_to_multiset_ensures;

        assert(record_views(all@).to_multiset() == record_views(collected).to_multiset());
        assert(all@.len() == record_views(all@).to_multiset().len());
        assert forall|x: Seq<u8>| record_views(all@).contains(x) == entries0.contains(x) by {
            assert(record_views(all@).to_multiset().count(x) == entries0.to_multiset().count(x));
        }
        assert(record_views(all@).to_set() =~= entries0.to_set());
        assert forall|j: int| 0 <= j < all@.len() implies 0 < (#[trigger] all@[j])@.len() <= es by {
            assert(record_views(all@)[j] == all@[j]@);
            assert(record_views(all@).contains(all@[j]@));
            assert(entries0.contains(all@[j]@));
            let m = choose|m: int| 0 <= m < entries0.len() && entries0[m] == all@[j]@;
            assert(entries0[m] == all@[j]@);
        }
    }
    let d = dedup_sorted(&all);
    let n = d.len();
    let ghost dv = record_views(d@);
    proof {
        lemma_strictly_sorted_unique(dv, sorted_listing(entries0.to_set()));
        assert forall|j: int| 0 <= j < dv.len() implies 0 < (#[trigger] dv[j]).len() <= es by {
            assert(dv.to_set().contains(dv[j]));
            assert(record_views(all@).to_set().contains(dv[j]));
            let m = choose|m: int| 0 <= m < record_views(all@).len() && record_views(all@)[m] == dv[j];
            assert(all@[m]@ == dv[j]);
        }
        assert(n * es <= all@.len() * es) by (nonlinear_arith)
            requires
                n <= all@.len(),
        ;
        assert forall|j: int| 0 <= j < d@.len() implies 0 < (#[trigger] d@[j])@.len() <= es by {
            assert(dv[j] == d@[j]@);
        }
    }
    records_to_chain(&d, es)
}

} // verus!
