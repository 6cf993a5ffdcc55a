use kenlmrs::stream::chain::{sort_chain, Block, Chain, ChainPosition, PCQueue};
use kenlmrs::stream::config::{ChainConfig, SortConfig};

#[test]
fn block_push_and_entries() {
    let mut b = Block::new(64, 8);
    let entry = [1u8, 2, 3, 4, 5, 6, 7, 8];
    assert!(b.push(&entry));
    assert!(!b.is_empty());
    let entries = b.as_entries();
    assert_eq!(entries.len(), 1);
    assert_eq!(entries[0], &entry);
}

#[test]
fn block_is_full_when_capacity_exhausted() {
    let mut b = Block::new(16, 8);
    assert!(b.push(&[0u8; 8]));
    assert!(b.push(&[0u8; 8]));
    assert!(b.is_full());
    assert!(!b.push(&[0u8; 8])); // should fail
}

#[test]
fn chain_add_pass_pop_round_trip() {
    let mut chain = Chain::new(256, 8, 4);
    let mut block = chain.add();
    block.push(&[42u8; 8]);
    chain.pass(block);
    let received = chain.pop().expect("should have block");
    let entries = received.as_entries();
    assert_eq!(entries[0], &[42u8; 8]);
}

#[test]
fn sort_chain_sorts_entries() {
    let mut chain = Chain::new(256, 4, 4);
    let mut block = chain.add();
    block.push(&[3, 0, 0, 0u8]);
    block.push(&[1, 0, 0, 0u8]);
    block.push(&[2, 0, 0, 0u8]);
    chain.pass(block);
    let mut sorted = sort_chain(&mut chain, "/tmp");
    let out_block = sorted.pop().expect("sorted output");
    let entries: Vec<Vec<u8>> = out_block.as_entries();
    assert_eq!(entries[0], &[1, 0, 0, 0]);
    assert_eq!(entries[1], &[2, 0, 0, 0]);
    assert_eq!(entries[2], &[3, 0, 0, 0]);
}

#[test]
fn sort_chain_deduplicates() {
    let mut chain = Chain::new(256, 4, 4);
    let mut block = chain.add();
    block.push(&[1, 0, 0, 0u8]);
    block.push(&[1, 0, 0, 0u8]); // duplicate
    block.push(&[2, 0, 0, 0u8]);
    chain.pass(block);
    let mut sorted = sort_chain(&mut chain, "/tmp");
    let out_block = sorted.pop().expect("sorted output");
    let entries = out_block.as_entries();
    assert_eq!(entries.len(), 2);
}

#[test]
fn pcqueue_push_pop_ordering() {
    let mut q = PCQueue::new(4);
    q.push(1u32);
    q.push(2u32);
    q.push(3u32);
    assert_eq!(q.try_pop(), Some(1));
    assert_eq!(q.try_pop(), Some(2));
    assert_eq!(q.try_pop(), Some(3));
    assert_eq!(q.try_pop(), None);
}

#[test]
fn block_entries_keep_a_short_tail() {
    let mut b = Block::new(16, 4);
    assert!(b.push(&[1, 2, 3, 4, 5, 6]));
    let entries = b.as_entries();
    assert_eq!(entries, vec![vec![1u8, 2, 3, 4], vec![5u8, 6]]);
    b.clear();
    assert!(b.is_empty());
    assert_eq!(b.as_entries().len(), 0);
    assert_eq!(b.entry_size(), 4);
}

#[test]
fn chain_passes_empty_blocks_back_to_the_pool() {
    let mut chain = Chain::new(64, 4, 2);
    let block = chain.add();
    chain.pass(block);
    assert!(chain.pop().is_none());
    let a = chain.add();
    let b = chain.add();
    assert!(a.is_empty() && b.is_empty());
}

#[test]
fn sort_chain_across_blocks_and_empty_input() {
    let mut chain = Chain::new(8, 4, 4);
    let mut first = chain.add();
    first.push(&[9, 9, 9, 9]);
    first.push(&[5, 0, 0, 0]);
    chain.pass(first);
    let mut second = chain.add();
    second.push(&[5, 0, 0, 0]);
    second.push(&[0, 1, 0, 0]);
    chain.pass(second);
    let mut sorted = sort_chain(&mut chain, "/tmp");
    assert!(chain.pop().is_none());
    let out = sorted.pop().expect("sorted output");
    assert_eq!(out.as_entries(), vec![vec![0u8, 1, 0, 0], vec![5u8, 0, 0, 0], vec![9u8, 9, 9, 9]]);
    assert!(sorted.pop().is_none());

    let mut empty = Chain::new(8, 4, 1);
    let mut sorted_empty = sort_chain(&mut empty, "/tmp");
    assert!(sorted_empty.pop().is_none());
    assert_eq!(sorted_empty.entry_size(), 4);
}

#[test]
fn sort_chain_of_zero_sized_records() {
    let mut chain = Chain::new(8, 0, 1);
    let mut sorted = sort_chain(&mut chain, "/tmp");
    assert_eq!(sorted.entry_size(), 1);
    assert!(sorted.pop().is_none());
}

#[test]
fn chain_position_forwards_to_its_chain() {
    let mut pos = ChainPosition::new(Chain::new(32, 2, 2));
    let mut block = pos.add();
    block.push(&[7, 7]);
    pos.pass(block);
    let got = pos.pop().expect("block");
    assert_eq!(got.as_entries(), vec![vec![7u8, 7]]);
    assert!(pos.pop().is_none());
}

#[test]
fn stream_configs_keep_their_parameters() {
    let c = ChainConfig::with_params(8, 3, 1024);
    assert_eq!((c.entry_size, c.block_count, c.total_memory), (8, 3, 1024));
    let d = ChainConfig::new();
    assert_eq!((d.entry_size, d.block_count, d.total_memory), (0, 0, 0));
    let s = SortConfig::new("/tmp/x".to_string(), 64, 128);
    assert_eq!(s.temp_prefix, "/tmp/x");
    assert_eq!((s.buffer_size, s.total_memory), (64, 128));
}
