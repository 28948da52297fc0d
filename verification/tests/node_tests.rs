use chunked_alloc::memory::{MemoryBlock, MemoryError, MemoryTypeId, Requirements};
use chunked_alloc::node::{AllocStep, ChunkedNode, TaggedBlock};

fn reqs(size: u64, alignment: u64) -> Requirements {
    Requirements { size, alignment, type_mask: 1 << 3 }
}

fn backing(memory: u64, size: u64) -> MemoryBlock {
    MemoryBlock { memory, start: 0, end: size }
}

fn node_with_block(chunk_size: u64, chunks_per_block: usize) -> ChunkedNode {
    let mut node = ChunkedNode::new(chunk_size, chunks_per_block, MemoryTypeId(3));
    node.grow(backing(7, chunk_size * chunks_per_block as u64));
    node
}

fn take(node: &mut ChunkedNode, size: u64, alignment: u64) -> TaggedBlock {
    match node.allocate(reqs(size, alignment)) {
        Ok(AllocStep::Chunk(chunk)) => chunk,
        other => panic!("no chunk: {:?}", other),
    }
}

#[test]
fn new_node_holds_nothing() {
    let node = ChunkedNode::new(256, 4, MemoryTypeId(3));
    assert_eq!(node.chunk_size(), 256);
    assert_eq!(node.block_count(), 0);
    assert_eq!(node.free_count(), 0);
    assert!(!node.is_used());
}

#[test]
fn grow_requirements_cover_one_block() {
    let node = ChunkedNode::new(256, 4, MemoryTypeId(3));
    let asked = node.grow_requirements();
    assert_eq!(asked, Requirements { size: 1024, alignment: 256, type_mask: 8 });
}

#[test]
fn empty_node_asks_for_a_block() {
    let mut node = ChunkedNode::new(256, 4, MemoryTypeId(3));
    match node.allocate(reqs(100, 16)) {
        Ok(AllocStep::Grow(asked)) => {
            assert_eq!(asked, Requirements { size: 1024, alignment: 256, type_mask: 8 });
        }
        other => panic!("unexpected: {:?}", other),
    }
    assert_eq!(node.block_count(), 0);
    assert_eq!(node.free_count(), 0);
    assert!(!node.is_used());
}

#[test]
fn node_refuses_other_memory_type() {
    let mut node = node_with_block(256, 4);
    let wrong = Requirements { size: 100, alignment: 16, type_mask: 0b0111 };
    match node.allocate(wrong) {
        Err(e) => assert_eq!(e, MemoryError::NoCompatibleMemoryType),
        Ok(step) => panic!("unexpected: {:?}", step),
    }
    assert_eq!(node.block_count(), 1);
    assert_eq!(node.free_count(), 4);
    assert!(!node.is_used());
}

#[test]
fn grow_appends_all_chunks() {
    let mut node = ChunkedNode::new(256, 4, MemoryTypeId(3));
    node.grow(backing(7, 1024));
    assert_eq!(node.block_count(), 1);
    assert_eq!(node.free_count(), 4);
    assert!(!node.is_used());
    node.grow(backing(8, 1024));
    assert_eq!(node.block_count(), 2);
    assert_eq!(node.free_count(), 8);
}

#[test]
fn fresh_chunks_come_in_order() {
    let mut node = node_with_block(256, 4);
    for k in 0..4u64 {
        let chunk = take(&mut node, 200, 64);
        assert_eq!(chunk.memory, 7);
        assert_eq!(chunk.start, k * 256);
        assert_eq!(chunk.end, k * 256 + 256);
        assert_eq!(chunk.size(), 256);
        assert_eq!(chunk.tag.block_index(), 0);
        assert!(node.is_used());
    }
    assert_eq!(node.free_count(), 0);
    match node.allocate(reqs(200, 64)) {
        Ok(AllocStep::Grow(_)) => {}
        other => panic!("unexpected: {:?}", other),
    }
}

#[test]
fn alloc_no_grow_gives_none_when_empty() {
    let mut node = ChunkedNode::new(64, 2, MemoryTypeId(0));
    assert!(node.alloc_no_grow().is_none());
    node.grow(backing(1, 128));
    let first = node.alloc_no_grow().unwrap();
    assert_eq!((first.start, first.end), (0, 64));
    let second = node.alloc_no_grow().unwrap();
    assert_eq!((second.start, second.end), (64, 128));
    assert!(node.alloc_no_grow().is_none());
}

#[test]
fn second_block_carries_its_index() {
    let mut node = node_with_block(256, 2);
    let _a = take(&mut node, 1, 1);
    let _b = take(&mut node, 1, 1);
    let chunk = node.allocate_with_block(reqs(1, 1), Ok(backing(9, 512))).unwrap();
    assert_eq!(chunk.memory, 9);
    assert_eq!(chunk.tag.block_index(), 1);
    assert_eq!((chunk.start, chunk.end), (0, 256));
    assert_eq!(node.block_count(), 2);
    assert_eq!(node.free_count(), 1);
}

#[test]
fn owner_error_is_passed_on() {
    let mut node = ChunkedNode::new(256, 4, MemoryTypeId(3));
    let r = node.allocate_with_block(reqs(1, 1), Err(MemoryError::OutOfMemory));
    match r {
        Err(e) => assert_eq!(e, MemoryError::OutOfMemory),
        Ok(chunk) => panic!("unexpected: {:?}", chunk),
    }
    assert_eq!(node.block_count(), 0);
    assert_eq!(node.free_count(), 0);
    assert!(!node.is_used());
}

#[test]
fn freed_chunk_is_reused_first() {
    let mut node = node_with_block(256, 4);
    let first = take(&mut node, 256, 256);
    let offset = first.start;
    node.free(first);
    assert!(!node.is_used());
    let again = take(&mut node, 128, 8);
    assert_eq!(again.start, offset);
    assert_eq!(again.tag.block_index(), 0);
}

#[test]
fn freed_chunk_goes_before_untouched_ones() {
    let mut node = node_with_block(256, 4);
    let a = take(&mut node, 1, 1);
    let b = take(&mut node, 1, 1);
    assert_eq!(b.start, 256);
    node.free(a);
    let c = take(&mut node, 1, 1);
    assert_eq!(c.start, 0);
    let d = take(&mut node, 1, 1);
    assert_eq!(d.start, 512);
    node.free(b);
    node.free(d);
    let e = take(&mut node, 1, 1);
    assert_eq!(e.start, 512);
    let f = take(&mut node, 1, 1);
    assert_eq!(f.start, 256);
    let g = take(&mut node, 1, 1);
    assert_eq!(g.start, 768);
}

#[test]
fn node_is_used_until_all_chunks_are_back() {
    let mut node = node_with_block(128, 3);
    let a = take(&mut node, 1, 1);
    let b = take(&mut node, 1, 1);
    assert!(node.is_used());
    node.free(a);
    assert!(node.is_used());
    node.free(b);
    assert!(!node.is_used());
    assert_eq!(node.free_count(), 3);
}

#[test]
fn chunks_of_a_run_do_not_overlap() {
    let mut node = ChunkedNode::new(64, 3, MemoryTypeId(3));
    let mut chunks: Vec<TaggedBlock> = Vec::new();
    for round in 0..7u64 {
        match node.allocate(reqs(64, 64)) {
            Ok(AllocStep::Chunk(chunk)) => chunks.push(chunk),
            Ok(AllocStep::Grow(asked)) => {
                let block = MemoryBlock { memory: 100 + round, start: 0, end: asked.size };
                chunks.push(node.allocate_with_block(reqs(64, 64), Ok(block)).unwrap());
            }
            Err(e) => panic!("unexpected: {:?}", e),
        }
    }
    assert_eq!(node.block_count(), 3);
    for i in 0..chunks.len() {
        for j in (i + 1)..chunks.len() {
            let (a, b) = (&chunks[i], &chunks[j]);
            let apart = a.tag.block_index() != b.tag.block_index()
                || a.end <= b.start
                || b.end <= a.start;
            assert!(apart, "{:?} overlaps {:?}", a, b);
        }
    }
}

#[test]
fn chunk_meets_size_and_alignment() {
    let mut node = node_with_block(1024, 8);
    for alignment in [1u64, 2, 64, 512, 1024] {
        let chunk = take(&mut node, 1000, alignment);
        assert!(chunk.size() >= 1000);
        assert_eq!(chunk.start % alignment, 0);
    }
}

#[test]
fn busy_node_is_not_disposed() {
    let mut node = node_with_block(256, 4);
    let chunk = take(&mut node, 1, 1);
    let mut node = match node.dispose() {
        Err(node) => node,
        Ok(blocks) => panic!("unexpected: {:?}", blocks),
    };
    assert_eq!(node.block_count(), 1);
    assert_eq!(node.free_count(), 3);
    assert!(node.is_used());
    assert!(node.holds(&chunk));
    node.free(chunk);
    match node.dispose() {
        Ok(blocks) => assert_eq!(blocks, vec![backing(7, 1024)]),
        Err(node) => panic!("unexpected: {:?}", node),
    }
}

#[test]
fn dispose_returns_blocks_in_index_order() {
    let mut node = ChunkedNode::new(16, 2, MemoryTypeId(1));
    node.grow(backing(5, 32));
    node.grow(backing(3, 32));
    node.grow(backing(4, 32));
    let blocks = node.dispose().unwrap();
    assert_eq!(blocks, vec![backing(5, 32), backing(3, 32), backing(4, 32)]);
}

#[test]
fn node_tells_its_own_chunks() {
    let mut node = node_with_block(256, 4);
    let chunk = take(&mut node, 1, 1);
    assert!(node.holds(&chunk));
    let mut other = ChunkedNode::new(256, 4, MemoryTypeId(3));
    other.grow(backing(8, 1024));
    assert!(!other.holds(&chunk));
    let foreign = take(&mut other, 1, 1);
    assert!(!node.holds(&foreign));
    let second = take(&mut node, 1, 1);
    assert!(node.holds(&second));
    let shifted =
        TaggedBlock { memory: second.memory, start: 300, end: 556, tag: second.tag };
    assert!(!node.holds(&shifted));
    let short = TaggedBlock { memory: second.memory, start: 256, end: 384, tag: second.tag };
    assert!(!node.holds(&short));
    let copy = TaggedBlock { memory: chunk.memory, start: 0, end: 256, tag: chunk.tag };
    node.free(chunk);
    assert!(!node.holds(&copy));
}

#[test]
fn node_parameters_are_judged() {
    assert!(ChunkedNode::valid_parameters(256, 4, MemoryTypeId(3)));
    assert!(ChunkedNode::valid_parameters(1, 1, MemoryTypeId(0)));
    assert!(ChunkedNode::valid_parameters(1 << 63, 1, MemoryTypeId(63)));
    assert!(!ChunkedNode::valid_parameters(1 << 63, 2, MemoryTypeId(63)));
    assert!(!ChunkedNode::valid_parameters(255, 4, MemoryTypeId(3)));
    assert!(!ChunkedNode::valid_parameters(0, 4, MemoryTypeId(3)));
    assert!(!ChunkedNode::valid_parameters(256, 0, MemoryTypeId(3)));
    assert!(!ChunkedNode::valid_parameters(256, 4, MemoryTypeId(64)));
}
