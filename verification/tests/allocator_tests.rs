use chunked_alloc::allocator::ChunkedAllocator;
use chunked_alloc::memory::{MemoryBlock, MemoryError, MemoryTypeId, Requirements};
use chunked_alloc::node::{AllocStep, TaggedBlock};

fn allocator() -> ChunkedAllocator {
    ChunkedAllocator::new(4, 256, 4096, MemoryTypeId(2))
}

fn reqs(size: u64, alignment: u64) -> Requirements {
    Requirements { size, alignment, type_mask: 0b0100 }
}

/// Plays the owner: every request for a block is granted.
fn serve(a: &mut ChunkedAllocator, r: Requirements, next_memory: &mut u64) -> TaggedBlock {
    match a.allocate(r) {
        Ok(AllocStep::Chunk(chunk)) => chunk,
        Ok(AllocStep::Grow(asked)) => {
            *next_memory += 1;
            let block = MemoryBlock { memory: *next_memory, start: 0, end: asked.size };
            a.allocate_with_block(r, Ok(block)).unwrap()
        }
        Err(e) => panic!("unexpected: {:?}", e),
    }
}

#[test]
fn accessors_reflect_the_parameters() {
    let a = allocator();
    assert_eq!(a.memory_type(), MemoryTypeId(2));
    assert_eq!(a.chunks_per_block(), 4);
    assert_eq!(a.min_chunk_size(), 256);
    assert_eq!(a.max_chunk_size(), 4096);
    assert_eq!(a.node_count(), 0);
    assert!(!a.is_used());
}

#[test]
fn pick_node_finds_the_smallest_class() {
    let a = allocator();
    assert_eq!(a.pick_node(256), 0);
    assert_eq!(a.pick_node(257), 1);
    assert_eq!(a.pick_node(512), 1);
    assert_eq!(a.pick_node(1), 0);
    assert_eq!(a.pick_node(513), 2);
    assert_eq!(a.pick_node(1024), 2);
    assert_eq!(a.pick_node(2049), 4);
    assert_eq!(a.pick_node(4096), 4);
}

#[test]
fn pick_node_with_unit_chunks() {
    let a = ChunkedAllocator::new(1, 1, 1 << 62, MemoryTypeId(0));
    assert_eq!(a.pick_node(1), 0);
    assert_eq!(a.pick_node(2), 1);
    assert_eq!(a.pick_node(3), 2);
    assert_eq!(a.pick_node((1 << 62) - 1), 62);
    assert_eq!(a.pick_node(1 << 62), 62);
}

#[test]
fn grow_fills_all_classes_below() {
    let mut a = allocator();
    a.grow(2);
    assert_eq!(a.node_count(), 3);
    for i in 0..3usize {
        let node = a.node(i).unwrap();
        assert_eq!(node.chunk_size(), 256 << i);
        assert_eq!(node.block_count(), 0);
        assert_eq!(node.free_count(), 0);
    }
    assert!(a.node(3).is_none());
}

#[test]
fn grow_never_shrinks() {
    let mut a = allocator();
    a.grow(3);
    assert_eq!(a.node_count(), 4);
    a.grow(1);
    assert_eq!(a.node_count(), 4);
    a.grow(3);
    assert_eq!(a.node_count(), 4);
    a.grow(4);
    assert_eq!(a.node_count(), 5);
    assert_eq!(a.node(4).unwrap().chunk_size(), 4096);
}

#[test]
fn grow_keeps_nodes_in_use() {
    let mut a = allocator();
    let mut memory = 0;
    let chunk = serve(&mut a, reqs(256, 1), &mut memory);
    assert_eq!(a.node_count(), 2);
    a.grow(4);
    assert_eq!(a.node_count(), 5);
    assert_eq!(a.node(0).unwrap().block_count(), 1);
    assert_eq!(a.node(0).unwrap().free_count(), 3);
    assert!(a.holds(&chunk));
}

#[test]
fn oversize_request_is_refused() {
    let mut a = allocator();
    match a.allocate(reqs(4097, 1)) {
        Err(e) => assert_eq!(e, MemoryError::OutOfMemory),
        Ok(step) => panic!("unexpected: {:?}", step),
    }
    assert_eq!(a.node_count(), 0);
    assert!(!a.is_used());
}

#[test]
fn other_memory_type_is_refused() {
    let mut a = allocator();
    let mut memory = 0;
    let chunk = serve(&mut a, reqs(256, 1), &mut memory);
    let wrong = Requirements { size: 256, alignment: 1, type_mask: 0b1011 };
    match a.allocate(wrong) {
        Err(e) => assert_eq!(e, MemoryError::NoCompatibleMemoryType),
        Ok(step) => panic!("unexpected: {:?}", step),
    }
    assert_eq!(a.node(0).unwrap().block_count(), 1);
    assert_eq!(a.node(0).unwrap().free_count(), 3);
    assert!(a.holds(&chunk));
}

#[test]
fn request_goes_to_its_class() {
    let mut a = allocator();
    match a.allocate(reqs(300, 1)) {
        Ok(AllocStep::Grow(asked)) => {
            assert_eq!(asked, Requirements { size: 2048, alignment: 512, type_mask: 4 });
        }
        other => panic!("unexpected: {:?}", other),
    }
    assert_eq!(a.node_count(), 3);
    let block = MemoryBlock { memory: 11, start: 0, end: 2048 };
    let chunk = a.allocate_with_block(reqs(300, 1), Ok(block)).unwrap();
    assert_eq!(chunk.memory, 11);
    assert_eq!((chunk.start, chunk.end), (0, 512));
    assert_eq!(chunk.tag.block_index(), 0);
    assert!(a.is_used());
    assert_eq!(a.node(1).unwrap().free_count(), 3);
    assert_eq!(a.node(0).unwrap().block_count(), 0);
}

#[test]
fn alignment_counts_for_the_class() {
    let mut a = allocator();
    let mut memory = 0;
    let chunk = serve(&mut a, reqs(16, 1024), &mut memory);
    assert_eq!(chunk.size(), 1024);
    assert_eq!(chunk.start % 1024, 0);
    assert_eq!(a.node_count(), 4);
    assert!(a.node(2).unwrap().is_used());
}

#[test]
fn largest_request_is_served() {
    let mut a = allocator();
    let mut memory = 0;
    let chunk = serve(&mut a, reqs(4096, 4096), &mut memory);
    assert_eq!(chunk.size(), 4096);
    assert_eq!(a.node_count(), 6);
    assert_eq!(a.node(5).unwrap().chunk_size(), 8192);
}

#[test]
fn owner_error_leaves_allocator_unchanged() {
    let mut a = allocator();
    match a.allocate(reqs(256, 1)) {
        Ok(AllocStep::Grow(_)) => {}
        other => panic!("unexpected: {:?}", other),
    }
    match a.allocate_with_block(reqs(256, 1), Err(MemoryError::OutOfMemory)) {
        Err(e) => assert_eq!(e, MemoryError::OutOfMemory),
        Ok(chunk) => panic!("unexpected: {:?}", chunk),
    }
    assert_eq!(a.node_count(), 2);
    assert_eq!(a.node(0).unwrap().block_count(), 0);
    assert!(!a.is_used());
}

#[test]
fn free_finds_the_node_by_size() {
    let mut a = allocator();
    let mut memory = 0;
    let small = serve(&mut a, reqs(100, 1), &mut memory);
    let large = serve(&mut a, reqs(2000, 1), &mut memory);
    assert_eq!(small.size(), 256);
    assert_eq!(large.size(), 2048);
    assert!(a.node(0).unwrap().is_used());
    assert!(a.node(3).unwrap().is_used());
    a.free(large);
    assert!(!a.node(3).unwrap().is_used());
    assert!(a.is_used());
    a.free(small);
    assert!(!a.is_used());
}

#[test]
fn allocator_reuses_freed_chunk() {
    let mut a = allocator();
    let mut memory = 0;
    let _keep = serve(&mut a, reqs(512, 512), &mut memory);
    let x = serve(&mut a, reqs(512, 512), &mut memory);
    let (offset, tag) = (x.start, x.tag.block_index());
    a.free(x);
    let y = serve(&mut a, reqs(400, 64), &mut memory);
    assert_eq!(y.start, offset);
    assert_eq!(y.tag.block_index(), tag);
    assert_eq!(memory, 1);
}

#[test]
fn busy_allocator_is_not_disposed() {
    let mut a = allocator();
    let mut memory = 0;
    let chunk = serve(&mut a, reqs(256, 1), &mut memory);
    let mut a = match a.dispose() {
        Err(a) => a,
        Ok(blocks) => panic!("unexpected: {:?}", blocks),
    };
    assert_eq!(a.node_count(), 2);
    assert_eq!(a.node(0).unwrap().block_count(), 1);
    assert_eq!(a.node(0).unwrap().free_count(), 3);
    assert!(a.holds(&chunk));
    a.free(chunk);
    assert!(!a.is_used());
    match a.dispose() {
        Ok(blocks) => assert_eq!(blocks, vec![MemoryBlock { memory: 1, start: 0, end: 1024 }]),
        Err(a) => panic!("unexpected: {:?}", a),
    }
}

#[test]
fn dispose_returns_all_blocks_node_by_node() {
    let mut a = allocator();
    let mut memory = 0;
    let large = serve(&mut a, reqs(1024, 1), &mut memory);
    let small = serve(&mut a, reqs(256, 1), &mut memory);
    let mut more = Vec::new();
    for _ in 0..4 {
        more.push(serve(&mut a, reqs(256, 1), &mut memory));
    }
    assert_eq!(a.node(0).unwrap().block_count(), 2);
    a.free(large);
    a.free(small);
    for chunk in more {
        a.free(chunk);
    }
    assert!(!a.is_used());
    let blocks = a.dispose().unwrap();
    assert_eq!(
        blocks,
        vec![
            MemoryBlock { memory: 2, start: 0, end: 1024 },
            MemoryBlock { memory: 3, start: 0, end: 1024 },
            MemoryBlock { memory: 1, start: 0, end: 4096 },
        ]
    );
}

#[test]
fn allocator_chunks_do_not_overlap() {
    let mut a = allocator();
    let mut memory = 0;
    let mut chunks = Vec::new();
    for k in 0..20u64 {
        chunks.push(serve(&mut a, reqs(1 + (k % 3) * 300, 1), &mut memory));
    }
    for i in 0..chunks.len() {
        for j in (i + 1)..chunks.len() {
            let (x, y) = (&chunks[i], &chunks[j]);
            assert!(x.memory != y.memory || x.end <= y.start || y.end <= x.start);
        }
    }
}

#[test]
fn allocator_tells_foreign_chunks() {
    let mut a = allocator();
    let mut b = allocator();
    let mut memory = 0;
    let mine = serve(&mut a, reqs(256, 1), &mut memory);
    let theirs = serve(&mut b, reqs(256, 1), &mut memory);
    assert!(a.holds(&mine));
    assert!(!a.holds(&theirs));
    assert!(b.holds(&theirs));
    let empty = TaggedBlock { memory: mine.memory, start: 0, end: 0, tag: mine.tag };
    assert!(!a.holds(&empty));
    let huge = TaggedBlock { memory: mine.memory, start: 0, end: 8192, tag: mine.tag };
    assert!(!a.holds(&huge));
}

#[test]
fn allocator_parameters_are_judged() {
    assert!(ChunkedAllocator::valid_parameters(4, 256, 4096, MemoryTypeId(2)));
    assert!(ChunkedAllocator::valid_parameters(1, 1, 1 << 62, MemoryTypeId(0)));
    assert!(ChunkedAllocator::valid_parameters(1, 4096, 4096, MemoryTypeId(63)));
    assert!(!ChunkedAllocator::valid_parameters(1, 1, 1 << 63, MemoryTypeId(0)));
    assert!(!ChunkedAllocator::valid_parameters(2, 1, 1 << 62, MemoryTypeId(0)));
    assert!(!ChunkedAllocator::valid_parameters(4, 4096, 256, MemoryTypeId(2)));
    assert!(!ChunkedAllocator::valid_parameters(4, 300, 4096, MemoryTypeId(2)));
    assert!(!ChunkedAllocator::valid_parameters(4, 256, 4000, MemoryTypeId(2)));
    assert!(!ChunkedAllocator::valid_parameters(0, 256, 4096, MemoryTypeId(2)));
    assert!(!ChunkedAllocator::valid_parameters(4, 256, 4096, MemoryTypeId(64)));
}

#[test]
fn allocator_judges_alignment() {
    let a = allocator();
    assert!(a.takes(&reqs(1, 1)));
    assert!(a.takes(&reqs(100_000, 4096)));
    assert!(!a.takes(&reqs(1, 8192)));
    assert!(!a.takes(&reqs(1, 0)));
    assert!(!a.takes(&reqs(1, 48)));
}
