//! The free-list node of one size class.
use vstd::prelude::*;
use vstd::arithmetic::power2::{pow2, lemma_pow2_pos};
use vstd::arithmetic::div_mod::lemma_fundamental_div_mod;
use std::collections::VecDeque;
use crate::memory::{MemoryTypeId, Requirements, MemoryError, MemoryBlock, is_power_of_two, power_of_two};
use crate::node_laws::{lemma_aligned_to_smaller_power, lemma_slot_range, lemma_pop_keeps_wf, lemma_push_keeps_wf};

verus! {

/// Opaque tag that the allocator places on each chunk it issues, and by which
/// it finds the chunk's backing block again when the chunk is freed.
#[derive(Debug, Clone, Copy)]
pub struct Tag(usize);

impl Tag {
    /// Index of the backing block that the tagged chunk was carved from.
    pub closed spec fn index(self) -> usize {
        self.0
    }

    /// Index of the backing block that the tagged chunk was carved from.
    pub fn block_index(&self) -> (i: usize)
        ensures
            i == self.index(),
    {
        self.0
    }
}

/// A chunk as the caller holds it: a byte range of a memory object, with the
/// allocator's tag.
#[derive(Debug)]
pub struct TaggedBlock {
    /// Identity of the memory object that the chunk lies in.
    pub memory: u64,
    /// First byte of the chunk in the memory object.
    pub start: u64,
    /// One past the last byte of the chunk.
    pub end: u64,
    /// The allocator's tag, to be handed back as it is.
    pub tag: Tag,
}

/// What a chunk is: the memory object, the byte range `start..end` in it, and
/// the index of its backing block.
pub struct ChunkView {
    pub memory: u64,
    pub start: u64,
    pub end: u64,
    pub block_index: usize,
}

impl View for TaggedBlock {
    type V = ChunkView;

    open spec fn view(&self) -> ChunkView {
        ChunkView {
            memory: self.memory,
            start: self.start,
            end: self.end,
            block_index: self.tag.index(),
        }
    }
}

impl TaggedBlock {
    /// Number of bytes in the chunk.
    pub fn size(&self) -> (n: u64)
        requires
            self.start <= self.end,
        ensures
            n == self.end - self.start,
    {
        self.end - self.start
    }
}

impl ChunkView {
    /// Two chunks share no byte: they lie in different memory objects, or
    /// their ranges do not meet.
    pub open spec fn disjoint(self, other: ChunkView) -> bool {
        self.memory != other.memory || self.end <= other.start || other.end <= self.start
    }

    /// Two chunks were carved from different backing blocks, or share no byte.
    pub open spec fn apart(self, other: ChunkView) -> bool {
        self.block_index != other.block_index || self.end <= other.start || other.end
            <= self.start
    }
}

/// What the node asks of the owner, or the chunk it hands out.
#[derive(Debug)]
pub enum AllocStep {
    /// The request is served with this chunk.
    Chunk(TaggedBlock),
    /// No chunk is free: the upstream owner is to be asked for a backing
    /// block that meets these requirements.
    Grow(Requirements),
}

/// A node's state: its configuration, the free chunk slots in the order in
/// which they will be handed out, and the backing blocks by index. A slot is
/// a pair of a block's index and the chunk's index within the block.
pub struct NodeView {
    pub id: MemoryTypeId,
    pub chunk_size: u64,
    pub chunks_per_block: usize,
    pub free: Seq<(usize, u64)>,
    pub blocks: Seq<MemoryBlock>,
}

impl NodeView {
    /// A node without backing blocks.
    pub open spec fn empty(chunk_size: u64, chunks_per_block: usize, id: MemoryTypeId) -> NodeView {
        NodeView { id, chunk_size, chunks_per_block, free: Seq::empty(), blocks: Seq::empty() }
    }

    /// Number of chunks that the backing blocks hold, free or handed out.
    pub open spec fn count(self) -> int {
        self.blocks.len() * self.chunks_per_block
    }

    /// The configuration is one that a node can be made with.
    pub open spec fn valid_config(self) -> bool {
        &&& is_power_of_two(self.chunk_size)
        &&& self.chunks_per_block >= 1
        &&& self.chunk_size * self.chunks_per_block <= u64::MAX
        &&& self.id.0 < 64
    }

    /// `slot` names a chunk of one of the backing blocks.
    pub open spec fn valid_slot(self, slot: (usize, u64)) -> bool {
        slot.0 < self.blocks.len() && slot.1 < self.chunks_per_block
    }

    /// The node's invariant: no slot is free twice, every free slot names a
    /// chunk of a backing block, and no more slots are free than exist.
    pub open spec fn wf(self) -> bool {
        &&& self.valid_config()
        &&& self.free.no_duplicates()
        &&& forall|i: int| 0 <= i < self.free.len() ==> self.valid_slot(#[trigger] self.free[i])
        &&& self.free.len() <= self.count()
    }

    /// At least one chunk is handed out: fewer slots are free than exist.
    pub open spec fn is_used(self) -> bool {
        self.free.len() < self.count()
    }

    /// What the owner is asked for when the node grows: a block for
    /// `chunks_per_block` chunks, aligned to the chunk size, of the node's
    /// memory type.
    pub open spec fn grow_requirements(self) -> Requirements {
        Requirements {
            size: (self.chunk_size * self.chunks_per_block) as u64,
            alignment: self.chunk_size,
            type_mask: crate::memory::type_bit(self.id),
        }
    }

    /// The slots of a block that is appended next, in chunk order.
    pub open spec fn fresh_slots(self) -> Seq<(usize, u64)> {
        Seq::new(self.chunks_per_block as nat, |i: int| (self.blocks.len() as usize, i as u64))
    }

    /// The node after `block` was appended: its slots join the free list at
    /// the back.
    pub open spec fn grown(self, block: MemoryBlock) -> NodeView {
        NodeView {
            free: self.free + self.fresh_slots(),
            blocks: self.blocks.push(block),
            ..self
        }
    }

    /// The chunk that stands at `slot`.
    pub open spec fn chunk(self, slot: (usize, u64)) -> ChunkView {
        ChunkView {
            memory: self.blocks[slot.0 as int].memory,
            start: (slot.1 * self.chunk_size) as u64,
            end: (slot.1 * self.chunk_size + self.chunk_size) as u64,
            block_index: slot.0,
        }
    }

    /// The slot that chunk `c` stands at.
    pub open spec fn slot_of(self, c: ChunkView) -> (usize, u64) {
        (c.block_index, (c.start as int / self.chunk_size as int) as u64)
    }

    /// The node after the first free slot was handed out.
    pub open spec fn after_alloc(self) -> NodeView {
        NodeView { free: self.free.subrange(1, self.free.len() as int), ..self }
    }

    /// The node after chunk `c` came back: its slot is the first to be handed
    /// out again.
    pub open spec fn after_free(self, c: ChunkView) -> NodeView {
        NodeView { free: seq![self.slot_of(c)] + self.free, ..self }
    }

    /// Chunk `c` is one that this node handed out and has not got back.
    pub open spec fn owns(self, c: ChunkView) -> bool {
        &&& self.valid_slot(self.slot_of(c))
        &&& c == self.chunk(self.slot_of(c))
        &&& !self.free.contains(self.slot_of(c))
    }

    /// No two backing blocks lie in the same memory object.
    pub open spec fn blocks_in_separate_memory(self) -> bool {
        forall|i: int, j: int|
            0 <= i < j < self.blocks.len() ==> (#[trigger] self.blocks[i]).memory != (
            #[trigger] self.blocks[j]).memory
    }

    /// Number of chunks that are handed out.
    pub open spec fn outstanding(self) -> int {
        self.count() - self.free.len()
    }

    /// `slot` names a chunk that is handed out.
    pub open spec fn holds_out(self, slot: (usize, u64)) -> bool {
        self.valid_slot(slot) && !self.free.contains(slot)
    }

    /// One allocation leads from this node to `next` and hands out `c`: the
    /// first free chunk is taken, after a backing block was appended if the
    /// owner gave one.
    pub open spec fn issues(self, next: NodeView, c: ChunkView) -> bool {
        exists|base: NodeView|
            {
                &&& base == self || exists|block: MemoryBlock| base == #[trigger] self.grown(block)
                &&& base.free.len() > 0
                &&& next == #[trigger] base.after_alloc()
                &&& c == base.chunk(base.free[0])
            }
    }
}

/// The allocator of one size class: it slices the backing blocks it is given
/// into chunks of `chunk_size` bytes and keeps the free ones in a queue.
#[derive(Debug)]
pub struct ChunkedNode {
    id: MemoryTypeId,
    chunks_per_block: usize,
    chunk_size: u64,
    free: VecDeque<(usize, u64)>,
    blocks: Vec<MemoryBlock>,
}

impl View for ChunkedNode {
    type V = NodeView;

    closed spec fn view(&self) -> NodeView {
        NodeView {
            id: self.id,
            chunk_size: self.chunk_size,
            chunks_per_block: self.chunks_per_block,
            free: self.free@,
            blocks: self.blocks@,
        }
    }
}

impl ChunkedNode {
    /// Tells whether a node can be made with these parameters: the chunk
    /// size is a power of two, a block holds at least one chunk and has a
    /// size in `u64`, and the memory type has a bit in a type mask.
    pub fn valid_parameters(chunk_size: u64, chunks_per_block: usize, id: MemoryTypeId) -> (r: bool)
        ensures
            r == NodeView::empty(chunk_size, chunks_per_block, id).valid_config(),
    {
        power_of_two(chunk_size) && chunks_per_block >= 1 && id.0 < 64 && chunk_size.checked_mul(
            chunks_per_block as u64,
        ).is_some()
    }

    /// Makes a node without backing blocks.
    pub fn new(chunk_size: u64, chunks_per_block: usize, id: MemoryTypeId) -> (node: Self)
        requires
            NodeView::empty(chunk_size, chunks_per_block, id).valid_config(),
        ensures
            node@ == NodeView::empty(chunk_size, chunks_per_block, id),
            node@.wf(),
    {
        let node = ChunkedNode {
            id,
            chunk_size,
            chunks_per_block,
            free: VecDeque::new(),
            blocks: Vec::new(),
        };
        assert(node@.blocks.len() * node@.chunks_per_block == 0) by (nonlinear_arith)
            requires
                node@.blocks.len() == 0,
        ;
        node
    }

    /// Size of the node's chunks in bytes.
    pub fn chunk_size(&self) -> (n: u64)
        ensures
            n == self@.chunk_size,
    {
        self.chunk_size
    }

    /// Number of backing blocks held.
    pub fn block_count(&self) -> (n: usize)
        ensures
            n == self@.blocks.len(),
    {
        self.blocks.len()
    }

    /// Number of chunks that are free.
    pub fn free_count(&self) -> (n: usize)
        ensures
            n == self@.free.len(),
    {
        self.free.len()
    }

    /// What the owner is asked for when the node needs another backing block.
    pub fn grow_requirements(&self) -> (reqs: Requirements)
        requires
            self@.valid_config(),
        ensures
            reqs == self@.grow_requirements(),
    {
        Requirements {
            type_mask: 1u64 << (self.id.0 as u64),
            size: self.chunk_size * (self.chunks_per_block as u64),
            alignment: self.chunk_size,
        }
    }

    /// Takes a backing block from the owner: the block is appended and its
    /// chunks join the free list at the back, in chunk order.
    pub fn grow(&mut self, block: MemoryBlock)
        requires
            old(self)@.wf(),
            block.satisfies(old(self)@.grow_requirements()),
        ensures
            final(self)@ == old(self)@.grown(block),
            final(self)@.wf(),
    {
        let ghost before = self@;
        let n: u64 = self.chunks_per_block as u64;
        let index: usize = self.blocks.len();
        let mut i: u64 = 0;
        while i < n
            invariant
                0 <= i <= n,
                n == before.chunks_per_block,
                index == before.blocks.len(),
                self.blocks@ == before.blocks,
                self.id == before.id,
                self.chunk_size == before.chunk_size,
                self.chunks_per_block == before.chunks_per_block,
                self.free@ == before.free + before.fresh_slots().subrange(0, i as int),
            decreases n - i,
        {
            self.free.push_back((index, i));
            proof {
                let fresh = before.fresh_slots();
                assert(fresh.subrange(0, i as int + 1) == fresh.subrange(0, i as int).push(
                    fresh[i as int],
                ));
                assert(self.free@ == before.free + fresh.subrange(0, i as int + 1));
            }
            i += 1;
        }
        self.blocks.push(block);
        proof {
            let fresh = before.fresh_slots();
            assert(fresh.subrange(0, n as int) == fresh);
            let after = before.grown(block);
            assert(self@ == after);
            assert forall|a: int, b: int|
                0 <= a < after.free.len() && 0 <= b < after.free.len() && a != b implies after.free[a]
                != after.free[b] by {
                let m = before.free.len() as int;
                if a < m {
                    assert(before.valid_slot(before.free[a]));
                }
                if b < m {
                    assert(before.valid_slot(before.free[b]));
                }
            }
            assert forall|a: int| 0 <= a < after.free.len() implies after.valid_slot(
                #[trigger] after.free[a],
            ) by {
                if a < before.free.len() {
                    assert(before.valid_slot(before.free[a]));
                }
            }
            assert(after.count() == before.count() + before.chunks_per_block) by (nonlinear_arith)
                requires
                    after.blocks.len() == before.blocks.len() + 1,
                    after.chunks_per_block == before.chunks_per_block,
            ;
        }
    }

    /// Hands out the first free chunk, if there is one. The chunk covers
    /// `chunk_size` bytes from the chunk's index times `chunk_size` in its
    /// block's memory, and carries the block's index as its tag.
    pub fn alloc_no_grow(&mut self) -> (r: Option<TaggedBlock>)
        requires
            old(self)@.wf(),
        ensures
            final(self)@.wf(),
            old(self)@.free.len() == 0 ==> r is None && final(self)@ == old(self)@,
            old(self)@.free.len() > 0 ==> r is Some && r->0@ == old(self)@.chunk(old(self)@.free[0])
                && final(self)@ == old(self)@.after_alloc() && final(self)@.owns(r->0@)
                && final(self)@.is_used(),
    {
        let ghost before = self@;
        match self.free.pop_front() {
            None => None,
            Some((block_index, chunk_index)) => {
                proof {
                    assert(before.valid_slot(before.free[0]));
                    lemma_slot_range(before, before.free[0]);
                    lemma_pop_keeps_wf(before);
                }
                let offset: u64 = chunk_index * self.chunk_size;
                let block = TaggedBlock {
                    memory: self.blocks[block_index].memory,
                    start: offset,
                    end: self.chunk_size + offset,
                    tag: Tag(block_index),
                };
                Some(block)
            },
        }
    }

    /// Serves a request from the free list, or says what the owner is to be
    /// asked for. A request whose type mask leaves out the node's memory type
    /// is refused and changes nothing. A chunk handed out is at least as
    /// large as asked and starts at a multiple of the alignment asked for.
    pub fn allocate(&mut self, reqs: Requirements) -> (r: Result<AllocStep, MemoryError>)
        requires
            old(self)@.wf(),
            reqs.size <= old(self)@.chunk_size,
            is_power_of_two(reqs.alignment),
            reqs.alignment <= old(self)@.chunk_size,
        ensures
            final(self)@.wf(),
            !reqs.admits(old(self)@.id) ==> r == Err::<AllocStep, MemoryError>(
                MemoryError::NoCompatibleMemoryType,
            ) && final(self)@ == old(self)@,
            reqs.admits(old(self)@.id) && old(self)@.free.len() == 0 ==> r is Ok && r->Ok_0
                is Grow && r->Ok_0->Grow_0 == old(self)@.grow_requirements() && final(self)@ == old(self)@,
            reqs.admits(old(self)@.id) && old(self)@.free.len() > 0 ==> r is Ok && r->Ok_0
                is Chunk && r->Ok_0->Chunk_0@ == old(self)@.chunk(old(self)@.free[0]) && final(self)@ == old(self)@.after_alloc(),
            r is Ok && r->Ok_0 is Chunk ==> {
                let c = r->Ok_0->Chunk_0@;
                &&& !old(self)@.owns(c)
                &&& final(self)@.owns(c)
                &&& final(self)@.is_used()
                &&& c.end - c.start >= reqs.size
                &&& c.start as int % reqs.alignment as int == 0
            },
    {
        if !reqs.accepts(self.id) {
            return Err(MemoryError::NoCompatibleMemoryType);
        }
        let ghost before = self@;
        match self.alloc_no_grow() {
            Some(block) => {
                proof {
                    assert(before.valid_slot(before.free[0]));
                    lemma_slot_range(before, before.free[0]);
                    lemma_aligned_to_smaller_power(
                        before.free[0].1 as nat,
                        before.chunk_size,
                        reqs.alignment,
                    );
                    assert(before.free.contains(before.free[0]));
                }
                Ok(AllocStep::Chunk(block))
            },
            None => Ok(AllocStep::Grow(self.grow_requirements())),
        }
    }

    /// Completes an allocation with the owner's answer to the request that
    /// `allocate` made for `reqs`. The owner's error is passed on and nothing
    /// changes. A block is appended, and the first free chunk is handed out:
    /// it is at least as large as asked and starts at a multiple of the
    /// alignment asked for.
    pub fn allocate_with_block(
        &mut self,
        reqs: Requirements,
        supplied: Result<MemoryBlock, MemoryError>,
    ) -> (r: Result<TaggedBlock, MemoryError>)
        requires
            old(self)@.wf(),
            reqs.size <= old(self)@.chunk_size,
            is_power_of_two(reqs.alignment),
            reqs.alignment <= old(self)@.chunk_size,
            supplied is Ok ==> supplied->Ok_0.satisfies(old(self)@.grow_requirements()),
        ensures
            final(self)@.wf(),
            supplied is Err ==> r == Err::<TaggedBlock, MemoryError>(supplied->Err_0) && final(self)@ == old(self)@,
            supplied is Ok ==> {
                let grown = old(self)@.grown(supplied->Ok_0);
                &&& r is Ok
                &&& grown.free.len() > 0
                &&& r->Ok_0@ == grown.chunk(grown.free[0])
                &&& final(self)@ == grown.after_alloc()
                &&& !old(self)@.owns(r->Ok_0@)
                &&& final(self)@.owns(r->Ok_0@)
                &&& final(self)@.is_used()
                &&& r->Ok_0@.end - r->Ok_0@.start >= reqs.size
                &&& r->Ok_0@.start as int % reqs.alignment as int == 0
            },
    {
        match supplied {
            Err(e) => Err(e),
            Ok(block) => {
                self.grow(block);
                proof {
                    let grown = old(self)@.grown(block);
                    assert(grown.free.len() == old(self)@.free.len() + grown.chunks_per_block);
                    assert(grown.valid_slot(grown.free[0]));
                    lemma_slot_range(grown, grown.free[0]);
                    lemma_aligned_to_smaller_power(
                        grown.free[0].1 as nat,
                        grown.chunk_size,
                        reqs.alignment,
                    );
                    if old(self)@.free.len() > 0 {
                        assert(grown.free[0] == old(self)@.free[0]);
                        assert(old(self)@.free.contains(old(self)@.free[0]));
                    } else {
                        assert(grown.free[0] == old(self)@.fresh_slots()[0]);
                    }
                }
                match self.alloc_no_grow() {
                    Some(chunk) => {
                        proof {
                            let before = old(self)@;
                            let grown = before.grown(block);
                            assert(before.slot_of(chunk@) == grown.slot_of(chunk@));
                            assert(grown.slot_of(chunk@) == grown.free[0]);
                            if before.free.len() == 0 {
                                assert(old(self).blocks.len() == before.blocks.len());
                                assert(grown.free[0] == before.fresh_slots()[0]);
                                assert(!before.valid_slot(grown.free[0]));
                            }
                        }
                        Ok(chunk)
                    },
                    None => {
                        proof {
                            assert(false);
                        }
                        vstd::pervasive::unreached()
                    },
                }
            },
        }
    }

    /// Takes back a chunk that this node handed out. Its slot goes to the
    /// front of the free list, so that it is the next to be handed out. No
    /// memory goes back to the owner.
    pub fn free(&mut self, block: TaggedBlock)
        requires
            old(self)@.wf(),
            old(self)@.owns(block@),
        ensures
            final(self)@ == old(self)@.after_free(block@),
            final(self)@.wf(),
    {
        let ghost before = self@;
        proof {
            lemma_slot_range(before, before.slot_of(block@));
        }
        let offset: u64 = block.start;
        let block_index: usize = block.tag.block_index();
        let chunk_index: u64 = offset / self.chunk_size;
        self.free.push_front((block_index, chunk_index));
        proof {
            lemma_push_keeps_wf(before, block@);
        }
    }

    /// Tells whether `block` is a chunk that this node handed out and has not
    /// got back: its tag names a backing block in the chunk's memory, its
    /// range is that of a chunk of the block, and its slot is not free.
    pub fn holds(&self, block: &TaggedBlock) -> (r: bool)
        requires
            self@.wf(),
        ensures
            r == self@.owns(block@),
    {
        let ghost c = block@;
        let ghost slot = self@.slot_of(c);
        let index: usize = block.tag.block_index();
        proof {
            let e = choose|e: nat| self@.chunk_size == #[trigger] pow2(e);
            lemma_pow2_pos(e);
            lemma_fundamental_div_mod(block.start as int, self.chunk_size as int);
        }
        if index >= self.blocks.len() {
            return false;
        }
        let chunk_index: u64 = block.start / self.chunk_size;
        if chunk_index >= self.chunks_per_block as u64 {
            return false;
        }
        proof {
            lemma_slot_range(self@, slot);
        }
        if block.start % self.chunk_size != 0 || block.end < block.start || block.end - block.start
            != self.chunk_size || self.blocks[index].memory != block.memory {
            return false;
        }
        proof {
            let cs = self.chunk_size as int;
            let k = chunk_index as int;
            assert(k * cs == cs * k) by (nonlinear_arith);
            assert(slot == (index, chunk_index));
            assert(self@.chunk(slot).start == block.start);
            assert(self@.chunk(slot).end == block.end);
            assert(c == self@.chunk(slot));
        }
        let mut i: usize = 0;
        while i < self.free.len()
            invariant
                0 <= i <= self.free@.len(),
                slot == (index, chunk_index),
                slot == self@.slot_of(block@),
                self@.valid_slot(slot),
                block@ == self@.chunk(slot),
                forall|j: int| 0 <= j < i ==> self.free@[j] != slot,
            decreases self.free@.len() - i,
        {
            let entry = self.free[i];
            if entry.0 == index && entry.1 == chunk_index {
                assert(self.free@[i as int] == slot);
                return false;
            }
            i = i + 1;
        }
        true
    }

    /// Tells whether a chunk of this node is handed out.
    pub fn is_used(&self) -> (r: bool)
        ensures
            r == self@.is_used(),
    {
        let free_len: usize = self.free.len();
        match self.blocks.len().checked_mul(self.chunks_per_block) {
            Some(count) => free_len < count,
            None => true,
        }
    }

    /// Gives up the node. While a chunk is handed out the node comes back as
    /// it was. Otherwise the backing blocks are returned, in index order, for
    /// the owner to take back.
    pub fn dispose(self) -> (r: Result<Vec<MemoryBlock>, Self>)
        ensures
            self@.is_used() ==> r is Err && r->Err_0 == self && r->Err_0@ == self@,
            !self@.is_used() ==> r is Ok && r->Ok_0@ == self@.blocks,
    {
        if self.is_used() {
            Err(self)
        } else {
            Ok(self.blocks)
        }
    }
}

} // verus!
