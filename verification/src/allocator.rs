//! The allocator that routes each request to the node of its size class.
use vstd::prelude::*;
use vstd::arithmetic::power2::{pow2, lemma_pow2_pos, lemma2_to64};
use crate::memory::{MemoryTypeId, Requirements, MemoryError, MemoryBlock, is_power_of_two, power_of_two};
use crate::node::{ChunkedNode, NodeView, ChunkView, TaggedBlock, AllocStep};
use crate::node_laws::lemma_slot_range;
use crate::allocator_laws::{lemma_class_size_doubles, lemma_class_size_increases, lemma_class_unique, lemma_class_of_class_size, lemma_top_class, lemma_class_size_power, lemma_with_node_keeps_wf};

verus! {

/// Chunk size of size class `i` where the smallest chunks have `min` bytes:
/// `min` doubled `i` times.
pub open spec fn class_size(min: u64, i: nat) -> int {
    min * pow2(i)
}

/// `i` is the smallest size class whose chunks hold `size` bytes, where the
/// smallest chunks have `min` bytes.
pub open spec fn is_class(min: u64, size: int, i: nat) -> bool {
    &&& class_size(min, i) >= size
    &&& forall|j: nat| j < i ==> #[trigger] class_size(min, j) < size
}

/// The smallest size class whose chunks hold `size` bytes. It depends on the
/// smallest chunk size and on `size` alone.
pub open spec fn size_class(min: u64, size: int) -> nat {
    choose|i: nat| is_class(min, size, i)
}

/// An allocator's state: its configuration and its nodes by size class.
pub struct AllocatorView {
    pub id: MemoryTypeId,
    pub chunks_per_block: usize,
    pub min_chunk_size: u64,
    pub max_chunk_size: u64,
    pub nodes: Seq<NodeView>,
}

impl AllocatorView {
    /// The configuration is one that an allocator can be made with: both
    /// chunk sizes are powers of two, and a block of chunks of twice the
    /// largest size still has a size in `u64`.
    pub open spec fn valid_config(self) -> bool {
        &&& is_power_of_two(self.min_chunk_size)
        &&& is_power_of_two(self.max_chunk_size)
        &&& self.min_chunk_size <= self.max_chunk_size
        &&& self.chunks_per_block >= 1
        &&& 2 * self.max_chunk_size * self.chunks_per_block <= u64::MAX
        &&& self.id.0 < 64
    }

    /// Chunk size of size class `i`.
    pub open spec fn class_size(self, i: nat) -> int {
        class_size(self.min_chunk_size, i)
    }

    /// `i` is the smallest size class whose chunks hold `size` bytes.
    pub open spec fn is_class(self, size: int, i: nat) -> bool {
        is_class(self.min_chunk_size, size, i)
    }

    /// The smallest size class whose chunks hold `size` bytes.
    pub open spec fn size_class(self, size: int) -> nat {
        size_class(self.min_chunk_size, size)
    }

    /// The size class that serves `reqs`: the one of its size or of its
    /// alignment, whichever is larger.
    pub open spec fn class_for(self, reqs: Requirements) -> nat {
        if reqs.size >= reqs.alignment {
            self.size_class(reqs.size as int)
        } else {
            self.size_class(reqs.alignment as int)
        }
    }

    /// The node of size class `i` before it got a backing block.
    pub open spec fn fresh_node(self, i: nat) -> NodeView {
        NodeView::empty(self.class_size(i) as u64, self.chunks_per_block, self.id)
    }

    /// The invariant: node `i` is a well-formed node of size class `i` with
    /// the allocator's configuration.
    pub open spec fn wf(self) -> bool {
        &&& self.valid_config()
        &&& forall|i: int|
            0 <= i < self.nodes.len() ==> {
                let node = #[trigger] self.nodes[i];
                &&& node.wf()
                &&& node.id == self.id
                &&& node.chunks_per_block == self.chunks_per_block
                &&& node.chunk_size == self.class_size(i as nat)
                &&& node.chunk_size <= 2 * self.max_chunk_size
            }
    }

    /// The allocator after its nodes were filled up to size class `index`:
    /// the nodes it had stay as they are, the missing ones are fresh.
    pub open spec fn grown(self, index: nat) -> AllocatorView {
        let len = if index < self.nodes.len() {
            self.nodes.len()
        } else {
            index + 1
        };
        AllocatorView {
            nodes: Seq::new(
                len,
                |i: int|
                    if i < self.nodes.len() {
                        self.nodes[i]
                    } else {
                        self.fresh_node(i as nat)
                    },
            ),
            ..self
        }
    }

    /// The allocator with `node` in the place of node `i`.
    pub open spec fn with_node(self, i: int, node: NodeView) -> AllocatorView {
        AllocatorView { nodes: self.nodes.update(i, node), ..self }
    }

    /// At least one chunk of some node is handed out.
    pub open spec fn is_used(self) -> bool {
        exists|i: int| 0 <= i < self.nodes.len() && (#[trigger] self.nodes[i]).is_used()
    }

    /// The size class that chunk `c` came from.
    pub open spec fn class_of(self, c: ChunkView) -> nat {
        self.size_class(c.end - c.start)
    }

    /// Chunk `c` is one that this allocator handed out and has not got back.
    pub open spec fn owns(self, c: ChunkView) -> bool {
        &&& 1 <= c.end - c.start <= self.max_chunk_size
        &&& self.class_of(c) < self.nodes.len()
        &&& self.nodes[self.class_of(c) as int].owns(c)
    }

    /// No two backing blocks, of one node or of two, lie in the same memory
    /// object.
    pub open spec fn blocks_in_separate_memory(self) -> bool {
        forall|i: int, j: int, k: int, l: int|
            0 <= i < self.nodes.len() && 0 <= j < self.nodes.len() && 0 <= k
                < self.nodes[i].blocks.len() && 0 <= l < self.nodes[j].blocks.len() && (i != j || k
                != l) ==> (#[trigger] self.nodes[i].blocks[k]).memory != (
            #[trigger] self.nodes[j].blocks[l]).memory
    }

    /// The backing blocks of all nodes, node by node.
    pub open spec fn all_blocks(self) -> Seq<MemoryBlock> {
        blocks_of(self.nodes)
    }
}

/// The backing blocks of `nodes`: those of the first node in index order,
/// then those of the second, and so on.
pub open spec fn blocks_of(nodes: Seq<NodeView>) -> Seq<MemoryBlock>
    decreases nodes.len(),
{
    if nodes.len() == 0 {
        Seq::empty()
    } else {
        blocks_of(nodes.drop_last()) + nodes.last().blocks
    }
}

/// Allocator that rounds the requested size up to the next power of two and
/// hands out a chunk from the node that keeps chunks of that size.
#[derive(Debug)]
pub struct ChunkedAllocator {
    id: MemoryTypeId,
    chunks_per_block: usize,
    min_chunk_size: u64,
    max_chunk_size: u64,
    nodes: Vec<ChunkedNode>,
}

impl View for ChunkedAllocator {
    type V = AllocatorView;

    closed spec fn view(&self) -> AllocatorView {
        AllocatorView {
            id: self.id,
            chunks_per_block: self.chunks_per_block,
            min_chunk_size: self.min_chunk_size,
            max_chunk_size: self.max_chunk_size,
            nodes: Seq::new(self.nodes@.len(), |i: int| self.nodes@[i]@),
        }
    }
}

impl ChunkedAllocator {
    /// Tells whether an allocator can be made with these parameters: both
    /// chunk sizes are powers of two and in order, a block holds at least
    /// one chunk, a block of chunks of twice the largest size has a size in
    /// `u64`, and the memory type has a bit in a type mask.
    pub fn valid_parameters(
        chunks_per_block: usize,
        min_chunk_size: u64,
        max_chunk_size: u64,
        id: MemoryTypeId,
    ) -> (r: bool)
        ensures
            r == (AllocatorView {
                id,
                chunks_per_block,
                min_chunk_size,
                max_chunk_size,
                nodes: Seq::empty(),
            }).valid_config(),
    {
        let fits = match max_chunk_size.checked_mul(2) {
            Some(twice) => {
                assert(2 * max_chunk_size == max_chunk_size * 2);
                twice.checked_mul(chunks_per_block as u64).is_some()
            },
            None => {
                assert(2 * max_chunk_size * chunks_per_block > u64::MAX || chunks_per_block < 1)
                    by (nonlinear_arith)
                    requires
                        max_chunk_size * 2 > u64::MAX,
                ;
                false
            },
        };
        power_of_two(min_chunk_size) && power_of_two(max_chunk_size) && min_chunk_size
            <= max_chunk_size && chunks_per_block >= 1 && id.0 < 64 && fits
    }

    /// Tells whether the allocator takes a request with these requirements:
    /// the alignment is a power of two and no larger than the largest chunk.
    pub fn takes(&self, reqs: &Requirements) -> (r: bool)
        ensures
            r == (is_power_of_two(reqs.alignment) && reqs.alignment <= self@.max_chunk_size),
    {
        power_of_two(reqs.alignment) && reqs.alignment <= self.max_chunk_size
    }

    /// Makes an allocator without nodes.
    ///
    /// `chunks_per_block` is the number of chunks in each block that is asked
    /// of the owner; `min_chunk_size` and `max_chunk_size` are the chunk
    /// sizes of the smallest and the largest size class; `id` is the memory
    /// type that the allocator serves.
    pub fn new(
        chunks_per_block: usize,
        min_chunk_size: u64,
        max_chunk_size: u64,
        id: MemoryTypeId,
    ) -> (a: Self)
        requires
            (AllocatorView {
                id,
                chunks_per_block,
                min_chunk_size,
                max_chunk_size,
                nodes: Seq::empty(),
            }).valid_config(),
        ensures
            a@ == (AllocatorView {
                id,
                chunks_per_block,
                min_chunk_size,
                max_chunk_size,
                nodes: Seq::empty(),
            }),
            a@.wf(),
    {
        let a = ChunkedAllocator {
            id,
            chunks_per_block,
            min_chunk_size,
            max_chunk_size,
            nodes: Vec::new(),
        };
        assert(a@.nodes =~= Seq::empty());
        a
    }

    /// Memory type that the allocator serves.
    pub fn memory_type(&self) -> (id: MemoryTypeId)
        ensures
            id == self@.id,
    {
        self.id
    }

    /// Number of chunks in each backing block.
    pub fn chunks_per_block(&self) -> (n: usize)
        ensures
            n == self@.chunks_per_block,
    {
        self.chunks_per_block
    }

    /// Chunk size of the smallest size class.
    pub fn min_chunk_size(&self) -> (n: u64)
        ensures
            n == self@.min_chunk_size,
    {
        self.min_chunk_size
    }

    /// Chunk size of the largest size class.
    pub fn max_chunk_size(&self) -> (n: u64)
        ensures
            n == self@.max_chunk_size,
    {
        self.max_chunk_size
    }

    /// Number of size classes that have a node.
    pub fn node_count(&self) -> (n: usize)
        ensures
            n == self@.nodes.len(),
    {
        self.nodes.len()
    }

    /// The smallest size class whose chunks hold `size` bytes. It depends on
    /// the smallest chunk size and on `size` alone.
    pub fn pick_node(&self, size: u64) -> (index: u8)
        requires
            self@.valid_config(),
            1 <= size <= self@.max_chunk_size,
        ensures
            self@.is_class(size as int, index as nat),
            index as nat == self@.size_class(size as int),
            self@.class_size(index as nat) <= self@.max_chunk_size,
            index < 64,
    {
        let ghost a = self@;
        let ghost top = lemma_top_class(a);
        let mut index: u8 = 0;
        let mut chunk_size: u64 = self.min_chunk_size;
        proof {
            lemma2_to64();
            assert(a.class_size(0) == a.min_chunk_size);
            if top > 0 {
                lemma_class_size_increases(a, 0, top);
            }
        }
        while chunk_size < size
            invariant
                a == self@,
                a.valid_config(),
                a.class_size(top) == a.max_chunk_size,
                top < 64,
                a.min_chunk_size > 0,
                size <= a.max_chunk_size,
                chunk_size == a.class_size(index as nat),
                0 < chunk_size <= a.max_chunk_size,
                index <= top,
                forall|j: nat| j < index ==> #[trigger] class_size(a.min_chunk_size, j) < size,
            decreases a.max_chunk_size - chunk_size,
        {
            proof {
                lemma_class_size_doubles(a, index as nat);
                if index as nat + 1 < top {
                    lemma_class_size_increases(a, index as nat + 1, top);
                }
                assert forall|j: nat| j < index + 1 implies #[trigger] class_size(
                    a.min_chunk_size,
                    j,
                ) < size by {
                    if j < index {
                    } else {
                        assert(j == index as nat);
                    }
                }
            }
            chunk_size = chunk_size * 2;
            index = index + 1;
        }
        proof {
            lemma_class_unique(a, size as int, index as nat, index as nat);
        }
        index
    }

    /// Fills the nodes up to size class `index`. Nodes that exist stay as
    /// they are and where they are; each missing one is made without backing
    /// blocks.
    pub fn grow(&mut self, index: u8)
        requires
            old(self)@.wf(),
            old(self)@.class_size(index as nat) <= 2 * old(self)@.max_chunk_size,
        ensures
            final(self)@ == old(self)@.grown(index as nat),
            final(self)@.wf(),
    {
        let ghost a = self@;
        let target: usize = index as usize;
        let mut i: usize = self.nodes.len();
        if i > target {
            assert(a.grown(index as nat).nodes =~= a.nodes);
            return ;
        }
        proof {
            lemma_top_class(a);
            if i < target {
                lemma_class_size_increases(a, i as nat, target as nat);
            }
            if i > 0 {
                assert(a.nodes[i - 1] == self.nodes@[i - 1]@);
                assert(a.nodes[i - 1].chunk_size == a.class_size((i - 1) as nat));
                lemma_class_size_doubles(a, (i - 1) as nat);
            } else {
                lemma2_to64();
            }
        }
        let mut chunk_size: u64 = if i == 0 {
            self.min_chunk_size
        } else {
            self.nodes[i - 1].chunk_size() * 2
        };
        while i <= target
            invariant
                a.wf(),
                a.min_chunk_size > 0,
                2 * a.max_chunk_size <= u64::MAX,
                target == index,
                a.class_size(target as nat) <= 2 * a.max_chunk_size,
                a.nodes.len() <= i <= target + 1,
                self.id == a.id,
                self.chunks_per_block == a.chunks_per_block,
                self.min_chunk_size == a.min_chunk_size,
                self.max_chunk_size == a.max_chunk_size,
                self.nodes@.len() == i,
                forall|j: int| 0 <= j < a.nodes.len() ==> (#[trigger] self.nodes@[j])@ == a.nodes[j],
                forall|j: int|
                    a.nodes.len() <= j < i ==> (#[trigger] self.nodes@[j])@ == a.fresh_node(
                        j as nat,
                    ) && self.nodes@[j]@.wf() && self.nodes@[j]@.chunk_size == a.class_size(
                        j as nat,
                    ) && a.class_size(j as nat) <= 2 * a.max_chunk_size,
                i <= target ==> chunk_size == a.class_size(i as nat),
            decreases target + 1 - i,
        {
            proof {
                if i < target {
                    lemma_class_size_increases(a, i as nat, target as nat);
                }
                lemma_class_size_power(a, i as nat);
                assert(chunk_size * a.chunks_per_block <= u64::MAX) by (nonlinear_arith)
                    requires
                        chunk_size <= 2 * a.max_chunk_size,
                        2 * a.max_chunk_size * a.chunks_per_block <= u64::MAX,
                        a.chunks_per_block >= 1,
                ;
            }
            let node = ChunkedNode::new(chunk_size, self.chunks_per_block, self.id);
            let ghost before = self.nodes@;
            self.nodes.push(node);
            proof {
                assert forall|j: int| a.nodes.len() <= j < i + 1 implies (#[trigger] self.nodes@[j])@
                    == a.fresh_node(j as nat) && self.nodes@[j]@.wf() && self.nodes@[j]@.chunk_size
                    == a.class_size(j as nat) && a.class_size(j as nat) <= 2 * a.max_chunk_size by {
                    if j < i {
                        assert(self.nodes@[j] == before[j]);
                    }
                }
            }
            i = i + 1;
            if i <= target {
                proof {
                    lemma_class_size_doubles(a, (i - 1) as nat);
                    if i < target {
                        lemma_class_size_increases(a, i as nat, target as nat);
                    }
                }
                chunk_size = chunk_size * 2;
            }
        }
        assert(self@.nodes =~= a.grown(index as nat).nodes);
    }

    /// Serves a request from the node of its size class, or says what the
    /// owner is to be asked for. A request larger than the largest chunk is
    /// refused before anything else happens. Otherwise the nodes are filled
    /// up to the class above the request's, and the request goes to the node
    /// of its class.
    pub fn allocate(&mut self, reqs: Requirements) -> (r: Result<AllocStep, MemoryError>)
        requires
            old(self)@.wf(),
            is_power_of_two(reqs.alignment),
            reqs.alignment <= old(self)@.max_chunk_size,
        ensures
            final(self)@.wf(),
            final(self)@.nodes.len() >= old(self)@.nodes.len(),
            reqs.size > old(self)@.max_chunk_size ==> r == Err::<AllocStep, MemoryError>(
                MemoryError::OutOfMemory,
            ) && final(self)@ == old(self)@,
            reqs.size <= old(self)@.max_chunk_size ==> {
                let i = old(self)@.class_for(reqs);
                let grown = old(self)@.grown(i + 1);
                let node = grown.nodes[i as int];
                &&& !reqs.admits(grown.id) ==> r == Err::<AllocStep, MemoryError>(
                    MemoryError::NoCompatibleMemoryType,
                ) && final(self)@ == grown
                &&& reqs.admits(grown.id) && node.free.len() == 0 ==> r is Ok && r->Ok_0 is Grow
                    && r->Ok_0->Grow_0 == node.grow_requirements() && final(self)@ == grown
                &&& reqs.admits(grown.id) && node.free.len() > 0 ==> r is Ok && r->Ok_0 is Chunk
                    && r->Ok_0->Chunk_0@ == node.chunk(node.free[0]) && final(self)@
                    == grown.with_node(i as int, node.after_alloc())
            },
            r is Ok && r->Ok_0 is Chunk ==> {
                let c = r->Ok_0->Chunk_0@;
                &&& !old(self)@.owns(c)
                &&& final(self)@.owns(c)
                &&& final(self)@.is_used()
                &&& c.end - c.start >= reqs.size
                &&& c.start as int % reqs.alignment as int == 0
            },
    {
        if reqs.size > self.max_chunk_size {
            return Err(MemoryError::OutOfMemory);
        }
        let ghost a = self@;
        proof {
            let e = choose|e: nat| reqs.alignment == #[trigger] pow2(e);
            lemma_pow2_pos(e);
        }
        let wanted: u64 = if reqs.size >= reqs.alignment {
            reqs.size
        } else {
            reqs.alignment
        };
        let index: u8 = self.pick_node(wanted);
        proof {
            lemma_class_size_doubles(a, index as nat);
        }
        self.grow(index + 1);
        let ghost grown = self@;
        assert(grown.nodes.len() == self.nodes@.len());
        assert(a.grown((index + 1) as nat).nodes.len() >= index + 2);
        assert(grown.nodes[index as int] == self.nodes@[index as int]@);
        assert(grown.nodes[index as int].chunk_size == a.class_size(index as nat));
        let r = self.nodes[index as usize].allocate(reqs);
        proof {
            let node = self.nodes@[index as int]@;
            assert(self@.nodes =~= grown.nodes.update(index as int, node));
            if node == grown.nodes[index as int] {
                assert(self@.nodes =~= grown.nodes);
            }
            assert(self@.nodes[index as int] == node);
            if r is Ok && r->Ok_0 is Chunk {
                let c = r->Ok_0->Chunk_0@;
                lemma_top_class(a);
                lemma_class_of_class_size(self@, index as nat);
                lemma_slot_range(node, node.slot_of(c));
                assert(c.end - c.start == self@.class_size(index as nat));
                assert(self@.class_of(c) == index as nat);
                assert(self@.nodes[index as int].is_used());
            }
        }
        r
    }

    /// Completes an allocation with the owner's answer to the request that
    /// `allocate` made for `reqs`. The owner's error is passed on and
    /// nothing changes. A block goes to the node of the request's size
    /// class, which hands out its first free chunk.
    pub fn allocate_with_block(
        &mut self,
        reqs: Requirements,
        supplied: Result<MemoryBlock, MemoryError>,
    ) -> (r: Result<TaggedBlock, MemoryError>)
        requires
            old(self)@.wf(),
            is_power_of_two(reqs.alignment),
            reqs.alignment <= old(self)@.max_chunk_size,
            reqs.size <= old(self)@.max_chunk_size,
            old(self)@.class_for(reqs) < old(self)@.nodes.len(),
            supplied is Ok ==> supplied->Ok_0.satisfies(
                old(self)@.nodes[old(self)@.class_for(reqs) as int].grow_requirements(),
            ),
        ensures
            final(self)@.wf(),
            final(self)@.nodes.len() == old(self)@.nodes.len(),
            supplied is Err ==> r == Err::<TaggedBlock, MemoryError>(supplied->Err_0) && final(self)@
                == old(self)@,
            supplied is Ok ==> {
                let i = old(self)@.class_for(reqs) as int;
                let grown = old(self)@.nodes[i].grown(supplied->Ok_0);
                &&& r is Ok
                &&& grown.free.len() > 0
                &&& r->Ok_0@ == grown.chunk(grown.free[0])
                &&& final(self)@ == old(self)@.with_node(i, grown.after_alloc())
                &&& !old(self)@.owns(r->Ok_0@)
                &&& final(self)@.owns(r->Ok_0@)
                &&& final(self)@.is_used()
                &&& r->Ok_0@.end - r->Ok_0@.start >= reqs.size
                &&& r->Ok_0@.start as int % reqs.alignment as int == 0
            },
    {
        let ghost a = self@;
        proof {
            let e = choose|e: nat| reqs.alignment == #[trigger] pow2(e);
            lemma_pow2_pos(e);
        }
        let wanted: u64 = if reqs.size >= reqs.alignment {
            reqs.size
        } else {
            reqs.alignment
        };
        let index: u8 = self.pick_node(wanted);
        assert(a.nodes.len() == self.nodes@.len());
        assert(a.nodes[index as int] == self.nodes@[index as int]@);
        let r = self.nodes[index as usize].allocate_with_block(reqs, supplied);
        proof {
            let node = self.nodes@[index as int]@;
            assert(self@.nodes =~= a.nodes.update(index as int, node));
            if node == a.nodes[index as int] {
                assert(self@.nodes =~= a.nodes);
            }
            if supplied is Ok {
                lemma_with_node_keeps_wf(a, index as int, node);
                let c = r->Ok_0@;
                lemma_top_class(a);
                lemma_class_of_class_size(self@, index as nat);
                lemma_slot_range(node, node.slot_of(c));
                assert(c.end - c.start == self@.class_size(index as nat));
                assert(self@.class_of(c) == index as nat);
                assert(self@.nodes[index as int].is_used());
            }
        }
        r
    }

    /// Takes back a chunk that this allocator handed out. The chunk's size
    /// tells its size class, and the node of that class takes the chunk.
    pub fn free(&mut self, block: TaggedBlock)
        requires
            old(self)@.wf(),
            old(self)@.owns(block@),
        ensures
            final(self)@ == old(self)@.with_node(
                old(self)@.class_of(block@) as int,
                old(self)@.nodes[old(self)@.class_of(block@) as int].after_free(block@),
            ),
            final(self)@.nodes.len() == old(self)@.nodes.len(),
            final(self)@.wf(),
    {
        let ghost a = self@;
        let index: u8 = self.pick_node(block.size());
        assert(a.nodes.len() == self.nodes@.len());
        assert(a.nodes[index as int] == self.nodes@[index as int]@);
        self.nodes[index as usize].free(block);
        proof {
            let node = self.nodes@[index as int]@;
            assert(self@.nodes =~= a.nodes.update(index as int, node));
            lemma_with_node_keeps_wf(a, index as int, node);
        }
    }

    /// The node of size class `index`, if there is one.
    pub fn node(&self, index: usize) -> (r: Option<&ChunkedNode>)
        ensures
            index >= self@.nodes.len() ==> r is None,
            index < self@.nodes.len() ==> r is Some && r->0@ == self@.nodes[index as int],
    {
        assert(self@.nodes.len() == self.nodes@.len());
        if index < self.nodes.len() {
            assert(self@.nodes[index as int] == self.nodes@[index as int]@);
            Some(&self.nodes[index])
        } else {
            None
        }
    }

    /// Tells whether `block` is a chunk that this allocator handed out and
    /// has not got back.
    pub fn holds(&self, block: &TaggedBlock) -> (r: bool)
        requires
            self@.wf(),
        ensures
            r == self@.owns(block@),
    {
        if block.end <= block.start || block.end - block.start > self.max_chunk_size {
            return false;
        }
        let index: usize = self.pick_node(block.end - block.start) as usize;
        assert(self@.nodes.len() == self.nodes@.len());
        if index >= self.nodes.len() {
            return false;
        }
        assert(self@.nodes[index as int] == self.nodes@[index as int]@);
        self.nodes[index].holds(block)
    }

    /// Tells whether a chunk of any node is handed out.
    pub fn is_used(&self) -> (r: bool)
        ensures
            r == self@.is_used(),
    {
        let mut i: usize = 0;
        while i < self.nodes.len()
            invariant
                0 <= i <= self.nodes@.len(),
                self@.nodes.len() == self.nodes@.len(),
                forall|j: int| 0 <= j < i ==> !(#[trigger] self@.nodes[j]).is_used(),
            decreases self.nodes@.len() - i,
        {
            assert(self@.nodes[i as int] == self.nodes@[i as int]@);
            if self.nodes[i].is_used() {
                return true;
            }
            i = i + 1;
        }
        false
    }

    /// Gives up the allocator. While a chunk is handed out the allocator
    /// comes back as it was. Otherwise the backing blocks of all nodes are
    /// returned, node by node and in index order within a node, for the
    /// owner to take back.
    pub fn dispose(self) -> (r: Result<Vec<MemoryBlock>, Self>)
        ensures
            self@.is_used() ==> r is Err && r->Err_0 == self && r->Err_0@ == self@,
            !self@.is_used() ==> r is Ok && r->Ok_0@ == self@.all_blocks(),
    {
        if self.is_used() {
            return Err(self);
        }
        let ghost a = self@;
        assert(a.nodes.len() == self.nodes@.len());
        let ghost all = self.nodes@;
        let mut nodes = self.nodes;
        let mut blocks: Vec<MemoryBlock> = Vec::new();
        let ghost mut done: int = 0;
        assert(a.nodes.subrange(0, 0) =~= Seq::empty());
        while nodes.len() > 0
            invariant
                a.nodes.len() == all.len(),
                forall|j: int| 0 <= j < all.len() ==> a.nodes[j] == (#[trigger] all[j])@,
                forall|j: int| 0 <= j < all.len() ==> !(#[trigger] a.nodes[j]).is_used(),
                0 <= done <= all.len(),
                nodes@ == all.subrange(done, all.len() as int),
                blocks@ == blocks_of(a.nodes.subrange(0, done)),
            decreases nodes@.len(),
        {
            let node = nodes.remove(0);
            proof {
                assert(node == all[done]);
                assert(!a.nodes[done].is_used());
                assert(nodes@ =~= all.subrange(done + 1, all.len() as int));
                let next = a.nodes.subrange(0, done + 1);
                assert(next.drop_last() =~= a.nodes.subrange(0, done));
                assert(next.last() == a.nodes[done]);
            }
            match node.dispose() {
                Ok(mut returned) => {
                    blocks.append(&mut returned);
                },
                Err(_) => {
                    proof {
                        assert(false);
                    }
                },
            }
            proof {
                done = done + 1;
            }
        }
        assert(a.nodes.subrange(0, done) =~= a.nodes);
        Ok(blocks)
    }
}

} // verus!
