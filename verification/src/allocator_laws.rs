//! What holds of an allocator's states, whatever the calls that led to them.
use vstd::prelude::*;
use vstd::arithmetic::power2::{pow2, lemma_pow2_adds, lemma_pow2_pos, lemma_pow2_unfold, lemma_pow2_strictly_increases, lemma2_to64};
use crate::memory::{MemoryBlock, is_power_of_two};
use crate::node::{NodeView, ChunkView};
use crate::allocator::{AllocatorView, class_size};

verus! {

/// The chunk size of a size class is a power of two.
pub proof fn lemma_class_size_power(a: AllocatorView, i: nat)
    requires
        a.valid_config(),
        a.class_size(i) <= u64::MAX,
    ensures
        is_power_of_two(a.class_size(i) as u64),
{
    let e = choose|e: nat| a.min_chunk_size == #[trigger] pow2(e);
    lemma_pow2_adds(e, i);
    assert(a.class_size(i) as u64 == pow2(e + i));
}

/// Each size class has chunks twice as large as the one before.
pub proof fn lemma_class_size_doubles(a: AllocatorView, i: nat)
    ensures
        a.class_size(i + 1) == 2 * a.class_size(i),
{
    lemma_pow2_unfold(i + 1);
    assert(a.min_chunk_size * (2 * pow2(i)) == 2 * (a.min_chunk_size * pow2(i)))
        by (nonlinear_arith);
}

/// Chunk sizes grow strictly with the size class.
pub proof fn lemma_class_size_increases(a: AllocatorView, i: nat, j: nat)
    requires
        a.min_chunk_size > 0,
        i < j,
    ensures
        a.class_size(i) < a.class_size(j),
{
    lemma_pow2_strictly_increases(i, j);
    assert(a.min_chunk_size * pow2(i) < a.min_chunk_size * pow2(j)) by (nonlinear_arith)
        requires
            a.min_chunk_size > 0,
            pow2(i) < pow2(j),
    ;
}

/// A size has at most one size class.
pub proof fn lemma_class_unique(a: AllocatorView, size: int, i: nat, j: nat)
    requires
        a.is_class(size, i),
        a.is_class(size, j),
    ensures
        i == j,
        a.size_class(size) == i,
{
    if i < j {
        assert(a.class_size(i) < size);
    }
    if j < i {
        assert(a.class_size(j) < size);
    }
    let c = a.size_class(size);
    if c < i {
        assert(a.class_size(c) < size);
    }
    if i < c {
        assert(a.class_size(i) < size);
    }
}

/// The chunk size of a size class belongs to that class.
pub proof fn lemma_class_of_class_size(a: AllocatorView, i: nat)
    requires
        a.min_chunk_size > 0,
    ensures
        a.is_class(a.class_size(i), i),
        a.size_class(a.class_size(i)) == i,
{
    assert forall|j: nat| j < i implies #[trigger] class_size(a.min_chunk_size, j) < a.class_size(
        i,
    ) by {
        lemma_class_size_increases(a, j, i);
    }
    lemma_class_unique(a, a.class_size(i), i, i);
}

/// The largest chunk size is the chunk size of a size class below 64.
pub proof fn lemma_top_class(a: AllocatorView) -> (k: nat)
    requires
        a.valid_config(),
    ensures
        a.class_size(k) == a.max_chunk_size,
        k < 64,
        a.min_chunk_size > 0,
        2 * a.max_chunk_size <= u64::MAX,
{
    assert(2 * a.max_chunk_size <= u64::MAX) by (nonlinear_arith)
        requires
            2 * a.max_chunk_size * a.chunks_per_block <= u64::MAX,
            a.chunks_per_block >= 1,
    ;
    let e = choose|e: nat| a.min_chunk_size == #[trigger] pow2(e);
    let f = choose|f: nat| a.max_chunk_size == #[trigger] pow2(f);
    lemma_pow2_pos(e);
    if f < e {
        lemma_pow2_strictly_increases(f, e);
    }
    let k = (f - e) as nat;
    lemma_pow2_adds(e, k);
    lemma2_to64();
    if f >= 64 {
        if f > 64 {
            lemma_pow2_strictly_increases(64, f);
        }
    }
    k
}

/// Replacing a node by a well-formed node of the same size class and
/// configuration keeps the allocator's invariant.
pub proof fn lemma_with_node_keeps_wf(a: AllocatorView, i: int, node: NodeView)
    requires
        a.wf(),
        0 <= i < a.nodes.len(),
        node.wf(),
        node.id == a.nodes[i].id,
        node.chunks_per_block == a.nodes[i].chunks_per_block,
        node.chunk_size == a.nodes[i].chunk_size,
    ensures
        a.with_node(i, node).wf(),
{
    let b = a.with_node(i, node);
    assert forall|j: int| 0 <= j < b.nodes.len() implies {
        let n = #[trigger] b.nodes[j];
        &&& n.wf()
        &&& n.id == b.id
        &&& n.chunks_per_block == b.chunks_per_block
        &&& n.chunk_size == b.class_size(j as nat)
        &&& n.chunk_size <= 2 * b.max_chunk_size
    } by {
        if j != i {
            assert(b.nodes[j] == a.nodes[j]);
        } else {
            assert(a.nodes[i].wf());
        }
    }
}

/// Filling the nodes up to a size class never removes
/// or changes a node, leaves at least that many nodes, and filling up to a
/// class that is already there changes nothing.
pub proof fn lemma_grow_keeps_nodes(a: AllocatorView, i: nat, j: nat)
    ensures
        a.grown(i).nodes.len() >= a.nodes.len(),
        a.grown(i).nodes.len() > i,
        forall|k: int| 0 <= k < a.nodes.len() ==> a.grown(i).nodes[k] == a.nodes[k],
        i < a.nodes.len() ==> a.grown(i) == a,
        j <= i ==> a.grown(i).grown(j) == a.grown(i),
{
    if i < a.nodes.len() {
        assert(a.grown(i).nodes =~= a.nodes);
    }
    if j <= i {
        assert(a.grown(i).grown(j).nodes =~= a.grown(i).nodes);
    }
}

/// Filling the nodes keeps the invariant and every chunk that is handed
/// out.
pub proof fn lemma_grow_keeps_owned(a: AllocatorView, i: nat, c: ChunkView)
    requires
        a.wf(),
        a.class_size(i) <= 2 * a.max_chunk_size,
    ensures
        a.grown(i).wf(),
        a.owns(c) ==> a.grown(i).owns(c),
        a.grown(i).is_used() == a.is_used(),
{
    let g = a.grown(i);
    lemma_top_class(a);
    assert forall|k: int| 0 <= k < g.nodes.len() implies {
        let node = #[trigger] g.nodes[k];
        &&& node.wf()
        &&& node.id == g.id
        &&& node.chunks_per_block == g.chunks_per_block
        &&& node.chunk_size == g.class_size(k as nat)
        &&& node.chunk_size <= 2 * g.max_chunk_size
    } by {
        if k < a.nodes.len() {
            assert(g.nodes[k] == a.nodes[k]);
        } else {
            if (k as nat) < i {
                lemma_class_size_increases(a, k as nat, i);
            }
            lemma_class_size_power(a, k as nat);
            let size = a.class_size(k as nat);
            assert(size * a.chunks_per_block <= u64::MAX) by (nonlinear_arith)
                requires
                    0 <= size <= 2 * a.max_chunk_size,
                    2 * a.max_chunk_size * a.chunks_per_block <= u64::MAX,
                    a.chunks_per_block >= 1,
            ;
        }
    }
    if a.is_used() {
        let k = choose|k: int| 0 <= k < a.nodes.len() && (#[trigger] a.nodes[k]).is_used();
        assert(g.nodes[k].is_used());
    }
    if g.is_used() {
        let k = choose|k: int| 0 <= k < g.nodes.len() && (#[trigger] g.nodes[k]).is_used();
        if k >= a.nodes.len() {
            let fresh = g.nodes[k];
            assert(fresh.blocks.len() * fresh.chunks_per_block == 0) by (nonlinear_arith)
                requires
                    fresh.blocks.len() == 0,
            ;
        }
        assert(a.nodes[k].is_used());
    }
}

/// Two different chunks that an allocator has handed out are of different
/// size classes, or were carved from different backing blocks, or share no
/// byte.
pub proof fn lemma_owned_chunks_apart(a: AllocatorView, c: ChunkView, d: ChunkView)
    requires
        a.wf(),
        a.owns(c),
        a.owns(d),
        c != d,
    ensures
        a.class_of(c) != a.class_of(d) || c.apart(d),
{
    if a.class_of(c) == a.class_of(d) {
        let node = a.nodes[a.class_of(c) as int];
        crate::node_laws::lemma_owned_chunks_apart(node, c, d);
    }
}

/// Where each backing block has a memory object of its
/// own, two different chunks that an allocator has handed out share no byte.
pub proof fn lemma_owned_chunks_disjoint(a: AllocatorView, c: ChunkView, d: ChunkView)
    requires
        a.wf(),
        a.blocks_in_separate_memory(),
        a.owns(c),
        a.owns(d),
        c != d,
    ensures
        c.disjoint(d),
{
    let i = a.class_of(c) as int;
    let j = a.class_of(d) as int;
    let k = c.block_index as int;
    let l = d.block_index as int;
    if i == j && k == l {
        crate::node_laws::lemma_owned_chunks_apart(a.nodes[i], c, d);
    } else {
        assert(a.nodes[i].blocks[k].memory != a.nodes[j].blocks[l].memory);
    }
}

/// A chunk that is handed out stays so while its node, or another, hands
/// out a chunk, takes a backing block, or takes back another chunk.
pub proof fn lemma_steps_keep_owned(
    a: AllocatorView,
    i: int,
    c: ChunkView,
    d: ChunkView,
    block: MemoryBlock,
)
    requires
        a.wf(),
        0 <= i < a.nodes.len(),
        a.nodes[i].blocks.len() < usize::MAX,
        a.owns(c),
    ensures
        a.nodes[i].free.len() > 0 ==> a.with_node(i, a.nodes[i].after_alloc()).owns(c),
        a.with_node(i, a.nodes[i].grown(block)).owns(c),
        a.nodes[i].owns(d) && d != c ==> a.with_node(i, a.nodes[i].after_free(d)).owns(c),
{
    if a.class_of(c) == i {
        crate::node_laws::lemma_steps_keep_owned(a.nodes[i], c, d, block);
    }
}

/// An allocator is used exactly while a chunk of one of
/// its nodes is outstanding, and so while it owns any chunk.
pub proof fn lemma_used_while_outstanding(a: AllocatorView, c: ChunkView)
    requires
        a.wf(),
    ensures
        a.is_used() <==> exists|i: int|
            0 <= i < a.nodes.len() && (#[trigger] a.nodes[i]).outstanding() > 0,
        a.owns(c) ==> a.is_used(),
{
    if a.is_used() {
        let i = choose|i: int| 0 <= i < a.nodes.len() && (#[trigger] a.nodes[i]).is_used();
        assert(a.nodes[i].outstanding() > 0);
    }
    if exists|i: int| 0 <= i < a.nodes.len() && (#[trigger] a.nodes[i]).outstanding() > 0 {
        let i = choose|i: int| 0 <= i < a.nodes.len() && (#[trigger] a.nodes[i]).outstanding() > 0;
        assert(a.nodes[i].is_used());
    }
    if a.owns(c) {
        let i = a.class_of(c) as int;
        crate::node_laws::lemma_owner_is_used(a.nodes[i], c);
        assert(a.nodes[i].is_used());
    }
}

/// After a chunk came back to the allocator, the node of
/// its size class hands out that chunk next, and is then as it was before
/// the chunk came back.
pub proof fn lemma_round_trip(a: AllocatorView, c: ChunkView)
    requires
        a.wf(),
        a.owns(c),
    ensures
        ({
            let i = a.class_of(c) as int;
            let node = a.nodes[i].after_free(c);
            &&& node.free.len() > 0
            &&& node.chunk(node.free[0]) == c
            &&& a.with_node(i, node).with_node(i, node.after_alloc()) == a
        }),
{
    let i = a.class_of(c) as int;
    let node = a.nodes[i].after_free(c);
    crate::node_laws::lemma_round_trip(a.nodes[i], c);
    assert(a.with_node(i, node).with_node(i, node.after_alloc()).nodes =~= a.nodes);
}

} // verus!
