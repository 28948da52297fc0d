//! What holds of a node's states, whatever the calls that led to them.
use vstd::prelude::*;
use vstd::arithmetic::power2::{pow2, lemma_pow2_adds, lemma_pow2_pos, lemma_pow2_strictly_increases};
use vstd::arithmetic::div_mod::{lemma_mod_multiples_basic, lemma_div_multiples_vanish, lemma_fundamental_div_mod_converse};
use vstd::set_lib::{set_int_range, lemma_int_range, lemma_len_subset};
use crate::memory::{MemoryBlock, is_power_of_two};
use crate::node::{NodeView, ChunkView};

verus! {

/// A multiple of a power of two is a multiple of every smaller power of two.
pub proof fn lemma_aligned_to_smaller_power(k: nat, size: u64, alignment: u64)
    requires
        is_power_of_two(size),
        is_power_of_two(alignment),
        alignment <= size,
    ensures
        alignment > 0,
        (k * size) % (alignment as int) == 0,
{
    let a = choose|e: nat| alignment == #[trigger] pow2(e);
    let b = choose|e: nat| size == #[trigger] pow2(e);
    lemma_pow2_pos(a);
    if b < a {
        lemma_pow2_strictly_increases(b, a);
    }
    let d = (b - a) as nat;
    lemma_pow2_adds(a, d);
    let q = k * pow2(d);
    assert(k * size == q * alignment) by (nonlinear_arith)
        requires
            size == alignment * pow2(d),
            q == k * pow2(d),
    ;
    lemma_mod_multiples_basic(q as int, alignment as int);
}

/// Distinct slots of `blocks` backing blocks with `per_block` chunks each
/// are at most `blocks * per_block` many.
pub proof fn lemma_distinct_slots_bounded(slots: Seq<(usize, u64)>, blocks: nat, per_block: nat)
    requires
        slots.no_duplicates(),
        forall|i: int|
            0 <= i < slots.len() ==> (#[trigger] slots[i]).0 < blocks && slots[i].1 < per_block,
    ensures
        slots.len() <= blocks * per_block,
{
    let n = (blocks * per_block) as int;
    let d = per_block as int;
    let numbers = Seq::new(slots.len(), |i: int| slots[i].0 * d + slots[i].1);
    assert forall|a: int, b: int|
        0 <= a < numbers.len() && 0 <= b < numbers.len() && a != b implies numbers[a]
        != numbers[b] by {
        if numbers[a] == numbers[b] {
            lemma_fundamental_div_mod_converse(numbers[a], d, slots[a].0 as int, slots[a].1 as int);
            lemma_fundamental_div_mod_converse(numbers[b], d, slots[b].0 as int, slots[b].1 as int);
            assert(slots[a] == slots[b]);
        }
    }
    numbers.unique_seq_to_set();
    assert(n >= 0) by (nonlinear_arith)
        requires
            n == blocks * per_block,
    ;
    lemma_int_range(0, n);
    assert forall|x: int| numbers.to_set().contains(x) implies set_int_range(0, n).contains(x) by {
        let i = choose|i: int| 0 <= i < numbers.len() && numbers[i] == x;
        let b = slots[i].0 as int;
        let c = slots[i].1 as int;
        assert(0 <= b * d + c < blocks * d) by (nonlinear_arith)
            requires
                0 <= b < blocks,
                0 <= c < d,
        ;
    }
    lemma_len_subset(numbers.to_set(), set_int_range(0, n));
}

/// While a chunk of a node is handed out, the node is used.
pub proof fn lemma_owner_is_used(node: NodeView, c: ChunkView)
    requires
        node.wf(),
        node.owns(c),
    ensures
        node.is_used(),
        node.outstanding() >= 1,
{
    let after = node.after_free(c);
    assert forall|i: int| 0 <= i < after.free.len() implies (#[trigger] after.free[i]).0
        < node.blocks.len() && after.free[i].1 < node.chunks_per_block by {
        if i > 0 {
            assert(after.free[i] == node.free[i - 1]);
            assert(node.valid_slot(node.free[i - 1]));
        }
    }
    assert forall|a: int, b: int|
        0 <= a < after.free.len() && 0 <= b < after.free.len() && a != b implies after.free[a]
        != after.free[b] by {
        if a > 0 {
            assert(node.free.contains(node.free[a - 1]));
        }
        if b > 0 {
            assert(node.free.contains(node.free[b - 1]));
        }
    }
    lemma_distinct_slots_bounded(after.free, node.blocks.len(), node.chunks_per_block as nat);
}

/// Taking back an owned chunk keeps the invariant.
pub proof fn lemma_push_keeps_wf(node: NodeView, c: ChunkView)
    requires
        node.wf(),
        node.owns(c),
    ensures
        node.after_free(c).wf(),
{
    lemma_owner_is_used(node, c);
    let after = node.after_free(c);
    let slot = node.slot_of(c);
    assert forall|i: int| 1 <= i < after.free.len() implies after.free[i] == node.free[i - 1] by {}
    assert forall|i: int| 0 <= i < after.free.len() implies after.valid_slot(
        #[trigger] after.free[i],
    ) by {
        if i > 0 {
            assert(node.valid_slot(node.free[i - 1]));
        }
    }
    assert forall|a: int, b: int|
        0 <= a < after.free.len() && 0 <= b < after.free.len() && a != b implies after.free[a]
        != after.free[b] by {
        if a > 0 {
            assert(node.free.contains(node.free[a - 1]));
        }
        if b > 0 {
            assert(node.free.contains(node.free[b - 1]));
        }
    }
}

/// The chunk at a valid slot lies within the first `chunks_per_block` chunk
/// sizes, starts at a multiple of the chunk size, and stands at that slot.
pub proof fn lemma_slot_range(node: NodeView, slot: (usize, u64))
    requires
        node.valid_config(),
        node.valid_slot(slot),
    ensures
        node.chunk_size > 0,
        slot.1 * node.chunk_size + node.chunk_size <= node.chunk_size * node.chunks_per_block,
        slot.1 * node.chunk_size + node.chunk_size <= u64::MAX,
        node.slot_of(node.chunk(slot)) == slot,
        (slot.1 * node.chunk_size) % (node.chunk_size as int) == 0,
        node.chunk(slot).end - node.chunk(slot).start == node.chunk_size,
{
    let e = choose|e: nat| node.chunk_size == #[trigger] pow2(e);
    lemma_pow2_pos(e);
    let cs = node.chunk_size as int;
    let k = slot.1 as int;
    let n = node.chunks_per_block as int;
    assert(k * cs + cs <= cs * n && k * cs >= 0) by (nonlinear_arith)
        requires
            0 <= k < n,
            cs > 0,
    ;
    lemma_div_multiples_vanish(k, cs);
    lemma_mod_multiples_basic(k, cs);
}

/// Handing out the first free slot keeps the invariant, leaves the node used,
/// and the chunk handed out is then owned.
pub proof fn lemma_pop_keeps_wf(node: NodeView)
    requires
        node.wf(),
        node.free.len() > 0,
    ensures
        node.after_alloc().wf(),
        node.after_alloc().is_used(),
        node.after_alloc().owns(node.chunk(node.free[0])),
{
    let after = node.after_alloc();
    assert(node.valid_slot(node.free[0]));
    lemma_slot_range(node, node.free[0]);
    assert forall|i: int| 0 <= i < after.free.len() implies after.free[i] == node.free[i + 1] by {}
    assert forall|i: int| 0 <= i < after.free.len() implies after.valid_slot(
        #[trigger] after.free[i],
    ) by {
        assert(node.valid_slot(node.free[i + 1]));
    }
    assert(after.slot_of(node.chunk(node.free[0])) == node.free[0]);
    if after.free.contains(node.free[0]) {
        let i = choose|i: int| 0 <= i < after.free.len() && after.free[i] == node.free[0];
        assert(node.free[i + 1] == node.free[0]);
    }
}

/// Appending a backing block keeps the invariant, whatever the block is, and
/// keeps every chunk that is handed out as it is.
pub proof fn lemma_grown_keeps_wf(node: NodeView, block: MemoryBlock)
    requires
        node.wf(),
        node.blocks.len() < usize::MAX,
    ensures
        node.grown(block).wf(),
        node.grown(block).outstanding() == node.outstanding(),
        forall|slot: (usize, u64)| node.holds_out(slot) ==> node.grown(block).holds_out(slot),
        forall|slot: (usize, u64)|
            node.valid_slot(slot) ==> node.grown(block).chunk(slot) == node.chunk(slot),
{
    let after = node.grown(block);
    let m = node.free.len() as int;
    assert forall|a: int, b: int|
        0 <= a < after.free.len() && 0 <= b < after.free.len() && a != b implies after.free[a]
        != after.free[b] by {
        if a < m {
            assert(node.valid_slot(node.free[a]));
        }
        if b < m {
            assert(node.valid_slot(node.free[b]));
        }
    }
    assert forall|a: int| 0 <= a < after.free.len() implies after.valid_slot(
        #[trigger] after.free[a],
    ) by {
        if a < m {
            assert(node.valid_slot(node.free[a]));
        }
    }
    assert(after.count() == node.count() + node.chunks_per_block) by (nonlinear_arith)
        requires
            after.blocks.len() == node.blocks.len() + 1,
            after.chunks_per_block == node.chunks_per_block,
    ;
    assert forall|slot: (usize, u64)| node.holds_out(slot) implies after.holds_out(slot) by {
        if after.free.contains(slot) {
            let a = choose|a: int| 0 <= a < after.free.len() && after.free[a] == slot;
            if a < m {
                assert(node.free.contains(node.free[a]));
            }
        }
    }
}

/// Chunks at different slots of a node were carved from different backing
/// blocks or share no byte.
pub proof fn lemma_slots_apart(node: NodeView, s: (usize, u64), t: (usize, u64))
    requires
        node.valid_config(),
        node.valid_slot(s),
        node.valid_slot(t),
        s != t,
    ensures
        node.chunk(s).apart(node.chunk(t)),
{
    lemma_slot_range(node, s);
    lemma_slot_range(node, t);
    let cs = node.chunk_size as int;
    let a = s.1 as int;
    let b = t.1 as int;
    if s.0 == t.0 {
        assert(a * cs + cs <= b * cs || b * cs + cs <= a * cs) by (nonlinear_arith)
            requires
                a != b,
                a >= 0,
                b >= 0,
                cs > 0,
        ;
    }
}

/// One allocation keeps the invariant, keeps every chunk that was handed out
/// before, and hands out a chunk that was not.
pub proof fn lemma_issue_step(node: NodeView, next: NodeView, c: ChunkView, slot: (usize, u64))
    requires
        node.wf(),
        node.blocks.len() < usize::MAX,
        node.issues(next, c),
        node.holds_out(slot),
    ensures
        next.wf(),
        next.holds_out(slot),
        next.holds_out(next.slot_of(c)),
        c == next.chunk(next.slot_of(c)),
        next.slot_of(c) != slot,
        next.chunk(slot) == node.chunk(slot),
        next.outstanding() == node.outstanding() + 1,
{
    let base = choose|base: NodeView|
        {
            &&& base == node || exists|block: MemoryBlock| base == #[trigger] node.grown(block)
            &&& base.free.len() > 0
            &&& next == #[trigger] base.after_alloc()
            &&& c == base.chunk(base.free[0])
        };
    if base != node {
        let block = choose|block: MemoryBlock| base == #[trigger] node.grown(block);
        lemma_grown_keeps_wf(node, block);
    }
    assert(base.holds_out(slot));
    assert(base.chunk(slot) == node.chunk(slot));
    lemma_pop_keeps_wf(base);
    assert(base.valid_slot(base.free[0]));
    lemma_slot_range(base, base.free[0]);
    assert(next.slot_of(c) == base.free[0]);
    assert(base.free.contains(base.free[0]));
    if next.free.contains(slot) {
        let i = choose|i: int| 0 <= i < next.free.len() && next.free[i] == slot;
        assert(base.free[i + 1] == slot);
        assert(base.free.contains(slot));
    }
}

/// Over any run of allocations on a node with no free in
/// between, any two of the chunks handed out were carved from different
/// backing blocks or share no byte. `states[k]` is the node before
/// allocation `k`, `chunks[k]` the chunk which that allocation hands out.
pub proof fn lemma_no_double_issuance(states: Seq<NodeView>, chunks: Seq<ChunkView>, i: int, j: int)
    requires
        states.len() == chunks.len() + 1,
        states[0].wf(),
        forall|k: int| 0 <= k < states.len() ==> (#[trigger] states[k]).blocks.len() < usize::MAX,
        forall|k: int|
            0 <= k < chunks.len() ==> (#[trigger] states[k]).issues(states[k + 1], chunks[k]),
        0 <= i < j < chunks.len(),
    ensures
        chunks[i].apart(chunks[j]),
{
    lemma_run_keeps_wf(states, chunks, i);
    let first = states[i + 1];
    assert(states[i].issues(first, chunks[i]));
    lemma_issue_first(states[i], first, chunks[i]);
    let slot = first.slot_of(chunks[i]);
    lemma_run_keeps_chunk(states, chunks, i + 1, j, slot);
    lemma_run_keeps_wf(states, chunks, j);
    assert(states[j].issues(states[j + 1], chunks[j]));
    lemma_issue_step(states[j], states[j + 1], chunks[j], slot);
    let last = states[j + 1];
    lemma_slots_apart(last, slot, last.slot_of(chunks[j]));
}

/// One allocation keeps the invariant and hands out a chunk of the node.
pub proof fn lemma_issue_first(node: NodeView, next: NodeView, c: ChunkView)
    requires
        node.wf(),
        node.blocks.len() < usize::MAX,
        node.issues(next, c),
    ensures
        next.wf(),
        next.holds_out(next.slot_of(c)),
        c == next.chunk(next.slot_of(c)),
        next.outstanding() == node.outstanding() + 1,
{
    let base = choose|base: NodeView|
        {
            &&& base == node || exists|block: MemoryBlock| base == #[trigger] node.grown(block)
            &&& base.free.len() > 0
            &&& next == #[trigger] base.after_alloc()
            &&& c == base.chunk(base.free[0])
        };
    if base != node {
        let block = choose|block: MemoryBlock| base == #[trigger] node.grown(block);
        lemma_grown_keeps_wf(node, block);
    }
    lemma_pop_keeps_wf(base);
    assert(base.valid_slot(base.free[0]));
    lemma_slot_range(base, base.free[0]);
}

/// The invariant holds before each allocation of a run.
pub proof fn lemma_run_keeps_wf(states: Seq<NodeView>, chunks: Seq<ChunkView>, k: int)
    requires
        states.len() == chunks.len() + 1,
        states[0].wf(),
        forall|k: int| 0 <= k < states.len() ==> (#[trigger] states[k]).blocks.len() < usize::MAX,
        forall|k: int|
            0 <= k < chunks.len() ==> (#[trigger] states[k]).issues(states[k + 1], chunks[k]),
        0 <= k < states.len(),
    ensures
        states[k].wf(),
    decreases k,
{
    if k > 0 {
        lemma_run_keeps_wf(states, chunks, k - 1);
        assert(states[k - 1].issues(states[k], chunks[k - 1]));
        lemma_issue_first(states[k - 1], states[k], chunks[k - 1]);
    }
}

/// A chunk that is handed out before allocation `from` of a run is still
/// handed out, and the same chunk, before allocation `to`.
pub proof fn lemma_run_keeps_chunk(
    states: Seq<NodeView>,
    chunks: Seq<ChunkView>,
    from: int,
    to: int,
    slot: (usize, u64),
)
    requires
        states.len() == chunks.len() + 1,
        states[0].wf(),
        forall|k: int| 0 <= k < states.len() ==> (#[trigger] states[k]).blocks.len() < usize::MAX,
        forall|k: int|
            0 <= k < chunks.len() ==> (#[trigger] states[k]).issues(states[k + 1], chunks[k]),
        0 <= from <= to < states.len(),
        states[from].holds_out(slot),
    ensures
        states[to].holds_out(slot),
        states[to].chunk(slot) == states[from].chunk(slot),
    decreases to - from,
{
    if from < to {
        lemma_run_keeps_chunk(states, chunks, from, to - 1, slot);
        lemma_run_keeps_wf(states, chunks, to - 1);
        assert(states[to - 1].issues(states[to], chunks[to - 1]));
        lemma_issue_step(states[to - 1], states[to], chunks[to - 1], slot);
    }
}

/// A chunk that comes back is the next to be handed out:
/// after the free, the first free slot is the chunk's, and handing it out
/// again gives the same chunk and the node as it was before the free.
pub proof fn lemma_round_trip(node: NodeView, c: ChunkView)
    requires
        node.wf(),
        node.owns(c),
    ensures
        node.after_free(c).free.len() > 0,
        node.after_free(c).chunk(node.after_free(c).free[0]) == c,
        node.after_free(c).after_alloc() == node,
{
    let after = node.after_free(c);
    assert(after.free[0] == node.slot_of(c));
    assert(after.after_alloc().free =~= node.free);
}

/// A node is used exactly while chunks are outstanding;
/// an allocation adds one outstanding chunk, a free takes one away, and a
/// new backing block changes nothing.
pub proof fn lemma_outstanding(node: NodeView, c: ChunkView, block: MemoryBlock)
    ensures
        node.is_used() <==> node.outstanding() > 0,
        node.free.len() > 0 ==> node.after_alloc().outstanding() == node.outstanding() + 1,
        node.after_free(c).outstanding() == node.outstanding() - 1,
        node.grown(block).outstanding() == node.outstanding(),
{
    let after = node.grown(block);
    assert(after.count() == node.count() + node.chunks_per_block) by (nonlinear_arith)
        requires
            after.blocks.len() == node.blocks.len() + 1,
            after.chunks_per_block == node.chunks_per_block,
    ;
}

/// Two different chunks that a node has handed out were carved from
/// different backing blocks or share no byte.
pub proof fn lemma_owned_chunks_apart(node: NodeView, c: ChunkView, d: ChunkView)
    requires
        node.wf(),
        node.owns(c),
        node.owns(d),
        c != d,
    ensures
        c.apart(d),
{
    lemma_slots_apart(node, node.slot_of(c), node.slot_of(d));
}

/// Where each backing block has a memory object of its own, two different
/// chunks that a node has handed out share no byte.
pub proof fn lemma_owned_chunks_disjoint(node: NodeView, c: ChunkView, d: ChunkView)
    requires
        node.wf(),
        node.blocks_in_separate_memory(),
        node.owns(c),
        node.owns(d),
        c != d,
    ensures
        c.disjoint(d),
{
    lemma_owned_chunks_apart(node, c, d);
    if c.block_index != d.block_index {
        let i = c.block_index as int;
        let j = d.block_index as int;
        if i < j {
            assert(node.blocks[i].memory != node.blocks[j].memory);
        } else {
            assert(node.blocks[j].memory != node.blocks[i].memory);
        }
    }
}

/// A chunk that is handed out stays so when another chunk is handed out,
/// when a backing block is appended, and when another chunk comes back.
pub proof fn lemma_steps_keep_owned(node: NodeView, c: ChunkView, d: ChunkView, block: MemoryBlock)
    requires
        node.wf(),
        node.blocks.len() < usize::MAX,
        node.owns(c),
    ensures
        node.free.len() > 0 ==> node.after_alloc().owns(c),
        node.grown(block).owns(c),
        node.owns(d) && d != c ==> node.after_free(d).owns(c),
{
    let slot = node.slot_of(c);
    if node.free.len() > 0 {
        let after = node.after_alloc();
        if after.free.contains(slot) {
            let i = choose|i: int| 0 <= i < after.free.len() && after.free[i] == slot;
            assert(node.free[i + 1] == slot);
            assert(node.free.contains(slot));
        }
    }
    lemma_grown_keeps_wf(node, block);
    assert(node.holds_out(slot));
    if node.owns(d) && d != c {
        let after = node.after_free(d);
        if after.free.contains(slot) {
            let i = choose|i: int| 0 <= i < after.free.len() && after.free[i] == slot;
            if i > 0 {
                assert(node.free[i - 1] == slot);
                assert(node.free.contains(slot));
            }
        }
    }
}

} // verus!
