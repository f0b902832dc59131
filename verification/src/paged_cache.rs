//! Paged key/value cache: block-granular storage for per-sequence attention
//! state.
//!
//! A fixed pool of equally sized blocks backs the logically contiguous
//! key/value storage of many concurrent sequences. Each active sequence owns
//! an ordered block table that grows block by block as it decodes; blocks
//! return to the free list when the sequence is released. Two invariants
//! carry the safety story: the pool is partitioned between the free list and
//! the block tables (so blocks in use never exceed the pool), and no block
//! ever appears in two tables or twice anywhere (so sequences never alias).

use vstd::prelude::*;

verus! {

/// Configuration of a [`PagedKvCache`], fixed at construction.
#[derive(Clone, Copy, Debug, PartialEq, Eq, Structural)]
pub struct PagedAttentionConfig {
    /// Number of blocks in the pool.
    pub num_blocks: usize,
    /// Key/value positions each block can hold.
    pub block_capacity: usize,
    /// Maximum number of concurrently active sequences.
    pub max_sequences: usize,
}

impl PagedAttentionConfig {
    /// Sizes the pool once at startup from a memory budget: the number of
    /// blocks is the budget divided by one block's bytes — its positions
    /// times the layer count times the per-entry byte width.
    pub fn for_budget(
        memory_budget_mb: usize,
        block_capacity: usize,
        layer_count: usize,
        entry_bytes: usize,
        max_sequences: usize,
    ) -> (r: PagedAttentionConfig)
        requires
            1 <= block_capacity,
            1 <= layer_count,
            1 <= entry_bytes,
            memory_budget_mb * 0x100000 <= usize::MAX,
            block_capacity * layer_count <= usize::MAX,
            block_capacity * layer_count * entry_bytes <= usize::MAX,
        ensures
            r.block_capacity == block_capacity,
            r.max_sequences == max_sequences,
            r.num_blocks == (memory_budget_mb * 0x100000) as int / (block_capacity * layer_count
                * entry_bytes) as int,
            r.num_blocks * r.block_capacity <= memory_budget_mb * 0x100000,
    {
        proof {
            assert((block_capacity as int) <= (block_capacity as int) * (layer_count as int) * (
            entry_bytes as int) && 1 <= (block_capacity as int) * (layer_count as int) * (
            entry_bytes as int)) by (nonlinear_arith)
                requires
                    1 <= block_capacity as int,
                    1 <= layer_count as int,
                    1 <= entry_bytes as int,
            {
            }
        }
        let bytes_per_block = block_capacity * layer_count * entry_bytes;
        let budget_bytes = memory_budget_mb * 0x100000;
        let num_blocks = budget_bytes / bytes_per_block;
        proof {
            let nb = num_blocks as int;
            let c = block_capacity as int;
            let cle = bytes_per_block as int;
            let bb = budget_bytes as int;
            vstd::arithmetic::div_mod::lemma_fundamental_div_mod(bb, cle);
            vstd::arithmetic::div_mod::lemma_mod_bound(bb, cle);
            vstd::arithmetic::div_mod::lemma_div_pos_is_pos(bb, cle);
            assert(nb * c <= bb) by (nonlinear_arith)
                requires
                    bb == cle * nb + bb % cle,
                    0 <= bb % cle,
                    0 <= nb,
                    1 <= c,
                    c <= cle,
            {
            }
        }
        PagedAttentionConfig { num_blocks, block_capacity, max_sequences }
    }
}

/// Errors of the paged cache.
#[derive(Clone, Copy, Debug, PartialEq, Eq, Structural)]
pub enum PagedCacheError {
    /// No room to register a new sequence.
    CapacityExceeded,
    /// Block allocation cannot be satisfied.
    OutOfMemory,
    /// Access outside a sequence's reserved range: a programming error.
    InvalidRange,
}

/// One sequence's block table.
struct SequenceTable {
    seq_id: u64,
    blocks: Vec<usize>,
    len_positions: usize,
}

/// Mathematical image of one block table: the blocks in write order and the
/// count of valid positions written so far.
pub struct TableModel {
    pub seq_id: u64,
    pub blocks: Seq<usize>,
    pub len_positions: usize,
}

/// Mathematical image of the whole paged cache. `data[b * cap + s]` is the
/// opaque key/value entry stored in slot `s` of block `b`.
pub struct PagedModel {
    pub config: PagedAttentionConfig,
    pub free: Seq<usize>,
    pub tables: Seq<TableModel>,
    pub data: Seq<Seq<u8>>,
}

pub open spec fn empty_table(seq_id: u64) -> TableModel {
    TableModel { seq_id, blocks: Seq::empty(), len_positions: 0 }
}

/// Blocks referenced by the tables, counted with multiplicity.
pub open spec fn total_blocks(ts: Seq<TableModel>) -> int
    decreases ts.len(),
{
    if ts.len() == 0 {
        0
    } else {
        ts.first().blocks.len() + total_blocks(ts.drop_first())
    }
}

pub open spec fn table_wf(t: TableModel, cfg: PagedAttentionConfig) -> bool {
    &&& forall|i: int| 0 <= i < t.blocks.len() ==> (#[trigger] t.blocks[i]) < cfg.num_blocks
    &&& forall|i: int, j: int| 0 <= i < j < t.blocks.len() ==> t.blocks[i] != t.blocks[j]
    &&& t.len_positions <= t.blocks.len() * cfg.block_capacity
}

/// Well-formedness of a paged cache model: every block index is in range,
/// the free list holds no block twice, block tables are pairwise disjoint
/// and disjoint from the free list, sequence ids are unique, and the pool is
/// exactly partitioned between the free list and the tables.
pub open spec fn inv(m: PagedModel) -> bool {
    &&& 1 <= m.config.block_capacity
    &&& m.config.num_blocks * m.config.block_capacity <= usize::MAX
    &&& m.data.len() == m.config.num_blocks * m.config.block_capacity
    &&& forall|i: int| 0 <= i < m.free.len() ==> (#[trigger] m.free[i]) < m.config.num_blocks
    &&& forall|i: int, j: int| 0 <= i < j < m.free.len() ==> m.free[i] != m.free[j]
    &&& m.tables.len() <= m.config.max_sequences
    &&& forall|t: int, u: int|
        0 <= t < u < m.tables.len() ==> (#[trigger] m.tables[t].seq_id) != (
        #[trigger] m.tables[u].seq_id)
    &&& forall|t: int| 0 <= t < m.tables.len() ==> table_wf(#[trigger] m.tables[t], m.config)
    &&& forall|t: int, i: int, f: int|
        0 <= t < m.tables.len() && 0 <= i < m.tables[t].blocks.len() && 0 <= f < m.free.len()
            ==> (#[trigger] m.tables[t].blocks[i]) != (#[trigger] m.free[f])
    &&& forall|t: int, u: int, i: int, j: int|
        0 <= t < m.tables.len() && 0 <= u < m.tables.len() && t != u && 0 <= i
            < m.tables[t].blocks.len() && 0 <= j < m.tables[u].blocks.len() ==> (
        #[trigger] m.tables[t].blocks[i]) != (#[trigger] m.tables[u].blocks[j])
    &&& m.free.len() + total_blocks(m.tables) == m.config.num_blocks
}

/// Blocks needed to hold `n` positions at `cap` positions per block
/// (the ceiling of `n / cap`).
pub open spec fn blocks_needed(n: int, cap: int) -> int {
    if n == 0 {
        0
    } else {
        (n - 1) / cap + 1
    }
}

/// `blocks_needed` blocks suffice for `n` positions, and none can be spared.
pub proof fn lemma_blocks_needed(n: int, cap: int)
    requires
        0 <= n,
        1 <= cap,
    ensures
        blocks_needed(n, cap) >= 0,
        blocks_needed(n, cap) * cap >= n,
        n > 0 ==> (blocks_needed(n, cap) - 1) * cap < n,
{
    if n > 0 {
        vstd::arithmetic::div_mod::lemma_fundamental_div_mod(n - 1, cap);
        vstd::arithmetic::div_mod::lemma_mod_bound(n - 1, cap);
        vstd::arithmetic::div_mod::lemma_div_pos_is_pos(n - 1, cap);
        let q = (n - 1) / cap;
        let r = (n - 1) % cap;
        assert((q + 1) * cap >= n && q * cap < n) by (nonlinear_arith)
            requires
                n - 1 == cap * q + r,
                0 <= r < cap,
                1 <= cap,
        {
        }
    }
}

pub open spec fn has_seq(m: PagedModel, seq_id: u64) -> bool {
    exists|t: int| 0 <= t < m.tables.len() && m.tables[t].seq_id == seq_id
}

/// The index of the table of `seq_id` (meaningful only under `has_seq` and
/// unique ids).
pub open spec fn seq_index(m: PagedModel, seq_id: u64) -> int {
    choose|t: int| 0 <= t < m.tables.len() && m.tables[t].seq_id == seq_id
}

/// The effect of [`PagedKvCache::release`]: the sequence's blocks go back to
/// the free list and its table disappears; an unknown sequence changes
/// nothing.
pub open spec fn spec_release(m: PagedModel, seq_id: u64) -> PagedModel {
    if has_seq(m, seq_id) {
        let t = seq_index(m, seq_id);
        PagedModel { free: m.free + m.tables[t].blocks, tables: m.tables.remove(t), ..m }
    } else {
        m
    }
}

/// Blocks currently referenced by active sequences.
pub open spec fn blocks_in_use(m: PagedModel) -> int {
    total_blocks(m.tables)
}

/// The flat storage index of logical position `p` of the sequence at table
/// index `t`: slot `p % cap` of block `p / cap` of its table.
pub open spec fn flat_index(m: PagedModel, t: int, p: int) -> int {
    let cap = m.config.block_capacity as int;
    m.tables[t].blocks[p / cap] * cap + p % cap
}

/// The key/value entry at logical position `p` of the sequence at table
/// index `t`.
pub open spec fn entry_at(m: PagedModel, t: int, p: int) -> Seq<u8> {
    m.data[flat_index(m, t, p)]
}

/// A read view of one contiguous run of key/value slots inside a single
/// block. A position range of a sequence maps to one or more such spans,
/// possibly non-contiguous in physical storage.
#[derive(Clone, Copy, Debug, PartialEq, Eq, Structural)]
pub struct BlockSpan {
    /// Block index into the pool.
    pub block: usize,
    /// First slot of the run within the block.
    pub start_slot: usize,
    /// Number of slots in the run.
    pub len: usize,
}

/// The spans covering logical positions `[start, start + len)` of a table
/// with the given blocks: one maximal run per block, in position order.
pub open spec fn spec_spans(blocks: Seq<usize>, cap: int, start: int, len: int) -> Seq<BlockSpan> {
    if len <= 0 || cap < 1 {
        Seq::empty()
    } else {
        let first_b = start / cap;
        let last_b = (start + len - 1) / cap;
        Seq::new(
            (last_b - first_b + 1) as nat,
            |j: int|
                BlockSpan {
                    block: blocks[first_b + j],
                    start_slot: if j == 0 {
                        (start % cap) as usize
                    } else {
                        0
                    },
                    len: ({
                        let lo = if j == 0 {
                            start
                        } else {
                            (first_b + j) * cap
                        };
                        let hi = if first_b + j == last_b {
                            start + len
                        } else {
                            (first_b + j + 1) * cap
                        };
                        (hi - lo) as usize
                    }),
                },
        )
    }
}

/// The (block, slot) pairs one span covers, in position order.
pub open spec fn span_slots(s: BlockSpan) -> Seq<(usize, int)> {
    Seq::new(s.len as nat, |o: int| (s.block, s.start_slot + o))
}

/// The (block, slot) pairs a span list covers, in order.
pub open spec fn spans_flat(spans: Seq<BlockSpan>) -> Seq<(usize, int)>
    decreases spans.len(),
{
    if spans.len() == 0 {
        Seq::empty()
    } else {
        span_slots(spans.first()) + spans_flat(spans.drop_first())
    }
}

/// A position within the block that `start` sits in divides to that block.
proof fn lemma_same_block(start: int, i: int, cap: int, first_b: int, off: int)
    requires
        start == cap * first_b + off,
        0 <= off,
        0 <= i,
        off + i < cap,
        1 <= cap,
    ensures
        (start + i) / cap == first_b,
        (start + i) % cap == off + i,
{
    vstd::arithmetic::div_mod::lemma_fundamental_div_mod(start + i, cap);
    vstd::arithmetic::div_mod::lemma_mod_bound(start + i, cap);
    assert((start + i) / cap == first_b && (start + i) % cap == off + i) by (nonlinear_arith)
        requires
            start == cap * first_b + off,
            0 <= off,
            0 <= i,
            off + i < cap,
            1 <= cap,
            (start + i) == cap * ((start + i) / cap) + ((start + i) % cap),
            0 <= (start + i) % cap < cap,
    {
    }
}

/// The spans of a position range cover exactly the range's positions, in
/// order: the `i`-th covered slot is the block and slot of position
/// `start + i`.
pub proof fn lemma_spans_cover(blocks: Seq<usize>, cap: int, start: int, len: int)
    requires
        1 <= cap <= usize::MAX,
        0 <= start,
        0 <= len,
    ensures
        spans_flat(spec_spans(blocks, cap, start, len)) =~= Seq::new(
            len as nat,
            |i: int| (blocks[(start + i) / cap], (start + i) % cap),
        ),
    decreases len,
{
    if len <= 0 {
        assert(spec_spans(blocks, cap, start, len) =~= Seq::<BlockSpan>::empty());
    } else {
        let spans = spec_spans(blocks, cap, start, len);
        let first_b = start / cap;
        let last_b = (start + len - 1) / cap;
        let off = start % cap;
        vstd::arithmetic::div_mod::lemma_fundamental_div_mod(start, cap);
        vstd::arithmetic::div_mod::lemma_mod_bound(start, cap);
        vstd::arithmetic::div_mod::lemma_fundamental_div_mod(start + len - 1, cap);
        vstd::arithmetic::div_mod::lemma_mod_bound(start + len - 1, cap);
        vstd::arithmetic::div_mod::lemma_div_pos_is_pos(start, cap);
        vstd::arithmetic::div_mod::lemma_div_is_ordered(start, start + len - 1, cap);
        let take = if first_b == last_b {
            len
        } else {
            cap - off
        };
        assert(cap * (first_b + 1) == cap * first_b + cap) by (nonlinear_arith);
        assert((first_b + 1) * cap == cap * first_b + cap) by (nonlinear_arith);
        assert(1 <= take <= len && take <= cap - off && (first_b != last_b ==> take < len)) by {
            if first_b != last_b {
                // the range ends past this block, so it fills it
                assert(start + len - 1 >= cap * (first_b + 1)) by (nonlinear_arith)
                    requires
                        start + len - 1 == cap * last_b + ((start + len - 1) % cap),
                        0 <= (start + len - 1) % cap,
                        first_b + 1 <= last_b,
                        1 <= cap,
                {
                }
                assert(start == cap * first_b + off);
            } else {
                assert(start + len - 1 == cap * first_b + ((start + len - 1) % cap));
                assert((start + len - 1) % cap < cap);
                assert(start == cap * first_b + off);
            }
        }
        let s0 = spans[0];
        assert(s0.block == blocks[first_b]);
        assert(s0.start_slot == off);
        assert(s0.len == take);
        // the first span covers the first `take` positions
        let head = Seq::new(take as nat, |i: int| (blocks[(start + i) / cap], (start + i) % cap));
        assert(span_slots(s0) =~= head) by {
            assert forall|i: int| 0 <= i < take implies (#[trigger] span_slots(s0)[i])
                == head[i] by {
                lemma_same_block(start, i, cap, first_b, off);
            }
        }
        // the remaining spans are the spans of the remaining range
        lemma_spans_cover(blocks, cap, start + take, len - take);
        assert(spans.drop_first() =~= spec_spans(blocks, cap, start + take, len - take)) by {
            if first_b == last_b {
                assert(spans.len() == 1);
                assert(spec_spans(blocks, cap, start + take, 0) =~= Seq::<BlockSpan>::empty());
            } else {
                assert(start + take == cap * (first_b + 1)) by {
                    assert(start == cap * first_b + off);
                }
                vstd::arithmetic::div_mod::lemma_fundamental_div_mod(start + take, cap);
                assert((start + take) / cap == first_b + 1 && (start + take) % cap == 0)
                    by (nonlinear_arith)
                    requires
                        start + take == cap * (first_b + 1),
                        (start + take) == cap * ((start + take) / cap) + ((start + take) % cap),
                        0 <= (start + take) % cap < cap,
                        1 <= cap,
                {
                }
                assert((start + take + (len - take) - 1) / cap == last_b);
                assert forall|j: int| 0 <= j < last_b - first_b implies spans.drop_first()[j]
                    == spec_spans(blocks, cap, start + take, len - take)[j] by {
                    let lhs = spans[j + 1];
                    let rhs = spec_spans(blocks, cap, start + take, len - take)[j];
                    assert(lhs.block == blocks[first_b + 1 + j] && rhs.block == blocks[
                        first_b + 1 + j
                    ]);
                    assert(lhs.start_slot == (if j + 1 == 0 {
                        off as usize
                    } else {
                        0usize
                    }));
                    assert(rhs.start_slot == (if j == 0 {
                        ((start + take) % cap) as usize
                    } else {
                        0usize
                    }));
                    let lhs_lo = if j + 1 == 0 {
                        start
                    } else {
                        (first_b + j + 1) * cap
                    };
                    let rhs_lo = if j == 0 {
                        start + take
                    } else {
                        (first_b + 1 + j) * cap
                    };
                    assert(lhs_lo == rhs_lo) by (nonlinear_arith)
                        requires
                            lhs_lo == (first_b + j + 1) * cap,
                            rhs_lo == (if j == 0 {
                                start + take
                            } else {
                                (first_b + 1 + j) * cap
                            }),
                            start + take == cap * (first_b + 1),
                            0 <= j,
                    {
                    }
                }
            }
        }
        // stitch the two parts together
        let whole = Seq::new(
            len as nat,
            |i: int| (blocks[(start + i) / cap], (start + i) % cap),
        );
        let tail = Seq::new(
            (len - take) as nat,
            |i: int| (blocks[(start + take + i) / cap], (start + take + i) % cap),
        );
        assert(whole =~= Seq::new(
            take as nat,
            |i: int| (blocks[(start + i) / cap], (start + i) % cap),
        ) + tail);
        assert(spans_flat(spans) == span_slots(s0) + spans_flat(spans.drop_first()));
    }
}

/// Distinct (block, slot) pairs have distinct flat storage indices.
proof fn lemma_flat_injective(b1: int, s1: int, b2: int, s2: int, cap: int)
    requires
        1 <= cap,
        0 <= s1 < cap,
        0 <= s2 < cap,
        0 <= b1,
        0 <= b2,
        b1 != b2 || s1 != s2,
    ensures
        b1 * cap + s1 != b2 * cap + s2,
{
    assert(b1 * cap + s1 != b2 * cap + s2) by (nonlinear_arith)
        requires
            1 <= cap,
            0 <= s1 < cap,
            0 <= s2 < cap,
            0 <= b1,
            0 <= b2,
            b1 != b2 || s1 != s2,
    {
    }
}

/// A block index below the pool size keeps every one of its slots inside the
/// flat storage.
proof fn lemma_flat_in_range(b: int, s: int, nb: int, cap: int)
    requires
        1 <= cap,
        0 <= s < cap,
        0 <= b < nb,
    ensures
        0 <= b * cap + s < nb * cap,
{
    assert(0 <= b * cap + s < nb * cap) by (nonlinear_arith)
        requires
            1 <= cap,
            0 <= s < cap,
            0 <= b < nb,
    {
    }
}

/// Positions of one table have well-formed, in-range flat indices, and
/// distinct positions map to distinct indices.
proof fn lemma_position_facts(m: PagedModel, t: int, p: int)
    requires
        inv(m),
        0 <= t < m.tables.len(),
        0 <= p < m.tables[t].blocks.len() * m.config.block_capacity,
    ensures
        0 <= p / (m.config.block_capacity as int) < m.tables[t].blocks.len(),
        0 <= p % (m.config.block_capacity as int) < m.config.block_capacity,
        0 <= flat_index(m, t, p) < m.data.len(),
{
    let cap = m.config.block_capacity as int;
    let nb = m.tables[t].blocks.len() as int;
    vstd::arithmetic::div_mod::lemma_mod_bound(p, cap);
    vstd::arithmetic::div_mod::lemma_div_pos_is_pos(p, cap);
    vstd::arithmetic::mul::lemma_mul_is_commutative(nb, cap);
    vstd::arithmetic::div_mod::lemma_multiply_divide_lt(p, cap, nb);
    let b = m.tables[t].blocks[p / cap] as int;
    assert(b < m.config.num_blocks);
    lemma_flat_in_range(b, p % cap, m.config.num_blocks as int, cap);
}

/// Distinct positions, of one table or of two different tables, never share
/// a flat storage index: the aliasing-freedom at the heart of the paged
/// design.
proof fn lemma_positions_disjoint(m: PagedModel, t1: int, p1: int, t2: int, p2: int)
    requires
        inv(m),
        0 <= t1 < m.tables.len(),
        0 <= t2 < m.tables.len(),
        0 <= p1 < m.tables[t1].blocks.len() * m.config.block_capacity,
        0 <= p2 < m.tables[t2].blocks.len() * m.config.block_capacity,
        t1 != t2 || p1 != p2,
    ensures
        flat_index(m, t1, p1) != flat_index(m, t2, p2),
{
    let cap = m.config.block_capacity as int;
    lemma_position_facts(m, t1, p1);
    lemma_position_facts(m, t2, p2);
    let b1 = m.tables[t1].blocks[p1 / cap] as int;
    let b2 = m.tables[t2].blocks[p2 / cap] as int;
    if t1 != t2 {
        // blocks of different tables are disjoint
        assert(b1 != b2);
        lemma_flat_injective(b1, p1 % cap, b2, p2 % cap, cap);
    } else {
        if p1 / cap != p2 / cap {
            // a table references each of its blocks once
            assert(b1 != b2);
            lemma_flat_injective(b1, p1 % cap, b2, p2 % cap, cap);
        } else {
            vstd::arithmetic::div_mod::lemma_fundamental_div_mod(p1, cap);
            vstd::arithmetic::div_mod::lemma_fundamental_div_mod(p2, cap);
            assert(p1 % cap != p2 % cap);
            lemma_flat_injective(b1, p1 % cap, b2, p2 % cap, cap);
        }
    }
}

proof fn lemma_total_blocks_nonneg(ts: Seq<TableModel>)
    ensures
        total_blocks(ts) >= 0,
    decreases ts.len(),
{
    if ts.len() > 0 {
        lemma_total_blocks_nonneg(ts.drop_first());
    }
}

proof fn lemma_total_blocks_push(ts: Seq<TableModel>, t: TableModel)
    ensures
        total_blocks(ts.push(t)) == total_blocks(ts) + t.blocks.len(),
    decreases ts.len(),
{
    if ts.len() == 0 {
        assert(ts.push(t).first() == t);
        assert(ts.push(t).drop_first() =~= Seq::<TableModel>::empty());
        assert(total_blocks(ts) == 0);
        assert(total_blocks(ts.push(t).drop_first()) == 0);
        assert(total_blocks(ts.push(t)) == t.blocks.len());
    } else {
        lemma_total_blocks_push(ts.drop_first(), t);
        assert(ts.push(t).first() == ts.first());
        assert(ts.push(t).drop_first() =~= ts.drop_first().push(t));
        assert(total_blocks(ts.push(t)) == ts.first().blocks.len() + total_blocks(
            ts.drop_first().push(t),
        ));
        assert(total_blocks(ts) == ts.first().blocks.len() + total_blocks(ts.drop_first()));
    }
}

proof fn lemma_total_blocks_remove(ts: Seq<TableModel>, i: int)
    requires
        0 <= i < ts.len(),
    ensures
        total_blocks(ts.remove(i)) == total_blocks(ts) - ts[i].blocks.len(),
    decreases ts.len(),
{
    if i == 0 {
        assert(ts.remove(0) =~= ts.drop_first());
    } else {
        lemma_total_blocks_remove(ts.drop_first(), i - 1);
        assert(ts.remove(i).first() == ts.first());
        assert(ts.remove(i).drop_first() =~= ts.drop_first().remove(i - 1));
    }
}

proof fn lemma_total_blocks_update(ts: Seq<TableModel>, i: int, t: TableModel)
    requires
        0 <= i < ts.len(),
    ensures
        total_blocks(ts.update(i, t)) == total_blocks(ts) - ts[i].blocks.len() + t.blocks.len(),
    decreases ts.len(),
{
    if i == 0 {
        assert(ts.update(0, t).first() == t);
        assert(ts.update(0, t).drop_first() =~= ts.drop_first());
    } else {
        lemma_total_blocks_update(ts.drop_first(), i - 1, t);
        assert(ts.update(i, t).first() == ts.first());
        assert(ts.update(i, t).drop_first() =~= ts.drop_first().update(i - 1, t));
    }
}

/// One table never references more blocks than all tables together.
proof fn lemma_table_le_total(ts: Seq<TableModel>, i: int)
    requires
        0 <= i < ts.len(),
    ensures
        ts[i].blocks.len() <= total_blocks(ts),
    decreases ts.len(),
{
    if i == 0 {
        lemma_total_blocks_nonneg(ts.drop_first());
    } else {
        lemma_table_le_total(ts.drop_first(), i - 1);
        assert(ts.drop_first()[i - 1] == ts[i]);
    }
}

/// Within a unique-id table list, the index found by a scan is the index
/// `seq_index` denotes.
proof fn lemma_seq_index_unique(m: PagedModel, seq_id: u64, t: int)
    requires
        inv(m),
        0 <= t < m.tables.len(),
        m.tables[t].seq_id == seq_id,
    ensures
        seq_index(m, seq_id) == t,
        has_seq(m, seq_id),
{
    assert(has_seq(m, seq_id));
    let u = seq_index(m, seq_id);
    assert(0 <= u < m.tables.len() && m.tables[u].seq_id == seq_id);
    if t < u {
        assert(m.tables[t].seq_id != m.tables[u].seq_id);
    } else if u < t {
        assert(m.tables[u].seq_id != m.tables[t].seq_id);
    }
}

/// Memory bound: under the invariant, blocks in use never exceed the pool.
pub proof fn lemma_memory_bound(m: PagedModel)
    requires
        inv(m),
    ensures
        0 <= blocks_in_use(m) <= m.config.num_blocks,
{
    lemma_total_blocks_nonneg(m.tables);
}

/// No cross-sequence aliasing: two distinct active sequences never share a
/// block index in their block tables.
pub proof fn lemma_no_cross_sequence_aliasing(m: PagedModel, t: int, u: int, i: int, j: int)
    requires
        inv(m),
        0 <= t < m.tables.len(),
        0 <= u < m.tables.len(),
        t != u,
        0 <= i < m.tables[t].blocks.len(),
        0 <= j < m.tables[u].blocks.len(),
    ensures
        m.tables[t].blocks[i] != m.tables[u].blocks[j],
{
}

/// No double free: under the invariant, a block appears in the free list at
/// most once.
pub proof fn lemma_no_double_free(m: PagedModel, i: int, j: int)
    requires
        inv(m),
        0 <= i < j < m.free.len(),
    ensures
        m.free[i] != m.free[j],
{
}

/// Idempotent release: releasing a sequence a second time is a no-op.
pub proof fn lemma_release_idempotent(m: PagedModel, seq_id: u64)
    requires
        inv(m),
    ensures
        spec_release(spec_release(m, seq_id), seq_id) == spec_release(m, seq_id),
{
    if has_seq(m, seq_id) {
        let t = seq_index(m, seq_id);
        assert(0 <= t < m.tables.len() && m.tables[t].seq_id == seq_id);
        let m1 = spec_release(m, seq_id);
        assert(!has_seq(m1, seq_id)) by {
            assert(forall|u: int|
                0 <= u < m1.tables.len() ==> (#[trigger] m1.tables[u]) == (if u < t {
                    m.tables[u]
                } else {
                    m.tables[u + 1]
                }));
        }
    }
}

spec fn table_model(t: SequenceTable) -> TableModel {
    TableModel { seq_id: t.seq_id, blocks: t.blocks@, len_positions: t.len_positions }
}

/// Maps each active sequence to an ordered list of fixed-size blocks drawn
/// from a bounded pool, and stores each sequence's key/value entries in the
/// slots of its blocks.
pub struct PagedKvCache {
    config: PagedAttentionConfig,
    /// Free block indices; allocation pops from the back.
    free: Vec<usize>,
    /// One table per active sequence.
    tables: Vec<SequenceTable>,
    /// `data[b * block_capacity + s]`: the opaque key/value entry in slot
    /// `s` of block `b`.
    data: Vec<Vec<u8>>,
}

impl View for PagedKvCache {
    type V = PagedModel;

    closed spec fn view(&self) -> PagedModel {
        PagedModel {
            config: self.config,
            free: self.free@,
            tables: self.tables@.map(|i: int, t: SequenceTable| table_model(t)),
            data: self.data@.map(|i: int, e: Vec<u8>| e@),
        }
    }
}

impl PagedKvCache {
    pub open spec fn wf(&self) -> bool {
        inv(self@)
    }

    /// An empty cache over a pool of `config.num_blocks` blocks, all free.
    /// The pool's total positions must be addressable on this machine.
    pub fn new(config: PagedAttentionConfig) -> (r: PagedKvCache)
        requires
            1 <= config.block_capacity,
            config.num_blocks * config.block_capacity <= usize::MAX,
        ensures
            r.wf(),
            r@.config == config,
            r@.tables == Seq::<TableModel>::empty(),
            r@.free.len() == config.num_blocks,
            forall|i: int| 0 <= i < config.num_blocks ==> r@.free[i] == i,
    {
        let mut free: Vec<usize> = Vec::new();
        let mut b: usize = 0;
        while b < config.num_blocks
            invariant
                b <= config.num_blocks,
                free@.len() == b,
                forall|i: int| 0 <= i < b ==> free@[i] == i,
            decreases config.num_blocks - b,
        {
            free.push(b);
            b += 1;
        }
        let total: usize = config.num_blocks * config.block_capacity;
        let mut data: Vec<Vec<u8>> = Vec::new();
        let mut w: usize = 0;
        while w < total
            invariant
                w <= total,
                data@.len() == w,
            decreases total - w,
        {
            data.push(Vec::new());
            w += 1;
        }
        let r = PagedKvCache { config, free, tables: Vec::new(), data };
        proof {
            assert(r@.tables =~= Seq::<TableModel>::empty());
        }
        r
    }

    /// Whether `seq_id` is currently registered.
    pub fn has_sequence(&self, seq_id: u64) -> (r: bool)
        requires
            self.wf(),
        ensures
            r == has_seq(self@, seq_id),
    {
        let n = self.tables.len();
        let mut t: usize = 0;
        while t < n
            invariant
                self.wf(),
                n == self.tables.len(),
                t <= n,
                forall|u: int| 0 <= u < t ==> self@.tables[u].seq_id != seq_id,
            decreases n - t,
        {
            proof {
                assert(self@.tables[t as int] == table_model(self.tables@[t as int]));
            }
            if self.tables[t].seq_id == seq_id {
                proof {
                    assert(has_seq(self@, seq_id));
                }
                return true;
            }
            t += 1;
        }
        proof {
            assert(!has_seq(self@, seq_id));
        }
        false
    }

    /// Registers a new sequence with an empty block table. Fails with
    /// `CapacityExceeded` exactly when the configured maximum number of
    /// concurrent sequences is already active.
    pub fn allocate(&mut self, seq_id: u64) -> (r: Result<(), PagedCacheError>)
        requires
            old(self).wf(),
            !has_seq(old(self)@, seq_id),
        ensures
            final(self).wf(),
            match r {
                Ok(()) => {
                    &&& old(self)@.tables.len() < old(self)@.config.max_sequences
                    &&& final(self)@ == (PagedModel {
                        tables: old(self)@.tables.push(empty_table(seq_id)),
                        ..old(self)@
                    })
                },
                Err(e) => {
                    &&& e == PagedCacheError::CapacityExceeded
                    &&& old(self)@.tables.len() == old(self)@.config.max_sequences
                    &&& final(self)@ == old(self)@
                },
            },
    {
        if self.tables.len() == self.config.max_sequences {
            return Err(PagedCacheError::CapacityExceeded);
        }
        let ghost m = self@;
        self.tables.push(SequenceTable { seq_id, blocks: Vec::new(), len_positions: 0 });
        proof {
            assert(self@.tables =~= m.tables.push(empty_table(seq_id)));
            lemma_total_blocks_push(m.tables, empty_table(seq_id));
            let mm = self@;
            assert(forall|u: int| 0 <= u < m.tables.len() ==> mm.tables[u] == m.tables[u]);
            assert(inv(mm));
        }
        Ok(())
    }

    /// The position of the table of a registered sequence.
    fn find_seq(&self, seq_id: u64) -> (r: usize)
        requires
            self.wf(),
            has_seq(self@, seq_id),
        ensures
            r as int == seq_index(self@, seq_id),
            r < self.tables@.len(),
            self@.tables[r as int].seq_id == seq_id,
    {
        let n = self.tables.len();
        let mut t: usize = 0;
        while t < n
            invariant
                self.wf(),
                has_seq(self@, seq_id),
                n == self.tables.len(),
                t <= n,
                forall|u: int| 0 <= u < t ==> self@.tables[u].seq_id != seq_id,
            decreases n - t,
        {
            proof {
                assert(self@.tables[t as int] == table_model(self.tables@[t as int]));
            }
            if self.tables[t].seq_id == seq_id {
                proof {
                    lemma_seq_index_unique(self@, seq_id, t as int);
                }
                return t;
            }
            t += 1;
        }
        proof {
            assert(false);
        }
        0
    }

    /// Grows the sequence's block table from the free list until it can hold
    /// `num_positions` positions. Fails with `OutOfMemory` exactly when the
    /// free list cannot cover the missing blocks, leaving everything
    /// unchanged so the caller can defer and retry later.
    pub fn ensure_capacity(&mut self, seq_id: u64, num_positions: usize) -> (r: Result<
        (),
        PagedCacheError,
    >)
        requires
            old(self).wf(),
            has_seq(old(self)@, seq_id),
        ensures
            final(self).wf(),
            ({
                let m = old(self)@;
                let t = seq_index(m, seq_id);
                let cap = m.config.block_capacity as int;
                let need = blocks_needed(num_positions as int, cap);
                let deficit = if need > m.tables[t].blocks.len() {
                    need - m.tables[t].blocks.len()
                } else {
                    0
                };
                match r {
                    Ok(()) => {
                        &&& deficit <= m.free.len()
                        &&& final(self)@.config == m.config
                        &&& final(self)@.data == m.data
                        &&& final(self)@.free == m.free.take(m.free.len() - deficit)
                        &&& final(self)@.tables.len() == m.tables.len()
                        &&& (forall|u: int|
                            0 <= u < m.tables.len() && u != t ==> final(self)@.tables[u]
                                == m.tables[u])
                        &&& final(self)@.tables[t].seq_id == seq_id
                        &&& final(self)@.tables[t].len_positions == m.tables[t].len_positions
                        &&& final(self)@.tables[t].blocks.len() == m.tables[t].blocks.len()
                            + deficit
                        &&& (forall|i: int|
                            0 <= i < m.tables[t].blocks.len() ==> final(self)@.tables[t].blocks[i]
                                == m.tables[t].blocks[i])
                        &&& (forall|i: int|
                            0 <= i < deficit ==> #[trigger] final(self)@.tables[t].blocks[m.tables[
                                t
                            ].blocks.len() + i] == m.free[m.free.len() - 1 - i])
                        &&& num_positions <= final(self)@.tables[t].blocks.len() * cap
                    },
                    Err(e) => {
                        &&& e == PagedCacheError::OutOfMemory
                        &&& deficit > m.free.len()
                        &&& final(self)@ == m
                    },
                }
            }),
    {
        let ghost m = self@;
        let ti = self.find_seq(seq_id);
        let cap = self.config.block_capacity;
        let have = self.tables[ti].blocks.len();
        proof {
            lemma_blocks_needed(num_positions as int, cap as int);
            lemma_table_le_total(m.tables, ti as int);
            lemma_total_blocks_nonneg(m.tables);
            if num_positions > 0 {
                vstd::arithmetic::div_mod::lemma_div_nonincreasing(
                    num_positions - 1,
                    cap as int,
                );
                vstd::arithmetic::div_mod::lemma_div_pos_is_pos(
                    num_positions - 1,
                    cap as int,
                );
            }
        }
        let needed: usize = if num_positions == 0 {
            0
        } else {
            (num_positions - 1) / cap + 1
        };
        if needed <= have {
            proof {
                vstd::arithmetic::mul::lemma_mul_inequality(needed as int, have as int, cap as int);
                assert(self@.free =~= m.free.take(m.free.len() as int));
            }
            return Ok(());
        }
        let deficit = needed - have;
        if deficit > self.free.len() {
            return Err(PagedCacheError::OutOfMemory);
        }

        let mut k: usize = 0;
        while k < deficit
            invariant
                inv(self@),
                self@.config == m.config,
                self@.data == m.data,
                k <= deficit,
                deficit <= m.free.len(),
                ti < self.tables@.len(),
                self@.free =~= m.free.take(m.free.len() - k),
                self@.tables.len() == m.tables.len(),
                forall|u: int|
                    0 <= u < m.tables.len() && u != ti ==> self@.tables[u] == m.tables[u],
                self@.tables[ti as int].seq_id == seq_id,
                self@.tables[ti as int].len_positions == m.tables[ti as int].len_positions,
                self@.tables[ti as int].blocks.len() == m.tables[ti as int].blocks.len() + k,
                forall|i: int|
                    0 <= i < m.tables[ti as int].blocks.len() ==> self@.tables[ti as int].blocks[i]
                        == m.tables[ti as int].blocks[i],
                forall|i: int|
                    0 <= i < k ==> #[trigger] self@.tables[ti as int].blocks[m.tables[
                        ti as int
                    ].blocks.len() + i] == m.free[m.free.len() - 1 - i],
            decreases deficit - k,
        {
            let ghost mp = self@;
            let b = match self.free.pop() {
                Some(b) => b,
                None => {
                    proof {
                        assert(false);
                    }
                    0
                },
            };
            self.tables[ti].blocks.push(b);
            k += 1;
            proof {
                let mm = self@;
                let ghost tprev = mp.tables[ti as int];
                let ghost tnew = TableModel { blocks: tprev.blocks.push(b), ..tprev };
                assert(mm.tables[ti as int] == table_model(self.tables@[ti as int]));
                assert(mm.tables =~= mp.tables.update(ti as int, tnew));
                assert(mm.free =~= mp.free.drop_last());
                assert(mm.free =~= m.free.take(m.free.len() - k));
                lemma_total_blocks_update(mp.tables, ti as int, tnew);
                // the popped block is in range and belongs to nothing else
                assert(b == mp.free.last());
                assert(b < m.config.num_blocks);
                assert(table_wf(tnew, m.config)) by {
                    assert(forall|i: int|
                        0 <= i < tprev.blocks.len() ==> tnew.blocks[i] == tprev.blocks[i]);
                    assert(tnew.blocks[tprev.blocks.len() as int] == b);
                    assert(tnew.len_positions <= tnew.blocks.len() * m.config.block_capacity)
                        by (nonlinear_arith)
                        requires
                            tnew.len_positions == tprev.len_positions,
                            tprev.len_positions <= tprev.blocks.len()
                                * m.config.block_capacity,
                            tnew.blocks.len() == tprev.blocks.len() + 1,
                            m.config.block_capacity >= 1,
                    {
                    }
                }
                assert(inv(mm)) by {
                    assert(forall|u: int|
                        0 <= u < mm.tables.len() && u != ti ==> mm.tables[u] == mp.tables[u]);
                    assert(forall|i: int|
                        0 <= i < mm.free.len() ==> mm.free[i] == mp.free[i]);
                    assert(forall|i: int|
                        0 <= i < tnew.blocks.len() ==> tnew.blocks[i] == (if i
                            < tprev.blocks.len() {
                            tprev.blocks[i]
                        } else {
                            b
                        }));
                }
            }
        }
        proof {
            let t = ti as int;
            let needi = blocks_needed(num_positions as int, cap as int);
            assert(self@.tables[t].blocks.len() == needi);
            vstd::arithmetic::mul::lemma_mul_inequality(
                needi,
                self@.tables[t].blocks.len() as int,
                cap as int,
            );
        }
        Ok(())
    }

    /// Writes one key/value entry per position, starting at logical position
    /// `start` of the sequence. Fails with `InvalidRange` exactly when the
    /// range reaches beyond the capacity the block table reserves, leaving
    /// everything unchanged: callers reserve with
    /// [`Self::ensure_capacity`] first.
    pub fn write(&mut self, seq_id: u64, start: usize, entries: Vec<Vec<u8>>) -> (r: Result<
        (),
        PagedCacheError,
    >)
        requires
            old(self).wf(),
            has_seq(old(self)@, seq_id),
        ensures
            final(self).wf(),
            ({
                let m = old(self)@;
                let t = seq_index(m, seq_id);
                let cap = m.config.block_capacity as int;
                let len = entries@.len() as int;
                let reserved = m.tables[t].blocks.len() * cap;
                match r {
                    Ok(()) => {
                        &&& start + len <= reserved
                        &&& final(self)@.config == m.config
                        &&& final(self)@.free == m.free
                        &&& final(self)@.tables.len() == m.tables.len()
                        &&& (forall|u: int|
                            0 <= u < m.tables.len() && u != t ==> final(self)@.tables[u]
                                == m.tables[u])
                        &&& final(self)@.tables[t].seq_id == m.tables[t].seq_id
                        &&& final(self)@.tables[t].blocks == m.tables[t].blocks
                        &&& final(self)@.tables[t].len_positions as int == (if start + len
                            > m.tables[t].len_positions as int {
                            start + len
                        } else {
                            m.tables[t].len_positions as int
                        })
                        &&& (forall|p: int|
                            start <= p < start + len ==> #[trigger] entry_at(final(self)@, t, p)
                                == entries@[p - start]@)
                        &&& (forall|p: int|
                            0 <= p < reserved && !(start <= p < start + len)
                                ==> #[trigger] entry_at(final(self)@, t, p) == entry_at(m, t, p))
                        &&& (forall|u: int, p: int|
                            0 <= u < m.tables.len() && u != t && 0 <= p < m.tables[u].blocks.len()
                                * cap ==> #[trigger] entry_at(final(self)@, u, p)
                                == entry_at(m, u, p))
                    },
                    Err(e) => {
                        &&& e == PagedCacheError::InvalidRange
                        &&& start + len > reserved
                        &&& final(self)@ == m
                    },
                }
            }),
    {
        let ghost m = self@;
        let ti = self.find_seq(seq_id);
        let ghost t = ti as int;
        let cap = self.config.block_capacity;
        let nblocks = self.tables[ti].blocks.len();
        proof {
            lemma_table_le_total(m.tables, t);
            lemma_total_blocks_nonneg(m.tables);
            vstd::arithmetic::mul::lemma_mul_inequality(
                nblocks as int,
                m.config.num_blocks as int,
                cap as int,
            );
        }
        let reserved = nblocks * cap;
        if start > reserved || entries.len() > reserved - start {
            return Err(PagedCacheError::InvalidRange);
        }
        let len = entries.len();
        let mut es = entries;
        let mut k = len;
        while k > 0
            invariant
                inv(self@),
                m == old(self)@,
                inv(m),
                t == seq_index(m, seq_id),
                self@.config == m.config,
                self@.free == m.free,
                self@.tables == m.tables,
                t == ti as int,
                0 <= t < m.tables.len(),
                ti < self.tables@.len(),
                cap == m.config.block_capacity,
                nblocks == m.tables[t].blocks.len(),
                reserved == nblocks * cap,
                reserved <= usize::MAX,
                k <= len,
                len == entries@.len(),
                start + len <= reserved,
                es@ == entries@.take(k as int),
                forall|p: int|
                    start + k <= p < start + len ==> #[trigger] entry_at(self@, t, p)
                        == entries@[p - start]@,
                forall|w: int|
                    0 <= w < m.data.len() && (forall|p: int|
                        start + k <= p < start + len ==> flat_index(m, t, p) != w)
                        ==> #[trigger] self@.data[w] == m.data[w],
            decreases k,
        {
            k -= 1;
            let e = match es.pop() {
                Some(e) => e,
                None => {
                    proof {
                        assert(false);
                    }
                    Vec::new()
                },
            };
            let pos = start + k;
            proof {
                lemma_position_facts(self@, t, pos as int);
                assert(self@.tables[t] == table_model(self.tables@[t]));
            }
            let bidx = pos / cap;
            let slot = pos % cap;
            let b = self.tables[ti].blocks[bidx];
            let w = b * cap + slot;
            proof {
                lemma_flat_in_range(b as int, slot as int, m.config.num_blocks as int, cap as int);
                vstd::arithmetic::mul::lemma_mul_inequality(
                    b as int + 1,
                    m.config.num_blocks as int,
                    cap as int,
                );
                assert((b as int + 1) * cap == b as int * cap + cap) by (nonlinear_arith);
                assert(w as int == flat_index(m, t, pos as int));
            }
            let ghost mp = self@;
            self.data[w] = e;
            proof {
                let mm = self@;
                assert(mm.data =~= mp.data.update(w as int, e@));
                assert(e@ == entries@[k as int]@);
                assert(flat_index(mm, t, pos as int) == w as int);
                assert(entry_at(mm, t, pos as int) == e@);
                assert forall|p: int|
                    start + k <= p < start + len implies #[trigger] entry_at(mm, t, p)
                    == entries@[p - start]@ by {
                    if p == pos as int {
                        assert(entry_at(mm, t, p) == e@);
                        assert(entries@[p - start] == entries@[k as int]);
                    } else {
                        lemma_position_facts(m, t, p);
                        lemma_positions_disjoint(m, t, p, t, pos as int);
                        assert(flat_index(mm, t, p) == flat_index(m, t, p));
                        assert(flat_index(m, t, p) != w as int);
                        assert(entry_at(mp, t, p) == entries@[p - start]@);
                        assert(entry_at(mm, t, p) == mp.data[flat_index(m, t, p)]);
                    }
                }
                assert forall|w2: int|
                    0 <= w2 < m.data.len() && (forall|p: int|
                        start + k <= p < start + len ==> flat_index(m, t, p) != w2)
                    implies #[trigger] mm.data[w2] == m.data[w2] by {
                    assert(flat_index(m, t, pos as int) != w2);
                    assert(mp.data[w2] == m.data[w2]);
                }
                assert(es@ =~= entries@.take(k as int));
            }
        }
        // Record the new high-water mark of valid positions.
        let ghost mloop = self@;
        if start + len > self.tables[ti].len_positions {
            self.tables[ti].len_positions = start + len;
        }
        proof {
            let mm = self@;
            let tnew = mm.tables[t];
            assert(mm.tables =~= mloop.tables.update(t, tnew));
            assert(tnew.blocks == m.tables[t].blocks && tnew.seq_id == m.tables[t].seq_id);
            lemma_total_blocks_update(mloop.tables, t, tnew);
            assert(inv(mm)) by {
                assert(forall|u: int|
                    0 <= u < mm.tables.len() && u != t ==> mm.tables[u] == mloop.tables[u]);
                assert(table_wf(tnew, m.config));
            }
            // the contracted contents, restated of the final state
            assert forall|p: int|
                start <= p < start + len implies #[trigger] entry_at(mm, t, p)
                == entries@[p - start]@ by {
                assert(flat_index(mm, t, p) == flat_index(mloop, t, p));
                assert(entry_at(mloop, t, p) == entries@[p - start]@);
            }
            assert forall|p: int|
                0 <= p < nblocks * cap && !(start <= p < start + len) implies #[trigger] entry_at(
                mm,
                t,
                p,
            ) == entry_at(m, t, p) by {
                lemma_position_facts(m, t, p);
                assert forall|p2: int|
                    start <= p2 < start + len implies flat_index(m, t, p2) != flat_index(
                    m,
                    t,
                    p,
                ) by {
                    lemma_positions_disjoint(m, t, p2, t, p);
                }
                assert(mloop.data[flat_index(m, t, p)] == m.data[flat_index(m, t, p)]);
                assert(flat_index(mm, t, p) == flat_index(m, t, p));
            }
            assert forall|u: int, p: int|
                0 <= u < m.tables.len() && u != t && 0 <= p < m.tables[u].blocks.len()
                    * (cap as int) implies #[trigger] entry_at(mm, u, p) == entry_at(m, u, p) by {
                lemma_position_facts(m, u, p);
                assert forall|p2: int|
                    start <= p2 < start + len implies flat_index(m, t, p2) != flat_index(
                    m,
                    u,
                    p,
                ) by {
                    lemma_positions_disjoint(m, t, p2, u, p);
                }
                assert(mloop.data[flat_index(m, u, p)] == m.data[flat_index(m, u, p)]);
                assert(mm.tables[u] == m.tables[u]);
                assert(flat_index(mm, u, p) == flat_index(m, u, p));
            }
        }
        Ok(())
    }

    /// A read view of logical positions `[start, start + len)` of the
    /// sequence: the covering block spans, in position order. May span
    /// several, physically non-contiguous blocks; consume it together with
    /// [`Self::read_entry`] or per block. Fails with `InvalidRange` exactly
    /// when the range reaches beyond the reserved capacity.
    pub fn read(&self, seq_id: u64, start: usize, len: usize) -> (r: Result<
        Vec<BlockSpan>,
        PagedCacheError,
    >)
        requires
            self.wf(),
            has_seq(self@, seq_id),
        ensures
            ({
                let m = self@;
                let t = seq_index(m, seq_id);
                let cap = m.config.block_capacity as int;
                let reserved = m.tables[t].blocks.len() * cap;
                match r {
                    Ok(spans) => {
                        &&& start + len <= reserved
                        &&& spans@ == spec_spans(m.tables[t].blocks, cap, start as int, len as int)
                    },
                    Err(e) => {
                        &&& e == PagedCacheError::InvalidRange
                        &&& start + len > reserved
                    },
                }
            }),
    {
        let ghost m = self@;
        let ti = self.find_seq(seq_id);
        let ghost t = ti as int;
        let cap = self.config.block_capacity;
        let nblocks = self.tables[ti].blocks.len();
        proof {
            lemma_table_le_total(m.tables, t);
            lemma_total_blocks_nonneg(m.tables);
            vstd::arithmetic::mul::lemma_mul_inequality(
                nblocks as int,
                m.config.num_blocks as int,
                cap as int,
            );
        }
        let reserved = nblocks * cap;
        if start > reserved || len > reserved - start {
            return Err(PagedCacheError::InvalidRange);
        }
        let mut spans: Vec<BlockSpan> = Vec::new();
        if len == 0 {
            proof {
                assert(spans@ =~= spec_spans(m.tables[t].blocks, cap as int, start as int, 0));
            }
            return Ok(spans);
        }
        proof {
            vstd::arithmetic::div_mod::lemma_div_pos_is_pos(start as int, cap as int);
            vstd::arithmetic::div_mod::lemma_div_pos_is_pos((start + len - 1) as int, cap as int);
            vstd::arithmetic::div_mod::lemma_div_is_ordered(
                start as int,
                (start + len - 1) as int,
                cap as int,
            );
            vstd::arithmetic::mul::lemma_mul_is_commutative(cap as int, nblocks as int);
            vstd::arithmetic::div_mod::lemma_multiply_divide_lt(
                (start + len - 1) as int,
                cap as int,
                nblocks as int,
            );
        }
        let first_b = start / cap;
        let last_b = (start + len - 1) / cap;
        let count = last_b - first_b + 1;
        let ghost target = spec_spans(m.tables[t].blocks, cap as int, start as int, len as int);
        let mut j: usize = 0;
        while j < count
            invariant
                self.wf(),
                m == self@,
                inv(m),
                t == seq_index(m, seq_id),
                t == ti as int,
                0 <= t < m.tables.len(),
                ti < self.tables@.len(),
                cap == m.config.block_capacity,
                1 <= cap,
                nblocks == m.tables[t].blocks.len(),
                reserved == nblocks * cap,
                reserved <= usize::MAX,
                1 <= len,
                start + len <= reserved,
                first_b == start as int / cap as int,
                last_b == (start + len - 1) as int / cap as int,
                first_b <= last_b < nblocks,
                count == last_b - first_b + 1,
                j <= count,
                target == spec_spans(m.tables[t].blocks, cap as int, start as int, len as int),
                target.len() == count,
                spans@ =~= target.take(j as int),
            decreases count - j,
        {
            let b_index = first_b + j;
            proof {
                assert(self@.tables[t] == table_model(self.tables@[t]));
                vstd::arithmetic::mul::lemma_mul_inequality(
                    b_index as int + 1,
                    nblocks as int,
                    cap as int,
                );
                vstd::arithmetic::mul::lemma_mul_inequality(b_index as int, nblocks as int, cap as int);
                // start sits inside its first block; later blocks begin at
                // multiples of the capacity below the end of the range
                vstd::arithmetic::div_mod::lemma_fundamental_div_mod(start as int, cap as int);
                vstd::arithmetic::div_mod::lemma_mod_bound(start as int, cap as int);
                vstd::arithmetic::div_mod::lemma_fundamental_div_mod(
                    (start + len - 1) as int,
                    cap as int,
                );
                vstd::arithmetic::div_mod::lemma_mod_bound((start + len - 1) as int, cap as int);
                assert((first_b as int) * (cap as int) <= start as int);
                assert((last_b as int) * (cap as int) <= (start + len - 1) as int);
                assert((start as int) < (first_b as int + 1) * (cap as int)) by (nonlinear_arith)
                    requires
                        start as int == (cap as int) * (first_b as int) + (start as int % (
                        cap as int)),
                        (start as int % (cap as int)) < cap as int,
                {
                }
                assert(((start + len - 1) as int) < (last_b as int + 1) * (cap as int))
                    by (nonlinear_arith)
                    requires
                        (start + len - 1) as int == (cap as int) * (last_b as int) + ((start + len
                            - 1) as int % (cap as int)),
                        ((start + len - 1) as int % (cap as int)) < cap as int,
                {
                }
                assert((last_b as int) * (cap as int) >= (first_b as int) * (cap as int))
                    by (nonlinear_arith)
                    requires
                        first_b <= last_b,
                        1 <= cap,
                {
                }
                if j > 0 {
                    assert((b_index as int) * (cap as int) <= (last_b as int) * (cap as int))
                        by (nonlinear_arith)
                        requires
                            b_index <= last_b,
                            1 <= cap,
                    {
                    }
                    assert((first_b as int + 1) * (cap as int) <= (b_index as int) * (cap as int))
                        by (nonlinear_arith)
                        requires
                            first_b as int + 1 <= b_index as int,
                            1 <= cap,
                    {
                    }
                }
                assert((b_index as int + 1) * (cap as int) == (b_index as int) * (cap as int)
                    + cap as int) by (nonlinear_arith);
            }
            let lo = if j == 0 {
                start
            } else {
                b_index * cap
            };
            let hi = if b_index == last_b {
                start + len
            } else {
                (b_index + 1) * cap
            };
            let block = self.tables[ti].blocks[b_index];
            let span = BlockSpan {
                block,
                start_slot: if j == 0 {
                    start % cap
                } else {
                    0
                },
                len: hi - lo,
            };
            spans.push(span);
            j += 1;
            proof {
                assert(span == target[j as int - 1]);
                assert(spans@ =~= target.take(j as int));
            }
        }
        proof {
            assert(spans@ =~= target);
        }
        Ok(spans)
    }

    /// The key/value entry at one logical position of the sequence. Fails
    /// with `InvalidRange` exactly when the position reaches beyond the
    /// reserved capacity.
    pub fn read_entry(&self, seq_id: u64, pos: usize) -> (r: Result<&Vec<u8>, PagedCacheError>)
        requires
            self.wf(),
            has_seq(self@, seq_id),
        ensures
            ({
                let m = self@;
                let t = seq_index(m, seq_id);
                let reserved = m.tables[t].blocks.len() * m.config.block_capacity;
                match r {
                    Ok(e) => pos < reserved && e@ == entry_at(m, t, pos as int),
                    Err(e) => e == PagedCacheError::InvalidRange && pos >= reserved,
                }
            }),
    {
        let ghost m = self@;
        let ti = self.find_seq(seq_id);
        let ghost t = ti as int;
        let cap = self.config.block_capacity;
        let nblocks = self.tables[ti].blocks.len();
        proof {
            lemma_table_le_total(m.tables, t);
            lemma_total_blocks_nonneg(m.tables);
            vstd::arithmetic::mul::lemma_mul_inequality(
                nblocks as int,
                m.config.num_blocks as int,
                cap as int,
            );
        }
        let reserved = nblocks * cap;
        if pos >= reserved {
            return Err(PagedCacheError::InvalidRange);
        }
        proof {
            lemma_position_facts(m, t, pos as int);
            assert(self@.tables[t] == table_model(self.tables@[t]));
        }
        let bidx = pos / cap;
        let slot = pos % cap;
        let b = self.tables[ti].blocks[bidx];
        proof {
            lemma_flat_in_range(b as int, slot as int, m.config.num_blocks as int, cap as int);
        }
        let w = b * cap + slot;
        Ok(&self.data[w])
    }

    /// Blocks still free in the pool.
    pub fn free_block_count(&self) -> (r: usize)
        ensures
            r == self@.free.len(),
    {
        self.free.len()
    }

    /// Blocks referenced by active sequences.
    pub fn used_block_count(&self) -> (r: usize)
        requires
            self.wf(),
        ensures
            r as int == blocks_in_use(self@),
    {
        proof {
            lemma_total_blocks_nonneg(self@.tables);
        }
        self.config.num_blocks - self.free.len()
    }

    /// Currently active sequences.
    pub fn sequence_count(&self) -> (r: usize)
        ensures
            r == self@.tables.len(),
    {
        self.tables.len()
    }

    pub fn config(&self) -> (r: &PagedAttentionConfig)
        ensures
            *r == self@.config,
    {
        &self.config
    }

    /// Returns every block of the sequence's table to the free list and
    /// forgets the sequence. Idempotent: releasing an unknown or already
    /// released sequence changes nothing.
    pub fn release(&mut self, seq_id: u64)
        requires
            old(self).wf(),
        ensures
            final(self).wf(),
            final(self)@ == spec_release(old(self)@, seq_id),
            !has_seq(final(self)@, seq_id),
    {
        let n = self.tables.len();
        let mut t: usize = 0;
        while t < n
            invariant
                self.wf(),
                *self == *old(self),
                n == self.tables.len(),
                t <= n,
                forall|u: int| 0 <= u < t ==> self@.tables[u].seq_id != seq_id,
            decreases n - t,
        {
            proof {
                assert(self@.tables[t as int] == table_model(self.tables@[t as int]));
            }
            if self.tables[t].seq_id == seq_id {
                proof {
                    lemma_seq_index_unique(self@, seq_id, t as int);
                    lemma_total_blocks_remove(self@.tables, t as int);
                    lemma_total_blocks_nonneg(self@.tables.remove(t as int));
                }
                let ghost m = self@;
                let mut table = self.tables.remove(t);
                self.free.append(&mut table.blocks);
                proof {
                    let mm = self@;
                    assert(mm.tables =~= m.tables.remove(t as int));
                    assert(mm.free =~= m.free + m.tables[t as int].blocks);
                    assert(mm == spec_release(m, seq_id));
                    // Re-establish the invariant for the extended free list
                    // and the shortened table list.
                    let tb = m.tables[t as int].blocks;
                    assert(forall|i: int|
                        0 <= i < mm.free.len() ==> (#[trigger] mm.free[i]) == (if i < m.free.len() {
                            m.free[i]
                        } else {
                            tb[i - m.free.len()]
                        }));
                    assert(forall|u: int|
                        0 <= u < mm.tables.len() ==> (#[trigger] mm.tables[u]) == (if u < t as int {
                            m.tables[u]
                        } else {
                            m.tables[u + 1]
                        }));
                    assert(inv(mm));
                    assert(!has_seq(mm, seq_id));
                }
                return ;
            }
            t += 1;
        }
        proof {
            assert(!has_seq(self@, seq_id));
        }
    }
}

} // verus!
