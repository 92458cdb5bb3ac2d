use vstd::prelude::*;

verus! {

/// Threads of a block that reduces a row.
pub const ROW_THREADS: u32 = 256;

/// Threads of a block that attends.
pub const ATTN_THREADS: u32 = 128;

/// Threads of a block that works element by element.
pub const ELEM_THREADS: u32 = 1024;

/// How a kernel is launched.
#[derive(Debug, Clone, Copy, PartialEq, Eq)]
pub struct LaunchDims {
    pub grid_dim: (u32, u32, u32),
    pub block_dim: (u32, u32, u32),
    pub shared_mem_bytes: u32,
}

/// A launch of blocks and threads in one dimension.
pub open spec fn line(blocks: int, threads: u32, shared: u32) -> LaunchDims {
    LaunchDims {
        grid_dim: (blocks as u32, 1, 1),
        block_dim: (threads, 1, 1),
        shared_mem_bytes: shared,
    }
}

/// Blocks of `per` threads that are needed for `n` threads.
pub open spec fn blocks_for(n: int, per: int) -> int {
    (n + per - 1) / per
}

/// `LaunchConfig::for_num_elems`: one thread for each of `n` elements, in
/// blocks of 1024 threads, without shared memory.
#[verifier::external_body]
fn for_num_elems(n: u32) -> (r: LaunchDims)
    requires
        n + ELEM_THREADS - 1 <= u32::MAX,
    ensures
        r == line(blocks_for(n as int, ELEM_THREADS as int), ELEM_THREADS, 0),
{
    let launch = cudarc::driver::LaunchConfig::for_num_elems(n);
    LaunchDims {
        grid_dim: launch.grid_dim,
        block_dim: launch.block_dim,
        shared_mem_bytes: launch.shared_mem_bytes,
    }
}

/// The launch of a kernel with one thread per element.
pub fn elementwise(n: usize) -> (r: LaunchDims)
    requires
        n + ELEM_THREADS - 1 <= u32::MAX,
    ensures
        r == line(blocks_for(n as int, ELEM_THREADS as int), ELEM_THREADS, 0),
{
    for_num_elems(n as u32)
}

/// The launch of the normalisation of rows: a block per row, with a partial
/// sum of four bytes per thread.
pub fn rms_norm(rows: usize) -> (r: LaunchDims)
    requires
        rows <= u32::MAX,
    ensures
        r == line(rows as int, ROW_THREADS, 1024),
{
    LaunchDims {
        grid_dim: (rows as u32, 1, 1),
        block_dim: (ROW_THREADS, 1, 1),
        shared_mem_bytes: ROW_THREADS * 4,
    }
}

/// The launch of the softmax of rows: a block per row, with two partial values
/// of four bytes per thread.
pub fn softmax(rows: usize) -> (r: LaunchDims)
    requires
        rows <= u32::MAX,
    ensures
        r == line(rows as int, ROW_THREADS, 2048),
{
    LaunchDims {
        grid_dim: (rows as u32, 1, 1),
        block_dim: (ROW_THREADS, 1, 1),
        shared_mem_bytes: ROW_THREADS * 4 * 2,
    }
}

/// Pairs of elements that a rotation turns: those of Q or of K, whichever are
/// more.
pub open spec fn rope_pairs(batch: int, q_heads: int, kv_heads: int, half_dim: int) -> int {
    if batch * q_heads * half_dim >= batch * kv_heads * half_dim {
        batch * q_heads * half_dim
    } else {
        batch * kv_heads * half_dim
    }
}

/// The launch of a rotation: a thread per pair of elements.
pub fn rope(batch: usize, q_heads: usize, kv_heads: usize, half_dim: usize) -> (r: LaunchDims)
    requires
        batch * q_heads <= usize::MAX,
        batch * kv_heads <= usize::MAX,
        batch * q_heads * half_dim <= usize::MAX,
        batch * kv_heads * half_dim <= usize::MAX,
        rope_pairs(batch as int, q_heads as int, kv_heads as int, half_dim as int) + ELEM_THREADS
            - 1 <= u32::MAX,
    ensures
        r == line(
            blocks_for(
                rope_pairs(batch as int, q_heads as int, kv_heads as int, half_dim as int),
                ELEM_THREADS as int,
            ),
            ELEM_THREADS,
            0,
        ),
{
    let total_q: usize = batch * q_heads * half_dim;
    let total_k: usize = batch * kv_heads * half_dim;
    elementwise(if total_q >= total_k {
        total_q
    } else {
        total_k
    })
}

/// The launch of attention: a thread per row and head.
pub fn attn_decode(batch: usize, q_heads: usize) -> (r: LaunchDims)
    requires
        batch * q_heads + ATTN_THREADS - 1 <= u32::MAX,
        batch * q_heads <= usize::MAX,
    ensures
        r == line(blocks_for(batch * q_heads, ATTN_THREADS as int), ATTN_THREADS, 0),
{
    let total: u32 = (batch * q_heads) as u32;
    LaunchDims {
        grid_dim: ((total + (ATTN_THREADS - 1)) / ATTN_THREADS, 1, 1),
        block_dim: (ATTN_THREADS, 1, 1),
        shared_mem_bytes: 0,
    }
}

/// Two extents in one argument: the blocks of a sequence above the tokens of a
/// block.
pub fn packed_extents(max_blocks_per_seq: usize, block_size: usize) -> (r: i32)
    ensures
        r == ((max_blocks_per_seq as i32) << 16) | (block_size as i32),
        max_blocks_per_seq < 0x8000 && block_size < 0x1_0000 ==> r == max_blocks_per_seq * 0x1_0000
            + block_size,
{
    let hi: i32 = #[verifier::truncate]
    (max_blocks_per_seq as i32);
    let lo: i32 = #[verifier::truncate]
    (block_size as i32);
    assert(0 <= hi < 0x8000 && 0 <= lo < 0x1_0000 ==> (hi << 16) | lo == hi * 0x1_0000 + lo)
        by (bit_vector);
    (hi << 16) | lo
}

/// Both extents can be had back from the argument.
pub proof fn law_packed_extents_unpack(hi: int, lo: int)
    requires
        0 <= hi < 0x8000,
        0 <= lo < 0x1_0000,
    ensures
        (hi * 0x1_0000 + lo) / 0x1_0000 == hi,
        (hi * 0x1_0000 + lo) % 0x1_0000 == lo,
{
}

/// A launch has a thread for each element, and no block without work.
pub proof fn law_blocks_cover(n: int, per: int)
    requires
        n >= 0,
        per > 0,
    ensures
        blocks_for(n, per) * per >= n,
        n > 0 ==> (blocks_for(n, per) - 1) * per < n,
        n == 0 ==> blocks_for(n, per) == 0,
{
    let b = blocks_for(n, per);
    vstd::arithmetic::div_mod::lemma_fundamental_div_mod(n + per - 1, per);
    vstd::arithmetic::div_mod::lemma_mod_bound(n + per - 1, per);
    assert(b * per == per * b) by (nonlinear_arith);
    assert((b - 1) * per == b * per - per) by (nonlinear_arith);
    if n == 0 {
        vstd::arithmetic::div_mod::lemma_small_mod((per - 1) as nat, per as nat);
        assert(per * b == 0);
        assert(b == 0) by (nonlinear_arith)
            requires
                per * b == 0,
                per > 0,
        ;
    }
}

/// A launch in a line has a thread for each of `n` elements, in blocks of the
/// size asked for, along one dimension.
pub proof fn law_line_covers(n: int, threads: u32, shared: u32)
    requires
        n >= 0,
        threads > 0,
        blocks_for(n, threads as int) <= u32::MAX,
    ensures
        ({
            let dims = line(blocks_for(n, threads as int), threads, shared);
            &&& n <= dims.grid_dim.0 * dims.block_dim.0 < n + threads
            &&& dims.block_dim.0 == threads
            &&& dims.grid_dim.1 == 1 && dims.grid_dim.2 == 1
            &&& dims.block_dim.1 == 1 && dims.block_dim.2 == 1
            &&& dims.shared_mem_bytes == shared
        }),
{
    let b = blocks_for(n, threads as int);
    law_blocks_cover(n, threads as int);
    vstd::arithmetic::div_mod::lemma_div_pos_is_pos(n + threads - 1, threads as int);
    assert((b - 1) * threads == b * threads - threads) by (nonlinear_arith);
    assert(0 * threads == 0) by (nonlinear_arith);
}

/// A rotation has a thread for each pair of the queries and for each pair of
/// the keys, and no more than the larger of both.
pub proof fn law_rope_covers_both(batch: int, q_heads: int, kv_heads: int, half_dim: int)
    ensures
        ({
            let pairs = rope_pairs(batch, q_heads, kv_heads, half_dim);
            let queries = batch * q_heads * half_dim;
            let keys = batch * kv_heads * half_dim;
            pairs >= queries && pairs >= keys && (pairs == queries || pairs == keys)
        }),
{
}

} // verus!
