use vstd::prelude::*;

use crate::cache::swap;
use crate::cache::swap::LayerCopy;
use crate::cache::table_laws;
use crate::kcmm::laws;
use crate::kcmm::pool_model;
use crate::kcmm::pool_model::PoolView;
use crate::kcmm::superblock;
use crate::kcmm::superblock::{INDEX_COUNT, SUPERBLOCK_SIZE};

verus! {

impl LayerCopy {
    /// Address of the K or V part in GPU memory.
    pub open spec fn va(self, is_v: bool) -> int {
        if is_v {
            self.va_v as int
        } else {
            self.va_k as int
        }
    }
}

/// What the host buffers hold, by layer, K or V, and offset, after copies
/// from GPU memory.
pub open spec fn swapped_out(
    host: spec_fn(int, bool, int) -> u8,
    gpu: spec_fn(int) -> u8,
    copies: Seq<LayerCopy>,
) -> spec_fn(int, bool, int) -> u8
    decreases copies.len(),
{
    if copies.len() == 0 {
        host
    } else {
        let c = copies.last();
        let before = swapped_out(host, gpu, copies.drop_last());
        |l: int, is_v: bool, a: int|
            if l == c.layer && c.host_offset <= a < c.host_offset + c.nbytes {
                gpu(c.va(is_v) + (a - c.host_offset))
            } else {
                before(l, is_v, a)
            }
    }
}

/// What GPU memory holds after copies from the host buffers.
pub open spec fn swapped_in(
    gpu: spec_fn(int) -> u8,
    host: spec_fn(int, bool, int) -> u8,
    copies: Seq<LayerCopy>,
) -> spec_fn(int) -> u8
    decreases copies.len(),
{
    if copies.len() == 0 {
        gpu
    } else {
        let c = copies.last();
        let before = swapped_in(gpu, host, copies.drop_last());
        |a: int|
            if c.va_v <= a < c.va_v + c.nbytes {
                host(c.layer as int, true, c.host_offset + (a - c.va_v))
            } else if c.va_k <= a < c.va_k + c.nbytes {
                host(c.layer as int, false, c.host_offset + (a - c.va_k))
            } else {
                before(a)
            }
    }
}

/// Two copies write to different places of the host buffers.
pub open spec fn host_apart(c: LayerCopy, d: LayerCopy) -> bool {
    c.layer != d.layer || c.host_offset + c.nbytes <= d.host_offset || d.host_offset + d.nbytes
        <= c.host_offset
}

/// Part `v` of one copy and part `w` of another lie apart in GPU memory.
pub open spec fn gpu_apart(c: LayerCopy, v: bool, d: LayerCopy, w: bool) -> bool {
    c.va(v) + c.nbytes <= d.va(w) || d.va(w) + d.nbytes <= c.va(v)
}

/// Copies to different places of the host buffers all leave their bytes.
proof fn lemma_swapped_out(
    host: spec_fn(int, bool, int) -> u8,
    gpu: spec_fn(int) -> u8,
    copies: Seq<LayerCopy>,
    k: int,
    is_v: bool,
    b: int,
)
    requires
        0 <= k < copies.len(),
        forall|m: int|
            0 <= m < copies.len() && m != k ==> host_apart(copies[k], #[trigger] copies[m]),
        0 <= b < copies[k].nbytes,
    ensures
        swapped_out(host, gpu, copies)(
            copies[k].layer as int,
            is_v,
            copies[k].host_offset + b,
        ) == gpu(copies[k].va(is_v) + b),
    decreases copies.len(),
{
    if k < copies.len() - 1 {
        let rest = copies.drop_last();
        assert forall|m: int| 0 <= m < rest.len() && m != k implies host_apart(
            rest[k],
            #[trigger] rest[m],
        ) by {
            assert(rest[m] == copies[m]);
        }
        lemma_swapped_out(host, gpu, rest, k, is_v, b);
        assert(host_apart(copies[k], copies[copies.len() - 1]));
    }
}

/// Copies to different places of GPU memory all leave their bytes.
proof fn lemma_swapped_in(
    gpu: spec_fn(int) -> u8,
    host: spec_fn(int, bool, int) -> u8,
    copies: Seq<LayerCopy>,
    k: int,
    is_v: bool,
    b: int,
)
    requires
        0 <= k < copies.len(),
        forall|m: int, w: bool|
            0 <= m < copies.len() && (m != k || w != is_v) ==> #[trigger] gpu_apart(
                copies[k],
                is_v,
                copies[m],
                w,
            ),
        0 <= b < copies[k].nbytes,
    ensures
        swapped_in(gpu, host, copies)(copies[k].va(is_v) + b) == host(
            copies[k].layer as int,
            is_v,
            copies[k].host_offset + b,
        ),
    decreases copies.len(),
{
    let last = copies.len() - 1;
    if k < last {
        let rest = copies.drop_last();
        assert forall|m: int, w: bool|
            0 <= m < rest.len() && (m != k || w != is_v) implies #[trigger] gpu_apart(
            rest[k],
            is_v,
            rest[m],
            w,
        ) by {
            assert(gpu_apart(copies[k], is_v, copies[m], w));
        }
        lemma_swapped_in(gpu, host, rest, k, is_v, b);
        assert(gpu_apart(copies[k], is_v, copies[last], true));
        assert(gpu_apart(copies[k], is_v, copies[last], false));
    } else {
        assert(gpu_apart(copies[k], is_v, copies[k], !is_v));
    }
}

impl PoolView {
    /// The mapped parts of different regions lie apart.
    pub open spec fn regions_apart(self) -> bool {
        forall|l: int, v: bool, m: int, w: bool|
            0 <= l < self.shape.num_layers && 0 <= m < self.shape.num_layers && (l != m || v != w)
                ==> {
                let size = self.pools.backing.len() * SUPERBLOCK_SIZE;
                #[trigger] self.region(l, v) + size <= #[trigger] self.region(m, w) || self.region(
                    m,
                    w,
                ) + size <= self.region(l, v)
            }
    }
}

/// Copy `k` of a plan moves block `k % n` of layer `k / n`.
proof fn lemma_layer_copy(s: PoolView, table: Seq<u32>, k: int)
    requires
        s.wf(),
        s.table_ok(table),
        s.regions_fit(),
        table.len() * s.shape.block_bytes <= usize::MAX,
        0 <= k < s.shape.num_layers * table.len(),
    ensures
        ({
            let n = table.len() as int;
            let c = s.layer_copies(s.table_offsets(table))[k];
            let offset = s.blocks[table[k % n] as int].va_offset;
            &&& 0 <= k / n < s.shape.num_layers
            &&& 0 <= k % n < n
            &&& k == (k / n) * n + k % n
            &&& s.layer_copies(s.table_offsets(table)).len() == s.shape.num_layers * n
            &&& c.layer == k / n
            &&& c.nbytes == s.shape.block_bytes
            &&& c.host_offset == (k % n) * s.shape.block_bytes
            &&& forall|v: bool| #[trigger] c.va(v) == s.region(k / n, v) + offset
            &&& s.mapped(offset as int)
        }),
{
    let n = table.len() as int;
    let layers = s.shape.num_layers as int;
    assert(n > 0) by (nonlinear_arith)
        requires
            0 <= k < layers * n,
            n >= 0,
    ;
    vstd::arithmetic::div_mod::lemma_fundamental_div_mod(k, n);
    let l = k / n;
    let i = k % n;
    assert(0 <= l < layers && k == l * n + i) by (nonlinear_arith)
        requires
            k == n * l + i,
            0 <= i < n,
            0 <= k < layers * n,
    ;
    let bb = s.shape.block_bytes as int;
    assert(0 <= i * bb <= n * bb) by (nonlinear_arith)
        requires
            0 <= i < n,
            bb >= 0,
    ;
    assert(table[i] < s.blocks.len());
    let info = s.blocks[table[i] as int];
    assert(s.block_ok(info));
    pool_model::lemma_offset_mapped(s, info.handle());
    assert(s.region(l, false) + s.pools.backing.len() * SUPERBLOCK_SIZE <= u64::MAX);
    assert(s.region(l, true) + s.pools.backing.len() * SUPERBLOCK_SIZE <= u64::MAX);
}

/// A sequence that was swapped out and in again holds the bytes that it held,
/// in its new blocks and in the same order.
pub proof fn law_swapped_bytes_return(
    s: PoolView,
    t: PoolView,
    gpu: spec_fn(int) -> u8,
    host: spec_fn(int, bool, int) -> u8,
    later: spec_fn(int) -> u8,
    old_table: Seq<u32>,
    new_table: Seq<u32>,
    l: int,
    is_v: bool,
    i: int,
    b: int,
)
    requires
        s.wf(),
        s.table_ok(old_table),
        s.regions_fit(),
        t.partitioned(),
        t.regions_fit(),
        t.regions_apart(),
        new_table.no_duplicates(),
        forall|k: int| 0 <= k < new_table.len() ==> t.holds(#[trigger] new_table[k] as int),
        t.shape == s.shape,
        new_table.len() == old_table.len(),
        old_table.len() * s.shape.block_bytes <= usize::MAX,
        0 <= l < s.shape.num_layers,
        0 <= i < old_table.len(),
        0 <= b < s.shape.block_bytes,
    ensures
        ({
            let held = swapped_out(host, gpu, s.layer_copies(s.table_offsets(old_table)));
            let back = swapped_in(later, held, t.layer_copies(t.table_offsets(new_table)));
            back(t.region(l, is_v) + t.blocks[new_table[i] as int].va_offset + b) == gpu(
                s.region(l, is_v) + s.blocks[old_table[i] as int].va_offset + b,
            )
        }),
{
    let n = old_table.len() as int;
    let bb = s.shape.block_bytes as int;
    let out = s.layer_copies(s.table_offsets(old_table));
    let back = t.layer_copies(t.table_offsets(new_table));
    assert(t.table_ok(new_table)) by {
        assert forall|k: int| 0 <= k < new_table.len() implies (#[trigger] new_table[k])
            < t.blocks.len() by {
            assert(t.holds(new_table[k] as int));
        }
    }
    let k = l * n + i;
    vstd::arithmetic::div_mod::lemma_fundamental_div_mod_converse(k, n, l, i);
    assert(0 <= k < s.shape.num_layers * n) by (nonlinear_arith)
        requires
            k == l * n + i,
            0 <= l < s.shape.num_layers,
            0 <= i < n,
    ;
    lemma_layer_copy(s, old_table, k);
    lemma_layer_copy(t, new_table, k);
    assert forall|m: int| 0 <= m < out.len() && m != k implies host_apart(
        out[k],
        #[trigger] out[m],
    ) by {
        lemma_layer_copy(s, old_table, m);
        let j = m % n;
        if m / n == l {
            assert(i * bb + bb <= j * bb || j * bb + bb <= i * bb) by (nonlinear_arith)
                requires
                    i != j,
                    bb >= 0,
            ;
        }
    }
    assert forall|m: int, w: bool| 0 <= m < back.len() && (m != k || w != is_v) implies #[trigger] gpu_apart(
        back[k],
        is_v,
        back[m],
        w,
    ) by {
        lemma_layer_copy(t, new_table, m);
        let j = m % n;
        assert(back[k].va(is_v) == t.region(l, is_v) + t.blocks[new_table[i] as int].va_offset);
        assert(back[m].va(w) == t.region(m / n, w) + t.blocks[new_table[j] as int].va_offset);
        if m / n == l && w == is_v {
            assert(i != j);
            assert(new_table[i] != new_table[j]);
            assert(t.holds(new_table[i] as int) && t.holds(new_table[j] as int));
            laws::law_owned_blocks_disjoint(t, new_table[i] as int, new_table[j] as int);
        } else {
            assert(t.region(l, is_v) + t.pools.backing.len() * SUPERBLOCK_SIZE <= t.region(m / n, w)
                || t.region(m / n, w) + t.pools.backing.len() * SUPERBLOCK_SIZE <= t.region(
                l,
                is_v,
            ));
        }
    }
    lemma_swapped_out(host, gpu, out, k, is_v, b);
    lemma_swapped_in(later, swapped_out(host, gpu, out), back, k, is_v, b);
    assert(out[k].va(is_v) == s.region(l, is_v) + s.blocks[old_table[i] as int].va_offset);
    assert(back[k].va(is_v) == t.region(l, is_v) + t.blocks[new_table[i] as int].va_offset);
}

/// Byte `b` of the K or V part of layer `l` of the `i`-th block of a table.
pub open spec fn table_byte(
    s: PoolView,
    gpu: spec_fn(int) -> u8,
    table: Seq<u32>,
    l: int,
    is_v: bool,
    i: int,
    b: int,
) -> u8 {
    gpu(s.region(l, is_v) + s.blocks[table[i] as int].va_offset + b)
}

/// Swapping a sequence out and in again, with blocks to restore it into:
/// the new table has as many blocks, every block of it holds in every layer
/// what the block in its place held, and no byte is accounted for any more. A
/// sequence without blocks comes back without any allocation.
///
/// The sequence is swapped out of `s`, and into `later`.
pub proof fn law_swap_round_trip(
    s: PoolView,
    later: PoolView,
    gpu: spec_fn(int) -> u8,
    host: spec_fn(int, bool, int) -> u8,
    gpu_later: spec_fn(int) -> u8,
    table: Seq<u32>,
    grants: Seq<Seq<u64>>,
)
    requires
        s.wf(),
        s.table_ok(table),
        s.regions_fit(),
        later.partitioned(),
        later.shape == s.shape,
        later.blocks.len() + table.len() <= INDEX_COUNT,
        superblock::superblocks_fit((later.pools.backing.len() + grants.len()) as int),
        table.len() * s.shape.block_bytes <= usize::MAX,
        ({
            let (t, new_table, _) = later.allocated_many(table.len(), grants, 0);
            t.regions_fit() && t.regions_apart() && new_table.len() == table.len()
        }),
    ensures
        ({
            let (t, new_table, _) = later.allocated_many(table.len(), grants, 0);
            let held = swapped_out(host, gpu, s.layer_copies(s.table_offsets(table)));
            let back = swapped_in(gpu_later, held, t.layer_copies(t.table_offsets(new_table)));
            let bytes = s.swap_bytes(table.len() as int);
            &&& t.partitioned()
            &&& forall|l: int, is_v: bool, i: int, b: int|
                0 <= l < s.shape.num_layers && 0 <= i < table.len() && 0 <= b < s.shape.block_bytes
                    ==> #[trigger] table_byte(t, back, new_table, l, is_v, i, b) == table_byte(
                    s,
                    gpu,
                    table,
                    l,
                    is_v,
                    i,
                    b,
                )
            &&& bytes == t.swap_bytes(new_table.len() as int)
            &&& swap::deducted(0 + bytes, t.swap_bytes(new_table.len() as int)) == 0
            &&& table.len() == 0 ==> t == later && new_table.len() == 0
        }),
{
    table_laws::lemma_allocated_many_fresh(later, table.len(), grants, 0);
    let (t, new_table, _) = later.allocated_many(table.len(), grants, 0);
    let held = swapped_out(host, gpu, s.layer_copies(s.table_offsets(table)));
    let back = swapped_in(gpu_later, held, t.layer_copies(t.table_offsets(new_table)));
    assert forall|l: int, is_v: bool, i: int, b: int|
        0 <= l < s.shape.num_layers && 0 <= i < table.len() && 0 <= b
            < s.shape.block_bytes implies #[trigger] table_byte(t, back, new_table, l, is_v, i, b)
        == table_byte(s, gpu, table, l, is_v, i, b) by {
        law_swapped_bytes_return(
            s,
            t,
            gpu,
            host,
            gpu_later,
            table,
            new_table,
            l,
            is_v,
            i,
            b,
        );
    }
}

} // verus!
