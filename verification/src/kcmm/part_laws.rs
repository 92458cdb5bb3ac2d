//! Which parts of a block a transfer moves, and which parts of the pool a
//! teardown gives back.

use vstd::prelude::*;

use crate::kcmm::pool_model::PoolView;

verus! {

/// A layer's keys lie in its K region and its values in its V region.
pub proof fn law_regions_by_side(s: PoolView, layer: int)
    ensures
        s.region(layer, false) == s.va_k[layer],
        s.region(layer, true) == s.va_v[layer],
{
}

/// A slot takes every layer's K part and V part once, layer by layer and K
/// before V, each whole and behind the one before; together they fill it.
pub proof fn law_slot_takes_every_part(s: PoolView, va_offset: int, cpu_offset: int, layer: int)
    requires
        0 <= layer < s.shape.num_layers,
        0 <= va_offset,
        0 <= cpu_offset,
        s.va_k[layer] + va_offset <= u64::MAX,
        s.va_v[layer] + va_offset <= u64::MAX,
        cpu_offset + s.slot_bytes() <= usize::MAX,
    ensures
        ({
            let copies = s.slot_copies(va_offset, cpu_offset);
            let bb = s.shape.block_bytes as int;
            &&& copies.len() == 2 * s.shape.num_layers
            &&& copies[2 * layer].gpu_va == s.va_k[layer] + va_offset
            &&& copies[2 * layer + 1].gpu_va == s.va_v[layer] + va_offset
            &&& copies[2 * layer].cpu_offset == cpu_offset + layer * (2 * bb)
            &&& copies[2 * layer + 1].cpu_offset == cpu_offset + layer * (2 * bb) + bb
            &&& copies[2 * layer].nbytes == bb
            &&& copies[2 * layer + 1].nbytes == bb
            &&& s.slot_bytes() == copies.len() * bb
        }),
{
    let bb = s.shape.block_bytes as int;
    let layers = s.shape.num_layers as int;
    assert((2 * layer) * bb == layer * (2 * bb)) by (nonlinear_arith);
    assert((2 * layer + 1) * bb == layer * (2 * bb) + bb) by (nonlinear_arith);
    assert(layers * 2 * bb == (2 * layers) * bb) by (nonlinear_arith);
    assert((2 * layer + 1) * bb <= (2 * layers) * bb) by (nonlinear_arith)
        requires
            layer < layers,
            bb >= 0,
    ;
    assert(0 <= (2 * layer) * bb) by (nonlinear_arith)
        requires
            layer >= 0,
            bb >= 0,
    ;
}

/// A batch lies in the staging buffer part by part, within a part block by
/// block; between the buffer and the slots every part of every block is moved
/// once, between its place in the buffer and its place in the block's slot.
pub proof fn law_batch_moves_every_part(s: PoolView, offsets: Seq<usize>, i: int, j: int)
    requires
        0 <= i < offsets.len(),
        0 <= j < 2 * s.shape.num_layers,
        offsets.len() * s.slot_bytes() <= usize::MAX,
        offsets[i] + s.slot_bytes() <= usize::MAX,
    ensures
        ({
            let bb = s.shape.block_bytes as int;
            let n = offsets.len() as int;
            let parts = 2 * s.shape.num_layers;
            let c = s.scatter_copies(offsets)[i * parts + j];
            &&& s.scatter_copies(offsets).len() == n * parts
            &&& 0 <= i * parts + j < n * parts
            &&& c.staging_offset == (j * n + i) * bb
            &&& c.slot_offset == offsets[i] + j * bb
            &&& c.nbytes == bb
            &&& s.gather_copies(offsets, j).len() == n
            &&& s.gather_copies(offsets, j)[i] == c
        }),
{
    let bb = s.shape.block_bytes as int;
    let n = offsets.len() as int;
    let layers = s.shape.num_layers as int;
    let parts = 2 * layers;
    assert(i * parts + j < n * parts && 0 <= i * parts) by (nonlinear_arith)
        requires
            0 <= i < n,
            0 <= j < parts,
    ;
    vstd::arithmetic::div_mod::lemma_fundamental_div_mod_converse(i * parts + j, parts, i, j);
    assert(j * (n * bb) + i * bb == (j * n + i) * bb) by (nonlinear_arith);
    assert(s.slot_bytes() == parts * bb) by (nonlinear_arith)
        requires
            s.slot_bytes() == layers * 2 * bb,
            parts == 2 * layers,
    ;
    assert(0 <= j * bb && j * bb <= parts * bb) by (nonlinear_arith)
        requires
            0 <= j < parts,
            bb >= 0,
    ;
    assert(0 <= j * n + i <= n * parts) by (nonlinear_arith)
        requires
            0 <= i < n,
            0 <= j < parts,
    ;
    assert(0 <= (j * n + i) * bb <= n * (parts * bb)) by (nonlinear_arith)
        requires
            0 <= j * n + i <= n * parts,
            bb >= 0,
    ;
}

proof fn lemma_side_unmappings(s: PoolView, is_v: bool, n: nat, layer: int, i: int)
    requires
        0 <= layer < n,
        0 <= i < s.pools.backing.len(),
    ensures
        s.side_unmappings(is_v, n).len() == n * s.pools.backing.len(),
        0 <= layer * s.pools.backing.len() + i < n * s.pools.backing.len(),
        s.side_unmappings(is_v, n)[layer * s.pools.backing.len() + i] == s.unmapping(
            layer,
            is_v,
            i,
        ),
    decreases n,
{
    let b = s.pools.backing.len() as int;
    lemma_side_length(s, is_v, n);
    lemma_side_length(s, is_v, (n - 1) as nat);
    assert((n - 1) * b + b == n * b) by (nonlinear_arith);
    assert(0 <= layer * b && layer * b + i < n * b) by (nonlinear_arith)
        requires
            0 <= layer < n,
            0 <= i < b,
    ;
    if layer < n - 1 {
        lemma_side_unmappings(s, is_v, (n - 1) as nat, layer, i);
    }
}

proof fn lemma_side_length(s: PoolView, is_v: bool, n: nat)
    ensures
        s.side_unmappings(is_v, n).len() == n * s.pools.backing.len(),
    decreases n,
{
    let b = s.pools.backing.len() as int;
    if n > 0 {
        lemma_side_length(s, is_v, (n - 1) as nat);
        assert((n - 1) * b + b == n * b) by (nonlinear_arith);
    } else {
        assert(0 * b == 0) by (nonlinear_arith);
    }
}

/// A teardown unmaps every superblock from every layer's K and V region, each
/// with the physical memory that backed it there: twice as many unmappings as
/// layers and superblocks, those of the K regions first.
pub proof fn law_teardown_gives_all_back(s: PoolView, layer: int, i: int)
    requires
        0 <= layer < s.shape.num_layers,
        0 <= i < s.pools.backing.len(),
        s.pools.backing.len() * 2_097_152 <= usize::MAX,
    ensures
        ({
            let n = s.shape.num_layers as nat;
            let b = s.pools.backing.len() as int;
            let all = s.side_unmappings(false, n) + s.side_unmappings(true, n);
            let k = all[layer * b + i];
            let v = all[n * b + layer * b + i];
            &&& all.len() == 2 * (n * b)
            &&& k.va_base == s.va_k[layer]
            &&& k.va_offset == i * 2_097_152
            &&& k.phys_handle == s.pools.backing[i][2 * layer]
            &&& v.va_base == s.va_v[layer]
            &&& v.va_offset == i * 2_097_152
            &&& v.phys_handle == s.pools.backing[i][2 * layer + 1]
        }),
{
    let n = s.shape.num_layers as nat;
    lemma_side_unmappings(s, false, n, layer, i);
    lemma_side_unmappings(s, true, n, layer, i);
}

} // verus!
