use vstd::prelude::*;

use crate::kcmm::pool::KcmmPool;
use crate::kcmm::pool_model::PoolView;
use crate::kcmm::superblock::{LayerKvPool, SUPERBLOCK_SIZE};

verus! {

/// A superblock to unmap from a region, with the physical memory to release.
#[derive(Debug, Clone, Copy, PartialEq, Eq, Structural)]
pub struct Unmapping {
    pub va_base: u64,
    pub va_offset: usize,
    pub phys_handle: u64,
}

impl PoolView {
    /// The unmapping of superblock `i` from a layer's K or V region.
    pub open spec fn unmapping(self, layer: int, is_v: bool, i: int) -> Unmapping {
        Unmapping {
            va_base: self.region(layer, is_v),
            va_offset: (i * SUPERBLOCK_SIZE) as usize,
            phys_handle: self.pools.backing[i][if is_v {
                2 * layer + 1
            } else {
                2 * layer
            }],
        }
    }

    /// The unmappings of all superblocks of the K or V regions of the first
    /// `n` layers, layer by layer.
    pub open spec fn side_unmappings(self, is_v: bool, n: nat) -> Seq<Unmapping>
        decreases n,
    {
        if n == 0 {
            Seq::empty()
        } else {
            self.side_unmappings(is_v, (n - 1) as nat) + Seq::new(
                self.pools.backing.len(),
                |i: int| self.unmapping(n - 1, is_v, i),
            )
        }
    }
}

impl KcmmPool {
    /// Append the unmappings of a layer's K or V region.
    fn push_unmappings(&self, out: &mut Vec<Unmapping>, layer: usize, is_v: bool)
        requires
            self.wf(),
            layer < self@.shape.num_layers,
        ensures
            final(out)@ == old(out)@ + Seq::new(
                self@.pools.backing.len(),
                |i: int| self@.unmapping(layer as int, is_v, i),
            ),
    {
        let ghost want = Seq::new(
            self@.pools.backing.len(),
            |i: int| self@.unmapping(layer as int, is_v, i),
        );
        let va_base: u64 = if is_v {
            self.va_v[layer]
        } else {
            self.va_k[layer]
        };
        let pool: &LayerKvPool = if is_v {
            &self.pools.v_pools[layer]
        } else {
            &self.pools.k_pools[layer]
        };
        assert(self.pools.in_step(*pool));
        assert(self.pools.in_step(self.pools.k_pools@[0]));
        let mut i: usize = 0;
        while i < pool.superblocks.len()
            invariant
                self.wf(),
                layer < self@.shape.num_layers,
                *pool == if is_v {
                    self.pools.v_pools@[layer as int]
                } else {
                    self.pools.k_pools@[layer as int]
                },
                self.pools.in_step(*pool),
                pool.superblocks@.len() == self@.pools.backing.len(),
                va_base == self@.region(layer as int, is_v),
                want == Seq::new(
                    self@.pools.backing.len(),
                    |k: int| self@.unmapping(layer as int, is_v, k),
                ),
                i <= pool.superblocks@.len(),
                out@ == old(out)@ + want.take(i as int),
            decreases pool.superblocks@.len() - i,
        {
            proof {
                assert(self@.pools.backing[i as int] == self.pools.backing_of(i as int));
                assert((2 * layer + 1) / 2 == layer && (2 * layer) / 2 == layer);
                assert(pool.superblocks@[i as int].va_base == i * SUPERBLOCK_SIZE);
            }
            out.push(
                Unmapping {
                    va_base,
                    va_offset: pool.superblocks[i].va_base,
                    phys_handle: pool.superblocks[i].phys_handle,
                },
            );
            assert(want.take(i + 1) =~= want.take(i as int).push(want[i as int]));
            i = i + 1;
        }
        assert(want.take(want.len() as int) =~= want);
    }

    /// What has to be unmapped and released before the regions can be given
    /// back: all superblocks of the K regions, then those of the V regions.
    pub fn teardown(&self) -> (r: Vec<Unmapping>)
        requires
            self.wf(),
        ensures
            r@ == self@.side_unmappings(false, self@.shape.num_layers as nat)
                + self@.side_unmappings(true, self@.shape.num_layers as nat),
    {
        let mut out: Vec<Unmapping> = Vec::new();
        let mut l: usize = 0;
        while l < self.num_layers
            invariant
                self.wf(),
                l <= self.num_layers,
                out@ == self@.side_unmappings(false, l as nat),
            decreases self.num_layers - l,
        {
            self.push_unmappings(&mut out, l, false);
            l = l + 1;
        }
        let ghost keys = out@;
        l = 0;
        assert(keys + self@.side_unmappings(true, 0) =~= keys);
        while l < self.num_layers
            invariant
                self.wf(),
                l <= self.num_layers,
                out@ == keys + self@.side_unmappings(true, l as nat),
            decreases self.num_layers - l,
        {
            self.push_unmappings(&mut out, l, true);
            assert(out@ =~= keys + self@.side_unmappings(true, (l + 1) as nat));
            l = l + 1;
        }
        out
    }
}

} // verus!
