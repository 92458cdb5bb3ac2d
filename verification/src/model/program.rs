use vstd::prelude::*;

use crate::cache::paged_kv::PagedKvCache;
use crate::config::ModelConfig;
use crate::kcmm::pool::KcmmPool;
use crate::kcmm::pool_model::PoolView;
use crate::kcmm::superblock::HALF_BYTES;
use crate::model::llama_transformer::{LayerWeights, LlamaWeights, TensorRef};

verus! {

/// A buffer of half-precision elements that a forward step works on.
#[derive(Debug, Clone, Copy, PartialEq, Eq, Structural)]
pub enum Buf {
    Hidden,
    Residual,
    Normed,
    Q,
    K,
    V,
    Attn,
    AttnOut,
    Gate,
    Up,
    SiluOut,
    FfnOut,
    FinalNormed,
    Logits,
}

/// One operation of a forward step. Offsets and lengths count elements;
/// addresses are those of the caches.
#[derive(Debug, Clone, Copy, PartialEq, Eq, Structural)]
pub enum Op {
    /// Make a buffer of zeros.
    Alloc { buf: Buf, elems: usize },
    /// Copy one buffer to another.
    Copy { dst: Buf, src: Buf, elems: usize },
    /// Normalise the rows of a buffer.
    RmsNorm { src: Buf, weight: TensorRef, dst: Buf, rows: usize, dim: usize },
    /// Multiply an `m` by `k` buffer with a weight to an `m` by `n` buffer.
    Project { src: Buf, weight: TensorRef, dst: Buf, m: usize, n: usize, k: usize },
    /// Rotate one row of Q and one of K to a position.
    Rope { q_offset: usize, q_len: usize, k_offset: usize, k_len: usize, position: usize },
    /// Copy one row of K and one of V to the cache.
    WriteKv { src_offset: usize, elems: usize, dst_k: u64, dst_v: u64 },
    /// Attend from one row of Q over a contiguous piece of the cache.
    Attend { offset: usize, len: usize, k_start: u64, v_start: u64, cache_len: usize, seq_len: usize },
    /// Attend from all rows of Q over the blocks of a layer.
    PagedAttend { va_k: u64, va_v: u64 },
    /// Multiply the activated gate with the up projection.
    SiluMul { elems: usize },
    /// Add one buffer to another.
    Add { dst: Buf, src: Buf, elems: usize },
}

/// The extents of a model.
#[derive(Debug, Clone, Copy, PartialEq, Eq, Structural)]
pub struct LlamaShape {
    pub hidden: usize,
    pub intermediate: usize,
    pub vocab: usize,
    pub num_layers: usize,
    pub num_heads: usize,
    pub kv_heads: usize,
    pub head_dim: usize,
}

impl LlamaShape {
    /// Elements of a row of Q that carry heads.
    pub open spec fn q_dim(self) -> int {
        self.num_heads * self.head_dim
    }

    /// Elements of a row of K or V.
    pub open spec fn kv_dim(self) -> int {
        self.kv_heads * self.head_dim
    }

    /// All buffers of a step over `batch` rows can be measured.
    pub open spec fn fits(self, batch: int) -> bool {
        &&& batch * self.hidden <= usize::MAX
        &&& batch * self.kv_dim() <= usize::MAX
        &&& batch * self.intermediate <= usize::MAX
        &&& batch * self.vocab <= usize::MAX
        &&& self.q_dim() <= self.hidden
        &&& self.kv_dim() <= usize::MAX
    }

    /// Elements of a buffer in a step over `batch` rows.
    pub open spec fn elems(self, buf: Buf, batch: int) -> int {
        match buf {
            Buf::K | Buf::V => batch * self.kv_dim(),
            Buf::Gate | Buf::Up | Buf::SiluOut => batch * self.intermediate,
            Buf::Logits => batch * self.vocab,
            _ => batch * self.hidden,
        }
    }

    /// The extents of a model.
    pub fn of(cfg: &ModelConfig) -> (r: Self)
        requires
            cfg.num_attention_heads > 0,
        ensures
            r == (LlamaShape {
                hidden: cfg.hidden_size,
                intermediate: cfg.intermediate_size,
                vocab: cfg.vocab_size,
                num_layers: cfg.num_hidden_layers,
                num_heads: cfg.num_attention_heads,
                kv_heads: cfg.kv_heads(),
                head_dim: cfg.head_dim(),
            }),
            r.q_dim() <= r.hidden,
    {
        proof {
            let h = cfg.hidden_size as int;
            let n = cfg.num_attention_heads as int;
            vstd::arithmetic::div_mod::lemma_fundamental_div_mod(h, n);
            vstd::arithmetic::div_mod::lemma_mod_bound(h, n);
        }
        LlamaShape {
            hidden: cfg.hidden_size,
            intermediate: cfg.intermediate_size,
            vocab: cfg.vocab_size,
            num_layers: cfg.num_hidden_layers,
            num_heads: cfg.num_attention_heads,
            kv_heads: cfg.kv_heads(),
            head_dim: cfg.head_dim(),
        }
    }

    /// Rotate row `b` of Q and K.
    pub open spec fn rope(self, b: int, position: usize) -> Op {
        Op::Rope {
            q_offset: (b * self.hidden) as usize,
            q_len: self.q_dim() as usize,
            k_offset: (b * self.kv_dim()) as usize,
            k_len: self.kv_dim() as usize,
            position,
        }
    }

    /// The first part of a layer: normalise, project to Q, K and V, and rotate.
    pub open spec fn front(self, lw: LayerWeights, positions: Seq<usize>) -> Seq<Op> {
        let m = positions.len() as usize;
        let bh = self.elems(Buf::Q, m as int) as usize;
        let bk = self.elems(Buf::K, m as int) as usize;
        let h = self.hidden;
        let kvd = self.kv_dim() as usize;
        seq![
            Op::Alloc { buf: Buf::Residual, elems: bh },
            Op::Copy { dst: Buf::Residual, src: Buf::Hidden, elems: bh },
            Op::Alloc { buf: Buf::Normed, elems: bh },
            Op::RmsNorm {
                src: Buf::Hidden,
                weight: lw.input_layernorm,
                dst: Buf::Normed,
                rows: m,
                dim: h,
            },
            Op::Alloc { buf: Buf::Q, elems: bh },
            Op::Project { src: Buf::Normed, weight: lw.q_proj, dst: Buf::Q, m, n: h, k: h },
            Op::Alloc { buf: Buf::K, elems: bk },
            Op::Project { src: Buf::Normed, weight: lw.k_proj, dst: Buf::K, m, n: kvd, k: h },
            Op::Alloc { buf: Buf::V, elems: bk },
            Op::Project { src: Buf::Normed, weight: lw.v_proj, dst: Buf::V, m, n: kvd, k: h },
        ] + Seq::new(positions.len(), |b: int| self.rope(b, positions[b]))
    }

    /// The last part of a layer: project the attention, add it to the
    /// residual, and do the same with the feed-forward part.
    pub open spec fn back(self, lw: LayerWeights, m: usize) -> Seq<Op> {
        let bh = self.elems(Buf::Hidden, m as int) as usize;
        let bi = self.elems(Buf::Gate, m as int) as usize;
        let h = self.hidden;
        let im = self.intermediate;
        seq![
            Op::Alloc { buf: Buf::AttnOut, elems: bh },
            Op::Project { src: Buf::Attn, weight: lw.o_proj, dst: Buf::AttnOut, m, n: h, k: h },
            Op::Copy { dst: Buf::Hidden, src: Buf::Residual, elems: bh },
            Op::Add { dst: Buf::Hidden, src: Buf::AttnOut, elems: bh },
            Op::RmsNorm {
                src: Buf::Hidden,
                weight: lw.post_attention_layernorm,
                dst: Buf::Normed,
                rows: m,
                dim: h,
            },
            Op::Copy { dst: Buf::Residual, src: Buf::Hidden, elems: bh },
            Op::Alloc { buf: Buf::Gate, elems: bi },
            Op::Project { src: Buf::Normed, weight: lw.gate_proj, dst: Buf::Gate, m, n: im, k: h },
            Op::Alloc { buf: Buf::Up, elems: bi },
            Op::Project { src: Buf::Normed, weight: lw.up_proj, dst: Buf::Up, m, n: im, k: h },
            Op::Alloc { buf: Buf::SiluOut, elems: bi },
            Op::SiluMul { elems: bi },
            Op::Alloc { buf: Buf::FfnOut, elems: bh },
            Op::Project {
                src: Buf::SiluOut,
                weight: lw.down_proj,
                dst: Buf::FfnOut,
                m,
                n: h,
                k: im,
            },
            Op::Copy { dst: Buf::Hidden, src: Buf::Residual, elems: bh },
            Op::Add { dst: Buf::Hidden, src: Buf::FfnOut, elems: bh },
        ]
    }

    /// What follows the layers: normalise and project to the vocabulary.
    pub open spec fn finish(self, norm: TensorRef, lm_head: TensorRef, m: usize) -> Seq<Op> {
        seq![
            Op::Alloc {
                buf: Buf::FinalNormed,
                elems: self.elems(Buf::FinalNormed, m as int) as usize,
            },
            Op::RmsNorm {
                src: Buf::Hidden,
                weight: norm,
                dst: Buf::FinalNormed,
                rows: m,
                dim: self.hidden,
            },
            Op::Alloc { buf: Buf::Logits, elems: self.elems(Buf::Logits, m as int) as usize },
            Op::Project {
                src: Buf::FinalNormed,
                weight: lm_head,
                dst: Buf::Logits,
                m,
                n: self.vocab,
                k: self.hidden,
            },
        ]
    }

    /// Append the first part of a layer.
    fn push_front(&self, out: &mut Vec<Op>, lw: &LayerWeights, positions: &Vec<usize>)
        requires
            self.fits(positions@.len() as int),
        ensures
            final(out)@ == old(out)@ + self.front(*lw, positions@),
    {
        let m: usize = positions.len();
        let h: usize = self.hidden;
        let kvd: usize = self.kv_heads * self.head_dim;
        let bh: usize = m * h;
        let bk: usize = m * kvd;
        out.push(Op::Alloc { buf: Buf::Residual, elems: bh });
        out.push(Op::Copy { dst: Buf::Residual, src: Buf::Hidden, elems: bh });
        out.push(Op::Alloc { buf: Buf::Normed, elems: bh });
        out.push(
            Op::RmsNorm {
                src: Buf::Hidden,
                weight: lw.input_layernorm,
                dst: Buf::Normed,
                rows: m,
                dim: h,
            },
        );
        out.push(Op::Alloc { buf: Buf::Q, elems: bh });
        out.push(Op::Project { src: Buf::Normed, weight: lw.q_proj, dst: Buf::Q, m, n: h, k: h });
        out.push(Op::Alloc { buf: Buf::K, elems: bk });
        out.push(Op::Project { src: Buf::Normed, weight: lw.k_proj, dst: Buf::K, m, n: kvd, k: h });
        out.push(Op::Alloc { buf: Buf::V, elems: bk });
        out.push(Op::Project { src: Buf::Normed, weight: lw.v_proj, dst: Buf::V, m, n: kvd, k: h });
        let ghost head = out@;
        let ghost ropes = Seq::new(positions@.len(), |b: int| self.rope(b, positions@[b]));
        let mut b: usize = 0;
        while b < m
            invariant
                b <= m,
                m == positions@.len(),
                h == self.hidden,
                kvd == self.kv_dim(),
                self.fits(m as int),
                ropes == Seq::new(positions@.len(), |i: int| self.rope(i, positions@[i])),
                out@ == head + ropes.take(b as int),
            decreases m - b,
        {
            proof {
                lemma_row_fits(b as int, m as int, h as int);
                lemma_row_fits(b as int, m as int, kvd as int);
            }
            out.push(
                Op::Rope {
                    q_offset: b * h,
                    q_len: self.num_heads * self.head_dim,
                    k_offset: b * kvd,
                    k_len: kvd,
                    position: positions[b],
                },
            );
            assert(ropes.take(b + 1) =~= ropes.take(b as int).push(ropes[b as int]));
            b = b + 1;
        }
        assert(ropes.take(m as int) =~= ropes);
        assert(out@ =~= old(out)@ + self.front(*lw, positions@));
    }

    /// Append the last part of a layer.
    fn push_back(&self, out: &mut Vec<Op>, lw: &LayerWeights, m: usize)
        requires
            self.fits(m as int),
        ensures
            final(out)@ == old(out)@ + self.back(*lw, m),
    {
        let h: usize = self.hidden;
        let im: usize = self.intermediate;
        let bh: usize = m * h;
        let bi: usize = m * im;
        out.push(Op::Alloc { buf: Buf::AttnOut, elems: bh });
        out.push(
            Op::Project { src: Buf::Attn, weight: lw.o_proj, dst: Buf::AttnOut, m, n: h, k: h },
        );
        out.push(Op::Copy { dst: Buf::Hidden, src: Buf::Residual, elems: bh });
        out.push(Op::Add { dst: Buf::Hidden, src: Buf::AttnOut, elems: bh });
        out.push(
            Op::RmsNorm {
                src: Buf::Hidden,
                weight: lw.post_attention_layernorm,
                dst: Buf::Normed,
                rows: m,
                dim: h,
            },
        );
        out.push(Op::Copy { dst: Buf::Residual, src: Buf::Hidden, elems: bh });
        out.push(Op::Alloc { buf: Buf::Gate, elems: bi });
        out.push(
            Op::Project { src: Buf::Normed, weight: lw.gate_proj, dst: Buf::Gate, m, n: im, k: h },
        );
        out.push(Op::Alloc { buf: Buf::Up, elems: bi });
        out.push(
            Op::Project { src: Buf::Normed, weight: lw.up_proj, dst: Buf::Up, m, n: im, k: h },
        );
        out.push(Op::Alloc { buf: Buf::SiluOut, elems: bi });
        out.push(Op::SiluMul { elems: bi });
        out.push(Op::Alloc { buf: Buf::FfnOut, elems: bh });
        out.push(
            Op::Project {
                src: Buf::SiluOut,
                weight: lw.down_proj,
                dst: Buf::FfnOut,
                m,
                n: h,
                k: im,
            },
        );
        out.push(Op::Copy { dst: Buf::Hidden, src: Buf::Residual, elems: bh });
        out.push(Op::Add { dst: Buf::Hidden, src: Buf::FfnOut, elems: bh });
        assert(out@ =~= old(out)@ + self.back(*lw, m));
    }

    /// Append what follows the layers.
    fn push_finish(&self, out: &mut Vec<Op>, norm: TensorRef, lm_head: TensorRef, m: usize)
        requires
            self.fits(m as int),
        ensures
            final(out)@ == old(out)@ + self.finish(norm, lm_head, m),
    {
        out.push(Op::Alloc { buf: Buf::FinalNormed, elems: m * self.hidden });
        out.push(
            Op::RmsNorm {
                src: Buf::Hidden,
                weight: norm,
                dst: Buf::FinalNormed,
                rows: m,
                dim: self.hidden,
            },
        );
        out.push(Op::Alloc { buf: Buf::Logits, elems: m * self.vocab });
        out.push(
            Op::Project {
                src: Buf::FinalNormed,
                weight: lm_head,
                dst: Buf::Logits,
                m,
                n: self.vocab,
                k: self.hidden,
            },
        );
        assert(out@ =~= old(out)@ + self.finish(norm, lm_head, m));
    }
}

/// A contiguous cache, by the addresses of its layers.
#[derive(Debug)]
pub struct ContigCache {
    pub k_layers: Vec<u64>,
    pub v_layers: Vec<u64>,
    /// Elements of a slot.
    pub stride: usize,
}

impl ContigCache {
    /// The cache reaches over all layers, and each element that a step touches
    /// has an offset.
    pub open spec fn ok(
        &self,
        s: LlamaShape,
        slots: Seq<usize>,
        positions: Seq<usize>,
    ) -> bool {
        &&& self.k_layers@.len() >= s.num_layers
        &&& self.v_layers@.len() >= s.num_layers
        &&& slots.len() == positions.len()
        &&& forall|b: int|
            0 <= b < positions.len() ==> {
                &&& #[trigger] positions[b] < usize::MAX
                &&& (slots[b] * self.stride + positions[b] * s.kv_dim()) * HALF_BYTES <= usize::MAX
                &&& s.kv_heads * (positions[b] + 1) <= usize::MAX
                &&& s.kv_heads * (positions[b] + 1) * s.head_dim <= usize::MAX
            }
    }

    /// Write row `b` of K and V to its slot and position.
    pub open spec fn write(
        &self,
        s: LlamaShape,
        layer: int,
        b: int,
        slot: usize,
        position: usize,
    ) -> Op {
        let at = ((slot * self.stride + position * s.kv_dim()) * HALF_BYTES) as u64;
        Op::WriteKv {
            src_offset: (b * s.kv_dim()) as usize,
            elems: s.kv_dim() as usize,
            dst_k: self.k_layers@[layer].wrapping_add(at),
            dst_v: self.v_layers@[layer].wrapping_add(at),
        }
    }

    /// Attend from row `b` over its slot, up to its position.
    pub open spec fn attend(
        &self,
        s: LlamaShape,
        layer: int,
        b: int,
        slot: usize,
        position: usize,
    ) -> Op {
        let at = (slot * self.stride * HALF_BYTES) as u64;
        Op::Attend {
            offset: (b * s.hidden) as usize,
            len: s.q_dim() as usize,
            k_start: self.k_layers@[layer].wrapping_add(at),
            v_start: self.v_layers@[layer].wrapping_add(at),
            cache_len: (s.kv_heads * (position + 1) * s.head_dim) as usize,
            seq_len: (position + 1) as usize,
        }
    }

    /// Attend from the first `n` rows. A row at the first position has nothing
    /// to attend to.
    pub open spec fn attends(
        &self,
        s: LlamaShape,
        layer: int,
        slots: Seq<usize>,
        positions: Seq<usize>,
        n: nat,
    ) -> Seq<Op>
        decreases n,
    {
        if n == 0 {
            Seq::empty()
        } else {
            let before = self.attends(s, layer, slots, positions, (n - 1) as nat);
            if positions[n - 1] == 0 {
                before
            } else {
                before.push(self.attend(s, layer, n - 1, slots[n - 1], positions[n - 1]))
            }
        }
    }

    /// The operations of a layer.
    pub open spec fn layer_ops(
        &self,
        s: LlamaShape,
        lw: LayerWeights,
        layer: int,
        slots: Seq<usize>,
        positions: Seq<usize>,
    ) -> Seq<Op> {
        let m = positions.len();
        s.front(lw, positions) + Seq::new(
            m,
            |b: int| self.write(s, layer, b, slots[b], positions[b]),
        ) + seq![Op::Alloc { buf: Buf::Attn, elems: s.elems(Buf::Attn, m as int) as usize }]
            + self.attends(s, layer, slots, positions, m) + s.back(lw, m as usize)
    }

    /// The operations of the first `n` layers.
    pub open spec fn layers_ops(
        &self,
        s: LlamaShape,
        w: LlamaWeights,
        slots: Seq<usize>,
        positions: Seq<usize>,
        n: nat,
    ) -> Seq<Op>
        decreases n,
    {
        if n == 0 {
            Seq::empty()
        } else {
            self.layers_ops(s, w, slots, positions, (n - 1) as nat) + self.layer_ops(
                s,
                w.layers@[n - 1],
                n - 1,
                slots,
                positions,
            )
        }
    }

    /// Append the cache part of a layer: write the new rows, then attend.
    fn push_cache_part(
        &self,
        out: &mut Vec<Op>,
        s: &LlamaShape,
        layer: usize,
        slots: &Vec<usize>,
        positions: &Vec<usize>,
    )
        requires
            s.fits(positions@.len() as int),
            self.ok(*s, slots@, positions@),
            layer < s.num_layers,
        ensures
            final(out)@ == old(out)@ + Seq::new(
                positions@.len(),
                |b: int| self.write(*s, layer as int, b, slots@[b], positions@[b]),
            ) + seq![
                Op::Alloc {
                    buf: Buf::Attn,
                    elems: s.elems(Buf::Attn, positions@.len() as int) as usize,
                },
            ] + self.attends(*s, layer as int, slots@, positions@, positions@.len()),
    {
        let m: usize = positions.len();
        let kvd: usize = s.kv_heads * s.head_dim;
        let kp: u64 = self.k_layers[layer];
        let vp: u64 = self.v_layers[layer];
        let ghost writes = Seq::new(
            positions@.len(),
            |b: int| self.write(*s, layer as int, b, slots@[b], positions@[b]),
        );
        let mut b: usize = 0;
        while b < m
            invariant
                b <= m,
                m == positions@.len(),
                kvd == s.kv_dim(),
                kp == self.k_layers@[layer as int],
                vp == self.v_layers@[layer as int],
                s.fits(m as int),
                self.ok(*s, slots@, positions@),
                writes == Seq::new(
                    positions@.len(),
                    |i: int| self.write(*s, layer as int, i, slots@[i], positions@[i]),
                ),
                out@ == old(out)@ + writes.take(b as int),
            decreases m - b,
        {
            let slot: usize = slots[b];
            let pos: usize = positions[b];
            proof {
                lemma_row_fits(b as int, m as int, kvd as int);
                lemma_offset_parts(
                    slot as int,
                    self.stride as int,
                    pos as int,
                    kvd as int,
                );
            }
            let at: u64 = ((slot * self.stride + pos * kvd) * HALF_BYTES) as u64;
            out.push(
                Op::WriteKv {
                    src_offset: b * kvd,
                    elems: kvd,
                    dst_k: kp.wrapping_add(at),
                    dst_v: vp.wrapping_add(at),
                },
            );
            assert(writes.take(b + 1) =~= writes.take(b as int).push(writes[b as int]));
            b = b + 1;
        }
        assert(writes.take(m as int) =~= writes);
        out.push(Op::Alloc { buf: Buf::Attn, elems: m * s.hidden });
        let ghost head = out@;
        b = 0;
        while b < m
            invariant
                b <= m,
                m == positions@.len(),
                kvd == s.kv_dim(),
                kp == self.k_layers@[layer as int],
                vp == self.v_layers@[layer as int],
                s.fits(m as int),
                self.ok(*s, slots@, positions@),
                out@ == head + self.attends(*s, layer as int, slots@, positions@, b as nat),
            decreases m - b,
        {
            let slot: usize = slots[b];
            let pos: usize = positions[b];
            if pos != 0 {
                proof {
                    lemma_row_fits(b as int, m as int, s.hidden as int);
                    lemma_offset_parts(
                        slot as int,
                        self.stride as int,
                        pos as int,
                        kvd as int,
                    );
                }
                let seq_len: usize = pos + 1;
                let at: u64 = (slot * self.stride * HALF_BYTES) as u64;
                out.push(
                    Op::Attend {
                        offset: b * s.hidden,
                        len: s.num_heads * s.head_dim,
                        k_start: kp.wrapping_add(at),
                        v_start: vp.wrapping_add(at),
                        cache_len: s.kv_heads * seq_len * s.head_dim,
                        seq_len,
                    },
                );
            }
            b = b + 1;
        }
        assert(head =~= old(out)@ + writes + seq![
            Op::Alloc {
                buf: Buf::Attn,
                elems: s.elems(Buf::Attn, positions@.len() as int) as usize,
            },
        ]);
    }

    /// The operations of one forward step of rows at the given positions of
    /// their slots.
    pub fn plan_forward(
        &self,
        s: &LlamaShape,
        w: &LlamaWeights,
        slots: &Vec<usize>,
        positions: &Vec<usize>,
    ) -> (r: Vec<Op>)
        requires
            s.fits(positions@.len() as int),
            self.ok(*s, slots@, positions@),
            w.layers@.len() == s.num_layers,
        ensures
            r@ == self.layers_ops(*s, *w, slots@, positions@, s.num_layers as nat) + s.finish(
                w.norm,
                w.lm_head,
                positions@.len() as usize,
            ),
    {
        let mut out: Vec<Op> = Vec::new();
        let mut l: usize = 0;
        while l < s.num_layers
            invariant
                l <= s.num_layers,
                s.fits(positions@.len() as int),
                self.ok(*s, slots@, positions@),
                w.layers@.len() == s.num_layers,
                out@ == self.layers_ops(*s, *w, slots@, positions@, l as nat),
            decreases s.num_layers - l,
        {
            let ghost before = out@;
            s.push_front(&mut out, &w.layers[l], positions);
            self.push_cache_part(&mut out, s, l, slots, positions);
            s.push_back(&mut out, &w.layers[l], positions.len());
            assert(out@ =~= before + self.layer_ops(
                *s,
                w.layers@[l as int],
                l as int,
                slots@,
                positions@,
            ));
            l = l + 1;
        }
        s.push_finish(&mut out, w.norm, w.lm_head, positions.len());
        out
    }
}

impl PoolView {
    /// Byte offset of a block in the regions; zero for an index that is not in
    /// use.
    pub open spec fn block_start(self, block_idx: u32) -> int {
        if block_idx < self.blocks.len() && self.blocks[block_idx as int].in_use {
            self.blocks[block_idx as int].va_offset as int / HALF_BYTES as int * HALF_BYTES
        } else {
            0
        }
    }

    /// Every listed sequence has a block for its position, and the position an
    /// offset.
    pub open spec fn rows_ok(
        self,
        kv_dim: int,
        seq_indices: Seq<usize>,
        positions: Seq<usize>,
    ) -> bool {
        &&& seq_indices.len() == positions.len()
        &&& self.shape.block_size * kv_dim * HALF_BYTES <= usize::MAX
        &&& forall|b: int|
            0 <= b < positions.len() ==> {
                let table = self.sequences[seq_indices[b] as int].block_table;
                let lb = #[trigger] positions[b] as int / self.shape.block_size as int;
                &&& seq_indices[b] < self.sequences.len()
                &&& lb < table.len()
                &&& self.block_start(table[lb]) + self.shape.block_size * kv_dim * HALF_BYTES
                    <= u64::MAX
            }
    }

    /// Write row `b` of K and V to position `position` of a sequence.
    pub open spec fn paged_write(
        self,
        s: LlamaShape,
        layer: int,
        b: int,
        seq_idx: usize,
        position: usize,
    ) -> Op {
        let bs = self.shape.block_size as int;
        let block = self.sequences[seq_idx as int].block_table[position as int / bs];
        let at = (self.block_start(block) + (position as int % bs) * s.kv_dim()
            * HALF_BYTES) as u64;
        Op::WriteKv {
            src_offset: (b * s.kv_dim()) as usize,
            elems: s.kv_dim() as usize,
            dst_k: self.va_k[layer].wrapping_add(at),
            dst_v: self.va_v[layer].wrapping_add(at),
        }
    }

    /// The operations of a layer.
    pub open spec fn paged_layer_ops(
        self,
        s: LlamaShape,
        lw: LayerWeights,
        layer: int,
        seq_indices: Seq<usize>,
        positions: Seq<usize>,
    ) -> Seq<Op> {
        let m = positions.len();
        s.front(lw, positions) + Seq::new(
            m,
            |b: int| self.paged_write(s, layer, b, seq_indices[b], positions[b]),
        ) + seq![
            Op::Alloc { buf: Buf::Attn, elems: s.elems(Buf::Attn, m as int) as usize },
            Op::PagedAttend { va_k: self.va_k[layer], va_v: self.va_v[layer] },
        ] + s.back(lw, m as usize)
    }

    /// The operations of the first `n` layers.
    pub open spec fn paged_layers_ops(
        self,
        s: LlamaShape,
        w: LlamaWeights,
        seq_indices: Seq<usize>,
        positions: Seq<usize>,
        n: nat,
    ) -> Seq<Op>
        decreases n,
    {
        if n == 0 {
            Seq::empty()
        } else {
            self.paged_layers_ops(s, w, seq_indices, positions, (n - 1) as nat)
                + self.paged_layer_ops(s, w.layers@[n - 1], n - 1, seq_indices, positions)
        }
    }

    /// Entry `j` of the table of row `b` that attention reads, of `max`
    /// entries: the sequence's block, or zero behind its last.
    pub open spec fn table_entry(self, seq_idx: usize, j: int) -> i32 {
        let table = self.sequences[seq_idx as int].block_table;
        if j < table.len() {
            table[j] as i32
        } else {
            0
        }
    }
}

impl KcmmPool {
    /// Append the writes of the new rows of a layer.
    fn push_writes(
        &self,
        out: &mut Vec<Op>,
        s: &LlamaShape,
        layer: usize,
        seq_indices: &Vec<usize>,
        positions: &Vec<usize>,
    )
        requires
            self.wf(),
            s.fits(positions@.len() as int),
            self@.rows_ok(s.kv_dim(), seq_indices@, positions@),
            layer < self@.va_k.len(),
            layer < self@.va_v.len(),
        ensures
            final(out)@ == old(out)@ + Seq::new(
                positions@.len(),
                |b: int| self@.paged_write(*s, layer as int, b, seq_indices@[b], positions@[b]),
            ),
    {
        let m: usize = positions.len();
        let kvd: usize = s.kv_heads * s.head_dim;
        let bs: usize = self.block_size();
        let offsets: Vec<u64> = self.get_all_block_offsets_f16();
        let kp: u64 = self.va_k(layer);
        let vp: u64 = self.va_v(layer);
        let ghost writes = Seq::new(
            positions@.len(),
            |b: int| self@.paged_write(*s, layer as int, b, seq_indices@[b], positions@[b]),
        );
        let mut b: usize = 0;
        while b < m
            invariant
                b <= m,
                m == positions@.len(),
                kvd == s.kv_dim(),
                bs == self@.shape.block_size,
                kp == self@.va_k[layer as int],
                vp == self@.va_v[layer as int],
                self.wf(),
                s.fits(m as int),
                self@.rows_ok(s.kv_dim(), seq_indices@, positions@),
                offsets@.len() == self@.blocks.len(),
                forall|i: int|
                    0 <= i < offsets@.len() ==> #[trigger] offsets@[i] == if self@.blocks[i].in_use {
                        self@.blocks[i].va_offset as int / HALF_BYTES as int
                    } else {
                        0
                    },
                writes == Seq::new(
                    positions@.len(),
                    |i: int| self@.paged_write(*s, layer as int, i, seq_indices@[i], positions@[i]),
                ),
                out@ == old(out)@ + writes.take(b as int),
            decreases m - b,
        {
            let seq_idx: usize = seq_indices[b];
            let pos: usize = positions[b];
            assert(self@.sequences[seq_idx as int] == self.sequences@[seq_idx as int]@);
            let lb: usize = pos / bs;
            let off: usize = pos % bs;
            let block_idx: u32 = self.sequences[seq_idx].block_table[lb];
            let va_off: u64 = if (block_idx as usize) < offsets.len() {
                offsets[block_idx as usize].wrapping_mul(2)
            } else {
                0
            };
            proof {
                lemma_row_fits(b as int, m as int, kvd as int);
                lemma_row_fits(off as int, bs as int, kvd as int);
                assert(offsets@.len() > block_idx ==> 2 * offsets@[block_idx as int]
                    <= self@.blocks[block_idx as int].va_offset || offsets@[block_idx as int]
                    == 0);
                assert(va_off == self@.block_start(block_idx));
            }
            let at: u64 = va_off + (off * kvd * HALF_BYTES) as u64;
            out.push(
                Op::WriteKv {
                    src_offset: b * kvd,
                    elems: kvd,
                    dst_k: kp.wrapping_add(at),
                    dst_v: vp.wrapping_add(at),
                },
            );
            assert(writes.take(b + 1) =~= writes.take(b as int).push(writes[b as int]));
            b = b + 1;
        }
        assert(writes.take(m as int) =~= writes);
    }

    /// The operations of one forward step of sequences at the given positions.
    pub fn plan_forward(
        &self,
        s: &LlamaShape,
        w: &LlamaWeights,
        seq_indices: &Vec<usize>,
        positions: &Vec<usize>,
    ) -> (r: Vec<Op>)
        requires
            self.wf(),
            s.fits(positions@.len() as int),
            self@.rows_ok(s.kv_dim(), seq_indices@, positions@),
            s.num_layers <= self@.va_k.len(),
            s.num_layers <= self@.va_v.len(),
            w.layers@.len() == s.num_layers,
        ensures
            r@ == self@.paged_layers_ops(
                *s,
                *w,
                seq_indices@,
                positions@,
                s.num_layers as nat,
            ) + s.finish(w.norm, w.lm_head, positions@.len() as usize),
    {
        let m: usize = positions.len();
        let mut out: Vec<Op> = Vec::new();
        let mut l: usize = 0;
        while l < s.num_layers
            invariant
                l <= s.num_layers,
                m == positions@.len(),
                self.wf(),
                s.fits(m as int),
                self@.rows_ok(s.kv_dim(), seq_indices@, positions@),
                s.num_layers <= self@.va_k.len(),
                s.num_layers <= self@.va_v.len(),
                w.layers@.len() == s.num_layers,
                out@ == self@.paged_layers_ops(*s, *w, seq_indices@, positions@, l as nat),
            decreases s.num_layers - l,
        {
            let ghost before = out@;
            s.push_front(&mut out, &w.layers[l], positions);
            self.push_writes(&mut out, s, l, seq_indices, positions);
            out.push(Op::Alloc { buf: Buf::Attn, elems: m * s.hidden });
            out.push(Op::PagedAttend { va_k: self.va_k(l), va_v: self.va_v(l) });
            s.push_back(&mut out, &w.layers[l], m);
            assert(out@ =~= before + self@.paged_layer_ops(
                *s,
                w.layers@[l as int],
                l as int,
                seq_indices@,
                positions@,
            ));
            l = l + 1;
        }
        s.push_finish(&mut out, w.norm, w.lm_head, m);
        out
    }

    /// What attention reads of the listed sequences: their block tables, each
    /// padded or cut to the same length, and their lengths.
    pub fn attention_tables(&self, seq_indices: &Vec<usize>) -> (r: (Vec<i32>, Vec<i32>))
        requires
            forall|b: int|
                0 <= b < seq_indices@.len() ==> (#[trigger] seq_indices@[b])
                    < self@.sequences.len(),
            seq_indices@.len() * self@.shape.max_blocks_per_seq <= usize::MAX,
        ensures
            r.0@.len() == seq_indices@.len() * self@.shape.max_blocks_per_seq,
            forall|b: int, j: int|
                0 <= b < seq_indices@.len() && 0 <= j < self@.shape.max_blocks_per_seq
                    ==> #[trigger] r.0@[b * self@.shape.max_blocks_per_seq + j]
                    == self@.table_entry(seq_indices@[b], j),
            r.1@.len() == seq_indices@.len(),
            forall|b: int|
                0 <= b < seq_indices@.len() ==> #[trigger] r.1@[b]
                    == self@.sequences[seq_indices@[b] as int].seq_len as i32,
    {
        let max: usize = self.max_blocks_per_seq();
        let mut tables: Vec<i32> = Vec::new();
        let mut lens: Vec<i32> = Vec::new();
        let mut b: usize = 0;
        assert(0 * max == 0);
        while b < seq_indices.len()
            invariant
                b <= seq_indices@.len(),
                max == self@.shape.max_blocks_per_seq,
                forall|i: int|
                    0 <= i < seq_indices@.len() ==> (#[trigger] seq_indices@[i])
                        < self@.sequences.len(),
                tables@.len() == b * max,
                forall|i: int, j: int|
                    0 <= i < b && 0 <= j < max ==> #[trigger] tables@[i * max + j]
                        == self@.table_entry(seq_indices@[i], j),
                lens@.len() == b,
                forall|i: int|
                    0 <= i < b ==> #[trigger] lens@[i]
                        == self@.sequences[seq_indices@[i] as int].seq_len as i32,
            decreases seq_indices@.len() - b,
        {
            let seq_idx: usize = seq_indices[b];
            assert(self@.sequences[seq_idx as int] == self.sequences@[seq_idx as int]@);
            let table: &Vec<u32> = &self.sequences[seq_idx].block_table;
            lens.push(self.sequences[seq_idx].seq_len as i32);
            let ghost before = tables@;
            let mut j: usize = 0;
            while j < max
                invariant
                    j <= max,
                    table@ == self@.sequences[seq_idx as int].block_table,
                    tables@.len() == b * max + j,
                    before.len() == b * max,
                    forall|i: int| 0 <= i < before.len() ==> #[trigger] tables@[i] == before[i],
                    forall|i: int|
                        0 <= i < j ==> #[trigger] tables@[b * max + i] == self@.table_entry(
                            seq_idx,
                            i,
                        ),
                decreases max - j,
            {
                let entry: i32 = if j < table.len() {
                    table[j] as i32
                } else {
                    0
                };
                tables.push(entry);
                j = j + 1;
            }
            proof {
                assert((b + 1) * max == b * max + max) by (nonlinear_arith);
                assert forall|i: int, k: int| 0 <= i < b + 1 && 0 <= k < max implies #[trigger] tables@[i
                    * max + k] == self@.table_entry(seq_indices@[i], k) by {
                    if i < b {
                        lemma_row_fits(i, b as int, max as int);
                        assert(tables@[i * max + k] == before[i * max + k]);
                    }
                }
            }
            b = b + 1;
        }
        (tables, lens)
    }
}

impl PagedKvCache {
    /// The operations of one forward step of sequences at the given positions.
    pub fn plan_forward(
        &self,
        s: &LlamaShape,
        w: &LlamaWeights,
        seq_indices: &Vec<usize>,
        positions: &Vec<usize>,
    ) -> (r: Vec<Op>)
        requires
            self.wf(),
            s.fits(positions@.len() as int),
            self@.rows_ok(s.kv_dim(), seq_indices@, positions@),
            s.num_layers <= self@.va_k.len(),
            s.num_layers <= self@.va_v.len(),
            w.layers@.len() == s.num_layers,
        ensures
            r@ == self@.paged_layers_ops(
                *s,
                *w,
                seq_indices@,
                positions@,
                s.num_layers as nat,
            ) + s.finish(w.norm, w.lm_head, positions@.len() as usize),
    {
        self.pool.plan_forward(s, w, seq_indices, positions)
    }

    /// What attention reads of the listed sequences: their block tables, each
    /// padded or cut to the same length, and their lengths.
    pub fn attention_tables(&self, seq_indices: &Vec<usize>) -> (r: (Vec<i32>, Vec<i32>))
        requires
            forall|b: int|
                0 <= b < seq_indices@.len() ==> (#[trigger] seq_indices@[b])
                    < self@.sequences.len(),
            seq_indices@.len() * self@.shape.max_blocks_per_seq <= usize::MAX,
        ensures
            r.0@.len() == seq_indices@.len() * self@.shape.max_blocks_per_seq,
            forall|b: int, j: int|
                0 <= b < seq_indices@.len() && 0 <= j < self@.shape.max_blocks_per_seq
                    ==> #[trigger] r.0@[b * self@.shape.max_blocks_per_seq + j]
                    == self@.table_entry(seq_indices@[b], j),
            r.1@.len() == seq_indices@.len(),
            forall|b: int|
                0 <= b < seq_indices@.len() ==> #[trigger] r.1@[b]
                    == self@.sequences[seq_indices@[b] as int].seq_len as i32,
    {
        self.pool.attention_tables(seq_indices)
    }
}

/// Copy one row of the embeddings to a row of the hidden state.
#[derive(Debug, Clone, Copy, PartialEq, Eq, Structural)]
pub struct EmbedCopy {
    pub src: u64,
    /// Row of the hidden state, in elements.
    pub dst_offset: usize,
    pub nbytes: usize,
}

/// The copy of a token's embedding to row `b`.
pub open spec fn embed_copy(embed_ptr: u64, hidden: usize, b: int, token: u32) -> EmbedCopy {
    EmbedCopy {
        src: embed_ptr.wrapping_add((token * hidden * HALF_BYTES) as u64),
        dst_offset: (b * hidden) as usize,
        nbytes: (hidden * HALF_BYTES) as usize,
    }
}

/// The copies that embed the tokens of all rows.
pub fn plan_embed(embed_ptr: u64, hidden: usize, tokens: &Vec<u32>) -> (r: Vec<EmbedCopy>)
    requires
        hidden * HALF_BYTES <= usize::MAX,
        tokens@.len() * hidden <= usize::MAX,
        forall|b: int|
            0 <= b < tokens@.len() ==> (#[trigger] tokens@[b]) * hidden * HALF_BYTES <= usize::MAX,
    ensures
        r@ == Seq::new(tokens@.len(), |b: int| embed_copy(embed_ptr, hidden, b, tokens@[b])),
{
    let ghost want = Seq::new(
        tokens@.len(),
        |b: int| embed_copy(embed_ptr, hidden, b, tokens@[b]),
    );
    let mut out: Vec<EmbedCopy> = Vec::new();
    let mut b: usize = 0;
    while b < tokens.len()
        invariant
            b <= tokens@.len(),
            hidden * HALF_BYTES <= usize::MAX,
            tokens@.len() * hidden <= usize::MAX,
            forall|i: int|
                0 <= i < tokens@.len() ==> (#[trigger] tokens@[i]) * hidden * HALF_BYTES
                    <= usize::MAX,
            want == Seq::new(tokens@.len(), |i: int| embed_copy(embed_ptr, hidden, i, tokens@[i])),
            out@ == want.take(b as int),
        decreases tokens@.len() - b,
    {
        let token: u32 = tokens[b];
        proof {
            lemma_row_fits(b as int, tokens@.len() as int, hidden as int);
            assert(0 <= token * hidden) by (nonlinear_arith)
                requires
                    0 <= token,
                    0 <= hidden,
            ;
            assert(token * hidden <= token * hidden * HALF_BYTES);
            assert(0 <= token as usize);
        }
        out.push(
            EmbedCopy {
                src: embed_ptr.wrapping_add((token as usize * hidden * HALF_BYTES) as u64),
                dst_offset: b * hidden,
                nbytes: hidden * HALF_BYTES,
            },
        );
        b = b + 1;
    }
    assert(want.take(tokens@.len() as int) =~= want);
    out
}

/// Both parts of an offset are no larger than the whole.
proof fn lemma_offset_parts(slot: int, stride: int, pos: int, kvd: int)
    requires
        0 <= slot,
        0 <= stride,
        0 <= pos,
        0 <= kvd,
    ensures
        0 <= slot * stride <= slot * stride + pos * kvd,
        0 <= pos * kvd <= slot * stride + pos * kvd,
        slot * stride + pos * kvd <= (slot * stride + pos * kvd) * HALF_BYTES,
        slot * stride * HALF_BYTES <= (slot * stride + pos * kvd) * HALF_BYTES,
{
    assert(0 <= slot * stride) by (nonlinear_arith)
        requires
            0 <= slot,
            0 <= stride,
    ;
    assert(0 <= pos * kvd) by (nonlinear_arith)
        requires
            0 <= pos,
            0 <= kvd,
    ;
}

/// A row lies within all rows.
proof fn lemma_row_fits(b: int, m: int, width: int)
    requires
        0 <= b < m,
        0 <= width,
    ensures
        0 <= b * width,
        b * width + width <= m * width,
{
    assert(b * width + width <= m * width) by (nonlinear_arith)
        requires
            0 <= b < m,
            0 <= width,
    ;
    assert(0 <= b * width) by (nonlinear_arith)
        requires
            0 <= b,
            0 <= width,
    ;
}

} // verus!
