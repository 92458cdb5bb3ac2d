use vstd::prelude::*;

use crate::kcmm::append_laws;
use crate::kcmm::pool_model::PoolView;
use crate::kcmm::superblock::SUPERBLOCK_SIZE;
use crate::model::llama_laws;
use crate::model::llama_transformer::{LayerWeights, LlamaWeights};
use crate::model::meaning;
use crate::model::meaning::{Kernels, Machine};
use crate::model::program;
use crate::model::program::{Buf, ContigCache, EmbedCopy, LlamaShape, Op};

verus! {

/// The rows that a model works on, and the memory of its caches.
pub struct Flow {
    pub rows: Seq<Seq<int>>,
    pub mem: spec_fn(int) -> int,
}

/// The rows of the hidden state of a machine, and its memory.
pub open spec fn flow_of(st: Machine, s: LlamaShape, m: int) -> Flow {
    Flow {
        rows: Seq::new(m as nat, |b: int| meaning::row((st.bufs)(Buf::Hidden), b, s.hidden as int)),
        mem: st.mem,
    }
}

/// Memory after the first `n` keys and values were written to their places,
/// one row after the other.
pub open spec fn stored(
    mem: spec_fn(int) -> int,
    keys: Seq<Seq<int>>,
    values: Seq<Seq<int>>,
    k_places: Seq<int>,
    v_places: Seq<int>,
    n: nat,
) -> spec_fn(int) -> int
    decreases n,
{
    if n == 0 {
        mem
    } else {
        let before = stored(mem, keys, values, k_places, v_places, (n - 1) as nat);
        meaning::put(
            meaning::put(before, k_places[n - 1], keys[n - 1]),
            v_places[n - 1],
            values[n - 1],
        )
    }
}

/// The keys of all rows.
pub open spec fn keys_of(
    a: Kernels,
    s: LlamaShape,
    lw: LayerWeights,
    positions: Seq<usize>,
    rows: Seq<Seq<int>>,
) -> Seq<Seq<int>> {
    Seq::new(rows.len(), |b: int| llama_laws::key(a, s, lw, rows[b], positions[b]))
}

/// The values of all rows.
pub open spec fn values_of(
    a: Kernels,
    s: LlamaShape,
    lw: LayerWeights,
    rows: Seq<Seq<int>>,
) -> Seq<Seq<int>> {
    Seq::new(rows.len(), |b: int| llama_laws::value(a, s, lw, rows[b]))
}

/// Operation `b` writes row `b` of K and V to the given places.
pub open spec fn writes_row(s: LlamaShape, op: Op, b: int, k_place: int, v_place: int) -> bool {
    &&& op matches Op::WriteKv { src_offset, elems, dst_k, dst_v }
    &&& src_offset == b * (s.kv_heads * s.head_dim)
    &&& elems == s.kv_heads * s.head_dim
    &&& dst_k == k_place
    &&& dst_v == v_place
}

/// The writes of the first `n` rows.
proof fn lemma_writes(
    a: Kernels,
    s: LlamaShape,
    st: Machine,
    ops: Seq<Op>,
    keys: Seq<Seq<int>>,
    values: Seq<Seq<int>>,
    k_places: Seq<int>,
    v_places: Seq<int>,
    n: nat,
)
    requires
        n <= ops.len(),
        forall|b: int|
            0 <= b < ops.len() ==> writes_row(s, #[trigger] ops[b], b, k_places[b], v_places[b]),
        forall|b: int|
            0 <= b < ops.len() ==> #[trigger] meaning::row(
                (st.bufs)(Buf::K),
                b,
                s.kv_heads * s.head_dim,
            ) == keys[b],
        forall|b: int|
            0 <= b < ops.len() ==> #[trigger] meaning::row(
                (st.bufs)(Buf::V),
                b,
                s.kv_heads * s.head_dim,
            ) == values[b],
    ensures
        st.run(a, s, ops, n).bufs == st.bufs,
        st.run(a, s, ops, n).mem == stored(st.mem, keys, values, k_places, v_places, n),
    decreases n,
{
    if n > 0 {
        lemma_writes(a, s, st, ops, keys, values, k_places, v_places, (n - 1) as nat);
        let kvd = s.kv_heads * s.head_dim;
        assert(writes_row(s, ops[n - 1], n - 1, k_places[n - 1], v_places[n - 1]));
        assert(meaning::row((st.bufs)(Buf::K), n - 1, kvd) == keys[n - 1]);
        assert(meaning::row((st.bufs)(Buf::V), n - 1, kvd) == values[n - 1]);
    }
}

/// Address of a position of a slot in a layer that starts at `base`: a slot
/// has `stride` elements and a position those of all heads.
pub open spec fn slot_place(s: LlamaShape, base: u64, stride: usize, slot: usize, pos: int) -> int {
    base + 2 * (slot * stride + pos * (s.kv_heads * s.head_dim))
}

/// The attention of a row over its slot: over all positions up to its own. A
/// row at the first position attends to nothing.
pub open spec fn slot_attention(
    a: Kernels,
    s: LlamaShape,
    query: Seq<int>,
    mem: spec_fn(int) -> int,
    k_start: int,
    v_start: int,
    position: usize,
) -> Seq<int> {
    let heads = s.num_heads * s.head_dim;
    let seen = (position + 1) * (s.kv_heads * s.head_dim);
    Seq::new(
        s.hidden as nat,
        |j: int|
            if position == 0 || j >= heads {
                0
            } else {
                (a.attend)(
                    query.take(heads),
                    meaning::read(mem, k_start, seen),
                    meaning::read(mem, v_start, seen),
                    (position + 1) as usize,
                    j,
                )
            },
    )
}

/// A layer over contiguous slots: the keys and values of the rows go to their
/// places, and each row attends over its slot.
pub open spec fn contig_layer(
    a: Kernels,
    s: LlamaShape,
    cache: ContigCache,
    lw: LayerWeights,
    layer: int,
    slots: Seq<usize>,
    positions: Seq<usize>,
    f: Flow,
) -> Flow {
    let k_base = cache.k_layers@[layer];
    let v_base = cache.v_layers@[layer];
    let n = f.rows.len();
    let mem = stored(
        f.mem,
        keys_of(a, s, lw, positions, f.rows),
        values_of(a, s, lw, f.rows),
        Seq::new(n, |b: int| slot_place(s, k_base, cache.stride, slots[b], positions[b] as int)),
        Seq::new(n, |b: int| slot_place(s, v_base, cache.stride, slots[b], positions[b] as int)),
        n,
    );
    Flow {
        rows: Seq::new(
            n,
            |b: int|
                llama_laws::layer_row(
                    a,
                    s,
                    lw,
                    f.rows[b],
                    slot_attention(
                        a,
                        s,
                        llama_laws::query(a, s, lw, f.rows[b], positions[b]),
                        mem,
                        slot_place(s, k_base, cache.stride, slots[b], 0),
                        slot_place(s, v_base, cache.stride, slots[b], 0),
                        positions[b],
                    ),
                ),
        ),
        mem,
    }
}

/// The first `n` layers over contiguous slots.
pub open spec fn contig_layers(
    a: Kernels,
    s: LlamaShape,
    cache: ContigCache,
    w: LlamaWeights,
    slots: Seq<usize>,
    positions: Seq<usize>,
    f: Flow,
    n: nat,
) -> Flow
    decreases n,
{
    if n == 0 {
        f
    } else {
        contig_layer(
            a,
            s,
            cache,
            w.layers@[n - 1],
            n - 1,
            slots,
            positions,
            contig_layers(a, s, cache, w, slots, positions, f, (n - 1) as nat),
        )
    }
}

/// The logits of a row: normalised, times the head.
pub open spec fn logits(a: Kernels, s: LlamaShape, w: LlamaWeights, x: Seq<int>) -> Seq<int> {
    llama_laws::times(a, llama_laws::normed(a, w.norm, x), w.lm_head, s.vocab as int)
}

/// Every address of a layer can be computed.
pub open spec fn contig_addressed(
    cache: ContigCache,
    s: LlamaShape,
    layer: int,
    slots: Seq<usize>,
    positions: Seq<usize>,
) -> bool {
    forall|b: int|
        0 <= b < positions.len() ==> slot_place(
            s,
            cache.k_layers@[layer],
            cache.stride,
            #[trigger] slots[b],
            positions[b] as int,
        ) <= u64::MAX && slot_place(
            s,
            cache.v_layers@[layer],
            cache.stride,
            slots[b],
            positions[b] as int,
        ) <= u64::MAX
}

/// The addresses of a slot.
proof fn lemma_slot_places(
    cache: ContigCache,
    s: LlamaShape,
    layer: int,
    slots: Seq<usize>,
    positions: Seq<usize>,
    b: int,
)
    requires
        cache.ok(s, slots, positions),
        contig_addressed(cache, s, layer, slots, positions),
        positions.len() <= usize::MAX,
        s.fits(positions.len() as int),
        0 <= b < positions.len(),
    ensures
        writes_row(
            s,
            cache.write(s, layer, b, slots[b], positions[b]),
            b,
            slot_place(s, cache.k_layers@[layer], cache.stride, slots[b], positions[b] as int),
            slot_place(s, cache.v_layers@[layer], cache.stride, slots[b], positions[b] as int),
        ),
        ({
            let op = cache.attend(s, layer, b, slots[b], positions[b]);
            &&& op matches Op::Attend { offset, len, k_start, v_start, cache_len, seq_len }
            &&& offset == b * s.hidden
            &&& len == s.num_heads * s.head_dim
            &&& k_start == slot_place(s, cache.k_layers@[layer], cache.stride, slots[b], 0)
            &&& v_start == slot_place(s, cache.v_layers@[layer], cache.stride, slots[b], 0)
            &&& cache_len == (positions[b] + 1) * (s.kv_heads * s.head_dim)
            &&& seq_len == positions[b] + 1
        }),
{
    let m = positions.len() as int;
    let kvd = s.kv_dim();
    let slot = slots[b] as int;
    let pos = positions[b] as int;
    let stride = cache.stride as int;
    assert(0 <= kvd && 0 <= s.num_heads * s.head_dim) by (nonlinear_arith)
        requires
            kvd == s.kv_heads * s.head_dim,
    ;
    assert(0 <= slot * stride) by (nonlinear_arith)
        requires
            0 <= slot,
            0 <= stride,
    ;
    assert(0 <= pos * kvd) by (nonlinear_arith)
        requires
            0 <= pos,
            0 <= kvd,
    ;
    assert(0 * kvd == 0);
    meaning::lemma_row_within(b, kvd, m);
    meaning::lemma_row_within(b, s.hidden as int, m);
    assert(s.kv_heads * (pos + 1) * s.head_dim == (pos + 1) * kvd) by (nonlinear_arith)
        requires
            kvd == s.kv_heads * s.head_dim,
    ;
    assert(slot_place(s, cache.k_layers@[layer], cache.stride, slots[b], positions[b] as int)
        <= u64::MAX);
    assert(positions[b] < usize::MAX);
}

/// The attention of the first `n` rows over their slots.
proof fn lemma_attends(
    a: Kernels,
    cache: ContigCache,
    s: LlamaShape,
    layer: int,
    slots: Seq<usize>,
    positions: Seq<usize>,
    st: Machine,
    n: nat,
)
    requires
        cache.ok(s, slots, positions),
        contig_addressed(cache, s, layer, slots, positions),
        positions.len() <= usize::MAX,
        s.fits(positions.len() as int),
        n <= positions.len(),
        llama_laws::sized(st, Buf::Attn, positions.len() as int, s.hidden as int),
        llama_laws::sized(st, Buf::Q, positions.len() as int, s.hidden as int),
        (st.bufs)(Buf::Attn) == Seq::new((st.bufs)(Buf::Attn).len(), |i: int| 0int),
    ensures
        ({
            let t = st.ran(a, s, cache.attends(s, layer, slots, positions, n));
            let h = s.hidden as int;
            &&& llama_laws::same_but(st, t, Buf::Attn)
            &&& llama_laws::sized(t, Buf::Attn, positions.len() as int, h)
            &&& forall|b: int|
                0 <= b < n ==> #[trigger] meaning::row((t.bufs)(Buf::Attn), b, h)
                    == slot_attention(
                    a,
                    s,
                    meaning::row((st.bufs)(Buf::Q), b, h),
                    st.mem,
                    slot_place(s, cache.k_layers@[layer], cache.stride, slots[b], 0),
                    slot_place(s, cache.v_layers@[layer], cache.stride, slots[b], 0),
                    positions[b],
                )
            &&& forall|b: int|
                n <= b < positions.len() ==> #[trigger] meaning::row((t.bufs)(Buf::Attn), b, h)
                    == Seq::new(h as nat, |j: int| 0int)
        }),
    decreases n,
{
    let m = positions.len() as int;
    let h = s.hidden as int;
    let zeros = Seq::new(h as nat, |j: int| 0int);
    if n == 0 {
        assert forall|b: int| 0 <= b < m implies #[trigger] meaning::row(
            (st.bufs)(Buf::Attn),
            b,
            h,
        ) == zeros by {
            meaning::lemma_row_within(b, h, m);
            assert(meaning::row((st.bufs)(Buf::Attn), b, h) =~= zeros);
        }
    } else {
        let c = n - 1;
        lemma_attends(a, cache, s, layer, slots, positions, st, c as nat);
        let before = cache.attends(s, layer, slots, positions, c as nat);
        let u = st.ran(a, s, before);
        let q = meaning::row((st.bufs)(Buf::Q), c, h);
        let k_start = slot_place(s, cache.k_layers@[layer], cache.stride, slots[c], 0);
        let v_start = slot_place(s, cache.v_layers@[layer], cache.stride, slots[c], 0);
        let want = slot_attention(a, s, q, st.mem, k_start, v_start, positions[c]);
        if positions[c] == 0 {
            assert(want =~= zeros);
        } else {
            let op = cache.attend(s, layer, c, slots[c], positions[c]);
            lemma_slot_places(cache, s, layer, slots, positions, c);
            assert(before.push(op) =~= before + seq![op]);
            st.lemma_ran_joined(a, s, before, seq![op]);
            let t = u.after(a, s, op);
            assert(u.ran(a, s, seq![op]) == t) by {
                reveal_with_fuel(Machine::run, 2);
            }
            let heads = s.num_heads * s.head_dim;
            assert(0 <= heads) by (nonlinear_arith)
                requires
                    heads == s.num_heads * s.head_dim,
            ;
            meaning::lemma_row_within(c, h, m);
            assert((u.bufs)(Buf::Q) == (st.bufs)(Buf::Q));
            assert((u.bufs)(Buf::Q).subrange(c * h, c * h + heads) =~= q.take(heads));
            let x = (t.bufs)(Buf::Attn);
            let y = (u.bufs)(Buf::Attn);
            assert(meaning::row(y, c, h) == zeros);
            assert forall|j: int| 0 <= j < h implies meaning::row(x, c, h)[j] == want[j] by {
                if j >= heads {
                    assert(x[c * h + j] == y[c * h + j]);
                    assert(meaning::row(y, c, h)[j] == y[c * h + j]);
                }
            }
            assert(meaning::row(x, c, h) =~= want);
            assert forall|b: int| 0 <= b < m && b != c implies #[trigger] meaning::row(x, b, h)
                == meaning::row(y, b, h) by {
                meaning::lemma_row_within(b, h, m);
                meaning::lemma_rows_apart(b, c, h);
                assert(meaning::row(x, b, h) =~= meaning::row(y, b, h));
            }
        }
    }
}

/// A layer over contiguous slots does what the layer is.
pub proof fn law_contiguous_layer_is_llama(
    a: Kernels,
    s: LlamaShape,
    cache: ContigCache,
    lw: LayerWeights,
    layer: int,
    slots: Seq<usize>,
    positions: Seq<usize>,
    st: Machine,
)
    requires
        positions.len() <= usize::MAX,
        s.fits(positions.len() as int),
        cache.ok(s, slots, positions),
        contig_addressed(cache, s, layer, slots, positions),
        llama_laws::sized(st, Buf::Hidden, positions.len() as int, s.hidden as int),
    ensures
        ({
            let m = positions.len() as int;
            let t = st.ran(a, s, cache.layer_ops(s, lw, layer, slots, positions));
            let want = contig_layer(a, s, cache, lw, layer, slots, positions, flow_of(st, s, m));
            &&& llama_laws::sized(t, Buf::Hidden, m, s.hidden as int)
            &&& flow_of(t, s, m).rows == want.rows
            &&& t.mem == want.mem
        }),
{
    let m = positions.len() as int;
    let h = s.hidden as int;
    let f = flow_of(st, s, m);
    let front = s.front(lw, positions);
    let writes = Seq::new(
        positions.len(),
        |b: int| cache.write(s, layer, b, slots[b], positions[b]),
    );
    let alloc = seq![Op::Alloc { buf: Buf::Attn, elems: s.elems(Buf::Attn, m) as usize }];
    let attends = cache.attends(s, layer, slots, positions, positions.len());
    let back = s.back(lw, m as usize);
    st.lemma_ran_joined(a, s, front, writes);
    st.lemma_ran_joined(a, s, front + writes, alloc);
    st.lemma_ran_joined(a, s, front + writes + alloc, attends);
    st.lemma_ran_joined(a, s, front + writes + alloc + attends, back);
    let s1 = st.ran(a, s, front);
    let s2 = s1.ran(a, s, writes);
    let s3 = s2.ran(a, s, alloc);
    let s4 = s3.ran(a, s, attends);
    let s5 = s4.ran(a, s, back);
    llama_laws::lemma_front(a, s, lw, positions, st);
    let keys = keys_of(a, s, lw, positions, f.rows);
    let values = values_of(a, s, lw, f.rows);
    let k_base = cache.k_layers@[layer];
    let v_base = cache.v_layers@[layer];
    let k_places = Seq::new(
        f.rows.len(),
        |b: int| slot_place(s, k_base, cache.stride, slots[b], positions[b] as int),
    );
    let v_places = Seq::new(
        f.rows.len(),
        |b: int| slot_place(s, v_base, cache.stride, slots[b], positions[b] as int),
    );
    lemma_front_rows(a, s, lw, positions, st, s1);
    assert forall|b: int| 0 <= b < writes.len() implies writes_row(
        s,
        #[trigger] writes[b],
        b,
        k_places[b],
        v_places[b],
    ) by {
        lemma_slot_places(cache, s, layer, slots, positions, b);
    }
    lemma_writes(a, s, s1, writes, keys, values, k_places, v_places, positions.len());
    assert(0 <= m * h) by (nonlinear_arith)
        requires
            0 <= m,
            0 <= h,
    ;
    assert(s3 == s2.after(a, s, alloc[0])) by {
        reveal_with_fuel(Machine::run, 2);
    }
    assert((s3.bufs)(Buf::Q) == (s1.bufs)(Buf::Q));
    lemma_attends(a, cache, s, layer, slots, positions, s3, positions.len());
    assert((s4.bufs)(Buf::Residual) == (st.bufs)(Buf::Hidden)) by {
        assert((s4.bufs)(Buf::Residual) == (s3.bufs)(Buf::Residual));
    }
    assert((s4.bufs)(Buf::Hidden) == (s3.bufs)(Buf::Hidden));
    assert((s4.bufs)(Buf::Normed) == (s3.bufs)(Buf::Normed));
    llama_laws::lemma_back(a, s, lw, m as usize, s4);
    let want = contig_layer(a, s, cache, lw, layer, slots, positions, f);
    assert forall|b: int| 0 <= b < m implies flow_of(s5, s, m).rows[b] == want.rows[b] by {
        assert(meaning::row((s5.bufs)(Buf::Hidden), b, h) == llama_laws::layer_row(
            a,
            s,
            lw,
            meaning::row((s4.bufs)(Buf::Residual), b, h),
            meaning::row((s4.bufs)(Buf::Attn), b, h),
        ));
        assert(meaning::row((s1.bufs)(Buf::Q), b, h) == llama_laws::query(
            a,
            s,
            lw,
            f.rows[b],
            positions[b],
        ));
    }
    assert(flow_of(s5, s, m).rows =~= want.rows);
}

/// What the first part of a layer hands to the cache.
proof fn lemma_front_rows(
    a: Kernels,
    s: LlamaShape,
    lw: LayerWeights,
    positions: Seq<usize>,
    st: Machine,
    t: Machine,
)
    requires
        llama_laws::fronted(a, s, lw, positions, st, t),
    ensures
        ({
            let m = positions.len() as int;
            let rows = flow_of(st, s, m).rows;
            let kvd = s.kv_heads * s.head_dim;
            &&& forall|b: int|
                0 <= b < m ==> #[trigger] meaning::row((t.bufs)(Buf::K), b, kvd) == keys_of(
                    a,
                    s,
                    lw,
                    positions,
                    rows,
                )[b]
            &&& forall|b: int|
                0 <= b < m ==> #[trigger] meaning::row((t.bufs)(Buf::V), b, kvd) == values_of(
                    a,
                    s,
                    lw,
                    rows,
                )[b]
        }),
{
    let m = positions.len() as int;
    let h = s.hidden as int;
    let rows = flow_of(st, s, m).rows;
    let kvd = s.kv_heads * s.head_dim;
    assert forall|b: int| 0 <= b < m implies #[trigger] meaning::row((t.bufs)(Buf::K), b, kvd)
        == keys_of(a, s, lw, positions, rows)[b] by {
        assert(meaning::row((t.bufs)(Buf::Q), b, h) == llama_laws::query(
            a,
            s,
            lw,
            rows[b],
            positions[b],
        ));
    }
    assert forall|b: int| 0 <= b < m implies #[trigger] meaning::row((t.bufs)(Buf::V), b, kvd)
        == values_of(a, s, lw, rows)[b] by {
        assert(meaning::row((t.bufs)(Buf::Q), b, h) == llama_laws::query(
            a,
            s,
            lw,
            rows[b],
            positions[b],
        ));
    }
}

/// The layers of a step over contiguous slots.
proof fn lemma_contig_layers(
    a: Kernels,
    s: LlamaShape,
    cache: ContigCache,
    w: LlamaWeights,
    slots: Seq<usize>,
    positions: Seq<usize>,
    st: Machine,
    n: nat,
)
    requires
        positions.len() <= usize::MAX,
        s.fits(positions.len() as int),
        cache.ok(s, slots, positions),
        forall|l: int| 0 <= l < n ==> #[trigger] contig_addressed(cache, s, l, slots, positions),
        llama_laws::sized(st, Buf::Hidden, positions.len() as int, s.hidden as int),
    ensures
        ({
            let m = positions.len() as int;
            let t = st.ran(a, s, cache.layers_ops(s, w, slots, positions, n));
            let want = contig_layers(a, s, cache, w, slots, positions, flow_of(st, s, m), n);
            &&& llama_laws::sized(t, Buf::Hidden, m, s.hidden as int)
            &&& flow_of(t, s, m).rows == want.rows
            &&& t.mem == want.mem
        }),
    decreases n,
{
    if n > 0 {
        let before = cache.layers_ops(s, w, slots, positions, (n - 1) as nat);
        let last = cache.layer_ops(s, w.layers@[n - 1], n - 1, slots, positions);
        lemma_contig_layers(a, s, cache, w, slots, positions, st, (n - 1) as nat);
        let u = st.ran(a, s, before);
        st.lemma_ran_joined(a, s, before, last);
        assert(contig_addressed(cache, s, n - 1, slots, positions));
        law_contiguous_layer_is_llama(
            a,
            s,
            cache,
            w.layers@[n - 1],
            n - 1,
            slots,
            positions,
            u,
        );
        let m = positions.len() as int;
        assert(flow_of(u, s, m) == contig_layers(
            a,
            s,
            cache,
            w,
            slots,
            positions,
            flow_of(st, s, m),
            (n - 1) as nat,
        ));
    }
}

/// A forward step over contiguous slots is the Llama model: in each layer, K
/// is the normalised row times `k_proj`, rotated, V the normalised row times
/// `v_proj`; both go to the row's place in its slot; the rotated query attends
/// over the slot; the attention times `o_proj` is added to the row, and to the
/// result the down projection of the activated gate times the up projection of
/// the normalised sum. The logits are the normalised result times the head.
pub proof fn law_contiguous_step_is_llama(
    a: Kernels,
    s: LlamaShape,
    cache: ContigCache,
    w: LlamaWeights,
    slots: Seq<usize>,
    positions: Seq<usize>,
    st: Machine,
)
    requires
        positions.len() <= usize::MAX,
        s.fits(positions.len() as int),
        cache.ok(s, slots, positions),
        forall|l: int|
            0 <= l < s.num_layers ==> #[trigger] contig_addressed(cache, s, l, slots, positions),
        llama_laws::sized(st, Buf::Hidden, positions.len() as int, s.hidden as int),
    ensures
        ({
            let m = positions.len() as int;
            let ops = cache.layers_ops(s, w, slots, positions, s.num_layers as nat) + s.finish(
                w.norm,
                w.lm_head,
                m as usize,
            );
            let t = st.ran(a, s, ops);
            let end = contig_layers(
                a,
                s,
                cache,
                w,
                slots,
                positions,
                flow_of(st, s, m),
                s.num_layers as nat,
            );
            &&& t.mem == end.mem
            &&& forall|b: int|
                0 <= b < m ==> #[trigger] meaning::row((t.bufs)(Buf::Logits), b, s.vocab as int)
                    == logits(a, s, w, end.rows[b])
        }),
{
    let m = positions.len() as int;
    let layers = cache.layers_ops(s, w, slots, positions, s.num_layers as nat);
    let finish = s.finish(w.norm, w.lm_head, m as usize);
    lemma_contig_layers(a, s, cache, w, slots, positions, st, s.num_layers as nat);
    st.lemma_ran_joined(a, s, layers, finish);
    let u = st.ran(a, s, layers);
    llama_laws::lemma_finish(a, s, w.norm, w.lm_head, m as usize, u);
    let t = u.ran(a, s, finish);
    let end = contig_layers(
        a,
        s,
        cache,
        w,
        slots,
        positions,
        flow_of(st, s, m),
        s.num_layers as nat,
    );
    assert forall|b: int| 0 <= b < m implies #[trigger] meaning::row(
        (t.bufs)(Buf::Logits),
        b,
        s.vocab as int,
    ) == logits(a, s, w, end.rows[b]) by {
        assert(flow_of(u, s, m).rows[b] == end.rows[b]);
    }
}

/// The attention of row `b` over the blocks of its sequence.
pub open spec fn paged_attention(
    a: Kernels,
    s: LlamaShape,
    query: Seq<int>,
    mem: spec_fn(int) -> int,
    va_k: u64,
    va_v: u64,
    b: int,
) -> Seq<int> {
    let heads = s.num_heads * s.head_dim;
    Seq::new(
        s.hidden as nat,
        |j: int|
            if j < heads {
                (a.paged)(query.take(heads), mem, va_k, va_v, b, j)
            } else {
                0
            },
    )
}

/// A layer over paged sequences: the keys and values of the rows go to the
/// places of their positions in the blocks of their sequences, and each row
/// attends over the layer's regions.
pub open spec fn paged_layer(
    a: Kernels,
    s: LlamaShape,
    pool: PoolView,
    lw: LayerWeights,
    layer: int,
    seq_indices: Seq<usize>,
    positions: Seq<usize>,
    f: Flow,
) -> Flow {
    let va_k = pool.va_k[layer];
    let va_v = pool.va_v[layer];
    let width = 2 * (s.kv_heads * s.head_dim);
    let n = f.rows.len();
    let mem = stored(
        f.mem,
        keys_of(a, s, lw, positions, f.rows),
        values_of(a, s, lw, f.rows),
        Seq::new(
            n,
            |b: int|
                append_laws::place(pool, va_k, seq_indices[b] as int, positions[b] as int, width),
        ),
        Seq::new(
            n,
            |b: int|
                append_laws::place(pool, va_v, seq_indices[b] as int, positions[b] as int, width),
        ),
        n,
    );
    Flow {
        rows: Seq::new(
            n,
            |b: int|
                llama_laws::layer_row(
                    a,
                    s,
                    lw,
                    f.rows[b],
                    paged_attention(
                        a,
                        s,
                        llama_laws::query(a, s, lw, f.rows[b], positions[b]),
                        mem,
                        va_k,
                        va_v,
                        b,
                    ),
                ),
        ),
        mem,
    }
}

/// The first `n` layers over paged sequences.
pub open spec fn paged_layers(
    a: Kernels,
    s: LlamaShape,
    pool: PoolView,
    w: LlamaWeights,
    seq_indices: Seq<usize>,
    positions: Seq<usize>,
    f: Flow,
    n: nat,
) -> Flow
    decreases n,
{
    if n == 0 {
        f
    } else {
        paged_layer(
            a,
            s,
            pool,
            w.layers@[n - 1],
            n - 1,
            seq_indices,
            positions,
            paged_layers(a, s, pool, w, seq_indices, positions, f, (n - 1) as nat),
        )
    }
}

/// The positions of all rows lie in blocks in use, and every address of a
/// layer can be computed.
pub open spec fn paged_addressed(
    pool: PoolView,
    s: LlamaShape,
    layer: int,
    seq_indices: Seq<usize>,
    positions: Seq<usize>,
) -> bool {
    let width = 2 * (s.kv_heads * s.head_dim);
    forall|b: int|
        0 <= b < positions.len() ==> {
            let q = #[trigger] seq_indices[b] as int;
            let pos = positions[b] as int;
            &&& pool.used(pool.sequences[q].block_table[pos / pool.shape.block_size as int])
            &&& append_laws::place(pool, pool.va_k[layer], q, pos, width) <= u64::MAX
            &&& append_laws::place(pool, pool.va_v[layer], q, pos, width) <= u64::MAX
        }
}

/// The address of a paged position.
proof fn lemma_paged_place(
    pool: PoolView,
    s: LlamaShape,
    layer: int,
    seq_indices: Seq<usize>,
    positions: Seq<usize>,
    b: int,
)
    requires
        pool.wf(),
        pool.rows_ok(s.kv_dim(), seq_indices, positions),
        paged_addressed(pool, s, layer, seq_indices, positions),
        positions.len() <= usize::MAX,
        s.fits(positions.len() as int),
        0 <= b < positions.len(),
    ensures
        writes_row(
            s,
            pool.paged_write(s, layer, b, seq_indices[b], positions[b]),
            b,
            append_laws::place(
                pool,
                pool.va_k[layer],
                seq_indices[b] as int,
                positions[b] as int,
                2 * (s.kv_heads * s.head_dim),
            ),
            append_laws::place(
                pool,
                pool.va_v[layer],
                seq_indices[b] as int,
                positions[b] as int,
                2 * (s.kv_heads * s.head_dim),
            ),
        ),
{
    let m = positions.len() as int;
    let kvd = s.kv_dim();
    let q = seq_indices[b] as int;
    let pos = positions[b] as int;
    let bs = pool.shape.block_size as int;
    assert(0 <= kvd) by (nonlinear_arith)
        requires
            kvd == s.kv_heads * s.head_dim,
    ;
    assert(pos / bs < pool.sequences[q].block_table.len() && pos / bs >= 0) by {
        assert(positions[b] as int / bs < pool.sequences[q].block_table.len());
        vstd::arithmetic::div_mod::lemma_div_pos_is_pos(pos, bs);
    }
    let block = pool.sequences[q].block_table[pos / bs];
    assert(pool.used(block));
    let info = pool.blocks[block as int];
    assert(pool.block_ok(info));
    let offset = info.va_offset as int;
    let hd = info.handle();
    let elems = pool.shape.elem_per_block as int;
    assert(offset == 2 * (hd.superblock_idx * (SUPERBLOCK_SIZE / 2) + hd.block_index * elems))
        by (nonlinear_arith)
        requires
            offset == hd.superblock_idx * SUPERBLOCK_SIZE + hd.block_index * (elems * 2),
    ;
    assert(pool.block_start(block) == offset);
    let at = pos % bs;
    vstd::arithmetic::div_mod::lemma_mod_bound(pos, bs);
    assert(0 <= at * kvd && at * kvd <= bs * kvd) by (nonlinear_arith)
        requires
            0 <= at < bs,
            0 <= kvd,
    ;
    assert(at * (2 * kvd) == at * kvd * 2) by (nonlinear_arith);
    meaning::lemma_row_within(b, kvd, m);
    let width = 2 * (s.kv_heads * s.head_dim);
    assert(append_laws::place(pool, pool.va_k[layer], q, pos, width) == pool.va_k[layer] + offset
        + at * kvd * 2);
    assert(append_laws::place(pool, pool.va_v[layer], q, pos, width) == pool.va_v[layer] + offset
        + at * kvd * 2);
}

/// Attention of all rows over a layer's regions.
proof fn lemma_paged_attend(
    a: Kernels,
    s: LlamaShape,
    st: Machine,
    m: int,
    va_k: u64,
    va_v: u64,
)
    requires
        llama_laws::sized(st, Buf::Attn, m, s.hidden as int),
        (st.bufs)(Buf::Attn) == Seq::new((st.bufs)(Buf::Attn).len(), |i: int| 0int),
    ensures
        ({
            let t = st.after(a, s, Op::PagedAttend { va_k, va_v });
            let h = s.hidden as int;
            &&& llama_laws::same_but(st, t, Buf::Attn)
            &&& llama_laws::sized(t, Buf::Attn, m, h)
            &&& forall|b: int|
                0 <= b < m ==> #[trigger] meaning::row((t.bufs)(Buf::Attn), b, h)
                    == paged_attention(
                    a,
                    s,
                    meaning::row((st.bufs)(Buf::Q), b, h),
                    st.mem,
                    va_k,
                    va_v,
                    b,
                )
        }),
{
    let t = st.after(a, s, Op::PagedAttend { va_k, va_v });
    let h = s.hidden as int;
    let x = (t.bufs)(Buf::Attn);
    assert forall|b: int| 0 <= b < m implies #[trigger] meaning::row(x, b, h) == paged_attention(
        a,
        s,
        meaning::row((st.bufs)(Buf::Q), b, h),
        st.mem,
        va_k,
        va_v,
        b,
    ) by {
        meaning::lemma_row_within(b, h, m);
        let want = paged_attention(
            a,
            s,
            meaning::row((st.bufs)(Buf::Q), b, h),
            st.mem,
            va_k,
            va_v,
            b,
        );
        assert forall|j: int| 0 <= j < h implies meaning::row(x, b, h)[j] == want[j] by {
            meaning::lemma_at(b, j, h, m);
        }
        assert(meaning::row(x, b, h) =~= want);
    }
}

/// A layer over paged sequences does what the layer is.
pub proof fn law_paged_layer_is_llama(
    a: Kernels,
    s: LlamaShape,
    pool: PoolView,
    lw: LayerWeights,
    layer: int,
    seq_indices: Seq<usize>,
    positions: Seq<usize>,
    st: Machine,
)
    requires
        positions.len() <= usize::MAX,
        s.fits(positions.len() as int),
        pool.wf(),
        pool.rows_ok(s.kv_dim(), seq_indices, positions),
        paged_addressed(pool, s, layer, seq_indices, positions),
        llama_laws::sized(st, Buf::Hidden, positions.len() as int, s.hidden as int),
    ensures
        ({
            let m = positions.len() as int;
            let t = st.ran(a, s, pool.paged_layer_ops(s, lw, layer, seq_indices, positions));
            let want = paged_layer(
                a,
                s,
                pool,
                lw,
                layer,
                seq_indices,
                positions,
                flow_of(st, s, m),
            );
            &&& llama_laws::sized(t, Buf::Hidden, m, s.hidden as int)
            &&& flow_of(t, s, m).rows == want.rows
            &&& t.mem == want.mem
        }),
{
    let m = positions.len() as int;
    let h = s.hidden as int;
    let f = flow_of(st, s, m);
    let front = s.front(lw, positions);
    let writes = Seq::new(
        positions.len(),
        |b: int| pool.paged_write(s, layer, b, seq_indices[b], positions[b]),
    );
    let attn = seq![
        Op::Alloc { buf: Buf::Attn, elems: s.elems(Buf::Attn, m) as usize },
        Op::PagedAttend { va_k: pool.va_k[layer], va_v: pool.va_v[layer] },
    ];
    let back = s.back(lw, m as usize);
    st.lemma_ran_joined(a, s, front, writes);
    st.lemma_ran_joined(a, s, front + writes, attn);
    st.lemma_ran_joined(a, s, front + writes + attn, back);
    let s1 = st.ran(a, s, front);
    let s2 = s1.ran(a, s, writes);
    let s3 = s2.after(a, s, attn[0]);
    let s4 = s2.ran(a, s, attn);
    let s5 = s4.ran(a, s, back);
    llama_laws::lemma_front(a, s, lw, positions, st);
    let keys = keys_of(a, s, lw, positions, f.rows);
    let values = values_of(a, s, lw, f.rows);
    let width = 2 * (s.kv_heads * s.head_dim);
    let k_places = Seq::new(
        f.rows.len(),
        |b: int|
            append_laws::place(
                pool,
                pool.va_k[layer],
                seq_indices[b] as int,
                positions[b] as int,
                width,
            ),
    );
    let v_places = Seq::new(
        f.rows.len(),
        |b: int|
            append_laws::place(
                pool,
                pool.va_v[layer],
                seq_indices[b] as int,
                positions[b] as int,
                width,
            ),
    );
    lemma_front_rows(a, s, lw, positions, st, s1);
    assert forall|b: int| 0 <= b < writes.len() implies writes_row(
        s,
        #[trigger] writes[b],
        b,
        k_places[b],
        v_places[b],
    ) by {
        lemma_paged_place(pool, s, layer, seq_indices, positions, b);
    }
    lemma_writes(a, s, s1, writes, keys, values, k_places, v_places, positions.len());
    assert(0 <= m * h) by (nonlinear_arith)
        requires
            0 <= m,
            0 <= h,
    ;
    assert(s4 == s3.after(a, s, attn[1])) by {
        reveal_with_fuel(Machine::run, 3);
    }
    assert((s3.bufs)(Buf::Q) == (s1.bufs)(Buf::Q));
    lemma_paged_attend(a, s, s3, m, pool.va_k[layer], pool.va_v[layer]);
    assert((s4.bufs)(Buf::Residual) == (s3.bufs)(Buf::Residual));
    assert((s4.bufs)(Buf::Hidden) == (s3.bufs)(Buf::Hidden));
    assert((s4.bufs)(Buf::Normed) == (s3.bufs)(Buf::Normed));
    llama_laws::lemma_back(a, s, lw, m as usize, s4);
    let want = paged_layer(a, s, pool, lw, layer, seq_indices, positions, f);
    assert forall|b: int| 0 <= b < m implies flow_of(s5, s, m).rows[b] == want.rows[b] by {
        assert(meaning::row((s5.bufs)(Buf::Hidden), b, h) == llama_laws::layer_row(
            a,
            s,
            lw,
            meaning::row((s4.bufs)(Buf::Residual), b, h),
            meaning::row((s4.bufs)(Buf::Attn), b, h),
        ));
        assert(meaning::row((s1.bufs)(Buf::Q), b, h) == llama_laws::query(
            a,
            s,
            lw,
            f.rows[b],
            positions[b],
        ));
    }
    assert(flow_of(s5, s, m).rows =~= want.rows);
}

/// The layers of a step over paged sequences.
proof fn lemma_paged_layers(
    a: Kernels,
    s: LlamaShape,
    pool: PoolView,
    w: LlamaWeights,
    seq_indices: Seq<usize>,
    positions: Seq<usize>,
    st: Machine,
    n: nat,
)
    requires
        positions.len() <= usize::MAX,
        s.fits(positions.len() as int),
        pool.wf(),
        pool.rows_ok(s.kv_dim(), seq_indices, positions),
        forall|l: int|
            0 <= l < n ==> #[trigger] paged_addressed(pool, s, l, seq_indices, positions),
        llama_laws::sized(st, Buf::Hidden, positions.len() as int, s.hidden as int),
    ensures
        ({
            let m = positions.len() as int;
            let t = st.ran(a, s, pool.paged_layers_ops(s, w, seq_indices, positions, n));
            let want = paged_layers(
                a,
                s,
                pool,
                w,
                seq_indices,
                positions,
                flow_of(st, s, m),
                n,
            );
            &&& llama_laws::sized(t, Buf::Hidden, m, s.hidden as int)
            &&& flow_of(t, s, m).rows == want.rows
            &&& t.mem == want.mem
        }),
    decreases n,
{
    if n > 0 {
        let m = positions.len() as int;
        let before = pool.paged_layers_ops(s, w, seq_indices, positions, (n - 1) as nat);
        let last = pool.paged_layer_ops(s, w.layers@[n - 1], n - 1, seq_indices, positions);
        lemma_paged_layers(a, s, pool, w, seq_indices, positions, st, (n - 1) as nat);
        let u = st.ran(a, s, before);
        st.lemma_ran_joined(a, s, before, last);
        assert(paged_addressed(pool, s, n - 1, seq_indices, positions));
        law_paged_layer_is_llama(
            a,
            s,
            pool,
            w.layers@[n - 1],
            n - 1,
            seq_indices,
            positions,
            u,
        );
        assert(flow_of(u, s, m) == paged_layers(
            a,
            s,
            pool,
            w,
            seq_indices,
            positions,
            flow_of(st, s, m),
            (n - 1) as nat,
        ));
    }
}

/// A forward step over paged sequences is the Llama model, as over contiguous
/// slots; the keys and values go to the blocks of the sequences.
pub proof fn law_paged_step_is_llama(
    a: Kernels,
    s: LlamaShape,
    pool: PoolView,
    w: LlamaWeights,
    seq_indices: Seq<usize>,
    positions: Seq<usize>,
    st: Machine,
)
    requires
        positions.len() <= usize::MAX,
        s.fits(positions.len() as int),
        pool.wf(),
        pool.rows_ok(s.kv_dim(), seq_indices, positions),
        forall|l: int|
            0 <= l < s.num_layers ==> #[trigger] paged_addressed(
                pool,
                s,
                l,
                seq_indices,
                positions,
            ),
        llama_laws::sized(st, Buf::Hidden, positions.len() as int, s.hidden as int),
    ensures
        ({
            let m = positions.len() as int;
            let ops = pool.paged_layers_ops(s, w, seq_indices, positions, s.num_layers as nat)
                + s.finish(w.norm, w.lm_head, m as usize);
            let t = st.ran(a, s, ops);
            let end = paged_layers(
                a,
                s,
                pool,
                w,
                seq_indices,
                positions,
                flow_of(st, s, m),
                s.num_layers as nat,
            );
            &&& t.mem == end.mem
            &&& forall|b: int|
                0 <= b < m ==> #[trigger] meaning::row((t.bufs)(Buf::Logits), b, s.vocab as int)
                    == logits(a, s, w, end.rows[b])
        }),
{
    let m = positions.len() as int;
    let layers = pool.paged_layers_ops(s, w, seq_indices, positions, s.num_layers as nat);
    let finish = s.finish(w.norm, w.lm_head, m as usize);
    lemma_paged_layers(a, s, pool, w, seq_indices, positions, st, s.num_layers as nat);
    st.lemma_ran_joined(a, s, layers, finish);
    let u = st.ran(a, s, layers);
    llama_laws::lemma_finish(a, s, w.norm, w.lm_head, m as usize, u);
    let t = u.ran(a, s, finish);
    let end = paged_layers(
        a,
        s,
        pool,
        w,
        seq_indices,
        positions,
        flow_of(st, s, m),
        s.num_layers as nat,
    );
    assert forall|b: int| 0 <= b < m implies #[trigger] meaning::row(
        (t.bufs)(Buf::Logits),
        b,
        s.vocab as int,
    ) == logits(a, s, w, end.rows[b]) by {
        assert(flow_of(u, s, m).rows[b] == end.rows[b]);
    }
}

/// The table that attention reads lists the blocks of a sequence in order.
pub proof fn law_attention_reads_own_blocks(pool: PoolView, seq_idx: usize, j: int)
    requires
        0 <= j < pool.sequences[seq_idx as int].block_table.len(),
    ensures
        pool.table_entry(seq_idx, j) == pool.sequences[seq_idx as int].block_table[j] as i32,
{
}

/// The copy of an embedding takes the row of the token from the embeddings,
/// rows of `2 * hidden` bytes each, to the row of the batch.
pub proof fn law_embedding_is_token_row(
    embed_ptr: u64,
    hidden: usize,
    batch: int,
    b: int,
    token: u32,
)
    requires
        0 <= b < batch,
        batch * hidden <= usize::MAX,
        embed_ptr + (token + 1) * (2 * hidden) <= u64::MAX,
        (token + 1) * (2 * hidden) <= usize::MAX,
    ensures
        ({
            let c: EmbedCopy = program::embed_copy(embed_ptr, hidden, b, token);
            &&& c.nbytes == 2 * hidden
            &&& c.src == embed_ptr + token * c.nbytes
            &&& 2 * c.dst_offset == b * c.nbytes
        }),
{
    let t = token as int;
    let h = hidden as int;
    assert(t * h * 2 == t * (2 * h)) by (nonlinear_arith);
    assert((t + 1) * (2 * h) == t * (2 * h) + 2 * h) by (nonlinear_arith);
    assert(0 <= t * (2 * h)) by (nonlinear_arith)
        requires
            0 <= t,
            0 <= h,
    ;
    meaning::lemma_row_within(b, h, batch);
    assert(2 * (b * h) == b * (2 * h)) by (nonlinear_arith);
}

} // verus!
