use vstd::prelude::*;

use crate::cache::table_laws;
use crate::kcmm::pool::PoolError;
use crate::kcmm::pool_model;
use crate::kcmm::pool_model::PoolView;
use crate::kcmm::superblock::SUPERBLOCK_SIZE;
use crate::kv_write;
use crate::kv_write::{KvCopy, KvPlan, KvRow};

verus! {

/// Where all rows can be placed, they are copied in order, one copy each.
pub proof fn law_plan_copies_all_rows<E>(rows: Seq<KvRow<E>>)
    requires
        forall|b: int| 0 <= b < rows.len() ==> (#[trigger] rows[b]) is Copy,
    ensures
        kv_write::planned_error(rows) is None,
        kv_write::planned_copies(rows).len() == rows.len(),
        forall|b: int|
            0 <= b < rows.len() ==> (#[trigger] rows[b]) == KvRow::<E>::Copy(
                kv_write::planned_copies(rows)[b],
            ),
    decreases rows.len(),
{
    if rows.len() > 0 {
        let rest = rows.drop_last();
        assert forall|b: int| 0 <= b < rest.len() implies (#[trigger] rest[b]) is Copy by {
            assert(rest[b] == rows[b]);
        }
        law_plan_copies_all_rows(rest);
        assert(rows[rows.len() - 1] is Copy);
        assert forall|b: int| 0 <= b < rows.len() implies (#[trigger] rows[b]) == KvRow::<E>::Copy(
            kv_write::planned_copies(rows)[b],
        ) by {
            if b < rest.len() {
                assert(rest[b] == rows[b]);
            }
        }
    }
}

/// A plan has an error only where a row cannot be placed: that of the first
/// such row. The rows before it are copied, no other is.
pub proof fn law_plan_fails_at_first<E>(rows: Seq<KvRow<E>>, f: int)
    requires
        0 <= f < rows.len(),
        rows[f] is Fail,
        forall|b: int| 0 <= b < f ==> (#[trigger] rows[b]) is Copy,
    ensures
        kv_write::planned_error(rows) == Some(rows[f]->Fail_0),
        kv_write::planned_copies(rows).len() == f,
        forall|b: int|
            0 <= b < f ==> (#[trigger] rows[b]) == KvRow::<E>::Copy(
                kv_write::planned_copies(rows)[b],
            ),
{
    let head = rows.take(f);
    assert forall|b: int| 0 <= b < head.len() implies (#[trigger] head[b]) is Copy by {
        assert(head[b] == rows[b]);
    }
    law_plan_copies_all_rows(head);
    let more = rows.take(f + 1);
    assert(more.drop_last() =~= head);
    assert(more.last() == rows[f]);
    kv_write::lemma_plan_stops(rows, f + 1);
    assert forall|b: int| 0 <= b < f implies (#[trigger] rows[b]) == KvRow::<E>::Copy(
        kv_write::planned_copies(rows)[b],
    ) by {
        assert(head[b] == rows[b]);
    }
}

/// Rows of padding are passed over: the plan is that of the other rows.
pub proof fn law_plan_skips_padding<E>(rows: Seq<KvRow<E>>)
    requires
        rows.len() > 0,
        rows.last() is Skip,
    ensures
        kv_write::planned_copies(rows) == kv_write::planned_copies(rows.drop_last()),
        kv_write::planned_error(rows) == kv_write::planned_error(rows.drop_last()),
{
}

/// Address of position `pos` of sequence `q` in a region that starts at
/// `base`, where a position takes `n` bytes: the block that the sequence's
/// table lists for it, and within the block the positions before it.
pub open spec fn place(s: PoolView, base: u64, q: int, pos: int, n: int) -> int {
    let bs = s.shape.block_size as int;
    let block = s.sequences[q].block_table[pos / bs];
    base + s.blocks[block as int].va_offset + (pos % bs) * n
}

/// A copy takes row `b` of new data, of `n` bytes, to the given places.
pub open spec fn takes_row(
    c: KvCopy,
    k_place: int,
    v_place: int,
    k_src: u64,
    v_src: u64,
    b: int,
    n: int,
) -> bool {
    &&& c.nbytes == n
    &&& c.dst_k == k_place
    &&& c.dst_v == v_place
    &&& c.src_k == k_src + b * n
    &&& c.src_v == v_src + b * n
}

/// What a step needs to place its rows: `n` bytes a position, as many as a
/// block shares out to its positions, and addresses that can be computed.
pub open spec fn rows_measured(
    s: PoolView,
    layer: int,
    k_src: u64,
    v_src: u64,
    batch: int,
    n: int,
) -> bool {
    &&& s.wf()
    &&& 0 <= layer < s.shape.num_layers
    &&& n >= 0
    &&& n % 2 == 0
    &&& s.shape.block_bytes == n * s.shape.block_size
    &&& s.va_k[layer] + s.pools.backing.len() * SUPERBLOCK_SIZE <= u64::MAX
    &&& s.va_v[layer] + s.pools.backing.len() * SUPERBLOCK_SIZE <= u64::MAX
    &&& batch * n <= usize::MAX
    &&& k_src + batch * n <= u64::MAX
    &&& v_src + batch * n <= u64::MAX
}

/// The elements of a position.
proof fn lemma_step(s: PoolView, n: int)
    requires
        s.wf(),
        n >= 0,
        n % 2 == 0,
        s.shape.block_bytes == n * s.shape.block_size,
    ensures
        s.step() * 2 == n,
{
    let d = n / 2;
    let bs = s.shape.block_size as int;
    assert(s.shape.elem_per_block == d * bs) by (nonlinear_arith)
        requires
            s.shape.elem_per_block * 2 == n * bs,
            n == 2 * d,
    ;
    vstd::arithmetic::div_mod::lemma_div_multiples_vanish(d, bs);
    assert(bs * d == d * bs) by (nonlinear_arith);
}

/// The copy of a row to a position of a block.
proof fn lemma_copy(
    s: PoolView,
    layer: int,
    k_src: u64,
    v_src: u64,
    batch: int,
    n: int,
    i: int,
    at: int,
    b: int,
)
    requires
        rows_measured(s, layer, k_src, v_src, batch, n),
        0 <= i < s.blocks.len(),
        0 <= at < s.shape.block_size,
        0 <= b < batch,
    ensures
        takes_row(
            s.bases(layer, k_src, v_src).spec_copy(
                s.blocks[i].va_offset as int,
                at,
                b,
                s.step(),
            ),
            s.va_k[layer] + s.blocks[i].va_offset + at * n,
            s.va_v[layer] + s.blocks[i].va_offset + at * n,
            k_src,
            v_src,
            b,
            n,
        ),
{
    lemma_step(s, n);
    table_laws::lemma_row_in_block(s, i, at);
    assert(s.block_ok(s.blocks[i]));
    pool_model::lemma_offset_mapped(s, s.blocks[i].handle());
    let step = s.step();
    assert(b * step * 2 == b * n) by (nonlinear_arith)
        requires
            n == step * 2,
    ;
    assert(0 <= b * n && b * n + n <= batch * n) by (nonlinear_arith)
        requires
            0 <= b < batch,
            n >= 0,
    ;
}

/// Appending a position to each of a batch of sequences copies row `b` of the
/// new K data, the `n` bytes from `k_src + b * n` on, to the place of the
/// position of sequence `b` in the layer's K region, and row `b` of the new V
/// data likewise.
pub proof fn law_append_takes_each_row(
    s: PoolView,
    layer: int,
    seqs: Seq<usize>,
    positions: Seq<usize>,
    k_src: u64,
    v_src: u64,
    n: int,
)
    requires
        rows_measured(s, layer, k_src, v_src, seqs.len() as int, n),
        positions.len() >= seqs.len(),
        forall|b: int|
            0 <= b < seqs.len() ==> (#[trigger] seqs[b]) < s.sequences.len() && s.table_ok(
                s.sequences[seqs[b] as int].block_table,
            ) && (positions[b] as int / s.shape.block_size as int)
                < s.sequences[seqs[b] as int].block_table.len(),
    ensures
        ({
            let rows = s.step_rows(s.bases(layer, k_src, v_src), seqs, positions);
            let copies = kv_write::planned_copies(rows);
            &&& kv_write::planned_error(rows) is None
            &&& copies.len() == seqs.len()
            &&& forall|b: int|
                0 <= b < seqs.len() ==> takes_row(
                    #[trigger] copies[b],
                    place(s, s.va_k[layer], seqs[b] as int, positions[b] as int, n),
                    place(s, s.va_v[layer], seqs[b] as int, positions[b] as int, n),
                    k_src,
                    v_src,
                    b,
                    n,
                )
        }),
{
    let bases = s.bases(layer, k_src, v_src);
    let rows = s.step_rows(bases, seqs, positions);
    let bs = s.shape.block_size as int;
    assert forall|b: int| 0 <= b < rows.len() implies (#[trigger] rows[b]) is Copy by {
        assert(seqs[b] < s.sequences.len());
    }
    law_plan_copies_all_rows(rows);
    let copies = kv_write::planned_copies(rows);
    assert forall|b: int| 0 <= b < seqs.len() implies takes_row(
        #[trigger] copies[b],
        place(s, s.va_k[layer], seqs[b] as int, positions[b] as int, n),
        place(s, s.va_v[layer], seqs[b] as int, positions[b] as int, n),
        k_src,
        v_src,
        b,
        n,
    ) by {
        assert(seqs[b] < s.sequences.len());
        assert(rows[b] == KvRow::<PoolError>::Copy(copies[b]));
        let table = s.sequences[seqs[b] as int].block_table;
        let lb = positions[b] as int / bs;
        assert(table[lb] < s.blocks.len());
        vstd::arithmetic::div_mod::lemma_mod_bound(positions[b] as int, bs);
        lemma_copy(
            s,
            layer,
            k_src,
            v_src,
            seqs.len() as int,
            n,
            table[lb] as int,
            positions[b] as int % bs,
            b,
        );
    }
}

/// A step fails at the first sequence that has no block for its position; the
/// error tells the block that is missing and how many there are.
pub proof fn law_append_fails_without_block(
    s: PoolView,
    layer: int,
    seqs: Seq<usize>,
    positions: Seq<usize>,
    k_src: u64,
    v_src: u64,
    f: int,
)
    requires
        0 <= f < seqs.len(),
        s.shape.block_size > 0,
        s.sequences[seqs[f] as int].block_table.len() <= usize::MAX,
        positions[f] as int / s.shape.block_size as int >= s.sequences[seqs[f] as int].block_table.len(),
        forall|b: int|
            0 <= b < f ==> ((#[trigger] positions[b]) as int / s.shape.block_size as int)
                < s.sequences[seqs[b] as int].block_table.len(),
    ensures
        ({
            let rows = s.step_rows(s.bases(layer, k_src, v_src), seqs, positions);
            &&& kv_write::planned_copies(rows).len() == f
            &&& kv_write::planned_error(rows) matches Some(
                PoolError::LogicalBlockMissing { logical_block, allocated, seq_idx },
            )
            &&& logical_block as int == positions[f] as int / s.shape.block_size as int
            &&& allocated == s.sequences[seqs[f] as int].block_table.len()
            &&& seq_idx == seqs[f]
        }),
{
    let rows = s.step_rows(s.bases(layer, k_src, v_src), seqs, positions);
    assert forall|b: int| 0 <= b < f implies (#[trigger] rows[b]) is Copy by {
        assert((positions[b] as int / s.shape.block_size as int)
            < s.sequences[seqs[b] as int].block_table.len());
    }
    law_plan_fails_at_first(rows, f);
    let p = positions[f] as int;
    let bs = s.shape.block_size as int;
    vstd::arithmetic::div_mod::lemma_div_pos_is_pos(p, bs);
    vstd::arithmetic::div_mod::lemma_div_is_ordered_by_denominator(p, 1, bs);
}

/// With indices that are all in order, a checked step does what a step does;
/// it refuses a sequence that is not there, and a block that is not in use.
pub proof fn law_checked_step_refuses(s: PoolView, layer: int, k_src: u64, v_src: u64, b: int, q: u32, pos: u32)
    requires
        s.shape.block_size > 0,
    ensures
        ({
            let bases = s.bases(layer, k_src, v_src);
            let table = s.sequences[q as int].block_table;
            let lb = pos as int / s.shape.block_size as int;
            let row = s.checked_row_at(bases, b, q, pos);
            &&& q >= s.sequences.len() ==> row == KvRow::<PoolError>::Fail(
                PoolError::SequenceOutOfBounds(q as usize),
            )
            &&& q < s.sequences.len() && lb < table.len() && (table[lb] >= s.blocks.len()
                || !s.blocks[table[lb] as int].in_use) ==> row == KvRow::<PoolError>::Fail(
                PoolError::BlockNotInUse(table[lb]),
            )
            &&& q < s.sequences.len() && (lb >= table.len() || table[lb] < s.blocks.len()
                && s.blocks[table[lb] as int].in_use) ==> row == s.row_at(
                bases,
                b,
                q as usize,
                pos as usize,
            )
        }),
{
}

/// A row for a physical slot goes to the slot's position of the slot's block;
/// a negative slot is padding, and one in a block that is not in use fails.
pub proof fn law_slot_takes_row(
    s: PoolView,
    layer: int,
    k_src: u64,
    v_src: u64,
    batch: int,
    n: int,
    b: int,
    slot: i64,
)
    requires
        rows_measured(s, layer, k_src, v_src, batch, n),
        0 <= b < batch,
    ensures
        ({
            let bs = s.shape.block_size as int;
            let i = slot as int / bs;
            match s.row_in_slot(s.bases(layer, k_src, v_src), b, slot) {
                KvRow::Skip => slot < 0,
                KvRow::Fail(e) => slot >= 0 && !(i < s.blocks.len() && s.blocks[i].in_use)
                    && e == (PoolError::SlotNotInUse { block_idx: i as usize, slot }),
                KvRow::Copy(c) => slot >= 0 && i < s.blocks.len() && s.blocks[i].in_use
                    && takes_row(
                    c,
                    s.va_k[layer] + s.blocks[i].va_offset + (slot as int % bs) * n,
                    s.va_v[layer] + s.blocks[i].va_offset + (slot as int % bs) * n,
                    k_src,
                    v_src,
                    b,
                    n,
                ),
            }
        }),
{
    let bs = s.shape.block_size as int;
    let i = slot as int / bs;
    if slot >= 0 && i < s.blocks.len() && s.blocks[i].in_use {
        vstd::arithmetic::div_mod::lemma_mod_bound(slot as int, bs);
        vstd::arithmetic::div_mod::lemma_div_pos_is_pos(slot as int, bs);
        lemma_copy(s, layer, k_src, v_src, batch, n, i, slot as int % bs, b);
    }
}

/// GPU memory after one row was copied.
pub open spec fn row_copied(mem: spec_fn(int) -> u8, c: KvCopy) -> spec_fn(int) -> u8 {
    |a: int|
        if c.dst_v <= a < c.dst_v + c.nbytes {
            mem(c.src_v + (a - c.dst_v))
        } else if c.dst_k <= a < c.dst_k + c.nbytes {
            mem(c.src_k + (a - c.dst_k))
        } else {
            mem(a)
        }
}

/// GPU memory after rows were copied in order.
pub open spec fn rows_copied(mem: spec_fn(int) -> u8, copies: Seq<KvCopy>) -> spec_fn(int) -> u8
    decreases copies.len(),
{
    if copies.len() == 0 {
        mem
    } else {
        row_copied(rows_copied(mem, copies.drop_last()), copies.last())
    }
}

/// Address `a` lies outside of all rows that are written.
pub open spec fn untouched(copies: Seq<KvCopy>, a: int) -> bool {
    forall|c: int|
        0 <= c < copies.len() ==> {
            let d = #[trigger] copies[c];
            &&& !(d.dst_k <= a < d.dst_k + d.nbytes)
            &&& !(d.dst_v <= a < d.dst_v + d.nbytes)
        }
}

/// Outside of the rows that are written memory stays as it is.
pub proof fn law_append_leaves_other_bytes(mem: spec_fn(int) -> u8, copies: Seq<KvCopy>, a: int)
    requires
        untouched(copies, a),
    ensures
        rows_copied(mem, copies)(a) == mem(a),
    decreases copies.len(),
{
    if copies.len() > 0 {
        let rest = copies.drop_last();
        assert forall|c: int| 0 <= c < rest.len() implies {
            let d = #[trigger] rest[c];
            &&& !(d.dst_k <= a < d.dst_k + d.nbytes)
            &&& !(d.dst_v <= a < d.dst_v + d.nbytes)
        } by {
            assert(rest[c] == copies[c]);
        }
        law_append_leaves_other_bytes(mem, rest, a);
        assert(copies[copies.len() - 1] == copies.last());
    }
}

/// Two stretches of `n` bytes do not overlap.
pub open spec fn apart(x: int, y: int, n: int) -> bool {
    x + n <= y || y + n <= x
}

/// Where rows are copied to places of their own, away from the new data, the
/// place of row `b` holds in the end the bytes of row `b` of the new data.
proof fn lemma_rows_arrive(
    mem: spec_fn(int) -> u8,
    copies: Seq<KvCopy>,
    n: int,
    b: int,
    j: int,
)
    requires
        0 <= b < copies.len(),
        0 <= j < n,
        forall|c: int| 0 <= c < copies.len() ==> (#[trigger] copies[c]).nbytes == n,
        forall|c: int|
            0 <= c < copies.len() ==> apart((#[trigger] copies[c]).dst_k as int, copies[c].dst_v as int, n),
        forall|c: int, d: int|
            0 <= c < copies.len() && 0 <= d < copies.len() && c != d ==> {
                let x = #[trigger] copies[c];
                let y = #[trigger] copies[d];
                &&& apart(x.dst_k as int, y.dst_k as int, n)
                &&& apart(x.dst_v as int, y.dst_v as int, n)
                &&& apart(x.dst_k as int, y.dst_v as int, n)
            },
        untouched(copies, copies[b].src_k + j),
        untouched(copies, copies[b].src_v + j),
    ensures
        rows_copied(mem, copies)(copies[b].dst_k + j) == mem(copies[b].src_k + j),
        rows_copied(mem, copies)(copies[b].dst_v + j) == mem(copies[b].src_v + j),
    decreases copies.len(),
{
    let rest = copies.drop_last();
    let last = copies.len() - 1;
    assert(copies.last() == copies[last]);
    assert forall|c: int| 0 <= c < rest.len() implies rest[c] == copies[c] by {}
    let c = copies[b];
    assert(untouched(rest, c.src_k + j)) by {
        assert forall|d: int| 0 <= d < rest.len() implies {
            let e = #[trigger] rest[d];
            &&& !(e.dst_k <= c.src_k + j < e.dst_k + e.nbytes)
            &&& !(e.dst_v <= c.src_k + j < e.dst_v + e.nbytes)
        } by {
            assert(rest[d] == copies[d]);
        }
    }
    assert(untouched(rest, c.src_v + j)) by {
        assert forall|d: int| 0 <= d < rest.len() implies {
            let e = #[trigger] rest[d];
            &&& !(e.dst_k <= c.src_v + j < e.dst_k + e.nbytes)
            &&& !(e.dst_v <= c.src_v + j < e.dst_v + e.nbytes)
        } by {
            assert(rest[d] == copies[d]);
        }
    }
    if b == last {
        law_append_leaves_other_bytes(mem, rest, c.src_k + j);
        law_append_leaves_other_bytes(mem, rest, c.src_v + j);
        assert(apart(c.dst_k as int, c.dst_v as int, n));
        assert(c.nbytes == n);
    } else {
        assert forall|d: int| 0 <= d < rest.len() implies (#[trigger] rest[d]).nbytes == n && apart(
            rest[d].dst_k as int,
            rest[d].dst_v as int,
            n,
        ) by {
            assert(rest[d] == copies[d]);
        }
        assert forall|d: int, e: int|
            0 <= d < rest.len() && 0 <= e < rest.len() && d != e implies {
            let x = #[trigger] rest[d];
            let y = #[trigger] rest[e];
            &&& apart(x.dst_k as int, y.dst_k as int, n)
            &&& apart(x.dst_v as int, y.dst_v as int, n)
            &&& apart(x.dst_k as int, y.dst_v as int, n)
        } by {
            assert(rest[d] == copies[d] && rest[e] == copies[e]);
        }
        lemma_rows_arrive(mem, rest, n, b, j);
        let z = copies[last];
        assert(apart(c.dst_k as int, z.dst_k as int, n) && apart(c.dst_v as int, z.dst_v as int, n)
            && apart(c.dst_k as int, z.dst_v as int, n));
        assert(apart(z.dst_k as int, c.dst_v as int, n));
        assert(z.nbytes == n);
    }
}

/// After a step was carried out, the place of each sequence's position in the
/// layer's K region holds the bytes of its row of the new K data, and that in
/// the V region those of the new V data. The places lie apart from one another
/// and from the new data.
pub proof fn law_appended_rows_hold_new_data(
    s: PoolView,
    layer: int,
    seqs: Seq<usize>,
    positions: Seq<usize>,
    k_src: u64,
    v_src: u64,
    n: int,
    mem: spec_fn(int) -> u8,
    b: int,
    j: int,
)
    requires
        rows_measured(s, layer, k_src, v_src, seqs.len() as int, n),
        positions.len() >= seqs.len(),
        forall|c: int|
            0 <= c < seqs.len() ==> (#[trigger] seqs[c]) < s.sequences.len() && s.table_ok(
                s.sequences[seqs[c] as int].block_table,
            ) && (positions[c] as int / s.shape.block_size as int)
                < s.sequences[seqs[c] as int].block_table.len(),
        ({
            let k_at = |c: int| place(s, s.va_k[layer], seqs[c] as int, positions[c] as int, n);
            let v_at = |c: int| place(s, s.va_v[layer], seqs[c] as int, positions[c] as int, n);
            let size = seqs.len() * n;
            &&& forall|c: int, d: int|
                0 <= c < seqs.len() && 0 <= d < seqs.len() ==> apart(
                    #[trigger] k_at(c),
                    #[trigger] v_at(d),
                    n,
                )
            &&& forall|c: int, d: int|
                0 <= c < seqs.len() && 0 <= d < seqs.len() && c != d ==> apart(
                    #[trigger] k_at(c),
                    #[trigger] k_at(d),
                    n,
                ) && apart(v_at(c), v_at(d), n)
            &&& forall|c: int|
                0 <= c < seqs.len() ==> (#[trigger] k_at(c) + n <= k_src || k_src + size <= k_at(c))
                    && (k_at(c) + n <= v_src || v_src + size <= k_at(c))
            &&& forall|c: int|
                0 <= c < seqs.len() ==> (#[trigger] v_at(c) + n <= k_src || k_src + size <= v_at(c))
                    && (v_at(c) + n <= v_src || v_src + size <= v_at(c))
        }),
        0 <= b < seqs.len(),
        0 <= j < n,
    ensures
        ({
            let rows = s.step_rows(s.bases(layer, k_src, v_src), seqs, positions);
            let after = rows_copied(mem, kv_write::planned_copies(rows));
            let q = seqs[b] as int;
            let pos = positions[b] as int;
            &&& after(place(s, s.va_k[layer], q, pos, n) + j) == mem(k_src + b * n + j)
            &&& after(place(s, s.va_v[layer], q, pos, n) + j) == mem(v_src + b * n + j)
        }),
{
    law_append_takes_each_row(s, layer, seqs, positions, k_src, v_src, n);
    let rows = s.step_rows(s.bases(layer, k_src, v_src), seqs, positions);
    let copies = kv_write::planned_copies(rows);
    let k_at = |c: int| place(s, s.va_k[layer], seqs[c] as int, positions[c] as int, n);
    let v_at = |c: int| place(s, s.va_v[layer], seqs[c] as int, positions[c] as int, n);
    let size = seqs.len() * n;
    assert forall|c: int| 0 <= c < copies.len() implies (#[trigger] copies[c]).nbytes == n
        && copies[c].dst_k == k_at(c) && copies[c].dst_v == v_at(c) && apart(
        copies[c].dst_k as int,
        copies[c].dst_v as int,
        n,
    ) by {
        assert(apart(k_at(c), v_at(c), n));
    }
    assert forall|c: int, d: int|
        0 <= c < copies.len() && 0 <= d < copies.len() && c != d implies {
        let x = #[trigger] copies[c];
        let y = #[trigger] copies[d];
        &&& apart(x.dst_k as int, y.dst_k as int, n)
        &&& apart(x.dst_v as int, y.dst_v as int, n)
        &&& apart(x.dst_k as int, y.dst_v as int, n)
    } by {
        assert(apart(k_at(c), k_at(d), n) && apart(k_at(c), v_at(d), n));
    }
    assert(0 <= b * n && b * n + n <= size) by (nonlinear_arith)
        requires
            0 <= b < seqs.len(),
            n >= 0,
            size == seqs.len() * n,
    ;
    let x = copies[b];
    assert(takes_row(x, k_at(b), v_at(b), k_src, v_src, b, n));
    assert forall|c: int| 0 <= c < copies.len() implies {
        let d = #[trigger] copies[c];
        &&& !(d.dst_k <= x.src_k + j < d.dst_k + d.nbytes)
        &&& !(d.dst_v <= x.src_k + j < d.dst_v + d.nbytes)
        &&& !(d.dst_k <= x.src_v + j < d.dst_k + d.nbytes)
        &&& !(d.dst_v <= x.src_v + j < d.dst_v + d.nbytes)
    } by {
        let d = copies[c];
        assert(k_at(c) + n <= k_src || k_src + size <= k_at(c));
        assert(v_at(c) + n <= k_src || k_src + size <= v_at(c));
    }
    lemma_rows_arrive(mem, copies, n, b, j);
}

/// Rows have one plan: two plans for the same rows copy the same, in the same
/// order, and report the same error.
pub proof fn law_plan_is_unique<E>(a: KvPlan<E>, b: KvPlan<E>, rows: Seq<KvRow<E>>)
    requires
        a.is_for(rows),
        b.is_for(rows),
    ensures
        a.copies@ == b.copies@,
        a.error == b.error,
{
}

} // verus!
