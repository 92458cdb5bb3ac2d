//! What is read of a checkpoint, and in which order.

use vstd::prelude::*;

use crate::bytes;
use crate::model::direct_read::{DirectRead, ReadStep};
use crate::model::llama_transformer;
use crate::model::loader;
use crate::model::loader::LoaderKind;
use crate::model::shards;
use crate::model::shards::{GdsTensorMeta, HeaderEntry, ShardTensor};
use crate::model::weights::{ModelWeights, TensorView};
use crate::text;

verus! {

/// Reads that bypass the page cache take whole multiples of the alignment, in
/// chunks of 2 MiB as long as these fit; what is read last is less than one
/// such multiple, through the cache, and ends where the file ends.
pub proof fn law_direct_reads_aligned(r: DirectRead)
    requires
        r.wf(),
        r.phase is Bulk,
        r.written as int % r.align as int == 0,
        2_097_152int % (r.align as int) == 0,
    ensures
        r.next_step().1 matches ReadStep::Read { offset, len, direct } ==> {
            &&& len > 0
            &&& direct ==> len as int % r.align as int == 0
            &&& direct ==> (len == 2_097_152 || len < 2_097_152 && r.file_len - (offset + len)
                < r.align)
            &&& !direct ==> len < r.align && offset + len == r.file_len
            &&& direct ==> r.after(len).written as int % r.align as int == 0
        },
        r.next_step().1 is Finished ==> r.written == r.file_len,
{
    let a = r.align as int;
    let n = r.file_len as int;
    let w = r.written as int;
    vstd::arithmetic::div_mod::lemma_fundamental_div_mod(n, a);
    vstd::arithmetic::div_mod::lemma_fundamental_div_mod(w, a);
    let q = n / a;
    let p = w / a;
    assert(a * q == q * a) by (nonlinear_arith);
    assert(a * p == p * a) by (nonlinear_arith);
    assert(q * a - p * a == (q - p) * a) by (nonlinear_arith);
    vstd::arithmetic::div_mod::lemma_mod_multiples_basic(q - p, a);
    vstd::arithmetic::div_mod::lemma_mod_multiples_basic(q, a);
    vstd::arithmetic::div_mod::lemma_mod_adds(w, 2_097_152, a);
    vstd::arithmetic::div_mod::lemma_mod_bound(n, a);
    assert(r.next_step().1 matches ReadStep::Read { offset, len, direct } ==> direct && len
        != 2_097_152 ==> r.written + len == q * a);
}

/// Chunks are read as long as they bring bytes, however few, and fit; the
/// first that brings none ends them, and what comes behind is read once each.
pub proof fn law_chunks_go_on(r: DirectRead, n: usize)
    requires
        r.wf(),
        r.written + n <= r.file_len,
    ensures
        ({
            let after = r.after(n);
            let asks_chunk = r.phase is Bulk && r.written + 2_097_152 <= r.file_len as int
                / r.align as int * r.align;
            &&& after.written == r.written + n
            &&& after.file_len == r.file_len
            &&& asks_chunk && n > 0 ==> after.phase is Bulk
            &&& asks_chunk && n == 0 ==> after.phase is Rest
            &&& r.phase is End ==> after.phase is End
            &&& r.phase is Tail ==> after.phase is End
            &&& r.phase is Rest ==> !(after.phase is Bulk) && !(after.phase is Rest)
        }),
{
}

/// A shard starts with the length of its header, in eight bytes with the
/// lowest first, and then the header; bytes that end before the header does
/// have none.
pub proof fn law_header_behind_its_length(header: Seq<u8>, data: Seq<u8>)
    requires
        header.len() < 0x1_0000_0000_0000_0000,
    ensures
        ({
            let shard = bytes::le_bytes(header.len(), 8) + header + data;
            &&& shards::header_len(shard) == header.len()
            &&& shards::header_complete(shard)
            &&& shards::header(shard) == header
        }),
        data.len() < 8 || 8 + bytes::le_value(data.subrange(0, 8)) > data.len() ==> {
            &&& !shards::header_complete(data)
            &&& shards::header(data).len() == 0
        },
{
    let n = header.len();
    let shard = bytes::le_bytes(n, 8) + header + data;
    bytes::lemma_byte_ranges();
    bytes::law_le_round_trip(n, 8);
    assert(shard.subrange(0, 8) =~= bytes::le_bytes(n, 8));
    assert(shard.subrange(8, (8 + n) as int) =~= header);
}

/// The buffer takes the least multiple of the alignment that holds the file.
pub proof fn law_buffer_is_least(r: DirectRead)
    requires
        r.align > 0,
    ensures
        r.file_len <= r.spec_buffer_len() < r.file_len + r.align,
        r.spec_buffer_len() % r.align as int == 0,
{
    let a = r.align as int;
    let n = r.file_len + r.align - 1;
    vstd::arithmetic::div_mod::lemma_fundamental_div_mod(n, a);
    vstd::arithmetic::div_mod::lemma_mod_multiples_basic(n / a, a);
    assert(n / a * a == a * (n / a)) by (nonlinear_arith);
}

/// Each loader has its words.
pub proof fn law_loaders_by_word(word: Seq<char>)
    ensures
        loader::loader_named(word) == Some(LoaderKind::Read) <==> word == "read"@,
        loader::loader_named(word) == Some(LoaderKind::Mmap) <==> word == "mmap"@,
        loader::loader_named(word) == Some(LoaderKind::Direct) <==> (word == "direct"@ || word
            == "o_direct"@),
        loader::loader_named(word) == Some(LoaderKind::Gds) <==> (word == "gds"@ || word
            == "cufile"@),
        LoaderKind::Read.name() == "read"@,
        LoaderKind::Mmap.name() == "mmap"@,
        LoaderKind::Direct.name() == "direct"@,
        LoaderKind::Gds.name() == "gds"@,
{
    reveal_strlit("read");
    reveal_strlit("mmap");
    reveal_strlit("direct");
    reveal_strlit("o_direct");
    reveal_strlit("gds");
    reveal_strlit("cufile");
    assert("mmap"@[0] != "read"@[0]);
    assert("direct"@[0] != "cufile"@[0]);
    assert("direct"@.len() == 6 && "cufile"@.len() == 6 && "o_direct"@.len() == 8);
    assert("gds"@.len() == 3 && "read"@.len() == 4 && "mmap"@.len() == 4);
}

/// The two texts first differ at `i`, where the first has the smaller byte.
pub open spec fn smaller_at(a: Seq<u8>, b: Seq<u8>, i: int) -> bool {
    &&& 0 <= i < a.len()
    &&& i < b.len()
    &&& a[i] < b[i]
    &&& forall|j: int| 0 <= j < i ==> a[j] == b[j]
}

/// Names are in the order of a dictionary: a name comes before another where
/// it begins the other, or has the smaller byte where they first differ.
pub proof fn law_names_in_dictionary_order(a: Seq<u8>, b: Seq<u8>)
    ensures
        shards::not_after(a, b) <==> a.is_prefix_of(b) || exists|i: int| smaller_at(a, b, i),
    decreases a.len(),
{
    if a.len() > 0 && b.len() > 0 && a[0] == b[0] {
        let (c, d) = (a.drop_first(), b.drop_first());
        law_names_in_dictionary_order(c, d);
        if c.is_prefix_of(d) {
            assert(a =~= b.subrange(0, a.len() as int)) by {
                assert forall|j: int| 0 <= j < a.len() implies a[j] == b.subrange(
                    0,
                    a.len() as int,
                )[j] by {
                    if j > 0 {
                        assert(c[j - 1] == d.subrange(0, c.len() as int)[j - 1]);
                    }
                }
            }
        }
        if exists|i: int| smaller_at(c, d, i) {
            let i = choose|i: int| smaller_at(c, d, i);
            assert(smaller_at(a, b, i + 1)) by {
                assert(c[i] == a[i + 1] && d[i] == b[i + 1]);
                assert forall|j: int| 0 <= j < i + 1 implies a[j] == b[j] by {
                    if j > 0 {
                        assert(c[j - 1] == d[j - 1]);
                    }
                }
            }
        }
        if a.is_prefix_of(b) {
            assert(c =~= d.subrange(0, c.len() as int)) by {
                assert forall|j: int| 0 <= j < c.len() implies c[j] == d.subrange(
                    0,
                    c.len() as int,
                )[j] by {
                    assert(a[j + 1] == b.subrange(0, a.len() as int)[j + 1]);
                }
            }
        }
        if exists|i: int| smaller_at(a, b, i) {
            let i = choose|i: int| smaller_at(a, b, i);
            assert(smaller_at(c, d, i - 1)) by {
                assert(c[i - 1] == a[i] && d[i - 1] == b[i]);
                assert forall|j: int| 0 <= j < i - 1 implies c[j] == d[j] by {
                    assert(a[j + 1] == b[j + 1]);
                }
            }
        }
    } else if a.len() == 0 {
        assert(a =~= b.subrange(0, 0));
    } else if b.len() > 0 {
        if a[0] < b[0] {
            assert(smaller_at(a, b, 0));
        }
        if a.is_prefix_of(b) {
            assert(a[0] == b.subrange(0, a.len() as int)[0]);
        }
        if exists|i: int| smaller_at(a, b, i) {
            let i = choose|i: int| smaller_at(a, b, i);
            assert(i == 0);
        }
    }
}

/// The tensor is described as its header entry says: its data start where the
/// entry says and end where the entry says.
pub open spec fn describes(m: GdsTensorMeta, e: HeaderEntry) -> bool {
    &&& m.name == e.name
    &&& e.dtype == Some(m.dtype)
    &&& e.shape == Some(m.shape)
    &&& e.data_offsets matches Some((from, to)) && m.data_offset == from && m.data_offset
        + m.data_len == to
}

/// Some tensor of the list is described as the entry says.
pub open spec fn lists_entry(metas: Seq<GdsTensorMeta>, e: HeaderEntry) -> bool {
    exists|k: int| 0 <= k < metas.len() && describes(#[trigger] metas[k], e)
}

/// Every entry that tells type, shape and place is a tensor of the list, and
/// there are no more tensors than such entries.
pub proof fn law_metas_hold_every_tensor(entries: Seq<HeaderEntry>, i: int)
    requires
        0 <= i <= entries.len(),
        forall|k: int| 0 <= k < entries.len() ==> (#[trigger] entries[k]).offsets_ok(),
    ensures
        forall|k: int|
            i <= k < entries.len() && (#[trigger] entries[k]).dtype is Some
                && entries[k].shape is Some && entries[k].data_offsets is Some ==> lists_entry(
                shards::metas_from(entries, i),
                entries[k],
            ),
        shards::metas_from(entries, i).len() == entries.skip(i).filter(
            |e: HeaderEntry| e.dtype is Some && e.shape is Some && e.data_offsets is Some,
        ).len(),
    decreases entries.len() - i,
{
    let told = |e: HeaderEntry| e.dtype is Some && e.shape is Some && e.data_offsets is Some;
    if i < entries.len() {
        let e = entries[i];
        let rest = shards::metas_from(entries, i + 1);
        let all = shards::metas_from(entries, i);
        law_metas_hold_every_tensor(entries, i + 1);
        let tail = entries.skip(i + 1);
        assert(entries.skip(i) =~= seq![e] + tail);
        Seq::filter_distributes_over_add(seq![e], tail, told);
        assert(seq![e].filter(told).len() == if told(e) {
            1nat
        } else {
            0nat
        }) by {
            reveal_with_fuel(Seq::filter, 2);
            assert(seq![e].drop_last() =~= Seq::<HeaderEntry>::empty());
        }
        let p = shards::place_of(rest, e.meta().data_offset);
        shards::lemma_place_of(rest, e.meta().data_offset);
        if told(e) {
            assert(e.is_tensor());
            assert(describes(all[p], e));
        }
        assert forall|k: int|
            i <= k < entries.len() && (#[trigger] entries[k]).dtype is Some
                && entries[k].shape is Some && entries[k].data_offsets is Some implies lists_entry(
            all,
            entries[k],
        ) by {
            if k > i {
                assert(lists_entry(rest, entries[k]));
                let x = choose|x: int| 0 <= x < rest.len() && describes(#[trigger] rest[x], entries[k]);
                if told(e) {
                    let y = if x < p {
                        x
                    } else {
                        x + 1
                    };
                    assert(all[y] == rest[x]);
                } else {
                    assert(all[x] == rest[x]);
                }
            }
        }
    } else {
        assert(entries.skip(i) =~= Seq::<HeaderEntry>::empty());
        reveal(Seq::filter);
    }
}

/// The tensor of the first entry is listed before that of the second.
pub open spec fn listed_in_order(
    metas: Seq<GdsTensorMeta>,
    first: HeaderEntry,
    second: HeaderEntry,
) -> bool {
    exists|a: int, b: int|
        0 <= a < b < metas.len() && describes(#[trigger] metas[a], first) && describes(
            #[trigger] metas[b],
            second,
        )
}

/// Of two tensors the one whose data start first comes first, and of two that
/// start together the one whose entry comes first.
pub proof fn law_metas_are_stable(entries: Seq<HeaderEntry>, m: int, i: int, j: int)
    requires
        0 <= m <= i < j < entries.len(),
        forall|k: int| 0 <= k < entries.len() ==> (#[trigger] entries[k]).offsets_ok(),
        entries[i].is_tensor(),
        entries[j].is_tensor(),
        entries[i].meta().data_offset <= entries[j].meta().data_offset,
    ensures
        listed_in_order(shards::metas_from(entries, m), entries[i], entries[j]),
    decreases i - m,
{
    let e = entries[m];
    let rest = shards::metas_from(entries, m + 1);
    let all = shards::metas_from(entries, m);
    let p = shards::place_of(rest, e.meta().data_offset);
    shards::lemma_place_of(rest, e.meta().data_offset);
    if m == i {
        law_metas_hold_every_tensor(entries, m + 1);
        assert(entries[j].dtype is Some);
        assert(lists_entry(rest, entries[j]));
        let y = choose|y: int| 0 <= y < rest.len() && describes(#[trigger] rest[y], entries[j]);
        assert(y >= p) by {
            if y < p {
                assert(rest[y].data_offset < e.meta().data_offset);
            }
        }
        assert(describes(all[p], entries[i]));
        assert(all[y + 1] == rest[y]);
    } else {
        law_metas_are_stable(entries, m + 1, i, j);
        let (a, b) = choose|a: int, b: int|
            0 <= a < b < rest.len() && describes(#[trigger] rest[a], entries[i]) && describes(
                #[trigger] rest[b],
                entries[j],
            );
        if e.is_tensor() {
            let x = if a < p {
                a
            } else {
                a + 1
            };
            let y = if b < p {
                b
            } else {
                b + 1
            };
            assert(all[x] == rest[a] && all[y] == rest[b]);
        } else {
            assert(all[a] == rest[a] && all[b] == rest[b]);
        }
    }
}

/// A shard's tensors are held with as many bytes as their data have, and the
/// tensors of other names stay as they are.
pub proof fn law_shard_adds_its_tensors(
    weights: Map<Seq<char>, TensorView>,
    tensors: Seq<ShardTensor>,
    ptrs: Seq<u64>,
    n: nat,
    name: Seq<char>,
)
    requires
        n <= tensors.len(),
        forall|k: int| 0 <= k < tensors.len() ==> (#[trigger] tensors[k]).data@.len() <= usize::MAX,
    ensures
        ({
            let after = shards::with_tensors(weights, tensors, ptrs, n);
            let named = exists|k: int| 0 <= k < n && (#[trigger] tensors[k]).name@ == name;
            &&& !named ==> after.contains_key(name) == weights.contains_key(name)
            &&& !named && weights.contains_key(name) ==> after[name] == weights[name]
            &&& named ==> after.contains_key(name) && exists|k: int|
                0 <= k < n && (#[trigger] tensors[k]).name@ == name && after[name].num_bytes
                    == tensors[k].data@.len()
        }),
    decreases n,
{
    if n > 0 {
        let m = (n - 1) as nat;
        law_shard_adds_its_tensors(weights, tensors, ptrs, m, name);
        let after = shards::with_tensors(weights, tensors, ptrs, n);
        if tensors[m as int].name@ == name {
            assert(after[name].num_bytes == tensors[m as int].data@.len());
        } else if exists|k: int| 0 <= k < n && (#[trigger] tensors[k]).name@ == name {
            let k = choose|k: int| 0 <= k < n && (#[trigger] tensors[k]).name@ == name;
            assert(k < m);
            assert(exists|k: int| 0 <= k < m && (#[trigger] tensors[k]).name@ == name);
        }
    }
}

/// The text is made up of something, the word, and something.
pub open spec fn has_word(whole: Seq<char>, word: Seq<char>) -> bool {
    exists|before: Seq<char>, after: Seq<char>| whole == #[trigger] (before + word + after)
}

/// A type is one that the model can take where its name has one of the words
/// for half precision in it, in capitals or not, and is the brain format
/// where that word is `bf16`.
pub proof fn law_types_by_word(dtype: Seq<char>)
    ensures
        llama_transformer::is_bfloat(dtype) <==> has_word(text::lower(dtype), "bf16"@),
        llama_transformer::is_bfloat(dtype) ==> llama_transformer::dtype_supported(dtype),
        llama_transformer::dtype_supported(dtype) <==> has_word(text::lower(dtype), "f16"@)
            || has_word(text::lower(dtype), "float16"@),
{
    let low = text::lower(dtype);
    text::law_contained_between(low, "bf16"@);
    text::law_contained_between(low, "f16"@);
    text::law_contained_between(low, "float16"@);
    if has_word(low, "bf16"@) {
        reveal_strlit("bf16");
        reveal_strlit("f16");
        let (before, after) = choose|before: Seq<char>, after: Seq<char>|
            low == #[trigger] (before + "bf16"@ + after);
        assert(low =~= (before.push('b') + "f16"@ + after));
        assert(has_word(low, "f16"@));
    }
}

/// The weights take the bytes of each of their tensors: where all have the
/// same number, that many times as many.
pub proof fn law_weights_take_all_bytes(w: ModelWeights, n: nat, size: usize)
    requires
        n <= w.tensors@.len(),
    ensures
        n > 0 ==> w.bytes_of(n) - w.bytes_of((n - 1) as nat) == w.tensors@[n - 1].num_bytes,
        (forall|i: int| 0 <= i < w.tensors@.len() ==> (#[trigger] w.tensors@[i]).num_bytes == size)
            ==> w.bytes_of(n) == n * size,
    decreases n,
{
    if n > 0 {
        law_weights_take_all_bytes(w, (n - 1) as nat, size);
        assert((n - 1) * size + size == n * size) by (nonlinear_arith);
    } else {
        assert(0 * size == 0) by (nonlinear_arith);
    }
}

} // verus!
