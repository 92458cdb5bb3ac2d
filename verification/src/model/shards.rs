use safetensors::tensor::{Metadata, SafeTensorError};
use safetensors::SafeTensors;
use vstd::prelude::*;
use vstd::string::*;

use crate::bytes;
use crate::bytes::read_le;
use crate::model::loader::{LoadError, HEADER_READ_MAX};
use crate::model::weights::{ModelWeights, RawTensor, TensorView};
use crate::text;
use crate::text::{lower_text, same_text};

verus! {

/// A file in a model's directory.
#[derive(Debug)]
pub struct DirEntry {
    /// The file's name, byte by byte.
    pub name: Vec<u8>,
    /// What follows the last dot of the name, where that is text.
    pub extension: Option<String>,
}

/// Whether a file is a shard: its extension says so, in any case.
pub open spec fn is_shard(e: DirEntry) -> bool {
    match e.extension {
        Some(x) => text::lower(x@) == "safetensors"@,
        None => false,
    }
}

/// Byte order: `a` stands before `b` or is the same.
pub open spec fn not_after(a: Seq<u8>, b: Seq<u8>) -> bool
    decreases a.len(),
{
    if a.len() == 0 {
        true
    } else if b.len() == 0 {
        false
    } else if a[0] != b[0] {
        a[0] < b[0]
    } else {
        not_after(a.drop_first(), b.drop_first())
    }
}

/// Byte order is total.
proof fn lemma_order_total(a: Seq<u8>, b: Seq<u8>)
    ensures
        not_after(a, b) || not_after(b, a),
    decreases a.len(),
{
    if a.len() > 0 && b.len() > 0 && a[0] == b[0] {
        lemma_order_total(a.drop_first(), b.drop_first());
    }
}

/// Byte order is transitive.
proof fn lemma_order_transitive(a: Seq<u8>, b: Seq<u8>, c: Seq<u8>)
    requires
        not_after(a, b),
        not_after(b, c),
    ensures
        not_after(a, c),
    decreases a.len(),
{
    if a.len() > 0 && b.len() > 0 && c.len() > 0 && a[0] == b[0] && b[0] == c[0] {
        lemma_order_transitive(a.drop_first(), b.drop_first(), c.drop_first());
    }
}

/// Names that agree on their first `i` bytes stand as their rests do.
proof fn lemma_order_skips(a: Seq<u8>, b: Seq<u8>, i: int)
    requires
        0 <= i <= a.len(),
        i <= b.len(),
        forall|k: int| 0 <= k < i ==> a[k] == b[k],
    ensures
        not_after(a, b) == not_after(a.skip(i), b.skip(i)),
    decreases i,
{
    if i == 0 {
        assert(a.skip(0) =~= a);
        assert(b.skip(0) =~= b);
    } else {
        assert forall|k: int| 0 <= k < i - 1 implies a.drop_first()[k] == b.drop_first()[k] by {
            assert(a[k + 1] == b[k + 1]);
        }
        lemma_order_skips(a.drop_first(), b.drop_first(), i - 1);
        assert(a.drop_first().skip(i - 1) =~= a.skip(i));
        assert(b.drop_first().skip(i - 1) =~= b.skip(i));
    }
}

/// Whether name `a` stands before `b` or is the same.
fn name_not_after(a: &Vec<u8>, b: &Vec<u8>) -> (r: bool)
    ensures
        r == not_after(a@, b@),
{
    let mut i: usize = 0;
    while i < a.len() && i < b.len()
        invariant
            i <= a@.len(),
            i <= b@.len(),
            forall|k: int| 0 <= k < i ==> a@[k] == b@[k],
        decreases a@.len() - i,
    {
        if a[i] != b[i] {
            proof {
                lemma_order_skips(a@, b@, i as int);
                assert(a@.skip(i as int)[0] == a@[i as int]);
                assert(b@.skip(i as int)[0] == b@[i as int]);
            }
            return a[i] < b[i];
        }
        i = i + 1;
    }
    proof {
        lemma_order_skips(a@, b@, i as int);
    }
    i == a.len()
}

/// The chosen files are shards, each once, in the order of their names.
pub open spec fn in_name_order(entries: Seq<DirEntry>, chosen: Seq<usize>) -> bool {
    &&& forall|i: int|
        0 <= i < chosen.len() ==> (#[trigger] chosen[i]) < entries.len() && is_shard(
            entries[chosen[i] as int],
        )
    &&& forall|i: int, j: int|
        0 <= i < j < chosen.len() ==> #[trigger] chosen[i] != #[trigger] chosen[j] && not_after(
            entries[chosen[i] as int].name@,
            entries[chosen[j] as int].name@,
        )
}

/// Put a file into the files chosen so far, by its name.
fn place(entries: &Vec<DirEntry>, chosen: &mut Vec<usize>, e: usize)
    requires
        in_name_order(entries@, old(chosen)@),
        e < entries@.len(),
        is_shard(entries@[e as int]),
        !old(chosen)@.contains(e),
    ensures
        in_name_order(entries@, final(chosen)@),
        forall|x: usize|
            #[trigger] final(chosen)@.contains(x) <==> old(chosen)@.contains(x) || x == e,
{
    let mut p: usize = chosen.len();
    while p > 0 && !name_not_after(&entries[chosen[p - 1]].name, &entries[e].name)
        invariant
            chosen@ == old(chosen)@,
            in_name_order(entries@, chosen@),
            e < entries@.len(),
            p <= chosen@.len(),
            forall|k: int|
                p <= k < chosen@.len() ==> !not_after(
                    entries@[(#[trigger] chosen@[k]) as int].name@,
                    entries@[e as int].name@,
                ),
        decreases p,
    {
        p = p - 1;
    }
    let ghost before = chosen@;
    chosen.insert(p, e);
    proof {
        let after = chosen@;
        assert forall|i: int, j: int| 0 <= i < j < after.len() implies #[trigger] after[i]
            != #[trigger] after[j] && not_after(
            entries@[after[i] as int].name@,
            entries@[after[j] as int].name@,
        ) by {
            let bi = if i < p {
                i
            } else {
                i - 1
            };
            let bj = if j < p {
                j
            } else {
                j - 1
            };
            if j == p {
                assert(before.contains(before[bi]));
                assert(not_after(
                    entries@[before[p - 1] as int].name@,
                    entries@[e as int].name@,
                ));
                if bi < p - 1 {
                    assert(before[bi] != before[p - 1]);
                    lemma_order_transitive(
                        entries@[before[bi] as int].name@,
                        entries@[before[p - 1] as int].name@,
                        entries@[e as int].name@,
                    );
                }
            } else if i == p {
                assert(before.contains(before[bj]));
                assert(!not_after(
                    entries@[before[bj] as int].name@,
                    entries@[e as int].name@,
                ));
                lemma_order_total(entries@[before[bj] as int].name@, entries@[e as int].name@);
            } else {
                assert(before[bi] != before[bj]);
            }
        }
        assert forall|x: usize| #[trigger] after.contains(x) <==> before.contains(x) || x == e by {
            if before.contains(x) {
                let k = choose|k: int| 0 <= k < before.len() && before[k] == x;
                if k < p {
                    assert(after[k] == x);
                } else {
                    assert(after[k + 1] == x);
                }
            }
            if x == e {
                assert(after[p as int] == x);
            }
            if after.contains(x) && x != e {
                let k = choose|k: int| 0 <= k < after.len() && after[k] == x;
                if k < p {
                    assert(before[k] == x);
                } else {
                    assert(before[k - 1] == x);
                }
            }
        }
    }
}

/// The shards among a directory's files, in the order of their names, by
/// index. A directory without one cannot be loaded.
pub fn select_shards(entries: &Vec<DirEntry>) -> (r: Result<Vec<usize>, LoadError>)
    ensures
        match r {
            Ok(chosen) => {
                &&& in_name_order(entries@, chosen@)
                &&& forall|x: usize|
                    #[trigger] chosen@.contains(x) <==> x < entries@.len() && is_shard(
                        entries@[x as int],
                    )
                &&& chosen@.len() > 0
            },
            Err(e) => {
                &&& e is NoShards
                &&& forall|i: int| 0 <= i < entries@.len() ==> !is_shard(#[trigger] entries@[i])
            },
        },
{
    let mut chosen: Vec<usize> = Vec::new();
    let mut i: usize = 0;
    while i < entries.len()
        invariant
            i <= entries@.len(),
            in_name_order(entries@, chosen@),
            forall|x: usize|
                #[trigger] chosen@.contains(x) <==> x < i && is_shard(entries@[x as int]),
        decreases entries@.len() - i,
    {
        let shard: bool = match &entries[i].extension {
            Some(x) => same_text(lower_text(x.as_str()).as_str(), "safetensors"),
            None => false,
        };
        if shard {
            place(entries, &mut chosen, i);
        }
        i = i + 1;
    }
    if chosen.len() == 0 {
        proof {
            assert forall|k: int| 0 <= k < entries@.len() implies !is_shard(
                #[trigger] entries@[k],
            ) by {
                assert(!chosen@.contains(k as usize));
            }
        }
        Err(LoadError::NoShards)
    } else {
        Ok(chosen)
    }
}

/// Length of a shard's header as its first bytes give it.
pub open spec fn header_len(bytes: Seq<u8>) -> nat {
    bytes::le_value(bytes.subrange(0, 8))
}

/// A shard's header; empty where the bytes do not hold all of it.
pub open spec fn header(bytes: Seq<u8>) -> Seq<u8> {
    if header_complete(bytes) {
        bytes.subrange(8, 8 + header_len(bytes) as int)
    } else {
        Seq::empty()
    }
}

/// Where a shard's header starts and ends.
pub fn header_range(bytes: &[u8]) -> (r: Result<(usize, usize), LoadError>)
    ensures
        match r {
            Ok((from, to)) => {
                &&& bytes@.len() >= 8
                &&& from == 8
                &&& to == 8 + header_len(bytes@)
                &&& to <= bytes@.len()
                &&& bytes@.subrange(from as int, to as int) == header(bytes@)
            },
            Err(LoadError::HeaderTooShort { have }) => bytes@.len() < 8 && have == bytes@.len(),
            Err(LoadError::HeaderTruncated { header_len: h, have }) => {
                &&& bytes@.len() >= 8
                &&& h == header_len(bytes@)
                &&& have == bytes@.len()
                &&& 8 + h > have
            },
            Err(_) => false,
        },
{
    if bytes.len() < 8 {
        return Err(LoadError::HeaderTooShort { have: bytes.len() });
    }
    let len: u64 = read_le(bytes, 0, 8);
    if len > (bytes.len() - 8) as u64 {
        return Err(LoadError::HeaderTruncated { header_len: len, have: bytes.len() });
    }
    Ok((8, 8 + len as usize))
}

/// A tensor of a shard.
#[derive(Debug)]
pub struct ShardTensor<'a> {
    pub name: String,
    /// Name of the element type.
    pub dtype: String,
    pub shape: Vec<usize>,
    pub data: &'a [u8],
}

impl<'a> ShardTensor<'a> {
    /// Element type, shape and data.
    pub open spec fn content(&self) -> (Seq<char>, Seq<usize>, Seq<u8>) {
        (self.dtype@, self.shape@, self.data@)
    }
}

/// The tensors of a shard by name, each with its element type, shape and
/// data; `None` for bytes that are no shard.
pub uninterp spec fn shard_tensors(bytes: Seq<u8>) -> Option<
    Map<Seq<char>, (Seq<char>, Seq<usize>, Seq<u8>)>,
>;

/// The list holds each tensor of the map once.
pub open spec fn lists(
    tensors: Seq<ShardTensor>,
    m: Map<Seq<char>, (Seq<char>, Seq<usize>, Seq<u8>)>,
) -> bool {
    &&& forall|i: int|
        0 <= i < tensors.len() ==> m.dom().contains((#[trigger] tensors[i]).name@)
            && m[tensors[i].name@] == tensors[i].content()
    &&& forall|i: int, j: int|
        0 <= i < j < tensors.len() ==> (#[trigger] tensors[i]).name@ != (
        #[trigger] tensors[j]).name@
    &&& forall|name: Seq<char>| #[trigger]
        m.dom().contains(name) ==> exists|i: int|
            0 <= i < tensors.len() && (#[trigger] tensors[i]).name@ == name
}

/// Where the parts of a header's tensors end; `None` for bytes that are no
/// header.
pub uninterp spec fn part_ends(header: Seq<u8>) -> Option<Set<usize>>;

/// `serde_json::from_slice` to a `Metadata`, and `Metadata::tensors` on its
/// result. The ends of the parts are a function of the bytes, though not
/// their order, which is that of a hash map. Numbers are read as addresses of
/// 64 bits, the width wherever the driver runs.
#[verifier::external_body]
fn header_ends(header: &[u8]) -> (r: Option<Vec<usize>>)
    ensures
        r is Some <==> part_ends(header@) is Some,
        r matches Some(ends) ==> ends@.to_set() == part_ends(header@)->0,
{
    let metadata: Metadata = serde_json::from_slice(header).ok()?;
    let ends: Vec<usize> = metadata.tensors().into_values().map(
        |info| info.data_offsets.1,
    ).collect();
    Some(ends)
}

/// Whether a shard holds all of its header.
pub open spec fn header_complete(bytes: Seq<u8>) -> bool {
    bytes.len() >= 8 && 8 + header_len(bytes) <= bytes.len()
}

/// Whether a shard's header has a part end so far behind the header that no
/// shard could hold it.
pub open spec fn ends_too_far(bytes: Seq<u8>) -> bool {
    &&& header_complete(bytes)
    &&& part_ends(header(bytes)) matches Some(ends)
    &&& exists|e: usize| #[trigger] ends.contains(e) && e + 8 + header_len(bytes) > usize::MAX
}

/// `SafeTensors::deserialize`, and `SafeTensors::tensors` on its result. The
/// tensors are a function of the bytes, though not their order, which is that
/// of a hash map. `deserialize` adds the last part's end to the length of the
/// header, so that this sum has to be a number of bytes.
#[verifier::external_body]
fn deserialize<'a>(bytes: &'a [u8]) -> (r: Result<Vec<ShardTensor<'a>>, SafeTensorError>)
    requires
        !ends_too_far(bytes@),
    ensures
        r is Ok <==> shard_tensors(bytes@) is Some,
        r matches Ok(tensors) ==> lists(tensors@, shard_tensors(bytes@)->0),
{
    let shard = SafeTensors::deserialize(bytes)?;
    let tensors = shard.tensors().into_iter().map(
        |(name, view)|
            ShardTensor {
                name,
                dtype: format!("{:?}", view.dtype()),
                shape: view.shape().to_vec(),
                data: view.data(),
            },
    );
    Ok(tensors.collect())
}

/// Whether a part ends too far behind a header of `len` bytes.
fn any_too_far(ends: &Vec<usize>, len: usize) -> (r: bool)
    requires
        8 + len <= usize::MAX,
    ensures
        r == exists|e: usize| #[trigger] ends@.to_set().contains(e) && e + 8 + len > usize::MAX,
{
    let mut i: usize = 0;
    while i < ends.len()
        invariant
            i <= ends@.len(),
            8 + len <= usize::MAX,
            forall|k: int| 0 <= k < i ==> #[trigger] ends@[k] + 8 + len <= usize::MAX,
        decreases ends@.len() - i,
    {
        if ends[i] > usize::MAX - 8 - len {
            assert(ends@.to_set().contains(ends@[i as int]));
            return true;
        }
        i = i + 1;
    }
    false
}

/// Read the tensors of a shard. A header of which a part ends further away
/// than bytes can be counted is refused.
pub fn read_shard<'a>(bytes: &'a [u8]) -> (r: Result<Vec<ShardTensor<'a>>, LoadError>)
    ensures
        match r {
            Ok(tensors) => {
                &&& !ends_too_far(bytes@)
                &&& shard_tensors(bytes@) matches Some(m)
                &&& lists(tensors@, m)
            },
            Err(LoadError::EndTooFar) => ends_too_far(bytes@),
            Err(LoadError::Malformed(_)) => !ends_too_far(bytes@) && shard_tensors(bytes@) is None,
            Err(_) => false,
        },
{
    if let Ok((from, to)) = header_range(bytes) {
        if let Some(ends) = header_ends(vstd::slice::slice_subrange(bytes, from, to)) {
            if any_too_far(&ends, to - from) {
                return Err(LoadError::EndTooFar);
            }
        }
    }
    match deserialize(bytes) {
        Ok(tensors) => Ok(tensors),
        Err(e) => Err(LoadError::Malformed(e)),
    }
}

/// The weights after the first `n` tensors were added, tensor `i` at device
/// address `ptrs[i]`.
pub open spec fn with_tensors(
    weights: Map<Seq<char>, TensorView>,
    tensors: Seq<ShardTensor>,
    ptrs: Seq<u64>,
    n: nat,
) -> Map<Seq<char>, TensorView>
    decreases n,
{
    if n == 0 {
        weights
    } else {
        let t = tensors[n - 1];
        with_tensors(weights, tensors, ptrs, (n - 1) as nat).insert(
            t.name@,
            TensorView {
                shape: t.shape@,
                dtype: t.dtype@,
                device_ptr: ptrs[n - 1],
                num_bytes: t.data@.len() as usize,
            },
        )
    }
}

/// A copy of a shape.
fn copy_shape(shape: &Vec<usize>) -> (r: Vec<usize>)
    ensures
        r@ == shape@,
{
    let mut out: Vec<usize> = Vec::new();
    let mut i: usize = 0;
    while i < shape.len()
        invariant
            i <= shape@.len(),
            out@ == shape@.take(i as int),
        decreases shape@.len() - i,
    {
        out.push(shape[i]);
        i = i + 1;
    }
    assert(shape@.take(shape@.len() as int) =~= shape@);
    out
}

/// Add the tensors of a shard to the weights, after their data was copied to
/// the device.
pub fn add_shard(weights: &mut ModelWeights, tensors: &Vec<ShardTensor>, ptrs: &Vec<u64>)
    requires
        old(weights).wf(),
        ptrs@.len() == tensors@.len(),
    ensures
        final(weights).wf(),
        final(weights).cfg == old(weights).cfg,
        final(weights)@ == with_tensors(old(weights)@, tensors@, ptrs@, tensors@.len()),
{
    let mut i: usize = 0;
    while i < tensors.len()
        invariant
            i <= tensors@.len(),
            ptrs@.len() == tensors@.len(),
            weights.wf(),
            weights.cfg == old(weights).cfg,
            weights@ == with_tensors(old(weights)@, tensors@, ptrs@, i as nat),
        decreases tensors@.len() - i,
    {
        let t: &ShardTensor = &tensors[i];
        let raw: RawTensor = RawTensor {
            shape: copy_shape(&t.shape),
            dtype: t.dtype.clone(),
            device_ptr: ptrs[i],
            num_bytes: t.data.len(),
        };
        weights.insert(t.name.clone(), raw);
        i = i + 1;
    }
}

/// The order in which a shard's tensors are read does not matter: the weights
/// hold each of them.
pub proof fn law_shard_is_held(
    weights: Map<Seq<char>, TensorView>,
    tensors: Seq<ShardTensor>,
    ptrs: Seq<u64>,
    n: nat,
    i: int,
)
    requires
        n <= tensors.len(),
        0 <= i < n,
        forall|a: int, b: int|
            0 <= a < b < tensors.len() ==> (#[trigger] tensors[a]).name@ != (
            #[trigger] tensors[b]).name@,
    ensures
        ({
            let after = with_tensors(weights, tensors, ptrs, n);
            let t = tensors[i];
            &&& after.dom().contains(t.name@)
            &&& after[t.name@].shape == t.shape@
            &&& after[t.name@].dtype == t.dtype@
            &&& after[t.name@].device_ptr == ptrs[i]
        }),
    decreases n,
{
    if i < n - 1 {
        law_shard_is_held(weights, tensors, ptrs, (n - 1) as nat, i);
        assert(tensors[i].name@ != tensors[n - 1].name@);
    }
}

/// What a shard's header says of one entry.
#[derive(Debug)]
pub struct HeaderEntry {
    pub name: String,
    pub dtype: Option<String>,
    pub shape: Option<Vec<usize>>,
    /// Where the data starts and ends.
    pub data_offsets: Option<(usize, usize)>,
}

/// A tensor of a shard, without its data.
#[derive(Debug)]
pub struct GdsTensorMeta {
    pub name: String,
    pub dtype: String,
    pub shape: Vec<usize>,
    pub data_offset: usize,
    pub data_len: usize,
}

impl HeaderEntry {
    /// Whether the entry describes a tensor.
    pub open spec fn is_tensor(self) -> bool {
        self.dtype is Some && self.shape is Some && self.data_offsets is Some
    }

    /// The data does not end before it starts.
    pub open spec fn offsets_ok(self) -> bool {
        self.data_offsets matches Some((from, to)) ==> from <= to
    }

    /// The tensor that the entry describes.
    pub open spec fn meta(self) -> GdsTensorMeta {
        let (from, to) = self.data_offsets->0;
        GdsTensorMeta {
            name: self.name,
            dtype: self.dtype->0,
            shape: self.shape->0,
            data_offset: from,
            data_len: (to - from) as usize,
        }
    }
}

/// The place of a tensor whose data starts at `offset` before those that do
/// not start earlier: the number of those at the front that do.
pub open spec fn place_of(metas: Seq<GdsTensorMeta>, offset: usize) -> int
    decreases metas.len(),
{
    if metas.len() == 0 || metas[0].data_offset >= offset {
        0
    } else {
        1 + place_of(metas.drop_first(), offset)
    }
}

/// The tensors among the entries from `i` on, in the order of their data;
/// those that start together in the order of their entries.
pub open spec fn metas_from(entries: Seq<HeaderEntry>, i: int) -> Seq<GdsTensorMeta>
    decreases entries.len() - i,
{
    if i >= entries.len() {
        Seq::empty()
    } else {
        let rest = metas_from(entries, i + 1);
        let e = entries[i];
        if e.is_tensor() {
            rest.insert(place_of(rest, e.meta().data_offset), e.meta())
        } else {
            rest
        }
    }
}

/// The place is within the list, and what stands before it starts earlier.
pub proof fn lemma_place_of(metas: Seq<GdsTensorMeta>, offset: usize)
    ensures
        0 <= place_of(metas, offset) <= metas.len(),
        forall|k: int|
            0 <= k < place_of(metas, offset) ==> (#[trigger] metas[k]).data_offset < offset,
        place_of(metas, offset) < metas.len() ==> metas[place_of(metas, offset)].data_offset
            >= offset,
    decreases metas.len(),
{
    if metas.len() > 0 && metas[0].data_offset < offset {
        let rest = metas.drop_first();
        lemma_place_of(rest, offset);
        assert forall|k: int| 0 <= k < place_of(metas, offset) implies (
        #[trigger] metas[k]).data_offset < offset by {
            if k > 0 {
                assert(rest[k - 1] == metas[k]);
            }
        }
    }
}

/// Two places with these properties are the same.
proof fn lemma_place_unique(metas: Seq<GdsTensorMeta>, offset: usize, p: int)
    requires
        0 <= p <= metas.len(),
        forall|k: int| 0 <= k < p ==> (#[trigger] metas[k]).data_offset < offset,
        p < metas.len() ==> metas[p].data_offset >= offset,
    ensures
        p == place_of(metas, offset),
{
    lemma_place_of(metas, offset);
    let q = place_of(metas, offset);
    if q < p {
        assert(metas[q].data_offset < offset);
    } else if p < q {
        assert(metas[p].data_offset < offset);
    }
}

/// The tensors that a header describes, in the order of their data.
pub fn tensor_metas(entries: Vec<HeaderEntry>) -> (r: Vec<GdsTensorMeta>)
    requires
        forall|i: int| 0 <= i < entries@.len() ==> (#[trigger] entries@[i]).offsets_ok(),
    ensures
        r@ == metas_from(entries@, 0),
{
    let ghost all = entries@;
    let mut entries: Vec<HeaderEntry> = entries;
    let mut out: Vec<GdsTensorMeta> = Vec::new();
    assert(all.take(all.len() as int) =~= all);
    while entries.len() > 0
        invariant
            entries@.len() <= all.len(),
            entries@ == all.take(entries@.len() as int),
            forall|i: int| 0 <= i < all.len() ==> (#[trigger] all[i]).offsets_ok(),
            out@ == metas_from(all, entries@.len() as int),
        decreases entries@.len(),
    {
        let ghost i = entries@.len() - 1;
        if let Some(e) = entries.pop() {
            assert(e == all[i]);
            assert(entries@ =~= all.take(i));
            if let (Some(dtype), Some(shape), Some((from, to))) = (e.dtype, e.shape, e.data_offsets) {
                assert(all[i].offsets_ok());
                let meta: GdsTensorMeta = GdsTensorMeta {
                    name: e.name,
                    dtype,
                    shape,
                    data_offset: from,
                    data_len: to - from,
                };
                assert(meta == all[i].meta());
                let mut p: usize = 0;
                while p < out.len() && out[p].data_offset < from
                    invariant
                        p <= out@.len(),
                        forall|k: int| 0 <= k < p ==> (#[trigger] out@[k]).data_offset < from,
                    decreases out@.len() - p,
                {
                    p = p + 1;
                }
                proof {
                    lemma_place_unique(out@, from, p as int);
                }
                out.insert(p, meta);
            }
        }
    }
    out
}

/// The tensors come in the order of their data.
pub proof fn law_metas_in_order(entries: Seq<HeaderEntry>, i: int)
    requires
        0 <= i <= entries.len(),
    ensures
        forall|a: int, b: int|
            0 <= a < b < metas_from(entries, i).len() ==> (
            #[trigger] metas_from(entries, i)[a]).data_offset <= (
            #[trigger] metas_from(entries, i)[b]).data_offset,
    decreases entries.len() - i,
{
    if i < entries.len() {
        law_metas_in_order(entries, i + 1);
        let rest = metas_from(entries, i + 1);
        let e = entries[i];
        if e.is_tensor() {
            let x = e.meta().data_offset;
            lemma_place_of(rest, x);
            let p = place_of(rest, x);
            let all = metas_from(entries, i);
            assert forall|a: int, b: int| 0 <= a < b < all.len() implies (
            #[trigger] all[a]).data_offset <= (#[trigger] all[b]).data_offset by {
                let ra = if a < p {
                    a
                } else {
                    a - 1
                };
                let rb = if b < p {
                    b
                } else {
                    b - 1
                };
                if a == p {
                    assert(all[b] == rest[rb]);
                    assert(rest[p].data_offset >= x);
                    if p < rb {
                        assert(rest[p].data_offset <= rest[rb].data_offset);
                    }
                } else if b == p {
                    assert(all[a] == rest[ra]);
                } else {
                    assert(all[a] == rest[ra] && all[b] == rest[rb]);
                }
            }
        }
    }
}

/// What came of reading a part of a file into device memory.
#[derive(Debug, Clone, Copy, PartialEq, Eq, Structural)]
pub enum DeviceRead {
    /// The read failed.
    Failed,
    /// The read gave this many bytes, which is not what was asked for.
    Short(usize),
    /// The read gave what was asked for.
    Full,
}

/// Tell the outcomes of a device read apart: negative numbers are errors.
pub fn device_read(nread: i64, expected: usize) -> (r: DeviceRead)
    requires
        nread <= usize::MAX,
    ensures
        r == if nread < 0 {
            DeviceRead::Failed
        } else if nread == expected {
            DeviceRead::Full
        } else {
            DeviceRead::Short(nread as usize)
        },
{
    if nread < 0 {
        DeviceRead::Failed
    } else if nread as usize == expected {
        DeviceRead::Full
    } else {
        DeviceRead::Short(nread as usize)
    }
}

/// Bytes of a shard's start that can be used after a device read of
/// `HEADER_READ_MAX` bytes; `None` where the read failed.
pub fn header_read(nread: i64) -> (r: Option<usize>)
    ensures
        r == if nread < 0 {
            None::<usize>
        } else if nread < HEADER_READ_MAX {
            Some(nread as usize)
        } else {
            Some(HEADER_READ_MAX)
        },
{
    if nread < 0 {
        None
    } else if nread < HEADER_READ_MAX as i64 {
        Some(nread as usize)
    } else {
        Some(HEADER_READ_MAX)
    }
}

/// The weight tensor that a header's entry describes, once its data is on the
/// device.
pub fn placed_tensor(meta: &GdsTensorMeta, device_ptr: u64) -> (r: RawTensor)
    ensures
        r@ == (TensorView {
            shape: meta.shape@,
            dtype: meta.dtype@,
            device_ptr,
            num_bytes: meta.data_len,
        }),
{
    RawTensor {
        shape: copy_shape(&meta.shape),
        dtype: meta.dtype.clone(),
        device_ptr,
        num_bytes: meta.data_len,
    }
}

} // verus!
