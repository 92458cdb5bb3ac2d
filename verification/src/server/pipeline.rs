use vstd::prelude::*;

use crate::bytes;
use crate::bytes::{read_le, write_le};
use crate::kcmm::superblock::HALF_BYTES;

verus! {

/// Bytes of the header before an activation.
pub const HEADER_SIZE: usize = 20;

/// First bytes of the header.
pub const MAGIC: u32 = 0xC0FFEE42;

/// Why an activation cannot be sent or received.
#[derive(Debug, Clone, Copy, PartialEq, Eq, Structural)]
pub enum PipelineError {
    /// The header starts with something else.
    BadMagic(u32),
    /// The activation does not have as many elements as its extents say.
    ShapeMismatch,
    /// The activation does not fit into memory.
    TooLarge,
}

/// The header of an activation of `batch` rows of `hidden` elements.
pub open spec fn header_bytes(batch: u64, hidden: u64) -> Seq<u8> {
    bytes::le_bytes(MAGIC as nat, 4) + bytes::le_bytes(batch as nat, 8) + bytes::le_bytes(
        hidden as nat,
        8,
    )
}

/// The header of an activation of `batch` rows of `hidden` elements.
pub fn encode_header(batch: u64, hidden: u64) -> (r: Vec<u8>)
    ensures
        r@ == header_bytes(batch, hidden),
        r@.len() == HEADER_SIZE,
{
    let mut out: Vec<u8> = Vec::new();
    write_le(&mut out, MAGIC as u64, 4);
    write_le(&mut out, batch, 8);
    write_le(&mut out, hidden, 8);
    proof {
        bytes::lemma_le_bytes_len(MAGIC as nat, 4);
        bytes::lemma_le_bytes_len(batch as nat, 8);
        bytes::lemma_le_bytes_len(hidden as nat, 8);
        assert(out@ =~= header_bytes(batch, hidden));
    }
    out
}

/// The extents that a header gives.
pub fn decode_header(header: &[u8]) -> (r: Result<(u64, u64), PipelineError>)
    requires
        header@.len() == HEADER_SIZE,
    ensures
        ({
            let magic = bytes::le_value(header@.subrange(0, 4));
            if magic == MAGIC {
                &&& r matches Ok((batch, hidden))
                &&& batch == bytes::le_value(header@.subrange(4, 12))
                &&& hidden == bytes::le_value(header@.subrange(12, 20))
            } else {
                r matches Err(PipelineError::BadMagic(m)) && m == magic
            }
        }),
{
    proof {
        bytes::lemma_le_value_bounded(header@.subrange(0, 4));
        bytes::lemma_byte_ranges();
    }
    let magic: u32 = read_le(header, 0, 4) as u32;
    if magic != MAGIC {
        return Err(PipelineError::BadMagic(magic));
    }
    Ok((read_le(header, 4, 8), read_le(header, 12, 8)))
}

/// What was encoded is decoded again.
pub proof fn law_header_round_trip(batch: u64, hidden: u64)
    ensures
        header_bytes(batch, hidden).len() == HEADER_SIZE,
        bytes::le_value(header_bytes(batch, hidden).subrange(0, 4)) == MAGIC,
        bytes::le_value(header_bytes(batch, hidden).subrange(4, 12)) == batch,
        bytes::le_value(header_bytes(batch, hidden).subrange(12, 20)) == hidden,
{
    bytes::lemma_byte_ranges();
    bytes::law_le_round_trip(MAGIC as nat, 4);
    bytes::law_le_round_trip(batch as nat, 8);
    bytes::law_le_round_trip(hidden as nat, 8);
    let h = header_bytes(batch, hidden);
    assert(h.subrange(0, 4) =~= bytes::le_bytes(MAGIC as nat, 4));
    assert(h.subrange(4, 12) =~= bytes::le_bytes(batch as nat, 8));
    assert(h.subrange(12, 20) =~= bytes::le_bytes(hidden as nat, 8));
}

/// Elements and bytes of an activation, from its header.
pub fn payload(batch: u64, hidden: u64) -> (r: Result<(usize, usize), PipelineError>)
    ensures
        match r {
            Ok((elems, nbytes)) => elems == batch * hidden && nbytes == elems * HALF_BYTES,
            Err(e) => e is TooLarge && batch * hidden * HALF_BYTES > usize::MAX,
        },
{
    proof {
        assert(batch * hidden <= u64::MAX * u64::MAX) by (nonlinear_arith)
            requires
                0 <= batch <= u64::MAX,
                0 <= hidden <= u64::MAX,
        ;
    }
    let elems: u128 = batch as u128 * hidden as u128;
    if elems > (usize::MAX / HALF_BYTES) as u128 {
        return Err(PipelineError::TooLarge);
    }
    Ok((elems as usize, elems as usize * HALF_BYTES))
}

/// Check that an activation has as many elements as its extents say.
pub fn check_shape(elems: usize, batch: usize, hidden: usize) -> (r: Result<(), PipelineError>)
    requires
        batch * hidden <= usize::MAX,
    ensures
        r == if elems == batch * hidden {
            Ok::<(), PipelineError>(())
        } else {
            Err(PipelineError::ShapeMismatch)
        },
{
    if elems == batch * hidden {
        Ok(())
    } else {
        Err(PipelineError::ShapeMismatch)
    }
}

/// A header starts with the four bytes of the magic number, lowest first,
/// then the batch, then the hidden size.
pub proof fn law_header_layout(batch: u64, hidden: u64)
    ensures
        ({
            let h = header_bytes(batch, hidden);
            &&& h.len() == 20
            &&& h[0] == 0x42 && h[1] == 0xEE && h[2] == 0xFF && h[3] == 0xC0
            &&& h[4] == batch % 256
            &&& h[12] == hidden % 256
        }),
{
    reveal_with_fuel(bytes::le_bytes, 5);
    reveal_with_fuel(bytes::byte_range, 5);
    let m = MAGIC as nat;
    bytes::lemma_le_bytes_len(m, 4);
    bytes::lemma_le_bytes_len(batch as nat, 8);
    bytes::lemma_le_bytes_len(hidden as nat, 8);
    bytes::law_lowest_byte_first(m, 4, 0);
    bytes::law_lowest_byte_first(m, 4, 1);
    bytes::law_lowest_byte_first(m, 4, 2);
    bytes::law_lowest_byte_first(m, 4, 3);
    bytes::law_lowest_byte_first(batch as nat, 8, 0);
    bytes::law_lowest_byte_first(hidden as nat, 8, 0);
}

} // verus!
