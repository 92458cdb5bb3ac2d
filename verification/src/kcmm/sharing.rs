use std::collections::HashMap;
use vstd::prelude::*;

use crate::kcmm::superblock::BlockHandle;

verus! {

/// Looks up prefixes that sequences could share, by the hash of their
/// contents.
///
/// Prefixes are not recorded yet: registering one, and counting references to
/// its blocks, has no effect.
#[derive(Debug)]
pub struct SharingManager {
    /// Content hash to the blocks that form the prefix.
    pub prefix_index: HashMap<u64, Vec<BlockHandle>>,
    /// Maximum prefix length to consider for sharing.
    pub max_prefix_len: usize,
}

impl SharingManager {
    /// A manager that knows no prefix.
    pub fn new(max_prefix_len: usize) -> (r: Self)
        ensures
            r.prefix_index@ == Map::<u64, Vec<BlockHandle>>::empty(),
            r.max_prefix_len == max_prefix_len,
    {
        SharingManager { prefix_index: HashMap::new(), max_prefix_len }
    }

    /// The blocks of the prefix with the given content hash, if it is known.
    pub fn try_share_prefix(&self, content_hash: u64) -> (r: Option<&[BlockHandle]>)
        ensures
            r is Some <==> self.prefix_index@.contains_key(content_hash),
            r matches Some(blocks) ==> blocks@ == self.prefix_index@[content_hash]@,
    {
        broadcast use vstd::std_specs::hash::group_hash_axioms;

        match self.prefix_index.get(&content_hash) {
            Some(blocks) => Some(blocks.as_slice()),
            None => None,
        }
    }

    /// Register a prefix for sharing. It is not recorded yet.
    pub fn register_prefix(&mut self, _content_hash: u64, _blocks: Vec<BlockHandle>)
        ensures
            *final(self) == *old(self),
    {
    }

    /// Count a reference to a block. References are not counted yet.
    pub fn incref(&mut self, _block: BlockHandle)
        ensures
            *final(self) == *old(self),
    {
    }

    /// Give up a reference to a block. Returns whether none is left, which is
    /// never said while references are not counted.
    pub fn decref(&mut self, _block: BlockHandle) -> (r: bool)
        ensures
            *final(self) == *old(self),
            !r,
    {
        false
    }
}

} // verus!
