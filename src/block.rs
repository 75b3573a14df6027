//! One block's unit of work: its payload, its replicas and, once built, its index.
use vstd::prelude::*;
use crate::indexer::{
    accepted, entries, groups_within, index_observations, indexes, scan_observations, BlockIndex,
};
use crate::store::{write_layout, written, BlockMetadata};

verus! {

/// The kind of work asked for a block.
#[derive(Clone, Copy, PartialEq, Eq, Structural, Debug)]
pub enum Operation {
    INDEX,
    WRITE,
    TRANSFER,
}

/// A peer that receives copies of a block.
pub struct ReplicaEndpoint {
    pub datanode_uuid: String,
    pub ip_addr: String,
    pub xfer_port: u32,
}

/// A block on its way through indexing, writing and transfer.
pub struct BlockOperation {
    pub operation: Operation,
    pub block_id: u64,
    pub data: Vec<u8>,
    pub replicas: Vec<ReplicaEndpoint>,
    pub index: Option<BlockIndex>,
}

impl BlockOperation {
    /// A unit of work on a block's payload, with no index yet.
    pub fn new(operation: Operation, block_id: u64, data: Vec<u8>, replicas: Vec<ReplicaEndpoint>) -> (r:
        BlockOperation)
        ensures
            r.operation == operation,
            r.block_id == block_id,
            r.data@ == data@,
            r.replicas@ == replicas@,
            r.index is None,
    {
        BlockOperation { operation, block_id, data, replicas, index: None }
    }

    /// Builds the block's index from the spatial code of each of its indexed
    /// records (those that `crate::indexer::accepted` gives, in that order).
    pub fn build_index(&mut self, codes: &Vec<Option<Vec<char>>>)
        requires
            codes@.len() == accepted(old(self).data@).len(),
        ensures
            final(self).operation == old(self).operation,
            final(self).block_id == old(self).block_id,
            final(self).data@ == old(self).data@,
            final(self).replicas@ == old(self).replicas@,
            final(self).index matches Some(idx) && indexes(
                idx,
                entries(old(self).data@, accepted(old(self).data@), codes@, codes@.len() as int),
            ) && groups_within(idx.groups@, old(self).data@.len() as int),
    {
        let obs = scan_observations(&self.data);
        let idx = index_observations(&self.data, &obs, codes);
        proof {
            assert(crate::indexer::views(obs@) =~= accepted(self.data@));
        }
        self.index = Some(idx);
    }

    /// The data file and metadata of the block, indexed when an index was built.
    pub fn layout(&self) -> (r: (Vec<u8>, BlockMetadata))
        requires
            self.index matches Some(idx) ==> groups_within(idx.groups@, self.data@.len() as int),
        ensures
            written(self.block_id, self.data@, self.index, r.0@, r.1),
    {
        write_layout(self.block_id, &self.data, &self.index)
    }
}

} // verus!
