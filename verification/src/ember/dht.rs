//! The overlay's distributed table, as far as publishing to it goes.
use vstd::prelude::*;

use crate::bytes::same_16;
use crate::ember::control::copy_from;
use crate::key_map::{word, word_of, MapKey};
use crate::net::SocketAddr;

verus! {

/// How many nodes a record goes to.
pub const K_BUCKET_SIZE: usize = 20;

/// The identifier of a node.
#[derive(Clone, Copy, Debug, PartialEq, Eq, Hash)]
pub struct EmberNodeId(pub [u8; 16]);

impl MapKey for EmberNodeId {
    open spec fn digest_of(self) -> u128 {
        word_of(self.0@)
    }

    fn digest(&self) -> (r: u128) {
        word(&self.0)
    }

    fn same(&self, other: &Self) -> (r: bool) {
        same_16(&self.0, &other.0)
    }
}

/// A node that records can be sent to.
#[derive(Clone, Copy, Debug, PartialEq, Eq)]
pub struct EmberContact {
    pub node_id: EmberNodeId,
    pub addr: SocketAddr,
    pub noise_pub: [u8; 32],
}

/// A signed record, as a batch carries it.
#[derive(Debug, PartialEq, Eq)]
pub struct BatchedRecord {
    pub key: [u8; 16],
    pub record: Vec<u8>,
    pub record_signature: [u8; 64],
}

pub struct RecordView {
    pub key: [u8; 16],
    pub record: Seq<u8>,
    pub record_signature: [u8; 64],
}

impl View for BatchedRecord {
    type V = RecordView;

    open spec fn view(&self) -> RecordView {
        RecordView {
            key: self.key,
            record: self.record@,
            record_signature: self.record_signature,
        }
    }
}

impl BatchedRecord {
    /// The same record once more.
    pub fn duplicate(&self) -> (r: BatchedRecord)
        ensures
            r@ == self@,
    {
        let record = copy_from(self.record.as_slice(), 0);
        assert(record@ =~= self.record@);
        BatchedRecord { key: self.key, record, record_signature: self.record_signature }
    }
}

} // verus!
