//! The persisted accumulator state: which shard currently accepts new
//! leaves, and the hash at the very top of the logical tree.

use vstd::prelude::*;
use crate::hashing::{make_zero_hash, zero_hash, HashValue};
use crate::path::SubTreeId;
use crate::wire::{lemma_u32_le_round_trip, push_u32_le, read_u32_le, u32_from_le, u32_le_bytes};

verus! {

/// One persisted record per accumulator: created on first insertion, mutated
/// by every insertion, never deleted.
#[derive(Clone, Copy, Debug)]
pub struct Info {
    /// The shard currently accepting leaf insertions.
    pub node_id: SubTreeId,
    /// The root of the whole logical tree, or all-zero before shard 0 exists.
    pub root_hash: HashValue,
}

impl Info {
    /// Serialized size: a 4-byte identifier field followed by one 32-byte
    /// hash field.
    pub const LEN: usize = 4 + 32;

    /// The serialized image: the shard identifier in little-endian order,
    /// then the root hash bytes.
    pub open spec fn spec_bytes(self) -> Seq<u8> {
        u32_le_bytes(self.node_id) + self.root_hash@
    }

    /// Serializes the record into its fixed storage layout.
    pub fn to_bytes(&self) -> (r: Vec<u8>)
        ensures
            r@ == self.spec_bytes(),
            r@.len() == Info::LEN,
    {
        let mut buf: Vec<u8> = Vec::new();
        push_u32_le(&mut buf, self.node_id);
        let mut i: usize = 0;
        while i < 32
            invariant
                i <= 32,
                buf@ =~= u32_le_bytes(self.node_id) + self.root_hash@.subrange(0, i as int),
            decreases 32 - i,
        {
            buf.push(self.root_hash[i]);
            i = i + 1;
        }
        proof {
            assert(buf@ =~= self.spec_bytes());
        }
        buf
    }

    /// Parses a record from its fixed storage layout; fails exactly on bytes
    /// of the wrong length.
    pub fn from_bytes(bytes: &[u8]) -> (r: Option<Info>)
        ensures
            r is Some <==> bytes@.len() == Info::LEN,
            match r {
                Some(inf) => inf.node_id == u32_from_le(bytes@.subrange(0, 4)) && inf.root_hash@
                    == bytes@.subrange(4, 36),
                None => true,
            },
    {
        if bytes.len() != Info::LEN {
            return None;
        }
        let node_id = read_u32_le(bytes, 0);
        let mut root_hash: HashValue = [0u8; 32];
        let mut i: usize = 0;
        while i < 32
            invariant
                i <= 32,
                bytes@.len() == 36,
                forall|k: int| 0 <= k < i ==> root_hash@[k] == bytes@[4 + k],
            decreases 32 - i,
        {
            root_hash[i] = bytes[4 + i];
            i = i + 1;
        }
        proof {
            assert(root_hash@ =~= bytes@.subrange(4, 36));
        }
        Some(Info { node_id, root_hash })
    }
}

impl Default for Info {
    /// The state of an accumulator that does not exist yet: shard 0 active,
    /// all-zero root.
    fn default() -> (r: Info)
        ensures
            r.node_id == 0,
            r.root_hash@ == zero_hash(),
    {
        Info { node_id: 0, root_hash: make_zero_hash() }
    }
}

/// Law: parsing the serialized image of a record reproduces its fields.
pub proof fn lemma_info_bytes_round_trip(inf: Info)
    ensures
        inf.spec_bytes().len() == Info::LEN,
        u32_from_le(inf.spec_bytes().subrange(0, 4)) == inf.node_id,
        inf.spec_bytes().subrange(4, 36) == inf.root_hash@,
{
    assert(inf.spec_bytes().subrange(0, 4) =~= u32_le_bytes(inf.node_id));
    lemma_u32_le_round_trip(inf.node_id);
    assert(inf.spec_bytes().subrange(4, 36) =~= inf.root_hash@);
}

} // verus!
