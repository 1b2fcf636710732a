//! A flat Merkle tree over one contiguous storage block.
//!
//! The block holds the root hash, a 4-byte big-endian leaf count, and then
//! `LEAFS` fixed-width leaf slots. Every insertion appends one leaf and
//! recomputes the root over the filled prefix by a balanced recursive split.

use vstd::prelude::*;
use crate::error::MtreeError;
use crate::hashing::{join_hashes, join_of, make_zero_hash, zero_hash, HashValue};
use crate::wire::{lemma_u32_be_round_trip, push_u32_be, read_u32_be, u32_be_bytes, u32_from_be};

verus! {

/// Reference capacity for a deployed flat tree.
pub const MAX_LEAFS: usize = 256;

/// Byte offset of the root hash inside the block.
pub const ROOT_OFFSET: usize = 0;

/// Byte offset of the big-endian leaf count inside the block.
pub const LENGTH_OFFSET: usize = 32;

/// Byte offset of the first leaf slot inside the block.
pub const FIRST_LEAF_OFFSET: usize = 36;

/// Width of one leaf slot.
pub const LEAF_SIZE: usize = 32;

/// The root hash of `count` leaves starting at `start`: a single leaf is
/// joined with the zero hash, a pair is joined directly, and a longer run
/// splits in half.
pub open spec fn calc_root_spec(leaves: Seq<Seq<u8>>, start: int, count: int) -> Seq<u8>
    decreases count when count >= 1 via calc_root_spec_decreases
{
    if count <= 1 {
        join_of(leaves[start], zero_hash())
    } else if count == 2 {
        join_of(leaves[start], leaves[start + 1])
    } else {
        let left_count = count / 2;
        join_of(
            calc_root_spec(leaves, start, left_count),
            calc_root_spec(leaves, start + left_count, count - left_count),
        )
    }
}

#[via_fn]
proof fn calc_root_spec_decreases(leaves: Seq<Seq<u8>>, start: int, count: int) {
    if count > 2 {
        lemma_split_bounds(count);
    }
}

/// For a run of three or more leaves, the balanced split produces two
/// strictly shorter non-empty runs.
proof fn lemma_split_bounds(count: int)
    requires
        count >= 3,
    ensures
        1 <= count / 2 < count,
        1 <= count - count / 2 < count,
{
    vstd::arithmetic::div_mod::lemma_div_nonincreasing(count, 2);
    vstd::arithmetic::div_mod::lemma_div_pos_is_pos(count, 2);
    assert(count / 2 >= 1) by {
        vstd::arithmetic::div_mod::lemma_div_is_ordered(2, count, 2);
    }
    assert(count / 2 < count) by {
        vstd::arithmetic::div_mod::lemma_div_decreases(count, 2);
    }
}

/// Copies the 32 bytes at offset `off` out of a block.
fn read_hash_at(b: &[u8], off: usize) -> (r: HashValue)
    requires
        off + 32 <= b@.len(),
    ensures
        r@ == b@.subrange(off as int, off as int + 32),
{
    let blen = b.len();
    let mut h: HashValue = [0u8; 32];
    let mut i: usize = 0;
    while i < 32
        invariant
            i <= 32,
            blen == b@.len(),
            off + 32 <= b@.len(),
            forall|k: int| 0 <= k < i ==> h@[k] == b@[off + k],
        decreases 32 - i,
    {
        h[i] = b[off + i];
        i = i + 1;
    }
    proof {
        assert(h@ =~= b@.subrange(off as int, off as int + 32));
    }
    h
}

/// Overwrites the 32 bytes at offset `off` of a block.
fn write_hash_at(data: &mut Vec<u8>, off: usize, h: &HashValue)
    requires
        off + 32 <= old(data)@.len(),
    ensures
        final(data)@.len() == old(data)@.len(),
        final(data)@.subrange(off as int, off as int + 32) == h@,
        forall|k: int|
            0 <= k < old(data)@.len() && !(off <= k < off + 32) ==> final(data)@[k] == old(
                data,
            )@[k],
{
    let dlen = data.len();
    let mut i: usize = 0;
    while i < 32
        invariant
            i <= 32,
            dlen == old(data)@.len(),
            data@.len() == old(data)@.len(),
            off + 32 <= data@.len(),
            forall|k: int| 0 <= k < i ==> data@[off + k] == h@[k],
            forall|k: int|
                0 <= k < data@.len() && !(off <= k < off + 32) ==> data@[k] == old(data)@[k],
        decreases 32 - i,
    {
        data.set(off + i, h[i]);
        i = i + 1;
    }
    proof {
        assert(data@.subrange(off as int, off as int + 32) =~= h@);
    }
}

/// The root hash of the first `count` leaves of a packed leaf region.
fn calculate_root(leafs: &[u8], start: usize, count: usize) -> (r: HashValue)
    requires
        count >= 1,
        (start + count) * 32 <= leafs@.len(),
    ensures
        r@ == calc_root_spec(leaf_views(leafs@), start as int, count as int),
    decreases count,
{
    let total = leafs.len();
    proof {
        vstd::arithmetic::mul::lemma_mul_inequality(
            start as int + 1,
            start as int + count,
            32,
        );
        lemma_leaf_view_at(leafs@, start as int);
    }
    if count == 1 {
        let leaf = read_hash_at(leafs, start * 32);
        let zero = make_zero_hash();
        return join_hashes(&leaf, &zero);
    }
    if count == 2 {
        proof {
            vstd::arithmetic::mul::lemma_mul_inequality(
                start as int + 2,
                start as int + count,
                32,
            );
            lemma_leaf_view_at(leafs@, start as int + 1);
        }
        let left = read_hash_at(leafs, start * 32);
        let right = read_hash_at(leafs, (start + 1) * 32);
        return join_hashes(&left, &right);
    }
    proof {
        lemma_split_bounds(count as int);
        vstd::arithmetic::mul::lemma_mul_inequality(
            start as int + count as int / 2,
            start as int + count,
            32,
        );
    }
    let left_count = count / 2;
    let right_count = count - left_count;
    let left_hash = calculate_root(leafs, start, left_count);
    let right_hash = calculate_root(leafs, start + left_count, right_count);
    join_hashes(&left_hash, &right_hash)
}

/// The packed leaf region of a block, as 32-byte views.
pub open spec fn leaf_views(b: Seq<u8>) -> Seq<Seq<u8>> {
    Seq::new(b.len() / 32, |i: int| b.subrange(32 * i, 32 * i + 32))
}

/// Each leaf view is the 32-byte slice at its index.
proof fn lemma_leaf_view_at(b: Seq<u8>, i: int)
    requires
        0 <= i,
        (i + 1) * 32 <= b.len(),
    ensures
        i < b.len() / 32,
        leaf_views(b)[i] == b.subrange(32 * i, 32 * i + 32),
{
    assert(i < b.len() / 32) by {
        vstd::arithmetic::div_mod::lemma_fundamental_div_mod_converse_div(32 * (i + 1), 32, i + 1, 0);
        vstd::arithmetic::div_mod::lemma_div_is_ordered(32 * (i + 1), b.len() as int, 32);
    }
}

/// One flat tree over its owned storage block.
///
/// Layout of the block:
/// `|0..32: root hash|32..36: leaf count|36..36 + 32 * LEAFS: leaf slots|`
pub struct MTree<const LEAFS: usize> {
    data: Vec<u8>,
}

impl<const LEAFS: usize> MTree<LEAFS> {
    /// Size of the block: root, leaf count, then the leaf slots.
    pub open spec fn size_spec() -> int {
        36 + 32 * (LEAFS as int)
    }

    /// The raw bytes of the block.
    pub closed spec fn bytes(self) -> Seq<u8> {
        self.data@
    }

    /// Structural well-formedness: the block has exactly its fixed size.
    pub open spec fn wf(self) -> bool {
        self.bytes().len() == Self::size_spec()
    }

    /// The stored leaf count.
    pub open spec fn spec_len(self) -> int {
        u32_from_be(self.bytes().subrange(32, 36)) as int
    }

    /// The stored root hash.
    pub open spec fn spec_root(self) -> Seq<u8> {
        self.bytes().subrange(0, 32)
    }

    /// The leaf stored at slot `i`.
    pub open spec fn spec_leaf(self, i: int) -> Seq<u8> {
        self.bytes().subrange(36 + 32 * i, 36 + 32 * i + 32)
    }

    /// All leaf slots of the block.
    pub open spec fn spec_leaves(self) -> Seq<Seq<u8>> {
        Seq::new(LEAFS as nat, |i: int| self.spec_leaf(i))
    }

    /// The leaf region of the block matches the slot views.
    proof fn lemma_region_leaves(self, i: int)
        requires
            self.wf(),
            0 <= i < LEAFS as int,
        ensures
            i < self.bytes().skip(36).len() / 32,
            leaf_views(self.bytes().skip(36))[i] == self.spec_leaf(i),
    {
        let region = self.bytes().skip(36);
        vstd::arithmetic::mul::lemma_mul_inequality(i + 1, LEAFS as int, 32);
        vstd::arithmetic::mul::lemma_mul_is_commutative(i + 1, 32);
        vstd::arithmetic::mul::lemma_mul_is_commutative(LEAFS as int, 32);
        lemma_leaf_view_at(region, i);
        assert(region.subrange(32 * i, 32 * i + 32) =~= self.spec_leaf(i));
    }

    /// Wraps a storage block.
    pub fn new(data: Vec<u8>) -> (r: Self)
        ensures
            r.bytes() == data@,
    {
        MTree { data }
    }

    /// The block size for this capacity.
    pub fn size() -> (r: usize)
        requires
            Self::size_spec() <= usize::MAX,
        ensures
            r as int == Self::size_spec(),
    {
        36 + LEAFS * 32
    }

    /// Whether the block has been allocated at all.
    pub fn is_init(&self) -> (r: bool)
        ensures
            r == (self.bytes().len() > 0),
    {
        self.data.len() > 0
    }

    /// The number of leaves stored so far.
    pub fn len(&self) -> (r: usize)
        requires
            self.wf(),
        ensures
            r as int == self.spec_len(),
    {
        read_u32_be(self.data.as_slice(), LENGTH_OFFSET) as usize
    }

    /// Whether no leaf has been inserted yet.
    pub fn is_empty(&self) -> (r: bool)
        requires
            self.wf(),
        ensures
            r == (self.spec_len() == 0),
    {
        self.len() == 0
    }

    /// Whether every leaf slot is taken.
    pub fn is_full(&self) -> (r: bool)
        requires
            self.wf(),
        ensures
            r == (self.spec_len() >= LEAFS as int),
    {
        self.len() >= LEAFS
    }

    /// The stored root hash.
    pub fn root_hash(&self) -> (r: HashValue)
        requires
            self.wf(),
        ensures
            r@ == self.spec_root(),
    {
        read_hash_at(self.data.as_slice(), ROOT_OFFSET)
    }

    /// The leaf stored at `index`, or nothing at and beyond the fill mark.
    pub fn get_leaf(&self, index: usize) -> (r: Option<HashValue>)
        requires
            self.wf(),
            self.spec_len() <= LEAFS as int,
        ensures
            match r {
                Some(h) => index < self.spec_len() && h@ == self.spec_leaf(index as int),
                None => index >= self.spec_len(),
            },
    {
        let dlen = self.data.len();
        if index >= self.len() {
            return None;
        }
        proof {
            vstd::arithmetic::mul::lemma_mul_inequality(index as int + 1, LEAFS as int, 32);
            vstd::arithmetic::mul::lemma_mul_is_commutative(index as int + 1, 32);
            vstd::arithmetic::mul::lemma_mul_is_commutative(LEAFS as int, 32);
        }
        Some(read_hash_at(self.data.as_slice(), FIRST_LEAF_OFFSET + index * 32))
    }

    /// Overwrites the stored leaf count.
    fn set_len(&mut self, len: u32)
        requires
            old(self).wf(),
        ensures
            final(self).wf(),
            final(self).spec_len() == len,
            final(self).spec_root() == old(self).spec_root(),
            forall|i: int|
                0 <= i < LEAFS as int ==> final(self).spec_leaf(i) == old(self).spec_leaf(i),
    {
        let mut count_bytes: Vec<u8> = Vec::new();
        push_u32_be(&mut count_bytes, len);
        let dlen = self.data.len();
        self.data.set(32, count_bytes[0]);
        self.data.set(33, count_bytes[1]);
        self.data.set(34, count_bytes[2]);
        self.data.set(35, count_bytes[3]);
        proof {
            assert(self.bytes().subrange(32, 36) =~= u32_be_bytes(len));
            lemma_u32_be_round_trip(len);
            assert(final(self).spec_root() =~= old(self).spec_root());
            assert forall|i: int| 0 <= i < LEAFS as int implies final(self).spec_leaf(i) == old(
                self,
            ).spec_leaf(i) by {
                vstd::arithmetic::mul::lemma_mul_nonnegative(32, i);
                assert(final(self).spec_leaf(i) =~= old(self).spec_leaf(i));
            }
        }
    }

    /// Recomputes and stores the root over the first `len` leaves.
    fn update_root(&mut self, len: usize)
        requires
            old(self).wf(),
            1 <= len <= LEAFS as int,
        ensures
            final(self).wf(),
            final(self).spec_len() == old(self).spec_len(),
            forall|i: int|
                0 <= i < LEAFS as int ==> final(self).spec_leaf(i) == old(self).spec_leaf(i),
            final(self).spec_root() == calc_root_spec(old(self).spec_leaves(), 0, len as int),
    {
        let dlen = self.data.len();
        proof {
            vstd::arithmetic::mul::lemma_mul_inequality(len as int, LEAFS as int, 32);
            vstd::arithmetic::mul::lemma_mul_is_commutative(len as int, 32);
            vstd::arithmetic::mul::lemma_mul_is_commutative(LEAFS as int, 32);
        }
        let root = {
            let region = vstd::slice::slice_subrange(self.data.as_slice(), FIRST_LEAF_OFFSET, dlen);
            calculate_root(region, 0, len)
        };
        proof {
            let rv = leaf_views(old(self).bytes().skip(36));
            let sv = old(self).spec_leaves();
            assert forall|i: int| 0 <= i < len as int implies rv[i] == sv[i] by {
                old(self).lemma_region_leaves(i);
            }
            assert(rv.len() >= len as int) by {
                old(self).lemma_region_leaves(len as int - 1);
            }
            assert(rv.subrange(0, len as int) =~= sv.subrange(0, len as int));
            lemma_calc_root_same_prefix(rv, sv, 0, len as int);
        }
        write_hash_at(&mut self.data, ROOT_OFFSET, &root);
        proof {
            assert(final(self).spec_len() == old(self).spec_len()) by {
                assert(final(self).bytes().subrange(32, 36) =~= old(self).bytes().subrange(
                    32,
                    36,
                ));
            }
            assert forall|i: int| 0 <= i < LEAFS as int implies final(self).spec_leaf(i) == old(
                self,
            ).spec_leaf(i) by {
                vstd::arithmetic::mul::lemma_mul_nonnegative(32, i);
                assert(final(self).spec_leaf(i) =~= old(self).spec_leaf(i));
            }
        }
    }

    /// Appends one leaf and recomputes the root over the filled prefix;
    /// fails without mutation when every slot is taken.
    pub fn insert_leaf(&mut self, leaf: HashValue) -> (r: Result<(), MtreeError>)
        requires
            old(self).wf(),
            old(self).spec_len() <= LEAFS as int,
            LEAFS as int <= u32::MAX,
        ensures
            final(self).wf(),
            r is Err <==> old(self).spec_len() == LEAFS as int,
            r is Err ==> r->Err_0 == MtreeError::SubTreeFull && final(self).bytes() == old(
                self,
            ).bytes(),
            r is Ok ==> ({
                &&& final(self).spec_len() == old(self).spec_len() + 1
                &&& final(self).spec_leaf(old(self).spec_len()) == leaf@
                &&& forall|i: int|
                    0 <= i < LEAFS as int && i != old(self).spec_len() ==> final(self).spec_leaf(
                        i,
                    ) == old(self).spec_leaf(i)
                &&& final(self).spec_root() == calc_root_spec(
                    final(self).spec_leaves(),
                    0,
                    old(self).spec_len() + 1,
                )
            }),
    {
        let count = self.len();
        if count >= LEAFS {
            return Err(MtreeError::SubTreeFull);
        }
        let dlen = self.data.len();
        proof {
            vstd::arithmetic::mul::lemma_mul_inequality(count as int + 1, LEAFS as int, 32);
            vstd::arithmetic::mul::lemma_mul_is_commutative(count as int + 1, 32);
            vstd::arithmetic::mul::lemma_mul_is_commutative(LEAFS as int, 32);
        }
        write_hash_at(&mut self.data, FIRST_LEAF_OFFSET + count * 32, &leaf);
        let ghost mid = *self;
        proof {
            assert(mid.spec_len() == old(self).spec_len()) by {
                assert(mid.bytes().subrange(32, 36) =~= old(self).bytes().subrange(32, 36));
            }
            assert(mid.spec_root() =~= old(self).spec_root());
            assert(mid.spec_leaf(count as int) =~= leaf@);
            assert forall|i: int| 0 <= i < LEAFS as int && i != count as int implies mid.spec_leaf(
                i,
            ) == old(self).spec_leaf(i) by {
                vstd::arithmetic::mul::lemma_mul_nonnegative(32, i);
                lemma_leaf_slots_disjoint(i, count as int);
                assert(mid.spec_leaf(i) =~= old(self).spec_leaf(i));
            }
        }
        self.set_len((count + 1) as u32);
        let ghost mid2 = *self;
        self.update_root(count + 1);
        proof {
            assert(final(self).spec_leaves() =~= mid2.spec_leaves());
        }
        Ok(())
    }
}

/// Distinct leaf slots occupy disjoint byte ranges.
proof fn lemma_leaf_slots_disjoint(i: int, j: int)
    requires
        0 <= i,
        0 <= j,
        i != j,
    ensures
        i < j ==> 36 + 32 * i + 32 <= 36 + 32 * j,
        j < i ==> 36 + 32 * j + 32 <= 36 + 32 * i,
{
}

/// The computed root depends only on the leaves it covers.
proof fn lemma_calc_root_same_prefix(a: Seq<Seq<u8>>, b: Seq<Seq<u8>>, start: int, count: int)
    requires
        count >= 1,
        0 <= start,
        start + count <= a.len(),
        start + count <= b.len(),
        a.subrange(start, start + count) == b.subrange(start, start + count),
    ensures
        calc_root_spec(a, start, count) == calc_root_spec(b, start, count),
    decreases count,
{
    let sa = a.subrange(start, start + count);
    let sb = b.subrange(start, start + count);
    if count == 1 {
        assert(a[start] == sa[0] && b[start] == sb[0]);
    } else if count == 2 {
        assert(a[start] == sa[0] && b[start] == sb[0]);
        assert(a[start + 1] == sa[1] && b[start + 1] == sb[1]);
    } else {
        lemma_split_bounds(count);
        let c2 = count / 2;
        assert(a.subrange(start, start + c2) =~= b.subrange(start, start + c2)) by {
            assert forall|k: int| 0 <= k < c2 implies #[trigger] a.subrange(start, start + c2)[k]
                == b.subrange(start, start + c2)[k] by {
                assert(sa[k] == sb[k]);
            }
        }
        assert(a.subrange(start + c2, start + count) =~= b.subrange(start + c2, start + count))
            by {
            assert forall|k: int| 0 <= k < count - c2 implies #[trigger] a.subrange(
                start + c2,
                start + count,
            )[k] == b.subrange(start + c2, start + count)[k] by {
                assert(sa[c2 + k] == sb[c2 + k]);
            }
        }
        lemma_calc_root_same_prefix(a, b, start, c2);
        lemma_calc_root_same_prefix(a, b, start + c2, count - c2);
    }
}

} // verus!
