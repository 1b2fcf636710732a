//! A fixed-capacity, complete binary Merkle tree held in one physically
//! contiguous storage block: one shard ("sub tree") of the accumulator.
//!
//! The `2 * SUB_TREE_LEAFS - 1` hash slots form a complete binary tree: leaf
//! slots occupy the last `SUB_TREE_LEAFS` positions, internal slots the first
//! `SUB_TREE_LEAFS - 1`, with `parent(i) = (i - 1) / 2` and children
//! `2 i + 1`, `2 i + 2`. `next_index` is the next leaf slot to fill; the
//! shard is full when it reaches the end of the node array.

use vstd::prelude::*;
use crate::hashing::{join_hashes, join_of, make_zero_hash, zero_hash, HashValue};
use crate::wire::{
    lemma_u32_be_round_trip, push_u32_be, read_u32_be, u32_be_bytes, u32_from_be,
};

verus! {

/// Number of leaf slots in one shard. Must be even and at least 2.
pub const SUB_TREE_LEAFS: usize = 8;

/// Number of hash slots in one shard's node array: leaf slots occupy the last
/// `SUB_TREE_LEAFS` positions, internal slots the first `SUB_TREE_LEAFS - 1`.
pub const ELEMENTS_IN_SUB_TREE: usize = 2 * SUB_TREE_LEAFS - 1;

/// Serialized size of one shard: the node array as fixed-width hashes in
/// index order, followed by a 4-byte big-endian next-index field.
pub const SUB_TREE_SIZE: usize = ELEMENTS_IN_SUB_TREE * 32 + 4;

/// Storage quota attributed to a single leaf of a shard.
pub const SUB_TREE_LEAF_SIZE: usize = SUB_TREE_SIZE / SUB_TREE_LEAFS;

/// The hash of node `i` of a complete 15-slot binary tree whose 8 leaf slots
/// hold `leaves`: leaf slots echo the leaves, and every internal slot joins
/// its two children.
pub open spec fn node_hash(leaves: Seq<Seq<u8>>, i: int) -> Seq<u8>
    decreases 15 - i when 0 <= i < 15
{
    if i >= 7 {
        leaves[i - 7]
    } else {
        join_of(node_hash(leaves, 2 * i + 1), node_hash(leaves, 2 * i + 2))
    }
}

/// The root hash determined by the 8 leaf slots alone.
pub open spec fn root_of(leaves: Seq<Seq<u8>>) -> Seq<u8> {
    node_hash(leaves, 0)
}

/// The 8 leaf slots of a freshly constructed shard: all zero.
pub open spec fn zero_leaves() -> Seq<Seq<u8>> {
    Seq::new(8, |i: int| zero_hash())
}

/// Internal slot `q` holds the join of its two children.
spec fn consistent_at(nodes: Seq<HashValue>, q: int) -> bool {
    nodes[q]@ == join_of(nodes[2 * q + 1]@, nodes[2 * q + 2]@)
}

/// `p` lies strictly above `i` on the in-shard path from `i` to slot 0.
spec fn is_strict_ancestor(p: int, i: int) -> bool
    decreases i when i >= 0 via is_strict_ancestor_decreases
{
    i > 0 && ((i - 1) / 2 == p || is_strict_ancestor(p, (i - 1) / 2))
}

#[via_fn]
proof fn is_strict_ancestor_decreases(p: int, i: int) {
    if i > 0 {
        lemma_slot_parent_bounds(i);
    }
}

/// In-shard parent arithmetic: the parent of a non-zero slot is a smaller
/// internal slot.
proof fn lemma_slot_parent_bounds(i: int)
    requires
        1 <= i,
    ensures
        0 <= (i - 1) / 2 < i,
        i < 15 ==> (i - 1) / 2 <= 6,
{
    vstd::arithmetic::div_mod::lemma_div_pos_is_pos(i - 1, 2);
    vstd::arithmetic::div_mod::lemma_div_nonincreasing(i - 1, 2);
    if i < 15 {
        vstd::arithmetic::div_mod::lemma_div_is_ordered(i - 1, 13, 2);
    }
}

/// In-shard child arithmetic: slot `q` is the parent of its two children.
proof fn lemma_slot_children(q: int)
    requires
        0 <= q,
    ensures
        (2 * q + 1 - 1) / 2 == q,
        (2 * q + 2 - 1) / 2 == q,
{
    vstd::arithmetic::div_mod::lemma_fundamental_div_mod_converse_div(2 * q, 2, q, 0);
    vstd::arithmetic::div_mod::lemma_fundamental_div_mod_converse_div(2 * q + 1, 2, q, 1);
}

/// One shard: a node array of `ELEMENTS_IN_SUB_TREE` hashes and the next
/// leaf slot to fill.
pub struct SubTree {
    nodes: Vec<HashValue>,
    next_index: u32,
}

impl SubTree {
    /// Structural well-formedness: the node array has its fixed length and
    /// the next-index cursor lies within the leaf slot range.
    pub closed spec fn wf(self) -> bool {
        self.nodes@.len() == 15 && 7 <= self.next_index <= 15
    }

    /// Full invariant: well-formed, and every internal slot holds the join
    /// of its two children.
    pub closed spec fn inv(self) -> bool {
        self.wf() && forall|q: int| 0 <= q < 7 ==> consistent_at(self.nodes@, q)
    }

    /// The 8 leaf slots, as byte sequences.
    pub closed spec fn leaves(self) -> Seq<Seq<u8>> {
        Seq::new(8, |i: int| self.nodes@[7 + i]@)
    }

    /// How many leaves have been inserted, `0 ..= 8`.
    pub closed spec fn fill(self) -> int {
        self.next_index - 7
    }

    /// Under the invariant, every node of the array is determined by the
    /// leaf contents alone.
    proof fn lemma_node_value(self, i: int)
        requires
            self.inv(),
            0 <= i < 15,
        ensures
            self.nodes@[i]@ == node_hash(self.leaves(), i),
        decreases 15 - i,
    {
        if i >= 7 {
            assert(self.leaves()[i - 7] == self.nodes@[i]@);
        } else {
            self.lemma_node_value(2 * i + 1);
            self.lemma_node_value(2 * i + 2);
            assert(consistent_at(self.nodes@, i));
        }
    }

    /// All-zero leaves, cursor at the first leaf slot, internal slots
    /// computed bottom-up once.
    pub fn new() -> (r: SubTree)
        ensures
            r.inv(),
            r.fill() == 0,
            r.leaves() == zero_leaves(),
    {
        let mut nodes: Vec<HashValue> = Vec::new();
        let mut i: usize = 0;
        while i < ELEMENTS_IN_SUB_TREE
            invariant
                i <= 15,
                nodes@.len() == i,
                forall|j: int| 0 <= j < i ==> nodes@[j]@ == zero_hash(),
            decreases 15 - i,
        {
            nodes.push(make_zero_hash());
            i = i + 1;
        }
        let mut tree = SubTree { nodes, next_index: (SUB_TREE_LEAFS - 1) as u32 };
        tree.recompute();
        proof {
            assert(tree.leaves() =~= zero_leaves());
        }
        tree
    }

    /// Recomputes every internal slot bottom-up from the current leaf slots.
    pub fn recompute(&mut self)
        requires
            old(self).wf(),
        ensures
            final(self).inv(),
            final(self).fill() == old(self).fill(),
            final(self).leaves() == old(self).leaves(),
    {
        let mut i: usize = SUB_TREE_LEAFS - 1;
        while i > 0
            invariant
                i <= 7,
                self.nodes@.len() == 15,
                self.next_index == old(self).next_index,
                7 <= self.next_index <= 15,
                forall|j: int| 7 <= j < 15 ==> self.nodes@[j] == old(self).nodes@[j],
                forall|q: int| i <= q < 7 ==> consistent_at(self.nodes@, q),
            decreases i,
        {
            i = i - 1;
            let left = self.nodes[2 * i + 1];
            let right = self.nodes[2 * i + 2];
            let joined = join_hashes(&left, &right);
            let ghost before = self.nodes@;
            self.nodes.set(i, joined);
            proof {
                assert(consistent_at(self.nodes@, i as int));
                assert forall|q: int| i < q < 7 implies consistent_at(self.nodes@, q) by {
                    assert(consistent_at(before, q));
                    assert(2 * q + 1 > i && 2 * q + 2 > i);
                }
            }
        }
        proof {
            assert(self.leaves() =~= old(self).leaves());
        }
    }

    /// Whether every leaf slot has been filled.
    pub fn is_full(&self) -> (r: bool)
        requires
            self.inv(),
        ensures
            r == (self.fill() == 8),
    {
        self.next_index == (ELEMENTS_IN_SUB_TREE as u32)
    }

    /// Whether no leaf has ever been inserted.
    pub fn is_empty(&self) -> (r: bool)
        requires
            self.inv(),
        ensures
            r == (self.fill() == 0),
    {
        self.next_index == (SUB_TREE_LEAFS as u32) - 1
    }

    /// The next leaf slot to fill, as an absolute node index.
    pub fn next_leaf_slot(&self) -> (r: u32)
        requires
            self.inv(),
        ensures
            r as int == self.fill() + 7,
    {
        self.next_index
    }

    /// The hash at the very top of the shard.
    pub fn root_hash(&self) -> (r: HashValue)
        requires
            self.inv(),
        ensures
            r@ == root_of(self.leaves()),
    {
        proof {
            self.lemma_node_value(0);
        }
        self.nodes[0]
    }

    /// The hash stored at any node slot, determined by the leaf contents.
    pub fn node_at(&self, index: usize) -> (r: HashValue)
        requires
            self.inv(),
            index < ELEMENTS_IN_SUB_TREE,
        ensures
            r@ == node_hash(self.leaves(), index as int),
    {
        proof {
            self.lemma_node_value(index as int);
        }
        self.nodes[index]
    }

    /// The leaf stored at absolute slot `index`, or nothing if `index` falls
    /// outside the leaf range already filled.
    pub fn get_leaf(&self, index: usize) -> (r: Option<HashValue>)
        requires
            self.inv(),
        ensures
            match r {
                Some(h) => 7 <= index < self.fill() + 7 && h@ == self.leaves()[index as int - 7],
                None => !(7 <= (index as int) < self.fill() + 7),
            },
    {
        if index >= SUB_TREE_LEAFS - 1 && index < self.next_index as usize {
            Some(self.nodes[index])
        } else {
            None
        }
    }

    /// Repairs the internal slots along the path from `index` up to the root
    /// after a single node write.
    fn update_up(&mut self, index: usize)
        requires
            old(self).wf(),
            index < 15,
            forall|q: int|
                0 <= q < 7 && !is_strict_ancestor(q, index as int) ==> consistent_at(
                    old(self).nodes@,
                    q,
                ),
        ensures
            final(self).wf(),
            final(self).inv(),
            final(self).next_index == old(self).next_index,
            forall|j: int| 7 <= j < 15 ==> final(self).nodes@[j] == old(self).nodes@[j],
            final(self).leaves() == old(self).leaves(),
            final(self).fill() == old(self).fill(),
    {
        let mut i: usize = index;
        while i > 0
            invariant
                i < 15,
                self.nodes@.len() == 15,
                self.next_index == old(self).next_index,
                7 <= self.next_index <= 15,
                forall|j: int| 7 <= j < 15 ==> self.nodes@[j] == old(self).nodes@[j],
                forall|q: int|
                    0 <= q < 7 && !is_strict_ancestor(q, i as int) ==> consistent_at(
                        self.nodes@,
                        q,
                    ),
            decreases i,
        {
            proof {
                lemma_slot_parent_bounds(i as int);
            }
            let parent_index = (i - 1) / 2;
            let left = self.nodes[2 * parent_index + 1];
            let right = self.nodes[2 * parent_index + 2];
            let joined = join_hashes(&left, &right);
            let ghost before = self.nodes@;
            let ghost old_i = i as int;
            self.nodes.set(parent_index, joined);
            proof {
                let p = parent_index as int;
                lemma_slot_children(p);
                assert(consistent_at(self.nodes@, p));
                assert forall|q: int|
                    0 <= q < 7 && !is_strict_ancestor(q, p) implies consistent_at(
                    self.nodes@,
                    q,
                ) by {
                    if q != p {
                        assert(!is_strict_ancestor(q, old_i));
                        assert(consistent_at(before, q));
                        if 2 * q + 1 == p || 2 * q + 2 == p {
                            lemma_slot_children(q);
                            assert(is_strict_ancestor(q, p));
                        }
                        assert(2 * q + 1 != p && 2 * q + 2 != p);
                    }
                }
            }
            i = parent_index;
        }
        proof {
            assert forall|q: int| 0 <= q < 7 implies consistent_at(self.nodes@, q) by {
                assert(!is_strict_ancestor(q, 0));
            }
            assert(self.leaves() =~= old(self).leaves());
        }
    }

    /// Overwrites the leaf at absolute slot `index` and recomputes its
    /// ancestors; fails without mutation if `index` is outside the leaf
    /// slot range.
    pub fn update_leaf(&mut self, index: usize, new: HashValue) -> (r: bool)
        requires
            old(self).inv(),
        ensures
            r == (7 <= index < 15),
            final(self).inv(),
            final(self).fill() == old(self).fill(),
            final(self).leaves() == if 7 <= index < 15 {
                old(self).leaves().update(index as int - 7, new@)
            } else {
                old(self).leaves()
            },
    {
        if index >= SUB_TREE_LEAFS - 1 && index < ELEMENTS_IN_SUB_TREE {
            let ghost before = self.nodes@;
            self.nodes.set(index, new);
            proof {
                lemma_slot_parent_bounds(index as int);
                assert(is_strict_ancestor((index as int - 1) / 2, index as int));
                assert forall|q: int|
                    0 <= q < 7 && !is_strict_ancestor(q, index as int) implies consistent_at(
                    self.nodes@,
                    q,
                ) by {
                    assert(consistent_at(before, q));
                    if 2 * q + 1 == index || 2 * q + 2 == index {
                        lemma_slot_children(q);
                        assert(is_strict_ancestor(q, index as int));
                    }
                    assert(2 * q + 1 != index && 2 * q + 2 != index);
                }
            }
            self.update_up(index);
            proof {
                assert(self.leaves() =~= old(self).leaves().update(index as int - 7, new@));
            }
            return true;
        }
        false
    }

    /// Writes `leaf` into the next free leaf slot, advances the cursor, and
    /// recomputes the ancestors of the written slot; fails without mutation
    /// if the shard is full.
    pub fn insert_leaf(&mut self, leaf: HashValue) -> (r: bool)
        requires
            old(self).inv(),
        ensures
            r == (old(self).fill() < 8),
            final(self).inv(),
            r ==> final(self).fill() == old(self).fill() + 1 && final(self).leaves() == old(
                self,
            ).leaves().update(old(self).fill(), leaf@),
            !r ==> final(self).fill() == old(self).fill() && final(self).leaves() == old(
                self,
            ).leaves(),
    {
        if self.is_full() {
            return false;
        }
        let index = self.next_index as usize;
        let ghost before = self.nodes@;
        self.nodes.set(index, leaf);
        self.next_index = self.next_index + 1;
        proof {
            lemma_slot_parent_bounds(index as int);
            assert(is_strict_ancestor((index as int - 1) / 2, index as int));
            assert forall|q: int|
                0 <= q < 7 && !is_strict_ancestor(q, index as int) implies consistent_at(
                self.nodes@,
                q,
            ) by {
                assert(consistent_at(before, q));
                if 2 * q + 1 == index || 2 * q + 2 == index {
                    lemma_slot_children(q);
                    assert(is_strict_ancestor(q, index as int));
                }
                assert(2 * q + 1 != index && 2 * q + 2 != index);
            }
        }
        self.update_up(index);
        proof {
            assert(self.leaves() =~= old(self).leaves().update(old(self).fill(), leaf@));
        }
        true
    }
}

impl SubTree {
    /// The serialized image: the node array as fixed-width hashes in index
    /// order, followed by the 4-byte big-endian next-index field.
    pub closed spec fn spec_bytes(self) -> Seq<u8> {
        Seq::new(
            484,
            |i: int|
                if i < 480 {
                    self.nodes@[i / 32]@[i % 32]
                } else {
                    u32_be_bytes(self.next_index)[i - 480]
                },
        )
    }

    /// Serializes the shard into its fixed storage layout.
    pub fn to_bytes(&self) -> (r: Vec<u8>)
        requires
            self.inv(),
        ensures
            r@ == self.spec_bytes(),
            r@.len() == SUB_TREE_SIZE,
    {
        let mut buf: Vec<u8> = Vec::new();
        let mut n: usize = 0;
        while n < ELEMENTS_IN_SUB_TREE
            invariant
                self.wf(),
                n <= 15,
                buf@.len() == 32 * n,
                forall|i: int| 0 <= i < 32 * n ==> buf@[i] == self.nodes@[i / 32]@[i % 32],
            decreases 15 - n,
        {
            let node = self.nodes[n];
            let mut b: usize = 0;
            while b < 32
                invariant
                    self.wf(),
                    n < 15,
                    b <= 32,
                    node == self.nodes@[n as int],
                    buf@.len() == 32 * n + b,
                    forall|i: int| 0 <= i < 32 * n ==> buf@[i] == self.nodes@[i / 32]@[i % 32],
                    forall|i: int| 32 * n <= i < 32 * n + b ==> buf@[i] == node@[i - 32 * n],
                decreases 32 - b,
            {
                buf.push(node[b]);
                b = b + 1;
            }
            proof {
                assert forall|i: int| 32 * n <= i < 32 * n + 32 implies buf@[i] == self.nodes@[i
                    / 32]@[i % 32] by {
                    lemma_div_mod_32(n as int, i - 32 * n);
                }
            }
            n = n + 1;
        }
        push_u32_be(&mut buf, self.next_index);
        proof {
            assert(buf@ =~= self.spec_bytes());
        }
        buf
    }

    /// Parses a shard from its fixed storage layout; the internal slots are
    /// recomputed from the stored leaves, so the result always satisfies the
    /// invariant. Fails exactly on bytes of the wrong length or with a
    /// next-index field outside the leaf slot range.
    pub fn from_bytes(bytes: &[u8]) -> (r: Option<SubTree>)
        ensures
            r is Some <==> valid_shard_bytes(bytes@),
            match r {
                Some(t) => t.inv() && t.leaves() == bytes_leaves(bytes@) && t.fill()
                    == bytes_fill(bytes@),
                None => true,
            },
    {
        if bytes.len() != SUB_TREE_SIZE {
            return None;
        }
        let ni = read_u32_be(bytes, ELEMENTS_IN_SUB_TREE * 32);
        if ni < (SUB_TREE_LEAFS as u32) - 1 || ni > (ELEMENTS_IN_SUB_TREE as u32) {
            return None;
        }
        let mut nodes: Vec<HashValue> = Vec::new();
        let mut n: usize = 0;
        while n < ELEMENTS_IN_SUB_TREE
            invariant
                n <= 15,
                nodes@.len() == n,
                bytes@.len() == 484,
                forall|j: int| 0 <= j < n ==> nodes@[j]@ == bytes@.subrange(32 * j, 32 * j + 32),
            decreases 15 - n,
        {
            let mut h: HashValue = [0u8; 32];
            let mut b: usize = 0;
            while b < 32
                invariant
                    b <= 32,
                    n < 15,
                    bytes@.len() == 484,
                    forall|k: int| 0 <= k < b ==> h@[k] == bytes@[32 * n + k],
                decreases 32 - b,
            {
                h[b] = bytes[32 * n + b];
                b = b + 1;
            }
            proof {
                assert(h@ =~= bytes@.subrange(32 * n as int, 32 * n as int + 32));
            }
            nodes.push(h);
            n = n + 1;
        }
        let mut tree = SubTree { nodes, next_index: ni };
        tree.recompute();
        proof {
            assert(tree.leaves() =~= bytes_leaves(bytes@));
        }
        Some(tree)
    }
}

impl Default for SubTree {
    /// A freshly constructed shard.
    fn default() -> (r: SubTree)
        ensures
            r.inv(),
            r.fill() == 0,
            r.leaves() == zero_leaves(),
    {
        SubTree::new()
    }
}

/// Whether a byte string is a well-formed serialized shard.
pub open spec fn valid_shard_bytes(b: Seq<u8>) -> bool {
    b.len() == 484 && 7 <= u32_from_be(b.subrange(480, 484)) <= 15
}

/// The leaf contents stored in a serialized shard.
pub open spec fn bytes_leaves(b: Seq<u8>) -> Seq<Seq<u8>> {
    Seq::new(8, |i: int| b.subrange(32 * (7 + i), 32 * (7 + i) + 32))
}

/// The number of filled leaves recorded in a serialized shard.
pub open spec fn bytes_fill(b: Seq<u8>) -> int {
    u32_from_be(b.subrange(480, 484)) - 7
}

/// Offset arithmetic within the fixed 32-byte-per-node layout.
proof fn lemma_div_mod_32(n: int, j: int)
    requires
        n >= 0,
        0 <= j < 32,
    ensures
        (32 * n + j) / 32 == n,
        (32 * n + j) % 32 == j,
{
    vstd::arithmetic::div_mod::lemma_fundamental_div_mod_converse_div(32 * n + j, 32, n, j);
    vstd::arithmetic::div_mod::lemma_fundamental_div_mod_converse_mod(32 * n + j, 32, n, j);
}

/// Law: serializing a shard and parsing the image back reproduces identical
/// contents — the image is valid, it stores exactly the shard's leaves and
/// next-index cursor, and with the invariant those determine every node.
pub proof fn lemma_shard_bytes_round_trip(t: SubTree)
    requires
        t.inv(),
    ensures
        valid_shard_bytes(t.spec_bytes()),
        bytes_leaves(t.spec_bytes()) == t.leaves(),
        bytes_fill(t.spec_bytes()) == t.fill(),
{
    let sb = t.spec_bytes();
    assert(sb.subrange(480, 484) =~= u32_be_bytes(t.next_index));
    lemma_u32_be_round_trip(t.next_index);
    assert forall|i: int| 0 <= i < 8 implies bytes_leaves(sb)[i] == t.leaves()[i] by {
        assert forall|j: int| 0 <= j < 32 implies sb.subrange(32 * (7 + i), 32 * (7 + i) + 32)[j]
            == t.leaves()[i][j] by {
            lemma_div_mod_32(7 + i, j);
            assert(sb[32 * (7 + i) + j] == t.nodes@[7 + i]@[j]);
        }
        assert(sb.subrange(32 * (7 + i), 32 * (7 + i) + 32) =~= t.leaves()[i]);
    }
    assert(bytes_leaves(sb) =~= t.leaves());
}

/// The leaf count of an invariant-holding shard always lies in `0 ..= 8`.
pub proof fn lemma_fill_range(t: SubTree)
    requires
        t.inv(),
    ensures
        0 <= t.fill() <= 8,
        t.leaves().len() == 8,
{
}

/// Law: root recomputation is deterministic and depends only on current leaf
/// contents — two shards holding the same leaves have the same root, whatever
/// sequence of operations built them.
pub proof fn lemma_root_deterministic(a: SubTree, b: SubTree)
    requires
        a.inv(),
        b.inv(),
        a.leaves() == b.leaves(),
    ensures
        root_of(a.leaves()) == root_of(b.leaves()),
{
}

} // verus!
