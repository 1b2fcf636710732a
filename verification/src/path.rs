//! Shard addressing: pure arithmetic over the global shard numbering forest.
//!
//! Every shard has an identifier in one numbering space shared by the whole
//! accumulator; shard 0 is the top-level shard, and every non-zero identifier
//! has exactly one parent, computed by integer arithmetic.

use vstd::prelude::*;
use crate::sub_tree::SUB_TREE_LEAFS;

verus! {

/// Identifier of one shard within the accumulator's global numbering space.
pub type SubTreeId = u32;

/// The parent of a non-zero shard identifier, for leaf capacity `l`.
pub open spec fn parent_of(id: int, l: int) -> int {
    (id - 1) / l
}

/// The child slot a shard occupies inside its parent; shard 0 maps to slot 0
/// by convention.
pub open spec fn child_slot_of(id: int, l: int) -> int {
    if id == 0 {
        0
    } else {
        (id - 1) % l
    }
}

/// The ordered ancestor chain from `id` up to and including shard 0.
pub open spec fn path_to_root(id: int, l: int) -> Seq<int>
    decreases id when id >= 0 && l >= 2 via path_to_root_decreases
{
    if id <= 0 {
        seq![0int]
    } else {
        seq![id] + path_to_root(parent_of(id, l), l)
    }
}

#[via_fn]
proof fn path_to_root_decreases(id: int, l: int) {
    if id > 0 {
        lemma_parent_decreases(id, l);
    }
}

/// For any non-zero shard, its parent identifier is a smaller, non-negative
/// identifier.
pub proof fn lemma_parent_decreases(id: int, l: int)
    requires
        id > 0,
        l >= 2,
    ensures
        0 <= parent_of(id, l) < id,
{
    vstd::arithmetic::div_mod::lemma_div_pos_is_pos(id - 1, l);
    vstd::arithmetic::div_mod::lemma_div_nonincreasing(id - 1, l);
}

/// Law: for every leaf capacity `l >= 2`, the path from shard 0 is `[0]`, and
/// for every shard the path starts at that shard, ends at shard 0, follows
/// `parent_of` at every step, and is strictly decreasing (hence acyclic).
pub proof fn lemma_path_to_root(id: int, l: int)
    requires
        id >= 0,
        l >= 2,
    ensures
        path_to_root(id, l).len() >= 1,
        path_to_root(id, l)[0] == id,
        path_to_root(id, l).last() == 0,
        id == 0 ==> path_to_root(id, l) == seq![0int],
        forall|k: int|
            0 <= k < path_to_root(id, l).len() - 1 ==> #[trigger] path_to_root(id, l)[k] > 0
                && path_to_root(id, l)[k + 1] == parent_of(path_to_root(id, l)[k], l)
                && path_to_root(id, l)[k + 1] < path_to_root(id, l)[k],
    decreases id,
{
    if id > 0 {
        lemma_parent_decreases(id, l);
        lemma_path_to_root(parent_of(id, l), l);
        let p = path_to_root(id, l);
        let q = path_to_root(parent_of(id, l), l);
        assert(p == seq![id] + q);
        assert(p.last() == q.last());
        assert forall|k: int| 0 <= k < p.len() - 1 implies #[trigger] p[k] > 0
            && p[k + 1] == parent_of(p[k], l)
            && p[k + 1] < p[k] by {
            if k == 0 {
                assert(p[0] == id);
                assert(p[1] == q[0]);
            } else {
                assert(p[k] == q[k - 1]);
                assert(p[k + 1] == q[k]);
            }
        }
    }
}

/// Law: `child_slot_of` and `parent_of` are consistent. Every non-zero shard
/// identifier is reconstructed exactly from its parent and its child slot,
/// and the slot is always within `0 .. l`.
pub proof fn lemma_parent_child_consistent(id: int, l: int)
    requires
        id > 0,
        l >= 2,
    ensures
        0 <= child_slot_of(id, l) < l,
        id == parent_of(id, l) * l + child_slot_of(id, l) + 1,
        parent_of(id, l) >= 0,
{
    vstd::arithmetic::div_mod::lemma_fundamental_div_mod(id - 1, l);
    vstd::arithmetic::div_mod::lemma_mod_bound(id - 1, l);
    vstd::arithmetic::div_mod::lemma_div_pos_is_pos(id - 1, l);
    vstd::arithmetic::mul::lemma_mul_is_commutative(parent_of(id, l), l);
}

/// Law: conversely, parent `p` owns exactly one child for each slot
/// `s in 0 .. l`, namely `p * l + s + 1`; so the children of one parent
/// enumerate all `l` distinct slot values.
pub proof fn lemma_child_of_slot(p: int, s: int, l: int)
    requires
        p >= 0,
        0 <= s < l,
        l >= 2,
    ensures
        p * l + s + 1 > 0,
        parent_of(p * l + s + 1, l) == p,
        child_slot_of(p * l + s + 1, l) == s,
{
    vstd::arithmetic::mul::lemma_mul_nonnegative(p, l);
    vstd::arithmetic::div_mod::lemma_fundamental_div_mod_converse_div(p * l + s, l, p, s);
    vstd::arithmetic::div_mod::lemma_fundamental_div_mod_converse_mod(p * l + s, l, p, s);
}

/// Law: two distinct children of the same parent occupy distinct slots.
pub proof fn lemma_sibling_slots_distinct(id1: int, id2: int, l: int)
    requires
        id1 > 0,
        id2 > 0,
        l >= 2,
        parent_of(id1, l) == parent_of(id2, l),
        id1 != id2,
    ensures
        child_slot_of(id1, l) != child_slot_of(id2, l),
{
    lemma_parent_child_consistent(id1, l);
    lemma_parent_child_consistent(id2, l);
}

/// The ordered path of shard identifiers from `index` up to and including the
/// top-level shard 0.
pub fn get_path_to_root(index: SubTreeId) -> (r: Vec<SubTreeId>)
    ensures
        r@.map_values(|x: SubTreeId| x as int) == path_to_root(index as int, SUB_TREE_LEAFS as int),
{
    let ghost l: int = SUB_TREE_LEAFS as int;
    let mut path: Vec<SubTreeId> = Vec::new();
    let mut current: SubTreeId = index;

    path.push(current);

    while current > 0
        invariant
            path@.len() >= 1,
            path@.last() == current,
            path_to_root(index as int, l) =~= path@.map_values(|x: SubTreeId| x as int).drop_last()
                + path_to_root(current as int, l),
            l == SUB_TREE_LEAFS as int,
        decreases current,
    {
        proof {
            lemma_parent_decreases(current as int, l);
        }
        let ghost prev = path@;
        let ghost prev_current = current as int;
        current = (current - 1) / (SUB_TREE_LEAFS as u32);
        proof {
            assert(current as int == parent_of(prev_current, l));
        }
        path.push(current);
        proof {
            let m = |x: SubTreeId| x as int;
            assert(path@.map_values(m).drop_last() =~= prev.map_values(m));
            assert(prev.map_values(m) =~= prev.map_values(m).drop_last() + seq![prev_current]);
            assert(seq![prev_current] + path_to_root(current as int, l)
                =~= path_to_root(prev_current, l));
        }
    }
    proof {
        assert(path_to_root(0int, l) == seq![0int]);
        assert(path@.map_values(|x: SubTreeId| x as int).drop_last() + seq![0int]
            =~= path@.map_values(|x: SubTreeId| x as int));
    }
    path
}

/// The child slot inside its parent that shard `node_id` occupies.
pub fn get_child_index(node_id: SubTreeId) -> (r: usize)
    ensures
        r as int == child_slot_of(node_id as int, SUB_TREE_LEAFS as int),
        r < SUB_TREE_LEAFS,
{
    if node_id == 0 {
        return 0;
    }
    proof {
        lemma_parent_child_consistent(node_id as int, SUB_TREE_LEAFS as int);
    }
    ((node_id - 1) % (SUB_TREE_LEAFS as u32)) as usize
}

} // verus!
