//! The insertion coordinator.
//!
//! Given a new leaf payload, the persisted accumulator state, and the parsed
//! shards along the path from the active leaf shard to the top shard, this
//! performs the whole insertion algorithm — lazy creation of the leaf shard,
//! capacity check, leaf insertion, cursor advance, the one-time leaf
//! migration, and the bottom-up root recomputation along the path — and
//! returns every mutated record for the caller to persist as one atomic
//! unit. Any failure returns an error before anything is handed back, so no
//! partial mutation is ever observable.

use vstd::prelude::*;
use crate::error::MtreeError;
use crate::hashing::{hash_leaf, is_zero_hash, sha256_of, zero_hash};
use crate::info::Info;
use crate::path::{child_slot_of, get_child_index, get_path_to_root, lemma_path_to_root,
    path_to_root, SubTreeId};
use crate::sub_tree::{lemma_fill_range, root_of, zero_leaves, SubTree, SUB_TREE_LEAFS};

verus! {

/// Everything one successful insertion mutates, handed back for the caller
/// to persist atomically.
pub struct InsertOutcome {
    /// The updated accumulator state; its root hash is the new logical root.
    pub info: Info,
    /// The updated shards, aligned with the path: the leaf shard first, then
    /// each ancestor up to the top shard.
    pub shards: Vec<SubTree>,
    /// Whether the fixed resource fee falls due: the accumulator already
    /// carried a non-zero root before this insertion.
    pub fee_due: bool,
    /// Whether the caller has to allocate storage for the leaf shard, which
    /// was materialized by this insertion.
    pub created_leaf_shard: bool,
}

/// The shard identifier the insertion starts from: the active leaf shard of
/// the state, or shard 0 for an accumulator that does not exist yet.
pub open spec fn start_id(info: Option<Info>) -> int {
    match info {
        Some(i) => i.node_id as int,
        None => 0,
    }
}

/// The root recorded before the insertion, or all-zero for an accumulator
/// that does not exist yet.
pub open spec fn start_root(info: Option<Info>) -> Seq<u8> {
    match info {
        Some(i) => i.root_hash@,
        None => zero_hash(),
    }
}

/// The path the insertion walks, from the active leaf shard up to shard 0.
pub open spec fn spec_path(info: Option<Info>) -> Seq<int> {
    path_to_root(start_id(info), SUB_TREE_LEAFS as int)
}

/// Leaf count of a caller-supplied shard slot; an absent shard is lazily
/// created empty.
pub open spec fn opt_fill(o: Option<SubTree>) -> int {
    match o {
        Some(t) => t.fill(),
        None => 0,
    }
}

/// Leaf contents of a caller-supplied shard slot; an absent shard is lazily
/// created with all-zero leaves.
pub open spec fn opt_leaves(o: Option<SubTree>) -> Seq<Seq<u8>> {
    match o {
        Some(t) => t.leaves(),
        None => zero_leaves(),
    }
}

/// When the inputs admit an insertion: one shard slot per path entry, the
/// leaf shard not yet full, and every ancestor shard already materialized.
pub open spec fn inputs_ok(info: Option<Info>, shards: Seq<Option<SubTree>>) -> bool {
    &&& shards.len() == spec_path(info).len()
    &&& opt_fill(shards[0]) < SUB_TREE_LEAFS as int
    &&& forall|k: int| 1 <= k < shards.len() ==> shards[k] is Some
}

/// When the one-time leaf migration fires: the leaf shard was empty before
/// this insertion, it has a parent, and the parent already holds a leaf in
/// the child slot that now belongs to the leaf shard.
pub open spec fn migrates(info: Option<Info>, shards: Seq<Option<SubTree>>) -> bool {
    &&& opt_fill(shards[0]) == 0
    &&& shards.len() > 1
    &&& child_slot_of(spec_path(info)[0], SUB_TREE_LEAFS as int) < opt_fill(shards[1])
}

/// The leaf contents of the leaf shard after the insertion: the hashed
/// payload in the next free slot, followed — only in the migration case —
/// by the leaf moved down from the parent's child slot.
pub open spec fn leaf_shard_leaves(
    info: Option<Info>,
    shards: Seq<Option<SubTree>>,
    leaf: Seq<u8>,
) -> Seq<Seq<u8>> {
    let lv0 = opt_leaves(shards[0]);
    let f0 = opt_fill(shards[0]);
    let lh = sha256_of(leaf);
    if migrates(info, shards) {
        lv0.update(f0, lh).update(
            f0 + 1,
            opt_leaves(shards[1])[child_slot_of(spec_path(info)[0], SUB_TREE_LEAFS as int)],
        )
    } else {
        lv0.update(f0, lh)
    }
}

/// Leaf count of the leaf shard after the insertion.
pub open spec fn leaf_shard_fill(info: Option<Info>, shards: Seq<Option<SubTree>>) -> int {
    opt_fill(shards[0]) + 1 + if migrates(info, shards) {
        1int
    } else {
        0int
    }
}

/// Inserts one leaf payload into the accumulator.
///
/// `info` is the parsed accumulator state, or nothing if it is not yet
/// materialized; `shards` holds the parsed shard behind each caller-supplied
/// storage handle along the path of the active leaf shard, leaf shard first,
/// with nothing for handles whose storage is still empty; `leaf` is the raw
/// payload. On success the outcome pins down every mutated shard, the new
/// state, and the new logical root; on failure nothing is handed back.
#[verifier::rlimit(100)]
pub fn insert_leaf(info: Option<Info>, shards: Vec<Option<SubTree>>, leaf: Vec<u8>) -> (r: Result<
    InsertOutcome,
    MtreeError,
>)
    requires
        forall|k: int|
            0 <= k < shards@.len() && shards@[k] is Some ==> (#[trigger] shards@[k])->Some_0.inv(),
        info matches Some(i) ==> i.node_id < u32::MAX,
    ensures
        r is Ok <==> inputs_ok(info, shards@),
        shards@.len() != spec_path(info).len() ==> r is Err && r->Err_0
            == MtreeError::InvalidNodeAccount,
        shards@.len() == spec_path(info).len() && opt_fill(shards@[0]) == SUB_TREE_LEAFS as int
            ==> r is Err && r->Err_0 == MtreeError::SubTreeFull,
        shards@.len() == spec_path(info).len() && opt_fill(shards@[0]) < SUB_TREE_LEAFS as int
            && !(forall|k: int| 1 <= k < shards@.len() ==> shards@[k] is Some) ==> r is Err
            && r->Err_0 == MtreeError::UninitializedSubTree,
        r matches Ok(out) ==> ({
            let p = spec_path(info);
            let n = p.len() as int;
            let l = SUB_TREE_LEAFS as int;
            &&& out.shards@.len() == n
            &&& out.created_leaf_shard == (shards@[0] is None)
            &&& out.fee_due == (start_root(info) != zero_hash())
            &&& out.shards@[0].inv()
            &&& out.shards@[0].leaves() == leaf_shard_leaves(info, shards@, leaf@)
            &&& out.shards@[0].fill() == leaf_shard_fill(info, shards@)
            &&& out.info.node_id as int == if opt_fill(shards@[0]) + 1 == l {
                start_id(info) + 1
            } else {
                start_id(info)
            }
            &&& forall|k: int|
                1 <= k < n ==> (#[trigger] out.shards@[k]).inv() && out.shards@[k].fill()
                    == shards@[k]->Some_0.fill() && out.shards@[k].leaves()
                    == shards@[k]->Some_0.leaves().update(
                    child_slot_of(p[k - 1], l),
                    root_of(out.shards@[k - 1].leaves()),
                )
            &&& out.info.root_hash@ == root_of(out.shards@[n - 1].leaves())
        }),
{
    let ghost shards0 = shards@;
    let ghost l: int = SUB_TREE_LEAFS as int;

    let info0 = match info {
        Some(i) => i,
        None => Info::default(),
    };
    proof {
        assert(info0.node_id as int == start_id(info));
        assert(info0.root_hash@ == start_root(info));
    }
    let fee_due = !is_zero_hash(&info0.root_hash);

    let path = get_path_to_root(info0.node_id);
    let ghost p = spec_path(info);
    proof {
        lemma_path_to_root(start_id(info), l);
        assert(path@.map_values(|x: SubTreeId| x as int) == p);
        assert(path@.len() == p.len());
        assert(p[0] == start_id(info));
    }
    let n = path.len();

    let mut rest = shards;
    if rest.len() != n {
        return Err(MtreeError::InvalidNodeAccount);
    }

    let first = rest.remove(0);
    let (mut leaf_tree, created) = match first {
        Some(t) => (t, false),
        None => (SubTree::new(), true),
    };
    proof {
        assert(leaf_tree.fill() == opt_fill(shards0[0]));
        assert(leaf_tree.leaves() == opt_leaves(shards0[0]));
    }

    let was_new = leaf_tree.is_empty();
    if leaf_tree.is_full() {
        return Err(MtreeError::SubTreeFull);
    }
    proof {
        lemma_fill_range(leaf_tree);
    }

    let lh = hash_leaf(leaf);
    let inserted = leaf_tree.insert_leaf(lh);
    proof {
        assert(inserted);
    }

    let mut new_id = info0.node_id;
    if leaf_tree.is_full() {
        new_id = info0.node_id + 1;
    }

    let mut root = leaf_tree.root_hash();
    let mut child: SubTreeId = info0.node_id;
    let mut pending = was_new;
    let mut out_anc: Vec<SubTree> = Vec::new();
    let mut k: usize = 1;

    while k < n
        invariant
            1 <= k <= n,
            shards0 == shards@,
            n == p.len(),
            n == shards0.len(),
            l == SUB_TREE_LEAFS as int,
            p == spec_path(info),
            p[0] == start_id(info),
            rest@ =~= shards0.subrange(k as int, n as int),
            path@.map_values(|x: SubTreeId| x as int) == p,
            path@.len() == n,
            child as int == p[k as int - 1],
            leaf_tree.inv(),
            pending == (was_new && k == 1),
            was_new == (opt_fill(shards0[0]) == 0),
            opt_fill(shards0[0]) < l,
            forall|j: int|
                0 <= j < n && shards0[j] is Some ==> (#[trigger] shards0[j])->Some_0.inv(),
            forall|j: int| 1 <= j < k ==> shards0[j] is Some,
            k == 1 ==> leaf_tree.leaves() == opt_leaves(shards0[0]).update(
                opt_fill(shards0[0]),
                sha256_of(leaf@),
            ) && leaf_tree.fill() == opt_fill(shards0[0]) + 1,
            k > 1 ==> leaf_tree.leaves() == leaf_shard_leaves(info, shards0, leaf@)
                && leaf_tree.fill() == leaf_shard_fill(info, shards0),
            out_anc@.len() == k - 1,
            forall|j: int|
                1 <= j < k ==> (#[trigger] out_anc@[j - 1]).inv() && out_anc@[j - 1].fill()
                    == shards0[j]->Some_0.fill() && out_anc@[j - 1].leaves()
                    == shards0[j]->Some_0.leaves().update(
                    child_slot_of(p[j - 1], l),
                    root_of(
                        if j == 1 {
                            leaf_tree.leaves()
                        } else {
                            out_anc@[j - 2].leaves()
                        },
                    ),
                ),
            root@ == root_of(
                if k == 1 {
                    leaf_tree.leaves()
                } else {
                    out_anc@[k as int - 2].leaves()
                },
            ),
        decreases n - k,
    {
        let a_opt = rest.remove(0);
        proof {
            assert(a_opt == shards0[k as int]);
        }
        let mut anc = match a_opt {
            Some(t) => t,
            None => {
                return Err(MtreeError::UninitializedSubTree);
            },
        };
        let slot = get_child_index(child);
        if pending {
            pending = false;
            match anc.get_leaf(SUB_TREE_LEAFS - 1 + slot) {
                Some(m) => {
                    proof {
                        assert(k == 1);
                        assert(migrates(info, shards0));
                        assert(m@ == opt_leaves(shards0[1])[child_slot_of(p[0], l)]);
                    }
                    let migrated_ok = leaf_tree.insert_leaf(m);
                    proof {
                        assert(migrated_ok);
                    }
                    root = leaf_tree.root_hash();
                },
                None => {
                    proof {
                        assert(!migrates(info, shards0));
                    }
                },
            }
            proof {
                assert(leaf_tree.leaves() == leaf_shard_leaves(info, shards0, leaf@));
                assert(leaf_tree.fill() == leaf_shard_fill(info, shards0));
            }
        }
        let ghost anc_before = anc;
        let updated = anc.update_leaf(SUB_TREE_LEAFS - 1 + slot, root);
        proof {
            assert(updated);
            assert(anc.leaves() == anc_before.leaves().update(slot as int, root@));
        }
        root = anc.root_hash();
        child = path[k];
        out_anc.push(anc);
        k = k + 1;
        proof {
            assert(k > 1 ==> leaf_tree.leaves() == leaf_shard_leaves(info, shards0, leaf@));
        }
    }

    let info_out = Info { node_id: new_id, root_hash: root };
    let ghost anc_snap = out_anc@;
    let ghost leaf_snap = leaf_tree;
    let mut all_shards: Vec<SubTree> = Vec::new();
    all_shards.push(leaf_tree);
    all_shards.append(&mut out_anc);
    proof {
        assert(all_shards@ =~= seq![leaf_snap] + anc_snap);
    }

    let outcome = InsertOutcome {
        info: info_out,
        shards: all_shards,
        fee_due,
        created_leaf_shard: created,
    };
    proof {
        let n_i = n as int;
        assert(outcome.shards@.len() == n_i);
        assert(outcome.shards@[0] == leaf_snap);
        if n_i == 1 {
            assert(!migrates(info, shards0));
            assert(outcome.shards@[0].leaves() == leaf_shard_leaves(info, shards0, leaf@));
        }
        assert forall|j: int|
            1 <= j < n_i implies (#[trigger] outcome.shards@[j]).inv() && outcome.shards@[j].fill()
            == shards0[j]->Some_0.fill() && outcome.shards@[j].leaves()
            == shards0[j]->Some_0.leaves().update(
            child_slot_of(p[j - 1], l),
            root_of(outcome.shards@[j - 1].leaves()),
        ) by {
            assert(outcome.shards@[j] == anc_snap[j - 1]);
            if j > 1 {
                assert(outcome.shards@[j - 1] == anc_snap[j - 2]);
            }
        }
        assert(outcome.info.root_hash@ == root_of(outcome.shards@[n_i - 1].leaves()));
    }
    Ok(outcome)
}

} // verus!
