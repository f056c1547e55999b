//! Why refinement from a witness reproduces the client's roots.
//!
//! The client runs a state transition on its full state; the service runs
//! it on the partial state that the witness rebuilds. Both runs read and
//! write the same nodes and keys in the same order; the witness holds every
//! node hash that the full run read from the state it started from, and
//! every pair as it was at the first access to its key (keys first found
//! empty are left out, as the partial state does not hold them either), so
//! each read gives the same value in both runs, and so does each write.
use vstd::prelude::*;
use crate::external_client::merkle::{
    access_walk, insert_walk, is_listing, node_of, read_node, sibling, tree_root, write_node,
    TreeView, ROOT_INDEX,
};
use crate::external_client::refinement::{refined_roots, root_read, witness_state, RefineError};
use crate::external_client::state_tree::{
    get_effect, hashes_of, note_effect, noted, pairs_view, record_value, replay, set_effect,
    slot_taken, value_digest, witness_start, MerkleValue, StateTreeView,
};
use crate::external_client::state::{
    balance_read, balance_write, state_root, witness_reset, Balance, StateView, Witness,
};
use crate::external_client::transition::{
    mint_effect, or_zero, saturating_sum, settle, settle_one, transfer_effect, transition,
    transition_ops, transition_step,
};
use crate::external_client::commitment::{
    commits, committed, exact_leaves, hash_at, lemma_commits_restores, restores,
};
use crate::hashing::{key_index, zero_hash, Hash32, TreeIndex};
use crate::ledger::{AccountId, LedgerError, Operation, SignedOperation, Staged, TokenId, TransferKey};

verus! {

/// A tree of a full run: every node it held at the snapshot is still
/// there, and the witness holds hashes as of the snapshot.
pub open spec fn tree_honest(t: TreeView) -> bool {
    &&& forall|k: u16| #[trigger] t.snapshot.contains_key(k) ==> t.hashes.contains_key(k)
    &&& forall|k: u16| #[trigger]
        t.witness.contains_key(k) ==> t.snapshot.contains_key(k) && t.witness[k] == t.snapshot[k]
}

/// How a tree of a full run evolves: same snapshot, no node lost, no
/// witnessed node lost.
pub open spec fn tree_grows(a: TreeView, b: TreeView) -> bool {
    &&& b.snapshot == a.snapshot
    &&& forall|k: u16| #[trigger] a.hashes.contains_key(k) ==> b.hashes.contains_key(k)
    &&& forall|k: u16| #[trigger] a.witness.contains_key(k) ==> b.witness.contains_key(k)
}

/// Every sibling along the path from position `at` whose hash at the
/// snapshot is not zero is witnessed.
pub open spec fn path_witnessed(t: TreeView, offset: int, step: int, at: int) -> bool
    decreases step,
{
    if step <= 1 {
        true
    } else {
        let s = sibling(offset, at) as u16;
        &&& (t.snapshot.contains_key(s) && t.snapshot[s] != zero_hash()) ==> t.witness.contains_key(s)
        &&& path_witnessed(t, offset + step, step / 2, at / 2)
    }
}

/// The partial tree `p` agrees with the full tree `f` on every node that
/// `f` may read and that is in the witness `wf` of the whole full run: `p`
/// holds `f`'s hash wherever it holds a node, and `f` still holds its
/// snapshot hash wherever `p` holds nothing.
pub open spec fn tree_sim(f: TreeView, p: TreeView, wf: Map<u16, Seq<u8>>) -> bool {
    &&& forall|k: u16| #[trigger] p.hashes.contains_key(k) ==> hash_at(f.hashes, k) == p.hashes[k]
    &&& forall|k: u16|
        #![trigger f.hashes.contains_key(k), p.hashes.contains_key(k)]
        f.hashes.contains_key(k) && !p.hashes.contains_key(k) ==> f.snapshot.contains_key(k)
            && f.hashes[k] == f.snapshot[k]
    &&& forall|k: u16| #[trigger] wf.contains_key(k) ==> p.hashes.contains_key(k)
}

/// Whether the witness of `t` is part of `wf`.
pub open spec fn witness_within(t: TreeView, wf: Map<u16, Seq<u8>>) -> bool {
    forall|k: u16| #[trigger] t.witness.contains_key(k) ==> wf.contains_key(k)
}

/// Reading a node: the full tree keeps its shape, and both trees read the
/// same hash, provided the full run's witness stays within `wf`.
proof fn lemma_read_node(f: TreeView, p: TreeView, wf: Map<u16, Seq<u8>>, n: int)
    requires
        tree_honest(f),
        tree_sim(f, p, wf),
        witness_within(read_node(f, n), wf),
    ensures
        tree_honest(read_node(f, n)),
        tree_grows(f, read_node(f, n)),
        read_node(f, n).hashes == f.hashes,
        read_node(p, n).hashes == p.hashes,
        tree_sim(read_node(f, n), read_node(p, n), wf),
        node_of(f.hashes, n) == node_of(p.hashes, n),
{
    let k = n as u16;
    if !p.hashes.contains_key(k) && f.hashes.contains_key(k) {
        assert(f.snapshot.contains_key(k));
        if f.snapshot[k] != zero_hash() {
            assert(read_node(f, n).witness.contains_key(k));
        }
    }
}

/// Writing the same hash at the same node of both trees.
proof fn lemma_write_node(f: TreeView, p: TreeView, wf: Map<u16, Seq<u8>>, n: int, h: Seq<u8>)
    requires
        tree_honest(f),
        tree_sim(f, p, wf),
    ensures
        tree_honest(write_node(f, n, h)),
        tree_grows(f, write_node(f, n, h)),
        tree_sim(write_node(f, n, h), write_node(p, n, h), wf),
        write_node(f, n, h).witness == f.witness,
{
}

/// The full tree only grows along a walk that stores a hash.
proof fn lemma_insert_walk_grows(t: TreeView, offset: int, step: int, at: int, h: Seq<u8>)
    requires
        tree_honest(t),
    ensures
        tree_honest(insert_walk(t, offset, step, at, h)),
        tree_grows(t, insert_walk(t, offset, step, at, h)),
    decreases step,
{
    if step > 1 {
        let t1 = write_node(t, offset + at, h);
        let sib = sibling(offset, at);
        let s = node_of(t1.hashes, sib);
        let up = if at % 2 == 0 {
            crate::hashing::pair_digest(h, s)
        } else {
            crate::hashing::pair_digest(s, h)
        };
        let t2 = read_node(t1, sib);
        lemma_insert_walk_grows(t2, offset + step, step / 2, at / 2, up);
        assert(tree_grows(t, t2));
        lemma_tree_grows_trans(t, t2, insert_walk(t2, offset + step, step / 2, at / 2, up));
    } else {
        assert(tree_grows(t, write_node(t, offset + at, h)));
    }
}

/// The full tree only grows along a walk that reads siblings, and then
/// every sibling on the path is witnessed.
proof fn lemma_access_walk_grows(t: TreeView, offset: int, step: int, at: int)
    requires
        tree_honest(t),
    ensures
        tree_honest(access_walk(t, offset, step, at)),
        tree_grows(t, access_walk(t, offset, step, at)),
        access_walk(t, offset, step, at).hashes == t.hashes,
        path_witnessed(access_walk(t, offset, step, at), offset, step, at),
    decreases step,
{
    if step > 1 {
        let t1 = read_node(t, sibling(offset, at));
        lemma_access_walk_grows(t1, offset + step, step / 2, at / 2);
        assert(tree_grows(t, t1));
        lemma_tree_grows_trans(t, t1, access_walk(t1, offset + step, step / 2, at / 2));
        lemma_path_witnessed_grows(t1, access_walk(t1, offset + step, step / 2, at / 2), offset, step, at);
        let s = sibling(offset, at) as u16;
        if t.snapshot.contains_key(s) && t.snapshot[s] != zero_hash() {
            assert(t1.witness.contains_key(s));
        }
    }
}

/// A witnessed path stays witnessed as the tree grows.
proof fn lemma_path_witnessed_grows(a: TreeView, b: TreeView, offset: int, step: int, at: int)
    requires
        tree_grows(a, b),
    ensures
        path_witnessed(a, offset, step, at) ==> path_witnessed(b, offset, step, at),
    decreases step,
{
    if step > 1 {
        lemma_path_witnessed_grows(a, b, offset + step, step / 2, at / 2);
    }
}

/// Growth is transitive.
proof fn lemma_tree_grows_trans(a: TreeView, b: TreeView, c: TreeView)
    requires
        tree_grows(a, b),
        tree_grows(b, c),
    ensures
        tree_grows(a, c),
{
}

/// Both trees store the same hash along the same walk.
proof fn lemma_insert_walk_sim(
    f: TreeView,
    p: TreeView,
    wf: Map<u16, Seq<u8>>,
    offset: int,
    step: int,
    at: int,
    h: Seq<u8>,
)
    requires
        tree_honest(f),
        tree_sim(f, p, wf),
        witness_within(insert_walk(f, offset, step, at, h), wf),
    ensures
        tree_sim(insert_walk(f, offset, step, at, h), insert_walk(p, offset, step, at, h), wf),
    decreases step,
{
    if step <= 1 {
        lemma_write_node(f, p, wf, offset + at, h);
    } else {
        let f1 = write_node(f, offset + at, h);
        let p1 = write_node(p, offset + at, h);
        lemma_write_node(f, p, wf, offset + at, h);
        let sib = sibling(offset, at);
        let f2 = read_node(f1, sib);
        let s = node_of(f1.hashes, sib);
        let up = if at % 2 == 0 {
            crate::hashing::pair_digest(h, s)
        } else {
            crate::hashing::pair_digest(s, h)
        };
        lemma_read_node_honest(f1, sib);
        lemma_insert_walk_grows(f2, offset + step, step / 2, at / 2, up);
        assert(witness_within(f2, wf));
        lemma_read_node(f1, p1, wf, sib);
        lemma_insert_walk_sim(f2, read_node(p1, sib), wf, offset + step, step / 2, at / 2, up);
    }
}

/// Both trees read the same siblings along the same walk.
proof fn lemma_access_walk_sim(
    f: TreeView,
    p: TreeView,
    wf: Map<u16, Seq<u8>>,
    offset: int,
    step: int,
    at: int,
)
    requires
        tree_honest(f),
        tree_sim(f, p, wf),
        witness_within(access_walk(f, offset, step, at), wf),
    ensures
        tree_sim(access_walk(f, offset, step, at), access_walk(p, offset, step, at), wf),
        access_walk(p, offset, step, at).hashes == p.hashes,
    decreases step,
{
    if step > 1 {
        let sib = sibling(offset, at);
        let f1 = read_node(f, sib);
        lemma_read_node_honest(f, sib);
        lemma_access_walk_grows(f1, offset + step, step / 2, at / 2);
        assert(witness_within(f1, wf));
        lemma_read_node(f, p, wf, sib);
        lemma_access_walk_sim(f1, read_node(p, sib), wf, offset + step, step / 2, at / 2);
    }
}

/// Reading a node keeps a full tree honest and growing.
proof fn lemma_read_node_honest(t: TreeView, n: int)
    requires
        tree_honest(t),
    ensures
        tree_honest(read_node(t, n)),
        tree_grows(t, read_node(t, n)),
        read_node(t, n).hashes == t.hashes,
{
}

/// Whether `k` was recorded.
pub open spec fn recorded_key<V>(t: StateTreeView<V>, k: Seq<u8>) -> bool {
    exists|i: int| 0 <= i < t.recorded.len() && #[trigger] t.recorded[i].0 == k
}

/// The siblings along the path of every recorded key are witnessed.
pub open spec fn records_witnessed<V>(t: StateTreeView<V>) -> bool {
    forall|i: int|
        0 <= i < t.recorded.len() ==> path_witnessed(
            t.tree,
            0,
            32768,
            key_index(#[trigger] t.recorded[i].0) as int,
        )
}

/// A store of a full run.
pub open spec fn store_honest<V>(t: StateTreeView<V>) -> bool {
    tree_honest(t.tree) && records_witnessed(t)
}

/// Whether the pair `p` is recorded.
pub open spec fn pair_recorded<V>(t: StateTreeView<V>, p: (Seq<u8>, V)) -> bool {
    exists|i: int| 0 <= i < t.recorded.len() && t.recorded[i] == p
}

/// How a store of a full run evolves: its tree grows; no noted key or
/// record is lost; a new record holds what its key held, and a new absent
/// key held nothing, before the key was first accessed; and a key not
/// accessed keeps what it held.
pub open spec fn store_grows<V>(a: StateTreeView<V>, b: StateTreeView<V>) -> bool {
    &&& tree_grows(a.tree, b.tree)
    &&& forall|k: Seq<u8>| recorded_key(a, k) ==> recorded_key(b, k)
    &&& forall|k: Seq<u8>| noted(a, k) ==> noted(b, k)
    &&& forall|i: int|
        0 <= i < b.recorded.len() ==> pair_recorded(a, #[trigger] b.recorded[i]) || (!noted(
            a,
            b.recorded[i].0,
        ) && a.entries.contains_key(b.recorded[i].0) && a.entries[b.recorded[i].0]
            == b.recorded[i].1)
    &&& forall|k: Seq<u8>| #[trigger]
        b.absent.contains(k) ==> a.absent.contains(k) || (!noted(a, k) && !a.entries.contains_key(k))
    &&& forall|k: Seq<u8>|
        #![trigger noted(b, k)]
        !noted(b, k) ==> b.entries.contains_key(k) == a.entries.contains_key(k) && (
        a.entries.contains_key(k) ==> b.entries[k] == a.entries[k])
}

/// Every noted key is in `rk`.
pub open spec fn noted_within<V>(t: StateTreeView<V>, rk: Set<Seq<u8>>) -> bool {
    forall|k: Seq<u8>| noted(t, k) ==> rk.contains(k)
}

/// The partial store `p` holds a subset of the pairs of the full store
/// `f`, and every pair of `f` whose key is in `rk`.
pub open spec fn entries_sim<V>(f: StateTreeView<V>, p: StateTreeView<V>, rk: Set<Seq<u8>>) -> bool {
    &&& forall|k: Seq<u8>| #[trigger]
        p.entries.contains_key(k) ==> f.entries.contains_key(k) && f.entries[k] == p.entries[k]
    &&& forall|k: Seq<u8>| #[trigger] f.entries.contains_key(k) && rk.contains(k) ==> p.entries.contains_key(k)
}

/// The partial store simulates the full one.
pub open spec fn store_sim<V>(
    f: StateTreeView<V>,
    p: StateTreeView<V>,
    wf: Map<u16, Seq<u8>>,
    rk: Set<Seq<u8>>,
) -> bool {
    tree_sim(f.tree, p.tree, wf) && entries_sim(f, p, rk)
}

/// What recording a read does to the list of records: every record is the
/// new pair or an old one, the new key is recorded, and every old record
/// stays.
proof fn lemma_record_value<V>(s: Seq<(Seq<u8>, V)>, k: Seq<u8>, v: V)
    ensures
        forall|i: int|
            0 <= i < record_value(s, k, v).len() ==> #[trigger] record_value(s, k, v)[i] == (k, v)
                || exists|j: int| 0 <= j < s.len() && s[j] == record_value(s, k, v)[i],
        exists|i: int| 0 <= i < record_value(s, k, v).len() && (#[trigger] record_value(s, k, v)[i]).0 == k,
        forall|j: int|
            #![trigger s[j]]
            0 <= j < s.len() ==> exists|i: int|
                0 <= i < record_value(s, k, v).len() && (#[trigger] record_value(s, k, v)[i]).0
                    == s[j].0,
    decreases s.len(),
{
    let r = record_value(s, k, v);
    if s.len() == 0 {
        assert(r[0].0 == k);
    } else if s[0].0 == k {
        assert(r[0].0 == k);
        assert forall|i: int| 0 <= i < r.len() implies #[trigger] r[i] == (k, v) || exists|j: int|
            0 <= j < s.len() && s[j] == r[i] by {
            assert(s[i] == r[i]);
        }
        assert forall|j: int| #![trigger s[j]] 0 <= j < s.len() implies exists|i: int|
            0 <= i < r.len() && (#[trigger] r[i]).0 == s[j].0 by {
            assert(r[j].0 == s[j].0);
        }
    } else if crate::order::bytes_lt(k, s[0].0) {
        assert(r[0].0 == k);
        assert forall|i: int| 0 <= i < r.len() implies #[trigger] r[i] == (k, v) || exists|j: int|
            0 <= j < s.len() && s[j] == r[i] by {
            if i > 0 {
                assert(r[i] == s[i - 1]);
            }
        }
        assert forall|j: int| #![trigger s[j]] 0 <= j < s.len() implies exists|i: int|
            0 <= i < r.len() && (#[trigger] r[i]).0 == s[j].0 by {
            assert(r[j + 1] == s[j]);
        }
    } else {
        let t = s.drop_first();
        let rt = record_value(t, k, v);
        lemma_record_value(t, k, v);
        assert(r == seq![s[0]] + rt);
        assert forall|i: int| 0 <= i < r.len() implies #[trigger] r[i] == (k, v) || exists|j: int|
            0 <= j < s.len() && s[j] == r[i] by {
            if i == 0 {
                assert(s[0] == r[0]);
            } else {
                assert(r[i] == rt[i - 1]);
                if rt[i - 1] != (k, v) {
                    let j = choose|j: int| 0 <= j < t.len() && t[j] == rt[i - 1];
                    assert(s[j + 1] == t[j]);
                }
            }
        }
        let i0 = choose|i: int| 0 <= i < rt.len() && (#[trigger] rt[i]).0 == k;
        assert(r[i0 + 1] == rt[i0]);
        assert forall|j: int| #![trigger s[j]] 0 <= j < s.len() implies exists|i: int|
            0 <= i < r.len() && (#[trigger] r[i]).0 == s[j].0 by {
            if j == 0 {
                assert(r[0].0 == s[0].0);
            } else {
                assert(t[j - 1] == s[j]);
                let i = choose|i: int| 0 <= i < rt.len() && (#[trigger] rt[i]).0 == t[j - 1].0;
                assert(r[i + 1] == rt[i]);
            }
        }
    }
}

/// Records stay witnessed as the tree grows and no record is added.
proof fn lemma_records_witnessed_grows<V>(a: StateTreeView<V>, b: StateTreeView<V>)
    requires
        records_witnessed(a),
        tree_grows(a.tree, b.tree),
        b.recorded == a.recorded,
    ensures
        records_witnessed(b),
{
    assert forall|i: int| 0 <= i < b.recorded.len() implies path_witnessed(
        b.tree,
        0,
        32768,
        key_index(#[trigger] b.recorded[i].0) as int,
    ) by {
        lemma_path_witnessed_grows(a.tree, b.tree, 0, 32768, key_index(a.recorded[i].0) as int);
    }
}

/// Noting an access, then changing the tree so that it grows and the path
/// of the accessed key is witnessed, and perhaps storing under the key,
/// keeps a full store honest and growing.
proof fn lemma_note_grows<V>(f: StateTreeView<V>, k: Seq<u8>, v: V, g: StateTreeView<V>)
    requires
        store_honest(f),
        tree_grows(f.tree, g.tree),
        tree_honest(g.tree),
        path_witnessed(g.tree, 0, 32768, key_index(k) as int),
        g.recorded == note_effect(f, k).recorded,
        g.absent == note_effect(f, k).absent,
        g.entries == f.entries || g.entries == f.entries.insert(k, v),
    ensures
        store_honest(g),
        store_grows(f, g),
        noted(g, k),
{
    if noted(f, k) {
        lemma_note_grows_noted(f, k, v, g);
    } else if f.entries.contains_key(k) {
        lemma_note_grows_stored(f, k, v, g);
    } else {
        lemma_note_grows_absent(f, k, v, g);
    }
}

proof fn lemma_note_grows_noted<V>(f: StateTreeView<V>, k: Seq<u8>, v: V, g: StateTreeView<V>)
    requires
        store_honest(f),
        tree_grows(f.tree, g.tree),
        tree_honest(g.tree),
        path_witnessed(g.tree, 0, 32768, key_index(k) as int),
        g.recorded == note_effect(f, k).recorded,
        g.absent == note_effect(f, k).absent,
        g.entries == f.entries || g.entries == f.entries.insert(k, v),
        noted(f, k),
    ensures
        store_honest(g),
        store_grows(f, g),
        noted(g, k),
{
    lemma_records_witnessed_grows(f, g);
    assert forall|i: int| 0 <= i < g.recorded.len() implies pair_recorded(f, #[trigger] g.recorded[i]) by {
        assert(f.recorded[i] == g.recorded[i]);
    }
    assert forall|k2: Seq<u8>| #![trigger noted(g, k2)] !noted(g, k2) implies g.entries.contains_key(k2)
        == f.entries.contains_key(k2) && (f.entries.contains_key(k2) ==> g.entries[k2]
        == f.entries[k2]) by {
        assert(k2 != k);
    }
}

proof fn lemma_note_grows_absent<V>(f: StateTreeView<V>, k: Seq<u8>, v: V, g: StateTreeView<V>)
    requires
        store_honest(f),
        tree_grows(f.tree, g.tree),
        tree_honest(g.tree),
        path_witnessed(g.tree, 0, 32768, key_index(k) as int),
        g.recorded == note_effect(f, k).recorded,
        g.absent == note_effect(f, k).absent,
        g.entries == f.entries || g.entries == f.entries.insert(k, v),
        !noted(f, k),
        !f.entries.contains_key(k),
    ensures
        store_honest(g),
        store_grows(f, g),
        noted(g, k),
{
    lemma_records_witnessed_grows(f, g);
    assert forall|i: int| 0 <= i < g.recorded.len() implies pair_recorded(f, #[trigger] g.recorded[i]) by {
        assert(f.recorded[i] == g.recorded[i]);
    }
    assert(g.absent.contains(k));
    assert forall|k2: Seq<u8>| #![trigger noted(g, k2)] !noted(g, k2) implies g.entries.contains_key(k2)
        == f.entries.contains_key(k2) && (f.entries.contains_key(k2) ==> g.entries[k2]
        == f.entries[k2]) by {
        assert(k2 != k);
    }
}

#[verifier::rlimit(40)]
proof fn lemma_note_grows_stored<V>(f: StateTreeView<V>, k: Seq<u8>, v: V, g: StateTreeView<V>)
    requires
        store_honest(f),
        tree_grows(f.tree, g.tree),
        tree_honest(g.tree),
        path_witnessed(g.tree, 0, 32768, key_index(k) as int),
        g.recorded == note_effect(f, k).recorded,
        g.absent == note_effect(f, k).absent,
        g.entries == f.entries || g.entries == f.entries.insert(k, v),
        !noted(f, k),
        f.entries.contains_key(k),
    ensures
        store_honest(g),
        store_grows(f, g),
        noted(g, k),
{
    let p = (k, f.entries[k]);
    assert(g.recorded == record_value(f.recorded, k, f.entries[k]));
    assert(g.absent == f.absent);
    lemma_record_value(f.recorded, k, f.entries[k]);
    assert(records_witnessed(g)) by {
        assert forall|i: int| 0 <= i < g.recorded.len() implies path_witnessed(
            g.tree,
            0,
            32768,
            key_index(#[trigger] g.recorded[i].0) as int,
        ) by {
            if g.recorded[i] != p {
                let j = choose|j: int| 0 <= j < f.recorded.len() && f.recorded[j] == g.recorded[i];
                assert(path_witnessed(f.tree, 0, 32768, key_index(f.recorded[j].0) as int));
                lemma_path_witnessed_grows(f.tree, g.tree, 0, 32768, key_index(f.recorded[j].0) as int);
            }
        }
    }
    assert forall|k2: Seq<u8>| recorded_key(f, k2) implies recorded_key(g, k2) by {
        let j = choose|j: int| 0 <= j < f.recorded.len() && #[trigger] f.recorded[j].0 == k2;
        let i = choose|i: int| 0 <= i < g.recorded.len() && (#[trigger] g.recorded[i]).0 == f.recorded[j].0;
    }
    assert forall|k2: Seq<u8>| noted(f, k2) implies noted(g, k2) by {
        if !f.absent.contains(k2) {
            assert(recorded_key(f, k2));
        }
    }
    assert forall|i: int| 0 <= i < g.recorded.len() implies pair_recorded(f, #[trigger] g.recorded[i]) || (
    !noted(f, g.recorded[i].0) && f.entries.contains_key(g.recorded[i].0)
        && f.entries[g.recorded[i].0] == g.recorded[i].1) by {
        if g.recorded[i] != p {
            let j = choose|j: int| 0 <= j < f.recorded.len() && f.recorded[j] == g.recorded[i];
        }
    }
    let i0 = choose|i: int| 0 <= i < g.recorded.len() && (#[trigger] g.recorded[i]).0 == k;
    assert(noted(g, k));
    assert forall|k2: Seq<u8>| #![trigger noted(g, k2)] !noted(g, k2) implies g.entries.contains_key(k2)
        == f.entries.contains_key(k2) && (f.entries.contains_key(k2) ==> g.entries[k2]
        == f.entries[k2]) by {
        assert(k2 != k);
    }
}

/// Reading a key in both stores: the same answer, and the simulation goes
/// on.
proof fn lemma_get_sim<V>(
    f: StateTreeView<V>,
    p: StateTreeView<V>,
    wf: Map<u16, Seq<u8>>,
    rk: Set<Seq<u8>>,
    k: Seq<u8>,
)
    requires
        store_honest(f),
        store_sim(f, p, wf, rk),
        witness_within(get_effect(f, k).tree, wf),
        noted_within(get_effect(f, k), rk),
    ensures
        store_honest(get_effect(f, k)),
        store_grows(f, get_effect(f, k)),
        store_sim(get_effect(f, k), get_effect(p, k), wf, rk),
        f.entries.contains_key(k) == p.entries.contains_key(k),
        f.entries.contains_key(k) ==> f.entries[k] == p.entries[k],
        get_effect(f, k).entries == f.entries,
        get_effect(p, k).entries == p.entries,
{
    lemma_get_grows(f, k);
    let ix = key_index(k) as int;
    lemma_access_walk_sim(f.tree, p.tree, wf, 0, 32768, ix);
    assert(rk.contains(k));
}

/// Reading a key keeps a full store honest and growing, and notes the key.
proof fn lemma_get_grows<V>(f: StateTreeView<V>, k: Seq<u8>)
    requires
        store_honest(f),
    ensures
        store_honest(get_effect(f, k)),
        store_grows(f, get_effect(f, k)),
        get_effect(f, k).tree.hashes == f.tree.hashes,
        noted(get_effect(f, k), k),
{
    let ix = key_index(k) as int;
    lemma_access_walk_grows(f.tree, 0, 32768, ix);
    lemma_note_grows(f, k, f.entries[k], get_effect(f, k));
}

/// A walk that stores a hash reads every sibling on its path.
proof fn lemma_insert_walk_witnesses(t: TreeView, offset: int, step: int, at: int, h: Seq<u8>)
    requires
        tree_honest(t),
    ensures
        path_witnessed(insert_walk(t, offset, step, at, h), offset, step, at),
    decreases step,
{
    if step > 1 {
        let t1 = write_node(t, offset + at, h);
        let sib = sibling(offset, at);
        let s = node_of(t1.hashes, sib);
        let up = if at % 2 == 0 {
            crate::hashing::pair_digest(h, s)
        } else {
            crate::hashing::pair_digest(s, h)
        };
        let t2 = read_node(t1, sib);
        lemma_insert_walk_grows(t2, offset + step, step / 2, at / 2, up);
        lemma_insert_walk_witnesses(t2, offset + step, step / 2, at / 2, up);
        let w = insert_walk(t2, offset + step, step / 2, at / 2, up);
        lemma_path_witnessed_grows(t2, w, offset + step, step / 2, at / 2);
        let sk = sib as u16;
        if t.snapshot.contains_key(sk) && t.snapshot[sk] != zero_hash() {
            assert(t2.witness.contains_key(sk));
        }
    }
}

/// Storing a pair keeps a full store honest and growing.
proof fn lemma_set_grows<V: MerkleValue>(f: StateTreeView<V>, k: Seq<u8>, v: V)
    requires
        store_honest(f),
    ensures
        store_honest(set_effect(f, k, v).0),
        store_grows(f, set_effect(f, k, v).0),
{
    if slot_taken(f, k) {
        lemma_get_grows(f, k);
    } else {
        let g = set_effect(f, k, v).0;
        lemma_insert_walk_grows(f.tree, 0, 32768, key_index(k) as int, value_digest(v, k));
        lemma_insert_walk_witnesses(f.tree, 0, 32768, key_index(k) as int, value_digest(v, k));
        lemma_note_grows(f, k, v, g);
    }
}

/// Storing a pair that the full store accepts: the partial store accepts
/// it too, and the simulation goes on.
proof fn lemma_set_sim<V: MerkleValue>(
    f: StateTreeView<V>,
    p: StateTreeView<V>,
    wf: Map<u16, Seq<u8>>,
    rk: Set<Seq<u8>>,
    k: Seq<u8>,
    v: V,
)
    requires
        store_honest(f),
        store_sim(f, p, wf, rk),
        witness_within(set_effect(f, k, v).0.tree, wf),
        set_effect(f, k, v).1,
    ensures
        set_effect(p, k, v).1,
        store_sim(set_effect(f, k, v).0, set_effect(p, k, v).0, wf, rk),
{
    if slot_taken(p, k) {
        let k2 = choose|k2: Seq<u8>| #[trigger]
            p.entries.contains_key(k2) && k2 != k && key_index(k2) == key_index(k);
        assert(f.entries.contains_key(k2));
    }
    lemma_insert_walk_sim(f.tree, p.tree, wf, 0, 32768, key_index(k) as int, value_digest(v, k));
}

/// A state of a full run.
pub open spec fn state_honest(v: StateView) -> bool {
    store_honest(v.balances)
}

/// How a state of a full run evolves.
pub open spec fn state_grows(a: StateView, b: StateView) -> bool {
    store_grows(a.balances, b.balances) && b.token_witness == a.token_witness
}

/// The partial state simulates the full one.
pub open spec fn state_sim(f: StateView, p: StateView, wf: Map<u16, Seq<u8>>, rk: Set<Seq<u8>>) -> bool {
    store_sim(f.balances, p.balances, wf, rk) && f.tokens == p.tokens
}

/// What the full run has read so far is within `wf` and `rk`.
pub open spec fn state_within(v: StateView, wf: Map<u16, Seq<u8>>, rk: Set<Seq<u8>>) -> bool {
    witness_within(v.balances.tree, wf) && noted_within(v.balances, rk)
}

proof fn lemma_state_grows_trans(a: StateView, b: StateView, c: StateView)
    requires
        state_grows(a, b),
        state_grows(b, c),
    ensures
        state_grows(a, c),
{
    lemma_tree_grows_trans(a.balances.tree, b.balances.tree, c.balances.tree);
}

proof fn lemma_within_down(a: StateView, b: StateView, wf: Map<u16, Seq<u8>>, rk: Set<Seq<u8>>)
    requires
        state_grows(a, b),
        state_within(b, wf, rk),
    ensures
        state_within(a, wf, rk),
{
}

proof fn lemma_balance_read_grows(v: StateView, account: AccountId, token_id: TokenId)
    requires
        state_honest(v),
    ensures
        state_honest(balance_read(v, account, token_id).0),
        state_grows(v, balance_read(v, account, token_id).0),
        balance_read(v, account, token_id).0.tokens == v.tokens,
{
    lemma_get_grows(v.balances, crate::ledger::balance_key_bytes(token_id, account@));
}

proof fn lemma_balance_write_grows(v: StateView, account: AccountId, token_id: TokenId, b: u64)
    requires
        state_honest(v),
    ensures
        state_honest(balance_write(v, account, token_id, b).0),
        state_grows(v, balance_write(v, account, token_id, b).0),
        balance_write(v, account, token_id, b).0.tokens == v.tokens,
{
    lemma_set_grows(v.balances, crate::ledger::balance_key_bytes(token_id, account@), b);
}

proof fn lemma_balance_read_sim(
    f: StateView,
    p: StateView,
    wf: Map<u16, Seq<u8>>,
    rk: Set<Seq<u8>>,
    account: AccountId,
    token_id: TokenId,
)
    requires
        state_honest(f),
        state_sim(f, p, wf, rk),
        state_within(balance_read(f, account, token_id).0, wf, rk),
    ensures
        state_sim(balance_read(f, account, token_id).0, balance_read(p, account, token_id).0, wf, rk),
        balance_read(f, account, token_id).1 == balance_read(p, account, token_id).1,
{
    lemma_get_sim(f.balances, p.balances, wf, rk, crate::ledger::balance_key_bytes(token_id, account@));
}

proof fn lemma_balance_write_sim(
    f: StateView,
    p: StateView,
    wf: Map<u16, Seq<u8>>,
    rk: Set<Seq<u8>>,
    account: AccountId,
    token_id: TokenId,
    b: u64,
)
    requires
        state_honest(f),
        state_sim(f, p, wf, rk),
        state_within(balance_write(f, account, token_id, b).0, wf, rk),
        balance_write(f, account, token_id, b).1,
    ensures
        balance_write(p, account, token_id, b).1,
        state_sim(balance_write(f, account, token_id, b).0, balance_write(p, account, token_id, b).0, wf, rk),
{
    lemma_set_sim(f.balances, p.balances, wf, rk, crate::ledger::balance_key_bytes(token_id, account@), b);
}

proof fn lemma_mint_grows(v: StateView, to: AccountId, token_id: TokenId, amount: u64)
    requires
        state_honest(v),
    ensures
        state_honest(mint_effect(v, to, token_id, amount).0),
        state_grows(v, mint_effect(v, to, token_id, amount).0),
{
    if !v.tokens.contains(token_id) {
        let v1 = StateView { tokens: v.tokens.push(token_id), ..v };
        let r = balance_read(v1, to, token_id);
        lemma_balance_read_grows(v1, to, token_id);
        lemma_balance_write_grows(r.0, to, token_id, saturating_sum(or_zero(r.1), amount));
        lemma_state_grows_trans(v1, r.0, mint_effect(v, to, token_id, amount).0);
    }
}

proof fn lemma_mint_sim(
    f: StateView,
    p: StateView,
    wf: Map<u16, Seq<u8>>,
    rk: Set<Seq<u8>>,
    to: AccountId,
    token_id: TokenId,
    amount: u64,
)
    requires
        state_honest(f),
        state_sim(f, p, wf, rk),
        state_within(mint_effect(f, to, token_id, amount).0, wf, rk),
        mint_effect(f, to, token_id, amount).1,
    ensures
        mint_effect(p, to, token_id, amount).1,
        state_sim(mint_effect(f, to, token_id, amount).0, mint_effect(p, to, token_id, amount).0, wf, rk),
{
    if !f.tokens.contains(token_id) {
        let f1 = StateView { tokens: f.tokens.push(token_id), ..f };
        let p1 = StateView { tokens: p.tokens.push(token_id), ..p };
        let rf = balance_read(f1, to, token_id);
        let rp = balance_read(p1, to, token_id);
        lemma_balance_read_grows(f1, to, token_id);
        let nb = saturating_sum(or_zero(rf.1), amount);
        lemma_balance_write_grows(rf.0, to, token_id, nb);
        lemma_within_down(rf.0, balance_write(rf.0, to, token_id, nb).0, wf, rk);
        lemma_balance_read_sim(f1, p1, wf, rk, to, token_id);
        lemma_balance_write_sim(rf.0, rp.0, wf, rk, to, token_id, nb);
    }
}

proof fn lemma_transfer_grows(v: StateView, from: AccountId, to: AccountId, token_id: TokenId, amount: u64)
    requires
        state_honest(v),
    ensures
        state_honest(transfer_effect(v, from, to, token_id, amount).0),
        state_grows(v, transfer_effect(v, from, to, token_id, amount).0),
        transfer_effect(v, from, to, token_id, amount).0.tokens == v.tokens,
{
    if v.tokens.contains(token_id) {
        let r1 = balance_read(v, from, token_id);
        lemma_balance_read_grows(v, from, token_id);
        let from_bal = or_zero(r1.1);
        if from_bal >= amount {
            let r2 = balance_read(r1.0, to, token_id);
            lemma_balance_read_grows(r1.0, to, token_id);
            lemma_state_grows_trans(v, r1.0, r2.0);
            let w1 = balance_write(r2.0, from, token_id, (from_bal - amount) as u64);
            lemma_balance_write_grows(r2.0, from, token_id, (from_bal - amount) as u64);
            lemma_state_grows_trans(v, r2.0, w1.0);
            if w1.1 {
                let to_bal = or_zero(r2.1);
                lemma_balance_write_grows(w1.0, to, token_id, saturating_sum(to_bal, amount));
                lemma_state_grows_trans(v, w1.0, transfer_effect(v, from, to, token_id, amount).0);
            }
        }
    }
}

proof fn lemma_transfer_sim(
    f: StateView,
    p: StateView,
    wf: Map<u16, Seq<u8>>,
    rk: Set<Seq<u8>>,
    from: AccountId,
    to: AccountId,
    token_id: TokenId,
    amount: u64,
)
    requires
        state_honest(f),
        state_sim(f, p, wf, rk),
        state_within(transfer_effect(f, from, to, token_id, amount).0, wf, rk),
        transfer_effect(f, from, to, token_id, amount).1,
    ensures
        transfer_effect(p, from, to, token_id, amount).1,
        state_sim(
            transfer_effect(f, from, to, token_id, amount).0,
            transfer_effect(p, from, to, token_id, amount).0,
            wf,
            rk,
        ),
{
    lemma_transfer_grows(f, from, to, token_id, amount);
    if f.tokens.contains(token_id) {
        let r1 = balance_read(f, from, token_id);
        let q1 = balance_read(p, from, token_id);
        lemma_balance_read_grows(f, from, token_id);
        let from_bal = or_zero(r1.1);
        if from_bal >= amount {
            let r2 = balance_read(r1.0, to, token_id);
            lemma_balance_read_grows(r1.0, to, token_id);
            let w1 = balance_write(r2.0, from, token_id, (from_bal - amount) as u64);
            lemma_balance_write_grows(r2.0, from, token_id, (from_bal - amount) as u64);
            let fin = transfer_effect(f, from, to, token_id, amount).0;
            let to_bal = or_zero(r2.1);
            if w1.1 {
                lemma_balance_write_grows(w1.0, to, token_id, saturating_sum(to_bal, amount));
            }
            lemma_within_down(w1.0, fin, wf, rk);
            lemma_within_down(r2.0, w1.0, wf, rk);
            lemma_within_down(r1.0, r2.0, wf, rk);
            lemma_balance_read_sim(f, p, wf, rk, from, token_id);
            let q2 = balance_read(q1.0, to, token_id);
            lemma_balance_read_sim(r1.0, q1.0, wf, rk, to, token_id);
            lemma_balance_write_sim(r2.0, q2.0, wf, rk, from, token_id, (from_bal - amount) as u64);
            let v1 = balance_write(q2.0, from, token_id, (from_bal - amount) as u64);
            lemma_balance_write_sim(w1.0, v1.0, wf, rk, to, token_id, saturating_sum(to_bal, amount));
        } else {
            lemma_balance_read_sim(f, p, wf, rk, from, token_id);
        }
    }
}

proof fn lemma_step_grows(acc: (StateView, Staged), op: Operation)
    requires
        state_honest(acc.0),
    ensures
        transition_step(acc, op) matches Ok(r) ==> state_honest(r.0) && state_grows(acc.0, r.0),
{
    match op {
        Operation::Mint { to, token_id, amount } => {
            lemma_mint_grows(acc.0, to, token_id, amount);
        },
        Operation::Transfer { .. } => {},
    }
}

proof fn lemma_step_sim(
    acc: (StateView, Staged),
    p: StateView,
    wf: Map<u16, Seq<u8>>,
    rk: Set<Seq<u8>>,
    op: Operation,
)
    requires
        state_honest(acc.0),
        state_sim(acc.0, p, wf, rk),
        transition_step(acc, op) matches Ok(r) && state_within(r.0, wf, rk),
    ensures
        transition_step((p, acc.1), op) matches Ok(q) && q.1 == transition_step(acc, op)->Ok_0.1
            && state_sim(transition_step(acc, op)->Ok_0.0, q.0, wf, rk),
{
    match op {
        Operation::Mint { to, token_id, amount } => {
            if amount != 0 {
                lemma_mint_sim(acc.0, p, wf, rk, to, token_id, amount);
            }
        },
        Operation::Transfer { .. } => {},
    }
}

proof fn lemma_ops_grows(v: StateView, ops: Seq<SignedOperation>)
    requires
        state_honest(v),
    ensures
        transition_ops(v, ops) matches Ok(acc) ==> state_honest(acc.0) && state_grows(v, acc.0),
    decreases ops.len(),
{
    if ops.len() > 0 {
        lemma_ops_grows(v, ops.drop_last());
        if let Ok(prev) = transition_ops(v, ops.drop_last()) {
            lemma_step_grows(prev, ops.last().operation);
            if let Ok(acc) = transition_ops(v, ops) {
                lemma_state_grows_trans(v, prev.0, acc.0);
            }
        }
    }
}

proof fn lemma_ops_sim(
    f: StateView,
    p: StateView,
    wf: Map<u16, Seq<u8>>,
    rk: Set<Seq<u8>>,
    ops: Seq<SignedOperation>,
)
    requires
        state_honest(f),
        state_sim(f, p, wf, rk),
        transition_ops(f, ops) matches Ok(acc) && state_within(acc.0, wf, rk),
    ensures
        transition_ops(p, ops) matches Ok(q) && q.1 == transition_ops(f, ops)->Ok_0.1
            && state_sim(transition_ops(f, ops)->Ok_0.0, q.0, wf, rk),
    decreases ops.len(),
{
    if ops.len() > 0 {
        let prev = transition_ops(f, ops.drop_last())->Ok_0;
        lemma_ops_grows(f, ops.drop_last());
        lemma_step_grows(prev, ops.last().operation);
        let acc = transition_ops(f, ops)->Ok_0;
        lemma_within_down(prev.0, acc.0, wf, rk);
        lemma_ops_sim(f, p, wf, rk, ops.drop_last());
        let q = transition_ops(p, ops.drop_last())->Ok_0;
        lemma_step_sim(prev, q.0, wf, rk, ops.last().operation);
        assert((q.0, prev.1) == q);
    }
}

proof fn lemma_settle_one_grows(v: StateView, key: TransferKey, net: i64)
    requires
        state_honest(v),
    ensures
        settle_one(v, key, net) matches Ok(r) ==> state_honest(r) && state_grows(v, r) && r.tokens
            == v.tokens,
{
    if net > 0 {
        lemma_transfer_grows(v, (key.1).0, (key.1).1, key.0, net as u64);
    } else if net < 0 && net != i64::MIN {
        lemma_transfer_grows(v, (key.1).1, (key.1).0, key.0, (-net) as u64);
    }
}

proof fn lemma_settle_one_sim(
    f: StateView,
    p: StateView,
    wf: Map<u16, Seq<u8>>,
    rk: Set<Seq<u8>>,
    key: TransferKey,
    net: i64,
)
    requires
        state_honest(f),
        state_sim(f, p, wf, rk),
        settle_one(f, key, net) matches Ok(r) && state_within(r, wf, rk),
    ensures
        settle_one(p, key, net) matches Ok(q) && state_sim(settle_one(f, key, net)->Ok_0, q, wf, rk),
{
    if net > 0 {
        lemma_transfer_sim(f, p, wf, rk, (key.1).0, (key.1).1, key.0, net as u64);
    } else if net < 0 && net != i64::MIN {
        lemma_transfer_sim(f, p, wf, rk, (key.1).1, (key.1).0, key.0, (-net) as u64);
    }
}

proof fn lemma_settle_grows(v: StateView, s: Staged)
    requires
        state_honest(v),
    ensures
        settle(v, s) matches Ok(r) ==> state_honest(r) && state_grows(v, r),
    decreases s.len(),
{
    if s.len() > 0 {
        lemma_settle_grows(v, s.drop_last());
        if let Ok(prev) = settle(v, s.drop_last()) {
            lemma_settle_one_grows(prev, s.last().0, s.last().1);
            if let Ok(r) = settle(v, s) {
                lemma_state_grows_trans(v, prev, r);
            }
        }
    }
}

proof fn lemma_settle_sim(
    f: StateView,
    p: StateView,
    wf: Map<u16, Seq<u8>>,
    rk: Set<Seq<u8>>,
    s: Staged,
)
    requires
        state_honest(f),
        state_sim(f, p, wf, rk),
        settle(f, s) matches Ok(r) && state_within(r, wf, rk),
    ensures
        settle(p, s) matches Ok(q) && state_sim(settle(f, s)->Ok_0, q, wf, rk),
    decreases s.len(),
{
    if s.len() > 0 {
        let prev = settle(f, s.drop_last())->Ok_0;
        lemma_settle_grows(f, s.drop_last());
        lemma_settle_one_grows(prev, s.last().0, s.last().1);
        lemma_within_down(prev, settle(f, s)->Ok_0, wf, rk);
        lemma_settle_sim(f, p, wf, rk, s.drop_last());
        let q = settle(p, s.drop_last())->Ok_0;
        lemma_settle_one_sim(prev, q, wf, rk, s.last().0, s.last().1);
    }
}

/// A whole transition: the full state grows and stays honest.
proof fn lemma_transition_grows(v: StateView, ops: Seq<SignedOperation>)
    requires
        state_honest(v),
    ensures
        transition(v, ops) matches Ok(r) ==> state_honest(r) && state_grows(v, r),
{
    lemma_ops_grows(v, ops);
    if let Ok(acc) = transition_ops(v, ops) {
        lemma_settle_grows(acc.0, acc.1);
        if let Ok(r) = transition(v, ops) {
            lemma_state_grows_trans(v, acc.0, r);
        }
    }
}

/// A whole transition, run on both states.
proof fn lemma_transition_sim(
    f: StateView,
    p: StateView,
    wf: Map<u16, Seq<u8>>,
    rk: Set<Seq<u8>>,
    ops: Seq<SignedOperation>,
)
    requires
        state_honest(f),
        state_sim(f, p, wf, rk),
        transition(f, ops) matches Ok(r) && state_within(r, wf, rk),
    ensures
        transition(p, ops) matches Ok(q) && state_sim(transition(f, ops)->Ok_0, q, wf, rk),
{
    lemma_ops_grows(f, ops);
    let acc = transition_ops(f, ops)->Ok_0;
    lemma_settle_grows(acc.0, acc.1);
    lemma_within_down(acc.0, transition(f, ops)->Ok_0, wf, rk);
    lemma_ops_sim(f, p, wf, rk, ops);
    let q = transition_ops(p, ops)->Ok_0;
    lemma_settle_sim(acc.0, q.0, wf, rk, acc.1);
}

/// A walk that stores a hash reads (and so witnesses) only siblings on its
/// path whose snapshot hash is not zero.
proof fn lemma_insert_walk_witness(
    t: TreeView,
    r: TreeView,
    offset: int,
    step: int,
    at: int,
    h: Seq<u8>,
)
    requires
        r.snapshot == t.snapshot,
        path_witnessed(r, offset, step, at),
        witness_within(t, r.witness),
    ensures
        witness_within(insert_walk(t, offset, step, at, h), r.witness),
    decreases step,
{
    if step > 1 {
        let t1 = write_node(t, offset + at, h);
        let sib = sibling(offset, at);
        let s = node_of(t1.hashes, sib);
        let up = if at % 2 == 0 {
            crate::hashing::pair_digest(h, s)
        } else {
            crate::hashing::pair_digest(s, h)
        };
        lemma_insert_walk_witness(read_node(t1, sib), r, offset + step, step / 2, at / 2, up);
    }
}

/// Whether distinct keys of `entries` sit at distinct leaves.
pub open spec fn distinct_leaves<V>(entries: Map<Seq<u8>, V>) -> bool {
    forall|k1: Seq<u8>, k2: Seq<u8>|
        #![trigger entries.contains_key(k1), entries.contains_key(k2)]
        entries.contains_key(k1) && entries.contains_key(k2) && key_index(k1) == key_index(k2)
            ==> k1 == k2
}

/// A tree that holds the hashes of `h` wherever it holds a node, and every
/// node of `wf`, has the root of `h` when `wf` holds that root whenever it
/// is not zero.
proof fn lemma_root_agrees(h: Map<u16, Seq<u8>>, wf: Map<u16, Seq<u8>>, t: Map<u16, Seq<u8>>)
    requires
        forall|k: u16| #[trigger] t.contains_key(k) ==> hash_at(h, k) == t[k],
        forall|k: u16| #[trigger] wf.contains_key(k) ==> t.contains_key(k),
        h.contains_key(ROOT_INDEX) && h[ROOT_INDEX] != zero_hash() ==> wf.contains_key(ROOT_INDEX),
    ensures
        node_of(t, ROOT_INDEX as int) == hash_at(h, ROOT_INDEX),
{
    if !t.contains_key(ROOT_INDEX) {
        assert(!wf.contains_key(ROOT_INDEX));
    }
}

/// Replaying witnessed pairs that the store `s` restores, over a tree that
/// holds `s`'s hashes wherever it holds a node: every replay keeps the
/// root, and the tree keeps holding `s`'s hashes.
proof fn lemma_replay(
    s: StateTreeView<Balance>,
    f: TreeView,
    t: StateTreeView<Balance>,
    kvs: Seq<(Seq<u8>, Balance)>,
    root: Seq<u8>,
)
    requires
        s.tree.snapshot == s.tree.hashes,
        s.tree.witness == Map::<u16, Seq<u8>>::empty(),
        f.snapshot == s.tree.hashes,
        distinct_leaves(s.entries),
        forall|k: u16| #[trigger] t.tree.hashes.contains_key(k) ==> hash_at(s.tree.hashes, k) == t.tree.hashes[k],
        forall|k: u16| #[trigger] f.witness.contains_key(k) ==> t.tree.hashes.contains_key(k),
        s.tree.hashes.contains_key(ROOT_INDEX) && s.tree.hashes[ROOT_INDEX] != zero_hash()
            ==> f.witness.contains_key(ROOT_INDEX),
        root == hash_at(s.tree.hashes, ROOT_INDEX),
        forall|k: Seq<u8>| #[trigger]
            t.entries.contains_key(k) ==> s.entries.contains_key(k) && s.entries[k] == t.entries[k],
        forall|i: int| 0 <= i < kvs.len() ==> restores(s, #[trigger] kvs[i]),
        forall|i: int|
            0 <= i < kvs.len() ==> path_witnessed(f, 0, 32768, key_index((#[trigger] kvs[i]).0) as int),
    ensures
        replay(t, kvs, root) matches Some(t2) && (forall|k: u16| #[trigger]
            t2.tree.hashes.contains_key(k) ==> hash_at(s.tree.hashes, k) == t2.tree.hashes[k])
            && (forall|k: u16| #[trigger] f.witness.contains_key(k) ==> t2.tree.hashes.contains_key(k))
            && (forall|k: Seq<u8>| #[trigger]
            t2.entries.contains_key(k) ==> s.entries.contains_key(k) && s.entries[k]
                == t2.entries[k]) && (forall|i: int|
            0 <= i < kvs.len() ==> t2.entries.contains_key((#[trigger] kvs[i]).0)) && (forall|k: Seq<u8>|
            #[trigger] t.entries.contains_key(k) ==> t2.entries.contains_key(k)),
    decreases kvs.len(),
{
    if kvs.len() > 0 {
        let k = kvs[0].0;
        let v = kvs[0].1;
        assert(restores(s, kvs[0]));
        let ix = key_index(k) as int;
        let d = value_digest(v, k);
        assert(!slot_taken(t, k)) by {
            if slot_taken(t, k) {
                let k2 = choose|k2: Seq<u8>| #[trigger]
                    t.entries.contains_key(k2) && k2 != k && key_index(k2) == key_index(k);
                assert(s.entries.contains_key(k2));
            }
        }
        let t1 = set_effect(t, k, v).0;
        let hs = s.tree;
        assert(tree_honest(hs));
        assert(tree_sim(hs, t.tree, f.witness));
        assert(path_witnessed(f, 0, 32768, ix));
        lemma_insert_walk_witness(hs, f, 0, 32768, ix, d);
        lemma_insert_walk_sim(hs, t.tree, f.witness, 0, 32768, ix, d);
        assert forall|kk: u16| #[trigger] t1.tree.hashes.contains_key(kk) implies hash_at(
            s.tree.hashes,
            kk,
        ) == t1.tree.hashes[kk] by {}
        lemma_root_agrees(s.tree.hashes, f.witness, t1.tree.hashes);
        assert(tree_root(t1.tree) == root);
        let rest = kvs.drop_first();
        assert forall|i: int| 0 <= i < rest.len() implies restores(s, #[trigger] rest[i]) by {
            assert(rest[i] == kvs[i + 1]);
        }
        assert forall|i: int| 0 <= i < rest.len() implies path_witnessed(
            f,
            0,
            32768,
            key_index((#[trigger] rest[i]).0) as int,
        ) by {
            assert(rest[i] == kvs[i + 1]);
        }
        lemma_replay(s, f, t1, rest, root);
        let t2 = replay(t1, rest, root)->Some_0;
        assert(t1.entries.contains_key(k));
        assert(replay(t, kvs, root) == replay(t1, rest, root));
        assert forall|kk: Seq<u8>| #[trigger] t.entries.contains_key(kk) implies t2.entries.contains_key(
            kk,
        ) by {
            assert(t1.entries.contains_key(kk));
        }
        assert forall|i: int| 0 <= i < kvs.len() implies t2.entries.contains_key(
            (#[trigger] kvs[i]).0,
        ) by {
            if i > 0 {
                assert(rest[i - 1] == kvs[i]);
            }
        }
    }
}

/// The node hashes that a listing of a map sets are the map's.
proof fn lemma_hashes_of_listing(m: Map<u16, Seq<u8>>, v: Seq<(TreeIndex, Hash32)>)
    requires
        is_listing(m, v),
    ensures
        hashes_of(v) == m,
{
    lemma_hashes_of(v);
    assert forall|k: u16| #[trigger] hashes_of(v).contains_key(k) == m.contains_key(k) by {
        if m.contains_key(k) {
            let i = choose|i: int| 0 <= i < v.len() && (#[trigger] v[i]).0 == k;
        }
    }
    assert forall|k: u16| #[trigger] hashes_of(v).contains_key(k) implies hashes_of(v)[k] == m[k] by {
        let i = choose|i: int| 0 <= i < v.len() && (#[trigger] v[i]).0 == k;
    }
    assert(hashes_of(v) =~= m);
}

/// With strictly increasing indexes, a list of `(index, hash)` pairs sets
/// each of its hashes.
proof fn lemma_hashes_of(v: Seq<(TreeIndex, Hash32)>)
    requires
        forall|i: int, j: int| 0 <= i < j < v.len() ==> (#[trigger] v[i]).0 < (#[trigger] v[j]).0,
    ensures
        forall|k: u16| #[trigger]
            hashes_of(v).contains_key(k) <==> exists|i: int| 0 <= i < v.len() && (#[trigger] v[i]).0 == k,
        forall|i: int| 0 <= i < v.len() ==> hashes_of(v)[(#[trigger] v[i]).0] == v[i].1@,
    decreases v.len(),
{
    if v.len() > 0 {
        let p = v.drop_last();
        assert forall|i: int, j: int| 0 <= i < j < p.len() implies (#[trigger] p[i]).0 < (
        #[trigger] p[j]).0 by {
            assert(p[i] == v[i] && p[j] == v[j]);
        }
        lemma_hashes_of(p);
        let last = v[v.len() - 1];
        assert(hashes_of(v) == hashes_of(p).insert(last.0, last.1@));
        assert forall|k: u16| #[trigger]
            hashes_of(v).contains_key(k) <==> exists|i: int| 0 <= i < v.len() && (#[trigger] v[i]).0 == k by {
            if hashes_of(v).contains_key(k) {
                if k == last.0 {
                    assert(v[v.len() - 1].0 == k);
                } else {
                    assert(hashes_of(p).contains_key(k));
                    let i = choose|i: int| 0 <= i < p.len() && (#[trigger] p[i]).0 == k;
                    assert(v[i] == p[i]);
                }
            }
            if exists|i: int| 0 <= i < v.len() && (#[trigger] v[i]).0 == k {
                let i = choose|i: int| 0 <= i < v.len() && (#[trigger] v[i]).0 == k;
                if i < v.len() - 1 {
                    assert(p[i] == v[i]);
                    assert(hashes_of(p).contains_key(k));
                }
            }
        }
        assert forall|i: int| 0 <= i < v.len() implies hashes_of(v)[(#[trigger] v[i]).0] == v[i].1@ by {
            if i < v.len() - 1 {
                assert(p[i] == v[i]);
                assert(v[i].0 < v[v.len() - 1].0);
            }
        }
    }
}

/// Refinement from a witness reproduces the client's roots. The client
/// takes the witness of its state `s` (so that nothing is recorded yet),
/// reads the root and runs the state transition of `ops`, which leaves it
/// in the state `f`; then it takes the witness `w` of `f`. Refinement,
/// given `ops` and `w`, rebuilds a partial state and reports the roots of
/// `s` and of `f`, provided that the tree of `s` commits to its balances
/// (as that of every state built from an empty one or from its files does)
/// and that distinct keys of `s` sit at distinct leaves (as in every well
/// formed state). This holds whatever the batch reads and writes: the
/// witness holds each balance as `s` held it when the batch first accessed
/// it, so balances that the batch creates are not in it.
pub proof fn law_witness_replays_transition(
    s: StateView,
    ops: Seq<SignedOperation>,
    f: StateView,
    w: Witness,
)
    requires
        s.balances.tree.snapshot == s.balances.tree.hashes,
        s.balances.tree.witness == Map::<u16, Seq<u8>>::empty(),
        s.balances.recorded == Seq::<(Seq<u8>, Balance)>::empty(),
        s.balances.absent == Set::<Seq<u8>>::empty(),
        s.token_witness == s.tokens,
        committed(s.balances),
        distinct_leaves(s.balances.entries),
        transition(root_read(s), ops) == Ok::<StateView, LedgerError>(f),
        is_listing(f.balances.tree.witness, w.hashes@),
        pairs_view(w.key_value_balances@) == f.balances.recorded,
        w.token_ids@ == f.token_witness,
    ensures
        refined_roots(ops, w) == Ok::<(Seq<u8>, Seq<u8>), RefineError>((state_root(s), state_root(f))),
{
    let leaves = choose|leaves: Map<u16, Seq<u8>>| commits(s.balances, leaves) && exact_leaves(
        s.balances,
        leaves,
    );
    let h = s.balances.tree.hashes;
    let f0 = root_read(s);
    assert(state_honest(s));
    assert(state_honest(f0));
    lemma_transition_grows(f0, ops);
    let wf = f.balances.tree.witness;
    let rk = Set::new(|k: Seq<u8>| noted(f.balances, k));
    assert(state_grows(f0, f));
    let kvs = f.balances.recorded;
    assert forall|i: int| 0 <= i < kvs.len() implies s.balances.entries.contains_key(
        (#[trigger] kvs[i]).0,
    ) && s.balances.entries[kvs[i].0] == kvs[i].1 by {
        assert(!pair_recorded(f0.balances, kvs[i]));
    }
    lemma_hashes_of_listing(wf, w.hashes@);
    let start = witness_start::<Balance>(w.hashes@);
    assert(start.tree.hashes == wf);
    if h.contains_key(ROOT_INDEX) && h[ROOT_INDEX] != zero_hash() {
        assert(f0.balances.tree.witness.contains_key(ROOT_INDEX));
    }
    lemma_root_agrees(h, wf, start.tree.hashes);
    assert forall|i: int| 0 <= i < kvs.len() implies restores(s.balances, #[trigger] kvs[i]) by {
        lemma_commits_restores(s.balances, leaves, kvs[i].0);
    }
    assert forall|i: int| 0 <= i < kvs.len() implies path_witnessed(
        f.balances.tree,
        0,
        32768,
        key_index((#[trigger] kvs[i]).0) as int,
    ) by {
        assert(records_witnessed(f.balances));
    }
    lemma_replay(s.balances, f.balances.tree, start, kvs, hash_at(h, ROOT_INDEX));
    let t2 = replay(start, kvs, tree_root(start.tree))->Some_0;
    let v0 = StateView { balances: witness_reset(t2), tokens: w.token_ids@, token_witness: w.token_ids@ };
    assert(witness_state(w) == Some(v0));
    let p0 = root_read(v0);
    assert(tree_sim(f0.balances.tree, p0.balances.tree, wf));
    assert forall|k: Seq<u8>| f0.balances.entries.contains_key(k) && rk.contains(k) implies #[trigger]
        p0.balances.entries.contains_key(k) by {
        if !f.balances.absent.contains(k) {
            let i = choose|i: int| 0 <= i < kvs.len() && #[trigger] kvs[i].0 == k;
        }
    }
    assert(state_sim(f0, p0, wf, rk));
    assert(state_within(f, wf, rk));
    lemma_transition_sim(f0, p0, wf, rk, ops);
    let q = transition(p0, ops)->Ok_0;
    lemma_root_agrees(h, wf, t2.tree.hashes);
    assert(state_root(v0) == state_root(s));
    if !q.balances.tree.hashes.contains_key(ROOT_INDEX) && f.balances.tree.hashes.contains_key(
        ROOT_INDEX,
    ) {
        assert(!wf.contains_key(ROOT_INDEX));
    }
    assert(tree_root(q.balances.tree) == tree_root(f.balances.tree));
    assert(state_root(q) == state_root(f));
}

} // verus!