//! Properties that hold of the ledger across its operations.
use vstd::prelude::*;
use crate::encoding::{
    le_bytes, lemma_le_bytes_injective, lemma_le_bytes_len, lemma_le_value_of_bytes,
    lemma_natural_round_trip, lemma_pow256_values, natural_encoding, pow256,
};
use crate::external_client::persist::{
    balances_encoding, entries_body, leaf_listing, lemma_entries_round_trip, lemma_ids_round_trip,
    parse_balances, parse_tokens, tokens_body, tokens_encoding,
};
use crate::external_client::merkle::{
    insert_walk, is_level_step, node_of, read_node, sibling, tree_insert, write_node, TreeView,
};
use crate::external_client::state::{balance_of, balance_read, balance_write, Balance, StateView};
use crate::external_client::state_tree::{
    empty_store, get_effect, load_pairs, set_effect, slot_taken, StateTreeView,
};
use crate::external_client::transition::{
    mint_effect, or_zero, settle, transfer_effect, transition, transition_ops, transition_step,
};
use crate::crypto::ed25519_key_decodes;
use crate::external_client::commitment::{
    commits, committed, exact_leaves, hash_at, law_empty_store_commits, leaves_after, lemma_committed_root,
    lemma_leaves_after, lemma_load_commits, lemma_merkle_same_leaves, above, node_index, level_offset,
    level_size, lemma_level_values, lemma_levels_disjoint, lemma_above_bound,
};
use crate::external_client::merkle::tree_root;
use crate::external_client::state::{state_root, witness_reset};
use crate::hashing::{blake2b_512, digest_of, flatten, key_index, lemma_key_index_in_tree, pair_digest, zero_hash};
use crate::external_client::state_tree::{zeros, MerkleValue};
use crate::external_client::merkle::ROOT_INDEX;
use crate::ledger::{
    balance_key_bytes, canonical_form, key_lt, stage_add, AccountId, LedgerError, Operation,
    SignedOperation, Staged, TokenId, TransferKey,
};
use crate::refine::{net_transfers, validate_all, validate_step, validated_operations};
use crate::order::{bytes_lt, lemma_bytes_lt_irreflexive, lemma_bytes_lt_total, lemma_bytes_lt_transitive};
use crate::rollup::accumulation::{accumulate_all, accumulate_step, AccumulateInput};
use crate::rollup::state::{path_write, TREE_HASHES};

verus! {

/// The empty hash is neutral when two child hashes are combined: an empty
/// child passes its sibling's hash up unchanged.
pub proof fn law_empty_hash_is_neutral(h: Seq<u8>)
    ensures
        pair_digest(zero_hash(), h) == h,
        pair_digest(h, zero_hash()) == h,
{
}

proof fn lemma_flatten_empty(parts: Seq<Seq<u8>>)
    requires
        forall|i: int| 0 <= i < parts.len() ==> (#[trigger] parts[i]).len() == 0,
    ensures
        flatten(parts).len() == 0,
    decreases parts.len(),
{
    if parts.len() > 0 {
        lemma_flatten_empty(parts.drop_last());
        assert(parts.last().len() == 0);
    }
}

/// Hashing nothing (no part, or only empty parts) gives the empty hash.
pub proof fn law_hash_of_nothing_is_empty(parts: Seq<Seq<u8>>)
    requires
        forall|i: int| 0 <= i < parts.len() ==> (#[trigger] parts[i]).len() == 0,
    ensures
        digest_of(flatten(parts)) == zero_hash(),
{
    lemma_flatten_empty(parts);
}

/// Both directions of a transfer between the same two accounts net under
/// one key, whose first counterpart is the lesser account, with opposite
/// signed amounts.
pub proof fn law_canonical_transfer_is_direction_free(
    from: AccountId,
    to: AccountId,
    token_id: TokenId,
    amount: u64,
)
    requires
        from@ != to@,
    ensures
        canonical_form(from, to, token_id, amount).0 == canonical_form(to, from, token_id, amount).0,
        canonical_form(to, from, token_id, amount).1 == -canonical_form(from, to, token_id, amount).1,
        bytes_lt(
            ((canonical_form(from, to, token_id, amount).0).1).0@,
            ((canonical_form(from, to, token_id, amount).0).1).1@,
        ),
{
    lemma_bytes_lt_total(from@, to@);
}

/// The net amount of `key` in a list of netted transfers.
pub open spec fn net_of(s: Staged, key: TransferKey) -> int
    decreases s.len(),
{
    if s.len() == 0 {
        0
    } else {
        (if s[0].0 == key {
            s[0].1 as int
        } else {
            0
        }) + net_of(s.drop_first(), key)
    }
}

/// Netting adds: staging `amount` under `key` adds it to the net amount of
/// `key` and leaves every other key's net amount as it was.
pub proof fn law_netting_adds(s: Staged, key: TransferKey, amount: int, other: TransferKey)
    ensures
        stage_add(s, key, amount) matches Some(s2) ==> net_of(s2, other) == net_of(s, other) + (
        if other == key {
            amount
        } else {
            0
        }),
    decreases s.len(),
{
    let own = if other == key {
        amount
    } else {
        0
    };
    if s.len() > 0 {
        law_netting_adds(s.drop_first(), key, amount, other);
        if let Some(s2) = stage_add(s, key, amount) {
            if s[0].0 == key {
                assert(s2.drop_first() =~= s.drop_first());
                assert(s2[0].1 == s[0].1 + amount);
                assert(net_of(s2, other) == (if s2[0].0 == other {
                    s2[0].1 as int
                } else {
                    0
                }) + net_of(s2.drop_first(), other));
            } else if key_lt(key, s[0].0) {
                assert(s2.drop_first() =~= s);
                assert(net_of(s2, other) == own + net_of(s, other));
            } else {
                let r = stage_add(s.drop_first(), key, amount)->Some_0;
                assert(s2.drop_first() =~= r);
                assert(net_of(s2, other) == (if s[0].0 == other {
                    s[0].1 as int
                } else {
                    0
                }) + net_of(r, other));
            }
        }
    } else {
        if let Some(s2) = stage_add(s, key, amount) {
            assert(s2.drop_first().len() == 0);
            assert(net_of(s2.drop_first(), other) == 0);
            assert(net_of(s2, other) == own + net_of(s2.drop_first(), other));
        }
    }
}

proof fn lemma_key_lt_transitive(a: TransferKey, b: TransferKey, c: TransferKey)
    requires
        key_lt(a, b),
        key_lt(b, c),
    ensures
        key_lt(a, c),
{
    lemma_bytes_lt_irreflexive((a.1).0@);
    lemma_bytes_lt_irreflexive((b.1).0@);
    lemma_bytes_lt_total((a.1).0@, (b.1).0@);
    lemma_bytes_lt_total((b.1).0@, (c.1).0@);
    if a.0 == b.0 && b.0 == c.0 {
        if bytes_lt((a.1).0@, (b.1).0@) && bytes_lt((b.1).0@, (c.1).0@) {
            lemma_bytes_lt_transitive((a.1).0@, (b.1).0@, (c.1).0@);
        }
        if (a.1).0@ == (b.1).0@ && (b.1).0@ == (c.1).0@ {
            lemma_bytes_lt_transitive((a.1).1@, (b.1).1@, (c.1).1@);
        }
    }
}

/// The keys of a list of netted transfers are strictly increasing.
pub open spec fn netting_ordered(s: Staged) -> bool {
    forall|i: int, j: int| 0 <= i < j < s.len() ==> key_lt(#[trigger] s[i].0, #[trigger] s[j].0)
}

/// Netting keeps the netted transfers in strictly increasing key order, so
/// each key has one entry.
pub proof fn law_netting_stays_ordered(s: Staged, key: TransferKey, amount: int)
    requires
        netting_ordered(s),
    ensures
        stage_add(s, key, amount) matches Some(s2) ==> netting_ordered(s2),
    decreases s.len(),
{
    if s.len() > 0 {
        let t = s.drop_first();
        assert(netting_ordered(t)) by {
            assert forall|i: int, j: int| 0 <= i < j < t.len() implies key_lt(
                #[trigger] t[i].0,
                #[trigger] t[j].0,
            ) by {
                assert(t[i] == s[i + 1] && t[j] == s[j + 1]);
            }
        }
        law_netting_stays_ordered(t, key, amount);
        if let Some(s2) = stage_add(s, key, amount) {
            if s[0].0 == key {
                assert forall|i: int, j: int| 0 <= i < j < s2.len() implies key_lt(
                    #[trigger] s2[i].0,
                    #[trigger] s2[j].0,
                ) by {
                    assert(s2[i].0 == s[i].0 && s2[j].0 == s[j].0);
                }
            } else if key_lt(key, s[0].0) {
                assert forall|i: int, j: int| 0 <= i < j < s2.len() implies key_lt(
                    #[trigger] s2[i].0,
                    #[trigger] s2[j].0,
                ) by {
                    if i == 0 {
                        if j > 1 {
                            assert(key_lt(s[0].0, s[j - 1].0));
                            lemma_key_lt_transitive(key, s[0].0, s[j - 1].0);
                        }
                    } else {
                        assert(s2[i] == s[i - 1] && s2[j] == s[j - 1]);
                    }
                }
            } else {
                let r = stage_add(t, key, amount)->Some_0;
                assert(s2 == seq![s[0]] + r);
                lemma_stage_add_keys(t, key, amount);
                assert forall|i: int, j: int| 0 <= i < j < s2.len() implies key_lt(
                    #[trigger] s2[i].0,
                    #[trigger] s2[j].0,
                ) by {
                    if i == 0 {
                        assert(s2[j] == r[j - 1]);
                        let k = r[j - 1].0;
                        if k == key {
                            crate::ledger::lemma_key_lt_total(s[0].0, key);
                        } else {
                            let m = choose|m: int| 0 <= m < t.len() && t[m].0 == k;
                            assert(t[m] == s[m + 1]);
                        }
                    } else {
                        assert(s2[i] == r[i - 1] && s2[j] == r[j - 1]);
                    }
                }
            }
        }
    }
}

/// The keys after netting are the keys before, and the staged key.
proof fn lemma_stage_add_keys(s: Staged, key: TransferKey, amount: int)
    ensures
        stage_add(s, key, amount) matches Some(s2) ==> forall|i: int|
            0 <= i < s2.len() ==> (#[trigger] s2[i]).0 == key || exists|m: int|
                0 <= m < s.len() && s[m].0 == s2[i].0,
    decreases s.len(),
{
    if s.len() > 0 {
        lemma_stage_add_keys(s.drop_first(), key, amount);
        if let Some(s2) = stage_add(s, key, amount) {
            if s[0].0 == key {
                assert forall|i: int| 0 <= i < s2.len() implies (#[trigger] s2[i]).0 == key
                    || exists|m: int| 0 <= m < s.len() && s[m].0 == s2[i].0 by {
                    assert(s[i].0 == s2[i].0);
                }
            } else if key_lt(key, s[0].0) {
                assert forall|i: int| 0 <= i < s2.len() implies (#[trigger] s2[i]).0 == key
                    || exists|m: int| 0 <= m < s.len() && s[m].0 == s2[i].0 by {
                    if i > 0 {
                        assert(s[i - 1].0 == s2[i].0);
                    }
                }
            } else {
                let t = s.drop_first();
                let r = stage_add(t, key, amount)->Some_0;
                assert forall|i: int| 0 <= i < s2.len() implies (#[trigger] s2[i]).0 == key
                    || exists|m: int| 0 <= m < s.len() && s[m].0 == s2[i].0 by {
                    if i == 0 {
                        assert(s[0].0 == s2[0].0);
                    } else {
                        assert(s2[i] == r[i - 1]);
                        if r[i - 1].0 != key {
                            let m = choose|m: int| 0 <= m < t.len() && t[m].0 == r[i - 1].0;
                            assert(s[m + 1].0 == s2[i].0);
                        }
                    }
                }
            }
        }
    }
}

/// A stored value can be read back: once `v` is stored under `k`, the store
/// holds `v` under `k`.
pub proof fn law_store_read_after_write<V: crate::external_client::state_tree::MerkleValue>(
    t: StateTreeView<V>,
    k: Seq<u8>,
    v: V,
)
    ensures
        set_effect(t, k, v).1 ==> set_effect(t, k, v).0.entries.contains_key(k) && set_effect(
            t,
            k,
            v,
        ).0.entries[k] == v,
{
}

/// Storing under one key leaves every other key's value as it was, and a
/// read changes no value.
pub proof fn law_store_frame<V: crate::external_client::state_tree::MerkleValue>(
    t: StateTreeView<V>,
    k: Seq<u8>,
    v: V,
    other: Seq<u8>,
)
    ensures
        other != k ==> set_effect(t, k, v).0.entries.contains_key(other) == t.entries.contains_key(
            other,
        ),
        other != k && t.entries.contains_key(other) ==> set_effect(t, k, v).0.entries[other]
            == t.entries[other],
        get_effect(t, k).entries == t.entries,
{
}

/// A store refuses a value exactly when another key occupies the leaf
/// that its key hashes to, and then keeps all its values.
pub proof fn law_store_refuses_only_collisions<V: crate::external_client::state_tree::MerkleValue>(
    t: StateTreeView<V>,
    k: Seq<u8>,
    v: V,
)
    ensures
        !set_effect(t, k, v).1 <==> slot_taken(t, k),
        !set_effect(t, k, v).1 ==> set_effect(t, k, v).0.entries == t.entries,
{
}


/// Distinct (token, account) pairs have distinct balance keys.
pub proof fn law_balance_keys_are_distinct(t1: TokenId, a1: AccountId, t2: TokenId, a2: AccountId)
    requires
        t1 != t2 || a1@ != a2@,
    ensures
        balance_key_bytes(t1, a1@) != balance_key_bytes(t2, a2@),
{
    crate::encoding::lemma_le_bytes_len(t1 as nat, 4);
    crate::encoding::lemma_le_bytes_len(t2 as nat, 4);
    if balance_key_bytes(t1, a1@) == balance_key_bytes(t2, a2@) {
        assert(balance_key_bytes(t1, a1@).take(4) =~= le_bytes(t1 as nat, 4));
        assert(balance_key_bytes(t2, a2@).take(4) =~= le_bytes(t2 as nat, 4));
        assert(balance_key_bytes(t1, a1@).skip(4) =~= a1@);
        assert(balance_key_bytes(t2, a2@).skip(4) =~= a2@);
        assert(pow256(0) == 1);
        assert(pow256(1) == 256);
        assert(pow256(2) == 0x1_0000);
        assert(pow256(3) == 0x100_0000);
        assert(pow256(4) == 0x1_0000_0000);
        lemma_le_bytes_injective(t1 as nat, t2 as nat, 4);
    }
}

/// A balance that was set reads back: after its balance is set, an account
/// holds that balance.
pub proof fn law_balance_read_after_write(
    v: StateView,
    account: AccountId,
    token_id: TokenId,
    balance: Balance,
)
    ensures
        balance_write(v, account, token_id, balance).1 ==> balance_of(
            balance_write(v, account, token_id, balance).0,
            account,
            token_id,
        ) == Some(balance),
{
}

/// A token is minted once: minting a known token changes nothing.
pub proof fn law_mint_known_token_is_noop(v: StateView, to: AccountId, token_id: TokenId, amount: u64)
    requires
        v.tokens.contains(token_id),
    ensures
        mint_effect(v, to, token_id, amount) == (v, true),
{
}

/// A mint of a new token makes it known and credits the receiver with the
/// amount (saturating at the largest balance).
pub proof fn law_mint_credits(v: StateView, to: AccountId, token_id: TokenId, amount: u64)
    requires
        !v.tokens.contains(token_id),
        mint_effect(v, to, token_id, amount).1,
    ensures
        mint_effect(v, to, token_id, amount).0.tokens.contains(token_id),
        balance_of(mint_effect(v, to, token_id, amount).0, to, token_id) == Some(
            crate::external_client::transition::saturating_sum(
                or_zero(balance_of(v, to, token_id)),
                amount,
            ),
        ),
{
    let v1 = StateView { tokens: v.tokens.push(token_id), ..v };
    assert(v1.tokens.last() == token_id);
}

/// A transfer moves exactly the amount, and only between its two accounts:
/// when the token is known, the sender holds at least the amount, the
/// receiver's balance does not saturate and both balances are stored, the
/// sender loses the amount, the receiver gains it, and every other balance
/// and the known tokens stay as they were.
pub proof fn law_transfer_moves_amount(
    v: StateView,
    from: AccountId,
    to: AccountId,
    token_id: TokenId,
    amount: u64,
)
    requires
        from@ != to@,
        v.tokens.contains(token_id),
        or_zero(balance_of(v, from, token_id)) >= amount,
        or_zero(balance_of(v, to, token_id)) + amount <= u64::MAX,
        transfer_effect(v, from, to, token_id, amount).1,
    ensures
        balance_of(transfer_effect(v, from, to, token_id, amount).0, from, token_id) == Some(
            (or_zero(balance_of(v, from, token_id)) - amount) as u64,
        ),
        balance_of(transfer_effect(v, from, to, token_id, amount).0, to, token_id) == Some(
            (or_zero(balance_of(v, to, token_id)) + amount) as u64,
        ),
        transfer_effect(v, from, to, token_id, amount).0.balances.entries == v.balances.entries.insert(
            balance_key_bytes(token_id, from@),
            (or_zero(balance_of(v, from, token_id)) - amount) as u64,
        ).insert(
            balance_key_bytes(token_id, to@),
            (or_zero(balance_of(v, to, token_id)) + amount) as u64,
        ),
        transfer_effect(v, from, to, token_id, amount).0.tokens == v.tokens,
{
    law_balance_keys_are_distinct(token_id, from, token_id, to);
    let kf = balance_key_bytes(token_id, from@);
    let kt = balance_key_bytes(token_id, to@);
    let r1 = balance_read(v, from, token_id);
    let r2 = balance_read(r1.0, to, token_id);
    assert(r1.0.balances.entries == v.balances.entries);
    assert(r2.0.balances.entries == v.balances.entries);
    let w1 = balance_write(r2.0, from, token_id, (or_zero(r1.1) - amount) as u64);
    assert(w1.1);
    assert(w1.0.balances.entries == v.balances.entries.insert(kf, (or_zero(r1.1) - amount) as u64));
}

/// The node at height `d` on the path from leaf `ix`.
pub open spec fn path_node(ix: int, d: nat) -> int {
    node_index(d, above(ix, d)) as int
}

/// Writing from height `d` up stores `h` at the path's node of height `d`,
/// the combination of its two children at each node above it, and changes
/// no node off the path.
proof fn lemma_path_write_merkle(nodes: Seq<Seq<u8>>, d: nat, ix: int, h: Seq<u8>)
    requires
        nodes.len() == TREE_HASHES,
        d <= 15,
        0 <= ix < 32768,
    ensures
        ({
            let p = path_write(nodes, level_offset(d), level_size(d), above(ix, d), h);
            &&& p.len() == TREE_HASHES
            &&& p[path_node(ix, d)] == h
            &&& forall|e: nat|
                d < e <= 15 ==> #[trigger] p[path_node(ix, e)] == pair_digest(
                    p[node_index((e - 1) as nat, 2 * above(ix, e)) as int],
                    p[node_index((e - 1) as nat, 2 * above(ix, e) + 1) as int],
                )
            &&& forall|i: int|
                0 <= i < TREE_HASHES && (forall|e: nat| d <= e <= 15 ==> i != #[trigger] path_node(ix, e))
                    ==> #[trigger] p[i] == nodes[i]
        }),
    decreases 15 - d,
{
    lemma_level_values(d);
    lemma_above_bound(ix, d);
    let o = level_offset(d);
    let st = level_size(d);
    let a = above(ix, d);
    let n1 = nodes.update(o + a, h);
    assert(path_node(ix, d) == o + a);
    if d < 15 {
        let d1 = (d + 1) as nat;
        lemma_level_values(d1);
        lemma_above_bound(ix, d1);
        let up = if a % 2 == 0 {
            pair_digest(h, n1[o + a + 1])
        } else {
            pair_digest(n1[o + a - 1], h)
        };
        assert(above(ix, d1) == a / 2);
        lemma_path_write_merkle(n1, d1, ix, up);
        let p = path_write(nodes, o, st, a, h);
        assert(p == path_write(n1, level_offset(d1), level_size(d1), above(ix, d1), up));
        assert forall|e: nat| d < e <= 15 implies path_node(ix, e) != o + a && path_node(ix, e) != o + a
            + 1 - 2 * (a % 2) by {
            lemma_above_bound(ix, e);
            lemma_levels_disjoint(d, e);
            lemma_level_values(e);
        }
        assert(p[o + a] == h);
        let sib = o + a + 1 - 2 * (a % 2);
        assert(p[sib] == nodes[sib]);
        assert(node_index(d, 2 * above(ix, d1)) as int == o + a - (a % 2));
        assert(node_index(d, 2 * above(ix, d1) + 1) as int == o + a - (a % 2) + 1);
        assert(p[path_node(ix, d1)] == pair_digest(
            p[node_index(d, 2 * above(ix, d1)) as int],
            p[node_index(d, 2 * above(ix, d1) + 1) as int],
        ));
        assert forall|i: int|
            0 <= i < TREE_HASHES && (forall|e: nat| d <= e <= 15 ==> i != #[trigger] path_node(ix, e))
                implies #[trigger] p[i] == nodes[i] by {
            assert(i != path_node(ix, d));
        }
    }
}

/// Inserting into the rollup tree stores the value's hash at its leaf and
/// makes every node on the leaf's path, up to the root, the combination of
/// its two children; no other node changes.
pub proof fn law_rollup_insert_is_merkle(nodes: Seq<Seq<u8>>, ix: u16, h: Seq<u8>)
    requires
        nodes.len() == TREE_HASHES,
        ix < 32768,
    ensures
        ({
            let p = path_write(nodes, 0, 32768, ix as int, h);
            &&& p.len() == TREE_HASHES
            &&& p[ix as int] == h
            &&& forall|e: nat|
                1 <= e <= 15 ==> #[trigger] p[path_node(ix as int, e)] == pair_digest(
                    p[node_index((e - 1) as nat, 2 * above(ix as int, e)) as int],
                    p[node_index((e - 1) as nat, 2 * above(ix as int, e) + 1) as int],
                )
            &&& forall|i: int|
                0 <= i < TREE_HASHES && (forall|e: nat|
                    e <= 15 ==> i != #[trigger] path_node(ix as int, e)) ==> #[trigger] p[i] == nodes[i]
        }),
{
    lemma_level_values(0);
    assert(above(ix as int, 0) == ix);
    lemma_path_write_merkle(nodes, 0, ix as int, h);
}

/// Walking above the leaves never touches a leaf.
proof fn lemma_insert_walk_keeps_leaves(
    t: TreeView,
    offset: int,
    step: int,
    at: int,
    hash: Seq<u8>,
    leaf: u16,
)
    requires
        is_level_step(step),
        step <= 16384,
        offset == 65536 - 2 * step,
        0 <= at < 2 * step,
        leaf < 32768,
    ensures
        insert_walk(t, offset, step, at, hash).hashes.contains_key(leaf) == t.hashes.contains_key(
            leaf,
        ),
        t.hashes.contains_key(leaf) ==> insert_walk(t, offset, step, at, hash).hashes[leaf]
            == t.hashes[leaf],
    decreases step,
{
    if step > 1 {
        let t1 = write_node(t, offset + at, hash);
        let sib = sibling(offset, at);
        let s = node_of(t1.hashes, sib);
        let up = if at % 2 == 0 {
            pair_digest(hash, s)
        } else {
            pair_digest(s, hash)
        };
        lemma_insert_walk_keeps_leaves(read_node(t1, sib), offset + step, step / 2, at / 2, up, leaf);
    }
}

/// In the external client's tree, inserting a value hash at a leaf (one of
/// the 2^15) stores it there.
pub proof fn law_tree_insert_sets_leaf(t: TreeView, ix: u16, h: Seq<u8>)
    requires
        ix < 32768,
    ensures
        node_of(tree_insert(t, ix, h).hashes, ix as int) == h,
{
    let t1 = write_node(t, ix as int, h);
    let sib = sibling(0, ix as int);
    let s = node_of(t1.hashes, sib);
    let up = if ix % 2 == 0 {
        pair_digest(h, s)
    } else {
        pair_digest(s, h)
    };
    lemma_insert_walk_keeps_leaves(read_node(t1, sib), 32768, 16384, ix as int / 2, up, ix);
}

/// A failed accumulation stays failed: once a move does not chain, the
/// whole batch fails whatever follows.
pub proof fn law_mismatch_is_final(items: Seq<AccumulateInput>, stored_root: Seq<u8>, i: int)
    requires
        0 <= i <= items.len(),
        accumulate_all(items.take(i), stored_root) is Err,
    ensures
        accumulate_all(items, stored_root) is Err,
    decreases items.len() - i,
{
    if i < items.len() {
        assert(items.take(i + 1).drop_last() =~= items.take(i));
        law_mismatch_is_final(items, stored_root, i + 1);
    } else {
        assert(items.take(i) =~= items);
    }
}

/// In a listing by increasing leaf index, the `i`-th pair's index is at
/// least `i`.
proof fn lemma_listing_index_bound(l: Seq<(Seq<u8>, Balance)>, i: int)
    requires
        0 <= i < l.len(),
        forall|a: int, b: int|
            0 <= a < b < l.len() ==> key_index((#[trigger] l[a]).0) < key_index((#[trigger] l[b]).0),
    ensures
        key_index(l[i].0) >= i,
    decreases i,
{
    if i > 0 {
        lemma_listing_index_bound(l, i - 1);
        assert(key_index(l[i - 1].0) < key_index(l[i].0));
    }
}

/// Storing pairs whose leaves are all distinct, and free in the store,
/// stores every one of them.
proof fn lemma_load_distinct_leaves(t: StateTreeView<Balance>, l: Seq<(Seq<u8>, Balance)>)
    requires
        forall|a: int, b: int|
            0 <= a < b < l.len() ==> key_index((#[trigger] l[a]).0) < key_index((#[trigger] l[b]).0),
        forall|k: Seq<u8>, i: int|
            #![trigger t.entries.contains_key(k), l[i]]
            t.entries.contains_key(k) && 0 <= i < l.len() ==> key_index(k) != key_index(l[i].0),
    ensures
        forall|k: Seq<u8>|
            #[trigger] load_pairs(t, l).entries.contains_key(k) <==> t.entries.contains_key(k)
                || exists|i: int| 0 <= i < l.len() && (#[trigger] l[i]).0 == k,
        forall|i: int|
            0 <= i < l.len() ==> load_pairs(t, l).entries[(#[trigger] l[i]).0] == l[i].1,
        forall|k: Seq<u8>|
            #[trigger] t.entries.contains_key(k) ==> load_pairs(t, l).entries[k] == t.entries[k],
    decreases l.len(),
{
    if l.len() > 0 {
        let k0 = l[0].0;
        assert(!slot_taken(t, k0)) by {
            if slot_taken(t, k0) {
                let k2 = choose|k2: Seq<u8>| #[trigger]
                    t.entries.contains_key(k2) && k2 != k0 && key_index(k2) == key_index(k0);
                assert(t.entries.contains_key(k2) && 0 <= 0 < l.len());
            }
        }
        let t1 = set_effect(t, k0, l[0].1).0;
        let rest = l.drop_first();
        assert forall|a: int, b: int| 0 <= a < b < rest.len() implies key_index(
            (#[trigger] rest[a]).0,
        ) < key_index((#[trigger] rest[b]).0) by {
            assert(rest[a] == l[a + 1] && rest[b] == l[b + 1]);
        }
        assert forall|k: Seq<u8>, i: int|
            #![trigger t1.entries.contains_key(k), rest[i]]
            t1.entries.contains_key(k) && 0 <= i < rest.len() implies key_index(k) != key_index(
            rest[i].0,
        ) by {
            assert(rest[i] == l[i + 1]);
            if k == k0 {
                assert(key_index(l[0].0) < key_index(l[i + 1].0));
            } else {
                assert(t.entries.contains_key(k));
            }
        }
        lemma_load_distinct_leaves(t1, rest);
        assert(load_pairs(t, l) == load_pairs(t1, rest));
        assert(t1.entries == t.entries.insert(k0, l[0].1));
        assert forall|k: Seq<u8>| #[trigger]
            load_pairs(t, l).entries.contains_key(k) <==> t.entries.contains_key(k) || exists|i: int|
                0 <= i < l.len() && (#[trigger] l[i]).0 == k by {
            if exists|i: int| 0 <= i < rest.len() && (#[trigger] rest[i]).0 == k {
                let i = choose|i: int| 0 <= i < rest.len() && (#[trigger] rest[i]).0 == k;
                assert(l[i + 1].0 == k);
            }
            if exists|i: int| 0 <= i < l.len() && (#[trigger] l[i]).0 == k {
                let i = choose|i: int| 0 <= i < l.len() && (#[trigger] l[i]).0 == k;
                if i > 0 {
                    assert(rest[i - 1].0 == k);
                }
            }
        }
        assert forall|i: int| 0 <= i < l.len() implies load_pairs(t, l).entries[(
        #[trigger] l[i]).0] == l[i].1 by {
            if i > 0 {
                assert(rest[i - 1] == l[i]);
            } else {
                assert(t1.entries.contains_key(k0));
            }
        }
        assert forall|k: Seq<u8>| #[trigger]
            t.entries.contains_key(k) implies load_pairs(t, l).entries[k] == t.entries[k] by {
            assert(key_index(k) != key_index(l[0].0));
            assert(k != k0);
            assert(t1.entries.contains_key(k) && t1.entries[k] == t.entries[k]);
            assert(load_pairs(t1, rest).entries[k] == t1.entries[k]);
        }
    }
}

/// Persisting a state and opening the files again gives back every balance
/// and the known tokens: each file reads back as written, and storing the
/// persisted pairs in turn stores them all.
pub proof fn law_persisted_state_reads_back(v: StateView, l: Seq<(Seq<u8>, Balance)>)
    requires
        leaf_listing(v.balances.entries, l),
        forall|k: Seq<u8>| v.balances.entries.contains_key(k) ==> k.len() <= u32::MAX,
        v.tokens.len() <= u32::MAX,
    ensures
        parse_balances(balances_encoding(l)) == Some(l),
        parse_tokens(tokens_encoding(v.tokens)) == Some(v.tokens),
        load_pairs(empty_store::<Balance>(), l).entries == v.balances.entries,
{
    lemma_pow256_values();
    if l.len() > 0 {
        lemma_listing_index_bound(l, l.len() - 1);
    }
    assert(l.len() < pow256(8));
    assert forall|i: int| 0 <= i < l.len() implies (#[trigger] l[i]).0.len() <= u32::MAX by {
        assert(v.balances.entries.contains_key(l[i].0));
    }
    let b = balances_encoding(l);
    lemma_le_bytes_len(l.len(), 8);
    lemma_le_value_of_bytes(l.len(), 8);
    assert(b.take(8) =~= le_bytes(l.len(), 8));
    assert(b.skip(8) =~= entries_body(l) + Seq::<u8>::empty());
    lemma_entries_round_trip(l, Seq::<u8>::empty());

    let t = tokens_encoding(v.tokens);
    lemma_natural_round_trip(v.tokens.len(), tokens_body(v.tokens));
    let used = natural_encoding(v.tokens.len()).len();
    assert(t.skip(used as int) =~= tokens_body(v.tokens) + Seq::<u8>::empty());
    lemma_ids_round_trip(v.tokens, Seq::<u8>::empty());

    let e = empty_store::<Balance>();
    lemma_load_distinct_leaves(e, l);
    assert(load_pairs(e, l).entries =~= v.balances.entries);
}

/// An operation that moves something: a positive amount, and for a
/// transfer two different accounts.
pub open spec fn moves_something(op: Operation) -> bool {
    match op {
        Operation::Mint { amount, .. } => amount > 0,
        Operation::Transfer { from, to, amount, .. } => amount > 0 && from@ != to@,
    }
}

/// Every netting key pairs two different accounts.
pub open spec fn distinct_counterparts(s: Staged) -> bool {
    forall|i: int| 0 <= i < s.len() ==> ((#[trigger] s[i]).0.1).0@ != (s[i].0.1).1@
}

proof fn lemma_validate_all_moves(ops: Seq<SignedOperation>)
    ensures
        validate_all(ops) matches Some(acc) ==> (forall|i: int|
            0 <= i < acc.0.len() ==> moves_something(#[trigger] acc.0[i]))
            && distinct_counterparts(acc.1),
    decreases ops.len(),
{
    if ops.len() > 0 {
        lemma_validate_all_moves(ops.drop_last());
        if let Some(prev) = validate_all(ops.drop_last()) {
            let op = ops.last().operation;
            if let Some(acc) = validate_step(prev, op) {
                match op {
                    Operation::Mint { amount, .. } => {
                        assert forall|i: int| 0 <= i < acc.0.len() implies moves_something(
                            #[trigger] acc.0[i],
                        ) by {
                            if i < prev.0.len() {
                                assert(acc.0[i] == prev.0[i]);
                            }
                        }
                    },
                    Operation::Transfer { from, to, token_id, amount } => {
                        if is_staged_transfer(from, to, amount) {
                            let c = canonical_form(from, to, token_id, amount);
                            lemma_stage_add_keys(prev.1, c.0, c.1);
                            assert forall|i: int| 0 <= i < acc.1.len() implies ((#[trigger] acc.1[
                                i
                            ]).0.1).0@ != (acc.1[i].0.1).1@ by {
                                if acc.1[i].0 != c.0 {
                                    let m = choose|m: int|
                                        0 <= m < prev.1.len() && prev.1[m].0 == acc.1[i].0;
                                    assert(prev.1[m].0 == acc.1[i].0);
                                }
                            }
                        }
                    },
                }
            }
        }
    }
}

/// Whether a transfer is staged: its sender is a key, it moves something
/// between two accounts.
spec fn is_staged_transfer(from: AccountId, to: AccountId, amount: u64) -> bool {
    crate::crypto::ed25519_key_decodes(from@) && amount != 0 && from@ != to@
}

proof fn lemma_net_transfers_move(s: Staged)
    requires
        distinct_counterparts(s),
    ensures
        net_transfers(s) matches Some(t) ==> forall|i: int|
            0 <= i < t.len() ==> moves_something(#[trigger] t[i]),
    decreases s.len(),
{
    if s.len() > 0 {
        let p = s.drop_last();
        assert(distinct_counterparts(p)) by {
            assert forall|i: int| 0 <= i < p.len() implies ((#[trigger] p[i]).0.1).0@ != (
            p[i].0.1).1@ by {
                assert(p[i] == s[i]);
            }
        }
        lemma_net_transfers_move(p);
        if let Some(t) = net_transfers(s) {
            let prev = net_transfers(p)->Some_0;
            assert(((s[s.len() - 1]).0.1).0@ != (s[s.len() - 1].0.1).1@);
            assert forall|i: int| 0 <= i < t.len() implies moves_something(#[trigger] t[i]) by {
                if i < prev.len() {
                    assert(t[i] == prev[i]);
                }
            }
        }
    }
}

/// What refinement passes on moves something: every mint and every netted
/// transfer has a positive amount, and no transfer goes from an account to
/// itself.
pub proof fn law_validated_operations_move_something(ops: Seq<SignedOperation>)
    ensures
        validated_operations(ops) matches Some(v) ==> forall|i: int|
            0 <= i < v.len() ==> moves_something(#[trigger] v[i]),
{
    lemma_validate_all_moves(ops);
    if let Some(acc) = validate_all(ops) {
        lemma_net_transfers_move(acc.1);
        if let Some(v) = validated_operations(ops) {
            let t = net_transfers(acc.1)->Some_0;
            assert forall|i: int| 0 <= i < v.len() implies moves_something(#[trigger] v[i]) by {
                if i < acc.0.len() {
                    assert(v[i] == acc.0[i]);
                } else {
                    assert(v[i] == t[i - acc.0.len()]);
                }
            }
        }
    }
}

/// Settling netted transfers never changes the known tokens.
proof fn lemma_settle_keeps_tokens(v: StateView, s: Staged)
    ensures
        settle(v, s) matches Ok(v2) ==> v2.tokens == v.tokens,
    decreases s.len(),
{
    if s.len() > 0 {
        lemma_settle_keeps_tokens(v, s.drop_last());
    }
}

/// Applying operations one by one keeps the known tokens distinct.
proof fn lemma_transition_ops_distinct_tokens(v: StateView, ops: Seq<SignedOperation>)
    requires
        v.tokens.no_duplicates(),
    ensures
        transition_ops(v, ops) matches Ok(acc) ==> acc.0.tokens.no_duplicates(),
    decreases ops.len(),
{
    if ops.len() > 0 {
        lemma_transition_ops_distinct_tokens(v, ops.drop_last());
        if let Ok(acc) = transition_ops(v, ops.drop_last()) {
            match ops.last().operation {
                Operation::Mint { to, token_id, amount } => {
                    if amount != 0 && !acc.0.tokens.contains(token_id) {
                        let pushed = acc.0.tokens.push(token_id);
                        assert forall|i: int, j: int|
                            0 <= i < pushed.len() && 0 <= j < pushed.len() && i != j implies pushed[i]
                            != pushed[j] by {
                            if i < acc.0.tokens.len() && j < acc.0.tokens.len() {
                            } else if i == acc.0.tokens.len() {
                                assert(acc.0.tokens[j] == pushed[j]);
                            } else {
                                assert(acc.0.tokens[i] == pushed[i]);
                            }
                        }
                    }
                },
                Operation::Transfer { .. } => {},
            }
        }
    }
}

/// A token is known at most once: from a state whose known tokens are
/// distinct, a state transition keeps them distinct.
pub proof fn law_known_tokens_stay_distinct(v: StateView, ops: Seq<SignedOperation>)
    requires
        v.tokens.no_duplicates(),
    ensures
        transition(v, ops) matches Ok(v2) ==> v2.tokens.no_duplicates(),
{
    lemma_transition_ops_distinct_tokens(v, ops);
    if let Ok(acc) = transition_ops(v, ops) {
        lemma_settle_keeps_tokens(acc.0, acc.1);
    }
}

/// Persisting a committed state and opening its files again gives back its
/// root: the reopened store holds the same pairs at the same leaves, and a
/// committed tree's root depends on its leaves alone. (Every state built
/// from an empty one, or opened from its files, is committed.)
pub proof fn law_reopened_state_keeps_root(v: StateView, l: Seq<(Seq<u8>, Balance)>)
    requires
        leaf_listing(v.balances.entries, l),
        committed(v.balances),
    ensures
        tree_root(load_pairs(empty_store::<Balance>(), l).tree) == tree_root(v.balances.tree),
        state_root(
            StateView {
                balances: witness_reset(load_pairs(empty_store::<Balance>(), l)),
                tokens: v.tokens,
                token_witness: v.tokens,
            },
        ) == state_root(v),
{
    let leaves = choose|leaves: Map<u16, Seq<u8>>| commits(v.balances, leaves) && exact_leaves(
        v.balances,
        leaves,
    );
    let e = empty_store::<Balance>();
    law_empty_store_commits::<Balance>();
    lemma_load_commits(e, Map::<u16, Seq<u8>>::empty(), l);
    let l2 = leaves_after(Map::<u16, Seq<u8>>::empty(), l);
    let loaded = load_pairs(e, l);
    assert forall|ix: u16| #[trigger] hash_at(l2, ix) == hash_at(leaves, ix) by {
        lemma_leaves_after(Map::<u16, Seq<u8>>::empty(), l, ix);
        if exists|i: int| 0 <= i < l.len() && key_index((#[trigger] l[i]).0) == ix {
            let i = choose|i: int| 0 <= i < l.len() && key_index((#[trigger] l[i]).0) == ix;
            assert(v.balances.entries.contains_key(l[i].0));
        } else {
            if hash_at(leaves, ix) != zero_hash() {
                let k = choose|k: Seq<u8>| v.balances.entries.contains_key(k) && key_index(k) == ix;
                let i = choose|i: int| 0 <= i < l.len() && (#[trigger] l[i]).0 == k;
                assert(key_index(l[i].0) == ix);
            }
        }
    }
    lemma_merkle_same_leaves(l2, leaves, 15, 0);
    lemma_committed_root(loaded, l2);
    lemma_committed_root(v.balances, leaves);
}

/// What refinement passes on moves the stored root: the output of
/// refinement (the previous root, then the new root) makes accumulation
/// take the new root when the previous root is the current one, and fail
/// the batch otherwise.
pub proof fn law_refinement_output_moves_root(
    previous_root: Seq<u8>,
    new_root: Seq<u8>,
    current: Result<Option<Seq<u8>>, ()>,
    stored_root: Seq<u8>,
)
    requires
        previous_root.len() == 32,
        new_root.len() == 32,
        current is Ok,
    ensures
        accumulate_step(current, Some(previous_root + new_root), stored_root) == (if previous_root
            == (match current {
            Ok(Some(r)) => r,
            _ => stored_root,
        }) {
            Ok::<Option<Seq<u8>>, ()>(Some(new_root))
        } else {
            Err(())
        }),
{
    let o = previous_root + new_root;
    assert(o.subrange(0, 32) =~= previous_root);
    assert(o.subrange(32, 64) =~= new_root);
}

/// A transfer that the sender cannot cover, or of an unknown token, moves
/// nothing: every balance and the known tokens stay as they were.
pub proof fn law_uncovered_transfer_moves_nothing(
    v: StateView,
    from: AccountId,
    to: AccountId,
    token_id: TokenId,
    amount: u64,
)
    requires
        !v.tokens.contains(token_id) || or_zero(balance_of(v, from, token_id)) < amount,
    ensures
        transfer_effect(v, from, to, token_id, amount).1,
        transfer_effect(v, from, to, token_id, amount).0.balances.entries == v.balances.entries,
        transfer_effect(v, from, to, token_id, amount).0.tokens == v.tokens,
{
}

/// Whether a batch skips an operation whatever the state: a mint or a
/// transfer of nothing, a transfer to oneself, or a transfer whose sender
/// is not a valid key.
pub open spec fn skipped(op: Operation) -> bool {
    match op {
        Operation::Mint { amount, .. } => amount == 0,
        Operation::Transfer { from, to, amount, .. } => amount == 0 || from@ == to@
            || !ed25519_key_decodes(from@),
    }
}

/// Whether an operation mints a positive amount of token `t`.
pub open spec fn mints_token(op: Operation, t: TokenId) -> bool {
    match op {
        Operation::Mint { token_id, amount, .. } => token_id == t && amount > 0,
        Operation::Transfer { .. } => false,
    }
}

/// The outcome of a batch's operations after a prefix depends on the
/// prefix only through the outcome of that prefix.
proof fn lemma_transition_ops_extend(
    v: StateView,
    a1: Seq<SignedOperation>,
    a2: Seq<SignedOperation>,
    b: Seq<SignedOperation>,
)
    requires
        transition_ops(v, a1) == transition_ops(v, a2),
    ensures
        transition_ops(v, a1 + b) == transition_ops(v, a2 + b),
    decreases b.len(),
{
    if b.len() == 0 {
        assert(a1 + b =~= a1);
        assert(a2 + b =~= a2);
    } else {
        lemma_transition_ops_extend(v, a1, a2, b.drop_last());
        assert((a1 + b).drop_last() =~= a1 + b.drop_last());
        assert((a2 + b).drop_last() =~= a2 + b.drop_last());
        assert((a1 + b).last() == b.last());
        assert((a2 + b).last() == b.last());
    }
}

/// Inserting an operation whose step leaves the running state as it is
/// leaves the whole batch's outcome as it is.
proof fn lemma_insert_idle_operation(v: StateView, ops: Seq<SignedOperation>, p: int, x: SignedOperation)
    requires
        0 <= p <= ops.len(),
        transition_ops(v, ops.take(p)) matches Ok(acc) ==> transition_step(acc, x.operation) == Ok::<
            (StateView, Staged),
            LedgerError,
        >(acc),
    ensures
        transition(v, ops.take(p).push(x) + ops.skip(p)) == transition(v, ops),
{
    let a = ops.take(p);
    assert(a.push(x).drop_last() =~= a);
    assert(a.push(x).last() == x);
    lemma_transition_ops_extend(v, a.push(x), a, ops.skip(p));
    assert(a + ops.skip(p) =~= ops);
}

/// An operation that a batch skips (a mint or transfer of nothing, a
/// transfer to oneself, a transfer from an invalid key), inserted anywhere
/// in a batch, leaves the outcome of the state transition as it was: the
/// same resulting state, roots and balances included, or the same error.
pub proof fn law_skipped_operation_changes_nothing(
    v: StateView,
    ops: Seq<SignedOperation>,
    p: int,
    x: SignedOperation,
)
    requires
        0 <= p <= ops.len(),
        skipped(x.operation),
    ensures
        transition(v, ops.take(p).push(x) + ops.skip(p)) == transition(v, ops),
{
    lemma_insert_idle_operation(v, ops, p, x);
}

/// Along a batch, the known tokens only grow, and a token minted (in a
/// positive amount) by an operation that went through is known afterwards.
proof fn lemma_minted_tokens_known(v: StateView, ops: Seq<SignedOperation>, t: TokenId)
    ensures
        transition_ops(v, ops) matches Ok(acc) ==> ((v.tokens.contains(t) || exists|i: int|
            0 <= i < ops.len() && mints_token((#[trigger] ops[i]).operation, t)) ==> acc.0.tokens.contains(
            t,
        )),
    decreases ops.len(),
{
    if ops.len() > 0 {
        let init = ops.drop_last();
        lemma_minted_tokens_known(v, init, t);
        if let Ok(acc) = transition_ops(v, ops) {
            let prev = transition_ops(v, init)->Ok_0;
            let minted_before = exists|i: int|
                0 <= i < init.len() && mints_token((#[trigger] init[i]).operation, t);
            if v.tokens.contains(t) || minted_before {
                assert(prev.0.tokens.contains(t));
                let j = choose|j: int| 0 <= j < prev.0.tokens.len() && prev.0.tokens[j] == t;
                match ops.last().operation {
                    Operation::Mint { to, token_id, amount } => {
                        if amount != 0 && !prev.0.tokens.contains(token_id) {
                            assert(acc.0.tokens == prev.0.tokens.push(token_id));
                            assert(acc.0.tokens[j] == t);
                        }
                    },
                    Operation::Transfer { .. } => {},
                }
            } else if exists|i: int| 0 <= i < ops.len() && mints_token((#[trigger] ops[i]).operation, t) {
                let i = choose|i: int|
                    0 <= i < ops.len() && mints_token((#[trigger] ops[i]).operation, t);
                if i < init.len() {
                    assert(init[i] == ops[i]);
                    assert(minted_before);
                }
                assert(i == ops.len() - 1);
                if !prev.0.tokens.contains(t) {
                    let pushed = prev.0.tokens.push(t);
                    assert(acc.0.tokens == pushed);
                    assert(pushed[prev.0.tokens.len() as int] == t);
                }
            }
        }
    }
}

/// A token is minted once: a mint of a token that is known where it
/// stands in the batch (known before the batch, or minted in a positive
/// amount by an earlier operation), inserted there, leaves the outcome of
/// the state transition as it was.
pub proof fn law_mint_of_known_token_changes_nothing(
    v: StateView,
    ops: Seq<SignedOperation>,
    p: int,
    x: SignedOperation,
    to: AccountId,
    token_id: TokenId,
    amount: u64,
)
    requires
        0 <= p <= ops.len(),
        x.operation == (Operation::Mint { to, token_id, amount }),
        v.tokens.contains(token_id) || exists|i: int|
            0 <= i < p && mints_token((#[trigger] ops[i]).operation, token_id),
    ensures
        transition(v, ops.take(p).push(x) + ops.skip(p)) == transition(v, ops),
{
    let a = ops.take(p);
    if !v.tokens.contains(token_id) {
        let i = choose|i: int| 0 <= i < p && mints_token((#[trigger] ops[i]).operation, token_id);
        assert(a[i] == ops[i]);
    }
    lemma_minted_tokens_known(v, a, token_id);
    lemma_insert_idle_operation(v, ops, p, x);
}

/// Whether a list of netted transfers has an entry for `key`.
pub open spec fn has_key(s: Staged, key: TransferKey) -> bool {
    exists|i: int| 0 <= i < s.len() && (#[trigger] s[i]).0 == key
}

/// A key without an entry has no net amount.
proof fn lemma_net_of_absent(s: Staged, key: TransferKey)
    requires
        !has_key(s, key),
    ensures
        net_of(s, key) == 0,
    decreases s.len(),
{
    if s.len() > 0 {
        assert(s[0].0 != key);
        assert(!has_key(s.drop_first(), key)) by {
            if has_key(s.drop_first(), key) {
                let i = choose|i: int| 0 <= i < s.len() - 1 && (#[trigger] s.drop_first()[i]).0 == key;
                assert(s[i + 1].0 == key);
            }
        }
        lemma_net_of_absent(s.drop_first(), key);
    }
}

/// In an ordered list, the first entry holds its key's whole net amount,
/// and the rest holds every other key with its net amount.
proof fn lemma_ordered_head(s: Staged)
    requires
        netting_ordered(s),
        s.len() > 0,
    ensures
        netting_ordered(s.drop_first()),
        net_of(s, s[0].0) == s[0].1,
        !has_key(s.drop_first(), s[0].0),
        forall|k: TransferKey| k != s[0].0 ==> (has_key(s, k) <==> #[trigger] has_key(s.drop_first(), k)),
        forall|k: TransferKey| k != s[0].0 ==> net_of(s, k) == #[trigger] net_of(s.drop_first(), k),
        forall|k: TransferKey| has_key(s, k) && k != s[0].0 ==> key_lt(s[0].0, k),
{
    let t = s.drop_first();
    assert forall|i: int, j: int| 0 <= i < j < t.len() implies key_lt(#[trigger] t[i].0, #[trigger] t[j].0) by {
        assert(t[i] == s[i + 1] && t[j] == s[j + 1]);
    }
    assert(!has_key(t, s[0].0)) by {
        if has_key(t, s[0].0) {
            let i = choose|i: int| 0 <= i < t.len() && (#[trigger] t[i]).0 == s[0].0;
            assert(t[i] == s[i + 1]);
            crate::ledger::lemma_key_lt_total(s[0].0, s[0].0);
        }
    }
    lemma_net_of_absent(t, s[0].0);
    assert forall|k: TransferKey| k != s[0].0 implies (has_key(s, k) <==> #[trigger] has_key(t, k)) by {
        if has_key(s, k) {
            let i = choose|i: int| 0 <= i < s.len() && (#[trigger] s[i]).0 == k;
            assert(t[i - 1] == s[i]);
        }
        if has_key(t, k) {
            let i = choose|i: int| 0 <= i < t.len() && (#[trigger] t[i]).0 == k;
            assert(t[i] == s[i + 1]);
        }
    }
    assert forall|k: TransferKey| has_key(s, k) && k != s[0].0 implies key_lt(s[0].0, k) by {
        let i = choose|i: int| 0 <= i < s.len() && (#[trigger] s[i]).0 == k;
    }
}

/// An ordered list of netted transfers is determined by its keys and their
/// net amounts.
proof fn lemma_netting_unique(x: Staged, y: Staged)
    requires
        netting_ordered(x),
        netting_ordered(y),
        forall|k: TransferKey| has_key(x, k) <==> has_key(y, k),
        forall|k: TransferKey| net_of(x, k) == net_of(y, k),
    ensures
        x == y,
    decreases x.len(),
{
    if x.len() == 0 {
        if y.len() > 0 {
            assert(has_key(y, y[0].0));
        }
        assert(x =~= y);
    } else {
        assert(has_key(x, x[0].0));
        assert(y.len() > 0);
        assert(has_key(y, y[0].0));
        lemma_ordered_head(x);
        lemma_ordered_head(y);
        if x[0].0 != y[0].0 {
            assert(key_lt(x[0].0, y[0].0));
            assert(key_lt(y[0].0, x[0].0));
            crate::ledger::lemma_key_lt_total(x[0].0, y[0].0);
        }
        assert(x[0] == y[0]);
        let k0 = x[0].0;
        assert forall|k: TransferKey| has_key(x.drop_first(), k) <==> has_key(y.drop_first(), k) by {
            if k == k0 {
            } else {
                assert(has_key(x, k) <==> has_key(x.drop_first(), k));
                assert(has_key(y, k) <==> has_key(y.drop_first(), k));
            }
        }
        assert forall|k: TransferKey| net_of(x.drop_first(), k) == net_of(y.drop_first(), k) by {
            if k == k0 {
                lemma_net_of_absent(x.drop_first(), k);
                lemma_net_of_absent(y.drop_first(), k);
            } else {
                assert(net_of(x, k) == net_of(x.drop_first(), k));
                assert(net_of(y, k) == net_of(y.drop_first(), k));
            }
        }
        lemma_netting_unique(x.drop_first(), y.drop_first());
        assert(x =~= seq![x[0]] + x.drop_first());
        assert(y =~= seq![y[0]] + y.drop_first());
    }
}

/// Netting keeps every key that had an entry, and gives the staged key one.
proof fn lemma_stage_add_has_keys(s: Staged, key: TransferKey, amount: int, k: TransferKey)
    ensures
        stage_add(s, key, amount) matches Some(s2) ==> (has_key(s2, k) <==> (has_key(s, k) || k
            == key)),
    decreases s.len(),
{
    lemma_stage_add_keys(s, key, amount);
    if let Some(s2) = stage_add(s, key, amount) {
        if has_key(s2, k) {
            let i = choose|i: int| 0 <= i < s2.len() && (#[trigger] s2[i]).0 == k;
            if k != key {
                let m = choose|m: int| 0 <= m < s.len() && s[m].0 == s2[i].0;
                assert(s[m].0 == k);
            }
        }
        if s.len() == 0 {
            assert(s2[0].0 == key);
        } else if s[0].0 == key {
            assert(s2[0].0 == key);
            if has_key(s, k) {
                let i = choose|i: int| 0 <= i < s.len() && (#[trigger] s[i]).0 == k;
                assert(s2[i].0 == k);
            }
        } else if key_lt(key, s[0].0) {
            assert(s2[0].0 == key);
            if has_key(s, k) {
                let i = choose|i: int| 0 <= i < s.len() && (#[trigger] s[i]).0 == k;
                assert(s2[i + 1].0 == k);
            }
        } else {
            let t = s.drop_first();
            let r = stage_add(t, key, amount)->Some_0;
            lemma_stage_add_has_keys(t, key, amount, k);
            assert(s2 == seq![s[0]] + r);
            if has_key(r, k) {
                let i = choose|i: int| 0 <= i < r.len() && (#[trigger] r[i]).0 == k;
                assert(s2[i + 1].0 == k);
            }
            if has_key(s, k) {
                let i = choose|i: int| 0 <= i < s.len() && (#[trigger] s[i]).0 == k;
                if i == 0 {
                    assert(s2[0].0 == k);
                } else {
                    assert(t[i - 1].0 == k);
                }
            }
            if k == key {
                lemma_stage_add_has_keys(t, key, amount, key);
            }
        }
    }
}

/// Netting two transfers in either order gives the same list, where both
/// orders stay within the range of `i64`.
pub proof fn law_netting_commutes(
    s: Staged,
    k1: TransferKey,
    a1: int,
    k2: TransferKey,
    a2: int,
)
    requires
        netting_ordered(s),
        stage_add(s, k1, a1) matches Some(s1) && stage_add(s1, k2, a2) is Some,
        stage_add(s, k2, a2) matches Some(s2) && stage_add(s2, k1, a1) is Some,
    ensures
        stage_add(stage_add(s, k1, a1)->Some_0, k2, a2) == stage_add(
            stage_add(s, k2, a2)->Some_0,
            k1,
            a1,
        ),
{
    let s1 = stage_add(s, k1, a1)->Some_0;
    let s2 = stage_add(s, k2, a2)->Some_0;
    let s12 = stage_add(s1, k2, a2)->Some_0;
    let s21 = stage_add(s2, k1, a1)->Some_0;
    law_netting_stays_ordered(s, k1, a1);
    law_netting_stays_ordered(s, k2, a2);
    law_netting_stays_ordered(s1, k2, a2);
    law_netting_stays_ordered(s2, k1, a1);
    assert forall|k: TransferKey| has_key(s12, k) <==> has_key(s21, k) by {
        lemma_stage_add_has_keys(s, k1, a1, k);
        lemma_stage_add_has_keys(s, k2, a2, k);
        lemma_stage_add_has_keys(s1, k2, a2, k);
        lemma_stage_add_has_keys(s2, k1, a1, k);
    }
    assert forall|k: TransferKey| net_of(s12, k) == net_of(s21, k) by {
        law_netting_adds(s, k1, a1, k);
        law_netting_adds(s, k2, a2, k);
        law_netting_adds(s1, k2, a2, k);
        law_netting_adds(s2, k1, a1, k);
    }
    lemma_netting_unique(s12, s21);
}

/// The transfers a batch nets stay in strictly increasing key order.
proof fn lemma_transition_ops_ordered(v: StateView, ops: Seq<SignedOperation>)
    ensures
        transition_ops(v, ops) matches Ok(acc) ==> netting_ordered(acc.1),
    decreases ops.len(),
{
    if ops.len() > 0 {
        lemma_transition_ops_ordered(v, ops.drop_last());
        if let Ok(acc) = transition_ops(v, ops.drop_last()) {
            match ops.last().operation {
                Operation::Mint { .. } => {},
                Operation::Transfer { from, to, token_id, amount } => {
                    let c = canonical_form(from, to, token_id, amount);
                    law_netting_stays_ordered(acc.1, c.0, c.1);
                },
            }
        }
    }
}

/// A batch whose operations all go through has a prefix whose operations
/// all go through.
proof fn lemma_prefix_goes_through(v: StateView, ops: Seq<SignedOperation>, i: int)
    requires
        0 <= i <= ops.len(),
        transition_ops(v, ops) is Ok,
    ensures
        transition_ops(v, ops.take(i)) is Ok,
{
    if let Err(e) = transition_ops(v, ops.take(i)) {
        crate::external_client::transition::lemma_transition_ops_stuck(v, ops, i, e);
    }
}

/// `ops` with the operations at `p` and `p + 1` swapped.
pub open spec fn swap_adjacent(ops: Seq<SignedOperation>, p: int) -> Seq<SignedOperation> {
    ops.update(p, ops[p + 1]).update(p + 1, ops[p])
}

/// Swapping two adjacent operations whose steps commute from the state
/// that the prefix before them leaves gives the batch the same outcome.
proof fn lemma_swap_commuting_steps(v: StateView, ops: Seq<SignedOperation>, p: int)
    requires
        0 <= p,
        p + 1 < ops.len(),
        transition_ops(v, ops.take(p)) matches Ok(acc) && (match transition_step(
            acc,
            ops[p].operation,
        ) {
            Ok(a1) => transition_step(a1, ops[p + 1].operation),
            Err(e) => Err(e),
        }) == (match transition_step(acc, ops[p + 1].operation) {
            Ok(a2) => transition_step(a2, ops[p].operation),
            Err(e) => Err(e),
        }),
    ensures
        transition(v, swap_adjacent(ops, p)) == transition(v, ops),
{
    let w = swap_adjacent(ops, p);
    let a = ops.take(p);
    let rest = ops.skip(p + 2);
    let x = ops[p];
    let y = ops[p + 1];
    assert(w.take(p) =~= a);
    assert(ops.take(p + 2) =~= a.push(x).push(y));
    assert(w.take(p + 2) =~= a.push(y).push(x));
    assert(a.push(x).push(y).drop_last() =~= a.push(x));
    assert(a.push(y).push(x).drop_last() =~= a.push(y));
    assert(a.push(x).drop_last() =~= a);
    assert(a.push(y).drop_last() =~= a);
    assert(a.push(x).last() == x && a.push(y).last() == y);
    assert(a.push(x).push(y).last() == y && a.push(y).push(x).last() == x);
    assert(transition_ops(v, a.push(x)) == transition_step(transition_ops(v, a)->Ok_0, x.operation));
    assert(transition_ops(v, a.push(y)) == transition_step(transition_ops(v, a)->Ok_0, y.operation));
    assert(transition_ops(v, a.push(x).push(y)) == transition_ops(v, a.push(y).push(x)));
    lemma_transition_ops_extend(v, a.push(x).push(y), a.push(y).push(x), rest);
    assert(a.push(x).push(y) + rest =~= ops);
    assert(a.push(y).push(x) + rest =~= w);
}

/// A mint and a transfer step commute where either order goes through: a
/// mint reads and changes the state only, a transfer the netted list only.
proof fn lemma_mint_transfer_steps(acc: (StateView, Staged), m: Operation, t: Operation)
    requires
        m is Mint,
        t is Transfer,
    ensures
        ({
            let mt = match transition_step(acc, m) {
                Ok(a1) => transition_step(a1, t),
                Err(e) => Err(e),
            };
            let tm = match transition_step(acc, t) {
                Ok(a2) => transition_step(a2, m),
                Err(e) => Err(e),
            };
            (mt is Ok || tm is Ok) ==> mt == tm
        }),
{
}

/// Transfers are netted whatever their order with the mints: swapping a
/// mint with a transfer next to it, in a batch whose operations all go
/// through, gives the same outcome.
pub proof fn law_mint_and_transfer_commute(v: StateView, ops: Seq<SignedOperation>, p: int)
    requires
        0 <= p,
        p + 1 < ops.len(),
        (ops[p].operation is Mint && ops[p + 1].operation is Transfer) || (ops[p].operation is Transfer
            && ops[p + 1].operation is Mint),
        transition_ops(v, ops) is Ok,
    ensures
        transition(v, swap_adjacent(ops, p)) == transition(v, ops),
{
    lemma_prefix_goes_through(v, ops, p);
    lemma_prefix_goes_through(v, ops, p + 2);
    let a = ops.take(p);
    let x = ops[p];
    let y = ops[p + 1];
    assert(ops.take(p + 2) =~= a.push(x).push(y));
    assert(a.push(x).push(y).drop_last() =~= a.push(x));
    assert(a.push(x).drop_last() =~= a);
    assert(a.push(x).last() == x && a.push(x).push(y).last() == y);
    let acc = transition_ops(v, a)->Ok_0;
    assert(transition_ops(v, a.push(x)) == transition_step(acc, x.operation));
    assert(transition_ops(v, a.push(x).push(y)) == (match transition_step(acc, x.operation) {
        Ok(a1) => transition_step(a1, y.operation),
        Err(e) => Err(e),
    }));
    if x.operation is Mint {
        lemma_mint_transfer_steps(acc, x.operation, y.operation);
    } else {
        lemma_mint_transfer_steps(acc, y.operation, x.operation);
    }
    lemma_swap_commuting_steps(v, ops, p);
}

/// Transfers are netted whatever their order: swapping two transfers next
/// to each other gives the same outcome, where both orders go through
/// (netting them in either order stays within the range of `i64`).
pub proof fn law_adjacent_transfers_commute(v: StateView, ops: Seq<SignedOperation>, p: int)
    requires
        0 <= p,
        p + 1 < ops.len(),
        ops[p].operation is Transfer,
        ops[p + 1].operation is Transfer,
        transition_ops(v, ops) is Ok,
        transition_ops(v, swap_adjacent(ops, p)) is Ok,
    ensures
        transition(v, swap_adjacent(ops, p)) == transition(v, ops),
{
    let w = swap_adjacent(ops, p);
    let a = ops.take(p);
    let x = ops[p];
    let y = ops[p + 1];
    lemma_prefix_goes_through(v, ops, p);
    lemma_prefix_goes_through(v, ops, p + 2);
    lemma_prefix_goes_through(v, w, p + 2);
    assert(w.take(p) =~= a);
    assert(w[p] == y && w[p + 1] == x);
    assert(ops.take(p + 2) =~= a.push(x).push(y));
    assert(w.take(p + 2) =~= a.push(y).push(x));
    assert(a.push(x).push(y).drop_last() =~= a.push(x));
    assert(a.push(y).push(x).drop_last() =~= a.push(y));
    assert(a.push(x).drop_last() =~= a);
    assert(a.push(y).drop_last() =~= a);
    assert(a.push(x).last() == x && a.push(y).last() == y);
    assert(a.push(x).push(y).last() == y && a.push(y).push(x).last() == x);
    let acc = transition_ops(v, a)->Ok_0;
    lemma_transition_ops_ordered(v, a);
    assert(transition_ops(v, a.push(x)) == transition_step(acc, x.operation));
    assert(transition_ops(v, a.push(y)) == transition_step(acc, y.operation));
    assert(transition_ops(v, a.push(x).push(y)) == (match transition_step(acc, x.operation) {
        Ok(a1) => transition_step(a1, y.operation),
        Err(e) => Err(e),
    }));
    assert(transition_ops(v, a.push(y).push(x)) == (match transition_step(acc, y.operation) {
        Ok(a2) => transition_step(a2, x.operation),
        Err(e) => Err(e),
    }));
    match (x.operation, y.operation) {
        (
            Operation::Transfer { from: f1, to: t1, token_id: k1, amount: m1 },
            Operation::Transfer { from: f2, to: t2, token_id: k2, amount: m2 },
        ) => {
            let c1 = canonical_form(f1, t1, k1, m1);
            let c2 = canonical_form(f2, t2, k2, m2);
            let skip1 = !ed25519_key_decodes(f1@) || m1 == 0 || f1@ == t1@;
            let skip2 = !ed25519_key_decodes(f2@) || m2 == 0 || f2@ == t2@;
            if !skip1 && !skip2 {
                law_netting_commutes(acc.1, c1.0, c1.1, c2.0, c2.1);
            }
        },
        _ => {},
    }
    lemma_swap_commuting_steps(v, ops, p);
}

/// What a balance map holds under `k`: zero when nothing.
pub open spec fn held(m: Map<Seq<u8>, Balance>, k: Seq<u8>) -> int {
    if m.contains_key(k) {
        m[k] as int
    } else {
        0
    }
}

/// The total of token `t` that the accounts `accts` hold.
pub open spec fn supply_of(m: Map<Seq<u8>, Balance>, accts: Seq<AccountId>, t: TokenId) -> int
    decreases accts.len(),
{
    if accts.len() == 0 {
        0
    } else {
        supply_of(m, accts.drop_last(), t) + held(m, balance_key_bytes(t, accts.last()@))
    }
}

/// No account occurs twice in `accts`.
pub open spec fn distinct_accounts(accts: Seq<AccountId>) -> bool {
    forall|i: int, j: int| 0 <= i < j < accts.len() ==> (#[trigger] accts[i])@ != (#[trigger] accts[j])@
}

/// Whether `a` is one of the accounts `accts`.
pub open spec fn lists_account(accts: Seq<AccountId>, a: AccountId) -> bool {
    exists|i: int| 0 <= i < accts.len() && (#[trigger] accts[i])@ == a@
}

/// Whether `k` is the key of the balance in token `t` of one of `accts`.
pub open spec fn key_listed(accts: Seq<AccountId>, t: TokenId, k: Seq<u8>) -> bool {
    exists|i: int| 0 <= i < accts.len() && balance_key_bytes(t, (#[trigger] accts[i])@) == k
}

/// Storing `x` under `k` changes the total by what it adds under `k`
/// where `k` is the key of a listed account's balance, and not at all
/// otherwise.
proof fn lemma_supply_insert(
    m: Map<Seq<u8>, Balance>,
    accts: Seq<AccountId>,
    t: TokenId,
    k: Seq<u8>,
    x: Balance,
)
    requires
        distinct_accounts(accts),
    ensures
        supply_of(m.insert(k, x), accts, t) == supply_of(m, accts, t) + (if key_listed(accts, t, k) {
            x - held(m, k)
        } else {
            0
        }),
    decreases accts.len(),
{
    if accts.len() > 0 {
        let init = accts.drop_last();
        let l = accts.last();
        assert forall|i: int, j: int| 0 <= i < j < init.len() implies (#[trigger] init[i])@ != (
        #[trigger] init[j])@ by {
            assert(init[i] == accts[i] && init[j] == accts[j]);
        }
        lemma_supply_insert(m, init, t, k, x);
        if balance_key_bytes(t, l@) == k {
            assert(key_listed(accts, t, k)) by {
                assert(accts[accts.len() - 1] == l);
            }
            assert(!key_listed(init, t, k)) by {
                if key_listed(init, t, k) {
                    let i = choose|i: int| 0 <= i < init.len() && balance_key_bytes(t, (#[trigger] init[i])@) == k;
                    assert(init[i] == accts[i]);
                    law_balance_keys_are_distinct(t, init[i], t, l);
                }
            }
        } else {
            if key_listed(accts, t, k) {
                let i = choose|i: int| 0 <= i < accts.len() && balance_key_bytes(t, (#[trigger] accts[i])@) == k;
                assert(i < init.len());
                assert(init[i] == accts[i]);
            }
            if key_listed(init, t, k) {
                let i = choose|i: int| 0 <= i < init.len() && balance_key_bytes(t, (#[trigger] init[i])@) == k;
                assert(init[i] == accts[i]);
            }
        }
    }
}

/// A listed account holds no more than the total; two distinct listed
/// accounts together hold no more than the total.
proof fn lemma_supply_bounds(m: Map<Seq<u8>, Balance>, accts: Seq<AccountId>, t: TokenId, a: AccountId, b: AccountId)
    requires
        distinct_accounts(accts),
        lists_account(accts, a),
    ensures
        0 <= supply_of(m, accts, t),
        held(m, balance_key_bytes(t, a@)) <= supply_of(m, accts, t),
        lists_account(accts, b) && a@ != b@ ==> held(m, balance_key_bytes(t, a@)) + held(
            m,
            balance_key_bytes(t, b@),
        ) <= supply_of(m, accts, t),
    decreases accts.len(),
{
    let init = accts.drop_last();
    let l = accts.last();
    assert forall|i: int, j: int| 0 <= i < j < init.len() implies (#[trigger] init[i])@ != (
    #[trigger] init[j])@ by {
        assert(init[i] == accts[i] && init[j] == accts[j]);
    }
    let ia = choose|i: int| 0 <= i < accts.len() && (#[trigger] accts[i])@ == a@;
    if ia < init.len() {
        assert(init[ia] == accts[ia]);
        lemma_supply_bounds(m, init, t, a, b);
        if lists_account(accts, b) && a@ != b@ && l@ != b@ {
            let ib = choose|i: int| 0 <= i < accts.len() && (#[trigger] accts[i])@ == b@;
            assert(ib < init.len());
            assert(init[ib] == accts[ib]);
        }
    } else {
        assert(l@ == a@);
        if init.len() > 0 {
            assert(lists_account(init, init[0]));
            lemma_supply_bounds(m, init, t, init[0], b);
            if lists_account(accts, b) && a@ != b@ {
                let ib = choose|i: int| 0 <= i < accts.len() && (#[trigger] accts[i])@ == b@;
                assert(init[ib] == accts[ib]);
                lemma_supply_bounds(m, init, t, b, b);
            }
        } else {
            if lists_account(accts, b) && a@ != b@ {
                let ib = choose|i: int| 0 <= i < accts.len() && (#[trigger] accts[i])@ == b@;
            }
        }
    }
}

/// A mint changes the total of token `t` only when it is the first mint of
/// `t`, and then by the amount minted (where that does not saturate).
proof fn lemma_mint_supply(
    v: StateView,
    to: AccountId,
    tok: TokenId,
    amount: u64,
    accts: Seq<AccountId>,
    t: TokenId,
)
    requires
        distinct_accounts(accts),
        mint_effect(v, to, tok, amount).1,
        tok == t && !v.tokens.contains(t) ==> lists_account(accts, to) && supply_of(
            v.balances.entries,
            accts,
            t,
        ) + amount <= u64::MAX,
    ensures
        supply_of(mint_effect(v, to, tok, amount).0.balances.entries, accts, t) == supply_of(
            v.balances.entries,
            accts,
            t,
        ) + (if tok == t && !v.tokens.contains(t) {
            amount as int
        } else {
            0
        }),
        mint_effect(v, to, tok, amount).0.tokens == (if v.tokens.contains(tok) {
            v.tokens
        } else {
            v.tokens.push(tok)
        }),
{
    if !v.tokens.contains(tok) {
        let m = v.balances.entries;
        let k = balance_key_bytes(tok, to@);
        let nb = crate::external_client::transition::saturating_sum(or_zero(balance_of(v, to, tok)), amount);
        assert(mint_effect(v, to, tok, amount).0.balances.entries == m.insert(k, nb));
        lemma_supply_insert(m, accts, t, k, nb);
        if tok == t {
            let i = choose|i: int| 0 <= i < accts.len() && (#[trigger] accts[i])@ == to@;
            assert(key_listed(accts, t, k));
            lemma_supply_bounds(m, accts, t, to, to);
        } else {
            assert(!key_listed(accts, t, k)) by {
                if key_listed(accts, t, k) {
                    let i = choose|i: int| 0 <= i < accts.len() && balance_key_bytes(t, (#[trigger] accts[i])@) == k;
                    law_balance_keys_are_distinct(t, accts[i], tok, to);
                }
            }
        }
    }
}

/// A transfer that goes through keeps the total of every token: of its
/// own token it moves value between two listed accounts only (without
/// saturating, the total being in range), and other tokens' balances it
/// does not touch.
proof fn lemma_transfer_supply(
    v: StateView,
    from: AccountId,
    to: AccountId,
    tok: TokenId,
    amount: u64,
    accts: Seq<AccountId>,
    t: TokenId,
)
    requires
        distinct_accounts(accts),
        transfer_effect(v, from, to, tok, amount).1,
        tok == t ==> from@ != to@ && lists_account(accts, from) && lists_account(accts, to),
        supply_of(v.balances.entries, accts, t) <= u64::MAX,
    ensures
        supply_of(transfer_effect(v, from, to, tok, amount).0.balances.entries, accts, t)
            == supply_of(v.balances.entries, accts, t),
        transfer_effect(v, from, to, tok, amount).0.tokens == v.tokens,
{
    let m = v.balances.entries;
    if v.tokens.contains(tok) && or_zero(balance_of(v, from, tok)) >= amount {
        let kf = balance_key_bytes(tok, from@);
        let kt = balance_key_bytes(tok, to@);
        let hf = or_zero(balance_of(v, from, tok));
        let ht = or_zero(balance_of(v, to, tok));
        let r1 = balance_read(v, from, tok);
        let r2 = balance_read(r1.0, to, tok);
        assert(r2.0.balances.entries == m);
        assert(r2.1 == balance_of(v, to, tok));
        let w1 = balance_write(r2.0, from, tok, (hf - amount) as u64);
        assert(w1.1);
        let m1 = m.insert(kf, (hf - amount) as u64);
        assert(w1.0.balances.entries == m1);
        let y = crate::external_client::transition::saturating_sum(ht, amount);
        assert(transfer_effect(v, from, to, tok, amount).0.balances.entries == m1.insert(kt, y));
        lemma_supply_insert(m, accts, t, kf, (hf - amount) as u64);
        lemma_supply_insert(m1, accts, t, kt, y);
        if tok == t {
            law_balance_keys_are_distinct(tok, from, tok, to);
            lemma_supply_bounds(m, accts, t, from, to);
            let i = choose|i: int| 0 <= i < accts.len() && (#[trigger] accts[i])@ == from@;
            let j = choose|j: int| 0 <= j < accts.len() && (#[trigger] accts[j])@ == to@;
            assert(key_listed(accts, t, kf));
            assert(key_listed(accts, t, kt));
            assert(held(m1, kt) == ht);
        } else {
            assert(!key_listed(accts, t, kf)) by {
                if key_listed(accts, t, kf) {
                    let i = choose|i: int| 0 <= i < accts.len() && balance_key_bytes(t, (#[trigger] accts[i])@) == kf;
                    law_balance_keys_are_distinct(t, accts[i], tok, from);
                }
            }
            assert(!key_listed(accts, t, kt)) by {
                if key_listed(accts, t, kt) {
                    let i = choose|i: int| 0 <= i < accts.len() && balance_key_bytes(t, (#[trigger] accts[i])@) == kt;
                    law_balance_keys_are_distinct(t, accts[i], tok, to);
                }
            }
        }
    }
}

/// The amount of token `t` that the first mint of `t` in a positive amount
/// in `ops` mints: zero when there is none.
pub open spec fn minted_in(ops: Seq<SignedOperation>, t: TokenId) -> int
    decreases ops.len(),
{
    if ops.len() == 0 {
        0
    } else {
        let m = minted_in(ops.drop_last(), t);
        if m > 0 {
            m
        } else {
            match ops.last().operation {
                Operation::Mint { token_id, amount, .. } => if token_id == t {
                    amount as int
                } else {
                    0
                },
                Operation::Transfer { .. } => 0,
            }
        }
    }
}

/// What a batch adds to the total of token `t`: the amount of its first
/// mint of `t`, when `t` is not known before it.
pub open spec fn minted(v: StateView, ops: Seq<SignedOperation>, t: TokenId) -> int {
    if v.tokens.contains(t) {
        0
    } else {
        minted_in(ops, t)
    }
}

/// Every account that an operation on token `t` names is listed.
pub open spec fn names_listed(op: Operation, accts: Seq<AccountId>, t: TokenId) -> bool {
    match op {
        Operation::Mint { to, token_id, .. } => token_id == t ==> lists_account(accts, to),
        Operation::Transfer { from, to, token_id, .. } => token_id == t ==> lists_account(accts, from)
            && lists_account(accts, to),
    }
}

/// Every netted transfer of token `t` is between two distinct listed
/// accounts.
pub open spec fn staged_listed(s: Staged, accts: Seq<AccountId>, t: TokenId) -> bool {
    forall|i: int|
        0 <= i < s.len() && (#[trigger] s[i]).0.0 == t ==> ((s[i].0).1).0@ != ((s[i].0).1).1@
            && lists_account(accts, ((s[i].0).1).0) && lists_account(accts, ((s[i].0).1).1)
}

/// Applying a batch's operations adds to the total of `t` what it mints of
/// `t`, knows `t` exactly when it was known or was minted, and nets
/// transfers of `t` between listed accounts only.
proof fn lemma_ops_supply(v: StateView, ops: Seq<SignedOperation>, accts: Seq<AccountId>, t: TokenId)
    requires
        distinct_accounts(accts),
        forall|i: int| 0 <= i < ops.len() ==> names_listed((#[trigger] ops[i]).operation, accts, t),
        supply_of(v.balances.entries, accts, t) + minted(v, ops, t) <= u64::MAX,
    ensures
        minted_in(ops, t) >= 0,
        transition_ops(v, ops) matches Ok(acc) ==> {
            &&& supply_of(acc.0.balances.entries, accts, t) == supply_of(v.balances.entries, accts, t)
                + minted(v, ops, t)
            &&& (acc.0.tokens.contains(t) <==> (v.tokens.contains(t) || minted_in(ops, t) > 0))
            &&& staged_listed(acc.1, accts, t)
        },
    decreases ops.len(),
{
    if ops.len() > 0 {
        let init = ops.drop_last();
        assert forall|i: int| 0 <= i < init.len() implies names_listed((#[trigger] init[i]).operation, accts, t) by {
            assert(init[i] == ops[i]);
        }
        lemma_ops_supply(v, init, accts, t);
        assert(names_listed(ops[ops.len() - 1].operation, accts, t));
        if let Ok(acc) = transition_ops(v, ops) {
            let prev = transition_ops(v, init)->Ok_0;
            if accts.len() > 0 {
                assert(lists_account(accts, accts[0]));
                lemma_supply_bounds(v.balances.entries, accts, t, accts[0], accts[0]);
            }
            match ops.last().operation {
                Operation::Mint { to, token_id, amount } => {
                    if amount != 0 {
                        lemma_mint_supply(prev.0, to, token_id, amount, accts, t);
                        if token_id == t && !prev.0.tokens.contains(t) {
                            assert(acc.0.tokens == prev.0.tokens.push(t));
                            assert(acc.0.tokens[prev.0.tokens.len() as int] == t);
                        } else if !prev.0.tokens.contains(token_id) {
                            assert(acc.0.tokens == prev.0.tokens.push(token_id));
                            if acc.0.tokens.contains(t) {
                                let j = choose|j: int| 0 <= j < acc.0.tokens.len() && acc.0.tokens[j] == t;
                                assert(prev.0.tokens[j] == t);
                            }
                            if prev.0.tokens.contains(t) {
                                let j = choose|j: int| 0 <= j < prev.0.tokens.len() && prev.0.tokens[j] == t;
                                assert(acc.0.tokens[j] == t);
                            }
                        }
                    }
                },
                Operation::Transfer { from, to, token_id, amount } => {
                    if !(!ed25519_key_decodes(from@) || amount == 0 || from@ == to@) {
                        let c = canonical_form(from, to, token_id, amount);
                        lemma_stage_add_keys(prev.1, c.0, c.1);
                        assert forall|i: int|
                            0 <= i < acc.1.len() && (#[trigger] acc.1[i]).0.0 == t implies ((acc.1[i].0).1).0@
                            != ((acc.1[i].0).1).1@ && lists_account(accts, ((acc.1[i].0).1).0)
                            && lists_account(accts, ((acc.1[i].0).1).1) by {
                            if acc.1[i].0 != c.0 {
                                let m = choose|m: int| 0 <= m < prev.1.len() && prev.1[m].0 == acc.1[i].0;
                                assert(prev.1[m].0.0 == t);
                            }
                        }
                    }
                },
            }
        }
    } else {
        assert(minted_in(ops, t) == 0);
    }
}

/// Settling netted transfers keeps the total of `t`, where each transfer
/// of `t` is between two distinct listed accounts and the total is in
/// range.
proof fn lemma_settle_supply(v: StateView, s: Staged, accts: Seq<AccountId>, t: TokenId)
    requires
        distinct_accounts(accts),
        staged_listed(s, accts, t),
        supply_of(v.balances.entries, accts, t) <= u64::MAX,
    ensures
        settle(v, s) matches Ok(w) ==> supply_of(w.balances.entries, accts, t) == supply_of(
            v.balances.entries,
            accts,
            t,
        ),
    decreases s.len(),
{
    if s.len() > 0 {
        let init = s.drop_last();
        assert forall|i: int| 0 <= i < init.len() && (#[trigger] init[i]).0.0 == t implies ((init[i].0).1).0@
            != ((init[i].0).1).1@ && lists_account(accts, ((init[i].0).1).0) && lists_account(
            accts,
            ((init[i].0).1).1,
        ) by {
            assert(init[i] == s[i]);
        }
        lemma_settle_supply(v, init, accts, t);
        if let Ok(w) = settle(v, s) {
            let v1 = settle(v, init)->Ok_0;
            let key = s.last().0;
            let net = s.last().1;
            assert(s[s.len() - 1] == s.last());
            if net > 0 {
                lemma_transfer_supply(v1, (key.1).0, (key.1).1, key.0, net as u64, accts, t);
            } else if net < 0 {
                lemma_transfer_supply(v1, (key.1).1, (key.1).0, key.0, (-net) as u64, accts, t);
            }
        }
    }
}

/// A state transition conserves each token's supply: over any list of
/// distinct accounts that names every account the batch's operations on
/// token `t` name, the total of `t` after the transition is the total
/// before plus what the batch mints of `t` (the amount of its first mint
/// of `t`, when `t` was not known before), provided that this sum is a
/// balance (so that no credit saturates). Transfers only move value
/// between accounts, and a token is minted once.
pub proof fn law_transition_conserves_supply(
    v: StateView,
    ops: Seq<SignedOperation>,
    accts: Seq<AccountId>,
    t: TokenId,
    w: StateView,
)
    requires
        distinct_accounts(accts),
        forall|i: int| 0 <= i < ops.len() ==> names_listed((#[trigger] ops[i]).operation, accts, t),
        supply_of(v.balances.entries, accts, t) + minted(v, ops, t) <= u64::MAX,
        transition(v, ops) == Ok::<StateView, LedgerError>(w),
    ensures
        supply_of(w.balances.entries, accts, t) == supply_of(v.balances.entries, accts, t) + minted(
            v,
            ops,
            t,
        ),
{
    lemma_ops_supply(v, ops, accts, t);
    let acc = transition_ops(v, ops)->Ok_0;
    lemma_settle_supply(acc.0, acc.1, accts, t);
}

/// The mints of a batch, in order, without their signatures.
pub open spec fn mints_of(ops: Seq<SignedOperation>) -> Seq<Operation>
    decreases ops.len(),
{
    if ops.len() == 0 {
        Seq::empty()
    } else if ops.last().operation is Mint {
        mints_of(ops.drop_last()).push(ops.last().operation)
    } else {
        mints_of(ops.drop_last())
    }
}

/// The transfers of a batch, in order, without their signatures.
pub open spec fn transfers_of(ops: Seq<SignedOperation>) -> Seq<Operation>
    decreases ops.len(),
{
    if ops.len() == 0 {
        Seq::empty()
    } else if ops.last().operation is Transfer {
        transfers_of(ops.drop_last()).push(ops.last().operation)
    } else {
        transfers_of(ops.drop_last())
    }
}

/// Whether an operation is a transfer that a batch nets (one that it does
/// not skip) under the key `k`.
pub open spec fn nets_key(op: Operation, k: TransferKey) -> bool {
    match op {
        Operation::Transfer { from, to, token_id, amount } => !skipped(op) && canonical_form(
            from,
            to,
            token_id,
            amount,
        ).0 == k,
        Operation::Mint { .. } => false,
    }
}

/// What an operation adds to the net amount of key `k`.
pub open spec fn contribution(op: Operation, k: TransferKey) -> int {
    match op {
        Operation::Transfer { from, to, token_id, amount } => if nets_key(op, k) {
            canonical_form(from, to, token_id, amount).1
        } else {
            0
        },
        Operation::Mint { .. } => 0,
    }
}

/// The net amount of key `k` over a list of operations.
pub open spec fn net_total(ts: Seq<Operation>, k: TransferKey) -> int
    decreases ts.len(),
{
    if ts.len() == 0 {
        0
    } else {
        net_total(ts.drop_last(), k) + contribution(ts.last(), k)
    }
}

/// Whether some operation of `ts` is netted under `k`.
pub open spec fn netted_key(ts: Seq<Operation>, k: TransferKey) -> bool {
    exists|i: int| 0 <= i < ts.len() && nets_key(#[trigger] ts[i], k)
}

/// Applying the mints of a batch, in order, to a state.
pub open spec fn mint_run(v: StateView, ms: Seq<Operation>) -> Result<StateView, LedgerError>
    decreases ms.len(),
{
    if ms.len() == 0 {
        Ok(v)
    } else {
        match mint_run(v, ms.drop_last()) {
            Ok(w) => match transition_step((w, Seq::empty()), ms.last()) {
                Ok(r) => Ok(r.0),
                Err(e) => Err(e),
            },
            Err(e) => Err(e),
        }
    }
}

/// The state that a batch's operations leave is the one that its mints
/// alone leave.
proof fn lemma_mint_part(v: StateView, ops: Seq<SignedOperation>)
    ensures
        transition_ops(v, ops) matches Ok(acc) ==> mint_run(v, mints_of(ops)) == Ok::<
            StateView,
            LedgerError,
        >(acc.0),
    decreases ops.len(),
{
    if ops.len() > 0 {
        let init = ops.drop_last();
        lemma_mint_part(v, init);
        let op = ops.last().operation;
        if op is Mint {
            assert(mints_of(ops) == mints_of(init).push(op));
            assert(mints_of(ops).drop_last() =~= mints_of(init));
        } else {
            assert(mints_of(ops) == mints_of(init));
        }
    }
}

/// The netted list that a batch's operations leave is ordered, holds the
/// keys of the transfers it nets, and the net amount of each key.
proof fn lemma_staged_part(v: StateView, ops: Seq<SignedOperation>)
    ensures
        transition_ops(v, ops) matches Ok(acc) ==> netting_ordered(acc.1) && (forall|k: TransferKey|
            has_key(acc.1, k) == netted_key(transfers_of(ops), k)) && (forall|k: TransferKey|
            net_of(acc.1, k) == net_total(transfers_of(ops), k)),
    decreases ops.len(),
{
    lemma_transition_ops_ordered(v, ops);
    if ops.len() > 0 {
        let init = ops.drop_last();
        lemma_staged_part(v, init);
        let op = ops.last().operation;
        let ti = transfers_of(init);
        if let Ok(acc) = transition_ops(v, ops) {
            let prev = transition_ops(v, init)->Ok_0;
            if op is Transfer {
                let t = ti.push(op);
                assert(transfers_of(ops) == t);
                assert(t.drop_last() =~= ti);
                assert forall|k: TransferKey| netted_key(t, k) == (netted_key(ti, k) || nets_key(op, k)) by {
                    if netted_key(ti, k) {
                        let i = choose|i: int| 0 <= i < ti.len() && nets_key(#[trigger] ti[i], k);
                        assert(t[i] == ti[i]);
                    }
                    if nets_key(op, k) {
                        assert(t[ti.len() as int] == op);
                    }
                    if netted_key(t, k) {
                        let i = choose|i: int| 0 <= i < t.len() && nets_key(#[trigger] t[i], k);
                        if i < ti.len() {
                            assert(t[i] == ti[i]);
                        }
                    }
                }
                match op {
                    Operation::Transfer { from, to, token_id, amount } => {
                        if !skipped(op) {
                            let c = canonical_form(from, to, token_id, amount);
                            assert forall|k: TransferKey| has_key(acc.1, k) == netted_key(t, k)
                                && net_of(acc.1, k) == net_total(t, k) by {
                                law_netting_adds(prev.1, c.0, c.1, k);
                                lemma_stage_add_has_keys(prev.1, c.0, c.1, k);
                            }
                        }
                    },
                    Operation::Mint { .. } => {},
                }
            } else {
                assert(transfers_of(ops) == ti);
            }
        }
    }
}

/// A net amount over a list is the net amount without one of its
/// operations plus what that operation adds.
proof fn lemma_net_total_remove(ts: Seq<Operation>, j: int, k: TransferKey)
    requires
        0 <= j < ts.len(),
    ensures
        net_total(ts, k) == net_total(ts.remove(j), k) + contribution(ts[j], k),
    decreases ts.len(),
{
    if j == ts.len() - 1 {
        assert(ts.remove(j) =~= ts.drop_last());
    } else {
        lemma_net_total_remove(ts.drop_last(), j, k);
        assert(ts.remove(j).drop_last() =~= ts.drop_last().remove(j));
        assert(ts.remove(j).last() == ts.last());
    }
}

/// Net amounts, and which keys are netted, do not depend on the order of
/// the operations.
proof fn lemma_netting_order_free(t1: Seq<Operation>, t2: Seq<Operation>, k: TransferKey)
    requires
        t1.to_multiset() == t2.to_multiset(),
    ensures
        net_total(t1, k) == net_total(t2, k),
        netted_key(t1, k) == netted_key(t2, k),
    decreases t1.len(),
{
    broadcast use vstd::multiset::group_multiset_axioms;

    t1.to_multiset_ensures();
    t2.to_multiset_ensures();
    if netted_key(t1, k) {
        let i = choose|i: int| 0 <= i < t1.len() && nets_key(#[trigger] t1[i], k);
        assert(t1.contains(t1[i]));
        assert(t1.to_multiset().count(t1[i]) > 0);
        assert(t2.to_multiset().count(t1[i]) > 0);
        assert(t2.contains(t1[i]));
    }
    if netted_key(t2, k) {
        let i = choose|i: int| 0 <= i < t2.len() && nets_key(#[trigger] t2[i], k);
        assert(t2.contains(t2[i]));
        assert(t2.to_multiset().count(t2[i]) > 0);
        assert(t1.to_multiset().count(t2[i]) > 0);
        assert(t1.contains(t2[i]));
    }
    if t1.len() == 0 {
        assert(t2.len() == 0);
    } else {
        let x = t1.last();
        let d = t1.drop_last();
        assert(t1 =~= d.push(x));
        d.to_multiset_ensures();
        assert(t1.to_multiset() =~= d.to_multiset().insert(x));
        assert(t1[t1.len() - 1] == x);
        assert(t1.contains(x));
        assert(t1.to_multiset().count(x) > 0);
        assert(t2.to_multiset().count(x) > 0);
        assert(t2.contains(x));
        let j = choose|j: int| 0 <= j < t2.len() && t2[j] == x;
        assert(t2.remove(j).to_multiset() =~= t2.to_multiset().remove(x));
        assert(d.to_multiset().insert(x).remove(x) =~= d.to_multiset());
        lemma_netting_order_free(d, t2.remove(j), k);
        lemma_net_total_remove(t2, j, k);
    }
}

/// Transfers are netted and settled after all mints, so their order does
/// not matter: two batches with the same mints in the same order and the
/// same transfers in any order (transfers may also move across mints), both
/// of whose operations go through (netting in either order stays within
/// the range of `i64`), have the same outcome.
pub proof fn law_transfers_move_anywhere(
    v: StateView,
    ops1: Seq<SignedOperation>,
    ops2: Seq<SignedOperation>,
)
    requires
        mints_of(ops1) == mints_of(ops2),
        transfers_of(ops1).to_multiset() == transfers_of(ops2).to_multiset(),
        transition_ops(v, ops1) is Ok,
        transition_ops(v, ops2) is Ok,
    ensures
        transition(v, ops1) == transition(v, ops2),
{
    let acc1 = transition_ops(v, ops1)->Ok_0;
    let acc2 = transition_ops(v, ops2)->Ok_0;
    lemma_mint_part(v, ops1);
    lemma_mint_part(v, ops2);
    lemma_staged_part(v, ops1);
    lemma_staged_part(v, ops2);
    assert forall|k: TransferKey| has_key(acc1.1, k) <==> has_key(acc2.1, k) by {
        lemma_netting_order_free(transfers_of(ops1), transfers_of(ops2), k);
    }
    assert forall|k: TransferKey| net_of(acc1.1, k) == net_of(acc2.1, k) by {
        lemma_netting_order_free(transfers_of(ops1), transfers_of(ops2), k);
    }
    lemma_netting_unique(acc1.1, acc2.1);
    assert(acc1 == acc2);
}

/// Storing a pair puts at the key's leaf the digest of the value's hash
/// followed by the key bytes, so the leaf commits to the key as well as to
/// the value.
pub proof fn law_stored_leaf_commits_to_key<V: MerkleValue>(t: StateTreeView<V>, k: Seq<u8>, v: V)
    requires
        !slot_taken(t, k),
    ensures
        set_effect(t, k, v).1,
        node_of(set_effect(t, k, v).0.tree.hashes, key_index(k) as int) == digest_of(
            v.merkle_spec() + k,
        ),
        set_effect(t, k, v).0.entries == t.entries.insert(k, v),
{
    lemma_key_index_in_tree(k);
    law_tree_insert_sets_leaf(t.tree, key_index(k), crate::external_client::state_tree::value_digest(v, k));
}

/// Setting a balance puts at its key's leaf the digest of the balance's
/// eight little-endian bytes and 24 zero bytes, followed by the balance
/// key (the token's four little-endian bytes, then the account).
pub proof fn law_balance_leaf_hash(v: StateView, account: AccountId, token_id: TokenId, b: u64)
    requires
        balance_write(v, account, token_id, b).1,
    ensures
        ({
            let k = balance_key_bytes(token_id, account@);
            &&& node_of(balance_write(v, account, token_id, b).0.balances.tree.hashes, key_index(k) as int)
                == digest_of(le_bytes(b as nat, 8) + zeros(24) + le_bytes(token_id as nat, 4) + account@)
            &&& k == le_bytes(token_id as nat, 4) + account@
        }),
{
    let k = balance_key_bytes(token_id, account@);
    law_stored_leaf_commits_to_key(v.balances, k, b);
    assert(le_bytes(b as nat, 8) + zeros(24) + k =~= le_bytes(b as nat, 8) + zeros(24) + le_bytes(
        token_id as nat,
        4,
    ) + account@);
}

/// The state root combines the balances tree's root node with the digest
/// of the known tokens (each as four little-endian bytes and 28 zero
/// bytes, concatenated): the digest of both side by side, or the one that
/// is not the zero hash when the other is.
pub proof fn law_state_root_commits_to_tokens(v: StateView)
    ensures
        ({
            let b = node_of(v.balances.tree.hashes, ROOT_INDEX as int);
            let t = if v.tokens.len() == 0 {
                zero_hash()
            } else {
                blake2b_512(
                    flatten(v.tokens.map_values(|id: TokenId| le_bytes(id as nat, 4) + zeros(28))),
                ).take(32)
            };
            &&& b != zero_hash() && t != zero_hash() ==> state_root(v) == digest_of(b + t)
            &&& b == zero_hash() ==> state_root(v) == t
            &&& t == zero_hash() ==> state_root(v) == b
        }),
{
    assert(crate::external_client::state::merkle_concat(v.tokens) =~= v.tokens.map_values(
        |id: TokenId| le_bytes(id as nat, 4) + zeros(28),
    ));
}

/// Refinement passes on every mint of a positive amount, whoever receives
/// it: the mint joins the validated operations, and nothing else changes.
pub proof fn law_positive_mints_are_kept(
    acc: (Seq<Operation>, Staged),
    to: AccountId,
    token_id: TokenId,
    amount: u64,
)
    requires
        amount > 0,
    ensures
        validate_step(acc, Operation::Mint { to, token_id, amount }) == Some(
            (acc.0.push(Operation::Mint { to, token_id, amount }), acc.1),
        ),
{
}

/// A batch of mints only validates to its mints of positive amounts, in
/// order.
pub proof fn law_mint_batch_keeps_positive_mints(ops: Seq<SignedOperation>)
    requires
        forall|i: int| 0 <= i < ops.len() ==> (#[trigger] ops[i]).operation is Mint,
    ensures
        validated_operations(ops) == Some(
            ops.map_values(|o: SignedOperation| o.operation).filter(
                |op: Operation| op matches Operation::Mint { amount, .. } && amount > 0,
            ),
        ),
    decreases ops.len(),
{
    let f = |op: Operation| op matches Operation::Mint { amount, .. } && amount > 0;
    reveal(Seq::filter);
    let m = ops.map_values(|o: SignedOperation| o.operation);
    if ops.len() == 0 {
        assert(m.filter(f) =~= Seq::<Operation>::empty());
    } else {
        let init = ops.drop_last();
        assert forall|i: int| 0 <= i < init.len() implies (#[trigger] init[i]).operation is Mint by {
            assert(init[i] == ops[i]);
        }
        law_mint_batch_keeps_positive_mints(init);
        assert(m.drop_last() =~= init.map_values(|o: SignedOperation| o.operation));
        assert(m.last() == ops.last().operation);
        assert(ops[ops.len() - 1].operation is Mint);
        let acc = validate_all(init)->Some_0;
        assert(acc.1 == Seq::<(TransferKey, i64)>::empty()) by {
            lemma_mint_batch_stages_nothing(init);
        }
        lemma_mint_batch_stages_nothing(ops);
        assert(acc.0 + Seq::<Operation>::empty() =~= acc.0);
        let acc2 = validate_all(ops)->Some_0;
        assert(acc2.0 + Seq::<Operation>::empty() =~= acc2.0);
    }
}

/// A batch of mints only validates and nets no transfer.
proof fn lemma_mint_batch_stages_nothing(ops: Seq<SignedOperation>)
    requires
        forall|i: int| 0 <= i < ops.len() ==> (#[trigger] ops[i]).operation is Mint,
    ensures
        validate_all(ops) matches Some(acc) && acc.1 == Seq::<(TransferKey, i64)>::empty(),
    decreases ops.len(),
{
    if ops.len() > 0 {
        let init = ops.drop_last();
        assert forall|i: int| 0 <= i < init.len() implies (#[trigger] init[i]).operation is Mint by {
            assert(init[i] == ops[i]);
        }
        lemma_mint_batch_stages_nothing(init);
        assert(ops[ops.len() - 1].operation is Mint);
    }
}

/// Inserting into the rollup store a pair whose leaf is free puts at the
/// key's leaf the digest of the value's hash followed by the key bytes,
/// and stores the pair.
pub proof fn law_rollup_leaf_commits_to_key<V: MerkleValue>(
    t: crate::rollup::state::StateTreeView<V>,
    k: Seq<u8>,
    v: V,
)
    requires
        !crate::rollup::state::slot_taken(t, k),
        t.nodes.len() == TREE_HASHES,
    ensures
        crate::rollup::state::insert_effect(t, k, v).1,
        crate::rollup::state::insert_effect(t, k, v).0.nodes[key_index(k) as int] == digest_of(
            v.merkle_spec() + k,
        ),
        crate::rollup::state::insert_effect(t, k, v).0.entries == t.entries.insert(k, v),
{
    lemma_key_index_in_tree(k);
    law_rollup_insert_is_merkle(t.nodes, key_index(k), crate::external_client::state_tree::value_digest(v, k));
}

} // verus!
