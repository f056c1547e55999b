//! How a store's tree commits to the pairs it holds: every node holds the
//! hash that the leaves give it, each pair's hash sitting at its key's
//! leaf. Storing pairs keeps a store
//! committed; a committed store restores each of its pairs, and its root is
//! determined by its pairs alone.
use vstd::prelude::*;
use crate::external_client::merkle::{
    access_walk, insert_walk, node_of, read_node, sibling, write_node, TreeView,
};
use crate::external_client::state_tree::{
    get_effect, set_effect, slot_taken, value_digest, MerkleValue, StateTreeView,
};
use crate::hashing::{key_index, lemma_key_index_in_tree, zero_hash};

verus! {

/// The hash of node `k` (the zero hash when absent).
pub open spec fn hash_at(m: Map<u16, Seq<u8>>, k: u16) -> Seq<u8> {
    if m.contains_key(k) {
        m[k]
    } else {
        zero_hash()
    }
}

/// The store holds the pair `kv`, and storing it again leaves the hash of
/// every node of its tree as it is: its tree commits to the pair along its
/// path.
pub open spec fn restores<V: MerkleValue>(t: StateTreeView<V>, kv: (Seq<u8>, V)) -> bool {
    &&& t.entries.contains_key(kv.0)
    &&& t.entries[kv.0] == kv.1
    &&& forall|n: u16|
        #[trigger] hash_at(
            insert_walk(t.tree, 0, 32768, key_index(kv.0) as int, value_digest(kv.1, kv.0)).hashes,
            n,
        ) == hash_at(t.tree.hashes, n)
}

/// The number of nodes at height `h` (the 2^15 leaves at height 0, the
/// root alone at height 15).
pub open spec fn level_size(h: nat) -> int
    decreases h,
{
    if h == 0 {
        32768
    } else {
        level_size((h - 1) as nat) / 2
    }
}

/// The first node at height `h`.
pub open spec fn level_offset(h: nat) -> int
    decreases h,
{
    if h == 0 {
        0
    } else {
        level_offset((h - 1) as nat) + level_size((h - 1) as nat)
    }
}

/// The node at position `pos` of height `h`.
pub open spec fn node_index(h: nat, pos: int) -> u16 {
    (level_offset(h) + pos) as u16
}

/// The position at height `h` on the path from leaf `ix`.
pub open spec fn above(ix: int, h: nat) -> int
    decreases h,
{
    if h == 0 {
        ix
    } else {
        above(ix, (h - 1) as nat) / 2
    }
}

proof fn lemma_level_table()
    ensures
        level_size(0) == 32768,
        level_offset(0) == 0,
        level_size(1) == 16384,
        level_offset(1) == 32768,
        level_size(2) == 8192,
        level_offset(2) == 49152,
        level_size(3) == 4096,
        level_offset(3) == 57344,
        level_size(4) == 2048,
        level_offset(4) == 61440,
        level_size(5) == 1024,
        level_offset(5) == 63488,
        level_size(6) == 512,
        level_offset(6) == 64512,
        level_size(7) == 256,
        level_offset(7) == 65024,
        level_size(8) == 128,
        level_offset(8) == 65280,
        level_size(9) == 64,
        level_offset(9) == 65408,
        level_size(10) == 32,
        level_offset(10) == 65472,
        level_size(11) == 16,
        level_offset(11) == 65504,
        level_size(12) == 8,
        level_offset(12) == 65520,
        level_size(13) == 4,
        level_offset(13) == 65528,
        level_size(14) == 2,
        level_offset(14) == 65532,
        level_size(15) == 1,
        level_offset(15) == 65534,
{
    assert(level_size(0) == 32768);
    assert(level_offset(0) == 0);
    assert(level_size(1) == 16384);
    assert(level_offset(1) == 32768);
    assert(level_size(2) == 8192);
    assert(level_offset(2) == 49152);
    assert(level_size(3) == 4096);
    assert(level_offset(3) == 57344);
    assert(level_size(4) == 2048);
    assert(level_offset(4) == 61440);
    assert(level_size(5) == 1024);
    assert(level_offset(5) == 63488);
    assert(level_size(6) == 512);
    assert(level_offset(6) == 64512);
    assert(level_size(7) == 256);
    assert(level_offset(7) == 65024);
    assert(level_size(8) == 128);
    assert(level_offset(8) == 65280);
    assert(level_size(9) == 64);
    assert(level_offset(9) == 65408);
    assert(level_size(10) == 32);
    assert(level_offset(10) == 65472);
    assert(level_size(11) == 16);
    assert(level_offset(11) == 65504);
    assert(level_size(12) == 8);
    assert(level_offset(12) == 65520);
    assert(level_size(13) == 4);
    assert(level_offset(13) == 65528);
    assert(level_size(14) == 2);
    assert(level_offset(14) == 65532);
    assert(level_size(15) == 1);
    assert(level_offset(15) == 65534);
}

pub(crate) proof fn lemma_level_values(h: nat)
    requires
        h <= 15,
    ensures
        level_size(h) >= 1,
        level_offset(h) >= 0,
        level_offset(h) + level_size(h) <= 65535,
        h < 15 ==> level_size(h) == 2 * level_size(h + 1) && level_offset(h + 1) == level_offset(h)
            + level_size(h),
        h == 15 ==> level_size(h) == 1 && level_offset(h) == 65534,
        h == 0 ==> level_size(h) == 32768 && level_offset(h) == 0,
{
    lemma_level_table();
    if h == 0 {
    } else if h == 1 {
    } else if h == 2 {
    } else if h == 3 {
    } else if h == 4 {
    } else if h == 5 {
    } else if h == 6 {
    } else if h == 7 {
    } else if h == 8 {
    } else if h == 9 {
    } else if h == 10 {
    } else if h == 11 {
    } else if h == 12 {
    } else if h == 13 {
    } else if h == 14 {
    } else {
    }
}

/// Levels occupy disjoint, increasing ranges of nodes.
pub(crate) proof fn lemma_levels_disjoint(h1: nat, h2: nat)
    requires
        h1 < h2 <= 15,
    ensures
        level_offset(h1) + level_size(h1) <= level_offset(h2),
    decreases h2 - h1,
{
    lemma_level_values(h1);
    if h1 + 1 < h2 {
        lemma_level_values((h1 + 1) as nat);
        lemma_levels_disjoint((h1 + 1) as nat, h2);
    }
}

/// Distinct positions name distinct nodes.
pub(crate) proof fn lemma_node_index_distinct(h1: nat, p1: int, h2: nat, p2: int)
    requires
        h1 <= 15,
        h2 <= 15,
        0 <= p1 < level_size(h1),
        0 <= p2 < level_size(h2),
        h1 != h2 || p1 != p2,
    ensures
        node_index(h1, p1) != node_index(h2, p2),
{
    lemma_level_values(h1);
    lemma_level_values(h2);
    if h1 < h2 {
        lemma_levels_disjoint(h1, h2);
    } else if h2 < h1 {
        lemma_levels_disjoint(h2, h1);
    }
}

/// The path from a leaf stays within each level.
pub(crate) proof fn lemma_above_bound(ix: int, h: nat)
    requires
        0 <= ix < 32768,
        h <= 15,
    ensures
        0 <= above(ix, h) < level_size(h),
    decreases h,
{
    lemma_level_values(h);
    if h > 0 {
        lemma_above_bound(ix, (h - 1) as nat);
        lemma_level_values((h - 1) as nat);
    }
}

/// The hash at position `pos` of height `h` of the tree whose leaves hold
/// the hashes `l`: the leaf itself at height 0, the combination of its two
/// children above.
pub open spec fn merkle(l: Map<u16, Seq<u8>>, h: nat, pos: int) -> Seq<u8>
    decreases h,
{
    if h == 0 {
        hash_at(l, pos as u16)
    } else {
        crate::hashing::pair_digest(
            merkle(l, (h - 1) as nat, 2 * pos),
            merkle(l, (h - 1) as nat, 2 * pos + 1),
        )
    }
}

/// Every node of the tree `hs` holds the hash that the leaves `l` give it.
pub open spec fn consistent(hs: Map<u16, Seq<u8>>, l: Map<u16, Seq<u8>>) -> bool {
    forall|h: nat, pos: int|
        #![trigger merkle(l, h, pos)]
        h <= 15 && 0 <= pos < level_size(h) ==> hash_at(hs, node_index(h, pos)) == merkle(l, h, pos)
}

/// A store commits to its pairs through the leaves `l`: its tree is
/// consistent with them, and every stored pair sits at a leaf of the tree,
/// which holds the pair's hash.
pub open spec fn commits<V: MerkleValue>(t: StateTreeView<V>, l: Map<u16, Seq<u8>>) -> bool {
    &&& consistent(t.tree.hashes, l)
    &&& forall|k: Seq<u8>| #[trigger]
        t.entries.contains_key(k) ==> hash_at(l, key_index(k)) == value_digest(t.entries[k], k)
}

/// Changing a leaf changes no hash outside its path.
proof fn lemma_merkle_frame(l: Map<u16, Seq<u8>>, ix: int, v: Seq<u8>, h: nat, pos: int)
    requires
        0 <= ix < 32768,
        h <= 15,
        0 <= pos < level_size(h),
        above(ix, h) != pos,
    ensures
        merkle(l.insert(ix as u16, v), h, pos) == merkle(l, h, pos),
    decreases h,
{
    lemma_level_values(h);
    if h > 0 {
        lemma_level_values((h - 1) as nat);
        lemma_merkle_frame(l, ix, v, (h - 1) as nat, 2 * pos);
        lemma_merkle_frame(l, ix, v, (h - 1) as nat, 2 * pos + 1);
    }
}

/// Without leaves, every hash is zero.
proof fn lemma_merkle_empty(h: nat, pos: int)
    ensures
        merkle(Map::<u16, Seq<u8>>::empty(), h, pos) == zero_hash(),
    decreases h,
{
    if h > 0 {
        lemma_merkle_empty((h - 1) as nat, 2 * pos);
        lemma_merkle_empty((h - 1) as nat, 2 * pos + 1);
    }
}

/// Storing the leaf hash `c` of leaf `ix` from height `h` up: where every
/// node off the path, and every node of the path below `h`, already holds
/// the hash that the leaves `l` give, the whole tree ends consistent with
/// `l`, with the path from `h` up stored.
proof fn lemma_walk_consistent(t: TreeView, l: Map<u16, Seq<u8>>, ix: int, h: nat, c: Seq<u8>)
    requires
        0 <= ix < 32768,
        h <= 15,
        c == merkle(l, h, above(ix, h)),
        forall|h2: nat, pos: int|
            #![trigger merkle(l, h2, pos)]
            h2 <= 15 && 0 <= pos < level_size(h2) && (h2 < h || pos != above(ix, h2)) ==> hash_at(
                t.hashes,
                node_index(h2, pos),
            ) == merkle(l, h2, pos),
    ensures
        consistent(insert_walk(t, level_offset(h), level_size(h), above(ix, h), c).hashes, l),
        hash_at(insert_walk(t, level_offset(h), level_size(h), above(ix, h), c).hashes, 65535)
            == hash_at(t.hashes, 65535),
    decreases 15 - h,
{
    lemma_level_values(h);
    lemma_above_bound(ix, h);
    let a = above(ix, h);
    let t1 = write_node(t, level_offset(h) + a, c);
    assert forall|h2: nat, pos: int|
        #![trigger merkle(l, h2, pos)]
        h2 <= 15 && 0 <= pos < level_size(h2) && (h2 <= h || pos != above(ix, h2)) implies hash_at(
            t1.hashes,
            node_index(h2, pos),
        ) == merkle(l, h2, pos) by {
        if h2 == h && pos == a {
        } else {
            lemma_node_index_distinct(h2, pos, h, a);
        }
    }
    if h == 15 {
        assert forall|h2: nat, pos: int|
            #![trigger merkle(l, h2, pos)]
            h2 <= 15 && 0 <= pos < level_size(h2) implies hash_at(t1.hashes, node_index(h2, pos))
            == merkle(l, h2, pos) by {
            lemma_above_bound(ix, h2);
        }
    } else {
        lemma_level_values((h + 1) as nat);
        lemma_above_bound(ix, (h + 1) as nat);
        let offset = level_offset(h);
        let sib = sibling(offset, a);
        let b = if a % 2 == 0 {
            a + 1
        } else {
            a - 1
        };
        assert(sib == level_offset(h) + b);
        assert(0 <= b < level_size(h));
        assert(merkle(l, h, b) == hash_at(t1.hashes, node_index(h, b)));
        let s = node_of(t1.hashes, sib);
        assert(s == hash_at(t1.hashes, node_index(h, b)));
        let up = if a % 2 == 0 {
            crate::hashing::pair_digest(c, s)
        } else {
            crate::hashing::pair_digest(s, c)
        };
        assert(above(ix, (h + 1) as nat) == a / 2);
        assert(up == merkle(l, (h + 1) as nat, a / 2));
        let t2 = read_node(t1, sib);
        lemma_walk_consistent(t2, l, ix, (h + 1) as nat, up);
        assert(level_offset(h) + level_size(h) == level_offset((h + 1) as nat));
        assert(level_size(h) / 2 == level_size((h + 1) as nat));
        assert(insert_walk(t, level_offset(h), level_size(h), a, c) == insert_walk(
            t2,
            level_offset((h + 1) as nat),
            level_size((h + 1) as nat),
            above(ix, (h + 1) as nat),
            up,
        ));
    }
}

/// The empty store commits to no leaf.
pub proof fn law_empty_store_commits<V: MerkleValue>()
    ensures
        commits(crate::external_client::state_tree::empty_store::<V>(), Map::<u16, Seq<u8>>::empty()),
{
    assert forall|h: nat, pos: int|
        #![trigger merkle(Map::<u16, Seq<u8>>::empty(), h, pos)]
        h <= 15 && 0 <= pos < level_size(h) implies hash_at(
            Map::<u16, Seq<u8>>::empty(),
            node_index(h, pos),
        ) == merkle(Map::<u16, Seq<u8>>::empty(), h, pos) by {
        lemma_merkle_empty(h, pos);
    }
}

/// Reading keeps a store's commitment; so does storing a pair, with that
/// pair's hash at its leaf (where the store refuses it, the leaves stay).
pub proof fn law_store_keeps_commitment<V: MerkleValue>(
    t: StateTreeView<V>,
    l: Map<u16, Seq<u8>>,
    k: Seq<u8>,
    v: V,
)
    requires
        commits(t, l),
    ensures
        commits(get_effect(t, k), l),
        commits(
            set_effect(t, k, v).0,
            if set_effect(t, k, v).1 {
                l.insert(key_index(k), value_digest(v, k))
            } else {
                l
            },
        ),
{
    lemma_key_index_in_tree(k);
    lemma_access_walk_hashes(t.tree, 0, 32768, key_index(k) as int);
    {
        if slot_taken(t, k) {
        } else {
            let ix = key_index(k) as int;
            let d = value_digest(v, k);
            let l2 = l.insert(ix as u16, d);
            lemma_level_values(0);
            assert(above(ix, 0) == ix);
            assert forall|h2: nat, pos: int|
                #![trigger merkle(l2, h2, pos)]
                h2 <= 15 && 0 <= pos < level_size(h2) && (h2 < 0 || pos != above(ix, h2))
                    implies hash_at(t.tree.hashes, node_index(h2, pos)) == merkle(l2, h2, pos) by {
                lemma_merkle_frame(l, ix, d, h2, pos);
                assert(merkle(l, h2, pos) == hash_at(t.tree.hashes, node_index(h2, pos)));
            }
            lemma_walk_consistent(t.tree, l2, ix, 0, d);
            let t2 = set_effect(t, k, v).0;
            assert forall|k2: Seq<u8>| #[trigger] t2.entries.contains_key(k2) implies hash_at(
                l2,
                key_index(k2),
            ) == value_digest(t2.entries[k2], k2) by {
                if k2 != k {
                    assert(t.entries.contains_key(k2));
                    assert(key_index(k2) != key_index(k));
                }
            }
        }
    }
}

/// Reading siblings changes no hash.
proof fn lemma_access_walk_hashes(t: TreeView, offset: int, step: int, at: int)
    ensures
        access_walk(t, offset, step, at).hashes == t.hashes,
    decreases step,
{
    if step > 1 {
        lemma_access_walk_hashes(read_node(t, sibling(offset, at)), offset + step, step / 2, at / 2);
    }
}

/// Leaves that hold the same hashes give the same tree.
pub proof fn lemma_merkle_same_leaves(l1: Map<u16, Seq<u8>>, l2: Map<u16, Seq<u8>>, h: nat, pos: int)
    requires
        forall|i: u16| #[trigger] hash_at(l1, i) == hash_at(l2, i),
    ensures
        merkle(l1, h, pos) == merkle(l2, h, pos),
    decreases h,
{
    if h > 0 {
        lemma_merkle_same_leaves(l1, l2, (h - 1) as nat, 2 * pos);
        lemma_merkle_same_leaves(l1, l2, (h - 1) as nat, 2 * pos + 1);
    } else {
        assert(hash_at(l1, pos as u16) == hash_at(l2, pos as u16));
    }
}

/// Every node but the last index sits at some height of the tree.
proof fn lemma_node_position(n: u16)
    requires
        n < 65535,
    ensures
        exists|h: nat, pos: int| h <= 15 && 0 <= pos < level_size(h) && node_index(h, pos) == n,
{
    lemma_level_table();
    let (h, pos): (nat, int) = if n < 32768 {
        (0, n as int)
    } else if n < 49152 {
        (1, n - 32768)
    } else if n < 57344 {
        (2, n - 49152)
    } else if n < 61440 {
        (3, n - 57344)
    } else if n < 63488 {
        (4, n - 61440)
    } else if n < 64512 {
        (5, n - 63488)
    } else if n < 65024 {
        (6, n - 64512)
    } else if n < 65280 {
        (7, n - 65024)
    } else if n < 65408 {
        (8, n - 65280)
    } else if n < 65472 {
        (9, n - 65408)
    } else if n < 65504 {
        (10, n - 65472)
    } else if n < 65520 {
        (11, n - 65504)
    } else if n < 65528 {
        (12, n - 65520)
    } else if n < 65532 {
        (13, n - 65528)
    } else if n < 65534 {
        (14, n - 65532)
    } else {
        (15, n - 65534)
    };
    assert(node_index(h, pos) == n);
}

/// A store that commits to its pairs restores each of them: storing one
/// again changes no node's hash.
pub proof fn lemma_commits_restores<V: MerkleValue>(t: StateTreeView<V>, l: Map<u16, Seq<u8>>, k: Seq<u8>)
    requires
        commits(t, l),
        t.entries.contains_key(k),
    ensures
        restores(t, (k, t.entries[k])),
{
    lemma_key_index_in_tree(k);
    let ix = key_index(k) as int;
    let d = value_digest(t.entries[k], k);
    let l2 = l.insert(ix as u16, d);
    assert forall|i: u16| #[trigger] hash_at(l, i) == hash_at(l2, i) by {}
    lemma_level_values(0);
    assert(above(ix, 0) == ix);
    assert forall|h2: nat, pos: int|
        #![trigger merkle(l2, h2, pos)]
        h2 <= 15 && 0 <= pos < level_size(h2) && (h2 < 0 || pos != above(ix, h2)) implies hash_at(
            t.tree.hashes,
            node_index(h2, pos),
        ) == merkle(l2, h2, pos) by {
        lemma_merkle_same_leaves(l, l2, h2, pos);
        assert(merkle(l, h2, pos) == hash_at(t.tree.hashes, node_index(h2, pos)));
    }
    assert(d == merkle(l2, 0, ix));
    lemma_walk_consistent(t.tree, l2, ix, 0, d);
    let w = insert_walk(t.tree, 0, 32768, ix, d);
    assert forall|n: u16| #[trigger] hash_at(w.hashes, n) == hash_at(t.tree.hashes, n) by {
        if n < 65535 {
            lemma_node_position(n);
            let (h, pos) = choose|h: nat, pos: int|
                h <= 15 && 0 <= pos < level_size(h) && node_index(h, pos) == n;
            lemma_merkle_same_leaves(l, l2, h, pos);
            assert(merkle(l2, h, pos) == hash_at(w.hashes, node_index(h, pos)));
            assert(merkle(l, h, pos) == hash_at(t.tree.hashes, node_index(h, pos)));
        }
    }
}

/// The leaves after storing pairs in turn.
pub open spec fn leaves_after<V: MerkleValue>(l: Map<u16, Seq<u8>>, kvs: Seq<(Seq<u8>, V)>) -> Map<
    u16,
    Seq<u8>,
>
    decreases kvs.len(),
{
    if kvs.len() == 0 {
        l
    } else {
        leaves_after(l.insert(key_index(kvs[0].0), value_digest(kvs[0].1, kvs[0].0)), kvs.drop_first())
    }
}

/// Storing pairs whose leaves are distinct and free in a
/// committed store stores them all and keeps the store committed.
pub proof fn lemma_load_commits<V: MerkleValue>(
    t: StateTreeView<V>,
    l: Map<u16, Seq<u8>>,
    kvs: Seq<(Seq<u8>, V)>,
)
    requires
        commits(t, l),
        forall|a: int, b: int|
            0 <= a < b < kvs.len() ==> key_index((#[trigger] kvs[a]).0) < key_index(
                (#[trigger] kvs[b]).0,
            ),
        forall|k: Seq<u8>, i: int|
            #![trigger t.entries.contains_key(k), kvs[i]]
            t.entries.contains_key(k) && 0 <= i < kvs.len() ==> key_index(k) != key_index(kvs[i].0),
    ensures
        commits(crate::external_client::state_tree::load_pairs(t, kvs), leaves_after(l, kvs)),
    decreases kvs.len(),
{
    if kvs.len() > 0 {
        let k0 = kvs[0].0;
        assert(!slot_taken(t, k0)) by {
            if slot_taken(t, k0) {
                let k2 = choose|k2: Seq<u8>| #[trigger]
                    t.entries.contains_key(k2) && k2 != k0 && key_index(k2) == key_index(k0);
                assert(t.entries.contains_key(k2) && 0 <= 0 < kvs.len());
            }
        }
        law_store_keeps_commitment(t, l, k0, kvs[0].1);
        let t1 = set_effect(t, k0, kvs[0].1).0;
        let l1 = l.insert(key_index(k0), value_digest(kvs[0].1, k0));
        let rest = kvs.drop_first();
        assert forall|a: int, b: int| 0 <= a < b < rest.len() implies key_index(
            (#[trigger] rest[a]).0,
        ) < key_index((#[trigger] rest[b]).0) by {
            assert(rest[a] == kvs[a + 1] && rest[b] == kvs[b + 1]);
        }
        assert forall|k: Seq<u8>, i: int|
            #![trigger t1.entries.contains_key(k), rest[i]]
            t1.entries.contains_key(k) && 0 <= i < rest.len() implies key_index(k) != key_index(
            rest[i].0,
        ) by {
            assert(rest[i] == kvs[i + 1]);
            if k == k0 {
                assert(key_index(kvs[0].0) < key_index(kvs[i + 1].0));
            } else {
                assert(t.entries.contains_key(k));
            }
        }
        lemma_load_commits(t1, l1, rest);
    }
}

/// Storing pairs with distinct leaves sets the hash of each at its leaf,
/// and leaves every other leaf as it was.
pub proof fn lemma_leaves_after<V: MerkleValue>(l: Map<u16, Seq<u8>>, kvs: Seq<(Seq<u8>, V)>, ix: u16)
    requires
        forall|a: int, b: int|
            0 <= a < b < kvs.len() ==> key_index((#[trigger] kvs[a]).0) < key_index(
                (#[trigger] kvs[b]).0,
            ),
    ensures
        forall|i: int|
            0 <= i < kvs.len() ==> hash_at(leaves_after(l, kvs), key_index((#[trigger] kvs[i]).0))
                == value_digest(kvs[i].1, kvs[i].0),
        (forall|i: int| 0 <= i < kvs.len() ==> key_index((#[trigger] kvs[i]).0) != ix) ==> hash_at(
            leaves_after(l, kvs),
            ix,
        ) == hash_at(l, ix),
    decreases kvs.len(),
{
    if kvs.len() > 0 {
        let k0 = kvs[0].0;
        let l1 = l.insert(key_index(k0), value_digest(kvs[0].1, k0));
        let rest = kvs.drop_first();
        assert forall|a: int, b: int| 0 <= a < b < rest.len() implies key_index(
            (#[trigger] rest[a]).0,
        ) < key_index((#[trigger] rest[b]).0) by {
            assert(rest[a] == kvs[a + 1] && rest[b] == kvs[b + 1]);
        }
        lemma_leaves_after(l1, rest, ix);
        lemma_leaves_after(l1, rest, key_index(k0));
        assert forall|i: int| 0 <= i < kvs.len() implies hash_at(
            leaves_after(l, kvs),
            key_index((#[trigger] kvs[i]).0),
        ) == value_digest(kvs[i].1, kvs[i].0) by {
            if i == 0 {
                assert forall|j: int| 0 <= j < rest.len() implies key_index((#[trigger] rest[j]).0)
                    != key_index(k0) by {
                    assert(rest[j] == kvs[j + 1]);
                }
            } else {
                assert(rest[i - 1] == kvs[i]);
            }
        }
        if forall|i: int| 0 <= i < kvs.len() ==> key_index((#[trigger] kvs[i]).0) != ix {
            assert(key_index(kvs[0].0) != ix);
            assert forall|j: int| 0 <= j < rest.len() implies key_index((#[trigger] rest[j]).0)
                != ix by {
                assert(rest[j] == kvs[j + 1]);
            }
        }
    }
}

/// A committed store's root is the root that its leaves give.
pub proof fn lemma_committed_root<V: MerkleValue>(t: StateTreeView<V>, l: Map<u16, Seq<u8>>)
    requires
        commits(t, l),
    ensures
        crate::external_client::merkle::tree_root(t.tree) == merkle(l, 15, 0),
{
    lemma_level_values(15);
    assert(merkle(l, 15, 0) == hash_at(t.tree.hashes, node_index(15, 0)));
}

/// The leaves hold no hash where no stored key sits.
pub open spec fn exact_leaves<V>(t: StateTreeView<V>, l: Map<u16, Seq<u8>>) -> bool {
    forall|ix: u16| #[trigger]
        hash_at(l, ix) != zero_hash() ==> exists|k: Seq<u8>| t.entries.contains_key(k) && key_index(k) == ix
}

/// Reading and storing keep the leaves exact: the empty store's leaves are,
/// and a stored pair's hash goes to its own key's leaf.
pub proof fn law_store_keeps_exact_leaves<V: MerkleValue>(
    t: StateTreeView<V>,
    l: Map<u16, Seq<u8>>,
    k: Seq<u8>,
    v: V,
)
    requires
        exact_leaves(t, l),
    ensures
        exact_leaves(crate::external_client::state_tree::empty_store::<V>(), Map::<u16, Seq<u8>>::empty()),
        exact_leaves(get_effect(t, k), l),
        exact_leaves(
            set_effect(t, k, v).0,
            if set_effect(t, k, v).1 {
                l.insert(key_index(k), value_digest(v, k))
            } else {
                l
            },
        ),
{
    if !slot_taken(t, k) {
        let t2 = set_effect(t, k, v).0;
        let l2 = l.insert(key_index(k), value_digest(v, k));
        assert forall|ix: u16| #[trigger] hash_at(l2, ix) != zero_hash() implies exists|k2: Seq<u8>|
            t2.entries.contains_key(k2) && key_index(k2) == ix by {
            if ix == key_index(k) {
                assert(t2.entries.contains_key(k));
            } else {
                assert(hash_at(l, ix) == hash_at(l2, ix));
                let k2 = choose|k2: Seq<u8>| t.entries.contains_key(k2) && key_index(k2) == ix;
                assert(t2.entries.contains_key(k2) && key_index(k2) == ix);
            }
        }
    }
}

/// A store is committed: its tree commits to its pairs through leaves that
/// hold a hash only where a pair sits.
pub open spec fn committed<V: MerkleValue>(t: StateTreeView<V>) -> bool {
    exists|l: Map<u16, Seq<u8>>| commits(t, l) && exact_leaves(t, l)
}

/// Whether a store is committed depends on its pairs and node hashes only.
pub proof fn lemma_committed_by_hashes<V: MerkleValue>(a: StateTreeView<V>, b: StateTreeView<V>)
    requires
        a.entries == b.entries,
        a.tree.hashes == b.tree.hashes,
    ensures
        committed(a) == committed(b),
{
    if committed(a) {
        let l = choose|l: Map<u16, Seq<u8>>| commits(a, l) && exact_leaves(a, l);
        assert(commits(b, l) && exact_leaves(b, l));
    }
    if committed(b) {
        let l = choose|l: Map<u16, Seq<u8>>| commits(b, l) && exact_leaves(b, l);
        assert(commits(a, l) && exact_leaves(a, l));
    }
}

/// Every store that is built from the empty one by reads and writes is
/// committed: the empty store is, and reading or storing keeps a store
/// committed.
pub proof fn law_stores_stay_committed<V: MerkleValue>(t: StateTreeView<V>, k: Seq<u8>, v: V)
    ensures
        committed(crate::external_client::state_tree::empty_store::<V>()),
        committed(t) ==> committed(get_effect(t, k)) && committed(set_effect(t, k, v).0),
{
    let e = crate::external_client::state_tree::empty_store::<V>();
    law_empty_store_commits::<V>();
    law_store_keeps_exact_leaves(e, Map::<u16, Seq<u8>>::empty(), k, v);
    if committed(t) {
        let l = choose|l: Map<u16, Seq<u8>>| commits(t, l) && exact_leaves(t, l);
        law_store_keeps_commitment(t, l, k, v);
        law_store_keeps_exact_leaves(t, l, k, v);
        let l2 = if set_effect(t, k, v).1 {
            l.insert(key_index(k), value_digest(v, k))
        } else {
            l
        };
        assert(commits(get_effect(t, k), l) && exact_leaves(get_effect(t, k), l));
        assert(commits(set_effect(t, k, v).0, l2) && exact_leaves(set_effect(t, k, v).0, l2));
    }
}

/// Storing pairs in turn into a committed store leaves it committed.
pub proof fn lemma_load_stays_committed<V: MerkleValue>(t: StateTreeView<V>, kvs: Seq<(Seq<u8>, V)>)
    requires
        committed(t),
    ensures
        committed(crate::external_client::state_tree::load_pairs(t, kvs)),
    decreases kvs.len(),
{
    if kvs.len() > 0 {
        law_stores_stay_committed(t, kvs[0].0, kvs[0].1);
        lemma_load_stays_committed(set_effect(t, kvs[0].0, kvs[0].1).0, kvs.drop_first());
    }
}

/// Inserting a hash at a leaf of a tree whose nodes hold what its leaves
/// `l` give them leaves every node holding what the leaves give it once
/// that leaf holds the hash; so the root is the Merkle root of the new
/// leaves.
pub proof fn law_tree_insert_keeps_consistent(t: TreeView, l: Map<u16, Seq<u8>>, ix: u16, c: Seq<u8>)
    requires
        consistent(t.hashes, l),
        ix < 32768,
    ensures
        consistent(crate::external_client::merkle::tree_insert(t, ix, c).hashes, l.insert(ix, c)),
        crate::external_client::merkle::tree_root(crate::external_client::merkle::tree_insert(t, ix, c))
            == merkle(l.insert(ix, c), 15, 0),
{
    let i = ix as int;
    let l2 = l.insert(ix, c);
    lemma_level_values(0);
    assert(above(i, 0) == i);
    assert forall|h2: nat, pos: int|
        #![trigger merkle(l2, h2, pos)]
        h2 <= 15 && 0 <= pos < level_size(h2) && (h2 < 0 || pos != above(i, h2)) implies hash_at(
            t.hashes,
            node_index(h2, pos),
        ) == merkle(l2, h2, pos) by {
        lemma_merkle_frame(l, i, c, h2, pos);
        assert(merkle(l, h2, pos) == hash_at(t.hashes, node_index(h2, pos)));
    }
    lemma_walk_consistent(t, l2, i, 0, c);
    let t2 = crate::external_client::merkle::tree_insert(t, ix, c);
    lemma_level_values(15);
    assert(merkle(l2, 15, 0) == hash_at(t2.hashes, node_index(15, 0)));
}

/// The root of a tree consistent with its leaves depends on the leaves
/// alone: inserting hashes at two distinct leaves, in either order, gives
/// the same root.
pub proof fn law_tree_root_ignores_insertion_order(
    t: TreeView,
    l: Map<u16, Seq<u8>>,
    i: u16,
    a: Seq<u8>,
    j: u16,
    b: Seq<u8>,
)
    requires
        consistent(t.hashes, l),
        i < 32768,
        j < 32768,
        i != j,
    ensures
        crate::external_client::merkle::tree_root(
            crate::external_client::merkle::tree_insert(
                crate::external_client::merkle::tree_insert(t, i, a),
                j,
                b,
            ),
        ) == crate::external_client::merkle::tree_root(
            crate::external_client::merkle::tree_insert(
                crate::external_client::merkle::tree_insert(t, j, b),
                i,
                a,
            ),
        ),
{
    law_tree_insert_keeps_consistent(t, l, i, a);
    law_tree_insert_keeps_consistent(crate::external_client::merkle::tree_insert(t, i, a), l.insert(i, a), j, b);
    law_tree_insert_keeps_consistent(t, l, j, b);
    law_tree_insert_keeps_consistent(crate::external_client::merkle::tree_insert(t, j, b), l.insert(j, b), i, a);
    assert(l.insert(i, a).insert(j, b) =~= l.insert(j, b).insert(i, a));
}

} // verus!
