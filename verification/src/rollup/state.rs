//! The rollup's client-side state: balances in a store committed to by a
//! dense binary Merkle tree over 2^15 leaves, held in memory.
//!
//! Inserting a value stores the value's hash at its leaf and, level by
//! level up to the root, the combination of each node on the path with its
//! sibling.
use vstd::prelude::*;
use std::collections::BTreeMap;
use crate::external_client::state_tree::{value_digest, MerkleValue, Value};
use crate::hashing::{empty_hash, hash_pair, key_index, pair_digest, tree_index_from_key, zero_hash, Hash32, TreeIndex};
use crate::ledger::{balance_key, balance_key_bytes, AccountId, TokenId};
use crate::order::slice_eq;
use crate::encoding::{le_value, prefixed_decode, read_le, read_prefixed};

verus! {

/// The number of nodes of the tree (2^16 - 1).
pub const TREE_HASHES: usize = 65535;

/// Writing `h` at position `at` of the level of `step` nodes that starts at
/// `offset`, then, level by level up to the root, the combination of the
/// running hash with its sibling's hash at the node above.
pub open spec fn path_write(nodes: Seq<Seq<u8>>, offset: int, step: int, at: int, h: Seq<u8>) -> Seq<
    Seq<u8>,
>
    decreases step,
{
    let n1 = nodes.update(offset + at, h);
    if step <= 1 {
        n1
    } else {
        let up = if at % 2 == 0 {
            pair_digest(h, n1[offset + at + 1])
        } else {
            pair_digest(n1[offset + at - 1], h)
        };
        path_write(n1, offset + step, step / 2, at / 2, up)
    }
}

/// Writing along a path keeps the number of nodes.
pub proof fn lemma_path_write_len(nodes: Seq<Seq<u8>>, offset: int, step: int, at: int, h: Seq<u8>)
    requires
        crate::external_client::merkle::is_level_step(step),
        offset == 65536 - 2 * step,
        0 <= at < step,
        nodes.len() == TREE_HASHES,
    ensures
        path_write(nodes, offset, step, at, h).len() == nodes.len(),
    decreases step,
{
    if step > 1 {
        let n1 = nodes.update(offset + at, h);
        let up = if at % 2 == 0 {
            pair_digest(h, n1[offset + at + 1])
        } else {
            pair_digest(n1[offset + at - 1], h)
        };
        lemma_path_write_len(n1, offset + step, step / 2, at / 2, up);
    }
}

/// A dense binary tree over 2^15 leaves.
#[derive(Clone)]
pub struct MerkleTree {
    hashes: Vec<Hash32>,
}

impl View for MerkleTree {
    type V = Seq<Seq<u8>>;

    closed spec fn view(&self) -> Seq<Seq<u8>> {
        self.hashes@.map_values(|h: Hash32| h@)
    }
}

impl MerkleTree {
    /// A tree whose nodes all hold the zero hash.
    pub fn new() -> (t: Self)
        ensures
            t@ == Seq::new(TREE_HASHES as nat, |i: int| zero_hash()),
    {
        let mut hashes: Vec<Hash32> = Vec::with_capacity(TREE_HASHES);
        let mut i: usize = 0;
        while i < TREE_HASHES
            invariant
                i <= TREE_HASHES,
                hashes@.len() == i,
                forall|j: int| 0 <= j < i ==> (#[trigger] hashes@[j])@ == zero_hash(),
            decreases TREE_HASHES - i,
        {
            hashes.push(empty_hash());
            i = i + 1;
        }
        let t = MerkleTree { hashes };
        assert(t@ =~= Seq::new(TREE_HASHES as nat, |i: int| zero_hash()));
        t
    }

    /// The root node's hash.
    pub fn root(&self) -> (h: Hash32)
        requires
            self@.len() == TREE_HASHES,
        ensures
            h@ == self@[TREE_HASHES - 1],
    {
        self.hashes[TREE_HASHES - 1]
    }

    /// Stores `value_hash` at leaf `ix` and updates the nodes on its path,
    /// up to the root.
    pub fn insert(&mut self, ix: TreeIndex, value_hash: Hash32)
        requires
            old(self)@.len() == TREE_HASHES,
            ix < 32768,
        ensures
            final(self)@ == path_write(old(self)@, 0, 32768, ix as int, value_hash@),
    {
        let mut hash: Hash32 = value_hash;
        let mut at: usize = ix as usize;
        let mut offset: usize = 0;
        let mut step: usize = 32768;
        while step > 1
            invariant
                crate::external_client::merkle::is_level_step(step as int),
                offset as int == 65536 - 2 * step,
                (at as int) < step,
                self@.len() == TREE_HASHES,
                path_write(self@, offset as int, step as int, at as int, hash@) == path_write(
                    old(self)@,
                    0,
                    32768,
                    ix as int,
                    value_hash@,
                ),
            decreases step,
        {
            let ghost before = self@;
            self.hashes.set(offset + at, hash);
            assert(self@ =~= before.update(offset + at, hash@));
            if at % 2 == 0 {
                hash = hash_pair(&hash, &self.hashes[offset + at + 1]);
            } else {
                hash = hash_pair(&self.hashes[offset + at - 1], &hash);
            }
            offset = offset + step;
            at = at / 2;
            step = step / 2;
        }
        let ghost before = self@;
        self.hashes.set(offset + at, hash);
        assert(self@ =~= before.update(offset + at, hash@));
    }
}

/// What a rollup store holds: its pairs and its tree's nodes.
pub struct StateTreeView<V> {
    pub entries: Map<Seq<u8>, V>,
    pub nodes: Seq<Seq<u8>>,
}

/// A key/value store whose pairs sit at the leaf their key hashes to.
pub struct StateTree<V> {
    values: BTreeMap<TreeIndex, Value<V>>,
    tree: MerkleTree,
}

impl<V: Copy> View for StateTree<V> {
    type V = StateTreeView<V>;

    closed spec fn view(&self) -> StateTreeView<V> {
        StateTreeView {
            entries: Map::new(
                |k: Seq<u8>|
                    self.values@.contains_key(key_index(k)) && self.values@[key_index(k)].key@
                        == k,
                |k: Seq<u8>| self.values@[key_index(k)].value,
            ),
            nodes: self.tree@,
        }
    }
}

/// Whether another stored key occupies the leaf of `k`.
pub open spec fn slot_taken<V>(t: StateTreeView<V>, k: Seq<u8>) -> bool {
    exists|k2: Seq<u8>| #[trigger]
        t.entries.contains_key(k2) && k2 != k && key_index(k2) == key_index(k)
}

/// The effect of inserting `v` under `k`, and whether it was inserted: not when another key occupies the leaf.
pub open spec fn insert_effect<V: MerkleValue>(t: StateTreeView<V>, k: Seq<u8>, v: V) -> (
    StateTreeView<V>,
    bool,
) {
    if slot_taken(t, k) {
        (t, false)
    } else {
        (
            StateTreeView {
                entries: t.entries.insert(k, v),
                nodes: path_write(t.nodes, 0, 32768, key_index(k) as int, value_digest(v, k)),
            },
            true,
        )
    }
}

impl<V: Copy> StateTree<V> {
    /// Every pair sits at the leaf its key hashes to, and the tree has all
    /// its nodes.
    pub closed spec fn wf(&self) -> bool {
        &&& forall|i: u16| #[trigger]
            self.values@.contains_key(i) ==> key_index(self.values@[i].key@) == i
        &&& self.tree@.len() == TREE_HASHES
    }

    /// An empty store.
    pub fn new() -> (t: Self)
        ensures
            t.wf(),
            t@.entries == Map::<Seq<u8>, V>::empty(),
            t@.nodes == Seq::new(TREE_HASHES as nat, |i: int| zero_hash()),
    {
        let t = StateTree { values: BTreeMap::new(), tree: MerkleTree::new() };
        assert(t@.entries =~= Map::<Seq<u8>, V>::empty());
        t
    }

    /// The value stored under `k`, if any.
    pub fn get(&self, k: &[u8]) -> (r: Option<V>)
        requires
            self.wf(),
        ensures
            r == (if self@.entries.contains_key(k@) {
                Some(self@.entries[k@])
            } else {
                None
            }),
    {
        let ix = tree_index_from_key(k);
        match self.values.get(&ix) {
            Some(v) => {
                if slice_eq(v.key.as_slice(), k) {
                    Some(v.value)
                } else {
                    None
                }
            },
            None => None,
        }
    }

    /// The root hash.
    pub fn root(&self) -> (h: Hash32)
        requires
            self.wf(),
        ensures
            h@ == self@.nodes[TREE_HASHES - 1],
    {
        self.tree.root()
    }

    /// Whether `k` can be stored: no other key occupies the leaf it hashes
    /// to.
    pub fn slot_free(&self, k: &[u8]) -> (r: bool)
        requires
            self.wf(),
        ensures
            r == !slot_taken(self@, k@),
    {
        let ix = tree_index_from_key(k);
        match self.values.get(&ix) {
            Some(existing) => {
                let same = slice_eq(existing.key.as_slice(), k);
                proof {
                    let k2 = self.values@[ix].key@;
                    assert(self@.entries.contains_key(k2));
                }
                same
            },
            None => true,
        }
    }
}

impl<V: MerkleValue + Copy> StateTree<V> {
    /// Stores `v` under `k`; `false` (and nothing changed) when another key
    /// occupies the key's leaf.
    pub fn insert(&mut self, k: Vec<u8>, v: V) -> (ok: bool)
        requires
            old(self).wf(),
        ensures
            final(self).wf(),
            (final(self)@, ok) == insert_effect(old(self)@, k@, v),
    {
        let ix = tree_index_from_key(k.as_slice());
        let mut occupied = false;
        let mut same_key = false;
        match self.values.get(&ix) {
            Some(existing) => {
                occupied = true;
                same_key = slice_eq(existing.key.as_slice(), k.as_slice());
            },
            None => {},
        }
        if occupied && !same_key {
            proof {
                let k2 = self.values@[ix].key@;
                assert(self@.entries.contains_key(k2));
            }
            return false;
        }
        assert(!slot_taken(self@, k@));
        let ghost kv = k@;
        let value = Value { value: v, key: k };
        let h = value.merkle_value();
        proof {
            lemma_path_write_len(self.tree@, 0, 32768, ix as int, h@);
        }
        self.tree.insert(ix, h);
        self.values.insert(ix, value);
        assert(self@.entries =~= old(self)@.entries.insert(kv, v));
        true
    }
}

/// A store's log item at the start of `b`: the key, then the encoding of
/// the value, each length-prefixed; and how many bytes it takes.
pub open spec fn log_item(b: Seq<u8>) -> Option<((Seq<u8>, Seq<u8>), nat)> {
    match prefixed_decode(b) {
        None => None,
        Some(k) => match prefixed_decode(b.skip(k.1 as int)) {
            None => None,
            Some(v) => Some(((k.0, v.0), k.1 + v.1)),
        },
    }
}

/// The items of a log, up to the first one that is cut short.
pub open spec fn log_items(b: Seq<u8>) -> Seq<(Seq<u8>, Seq<u8>)>
    decreases b.len(),
{
    match log_item(b) {
        None => Seq::empty(),
        Some(p) => if 0 < p.1 <= b.len() {
            seq![p.0] + log_items(b.skip(p.1 as int))
        } else {
            Seq::empty()
        },
    }
}

/// The balances that log items give, each read from the first eight bytes
/// of its encoding; `None` when an encoding is shorter.
pub open spec fn log_balances(items: Seq<(Seq<u8>, Seq<u8>)>) -> Option<Seq<(Seq<u8>, u64)>>
    decreases items.len(),
{
    if items.len() == 0 {
        Some(Seq::empty())
    } else if items[0].1.len() < 8 {
        None
    } else {
        match log_balances(items.drop_first()) {
            None => None,
            Some(rest) => Some(seq![(items[0].0, le_value(items[0].1.take(8)) as u64)] + rest),
        }
    }
}

/// Inserting pairs in turn; a pair whose leaf holds another key is left
/// out.
pub open spec fn insert_all<V: MerkleValue>(t: StateTreeView<V>, kvs: Seq<(Seq<u8>, V)>) -> StateTreeView<V>
    decreases kvs.len(),
{
    if kvs.len() == 0 {
        t
    } else {
        insert_all(insert_effect(t, kvs[0].0, kvs[0].1).0, kvs.drop_first())
    }
}

/// The items of a log.
fn read_log_items(bytes: &[u8]) -> (r: Vec<(Vec<u8>, Vec<u8>)>)
    ensures
        r@.map_values(|p: (Vec<u8>, Vec<u8>)| (p.0@, p.1@)) == log_items(bytes@),
{
    let mut out: Vec<(Vec<u8>, Vec<u8>)> = Vec::new();
    let mut pos: usize = 0;
    assert(bytes@.skip(0) =~= bytes@);
    loop
        invariant
            pos <= bytes@.len(),
            log_items(bytes@) == out@.map_values(|p: (Vec<u8>, Vec<u8>)| (p.0@, p.1@)) + log_items(
                bytes@.skip(pos as int),
            ),
        decreases bytes@.len() - pos,
    {
        let ghost b = bytes@.skip(pos as int);
        let ghost before = out@.map_values(|p: (Vec<u8>, Vec<u8>)| (p.0@, p.1@));
        let (key, mid) = match read_prefixed(bytes, pos) {
            None => {
                assert(log_items(b) == Seq::<(Seq<u8>, Seq<u8>)>::empty());
                assert(before + Seq::<(Seq<u8>, Seq<u8>)>::empty() =~= before);
                return out;
            },
            Some(d) => d,
        };
        assert(bytes@.skip(mid as int) =~= b.skip(mid - pos));
        let (value, next) = match read_prefixed(bytes, mid) {
            None => {
                assert(log_items(b) == Seq::<(Seq<u8>, Seq<u8>)>::empty());
                assert(before + Seq::<(Seq<u8>, Seq<u8>)>::empty() =~= before);
                return out;
            },
            Some(d) => d,
        };
        assert(bytes@.skip(next as int) =~= b.skip(next - pos));
        let ghost item = (key@, value@);
        out.push((key, value));
        assert(out@.map_values(|p: (Vec<u8>, Vec<u8>)| (p.0@, p.1@)) =~= before.push(item));
        assert(before + (seq![item] + log_items(bytes@.skip(next as int))) =~= before.push(item)
            + log_items(bytes@.skip(next as int)));
        pos = next;
    }
}

impl StateTree<u64> {
    /// Opens a store from its log: the balances it lists, inserted in turn
    /// (reading stops at the first item cut short); `None` when an item's
    /// value is shorter than a balance.
    pub fn from_log(bytes: &[u8]) -> (r: Option<Self>)
        ensures
            match log_balances(log_items(bytes@)) {
                Some(kvs) => r matches Some(t) && t.wf() && t@ == insert_all(
                    StateTreeView {
                        entries: Map::empty(),
                        nodes: Seq::new(TREE_HASHES as nat, |i: int| zero_hash()),
                    },
                    kvs,
                ),
                None => r is None,
            },
    {
        let items = read_log_items(bytes);
        let ghost iv = items@.map_values(|p: (Vec<u8>, Vec<u8>)| (p.0@, p.1@));
        let mut pairs: Vec<(Vec<u8>, u64)> = Vec::new();
        let mut i: usize = 0;
        assert(iv.skip(0) =~= iv);
        while i < items.len()
            invariant
                i <= items@.len(),
                iv == items@.map_values(|p: (Vec<u8>, Vec<u8>)| (p.0@, p.1@)),
                iv == log_items(bytes@),
                log_balances(iv) == (match log_balances(iv.skip(i as int)) {
                    Some(rest) => Some(crate::external_client::state_tree::pairs_view(pairs@) + rest),
                    None => None,
                }),
            decreases items@.len() - i,
        {
            let ghost tail = iv.skip(i as int);
            assert(tail[0] == iv[i as int]);
            assert(tail.drop_first() =~= iv.skip(i + 1));
            let value_bytes = &items[i].1;
            if value_bytes.len() < 8 {
                return None;
            }
            let v = read_le(value_bytes.as_slice(), 0, 8);
            assert(value_bytes@.subrange(0, 8) =~= value_bytes@.take(8));
            let ghost before = crate::external_client::state_tree::pairs_view(pairs@);
            pairs.push((items[i].0.clone(), v));
            proof {
                let e = (iv[i as int].0, le_value(iv[i as int].1.take(8)) as u64);
                assert(crate::external_client::state_tree::pairs_view(pairs@) =~= before.push(e));
                match log_balances(iv.skip(i + 1)) {
                    Some(rest) => {
                        assert(before + (seq![e] + rest) =~= before.push(e) + rest);
                    },
                    None => {},
                }
            }
            i = i + 1;
        }
        let ghost kvs = crate::external_client::state_tree::pairs_view(pairs@);
        assert(log_balances(iv.skip(i as int)) == Some(Seq::<(Seq<u8>, u64)>::empty()));
        assert(kvs + Seq::<(Seq<u8>, u64)>::empty() =~= kvs);
        let mut result = StateTree::<u64>::new();
        let ghost start = result@;
        let mut j: usize = 0;
        assert(kvs.skip(0) =~= kvs);
        while j < pairs.len()
            invariant
                j <= pairs@.len(),
                kvs == crate::external_client::state_tree::pairs_view(pairs@),
                log_balances(iv) == Some(kvs),
                result.wf(),
                insert_all(start, kvs) == insert_all(result@, kvs.skip(j as int)),
            decreases pairs@.len() - j,
        {
            let key = pairs[j].0.clone();
            let value = pairs[j].1;
            assert(kvs.skip(j as int)[0] == (key@, value));
            assert(kvs[j as int] == (key@, value));
            assert(kvs.skip(j as int).drop_first() =~= kvs.skip(j + 1));
            let _ = result.insert(key, value);
            j = j + 1;
        }
        assert(kvs.skip(j as int) =~= Seq::<(Seq<u8>, u64)>::empty());
        Some(result)
    }
}

/// How a state is used.
pub enum Mode {
    /// Stores its log and persists it, and produces the state root.
    Client,
    /// Runs on a state (likely built from a witness), keeping no log.
    Service,
}

/// A state as persisted: every pair written so far, replayed on opening.
pub struct SerializedState {}

/// A token of the rollup state.
#[derive(Clone, Copy)]
pub struct Token {}

/// A balance of one account in one token.
pub type Balance = u64;

/// Why a balance could not be inserted.
#[derive(Clone, Copy, Debug, PartialEq, Eq)]
pub enum InsertError {
    /// Another key occupies the leaf of the balance's key.
    KeyCollision,
}

/// What a rollup state holds: its root, its balances, its tokens.
pub struct StateView {
    pub root: Seq<u8>,
    pub balances: StateTreeView<Balance>,
    pub tokens: StateTreeView<Token>,
}

/// The rollup state: balances and tokens, each in its own store, and the
/// root that combines both stores' roots.
pub struct State {
    root: Hash32,
    balances: StateTree<Balance>,
    tokens: StateTree<Token>,
}

impl View for State {
    type V = StateView;

    closed spec fn view(&self) -> StateView {
        StateView { root: self.root@, balances: self.balances@, tokens: self.tokens@ }
    }
}

impl Default for State {
    /// An empty state, with the zero root.
    fn default() -> (s: Self)
        ensures
            s.wf(),
            s@.root == zero_hash(),
            s@.balances.entries == Map::<Seq<u8>, Balance>::empty(),
            s@.tokens.entries == Map::<Seq<u8>, Token>::empty(),
            s@.balances.nodes == Seq::new(TREE_HASHES as nat, |i: int| zero_hash()),
            s@.tokens.nodes == Seq::new(TREE_HASHES as nat, |i: int| zero_hash()),
    {
        State::new()
    }
}

impl State {
    /// Both stores are well formed.
    pub closed spec fn wf(&self) -> bool {
        self.balances.wf() && self.tokens.wf()
    }

    /// An empty state, with the zero root.
    pub fn new() -> (s: Self)
        ensures
            s.wf(),
            s@.root == zero_hash(),
            s@.balances.entries == Map::<Seq<u8>, Balance>::empty(),
            s@.tokens.entries == Map::<Seq<u8>, Token>::empty(),
            s@.balances.nodes == Seq::new(TREE_HASHES as nat, |i: int| zero_hash()),
            s@.tokens.nodes == Seq::new(TREE_HASHES as nat, |i: int| zero_hash()),
    {
        State { root: empty_hash(), balances: StateTree::new(), tokens: StateTree::new() }
    }

    /// The root of the state.
    pub fn root(&self) -> (h: Hash32)
        ensures
            h@ == self@.root,
    {
        self.root
    }

    /// Sets the balance of `account` in `token_id`, whose key must have its
    /// leaf to itself, and recomputes the root.
    pub fn insert_balance(&mut self, account: AccountId, token_id: TokenId, balance: Balance)
        requires
            old(self).wf(),
            !slot_taken(old(self)@.balances, balance_key_bytes(token_id, account@)),
        ensures
            final(self).wf(),
            ({
                let b = insert_effect(old(self)@.balances, balance_key_bytes(token_id, account@), balance).0;
                final(self)@ == (StateView {
                    root: pair_digest(b.nodes[TREE_HASHES - 1], old(self)@.tokens.nodes[TREE_HASHES - 1]),
                    balances: b,
                    tokens: old(self)@.tokens,
                })
            }),
    {
        let to_key = balance_key(token_id, &account);
        let _ = self.balances.insert(to_key, balance);
        self.update_hash();
    }

    /// Sets the balance of `account` in `token_id` and recomputes the root
    /// where its key has its leaf to itself; a key collision, with nothing
    /// changed, where another key occupies that leaf.
    pub fn try_insert_balance(&mut self, account: AccountId, token_id: TokenId, balance: Balance) -> (r:
        Result<(), InsertError>)
        requires
            old(self).wf(),
        ensures
            final(self).wf(),
            ({
                let k = balance_key_bytes(token_id, account@);
                if slot_taken(old(self)@.balances, k) {
                    r == Err::<(), InsertError>(InsertError::KeyCollision) && final(self)@ == old(
                        self,
                    )@
                } else {
                    let b = insert_effect(old(self)@.balances, k, balance).0;
                    r is Ok && final(self)@ == (StateView {
                        root: pair_digest(b.nodes[TREE_HASHES - 1], old(self)@.tokens.nodes[TREE_HASHES - 1]),
                        balances: b,
                        tokens: old(self)@.tokens,
                    })
                }
            }),
    {
        let to_key = balance_key(token_id, &account);
        if self.balances.slot_free(to_key.as_slice()) {
            self.insert_balance(account, token_id, balance);
            Ok(())
        } else {
            Err(InsertError::KeyCollision)
        }
    }

    /// The balance of `account` in `token_id`, if any.
    pub fn get_balance(&self, account: AccountId, token_id: TokenId) -> (r: Option<Balance>)
        requires
            self.wf(),
        ensures
            ({
                let k = balance_key_bytes(token_id, account@);
                r == (if self@.balances.entries.contains_key(k) {
                    Some(self@.balances.entries[k])
                } else {
                    None
                })
            }),
    {
        let to_key = balance_key(token_id, &account);
        self.balances.get(to_key.as_slice())
    }

    fn update_hash(&mut self)
        requires
            old(self).wf(),
        ensures
            final(self).wf(),
            final(self)@ == (StateView {
                root: pair_digest(
                    old(self)@.balances.nodes[TREE_HASHES - 1],
                    old(self)@.tokens.nodes[TREE_HASHES - 1],
                ),
                ..old(self)@
            }),
    {
        let b = self.balances.root();
        let t = self.tokens.root();
        self.root = hash_pair(&b, &t);
    }
}

} // verus!
