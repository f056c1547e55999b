//! A key/value store whose values sit at the tree leaf that the key hashes
//! to, so that the tree's root commits to every stored pair. Two keys that
//! hash to the same leaf cannot both be stored.
use vstd::prelude::*;
use std::collections::BTreeMap;
use vstd::std_specs::iter::IteratorSpec;
use vstd::std_specs::cmp::OrdSpec;
use crate::encoding::{le_bytes, push_bytes, push_length, push_u32, push_u64};
use crate::external_client::persist::{balances_encoding, entries_body, leaf_listing, lemma_entries_body_push};
use crate::external_client::merkle::{
    is_listing, tree_access, tree_insert, tree_root, MerkleTree, TreeView,
};
use crate::hashing::{digest_of, hash_bytes, hash_from_prefix, key_index, tree_index_from_key, Hash32, TreeIndex};
use crate::order::{
    bytes_lt, lemma_bytes_lt_irreflexive, lemma_bytes_lt_total, lemma_bytes_lt_transitive, slice_eq,
    slice_lt,
};

verus! {

/// A value that the tree commits to through a 32-byte hash.
pub trait MerkleValue: Sized {
    /// The hash that stands for the value.
    spec fn merkle_spec(&self) -> Seq<u8>;

    fn merkle_value(&self) -> (h: Hash32)
        ensures
            h@ == self.merkle_spec(),
    ;
}

/// What a value stored in a state tree must offer: a hash, and copies.
pub trait ValueTraits: MerkleValue + Copy {}

impl<V: MerkleValue + Copy> ValueTraits for V {}

/// `n` zero bytes.
pub open spec fn zeros(n: nat) -> Seq<u8> {
    Seq::new(n, |i: int| 0u8)
}

fn push_zeros(out: &mut Vec<u8>, n: usize)
    ensures
        final(out)@ == old(out)@ + zeros(n as nat),
{
    let mut i: usize = 0;
    while i < n
        invariant
            i <= n,
            out@ == old(out)@ + zeros(i as nat),
        decreases n - i,
    {
        out.push(0u8);
        assert(out@ =~= old(out)@ + zeros((i + 1) as nat));
        i = i + 1;
    }
}

/// A balance is hashed as its eight little-endian bytes, zero-padded.
impl MerkleValue for u64 {
    open spec fn merkle_spec(&self) -> Seq<u8> {
        le_bytes(*self as nat, 8) + zeros(24)
    }

    fn merkle_value(&self) -> (h: Hash32) {
        let mut out: Vec<u8> = Vec::new();
        push_u64(&mut out, *self);
        push_zeros(&mut out, 24);
        proof {
            crate::encoding::lemma_le_bytes_len(*self as nat, 8);
        }
        assert(out@.take(32) =~= out@);
        hash_from_prefix(&out)
    }
}

/// A token id is hashed as its four little-endian bytes, zero-padded.
impl MerkleValue for u32 {
    open spec fn merkle_spec(&self) -> Seq<u8> {
        le_bytes(*self as nat, 4) + zeros(28)
    }

    fn merkle_value(&self) -> (h: Hash32) {
        let mut out: Vec<u8> = Vec::new();
        push_u32(&mut out, *self);
        push_zeros(&mut out, 28);
        proof {
            crate::encoding::lemma_le_bytes_len(*self as nat, 4);
        }
        assert(out@.take(32) =~= out@);
        hash_from_prefix(&out)
    }
}

/// A stored value with its key.
pub struct Value<V> {
    pub value: V,
    pub key: Vec<u8>,
}

/// The leaf hash of a stored pair: the digest of the value's hash followed
/// by the key.
pub open spec fn value_digest<V: MerkleValue>(v: V, k: Seq<u8>) -> Seq<u8> {
    digest_of(v.merkle_spec() + k)
}

impl<V: MerkleValue> Value<V> {
    /// The leaf hash of this pair.
    pub fn merkle_value(&self) -> (h: Hash32)
        ensures
            h@ == value_digest(self.value, self.key@),
    {
        let vh = self.value.merkle_value();
        let mut data: Vec<u8> = Vec::new();
        push_bytes(&mut data, vh.as_slice());
        push_bytes(&mut data, self.key.as_slice());
        hash_bytes(data.as_slice())
    }
}

/// The pairs read since the witness was last taken: inserting `(k, v)` in
/// key order unless `k` is already there.
pub open spec fn record_value<V>(s: Seq<(Seq<u8>, V)>, k: Seq<u8>, v: V) -> Seq<(Seq<u8>, V)>
    decreases s.len(),
{
    if s.len() == 0 {
        seq![(k, v)]
    } else if s[0].0 == k {
        s
    } else if bytes_lt(k, s[0].0) {
        seq![(k, v)] + s
    } else {
        seq![s[0]] + record_value(s.drop_first(), k, v)
    }
}

proof fn lemma_record_value_at<V>(s: Seq<(Seq<u8>, V)>, k: Seq<u8>, v: V, i: int)
    requires
        0 <= i <= s.len(),
        forall|j: int| 0 <= j < i ==> bytes_lt(#[trigger] s[j].0, k),
        i == s.len() || !bytes_lt(s[i].0, k),
    ensures
        i < s.len() && s[i].0 == k ==> record_value(s, k, v) == s,
        !(i < s.len() && s[i].0 == k) ==> record_value(s, k, v) == s.take(i).push((k, v))
            + s.skip(i),
    decreases i,
{
    if i == 0 {
        if s.len() > 0 {
            lemma_bytes_lt_total(s[0].0, k);
            assert(s.skip(0) =~= s);
        } else {
            assert(s.take(0).push((k, v)) + s.skip(0) =~= seq![(k, v)]);
        }
        assert(s.take(0).push((k, v)) =~= seq![(k, v)]);
    } else {
        lemma_bytes_lt_total(s[0].0, k);
        lemma_bytes_lt_irreflexive(k);
        let t = s.drop_first();
        assert forall|j: int| 0 <= j < i - 1 implies bytes_lt(#[trigger] t[j].0, k) by {
            assert(t[j] == s[j + 1]);
        }
        lemma_record_value_at(t, k, v, i - 1);
        if i < s.len() && s[i].0 == k {
            assert(seq![s[0]] + t =~= s);
        } else {
            assert(seq![s[0]] + (t.take(i - 1).push((k, v)) + t.skip(i - 1)) =~= s.take(i).push(
                (k, v),
            ) + s.skip(i));
        }
    }
}

/// The keys of a list of pairs are strictly increasing: ordered, and none
/// occurs twice.
pub open spec fn keys_increasing<V>(s: Seq<(Seq<u8>, V)>) -> bool {
    forall|i: int, j: int| 0 <= i < j < s.len() ==> bytes_lt(#[trigger] s[i].0, #[trigger] s[j].0)
}

/// What a state tree holds: its key/value pairs, its tree, and what was
/// first found under each key accessed since the witness was last taken:
/// the pairs of the keys that held a value then, and the keys that held
/// none.
pub struct StateTreeView<V> {
    pub entries: Map<Seq<u8>, V>,
    pub tree: TreeView,
    pub recorded: Seq<(Seq<u8>, V)>,
    pub absent: Set<Seq<u8>>,
}

/// Whether another stored key occupies the leaf of `k`.
pub open spec fn slot_taken<V>(t: StateTreeView<V>, k: Seq<u8>) -> bool {
    exists|k2: Seq<u8>| #[trigger]
        t.entries.contains_key(k2) && k2 != k && key_index(k2) == key_index(k)
}

/// Whether key `k` was accessed since the witness was last taken.
pub open spec fn noted<V>(t: StateTreeView<V>, k: Seq<u8>) -> bool {
    t.absent.contains(k) || exists|i: int| 0 <= i < t.recorded.len() && #[trigger] t.recorded[i].0 == k
}

/// The effect on the record of accessing key `k`: at its first access, its
/// pair joins the record when it is stored, and the key joins the absent
/// keys when it is not; later accesses change nothing.
pub open spec fn note_effect<V>(t: StateTreeView<V>, k: Seq<u8>) -> StateTreeView<V> {
    if noted(t, k) {
        t
    } else if t.entries.contains_key(k) {
        StateTreeView { recorded: record_value(t.recorded, k, t.entries[k]), ..t }
    } else {
        StateTreeView { absent: t.absent.insert(k), ..t }
    }
}

/// The effect of reading key `k`: the access is noted, and the siblings of
/// its leaf's path join the tree's witness.
pub open spec fn get_effect<V>(t: StateTreeView<V>, k: Seq<u8>) -> StateTreeView<V> {
    StateTreeView { tree: tree_access(t.tree, key_index(k)), ..note_effect(t, k) }
}

/// The effect of storing `v` under `k`, and whether it was stored: it is
/// refused (after a read of `k`) when another key occupies the leaf.
pub open spec fn set_effect<V: MerkleValue>(t: StateTreeView<V>, k: Seq<u8>, v: V) -> (
    StateTreeView<V>,
    bool,
) {
    if slot_taken(t, k) {
        (get_effect(t, k), false)
    } else {
        (
            StateTreeView {
                entries: t.entries.insert(k, v),
                tree: tree_insert(t.tree, key_index(k), value_digest(v, k)),
                ..note_effect(t, k)
            },
            true,
        )
    }
}

/// Replays stored pairs over a tree, checking after each that the root is
/// still `root`; `None` at the first pair that moves it.
pub open spec fn replay<V: MerkleValue>(
    t: StateTreeView<V>,
    kvs: Seq<(Seq<u8>, V)>,
    root: Seq<u8>,
) -> Option<StateTreeView<V>>
    decreases kvs.len(),
{
    if kvs.len() == 0 {
        Some(t)
    } else {
        let t2 = set_effect(t, kvs[0].0, kvs[0].1).0;
        if tree_root(t2.tree) == root {
            replay(t2, kvs.drop_first(), root)
        } else {
            None
        }
    }
}

/// The node hashes that a list of `(index, hash)` pairs sets, later pairs
/// overriding earlier ones.
pub open spec fn hashes_of(hs: Seq<(TreeIndex, Hash32)>) -> Map<u16, Seq<u8>>
    decreases hs.len(),
{
    if hs.len() == 0 {
        Map::empty()
    } else {
        hashes_of(hs.drop_last()).insert(hs.last().0, hs.last().1@)
    }
}

/// Walking the tree never changes its snapshot.
pub proof fn lemma_walks_keep_snapshot(t: TreeView, offset: int, step: int, at: int, h: Seq<u8>)
    ensures
        crate::external_client::merkle::insert_walk(t, offset, step, at, h).snapshot == t.snapshot,
        crate::external_client::merkle::access_walk(t, offset, step, at).snapshot == t.snapshot,
    decreases step,
{
    if step > 1 {
        let t1 = crate::external_client::merkle::write_node(t, offset + at, h);
        let sib = crate::external_client::merkle::sibling(offset, at);
        let s = crate::external_client::merkle::node_of(t1.hashes, sib);
        let up = if at % 2 == 0 {
            crate::hashing::pair_digest(h, s)
        } else {
            crate::hashing::pair_digest(s, h)
        };
        lemma_walks_keep_snapshot(
            crate::external_client::merkle::read_node(t1, sib),
            offset + step,
            step / 2,
            at / 2,
            up,
        );
        lemma_walks_keep_snapshot(
            crate::external_client::merkle::read_node(t, sib),
            offset + step,
            step / 2,
            at / 2,
            up,
        );
    }
}

/// The state tree that a witness starts from: the given node hashes, no
/// stored pair, nothing recorded.
pub open spec fn witness_start<V>(hs: Seq<(TreeIndex, Hash32)>) -> StateTreeView<V> {
    StateTreeView {
        entries: Map::empty(),
        tree: TreeView { hashes: hashes_of(hs), snapshot: Map::empty(), witness: Map::empty() },
        recorded: Seq::empty(),
        absent: Set::empty(),
    }
}

/// A store with nothing in it.
pub open spec fn empty_store<V>() -> StateTreeView<V> {
    StateTreeView {
        entries: Map::empty(),
        tree: TreeView { hashes: Map::empty(), snapshot: Map::empty(), witness: Map::empty() },
        recorded: Seq::empty(),
        absent: Set::empty(),
    }
}

/// Storing pairs in turn; a pair whose leaf holds another key is not
/// stored.
pub open spec fn load_pairs<V: MerkleValue>(t: StateTreeView<V>, kvs: Seq<(Seq<u8>, V)>) -> StateTreeView<V>
    decreases kvs.len(),
{
    if kvs.len() == 0 {
        t
    } else {
        load_pairs(set_effect(t, kvs[0].0, kvs[0].1).0, kvs.drop_first())
    }
}

/// A key/value store committed to by a Merkle tree.
pub struct StateTree<V> {
    values: BTreeMap<TreeIndex, Value<V>>,
    tree: MerkleTree,
    witness_values: Vec<(Vec<u8>, V)>,
    absent_keys: Vec<Vec<u8>>,
}

/// The byte strings that a list of byte vectors holds.
pub open spec fn byte_strings(v: Seq<Vec<u8>>) -> Set<Seq<u8>> {
    Set::new(|k: Seq<u8>| exists|i: int| 0 <= i < v.len() && (#[trigger] v[i])@ == k)
}

/// Whether `k` is one of the byte vectors `v`.
fn lists_bytes(v: &Vec<Vec<u8>>, k: &[u8]) -> (r: bool)
    ensures
        r == byte_strings(v@).contains(k@),
{
    let mut i: usize = 0;
    while i < v.len()
        invariant
            i <= v@.len(),
            forall|j: int| 0 <= j < i ==> (#[trigger] v@[j])@ != k@,
        decreases v@.len() - i,
    {
        if slice_eq(v[i].as_slice(), k) {
            return true;
        }
        i = i + 1;
    }
    false
}

/// The pairs a list of owned pairs holds.
pub open spec fn pairs_view<V>(s: Seq<(Vec<u8>, V)>) -> Seq<(Seq<u8>, V)> {
    s.map_values(|p: (Vec<u8>, V)| (p.0@, p.1))
}

impl<V: MerkleValue + Copy> View for StateTree<V> {
    type V = StateTreeView<V>;

    closed spec fn view(&self) -> StateTreeView<V> {
        StateTreeView {
            entries: Map::new(
                |k: Seq<u8>|
                    self.values@.contains_key(key_index(k)) && self.values@[key_index(k)].key@
                        == k,
                |k: Seq<u8>| self.values@[key_index(k)].value,
            ),
            tree: self.tree@,
            recorded: pairs_view(self.witness_values@),
            absent: byte_strings(self.absent_keys@),
        }
    }
}

impl<V: MerkleValue + Copy> StateTree<V> {
    /// Every stored pair sits at the leaf its key hashes to, and the pairs
    /// read are kept by strictly increasing key.
    pub closed spec fn wf(&self) -> bool {
        &&& forall|i: u16| #[trigger]
            self.values@.contains_key(i) ==> key_index(self.values@[i].key@) == i
        &&& keys_increasing(pairs_view(self.witness_values@))
    }

    /// An empty store.
    pub fn new() -> (t: Self)
        ensures
            t.wf(),
            t@.entries == Map::<Seq<u8>, V>::empty(),
            t@.tree.hashes == Map::<u16, Seq<u8>>::empty(),
            t@.tree.snapshot == Map::<u16, Seq<u8>>::empty(),
            t@.tree.witness == Map::<u16, Seq<u8>>::empty(),
            t@.recorded == Seq::<(Seq<u8>, V)>::empty(),
            t@.absent == Set::<Seq<u8>>::empty(),
    {
        let t = StateTree {
            values: BTreeMap::new(),
            tree: MerkleTree::new(),
            witness_values: Vec::new(),
            absent_keys: Vec::new(),
        };
        assert(t@.entries =~= Map::<Seq<u8>, V>::empty());
        assert(t@.absent =~= Set::<Seq<u8>>::empty());
        assert(t@.recorded =~= Seq::<(Seq<u8>, V)>::empty());
        t
    }

    fn record(&mut self, key: &Vec<u8>, value: V)
        requires
            keys_increasing(pairs_view(old(self).witness_values@)),
        ensures
            keys_increasing(pairs_view(final(self).witness_values@)),
            final(self).values == old(self).values,
            final(self).tree == old(self).tree,
            final(self).absent_keys == old(self).absent_keys,
            pairs_view(final(self).witness_values@) == record_value(
                pairs_view(old(self).witness_values@),
                key@,
                value,
            ),
    {
        let ghost s = pairs_view(self.witness_values@);
        let mut i: usize = 0;
        loop
            invariant
                i <= self.witness_values@.len(),
                self.witness_values@ == old(self).witness_values@,
                s == pairs_view(self.witness_values@),
                forall|j: int| 0 <= j < i ==> bytes_lt(#[trigger] s[j].0, key@),
            ensures
                i <= self.witness_values@.len(),
                self.witness_values@ == old(self).witness_values@,
                forall|j: int| 0 <= j < i ==> bytes_lt(#[trigger] s[j].0, key@),
                i == s.len() || !bytes_lt(s[i as int].0, key@),
            decreases self.witness_values@.len() - i,
        {
            if i == self.witness_values.len() {
                break ;
            }
            if !slice_lt(self.witness_values[i].0.as_slice(), key.as_slice()) {
                break ;
            }
            i = i + 1;
        }
        proof {
            lemma_record_value_at(s, key@, value, i as int);
        }
        if i < self.witness_values.len() && slice_eq(
            self.witness_values[i].0.as_slice(),
            key.as_slice(),
        ) {
            return ;
        }
        self.witness_values.insert(i, (key.clone(), value));
        let ghost r = pairs_view(self.witness_values@);
        assert(r =~= s.take(i as int).push((key@, value)) + s.skip(i as int));
        proof {
            if i < s.len() {
                lemma_bytes_lt_total(s[i as int].0, key@);
            }
            assert forall|a: int, b: int| 0 <= a < b < r.len() implies bytes_lt(
                #[trigger] r[a].0,
                #[trigger] r[b].0,
            ) by {
                if b < i {
                    assert(r[a] == s[a] && r[b] == s[b]);
                } else if b == i {
                    assert(r[a] == s[a]);
                } else if a < i {
                    assert(r[a] == s[a] && r[b] == s[b - 1]);
                    assert(bytes_lt(s[a].0, key@));
                    if b - 1 > i {
                        assert(bytes_lt(s[i as int].0, s[b - 1].0));
                        lemma_bytes_lt_transitive(key@, s[i as int].0, s[b - 1].0);
                    }
                    lemma_bytes_lt_transitive(s[a].0, key@, s[b - 1].0);
                } else if a == i {
                    assert(r[b] == s[b - 1]);
                    if b - 1 > i {
                        assert(bytes_lt(s[i as int].0, s[b - 1].0));
                        lemma_bytes_lt_transitive(key@, s[i as int].0, s[b - 1].0);
                    }
                } else {
                    assert(r[a] == s[a - 1] && r[b] == s[b - 1]);
                }
            }
        }
    }

    /// Whether a pair under `k` is recorded.
    fn is_recorded(&self, k: &[u8]) -> (r: bool)
        ensures
            r == exists|i: int| 0 <= i < self@.recorded.len() && #[trigger] self@.recorded[i].0 == k@,
    {
        let ghost s = pairs_view(self.witness_values@);
        let mut i: usize = 0;
        while i < self.witness_values.len()
            invariant
                i <= self.witness_values@.len(),
                s == pairs_view(self.witness_values@),
                s == self@.recorded,
                forall|j: int| 0 <= j < i ==> (#[trigger] s[j]).0 != k@,
            decreases self.witness_values@.len() - i,
        {
            if slice_eq(self.witness_values[i].0.as_slice(), k) {
                assert(s[i as int].0 == k@);
                return true;
            }
            i = i + 1;
        }
        false
    }

    /// Notes an access to `k`, which holds `current`: see `note_effect`.
    fn note(&mut self, k: &[u8], current: Option<V>)
        requires
            old(self).wf(),
            current == (if old(self)@.entries.contains_key(k@) {
                Some(old(self)@.entries[k@])
            } else {
                None::<V>
            }),
        ensures
            final(self).wf(),
            final(self)@ == note_effect(old(self)@, k@),
    {
        if lists_bytes(&self.absent_keys, k) {
            return ;
        }
        if self.is_recorded(k) {
            return ;
        }
        let mut key: Vec<u8> = Vec::new();
        key.extend_from_slice(k);
        assert(key@ =~= k@);
        match current {
            Some(v) => {
                self.record(&key, v);
                assert(self@.entries =~= old(self)@.entries);
                assert(self@ =~= note_effect(old(self)@, k@));
            },
            None => {
                let ghost before = self.absent_keys@;
                self.absent_keys.push(key);
                assert(byte_strings(self.absent_keys@) =~= byte_strings(before).insert(k@)) by {
                    assert(self.absent_keys@[before.len() as int]@ == k@);
                    assert forall|x: Seq<u8>| byte_strings(before).contains(x) implies byte_strings(
                        self.absent_keys@,
                    ).contains(x) by {
                        let i = choose|i: int| 0 <= i < before.len() && (#[trigger] before[i])@ == x;
                        assert(self.absent_keys@[i] == before[i]);
                    }
                    assert forall|x: Seq<u8>| byte_strings(self.absent_keys@).contains(x) implies byte_strings(
                        before,
                    ).insert(k@).contains(x) by {
                        let i = choose|i: int| 0 <= i < self.absent_keys@.len() && (#[trigger] self.absent_keys@[i])@ == x;
                        if i < before.len() {
                            assert(self.absent_keys@[i] == before[i]);
                        }
                    }
                }
                assert(self@ =~= note_effect(old(self)@, k@));
            },
        }
    }

    /// The value stored under `k`, recording the read for the witness (the
    /// access to `k`, and the siblings of the leaf's path).
    pub fn get(&mut self, k: &[u8]) -> (r: Option<V>)
        requires
            old(self).wf(),
        ensures
            final(self).wf(),
            r == (if old(self)@.entries.contains_key(k@) {
                Some(old(self)@.entries[k@])
            } else {
                None
            }),
            final(self)@ == get_effect(old(self)@, k@),
    {
        let ix = tree_index_from_key(k);
        let mut found: Option<V> = None;
        match self.values.get(&ix) {
            Some(v) => {
                if slice_eq(v.key.as_slice(), k) {
                    found = Some(v.value);
                }
            },
            None => {},
        }
        self.note(k, found);
        let ghost noted = self@;
        self.tree.witness_access(ix);
        assert(final(self)@ =~= get_effect(old(self)@, k@));
        found
    }

    /// Whether `k` can be stored: no other key occupies the leaf it hashes
    /// to.
    pub fn slot_free(&self, k: &[u8]) -> (r: bool)
        requires
            self.wf(),
        ensures
            r == !slot_taken(self@, k@),
    {
        let ix = tree_index_from_key(k);
        match self.values.get(&ix) {
            Some(existing) => {
                let same = slice_eq(existing.key.as_slice(), k);
                proof {
                    let k2 = self.values@[ix].key@;
                    assert(self@.entries.contains_key(k2));
                }
                same
            },
            None => true,
        }
    }

    /// Stores `v` under `k`, noting the access to `k` first; refused
    /// (returning `false`, after reading `k`) when another key occupies the
    /// leaf that `k` hashes to.
    pub fn set(&mut self, k: Vec<u8>, v: V) -> (ok: bool)
        requires
            old(self).wf(),
        ensures
            final(self).wf(),
            (final(self)@, ok) == set_effect(old(self)@, k@, v),
    {
        let ix = tree_index_from_key(k.as_slice());
        let mut occupied = false;
        let mut same_key = false;
        let mut current: Option<V> = None;
        match self.values.get(&ix) {
            Some(existing) => {
                occupied = true;
                same_key = slice_eq(existing.key.as_slice(), k.as_slice());
                if same_key {
                    current = Some(existing.value);
                }
            },
            None => {},
        }
        if occupied && !same_key {
            proof {
                let k2 = self.values@[ix].key@;
                assert(self@.entries.contains_key(k2));
                assert(slot_taken(self@, k@));
            }
            let _ = self.get(k.as_slice());
            return false;
        }
        assert(!slot_taken(self@, k@));
        self.note(k.as_slice(), current);
        let ghost kv = k@;
        let value = Value { value: v, key: k };
        let h = value.merkle_value();
        self.tree.insert(ix, h);
        self.values.insert(ix, value);
        assert(self@.entries =~= old(self)@.entries.insert(kv, v));
        assert(self@ =~= set_effect(old(self)@, kv, v).0);
        true
    }

    /// Hands out what was read since the witness was last taken (node
    /// hashes by increasing index, the pairs that accessed keys held at
    /// their first access by increasing key) and starts a new record
    /// against the current hashes.
    pub fn take_witness(&mut self) -> (r: (Vec<(TreeIndex, Hash32)>, Vec<(Vec<u8>, V)>))
        requires
            old(self).wf(),
        ensures
            final(self).wf(),
            is_listing(old(self)@.tree.witness, r.0@),
            pairs_view(r.1@) == old(self)@.recorded,
            keys_increasing(pairs_view(r.1@)),
            final(self)@ == (StateTreeView {
                entries: old(self)@.entries,
                tree: TreeView {
                    hashes: old(self)@.tree.hashes,
                    snapshot: old(self)@.tree.hashes,
                    witness: Map::empty(),
                },
                recorded: Seq::empty(),
                absent: Set::empty(),
            }),
    {
        let hashes = self.tree.take_witness();
        let mut values: Vec<(Vec<u8>, V)> = Vec::new();
        std::mem::swap(&mut values, &mut self.witness_values);
        self.absent_keys = Vec::new();
        assert(pairs_view(self.witness_values@) =~= Seq::<(Seq<u8>, V)>::empty());
        assert(byte_strings(self.absent_keys@) =~= Set::<Seq<u8>>::empty());
        assert(final(self)@.entries =~= old(self)@.entries);
        (hashes, values)
    }

    /// Rebuilds a partial store from a witness: the node hashes first, then
    /// each pair stored in turn, which must leave the root as the hashes
    /// gave it; `None` as soon as a pair moves the root.
    pub fn init_from_witness(
        witness_hashes: &Vec<(TreeIndex, Hash32)>,
        witness_key_values: Vec<(Vec<u8>, V)>,
    ) -> (r: Option<Self>)
        ensures
            match r {
                Some(t) => t.wf() && replay(
                    witness_start::<V>(witness_hashes@),
                    pairs_view(witness_key_values@),
                    tree_root(witness_start::<V>(witness_hashes@).tree),
                ) == Some(t@),
                None => replay(
                    witness_start::<V>(witness_hashes@),
                    pairs_view(witness_key_values@),
                    tree_root(witness_start::<V>(witness_hashes@).tree),
                ) is None,
            },
    {
        let mut result = Self::new();
        let mut i: usize = 0;
        while i < witness_hashes.len()
            invariant
                i <= witness_hashes@.len(),
                result.wf(),
                result@.entries == Map::<Seq<u8>, V>::empty(),
                result@.tree.hashes == hashes_of(witness_hashes@.take(i as int)),
                result@.tree.snapshot == Map::<u16, Seq<u8>>::empty(),
                result@.tree.witness == Map::<u16, Seq<u8>>::empty(),
                result@.recorded == Seq::<(Seq<u8>, V)>::empty(),
                result@.absent == Set::<Seq<u8>>::empty(),
            decreases witness_hashes@.len() - i,
        {
            let entry = witness_hashes[i];
            result.tree.set_node(entry.0, entry.1);
            assert(witness_hashes@.take(i + 1).drop_last() =~= witness_hashes@.take(i as int));
            i = i + 1;
        }
        assert(witness_hashes@.take(witness_hashes@.len() as int) =~= witness_hashes@);
        let ghost start = witness_start::<V>(witness_hashes@);
        let ghost root = tree_root(start.tree);
        let ghost kvs = pairs_view(witness_key_values@);
        assert(result@ =~= start);
        let witness_root = result.root();
        assert(result@ =~= start);
        let mut j: usize = 0;
        assert(kvs.skip(0) =~= kvs);
        while j < witness_key_values.len()
            invariant
                j <= witness_key_values@.len(),
                kvs == pairs_view(witness_key_values@),
                start == witness_start::<V>(witness_hashes@),
                root == tree_root(start.tree),
                result.wf(),
                result@.tree.snapshot == Map::<u16, Seq<u8>>::empty(),
                witness_root@ == root,
                replay(start, kvs, root) == replay(result@, kvs.skip(j as int), root),
            decreases witness_key_values@.len() - j,
        {
            let ghost before = result@;
            let key = witness_key_values[j].0.clone();
            let value = witness_key_values[j].1;
            assert(kvs.skip(j as int)[0] == (key@, value));
            assert(kvs.skip(j as int).drop_first() =~= kvs.skip(j + 1));
            result.set(key, value);
            proof {
                lemma_walks_keep_snapshot(before.tree, 0, 32768, key_index(key@) as int, value_digest(value, key@));
            }
            let ghost after_set = result@;
            let now = result.root();
            assert(result@ =~= after_set);
            assert(set_effect(before, key@, value).0 == after_set);
            assert(tree_root(after_set.tree) == now@);
            if !crate::hashing::hash_eq(&now, &witness_root) {
                assert(kvs.skip(j as int).len() > 0);
                assert(replay(before, kvs.skip(j as int), root) is None);
                return None;
            }
            j = j + 1;
        }
        assert(kvs.skip(j as int).len() == 0);
        Some(result)
    }

    /// Distinct stored keys sit at distinct leaves.
    pub proof fn lemma_distinct_leaves(&self)
        ensures
            crate::external_client::replay::distinct_leaves(self@.entries),
    {
    }

    /// A store holding the given pairs, stored in turn (a pair whose leaf
    /// holds another key is left out).
    pub fn from_pairs(pairs: Vec<(Vec<u8>, V)>) -> (t: Self)
        ensures
            t.wf(),
            t@ == load_pairs(empty_store::<V>(), pairs_view(pairs@)),
    {
        let mut result = Self::new();
        let ghost kvs = pairs_view(pairs@);
        assert(result@ =~= empty_store::<V>());
        assert(kvs.skip(0) =~= kvs);
        let mut j: usize = 0;
        while j < pairs.len()
            invariant
                j <= pairs@.len(),
                kvs == pairs_view(pairs@),
                result.wf(),
                load_pairs(empty_store::<V>(), kvs) == load_pairs(result@, kvs.skip(j as int)),
            decreases pairs@.len() - j,
        {
            let key = pairs[j].0.clone();
            let value = pairs[j].1;
            assert(kvs.skip(j as int)[0] == (key@, value));
            assert(kvs.skip(j as int).drop_first() =~= kvs.skip(j + 1));
            let _ = result.set(key, value);
            j = j + 1;
        }
        assert(kvs.skip(j as int) =~= Seq::<(Seq<u8>, V)>::empty());
        result
    }

    /// The root hash of the store, recording the read.
    pub fn root(&mut self) -> (h: Hash32)
        requires
            old(self).wf(),
        ensures
            final(self).wf(),
            h@ == tree_root(old(self)@.tree),
            final(self)@ == (StateTreeView {
                tree: crate::external_client::merkle::read_node(
                    old(self)@.tree,
                    crate::external_client::merkle::ROOT_INDEX as int,
                ),
                ..old(self)@
            }),
    {
        let h = self.tree.root();
        assert(final(self)@ =~= (StateTreeView {
            tree: crate::external_client::merkle::read_node(
                old(self)@.tree,
                crate::external_client::merkle::ROOT_INDEX as int,
            ),
            ..old(self)@
        }));
        h
    }
}

/// Iterating the pairs by increasing leaf index lists them.
proof fn lemma_iteration_is_leaf_listing(
    m: Map<TreeIndex, Value<u64>>,
    all: Seq<(&TreeIndex, &Value<u64>)>,
    entries: Map<Seq<u8>, u64>,
)
    requires
        vstd::std_specs::btree::increasing_seq(all.map_values(|kv: (&TreeIndex, &Value<u64>)| *kv.0)),
        forall|i: int|
            0 <= i < all.len() ==> m.contains_key(*(#[trigger] all[i]).0) && m[*all[i].0] == *all[i].1,
        forall|ix: TreeIndex| m.contains_key(ix) ==> all.contains((&ix, &m[ix])),
        forall|ix: TreeIndex| #[trigger] m.contains_key(ix) ==> key_index(m[ix].key@) == ix,
        entries == Map::new(
            |k: Seq<u8>| m.contains_key(key_index(k)) && m[key_index(k)].key@ == k,
            |k: Seq<u8>| m[key_index(k)].value,
        ),
    ensures
        leaf_listing(entries, all.map_values(|kv: (&TreeIndex, &Value<u64>)| (kv.1.key@, kv.1.value))),
{
    let keys = all.map_values(|kv: (&TreeIndex, &Value<u64>)| *kv.0);
    let l = all.map_values(|kv: (&TreeIndex, &Value<u64>)| (kv.1.key@, kv.1.value));
    assert forall|i: int, j: int| 0 <= i < j < l.len() implies key_index((#[trigger] l[i]).0)
        < key_index((#[trigger] l[j]).0) by {
        assert(keys[i].cmp_spec(&keys[j]) is Less);
        assert(m.contains_key(*all[i].0));
        assert(m.contains_key(*all[j].0));
    }
    assert forall|i: int| 0 <= i < l.len() implies entries.contains_key((#[trigger] l[i]).0)
        && entries[l[i].0] == l[i].1 by {
        assert(m.contains_key(*all[i].0));
    }
    assert forall|k: Seq<u8>| entries.contains_key(k) implies exists|i: int|
        0 <= i < l.len() && (#[trigger] l[i]).0 == k by {
        let ix = key_index(k);
        assert(m.contains_key(ix));
        assert(all.contains((&ix, &m[ix])));
        let i = choose|i: int| 0 <= i < all.len() && all[i] == (&ix, &m[ix]);
        assert(l[i].0 == k);
    }
}

impl StateTree<u64> {
    /// The balances file of this store: the pairs by increasing leaf index;
    /// `None` when a key is longer than `u32::MAX` bytes, which the file
    /// cannot hold.
    pub fn serialize(&self) -> (r: Option<Vec<u8>>)
        requires
            self.wf(),
        ensures
            r is Some <==> forall|k: Seq<u8>| self@.entries.contains_key(k) ==> k.len() <= u32::MAX,
            r matches Some(bytes) ==> exists|l: Seq<(Seq<u8>, u64)>|
                leaf_listing(self@.entries, l) && bytes@ == balances_encoding(l),
    {
        let mut out: Vec<u8> = Vec::new();
        push_u64(&mut out, self.values.len() as u64);
        let ghost head = out@;
        let iter0 = self.values.iter();
        let ghost all = iter0.remaining();
        let ghost l = all.map_values(|kv: (&TreeIndex, &Value<u64>)| (kv.1.key@, kv.1.value));
        assert(all.len() == self.values@.dom().len());
        assert(head == le_bytes(l.len(), 8));
        assert(l.take(0) =~= Seq::<(Seq<u8>, u64)>::empty());
        for entry in it: iter0
            invariant
                it.seq() == all,
                l == all.map_values(|kv: (&TreeIndex, &Value<u64>)| (kv.1.key@, kv.1.value)),
                self.wf(),
                forall|j: int|
                    0 <= j < it.index() ==> (#[trigger] l[j]).0.len() <= u32::MAX,
                forall|i: int|
                    0 <= i < all.len() ==> self.values@.contains_key(*(#[trigger] all[i]).0)
                        && self.values@[*all[i].0] == *all[i].1,
                out@ == head + entries_body(l.take(it.index() as int)),
        {
            let ghost i = it.index();
            let value: &Value<u64> = entry.1;
            assert(all[i as int] == entry);
            let ghost k = value.key@;
            assert(self.values@.contains_key(*entry.0));
            assert(key_index(k) == *entry.0);
            assert(self@.entries.contains_key(k));
            if value.key.len() > 0xffff_ffff {
                return None;
            }
            push_u64(&mut out, value.value);
            push_length(&mut out, value.key.len() as u32);
            push_bytes(&mut out, value.key.as_slice());
            proof {
                lemma_entries_body_push(l.take(i as int), (k, value.value));
                assert(l.take(i as int).push((k, value.value)) =~= l.take(i + 1));
            }
        }
        assert(l.take(l.len() as int) =~= l);
        proof {
            let keys = all.map_values(|kv: (&TreeIndex, &Value<u64>)| *kv.0);
            assert(vstd::std_specs::btree::increasing_seq(keys));
            assert forall|ix: TreeIndex| self.values@.contains_key(ix) implies all.contains(
                (&ix, &self.values@[ix]),
            ) by {}
            lemma_iteration_is_leaf_listing(self.values@, all, self@.entries);
            assert(leaf_listing(self@.entries, l) && out@ == balances_encoding(l));
            assert forall|k: Seq<u8>| self@.entries.contains_key(k) implies k.len()
                <= u32::MAX by {
                let i = choose|i: int| 0 <= i < l.len() && (#[trigger] l[i]).0 == k;
            }
        }
        Some(out)
    }
}

} // verus!
