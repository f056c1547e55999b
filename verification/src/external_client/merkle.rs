//! A fixed-depth binary Merkle tree whose node hashes live in a sparse map,
//! recording which stored hashes a computation reads (its witness).
//!
//! Nodes are numbered level by level: the 2^15 leaves first, then their
//! parents, and so on; the root is node 65534. A missing node holds the
//! zero hash.
use vstd::prelude::*;
use std::collections::BTreeMap;
use vstd::std_specs::iter::IteratorSpec;
use vstd::std_specs::cmp::OrdSpec;
use crate::hashing::{empty_hash, hash_pair, is_empty_hash, pair_digest, zero_hash, Hash32, TreeIndex};

verus! {

/// The index of the root node.
pub const ROOT_INDEX: u16 = 65534;

/// What a tree holds: its node hashes, the hashes as they were when the
/// witness was last taken, and the hashes read since then.
pub struct TreeView {
    pub hashes: Map<u16, Seq<u8>>,
    pub snapshot: Map<u16, Seq<u8>>,
    pub witness: Map<u16, Seq<u8>>,
}

/// The hashes that a map of arrays holds, as byte sequences.
pub open spec fn seq_map(m: Map<u16, Hash32>) -> Map<u16, Seq<u8>> {
    m.map_values(|h: Hash32| h@)
}

/// The hash of node `ix`: the zero hash when it is absent.
pub open spec fn node_of(m: Map<u16, Seq<u8>>, ix: int) -> Seq<u8> {
    if m.contains_key(ix as u16) {
        m[ix as u16]
    } else {
        zero_hash()
    }
}

/// Reading node `ix` records it in the witness, with its hash as of the
/// last snapshot, when the node is stored and that hash is not zero.
pub open spec fn read_node(t: TreeView, ix: int) -> TreeView {
    let k = ix as u16;
    if t.hashes.contains_key(k) && t.snapshot.contains_key(k) && t.snapshot[k] != zero_hash() {
        TreeView { witness: t.witness.insert(k, t.snapshot[k]), ..t }
    } else {
        t
    }
}

/// Storing a hash at node `ix`.
pub open spec fn write_node(t: TreeView, ix: int, h: Seq<u8>) -> TreeView {
    TreeView { hashes: t.hashes.insert(ix as u16, h), ..t }
}

/// The sibling of the node at position `at` of the level that starts at
/// `offset`.
pub open spec fn sibling(offset: int, at: int) -> int {
    if at % 2 == 0 {
        offset + at + 1
    } else {
        offset + at - 1
    }
}

/// The level sizes of the tree (halved from 2^15 down to 1).
pub open spec fn is_level_step(step: int) -> bool {
    ||| step == 1
    ||| step == 2
    ||| step == 4
    ||| step == 8
    ||| step == 16
    ||| step == 32
    ||| step == 64
    ||| step == 128
    ||| step == 256
    ||| step == 512
    ||| step == 1024
    ||| step == 2048
    ||| step == 4096
    ||| step == 8192
    ||| step == 16384
    ||| step == 32768
}

/// Storing `hash` at position `at` of the level that starts at `offset`
/// (of `2 * step` nodes), then, level by level up to the root, storing the
/// combination of the running hash with its sibling's hash, each sibling
/// read (and so recorded) after the node beside it was stored.
pub open spec fn insert_walk(t: TreeView, offset: int, step: int, at: int, hash: Seq<u8>) -> TreeView
    decreases step,
{
    if step <= 1 {
        write_node(t, offset + at, hash)
    } else {
        let t1 = write_node(t, offset + at, hash);
        let sib = sibling(offset, at);
        let s = node_of(t1.hashes, sib);
        let up = if at % 2 == 0 {
            pair_digest(hash, s)
        } else {
            pair_digest(s, hash)
        };
        insert_walk(read_node(t1, sib), offset + step, step / 2, at / 2, up)
    }
}

/// Reading, level by level, the siblings of the path from position `at`.
pub open spec fn access_walk(t: TreeView, offset: int, step: int, at: int) -> TreeView
    decreases step,
{
    if step <= 1 {
        t
    } else {
        access_walk(read_node(t, sibling(offset, at)), offset + step, step / 2, at / 2)
    }
}

/// The effect of storing `value_hash` at leaf `ix`.
pub open spec fn tree_insert(t: TreeView, ix: u16, value_hash: Seq<u8>) -> TreeView {
    insert_walk(t, 0, 32768, ix as int, value_hash)
}

/// The effect of reading the siblings of the path of leaf `ix`.
pub open spec fn tree_access(t: TreeView, ix: u16) -> TreeView {
    access_walk(t, 0, 32768, ix as int)
}

/// The root hash of a tree.
pub open spec fn tree_root(t: TreeView) -> Seq<u8> {
    node_of(t.hashes, ROOT_INDEX as int)
}

/// `v` lists the entries of `m` by increasing index, each once.
pub open spec fn is_listing(m: Map<u16, Seq<u8>>, v: Seq<(u16, Hash32)>) -> bool {
    &&& forall|i: int, j: int| 0 <= i < j < v.len() ==> (#[trigger] v[i]).0 < (#[trigger] v[j]).0
    &&& forall|i: int| 0 <= i < v.len() ==> m.contains_key((#[trigger] v[i]).0) && m[v[i].0] == v[i].1@
    &&& forall|k: u16| m.contains_key(k) ==> exists|i: int| 0 <= i < v.len() && (#[trigger] v[i]).0 == k
}

/// The entries of a map of hashes, by increasing index.
fn sorted_entries(m: &BTreeMap<TreeIndex, Hash32>) -> (v: Vec<(TreeIndex, Hash32)>)
    ensures
        is_listing(seq_map(m@), v@),
{
    let mut v: Vec<(TreeIndex, Hash32)> = Vec::new();
    let iter0 = m.iter();
    let ghost all = iter0.remaining();
    assert(all.len() == m@.dom().len());
    for entry in it: iter0
        invariant
            it.seq() == all,
            v@.len() == it.index(),
            forall|i: int| 0 <= i < it.index() ==> #[trigger] v@[i] == (*it.seq()[i].0, *it.seq()[i].1),
    {
        v.push((*entry.0, *entry.1));
    }
    assert(v@.len() == all.len());
    let ghost keys = all.map_values(|kv: (&TreeIndex, &Hash32)| *kv.0);
    assert(vstd::std_specs::btree::increasing_seq(keys));
    assert forall|i: int, j: int| 0 <= i < j < v@.len() implies (#[trigger] v@[i]).0 < (
    #[trigger] v@[j]).0 by {
        assert(keys[i].cmp_spec(&keys[j]) is Less);
    }
    assert forall|i: int| 0 <= i < v@.len() implies seq_map(m@).contains_key((#[trigger] v@[i]).0)
        && seq_map(m@)[v@[i].0] == v@[i].1@ by {
        assert(m@.contains_key(*all[i].0));
    }
    assert forall|k: u16| seq_map(m@).contains_key(k) implies exists|i: int|
        0 <= i < v@.len() && (#[trigger] v@[i]).0 == k by {
        assert(m@.contains_key(k));
        assert(all.contains((&k, &m@[k])));
        let i = choose|i: int| 0 <= i < all.len() && all[i] == (&k, &m@[k]);
        assert(v@[i].0 == k);
    }
    v
}

/// A binary Merkle tree over 2^15 leaves.
pub struct MerkleTree {
    hashes: BTreeMap<TreeIndex, Hash32>,
    hashes_for_witness: BTreeMap<TreeIndex, Hash32>,
    witness: BTreeMap<TreeIndex, Hash32>,
}

impl View for MerkleTree {
    type V = TreeView;

    closed spec fn view(&self) -> TreeView {
        TreeView {
            hashes: seq_map(self.hashes@),
            snapshot: seq_map(self.hashes_for_witness@),
            witness: seq_map(self.witness@),
        }
    }
}

impl MerkleTree {
    /// An empty tree.
    pub fn new() -> (t: Self)
        ensures
            t@.hashes == Map::<u16, Seq<u8>>::empty(),
            t@.snapshot == Map::<u16, Seq<u8>>::empty(),
            t@.witness == Map::<u16, Seq<u8>>::empty(),
    {
        let t = MerkleTree {
            hashes: BTreeMap::new(),
            hashes_for_witness: BTreeMap::new(),
            witness: BTreeMap::new(),
        };
        assert(t@.hashes =~= Map::<u16, Seq<u8>>::empty());
        assert(t@.snapshot =~= Map::<u16, Seq<u8>>::empty());
        assert(t@.witness =~= Map::<u16, Seq<u8>>::empty());
        t
    }

    /// The hash of node `ix` (the zero hash when absent), recording the
    /// read in the witness.
    pub fn get_hash(&mut self, ix: TreeIndex) -> (h: Hash32)
        ensures
            h@ == node_of(old(self)@.hashes, ix as int),
            final(self)@ == read_node(old(self)@, ix as int),
    {
        match self.hashes.get(&ix) {
            Some(found) => {
                let h = *found;
                match self.hashes_for_witness.get(&ix) {
                    Some(w) => {
                        let w = *w;
                        if !is_empty_hash(&w) {
                            self.witness.insert(ix, w);
                            assert(self@.witness =~= old(self)@.witness.insert(ix, w@));
                        }
                    },
                    None => {},
                }
                assert(self@ == read_node(old(self)@, ix as int));
                h
            },
            None => empty_hash(),
        }
    }

    /// Hands out the hashes read since the last snapshot, by increasing
    /// index, and starts a new record against the current hashes.
    pub fn take_witness(&mut self) -> (w: Vec<(TreeIndex, Hash32)>)
        ensures
            is_listing(old(self)@.witness, w@),
            final(self)@ == (TreeView {
                hashes: old(self)@.hashes,
                snapshot: old(self)@.hashes,
                witness: Map::empty(),
            }),
    {
        let w = sorted_entries(&self.witness);
        self.witness = BTreeMap::new();
        self.hashes_for_witness = self.hashes.clone();
        assert(self@.witness =~= Map::<u16, Seq<u8>>::empty());
        w
    }

    /// Stores `h` at node `ix`, without touching any other node.
    pub fn set_node(&mut self, ix: TreeIndex, h: Hash32)
        ensures
            final(self)@ == write_node(old(self)@, ix as int, h@),
    {
        self.hashes.insert(ix, h);
        assert(self@.hashes =~= old(self)@.hashes.insert(ix, h@));
    }

    /// The root hash, recording the read.
    pub fn root(&mut self) -> (h: Hash32)
        ensures
            h@ == tree_root(old(self)@),
            final(self)@ == read_node(old(self)@, ROOT_INDEX as int),
    {
        self.get_hash(ROOT_INDEX)
    }

    /// Reads the siblings along the path of leaf `ix`, so that the witness
    /// holds what is needed to recompute the root from that leaf.
    pub fn witness_access(&mut self, ix: TreeIndex)
        ensures
            final(self)@ == tree_access(old(self)@, ix),
    {
        let mut at: u16 = ix;
        let mut offset: u16 = 0;
        let mut step: u16 = 32768;
        while step > 1
            invariant
                is_level_step(step as int),
                offset as int == 65536 - 2 * step,
                (at as int) < 2 * step,
                access_walk(self@, offset as int, step as int, at as int) == tree_access(
                    old(self)@,
                    ix,
                ),
            decreases step,
        {
            if at % 2 == 0 {
                self.get_hash(offset + at + 1);
            } else {
                self.get_hash(offset + at - 1);
            }
            offset = offset + step;
            at = at / 2;
            step = step / 2;
        }
    }

    /// Stores `value_hash` at leaf `ix` and recomputes the hashes on the
    /// way to the root.
    pub fn insert(&mut self, ix: TreeIndex, value_hash: Hash32)
        ensures
            final(self)@ == tree_insert(old(self)@, ix, value_hash@),
    {
        let mut hash: Hash32 = value_hash;
        let mut at: u16 = ix;
        let mut offset: u16 = 0;
        let mut step: u16 = 32768;
        while step > 1
            invariant
                is_level_step(step as int),
                offset as int == 65536 - 2 * step,
                (at as int) < 2 * step,
                insert_walk(self@, offset as int, step as int, at as int, hash@) == tree_insert(
                    old(self)@,
                    ix,
                    value_hash@,
                ),
            decreases step,
        {
            self.set_node(offset + at, hash);
            if at % 2 == 0 {
                let s = self.get_hash(offset + at + 1);
                hash = hash_pair(&hash, &s);
            } else {
                let s = self.get_hash(offset + at - 1);
                hash = hash_pair(&s, &hash);
            }
            offset = offset + step;
            at = at / 2;
            step = step / 2;
        }
        self.set_node(offset + at, hash);
    }
}

} // verus!
