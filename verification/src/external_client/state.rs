//! The external client's state: balances in a Merkle-committed store, and
//! the list of known tokens; with the witness that lets a partial state be
//! rebuilt to replay a state transition.
use vstd::prelude::*;
use crate::external_client::merkle::{is_listing, read_node, tree_root, TreeView, ROOT_INDEX};
use crate::encoding::{natural_encoding, push_length, push_u32};
use crate::external_client::persist::{
    balances_encoding, decode_balances, decode_tokens, leaf_listing, lemma_tokens_body_push,
    parse_balances, parse_tokens, tokens_body, tokens_encoding,
};
use crate::external_client::state_tree::{
    empty_store, keys_increasing, load_pairs, pairs_view, replay, slot_taken, witness_start,
    MerkleValue, StateTree, StateTreeView,
};
use crate::external_client::commitment::{
    committed, law_stores_stay_committed, lemma_committed_by_hashes, lemma_load_stays_committed,
};
use crate::hashing::{blake2b_512, blake2b_prefix, empty_hash, flatten, hash_pair, pair_digest, zero_hash, Hash32, TreeIndex};
use crate::ledger::{balance_key, balance_key_bytes, AccountId, TokenId};

verus! {

/// A balance of one account in one token.
pub type Balance = u64;

/// The hashes of a sequence of values, concatenated.
pub open spec fn merkle_concat<V: MerkleValue>(values: Seq<V>) -> Seq<Seq<u8>> {
    values.map_values(|v: V| v.merkle_spec())
}

/// The first 32 bytes of the BLAKE2b digest of the concatenated hashes of
/// `values` (hashing nothing when `values` is empty).
pub fn hash_sequence<V: MerkleValue>(values: &[V]) -> (h: Hash32)
    ensures
        h@ == blake2b_512(flatten(merkle_concat(values@))).take(32),
{
    let ghost parts = merkle_concat(values@);
    let mut data: Vec<u8> = Vec::new();
    let mut i: usize = 0;
    while i < values.len()
        invariant
            i <= values@.len(),
            parts == merkle_concat(values@),
            data@ == flatten(parts.take(i as int)),
        decreases values@.len() - i,
    {
        let h = values[i].merkle_value();
        let ghost before = data@;
        crate::encoding::push_bytes(&mut data, h.as_slice());
        assert(parts.take(i + 1).drop_last() =~= parts.take(i as int));
        i = i + 1;
    }
    assert(parts.take(values@.len() as int) =~= parts);
    blake2b_prefix(data.as_slice())
}

/// The hash of the known tokens: the zero hash when there is none.
pub open spec fn tokens_digest(ids: Seq<TokenId>) -> Seq<u8> {
    if ids.len() > 0 {
        blake2b_512(flatten(merkle_concat(ids))).take(32)
    } else {
        zero_hash()
    }
}

/// The tokens minted so far, in order of first mint.
pub struct KnownTokens {
    token_ids: Vec<TokenId>,
    witness: Vec<TokenId>,
}

impl View for KnownTokens {
    type V = Seq<TokenId>;

    closed spec fn view(&self) -> Seq<TokenId> {
        self.token_ids@
    }
}

impl KnownTokens {
    /// The hash that commits to the known tokens.
    pub fn merkle_value(&self) -> (h: Hash32)
        ensures
            h@ == tokens_digest(self@),
    {
        if self.token_ids.len() > 0 {
            hash_sequence(self.token_ids.as_slice())
        } else {
            empty_hash()
        }
    }

    /// The tokens file: the known tokens in order.
    fn serialize(&self) -> (bytes: Vec<u8>)
        requires
            self@.len() <= u32::MAX,
        ensures
            bytes@ == tokens_encoding(self@),
    {
        let mut out: Vec<u8> = Vec::new();
        push_length(&mut out, self.token_ids.len() as u32);
        let ghost head = out@;
        let ghost ids = self.token_ids@;
        let mut i: usize = 0;
        assert(ids.take(0) =~= Seq::<TokenId>::empty());
        while i < self.token_ids.len()
            invariant
                i <= ids.len(),
                ids == self.token_ids@,
                head == natural_encoding(ids.len()),
                out@ == head + tokens_body(ids.take(i as int)),
            decreases ids.len() - i,
        {
            push_u32(&mut out, self.token_ids[i]);
            proof {
                lemma_tokens_body_push(ids.take(i as int), ids[i as int]);
                assert(ids.take(i as int).push(ids[i as int]) =~= ids.take(i + 1));
            }
            i = i + 1;
        }
        assert(ids.take(ids.len() as int) =~= ids);
        out
    }

    /// Adds a token unless it is already known.
    fn push_token(&mut self, token_id: TokenId)
        ensures
            final(self).witness == old(self).witness,
            final(self).token_ids@ == (if old(self).token_ids@.contains(token_id) {
                old(self).token_ids@
            } else {
                old(self).token_ids@.push(token_id)
            }),
    {
        if !contains_token(&self.token_ids, token_id) {
            self.token_ids.push(token_id);
        }
    }
}

/// Whether `ids` holds `token_id`.
fn contains_token(ids: &Vec<TokenId>, token_id: TokenId) -> (r: bool)
    ensures
        r == ids@.contains(token_id),
{
    let mut i: usize = 0;
    while i < ids.len()
        invariant
            i <= ids@.len(),
            forall|j: int| 0 <= j < i ==> ids@[j] != token_id,
        decreases ids@.len() - i,
    {
        if ids[i] == token_id {
            assert(ids@[i as int] == token_id);
            return true;
        }
        i = i + 1;
    }
    false
}

/// What a state holds: its balances store, the known tokens, and the known
/// tokens as they were when the witness was last taken.
pub struct StateView {
    pub balances: StateTreeView<Balance>,
    pub tokens: Seq<TokenId>,
    pub token_witness: Seq<TokenId>,
}

/// What a partial state is rebuilt from: the node hashes, the balances and
/// the known tokens that a state transition reads.
#[derive(Debug, Default)]
pub struct Witness {
    pub hashes: Vec<(TreeIndex, Hash32)>,
    pub key_value_balances: Vec<(Vec<u8>, Balance)>,
    pub token_ids: Vec<TokenId>,
}

/// The root of a state: its balances root combined with the hash of its
/// known tokens.
pub open spec fn state_root(v: StateView) -> Seq<u8> {
    pair_digest(tree_root(v.balances.tree), tokens_digest(v.tokens))
}

/// A store with its witness taken: nothing recorded, the snapshot set to
/// the current hashes.
pub open spec fn witness_reset<V>(t: StateTreeView<V>) -> StateTreeView<V> {
    StateTreeView {
        entries: t.entries,
        tree: TreeView { hashes: t.tree.hashes, snapshot: t.tree.hashes, witness: Map::empty() },
        recorded: Seq::empty(),
        absent: Set::empty(),
    }
}

/// The effect of reading the balance of `account` in `token_id`.
pub open spec fn balance_read(v: StateView, account: AccountId, token_id: TokenId) -> (
    StateView,
    Option<Balance>,
) {
    let k = balance_key_bytes(token_id, account@);
    (
        StateView {
            balances: crate::external_client::state_tree::get_effect(v.balances, k),
            ..v
        },
        if v.balances.entries.contains_key(k) {
            Some(v.balances.entries[k])
        } else {
            None
        },
    )
}

/// The effect of setting the balance of `account` in `token_id`, and
/// whether it was set (it is not when another key occupies its leaf).
pub open spec fn balance_write(
    v: StateView,
    account: AccountId,
    token_id: TokenId,
    balance: Balance,
) -> (StateView, bool) {
    let r = crate::external_client::state_tree::set_effect(
        v.balances,
        balance_key_bytes(token_id, account@),
        balance,
    );
    (StateView { balances: r.0, ..v }, r.1)
}

/// The balance of `account` in `token_id`, if any.
pub open spec fn balance_of(v: StateView, account: AccountId, token_id: TokenId) -> Option<Balance> {
    balance_read(v, account, token_id).1
}

/// The view of a state with no balance and no known token.
pub open spec fn empty_state() -> StateView {
    StateView { balances: empty_store::<Balance>(), tokens: Seq::empty(), token_witness: Seq::empty() }
}

/// The state of a token ledger.
pub struct State {
    balances: StateTree<Balance>,
    known_tokens: KnownTokens,
}

impl View for State {
    type V = StateView;

    closed spec fn view(&self) -> StateView {
        StateView {
            balances: self.balances@,
            tokens: self.known_tokens.token_ids@,
            token_witness: self.known_tokens.witness@,
        }
    }
}

impl Default for State {
    /// An empty state.
    fn default() -> (s: Self)
        ensures
            s.wf(),
            s@ == empty_state(),
            committed(s@.balances),
    {
        let s = State::new();
        assert(s@.balances =~= empty_store::<Balance>());
        s
    }
}

impl State {
    /// The state is well formed: every stored balance sits at the leaf its
    /// key hashes to.
    pub closed spec fn wf(&self) -> bool {
        self.balances.wf()
    }

    /// Distinct balance keys of the state sit at distinct leaves.
    pub proof fn lemma_distinct_leaves(&self)
        ensures
            crate::external_client::replay::distinct_leaves(self@.balances.entries),
    {
        self.balances.lemma_distinct_leaves();
    }

    /// An empty state.
    pub fn new() -> (s: Self)
        ensures
            s.wf(),
            s@.balances.entries == Map::<Seq<u8>, Balance>::empty(),
            s@.balances.tree.hashes == Map::<u16, Seq<u8>>::empty(),
            s@.balances.tree.snapshot == Map::<u16, Seq<u8>>::empty(),
            s@.balances.tree.witness == Map::<u16, Seq<u8>>::empty(),
            s@.balances.recorded == Seq::<(Seq<u8>, Balance)>::empty(),
            s@.balances.absent == Set::<Seq<u8>>::empty(),
            s@.tokens == Seq::<TokenId>::empty(),
            s@.token_witness == Seq::<TokenId>::empty(),
            committed(s@.balances),
    {
        let s = State {
            balances: StateTree::new(),
            known_tokens: KnownTokens { token_ids: Vec::new(), witness: Vec::new() },
        };
        proof {
            law_stores_stay_committed::<Balance>(empty_store::<Balance>(), Seq::empty(), 0);
            lemma_committed_by_hashes(s@.balances, empty_store::<Balance>());
        }
        s
    }

    /// Hands out what was read since the witness was last taken: the node
    /// hashes by increasing index, the balances that the accessed keys held
    /// at their first access (keys then empty left out) by strictly
    /// increasing key, and the known tokens as they were then; and starts a
    /// new record against the current state.
    pub fn take_witness(&mut self) -> (w: Witness)
        requires
            old(self).wf(),
        ensures
            final(self).wf(),
            is_listing(old(self)@.balances.tree.witness, w.hashes@),
            pairs_view(w.key_value_balances@) == old(self)@.balances.recorded,
            keys_increasing(pairs_view(w.key_value_balances@)),
            w.token_ids@ == old(self)@.token_witness,
            final(self)@ == (StateView {
                balances: witness_reset(old(self)@.balances),
                tokens: old(self)@.tokens,
                token_witness: old(self)@.tokens,
            }),
            committed(old(self)@.balances) ==> committed(final(self)@.balances),
    {
        proof {
            lemma_committed_by_hashes(old(self)@.balances, witness_reset(old(self)@.balances));
        }
        let (hashes, values) = self.balances.take_witness();
        let mut token_ids: Vec<TokenId> = Vec::new();
        std::mem::swap(&mut token_ids, &mut self.known_tokens.witness);
        self.known_tokens.witness = self.known_tokens.token_ids.clone();
        assert(self.known_tokens.witness@ =~= self.known_tokens.token_ids@);
        Witness { hashes, key_value_balances: values, token_ids }
    }

    /// Rebuilds a partial state from a witness: `None` when replaying its
    /// balances moves the root that its hashes give.
    pub fn from_witness(witness: Witness) -> (r: Option<Self>)
        ensures
            match r {
                Some(s) => s.wf() && (replay(
                    witness_start::<Balance>(witness.hashes@),
                    pairs_view(witness.key_value_balances@),
                    tree_root(witness_start::<Balance>(witness.hashes@).tree),
                ) matches Some(t) && s@ == (StateView {
                    balances: witness_reset(t),
                    tokens: witness.token_ids@,
                    token_witness: witness.token_ids@,
                })),
                None => replay(
                    witness_start::<Balance>(witness.hashes@),
                    pairs_view(witness.key_value_balances@),
                    tree_root(witness_start::<Balance>(witness.hashes@).tree),
                ) is None,
            },
    {
        let Witness { hashes, key_value_balances, token_ids } = witness;
        let balances = match StateTree::init_from_witness(&hashes, key_value_balances) {
            Some(b) => b,
            None => return None,
        };
        let mut result = State {
            balances,
            known_tokens: KnownTokens { token_ids, witness: Vec::new() },
        };
        let _ = result.take_witness();
        Some(result)
    }

    /// Opens a state from the contents of its balances and tokens files:
    /// the balances stored in turn into an empty store, the tokens as read;
    /// the witness starts anew. `None` when a file is cut short.
    pub fn from_files(balances: &[u8], tokens: &[u8]) -> (r: Option<Self>)
        ensures
            match (parse_balances(balances@), parse_tokens(tokens@)) {
                (Some(kvs), Some(ids)) => r matches Some(s) && s.wf() && committed(s@.balances)
                    && s@ == (StateView {
                    balances: witness_reset(load_pairs(empty_store::<Balance>(), kvs)),
                    tokens: ids,
                    token_witness: ids,
                }),
                _ => r is None,
            },
    {
        let pairs = match decode_balances(balances) {
            Some(p) => p,
            None => return None,
        };
        let token_ids = match decode_tokens(tokens) {
            Some(t) => t,
            None => return None,
        };
        let mut result = State {
            balances: StateTree::from_pairs(pairs),
            known_tokens: KnownTokens { token_ids, witness: Vec::new() },
        };
        proof {
            law_stores_stay_committed::<Balance>(empty_store::<Balance>(), Seq::empty(), 0);
            lemma_load_stays_committed(empty_store::<Balance>(), pairs_view(pairs@));
        }
        let _ = result.take_witness();
        Some(result)
    }

    /// The contents of the balances and tokens files that the state is
    /// persisted to; `None` when a key or the list of tokens is too long
    /// for them (over `u32::MAX` entries).
    pub fn serialize(&self) -> (r: Option<(Vec<u8>, Vec<u8>)>)
        requires
            self.wf(),
        ensures
            r is Some <==> (forall|k: Seq<u8>|
                self@.balances.entries.contains_key(k) ==> k.len() <= u32::MAX) && self@.tokens.len()
                <= u32::MAX,
            r matches Some(files) ==> (exists|l: Seq<(Seq<u8>, Balance)>|
                leaf_listing(self@.balances.entries, l) && files.0@ == balances_encoding(l))
                && files.1@ == tokens_encoding(self@.tokens),
    {
        if self.known_tokens.token_ids.len() > 0xffff_ffff {
            return None;
        }
        let balances = self.balances.serialize();
        assert(self@.balances == self.balances@);
        match balances {
            Some(b) => Some((b, self.known_tokens.serialize())),
            None => None,
        }
    }

    /// The state root: the balances root combined with the known tokens'
    /// hash.
    pub fn get_root(&mut self) -> (h: Hash32)
        requires
            old(self).wf(),
        ensures
            final(self).wf(),
            h@ == state_root(old(self)@),
            final(self)@ == (StateView {
                balances: StateTreeView {
                    tree: read_node(old(self)@.balances.tree, ROOT_INDEX as int),
                    ..old(self)@.balances
                },
                ..old(self)@
            }),
            committed(old(self)@.balances) ==> committed(final(self)@.balances),
    {
        proof {
            lemma_committed_by_hashes(
                old(self)@.balances,
                StateTreeView {
                    tree: read_node(old(self)@.balances.tree, ROOT_INDEX as int),
                    ..old(self)@.balances
                },
            );
        }
        let balances_root = self.balances.root();
        let tokens = self.known_tokens.merkle_value();
        hash_pair(&balances_root, &tokens)
    }

    /// The balance of `account` in `token_id`, recording the read.
    pub fn get_balance(&mut self, account: AccountId, token_id: TokenId) -> (r: Option<Balance>)
        requires
            old(self).wf(),
        ensures
            final(self).wf(),
            (final(self)@, r) == balance_read(old(self)@, account, token_id),
            committed(old(self)@.balances) ==> committed(final(self)@.balances),
    {
        proof {
            law_stores_stay_committed(old(self)@.balances, balance_key_bytes(token_id, account@), 0);
        }
        let to_key = balance_key(token_id, &account);
        self.balances.get(to_key.as_slice())
    }

    /// Stores the balance of `account` in `token_id`; `false` (after a read
    /// of the balance) when another key occupies the leaf of its key.
    pub(crate) fn store_balance(&mut self, account: AccountId, token_id: TokenId, balance: Balance) -> (ok:
        bool)
        requires
            old(self).wf(),
        ensures
            final(self).wf(),
            (final(self)@, ok) == balance_write(old(self)@, account, token_id, balance),
            committed(old(self)@.balances) ==> committed(final(self)@.balances),
    {
        proof {
            law_stores_stay_committed(old(self)@.balances, balance_key_bytes(token_id, account@), balance);
        }
        let to_key = balance_key(token_id, &account);
        self.balances.set(to_key, balance)
    }

    /// Sets the balance of `account` in `token_id`, whose key must have its
    /// leaf to itself.
    pub fn set_balance(&mut self, account: AccountId, token_id: TokenId, balance: Balance)
        requires
            old(self).wf(),
            !slot_taken(old(self)@.balances, balance_key_bytes(token_id, account@)),
        ensures
            final(self).wf(),
            balance_write(old(self)@, account, token_id, balance).1,
            final(self)@ == balance_write(old(self)@, account, token_id, balance).0,
            committed(old(self)@.balances) ==> committed(final(self)@.balances),
    {
        let _ = self.store_balance(account, token_id, balance);
    }

    /// Sets the balance of `account` in `token_id` where its key has its
    /// leaf to itself; `false`, with nothing changed, where another key
    /// occupies that leaf.
    pub fn try_set_balance(&mut self, account: AccountId, token_id: TokenId, balance: Balance) -> (ok:
        bool)
        requires
            old(self).wf(),
        ensures
            final(self).wf(),
            ok == !slot_taken(old(self)@.balances, balance_key_bytes(token_id, account@)),
            ok ==> final(self)@ == balance_write(old(self)@, account, token_id, balance).0,
            !ok ==> final(self)@ == old(self)@,
            committed(old(self)@.balances) ==> committed(final(self)@.balances),
    {
        let to_key = balance_key(token_id, &account);
        if self.balances.slot_free(to_key.as_slice()) {
            self.set_balance(account, token_id, balance);
            true
        } else {
            false
        }
    }

    /// Whether `token_id` is a known token.
    pub fn known_tokens_contains(&self, token_id: TokenId) -> (r: bool)
        ensures
            r == self@.tokens.contains(token_id),
    {
        contains_token(&self.known_tokens.token_ids, token_id)
    }

    /// Adds `token_id` to the known tokens unless it is already there.
    pub fn known_tokens_push(&mut self, token_id: TokenId)
        requires
            old(self).wf(),
        ensures
            final(self).wf(),
            final(self)@ == (StateView {
                tokens: if old(self)@.tokens.contains(token_id) {
                    old(self)@.tokens
                } else {
                    old(self)@.tokens.push(token_id)
                },
                ..old(self)@
            }),
    {
        self.known_tokens.push_token(token_id);
    }
}

} // verus!
