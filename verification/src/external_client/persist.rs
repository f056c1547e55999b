//! The files a client state is persisted to. The balances file holds the
//! number of stored pairs (eight bytes), then each pair by increasing leaf
//! index: its value (eight bytes), its key's length (as a natural number)
//! and its key. The tokens file holds the number of known tokens (as a
//! natural number), then each token id (four bytes). Integers are
//! little-endian. Bytes after what a file describes are ignored.
use vstd::prelude::*;
use crate::encoding::{
    le_bytes, le_value, lemma_le_bytes_len, lemma_le_value_of_bytes, lemma_natural_round_trip,
    lemma_pow256_values, natural_decode, natural_encoding, push_bytes, read_le, read_natural,
};
use crate::external_client::state::Balance;
use crate::hashing::key_index;
use crate::ledger::TokenId;

verus! {

/// A stored pair as persisted: the value, then the key, length first.
pub open spec fn entry_encoding(k: Seq<u8>, v: Balance) -> Seq<u8> {
    le_bytes(v as nat, 8) + natural_encoding(k.len()) + k
}

/// Pairs as persisted, one after the other.
pub open spec fn entries_body(l: Seq<(Seq<u8>, Balance)>) -> Seq<u8>
    decreases l.len(),
{
    if l.len() == 0 {
        Seq::empty()
    } else {
        entry_encoding(l[0].0, l[0].1) + entries_body(l.drop_first())
    }
}

/// The balances file of the pairs `l`: their number, then each pair.
pub open spec fn balances_encoding(l: Seq<(Seq<u8>, Balance)>) -> Seq<u8> {
    le_bytes(l.len(), 8) + entries_body(l)
}

/// `l` lists the pairs of `entries` by increasing leaf index, each once.
pub open spec fn leaf_listing(entries: Map<Seq<u8>, Balance>, l: Seq<(Seq<u8>, Balance)>) -> bool {
    &&& forall|i: int, j: int|
        0 <= i < j < l.len() ==> key_index((#[trigger] l[i]).0) < key_index((#[trigger] l[j]).0)
    &&& forall|i: int|
        0 <= i < l.len() ==> entries.contains_key((#[trigger] l[i]).0) && entries[l[i].0] == l[i].1
    &&& forall|k: Seq<u8>|
        entries.contains_key(k) ==> exists|i: int| 0 <= i < l.len() && (#[trigger] l[i]).0 == k
}

/// The token ids as persisted, one after the other.
pub open spec fn tokens_body(ids: Seq<TokenId>) -> Seq<u8>
    decreases ids.len(),
{
    if ids.len() == 0 {
        Seq::empty()
    } else {
        le_bytes(ids[0] as nat, 4) + tokens_body(ids.drop_first())
    }
}

/// The tokens file of `ids`: their number, then each id.
pub open spec fn tokens_encoding(ids: Seq<TokenId>) -> Seq<u8> {
    natural_encoding(ids.len()) + tokens_body(ids)
}

/// The pair persisted at the start of `b`, and how many bytes it takes;
/// `None` when `b` is too short or the key's length exceeds `u32::MAX`.
pub open spec fn parse_entry(b: Seq<u8>) -> Option<((Seq<u8>, Balance), nat)> {
    if b.len() < 8 {
        None
    } else {
        match natural_decode(b.skip(8)) {
            None => None,
            Some(d) => if d.0 > u32::MAX || b.len() < 8 + d.1 + d.0 {
                None
            } else {
                Some(
                    (
                        (b.subrange(8 + d.1 as int, 8 + d.1 + d.0 as int), le_value(b.take(8)) as Balance),
                        8 + d.1 + d.0,
                    ),
                )
            },
        }
    }
}

/// The `n` pairs persisted at the start of `b`, if they are all there.
pub open spec fn parse_entries(b: Seq<u8>, n: nat) -> Option<Seq<(Seq<u8>, Balance)>>
    decreases n,
{
    if n == 0 {
        Some(Seq::empty())
    } else {
        match parse_entry(b) {
            None => None,
            Some(p) => match parse_entries(b.skip(p.1 as int), (n - 1) as nat) {
                None => None,
                Some(rest) => Some(seq![p.0] + rest),
            },
        }
    }
}

/// The pairs that a balances file holds, if it is complete.
pub open spec fn parse_balances(b: Seq<u8>) -> Option<Seq<(Seq<u8>, Balance)>> {
    if b.len() < 8 {
        None
    } else {
        parse_entries(b.skip(8), le_value(b.take(8)))
    }
}

/// The `n` token ids persisted at the start of `b`, if they are all there.
pub open spec fn parse_ids(b: Seq<u8>, n: nat) -> Option<Seq<TokenId>>
    decreases n,
{
    if n == 0 {
        Some(Seq::empty())
    } else if b.len() < 4 {
        None
    } else {
        match parse_ids(b.skip(4), (n - 1) as nat) {
            None => None,
            Some(rest) => Some(seq![le_value(b.take(4)) as TokenId] + rest),
        }
    }
}

/// The token ids that a tokens file holds, if it is complete.
pub open spec fn parse_tokens(b: Seq<u8>) -> Option<Seq<TokenId>> {
    match natural_decode(b) {
        None => None,
        Some(d) => if d.0 > u32::MAX {
            None
        } else {
            parse_ids(b.skip(d.1 as int), d.0)
        },
    }
}

/// Reads the pair persisted at position `at`: key, value, and the position
/// after it.
fn read_entry(bytes: &[u8], at: usize) -> (r: Option<(Vec<u8>, Balance, usize)>)
    requires
        at <= bytes@.len(),
    ensures
        match parse_entry(bytes@.skip(at as int)) {
            Some(p) => r matches Some(e) && e.0@ == p.0.0 && e.1 == p.0.1 && e.2 == at + p.1,
            None => r is None,
        },
{
    let ghost b = bytes@.skip(at as int);
    if bytes.len() - at < 8 {
        return None;
    }
    let value = read_le(bytes, at, 8);
    assert(bytes@.subrange(at as int, at + 8) =~= b.take(8));
    let (len, next) = match read_natural(bytes, at + 8) {
        None => {
            assert(bytes@.skip(at + 8) =~= b.skip(8));
            return None;
        },
        Some(d) => d,
    };
    assert(bytes@.skip(at + 8) =~= b.skip(8));
    if len > 0xffff_ffff {
        return None;
    }
    if ((bytes.len() - next) as u64) < len {
        return None;
    }
    let end: usize = next + len as usize;
    let mut key: Vec<u8> = Vec::new();
    push_bytes(&mut key, &bytes[next..end]);
    assert(key@ =~= b.subrange(next - at, end - at));
    Some((key, value, end))
}

/// The pairs that a balances file holds; `None` when it is cut short.
pub fn decode_balances(bytes: &[u8]) -> (r: Option<Vec<(Vec<u8>, Balance)>>)
    ensures
        match parse_balances(bytes@) {
            Some(l) => r matches Some(v) && crate::external_client::state_tree::pairs_view(v@)
                == l,
            None => r is None,
        },
{
    if bytes.len() < 8 {
        return None;
    }
    let n = read_le(bytes, 0, 8);
    assert(bytes@.subrange(0, 8) =~= bytes@.take(8));
    let ghost total = parse_entries(bytes@.skip(8), n as nat);
    let mut out: Vec<(Vec<u8>, Balance)> = Vec::new();
    let mut pos: usize = 8;
    let mut i: u64 = 0;
    while i < n
        invariant
            i <= n,
            8 <= pos <= bytes@.len(),
            total == parse_entries(bytes@.skip(8), n as nat),
            total == parse_balances(bytes@),
            total == (match parse_entries(bytes@.skip(pos as int), (n - i) as nat) {
                Some(rest) => Some(crate::external_client::state_tree::pairs_view(out@) + rest),
                None => None,
            }),
        decreases n - i,
    {
        let ghost b = bytes@.skip(pos as int);
        let ghost before = crate::external_client::state_tree::pairs_view(out@);
        match read_entry(bytes, pos) {
            None => {
                assert(parse_entries(b, (n - i) as nat) is None);
                return None;
            },
            Some((key, value, next)) => {
                let ghost p = parse_entry(b)->Some_0;
                assert(bytes@.skip(next as int) =~= b.skip(p.1 as int));
                out.push((key, value));
                assert(crate::external_client::state_tree::pairs_view(out@) =~= before.push(p.0));
                proof {
                    match parse_entries(bytes@.skip(next as int), (n - i - 1) as nat) {
                        Some(rest) => {
                            assert(before + (seq![p.0] + rest) =~= before.push(p.0) + rest);
                        },
                        None => {},
                    }
                }
                pos = next;
            },
        }
        i = i + 1;
    }
    assert(parse_entries(bytes@.skip(pos as int), 0) == Some(Seq::<(Seq<u8>, Balance)>::empty()));
    assert(crate::external_client::state_tree::pairs_view(out@) + Seq::<(Seq<u8>, Balance)>::empty()
        =~= crate::external_client::state_tree::pairs_view(out@));
    Some(out)
}

/// The token ids that a tokens file holds; `None` when it is cut short or
/// announces more than `u32::MAX` ids.
pub fn decode_tokens(bytes: &[u8]) -> (r: Option<Vec<TokenId>>)
    ensures
        match parse_tokens(bytes@) {
            Some(ids) => r matches Some(v) && v@ == ids,
            None => r is None,
        },
{
    let (n, start) = match read_natural(bytes, 0) {
        None => {
            assert(bytes@.skip(0) =~= bytes@);
            return None;
        },
        Some(d) => d,
    };
    assert(bytes@.skip(0) =~= bytes@);
    if n > 0xffff_ffff {
        return None;
    }
    let ghost total = parse_ids(bytes@.skip(start as int), n as nat);
    let mut out: Vec<TokenId> = Vec::new();
    let mut pos: usize = start;
    let mut i: u64 = 0;
    while i < n
        invariant
            i <= n,
            start <= pos <= bytes@.len(),
            total == parse_ids(bytes@.skip(start as int), n as nat),
            total == parse_tokens(bytes@),
            total == (match parse_ids(bytes@.skip(pos as int), (n - i) as nat) {
                Some(rest) => Some(out@ + rest),
                None => None,
            }),
        decreases n - i,
    {
        let ghost b = bytes@.skip(pos as int);
        if bytes.len() - pos < 4 {
            return None;
        }
        let id = read_le(bytes, pos, 4);
        assert(bytes@.subrange(pos as int, pos + 4) =~= b.take(4));
        proof {
            crate::encoding::lemma_le_value_bound(b.take(4));
            lemma_pow256_values();
        }
        assert(bytes@.skip(pos + 4) =~= b.skip(4));
        let ghost before = out@;
        out.push(id as TokenId);
        proof {
            match parse_ids(bytes@.skip(pos + 4), (n - i - 1) as nat) {
                Some(rest) => {
                    assert(before + (seq![id as TokenId] + rest) =~= out@ + rest);
                },
                None => {},
            }
        }
        pos = pos + 4;
        i = i + 1;
    }
    assert(out@ + Seq::<TokenId>::empty() =~= out@);
    Some(out)
}

/// A persisted pair reads back, whatever follows it.
pub proof fn lemma_entry_round_trip(k: Seq<u8>, v: Balance, rest: Seq<u8>)
    requires
        k.len() <= u32::MAX,
    ensures
        parse_entry(entry_encoding(k, v) + rest) == Some(((k, v), entry_encoding(k, v).len())),
{
    let b = entry_encoding(k, v) + rest;
    lemma_pow256_values();
    lemma_le_bytes_len(v as nat, 8);
    lemma_le_value_of_bytes(v as nat, 8);
    assert(b.take(8) =~= le_bytes(v as nat, 8));
    assert(b.skip(8) =~= natural_encoding(k.len()) + (k + rest));
    lemma_natural_round_trip(k.len(), k + rest);
    let used = natural_encoding(k.len()).len();
    assert(b.subrange(8 + used as int, 8 + used + k.len() as int) =~= k);
}

/// Persisted pairs read back, whatever follows them.
pub proof fn lemma_entries_round_trip(l: Seq<(Seq<u8>, Balance)>, rest: Seq<u8>)
    requires
        forall|i: int| 0 <= i < l.len() ==> (#[trigger] l[i]).0.len() <= u32::MAX,
    ensures
        parse_entries(entries_body(l) + rest, l.len()) == Some(l),
    decreases l.len(),
{
    if l.len() == 0 {
        assert(l =~= Seq::<(Seq<u8>, Balance)>::empty());
    } else {
        let e = entry_encoding(l[0].0, l[0].1);
        let tail = l.drop_first();
        assert forall|i: int| 0 <= i < tail.len() implies (#[trigger] tail[i]).0.len()
            <= u32::MAX by {
            assert(tail[i] == l[i + 1]);
        }
        lemma_entries_round_trip(tail, rest);
        assert(entries_body(l) + rest =~= e + (entries_body(tail) + rest));
        lemma_entry_round_trip(l[0].0, l[0].1, entries_body(tail) + rest);
        assert((e + (entries_body(tail) + rest)).skip(e.len() as int) =~= entries_body(tail)
            + rest);
        assert(seq![l[0]] + tail =~= l);
    }
}

/// Persisted token ids read back, whatever follows them.
pub proof fn lemma_ids_round_trip(ids: Seq<TokenId>, rest: Seq<u8>)
    ensures
        parse_ids(tokens_body(ids) + rest, ids.len()) == Some(ids),
    decreases ids.len(),
{
    if ids.len() == 0 {
        assert(ids =~= Seq::<TokenId>::empty());
    } else {
        let tail = ids.drop_first();
        lemma_ids_round_trip(tail, rest);
        lemma_pow256_values();
        lemma_le_bytes_len(ids[0] as nat, 4);
        lemma_le_value_of_bytes(ids[0] as nat, 4);
        let b = tokens_body(ids) + rest;
        assert(b =~= le_bytes(ids[0] as nat, 4) + (tokens_body(tail) + rest));
        assert(b.take(4) =~= le_bytes(ids[0] as nat, 4));
        assert(b.skip(4) =~= tokens_body(tail) + rest);
        assert(seq![ids[0]] + tail =~= ids);
    }
}

/// Persisting one more pair appends its encoding.
pub proof fn lemma_entries_body_push(l: Seq<(Seq<u8>, Balance)>, e: (Seq<u8>, Balance))
    ensures
        entries_body(l.push(e)) == entries_body(l) + entry_encoding(e.0, e.1),
    decreases l.len(),
{
    if l.len() == 0 {
        assert(l.push(e).drop_first() =~= Seq::<(Seq<u8>, Balance)>::empty());
        assert(entries_body(l.push(e).drop_first()) == Seq::<u8>::empty());
        assert(entries_body(l) == Seq::<u8>::empty());
        assert(entries_body(l.push(e)) =~= entries_body(l) + entry_encoding(e.0, e.1));
    } else {
        lemma_entries_body_push(l.drop_first(), e);
        assert(l.push(e).drop_first() =~= l.drop_first().push(e));
        assert(entries_body(l.push(e)) =~= entries_body(l) + entry_encoding(e.0, e.1));
    }
}

/// Persisting one more token id appends its four bytes.
pub proof fn lemma_tokens_body_push(ids: Seq<TokenId>, id: TokenId)
    ensures
        tokens_body(ids.push(id)) == tokens_body(ids) + le_bytes(id as nat, 4),
    decreases ids.len(),
{
    if ids.len() == 0 {
        assert(ids.push(id).drop_first() =~= Seq::<TokenId>::empty());
        assert(tokens_body(ids.push(id).drop_first()) == Seq::<u8>::empty());
        assert(tokens_body(ids) == Seq::<u8>::empty());
        assert(tokens_body(ids.push(id)) =~= tokens_body(ids) + le_bytes(id as nat, 4));
    } else {
        lemma_tokens_body_push(ids.drop_first(), id);
        assert(ids.push(id).drop_first() =~= ids.drop_first().push(id));
        assert(tokens_body(ids.push(id)) =~= tokens_body(ids) + le_bytes(id as nat, 4));
    }
}

} // verus!
