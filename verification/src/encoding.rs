//! Byte encodings shared by the ledger's messages: little-endian integers
//! and the variable-length natural numbers that prefix sequences.
use vstd::prelude::*;

verus! {

/// The `n` low-order bytes of `x`, least significant first.
pub open spec fn le_bytes(x: nat, n: nat) -> Seq<u8>
    decreases n,
{
    if n == 0 {
        Seq::empty()
    } else {
        seq![(x % 256) as u8] + le_bytes(x / 256, (n - 1) as nat)
    }
}

/// `le_bytes(x, n)` has `n` bytes.
pub proof fn lemma_le_bytes_len(x: nat, n: nat)
    ensures
        le_bytes(x, n).len() == n,
    decreases n,
{
    if n > 0 {
        lemma_le_bytes_len(x / 256, (n - 1) as nat);
    }
}

/// The encoding of a sequence length: one byte for lengths below 2^7,
/// otherwise a head byte whose leading one bits count the `l` bytes that
/// follow, then those bytes (little-endian). Lengths from 2^56 on take the
/// head byte 0xff and eight bytes.
pub open spec fn natural_encoding(x: nat) -> Seq<u8> {
    if x < 0x80 {
        seq![x as u8]
    } else if x < 0x4000 {
        seq![(0x80 + x / 0x100) as u8] + le_bytes(x % 0x100, 1)
    } else if x < 0x20_0000 {
        seq![(0xc0 + x / 0x1_0000) as u8] + le_bytes(x % 0x1_0000, 2)
    } else if x < 0x1000_0000 {
        seq![(0xe0 + x / 0x100_0000) as u8] + le_bytes(x % 0x100_0000, 3)
    } else if x < 0x8_0000_0000 {
        seq![(0xf0 + x / 0x1_0000_0000) as u8] + le_bytes(x % 0x1_0000_0000, 4)
    } else if x < 0x400_0000_0000 {
        seq![(0xf8 + x / 0x100_0000_0000) as u8] + le_bytes(x % 0x100_0000_0000, 5)
    } else if x < 0x2_0000_0000_0000 {
        seq![(0xfc + x / 0x1_0000_0000_0000) as u8] + le_bytes(x % 0x1_0000_0000_0000, 6)
    } else if x < 0x100_0000_0000_0000 {
        seq![(0xfe + x / 0x100_0000_0000_0000) as u8] + le_bytes(x % 0x100_0000_0000_0000, 7)
    } else {
        seq![0xffu8] + le_bytes(x, 8)
    }
}

/// 256 to the power `n`.
pub open spec fn pow256(n: nat) -> nat
    decreases n,
{
    if n == 0 {
        1
    } else {
        256 * pow256((n - 1) as nat)
    }
}

/// Little-endian encodings of the same width tell their values apart.
pub proof fn lemma_le_bytes_injective(x: nat, y: nat, n: nat)
    requires
        x < pow256(n),
        y < pow256(n),
        le_bytes(x, n) == le_bytes(y, n),
    ensures
        x == y,
    decreases n,
{
    if n > 0 {
        assert(le_bytes(x, n)[0] == le_bytes(y, n)[0]);
        assert(le_bytes(x, n)[0] == (x % 256) as u8);
        assert(le_bytes(y, n)[0] == (y % 256) as u8);
        assert(x % 256 == y % 256);
        assert(le_bytes(x, n).drop_first() =~= le_bytes(x / 256, (n - 1) as nat));
        assert(le_bytes(y, n).drop_first() =~= le_bytes(y / 256, (n - 1) as nat));
        assert(x / 256 < pow256((n - 1) as nat)) by (nonlinear_arith)
            requires
                x < 256 * pow256((n - 1) as nat),
        ;
        assert(y / 256 < pow256((n - 1) as nat)) by (nonlinear_arith)
            requires
                y < 256 * pow256((n - 1) as nat),
        ;
        lemma_le_bytes_injective(x / 256, y / 256, (n - 1) as nat);
        assert(x == 256 * (x / 256) + x % 256);
        assert(y == 256 * (y / 256) + y % 256);
    }
}


/// The value of little-endian bytes, least significant first.
pub open spec fn le_value(s: Seq<u8>) -> nat
    decreases s.len(),
{
    if s.len() == 0 {
        0
    } else {
        s[0] as nat + 256 * le_value(s.drop_first())
    }
}

/// The powers of 256 up to the eighth.
pub proof fn lemma_pow256_values()
    ensures
        pow256(0) == 1,
        pow256(1) == 0x100,
        pow256(2) == 0x1_0000,
        pow256(3) == 0x100_0000,
        pow256(4) == 0x1_0000_0000,
        pow256(5) == 0x100_0000_0000,
        pow256(6) == 0x1_0000_0000_0000,
        pow256(7) == 0x100_0000_0000_0000,
        pow256(8) == 0x1_0000_0000_0000_0000,
{
    reveal_with_fuel(pow256, 9);
}

/// `n` little-endian bytes hold a value below 256^n.
pub proof fn lemma_le_value_bound(s: Seq<u8>)
    ensures
        le_value(s) < pow256(s.len()),
    decreases s.len(),
{
    if s.len() > 0 {
        lemma_le_value_bound(s.drop_first());
        let r = le_value(s.drop_first());
        let p = pow256((s.len() - 1) as nat);
        assert(s[0] as nat + 256 * r < 256 * p) by (nonlinear_arith)
            requires
                r < p,
                s[0] < 256,
        ;
    }
}

/// Reading back `n` little-endian bytes of `x` gives `x` when it fits.
pub proof fn lemma_le_value_of_bytes(x: nat, n: nat)
    requires
        x < pow256(n),
    ensures
        le_value(le_bytes(x, n)) == x,
    decreases n,
{
    lemma_le_bytes_len(x, n);
    if n > 0 {
        assert(x / 256 < pow256((n - 1) as nat)) by (nonlinear_arith)
            requires
                x < 256 * pow256((n - 1) as nat),
        ;
        lemma_le_value_of_bytes(x / 256, (n - 1) as nat);
        assert(le_bytes(x, n).drop_first() =~= le_bytes(x / 256, (n - 1) as nat));
        assert(le_bytes(x, n)[0] == (x % 256) as u8);
    } else {
        reveal_with_fuel(pow256, 1);
    }
}

/// Reads `n` little-endian bytes of `bytes` from position `at`.
pub fn read_le(bytes: &[u8], at: usize, n: usize) -> (v: u64)
    requires
        n <= 8,
        at + n <= bytes@.len(),
    ensures
        v == le_value(bytes@.subrange(at as int, at + n)),
{
    proof {
        lemma_pow256_values();
    }
    let len = bytes.len();
    let mut v: u64 = 0;
    let mut i: usize = n;
    assert(bytes@.subrange(at + n, at + n) =~= Seq::<u8>::empty());
    while i > 0
        invariant
            i <= n <= 8,
            at + n <= bytes@.len(),
            len == bytes@.len(),
            v == le_value(bytes@.subrange(at + i, at + n)),
            pow256(0) == 1,
            pow256(1) == 0x100,
            pow256(2) == 0x1_0000,
            pow256(3) == 0x100_0000,
            pow256(4) == 0x1_0000_0000,
            pow256(5) == 0x100_0000_0000,
            pow256(6) == 0x1_0000_0000_0000,
            pow256(7) == 0x100_0000_0000_0000,
            pow256(8) == 0x1_0000_0000_0000_0000,
        decreases i,
    {
        let ghost tail = bytes@.subrange(at + i, at + n);
        proof {
            lemma_le_value_bound(tail);
            assert(tail.len() == n - i);
            assert(pow256((n - i) as nat) <= 0x100_0000_0000_0000);
            assert(v < 0x100_0000_0000_0000);
        }
        i = i - 1;
        let ghost s = bytes@.subrange(at + i, at + n);
        assert(s.drop_first() =~= tail);
        assert(s[0] == bytes@[at + i]);
        let byte: u64 = bytes[at + i] as u64;
        assert(byte < 256 && v < 0x100_0000_0000_0000);
        v = byte + 256 * v;
    }
    v
}

/// How many bytes follow the head byte of an encoded natural number.
pub open spec fn extra_bytes(head: u8) -> nat {
    if head < 0x80 {
        0
    } else if head < 0xc0 {
        1
    } else if head < 0xe0 {
        2
    } else if head < 0xf0 {
        3
    } else if head < 0xf8 {
        4
    } else if head < 0xfc {
        5
    } else if head < 0xfe {
        6
    } else if head < 0xff {
        7
    } else {
        8
    }
}

/// The high part of the number that the head byte carries.
pub open spec fn head_value(head: u8) -> nat {
    if head < 0x80 {
        head as nat
    } else if head < 0xc0 {
        (head - 0x80) as nat
    } else if head < 0xe0 {
        (head - 0xc0) as nat
    } else if head < 0xf0 {
        (head - 0xe0) as nat
    } else if head < 0xf8 {
        (head - 0xf0) as nat
    } else if head < 0xfc {
        (head - 0xf8) as nat
    } else if head < 0xfe {
        (head - 0xfc) as nat
    } else {
        0
    }
}

/// The natural number encoded at the start of `b`, and how many bytes it
/// takes: the head byte, then `extra_bytes` bytes read little-endian, below
/// the high part that the head carries. `None` when `b` is too short.
pub open spec fn natural_decode(b: Seq<u8>) -> Option<(nat, nat)> {
    if b.len() == 0 {
        None
    } else {
        let l = extra_bytes(b[0]);
        if b.len() < 1 + l {
            None
        } else {
            Some((le_value(b.subrange(1, 1 + l as int)) + head_value(b[0]) * pow256(l), 1 + l))
        }
    }
}

/// Reads the natural number encoded at position `at` of `bytes`: its value
/// and the position after it.
pub fn read_natural(bytes: &[u8], at: usize) -> (r: Option<(u64, usize)>)
    requires
        at <= bytes@.len(),
    ensures
        match natural_decode(bytes@.skip(at as int)) {
            Some(d) => r matches Some(p) && p.0 == d.0 && p.1 == at + d.1,
            None => r is None,
        },
{
    proof {
        lemma_pow256_values();
    }
    if at >= bytes.len() {
        return None;
    }
    let ghost b = bytes@.skip(at as int);
    let head: u8 = bytes[at];
    assert(b[0] == head);
    let (l, hv, scale): (usize, u64, u64) = if head < 0x80 {
        (0, head as u64, 1)
    } else if head < 0xc0 {
        (1, (head - 0x80) as u64, 0x100)
    } else if head < 0xe0 {
        (2, (head - 0xc0) as u64, 0x1_0000)
    } else if head < 0xf0 {
        (3, (head - 0xe0) as u64, 0x100_0000)
    } else if head < 0xf8 {
        (4, (head - 0xf0) as u64, 0x1_0000_0000)
    } else if head < 0xfc {
        (5, (head - 0xf8) as u64, 0x100_0000_0000)
    } else if head < 0xfe {
        (6, (head - 0xfc) as u64, 0x1_0000_0000_0000)
    } else if head < 0xff {
        (7, 0, 0x100_0000_0000_0000)
    } else {
        (8, 0, 0)
    };
    assert(l == extra_bytes(head) && hv == head_value(head));
    if bytes.len() - at - 1 < l {
        return None;
    }
    let tail = read_le(bytes, at + 1, l);
    assert(bytes@.subrange(at + 1, at + 1 + l) =~= b.subrange(1, 1 + l as int));
    proof {
        lemma_le_value_bound(b.subrange(1, 1 + l as int));
    }
    if l == 8 {
        assert(head_value(head) * pow256(8) == 0);
        assert(natural_decode(b) == Some((tail as nat, 9nat)));
        return Some((tail, at + 9));
    }
    assert(scale == pow256(l as nat));
    assert(hv * scale + scale <= 0x1_0000_0000_0000_0000) by (nonlinear_arith)
        requires
            l < 8,
            l == 0 ==> hv < 0x80 && scale == 1,
            l == 1 ==> hv < 0x40 && scale == 0x100,
            l == 2 ==> hv < 0x20 && scale == 0x1_0000,
            l == 3 ==> hv < 0x10 && scale == 0x100_0000,
            l == 4 ==> hv < 0x8 && scale == 0x1_0000_0000,
            l == 5 ==> hv < 0x4 && scale == 0x100_0000_0000,
            l == 6 ==> hv < 0x2 && scale == 0x1_0000_0000_0000,
            l == 7 ==> hv == 0 && scale == 0x100_0000_0000_0000,
    ;
    Some((tail + hv * scale, at + 1 + l))
}

/// One width of the natural encoding: a head byte `base + x / scale`
/// followed by the `l` low bytes of `x` reads back as `x`.
proof fn lemma_natural_width(x: nat, rest: Seq<u8>, l: nat, base: nat, scale: nat)
    requires
        1 <= l <= 7,
        scale == pow256(l),
        base + x / scale < 256,
        natural_encoding(x) == seq![(base + x / scale) as u8] + le_bytes(x % scale, l),
        extra_bytes((base + x / scale) as u8) == l,
        head_value((base + x / scale) as u8) == x / scale,
    ensures
        natural_decode(natural_encoding(x) + rest) == Some((x, natural_encoding(x).len())),
{
    let b = natural_encoding(x) + rest;
    lemma_pow256_values();
    assert(scale > 0);
    lemma_le_bytes_len(x % scale, l);
    lemma_le_value_of_bytes(x % scale, l);
    assert(b.subrange(1, 1 + l as int) =~= le_bytes(x % scale, l));
    assert(b[0] == (base + x / scale) as u8);
    assert(x == x % scale + (x / scale) * scale) by (nonlinear_arith)
        requires
            scale > 0,
    ;
}

/// A natural number below 2^64 reads back from its encoding, whatever
/// follows it.
pub proof fn lemma_natural_round_trip(x: nat, rest: Seq<u8>)
    requires
        x <= u64::MAX,
    ensures
        natural_decode(natural_encoding(x) + rest) == Some((x, natural_encoding(x).len())),
{
    lemma_pow256_values();
    let b = natural_encoding(x) + rest;
    if x < 0x80 {
        assert(natural_encoding(x) =~= seq![x as u8]);
        assert(b.subrange(1, 1) =~= Seq::<u8>::empty());
        assert(b[0] == x as u8);
    } else if x < 0x4000 {
        lemma_natural_width(x, rest, 1, 0x80, 0x100);
    } else if x < 0x20_0000 {
        lemma_natural_width(x, rest, 2, 0xc0, 0x1_0000);
    } else if x < 0x1000_0000 {
        lemma_natural_width(x, rest, 3, 0xe0, 0x100_0000);
    } else if x < 0x8_0000_0000 {
        lemma_natural_width(x, rest, 4, 0xf0, 0x1_0000_0000);
    } else if x < 0x400_0000_0000 {
        lemma_natural_width(x, rest, 5, 0xf8, 0x100_0000_0000);
    } else if x < 0x2_0000_0000_0000 {
        lemma_natural_width(x, rest, 6, 0xfc, 0x1_0000_0000_0000);
    } else if x < 0x100_0000_0000_0000 {
        lemma_natural_width(x, rest, 7, 0xfe, 0x100_0000_0000_0000);
    } else {
        lemma_le_bytes_len(x, 8);
        lemma_le_value_of_bytes(x, 8);
        assert(b.subrange(1, 9) =~= le_bytes(x, 8));
        assert(b[0] == 0xffu8);
    }
}

/// The length-prefixed bytes at the start of `b` (a byte vector's
/// encoding), and how many bytes they take; `None` when cut short or when
/// the length exceeds `u32::MAX`.
pub open spec fn prefixed_decode(b: Seq<u8>) -> Option<(Seq<u8>, nat)> {
    match natural_decode(b) {
        None => None,
        Some(d) => if d.0 > u32::MAX || b.len() < d.1 + d.0 {
            None
        } else {
            Some((b.subrange(d.1 as int, (d.1 + d.0) as int), d.1 + d.0))
        },
    }
}

/// Reads the length-prefixed bytes at position `at`: the bytes and the
/// position after them.
pub fn read_prefixed(bytes: &[u8], at: usize) -> (r: Option<(Vec<u8>, usize)>)
    requires
        at <= bytes@.len(),
    ensures
        match prefixed_decode(bytes@.skip(at as int)) {
            Some(d) => r matches Some(p) && p.0@ == d.0 && p.1 == at + d.1,
            None => r is None,
        },
{
    let ghost b = bytes@.skip(at as int);
    let (len, next) = match read_natural(bytes, at) {
        None => return None,
        Some(d) => d,
    };
    if len > 0xffff_ffff {
        return None;
    }
    if ((bytes.len() - next) as u64) < len {
        return None;
    }
    let end: usize = next + len as usize;
    let mut out: Vec<u8> = Vec::new();
    push_bytes(&mut out, &bytes[next..end]);
    assert(out@ =~= b.subrange(next - at, end - at));
    Some((out, end))
}

/// Appends the `n` low-order bytes of `x`, least significant first.
pub fn push_le(out: &mut Vec<u8>, x: u64, n: usize)
    requires
        n <= 8,
    ensures
        final(out)@ == old(out)@ + le_bytes(x as nat, n as nat),
    decreases n,
{
    if n > 0 {
        out.push((x % 256) as u8);
        let ghost mid = out@;
        push_le(out, x / 256, n - 1);
        assert(le_bytes(x as nat, n as nat) =~= seq![(x % 256) as u8] + le_bytes(
            (x / 256) as nat,
            (n - 1) as nat,
        ));
        assert(final(out)@ =~= old(out)@ + le_bytes(x as nat, n as nat));
    } else {
        assert(old(out)@ + le_bytes(x as nat, 0) =~= old(out)@);
    }
}

/// Appends the encoding of the sequence length `len`.
pub fn push_length(out: &mut Vec<u8>, len: u32)
    ensures
        final(out)@ == old(out)@ + natural_encoding(len as nat),
{
    let x: u64 = len as u64;
    if x < 0x80 {
        out.push(x as u8);
        assert(final(out)@ =~= old(out)@ + natural_encoding(len as nat));
    } else if x < 0x4000 {
        out.push((0x80 + x / 0x100) as u8);
        let ghost mid = out@;
        push_le(out, x % 0x100, 1);
        assert(final(out)@ =~= old(out)@ + natural_encoding(len as nat));
    } else if x < 0x20_0000 {
        out.push((0xc0 + x / 0x1_0000) as u8);
        push_le(out, x % 0x1_0000, 2);
        assert(final(out)@ =~= old(out)@ + natural_encoding(len as nat));
    } else if x < 0x1000_0000 {
        out.push((0xe0 + x / 0x100_0000) as u8);
        push_le(out, x % 0x100_0000, 3);
        assert(final(out)@ =~= old(out)@ + natural_encoding(len as nat));
    } else {
        out.push((0xf0 + x / 0x1_0000_0000) as u8);
        push_le(out, x % 0x1_0000_0000, 4);
        assert(final(out)@ =~= old(out)@ + natural_encoding(len as nat));
    }
}

/// Appends the four bytes of `x`, least significant first.
pub fn push_u32(out: &mut Vec<u8>, x: u32)
    ensures
        final(out)@ == old(out)@ + le_bytes(x as nat, 4),
{
    push_le(out, x as u64, 4);
}

/// Appends the eight bytes of `x`, least significant first.
pub fn push_u64(out: &mut Vec<u8>, x: u64)
    ensures
        final(out)@ == old(out)@ + le_bytes(x as nat, 8),
{
    push_le(out, x, 8);
}

/// Appends the bytes of `bytes`.
pub fn push_bytes(out: &mut Vec<u8>, bytes: &[u8])
    ensures
        final(out)@ == old(out)@ + bytes@,
{
    let ghost before = out@;
    out.extend_from_slice(bytes);
    assert(out@ =~= before + bytes@);
}

} // verus!
