//! Little-endian fields and length-prefixed byte strings: the building blocks
//! of the message layout used by requests and responses.
use vstd::prelude::*;

verus! {

/// `256` raised to the `n`.
pub open spec fn pow256(n: nat) -> nat
    decreases n,
{
    if n == 0 {
        1
    } else {
        256 * pow256((n - 1) as nat)
    }
}

/// The number whose little-endian digits (base 256) are the bytes of `s`.
pub open spec fn le_value(s: Seq<u8>) -> nat
    decreases s.len(),
{
    if s.len() == 0 {
        0
    } else {
        s[0] as nat + 256 * le_value(s.drop_first())
    }
}

/// The `n` lowest base-256 digits of `v`, least significant first.
pub open spec fn le_bytes(v: nat, n: nat) -> Seq<u8>
    decreases n,
{
    if n == 0 {
        Seq::empty()
    } else {
        seq![(v % 256) as u8] + le_bytes(v / 256, (n - 1) as nat)
    }
}

/// Reads an `n`-byte little-endian number off the front of `s`.
pub open spec fn take_le(s: Seq<u8>, n: nat) -> Option<(nat, Seq<u8>)> {
    if n <= s.len() {
        Some((le_value(s.take(n as int)), s.skip(n as int)))
    } else {
        None
    }
}

/// Takes `n` bytes off the front of `s`.
pub open spec fn take_bytes(s: Seq<u8>, n: nat) -> Option<(Seq<u8>, Seq<u8>)> {
    if n <= s.len() {
        Some((s.take(n as int), s.skip(n as int)))
    } else {
        None
    }
}

pub proof fn lemma_pow256_facts()
    ensures
        pow256(2) == 0x1_0000,
        pow256(4) == 0x1_0000_0000,
        pow256(7) == 0x100_0000_0000_0000,
        pow256(8) == 0x1_0000_0000_0000_0000,
{
    reveal_with_fuel(pow256, 9);
}

pub proof fn lemma_pow256_mono(a: nat, b: nat)
    requires
        a <= b,
    ensures
        pow256(a) <= pow256(b),
    decreases b,
{
    if a < b {
        lemma_pow256_mono(a, (b - 1) as nat);
    }
}

pub proof fn lemma_le_bytes_len(v: nat, n: nat)
    ensures
        le_bytes(v, n).len() == n,
    decreases n,
{
    if n > 0 {
        lemma_le_bytes_len(v / 256, (n - 1) as nat);
    }
}

/// Encoding a number that fits in `n` bytes and reading it back gives the number.
pub proof fn lemma_le_roundtrip(v: nat, n: nat)
    requires
        v < pow256(n),
    ensures
        le_value(le_bytes(v, n)) == v,
        le_bytes(v, n).len() == n,
    decreases n,
{
    lemma_le_bytes_len(v, n);
    if n > 0 {
        let p = pow256((n - 1) as nat);
        assert(v / 256 < p) by (nonlinear_arith)
            requires
                v < 256 * p,
        ;
        lemma_le_roundtrip(v / 256, (n - 1) as nat);
        let s = le_bytes(v, n);
        assert(s.drop_first() =~= le_bytes(v / 256, (n - 1) as nat));
        assert(v == v % 256 + 256 * (v / 256)) by (nonlinear_arith);
    }
}

/// A little-endian number is smaller than `256` to the number of its bytes.
pub proof fn lemma_le_value_bound(s: Seq<u8>)
    ensures
        le_value(s) < pow256(s.len()),
    decreases s.len(),
{
    if s.len() > 0 {
        lemma_le_value_bound(s.drop_first());
        let p = pow256(s.drop_first().len());
        let r = le_value(s.drop_first());
        let b = s[0] as nat;
        assert(b + 256 * r < 256 * p) by (nonlinear_arith)
            requires
                r < p,
                b < 256,
        ;
    }
}

/// Reading `n` little-endian bytes off an encoding followed by anything.
pub proof fn lemma_take_le_encoded(v: nat, n: nat, rest: Seq<u8>)
    requires
        v < pow256(n),
    ensures
        take_le(le_bytes(v, n) + rest, n) == Some((v, rest)),
{
    lemma_le_roundtrip(v, n);
    let s = le_bytes(v, n) + rest;
    assert(s.take(n as int) =~= le_bytes(v, n));
    assert(s.skip(n as int) =~= rest);
}

/// Taking `n` bytes off a string of `n` bytes followed by anything.
pub proof fn lemma_take_bytes_prefix(b: Seq<u8>, rest: Seq<u8>)
    ensures
        take_bytes(b + rest, b.len()) == Some((b, rest)),
{
    let s = b + rest;
    assert(s.take(b.len() as int) =~= b);
    assert(s.skip(b.len() as int) =~= rest);
}

/// Appends the `n` lowest little-endian bytes of `v`.
pub fn push_le(buf: &mut Vec<u8>, v: u64, n: usize)
    requires
        n <= 8,
    ensures
        final(buf)@ == old(buf)@ + le_bytes(v as nat, n as nat),
{
    let ghost start = buf@;
    let mut x: u64 = v;
    let mut i: usize = 0;
    while i < n
        invariant
            i <= n,
            start + le_bytes(v as nat, n as nat) == buf@ + le_bytes(x as nat, (n - i) as nat),
        decreases n - i,
    {
        let b: u8 = (x % 256) as u8;
        let ghost before = buf@;
        let ghost k = (n - i) as nat;
        assert(le_bytes(x as nat, k) == seq![b] + le_bytes((x / 256) as nat, (k - 1) as nat));
        buf.push(b);
        assert(before + le_bytes(x as nat, k) =~= buf@ + le_bytes((x / 256) as nat, (k - 1) as nat));
        x = x / 256;
        i = i + 1;
    }
    assert(buf@ + le_bytes(x as nat, 0) =~= buf@);
}

/// Appends the bytes of `data`.
pub fn push_bytes(buf: &mut Vec<u8>, data: &[u8])
    ensures
        final(buf)@ == old(buf)@ + data@,
{
    let ghost start = buf@;
    let mut i: usize = 0;
    while i < data.len()
        invariant
            i <= data@.len(),
            buf@ == start + data@.take(i as int),
        decreases data@.len() - i,
    {
        buf.push(data[i]);
        assert(data@.take(i + 1) =~= data@.take(i as int).push(data@[i as int]));
        i = i + 1;
    }
    assert(data@.take(data@.len() as int) =~= data@);
}

/// Reads an `n`-byte little-endian number at `pos`, giving it and the position after it.
pub fn read_le(buf: &[u8], pos: usize, n: usize) -> (r: Option<(u64, usize)>)
    requires
        n <= 8,
        pos <= buf@.len(),
    ensures
        match take_le(buf@.skip(pos as int), n as nat) {
            None => r is None,
            Some((v, rest)) => r matches Some((x, p)) && x as nat == v && p <= buf@.len()
                && rest == buf@.skip(p as int),
        },
{
    if n > buf.len() - pos {
        return None;
    }
    let ghost whole = buf@.subrange(pos as int, pos + n);
    let mut r: u64 = 0;
    let mut i: usize = n;
    proof {
        lemma_pow256_facts();
    }
    while i > 0
        invariant
            i <= n <= 8,
            pos + n <= buf@.len(),
            buf@.len() == buf.len(),
            r as nat == le_value(buf@.subrange(pos + i, pos + n)),
            r < pow256((n - i) as nat),
            pow256(7) == 0x100_0000_0000_0000,
        decreases i,
    {
        let ghost old_r = r;
        let ghost p = pow256((n - i) as nat);
        proof {
            lemma_pow256_mono((n - i) as nat, 7);
        }
        i = i - 1;
        let b = buf[pos + i];
        assert(old_r * 256 + b < 256 * p);
        r = r * 256 + b as u64;
        let ghost s = buf@.subrange(pos + i, pos + n);
        assert(s.drop_first() =~= buf@.subrange(pos + i + 1, pos + n));
        assert(pow256((n - i) as nat) == 256 * p);
    }
    proof {
        assert(buf@.skip(pos as int).take(n as int) =~= buf@.subrange(pos as int, pos + n));
        assert(buf@.skip(pos as int).skip(n as int) =~= buf@.skip(pos + n));
    }
    Some((r, pos + n))
}

/// Reads `n` bytes at `pos`, giving a copy of them and the position after them.
pub fn read_bytes(buf: &[u8], pos: usize, n: u64) -> (r: Option<(Vec<u8>, usize)>)
    requires
        pos <= buf@.len(),
    ensures
        match take_bytes(buf@.skip(pos as int), n as nat) {
            None => r is None,
            Some((b, rest)) => r matches Some((x, p)) && x@ == b && p <= buf@.len()
                && rest == buf@.skip(p as int),
        },
{
    if n > (buf.len() - pos) as u64 {
        return None;
    }
    let end: usize = pos + n as usize;
    let out = vstd::slice::slice_to_vec(&buf[pos..end]);
    proof {
        assert(buf@.skip(pos as int).take(n as int) =~= buf@.subrange(pos as int, end as int));
        assert(buf@.skip(pos as int).skip(n as int) =~= buf@.skip(end as int));
    }
    Some((out, end))
}

} // verus!
