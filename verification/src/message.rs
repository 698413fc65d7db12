//! The byte layout of tensors and routes inside protocol messages.
//!
//! Every number is little-endian. A tensor is its element-type number (2
//! bytes), the number of dimensions (4 bytes), each dimension (8 bytes each),
//! the length of its data (8 bytes) and the data. A list of byte strings is
//! each string preceded by its length (4 bytes); its count is written by the
//! message that holds it.
use vstd::prelude::*;
use crate::wire::{
    le_bytes, lemma_le_value_bound, lemma_pow256_facts, lemma_take_bytes_prefix, lemma_take_le_encoded,
    pow256, push_bytes, push_le, read_bytes, read_le, take_bytes, take_le,
};

verus! {

/// What a tensor on the wire holds.
pub struct TensorModel {
    pub dtype: u16,
    pub shape: Seq<u64>,
    pub data: Seq<u8>,
}

/// A tensor as the library holds it: raw element-type number, dimensions and bytes.
#[derive(Debug)]
pub struct TensorPayload {
    pub dtype_code: u16,
    pub shape: Vec<u64>,
    pub data: Vec<u8>,
}

impl Clone for TensorPayload {
    fn clone(&self) -> (r: TensorPayload)
        ensures
            r@ == self@,
    {
        TensorPayload { dtype_code: self.dtype_code, shape: self.shape.clone(), data: self.data.clone() }
    }
}

impl View for TensorPayload {
    type V = TensorModel;

    open spec fn view(&self) -> TensorModel {
        TensorModel { dtype: self.dtype_code, shape: self.shape@, data: self.data@ }
    }
}

/// Whether the lengths of `t` fit their length fields.
pub open spec fn tensor_fits(t: TensorModel) -> bool {
    t.shape.len() < pow256(4) && t.data.len() < pow256(8)
}

/// Whether every string of `s` fits a 4-byte length field.
pub open spec fn blobs_fit(s: Seq<Seq<u8>>) -> bool {
    forall|i: int| 0 <= i < s.len() ==> (#[trigger] s[i]).len() < pow256(4)
}

pub open spec fn enc_u64s(s: Seq<u64>) -> Seq<u8>
    decreases s.len(),
{
    if s.len() == 0 {
        Seq::empty()
    } else {
        le_bytes(s[0] as nat, 8) + enc_u64s(s.drop_first())
    }
}

pub open spec fn enc_blob(b: Seq<u8>) -> Seq<u8> {
    le_bytes(b.len(), 4) + b
}

pub open spec fn enc_blobs(s: Seq<Seq<u8>>) -> Seq<u8>
    decreases s.len(),
{
    if s.len() == 0 {
        Seq::empty()
    } else {
        enc_blob(s[0]) + enc_blobs(s.drop_first())
    }
}

pub open spec fn enc_tensor(t: TensorModel) -> Seq<u8> {
    le_bytes(t.dtype as nat, 2) + le_bytes(t.shape.len(), 4) + enc_u64s(t.shape) + le_bytes(
        t.data.len(),
        8,
    ) + t.data
}

pub open spec fn dec_u64s(s: Seq<u8>, count: nat) -> Option<(Seq<u64>, Seq<u8>)>
    decreases count,
{
    if count == 0 {
        Some((Seq::empty(), s))
    } else {
        match take_le(s, 8) {
            None => None,
            Some((v, r)) => match dec_u64s(r, (count - 1) as nat) {
                None => None,
                Some((vs, r2)) => Some((seq![v as u64] + vs, r2)),
            },
        }
    }
}

pub open spec fn dec_blob(s: Seq<u8>) -> Option<(Seq<u8>, Seq<u8>)> {
    match take_le(s, 4) {
        None => None,
        Some((n, r)) => take_bytes(r, n),
    }
}

pub open spec fn dec_blobs(s: Seq<u8>, count: nat) -> Option<(Seq<Seq<u8>>, Seq<u8>)>
    decreases count,
{
    if count == 0 {
        Some((Seq::empty(), s))
    } else {
        match dec_blob(s) {
            None => None,
            Some((b, r)) => match dec_blobs(r, (count - 1) as nat) {
                None => None,
                Some((bs, r2)) => Some((seq![b] + bs, r2)),
            },
        }
    }
}

pub open spec fn dec_tensor(s: Seq<u8>) -> Option<(TensorModel, Seq<u8>)> {
    match take_le(s, 2) {
        None => None,
        Some((d, r1)) => match take_le(r1, 4) {
            None => None,
            Some((n, r2)) => match dec_u64s(r2, n) {
                None => None,
                Some((shape, r3)) => match take_le(r3, 8) {
                    None => None,
                    Some((dl, r4)) => match take_bytes(r4, dl) {
                        None => None,
                        Some((data, r5)) => Some(
                            (TensorModel { dtype: d as u16, shape, data }, r5),
                        ),
                    },
                },
            },
        },
    }
}

/// `o` with `acc` put in front of the list it gives.
pub open spec fn with_prefix<T>(acc: Seq<T>, o: Option<(Seq<T>, Seq<u8>)>) -> Option<
    (Seq<T>, Seq<u8>),
> {
    match o {
        None => None,
        Some((vs, r)) => Some((acc + vs, r)),
    }
}

pub proof fn lemma_enc_u64s_push(s: Seq<u64>, x: u64)
    ensures
        enc_u64s(s.push(x)) == enc_u64s(s) + le_bytes(x as nat, 8),
    decreases s.len(),
{
    let t = s.push(x);
    if s.len() == 0 {
        assert(t.drop_first() =~= Seq::<u64>::empty());
        assert(enc_u64s(t.drop_first()) == Seq::<u8>::empty());
        assert(enc_u64s(s) == Seq::<u8>::empty());
        assert(t[0] == x);
        assert(enc_u64s(t) =~= enc_u64s(s) + le_bytes(x as nat, 8));
    } else {
        lemma_enc_u64s_push(s.drop_first(), x);
        assert(t.drop_first() =~= s.drop_first().push(x));
        assert(t[0] == s[0]);
        assert(enc_u64s(t) =~= enc_u64s(s) + le_bytes(x as nat, 8));
    }
}

pub proof fn lemma_enc_blobs_push(s: Seq<Seq<u8>>, x: Seq<u8>)
    ensures
        enc_blobs(s.push(x)) == enc_blobs(s) + enc_blob(x),
    decreases s.len(),
{
    let t = s.push(x);
    if s.len() == 0 {
        assert(t.drop_first() =~= Seq::<Seq<u8>>::empty());
        assert(enc_blobs(t.drop_first()) == Seq::<u8>::empty());
        assert(enc_blobs(s) == Seq::<u8>::empty());
        assert(t[0] == x);
        assert(enc_blobs(t) =~= enc_blobs(s) + enc_blob(x));
    } else {
        lemma_enc_blobs_push(s.drop_first(), x);
        assert(t.drop_first() =~= s.drop_first().push(x));
        assert(t[0] == s[0]);
        assert(enc_blobs(t) =~= enc_blobs(s) + enc_blob(x));
    }
}

pub proof fn lemma_dec_u64s_roundtrip(s: Seq<u64>, rest: Seq<u8>)
    ensures
        dec_u64s(enc_u64s(s) + rest, s.len()) == Some((s, rest)),
    decreases s.len(),
{
    if s.len() > 0 {
        lemma_pow256_facts();
        let tail = enc_u64s(s.drop_first()) + rest;
        assert(enc_u64s(s) + rest =~= le_bytes(s[0] as nat, 8) + tail);
        lemma_take_le_encoded(s[0] as nat, 8, tail);
        lemma_dec_u64s_roundtrip(s.drop_first(), rest);
        assert(seq![s[0]] + s.drop_first() =~= s);
    } else {
        assert(enc_u64s(s) + rest =~= rest);
        assert(s =~= Seq::<u64>::empty());
    }
}

pub proof fn lemma_dec_blob_roundtrip(b: Seq<u8>, rest: Seq<u8>)
    requires
        b.len() < pow256(4),
    ensures
        dec_blob(enc_blob(b) + rest) == Some((b, rest)),
{
    assert(enc_blob(b) + rest =~= le_bytes(b.len(), 4) + (b + rest));
    lemma_take_le_encoded(b.len(), 4, b + rest);
    lemma_take_bytes_prefix(b, rest);
}

pub proof fn lemma_dec_blobs_roundtrip(s: Seq<Seq<u8>>, rest: Seq<u8>)
    requires
        blobs_fit(s),
    ensures
        dec_blobs(enc_blobs(s) + rest, s.len()) == Some((s, rest)),
    decreases s.len(),
{
    if s.len() > 0 {
        let tail = enc_blobs(s.drop_first()) + rest;
        assert(enc_blobs(s) + rest =~= enc_blob(s[0]) + tail);
        assert(s[0].len() < pow256(4));
        lemma_dec_blob_roundtrip(s[0], tail);
        assert(blobs_fit(s.drop_first())) by {
            assert forall|i: int| 0 <= i < s.drop_first().len() implies (#[trigger] s.drop_first()[
                i
            ]).len() < pow256(4) by {
                assert(s.drop_first()[i] == s[i + 1]);
            }
        }
        lemma_dec_blobs_roundtrip(s.drop_first(), rest);
        assert(seq![s[0]] + s.drop_first() =~= s);
    } else {
        assert(enc_blobs(s) + rest =~= rest);
        assert(s =~= Seq::<Seq<u8>>::empty());
    }
}

/// Reading back an encoded tensor, whatever follows it, gives the tensor.
pub proof fn lemma_dec_tensor_roundtrip(t: TensorModel, rest: Seq<u8>)
    requires
        tensor_fits(t),
    ensures
        dec_tensor(enc_tensor(t) + rest) == Some((t, rest)),
{
    lemma_pow256_facts();
    let r4 = t.data + rest;
    let r3 = le_bytes(t.data.len(), 8) + r4;
    let r2 = enc_u64s(t.shape) + r3;
    let r1 = le_bytes(t.shape.len(), 4) + r2;
    let s = le_bytes(t.dtype as nat, 2) + r1;
    assert(enc_tensor(t) + rest =~= s);
    lemma_take_le_encoded(t.dtype as nat, 2, r1);
    lemma_take_le_encoded(t.shape.len(), 4, r2);
    lemma_dec_u64s_roundtrip(t.shape, r3);
    lemma_take_le_encoded(t.data.len(), 8, r4);
    lemma_take_bytes_prefix(t.data, rest);
}

/// A decoded list has the requested number of entries.
pub proof fn lemma_dec_u64s_len(s: Seq<u8>, count: nat)
    requires
        dec_u64s(s, count) is Some,
    ensures
        dec_u64s(s, count).unwrap().0.len() == count,
    decreases count,
{
    if count > 0 {
        let (v, r) = take_le(s, 8).unwrap();
        lemma_dec_u64s_len(r, (count - 1) as nat);
    }
}

/// Decoded byte strings have the requested count and fit their length fields.
pub proof fn lemma_dec_blobs_fit(s: Seq<u8>, count: nat)
    requires
        dec_blobs(s, count) is Some,
    ensures
        dec_blobs(s, count).unwrap().0.len() == count,
        blobs_fit(dec_blobs(s, count).unwrap().0),
    decreases count,
{
    if count > 0 {
        let (b, r) = dec_blob(s).unwrap();
        let (n, r0) = take_le(s, 4).unwrap();
        lemma_le_value_bound(s.take(4));
        lemma_pow256_facts();
        lemma_dec_blobs_fit(r, (count - 1) as nat);
        let (bs, r2) = dec_blobs(r, (count - 1) as nat).unwrap();
        let all = seq![b] + bs;
        assert forall|i: int| 0 <= i < all.len() implies (#[trigger] all[i]).len() < pow256(4) by {
            if i > 0 {
                assert(all[i] == bs[i - 1]);
            }
        }
    }
}

/// A decoded tensor fits its length fields.
pub proof fn lemma_dec_tensor_fits(s: Seq<u8>)
    requires
        dec_tensor(s) is Some,
    ensures
        tensor_fits(dec_tensor(s).unwrap().0),
{
    lemma_pow256_facts();
    let (d, r1) = take_le(s, 2).unwrap();
    let (n, r2) = take_le(r1, 4).unwrap();
    lemma_le_value_bound(r1.take(4));
    lemma_dec_u64s_len(r2, n);
    let (shape, r3) = dec_u64s(r2, n).unwrap();
    let (dl, r4) = take_le(r3, 8).unwrap();
    lemma_le_value_bound(r3.take(8));
}

/// Appends the encoding of a list of numbers.
pub fn encode_u64s(buf: &mut Vec<u8>, s: &[u64])
    ensures
        final(buf)@ == old(buf)@ + enc_u64s(s@),
{
    let ghost start = buf@;
    let mut i: usize = 0;
    while i < s.len()
        invariant
            i <= s@.len(),
            buf@ == start + enc_u64s(s@.take(i as int)),
        decreases s@.len() - i,
    {
        proof {
            lemma_enc_u64s_push(s@.take(i as int), s@[i as int]);
            assert(s@.take(i + 1) =~= s@.take(i as int).push(s@[i as int]));
        }
        push_le(buf, s[i], 8);
        i = i + 1;
    }
    assert(s@.take(s@.len() as int) =~= s@);
}

/// Appends the encoding of a list of byte strings (without its count).
pub fn encode_blobs(buf: &mut Vec<u8>, s: &[Vec<u8>])
    requires
        blobs_fit(s@.map_values(|v: Vec<u8>| v@)),
    ensures
        final(buf)@ == old(buf)@ + enc_blobs(s@.map_values(|v: Vec<u8>| v@)),
{
    let ghost start = buf@;
    let ghost m = s@.map_values(|v: Vec<u8>| v@);
    let mut i: usize = 0;
    while i < s.len()
        invariant
            i <= s@.len(),
            m == s@.map_values(|v: Vec<u8>| v@),
            blobs_fit(m),
            buf@ == start + enc_blobs(m.take(i as int)),
        decreases s@.len() - i,
    {
        proof {
            lemma_enc_blobs_push(m.take(i as int), m[i as int]);
            assert(m.take(i + 1) =~= m.take(i as int).push(m[i as int]));
            lemma_pow256_facts();
        }
        let b = s[i].as_slice();
        assert(b@ == m[i as int]);
        push_le(buf, b.len() as u64, 4);
        push_bytes(buf, b);
        assert(buf@ =~= start + enc_blobs(m.take(i + 1)));
        i = i + 1;
    }
    assert(m.take(s@.len() as int) =~= m);
}

/// Appends the encoding of a tensor.
pub fn encode_tensor(buf: &mut Vec<u8>, dtype_code: u16, shape: &[u64], data: &[u8])
    requires
        shape@.len() < pow256(4),
    ensures
        final(buf)@ == old(buf)@ + enc_tensor(
            TensorModel { dtype: dtype_code, shape: shape@, data: data@ },
        ),
{
    let ghost start = buf@;
    proof {
        lemma_pow256_facts();
    }
    push_le(buf, dtype_code as u64, 2);
    push_le(buf, shape.len() as u64, 4);
    encode_u64s(buf, shape);
    push_le(buf, data.len() as u64, 8);
    push_bytes(buf, data);
    assert(buf@ =~= start + enc_tensor(
        TensorModel { dtype: dtype_code, shape: shape@, data: data@ },
    ));
}

/// Reads `count` numbers at `pos`.
pub fn decode_u64s(buf: &[u8], pos: usize, count: u64) -> (r: Option<(Vec<u64>, usize)>)
    requires
        pos <= buf@.len(),
    ensures
        match dec_u64s(buf@.skip(pos as int), count as nat) {
            None => r is None,
            Some((vs, rest)) => r matches Some((x, p)) && x@ == vs && p <= buf@.len() && rest
                == buf@.skip(p as int),
        },
{
    let mut out: Vec<u64> = Vec::new();
    let mut p: usize = pos;
    let mut i: u64 = 0;
    while i < count
        invariant
            i <= count,
            p <= buf@.len(),
            dec_u64s(buf@.skip(pos as int), count as nat) == with_prefix(
                out@,
                dec_u64s(buf@.skip(p as int), (count - i) as nat),
            ),
        decreases count - i,
    {
        let ghost k = (count - i) as nat;
        match read_le(buf, p, 8) {
            None => {
                return None;
            },
            Some((v, np)) => {
                proof {
                    lemma_pow256_facts();
                    let (vv, rr) = take_le(buf@.skip(p as int), 8).unwrap();
                    assert(dec_u64s(buf@.skip(p as int), k) == match dec_u64s(
                        rr,
                        (k - 1) as nat,
                    ) {
                        None => None,
                        Some((vs, r2)) => Some((seq![vv as u64] + vs, r2)),
                    });
                    match dec_u64s(rr, (k - 1) as nat) {
                        None => {},
                        Some((vs, r2)) => {
                            assert(out@ + (seq![v] + vs) =~= out@.push(v) + vs);
                        },
                    }
                }
                out.push(v);
                p = np;
            },
        }
        i = i + 1;
    }
    proof {
        assert(out@ + Seq::<u64>::empty() =~= out@);
    }
    Some((out, p))
}

/// Reads one length-prefixed byte string at `pos`.
pub fn decode_blob(buf: &[u8], pos: usize) -> (r: Option<(Vec<u8>, usize)>)
    requires
        pos <= buf@.len(),
    ensures
        match dec_blob(buf@.skip(pos as int)) {
            None => r is None,
            Some((b, rest)) => r matches Some((x, p)) && x@ == b && p <= buf@.len() && rest
                == buf@.skip(p as int),
        },
{
    match read_le(buf, pos, 4) {
        None => None,
        Some((n, p)) => read_bytes(buf, p, n),
    }
}

/// Reads `count` length-prefixed byte strings at `pos`.
pub fn decode_blobs(buf: &[u8], pos: usize, count: u64) -> (r: Option<(Vec<Vec<u8>>, usize)>)
    requires
        pos <= buf@.len(),
    ensures
        match dec_blobs(buf@.skip(pos as int), count as nat) {
            None => r is None,
            Some((bs, rest)) => r matches Some((x, p)) && x@.map_values(|v: Vec<u8>| v@) == bs
                && p <= buf@.len() && rest == buf@.skip(p as int),
        },
{
    let mut out: Vec<Vec<u8>> = Vec::new();
    let mut p: usize = pos;
    let mut i: u64 = 0;
    while i < count
        invariant
            i <= count,
            p <= buf@.len(),
            dec_blobs(buf@.skip(pos as int), count as nat) == with_prefix(
                out@.map_values(|v: Vec<u8>| v@),
                dec_blobs(buf@.skip(p as int), (count - i) as nat),
            ),
        decreases count - i,
    {
        let ghost k = (count - i) as nat;
        match decode_blob(buf, p) {
            None => {
                return None;
            },
            Some((b, np)) => {
                let ghost before = out@.map_values(|v: Vec<u8>| v@);
                proof {
                    let (bb, rr) = dec_blob(buf@.skip(p as int)).unwrap();
                    match dec_blobs(rr, (k - 1) as nat) {
                        None => {},
                        Some((bs, r2)) => {
                            assert(before + (seq![b@] + bs) =~= before.push(b@) + bs);
                        },
                    }
                }
                out.push(b);
                assert(out@.map_values(|v: Vec<u8>| v@) =~= before.push(b@));
                p = np;
            },
        }
        i = i + 1;
    }
    proof {
        let m = out@.map_values(|v: Vec<u8>| v@);
        assert(m + Seq::<Seq<u8>>::empty() =~= m);
    }
    Some((out, p))
}

/// Reads a tensor at `pos`.
pub fn decode_tensor(buf: &[u8], pos: usize) -> (r: Option<(TensorPayload, usize)>)
    requires
        pos <= buf@.len(),
    ensures
        match dec_tensor(buf@.skip(pos as int)) {
            None => r is None,
            Some((t, rest)) => r matches Some((x, p)) && x@ == t && p <= buf@.len() && rest
                == buf@.skip(p as int),
        },
{
    proof {
        lemma_pow256_facts();
    }
    let (d, p1) = match read_le(buf, pos, 2) {
        None => return None,
        Some(x) => x,
    };
    let (n, p2) = match read_le(buf, p1, 4) {
        None => return None,
        Some(x) => x,
    };
    let (shape, p3) = match decode_u64s(buf, p2, n) {
        None => return None,
        Some(x) => x,
    };
    let (dl, p4) = match read_le(buf, p3, 8) {
        None => return None,
        Some(x) => x,
    };
    let (data, p5) = match read_bytes(buf, p4, dl) {
        None => return None,
        Some(x) => x,
    };
    proof {
        lemma_le_value_bound(buf@.skip(pos as int).take(2));
    }
    Some((TensorPayload { dtype_code: d as u16, shape, data }, p5))
}

} // verus!
