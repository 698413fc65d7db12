//! Peer identities, held as the byte encoding that libp2p gives a `PeerId`.
use vstd::prelude::*;

verus! {

/// Whether `bytes` encode a peer, as `libp2p::PeerId::from_bytes` reads
/// them: a multihash whose code is identity (0, with a digest of at most 42
/// bytes) or sha2-256 (0x12), whose digest length is at most 64, both as
/// one-byte varints, followed by exactly that many digest bytes.
pub open spec fn is_peer_id_encoding(bytes: Seq<u8>) -> bool {
    &&& bytes.len() >= 2
    &&& (bytes[0] == 0 && bytes[1] <= 42) || (bytes[0] == 0x12 && bytes[1] <= 64)
    &&& bytes.len() == 2 + bytes[1]
}

/// The text that `libp2p::PeerId::to_base58` gives for the peer encoded by `bytes`.
pub uninterp spec fn peer_id_base58(bytes: Seq<u8>) -> Seq<char>;

/// The most bytes that a `PeerId` encoding takes: a one-byte multihash code
/// (identity or sha2-256), a one-byte digest length, and a digest of at most
/// 64 bytes (the multihash that libp2p reads holds no more).
pub const MAX_PEER_ID_LEN: usize = 66;

/// Calls `libp2p::PeerId::from_bytes` and reports whether it succeeded.
///
/// `from_bytes` reads a multihash of at most 64 digest bytes whose varints
/// are minimal and after which nothing may follow, and keeps it only under
/// the code of identity (digest of at most 42 bytes) or of sha2-256. Both
/// codes and every admitted digest length are one-byte minimal varints, so
/// it accepts exactly the encodings of `is_peer_id_encoding`.
#[verifier::external_body]
fn peer_id_accepts(bytes: &[u8]) -> (r: bool)
    ensures
        r == is_peer_id_encoding(bytes@),
{
    libp2p::PeerId::from_bytes(bytes).is_ok()
}

/// Calls `libp2p::PeerId::to_base58` on the peer that `bytes` encodes.
#[verifier::external_body]
fn peer_id_to_base58(bytes: &[u8]) -> (r: String)
    requires
        is_peer_id_encoding(bytes@),
    ensures
        r@ == peer_id_base58(bytes@),
{
    libp2p::PeerId::from_bytes(bytes).unwrap().to_base58()
}

/// A peer of the network, identified by its `PeerId` bytes.
///
/// Two `PeerId`s are equal exactly when their byte encodings are, so the
/// bytes stand for the peer in every comparison.
#[derive(Debug)]
pub struct PeerKey {
    bytes: Vec<u8>,
}

impl View for PeerKey {
    type V = Seq<u8>;

    closed spec fn view(&self) -> Seq<u8> {
        self.bytes@
    }
}

impl PeerKey {
    #[verifier::type_invariant]
    spec fn inv(self) -> bool {
        &&& is_peer_id_encoding(self.bytes@)
        &&& self.bytes@.len() <= MAX_PEER_ID_LEN
    }

    /// The peer encoded by `bytes`, or `None` when they encode no peer.
    pub fn from_bytes(bytes: Vec<u8>) -> (r: Option<PeerKey>)
        ensures
            r is Some <==> is_peer_id_encoding(bytes@),
            r matches Some(p) ==> p@ == bytes@,
    {
        if peer_id_accepts(bytes.as_slice()) {
            Some(PeerKey { bytes })
        } else {
            None
        }
    }

    /// The encoding of this peer.
    pub fn as_bytes(&self) -> (r: &[u8])
        ensures
            r@ == self@,
            is_peer_id_encoding(self@),
            self@.len() <= MAX_PEER_ID_LEN,
    {
        proof {
            use_type_invariant(self);
        }
        self.bytes.as_slice()
    }

    /// A copy of the encoding of this peer.
    pub fn to_bytes(&self) -> (r: Vec<u8>)
        ensures
            r@ == self@,
            is_peer_id_encoding(self@),
            self@.len() <= MAX_PEER_ID_LEN,
    {
        proof {
            use_type_invariant(self);
        }
        self.bytes.clone()
    }

    /// The base-58 text of this peer, as libp2p displays it.
    pub fn to_base58(&self) -> (r: String)
        ensures
            r@ == peer_id_base58(self@),
    {
        proof {
            use_type_invariant(self);
        }
        peer_id_to_base58(self.bytes.as_slice())
    }

    /// Whether `self` and `other` are the same peer.
    pub fn same(&self, other: &PeerKey) -> (r: bool)
        ensures
            r == (self@ == other@),
    {
        let a = self.bytes.as_slice();
        let b = other.bytes.as_slice();
        if a.len() != b.len() {
            return false;
        }
        let mut i: usize = 0;
        while i < a.len()
            invariant
                a@.len() == b@.len(),
                a@ == self@,
                b@ == other@,
                i <= a@.len(),
                forall|j: int| 0 <= j < i ==> a@[j] == b@[j],
            decreases a@.len() - i,
        {
            if a[i] != b[i] {
                return false;
            }
            i = i + 1;
        }
        assert(a@ =~= b@);
        true
    }
}

impl Clone for PeerKey {
    fn clone(&self) -> (r: PeerKey)
        ensures
            r@ == self@,
    {
        PeerKey { bytes: self.to_bytes() }
    }
}

impl PartialEq for PeerKey {
    fn eq(&self, other: &PeerKey) -> (r: bool) {
        self.same(other)
    }
}

impl Eq for PeerKey {

}

impl vstd::std_specs::cmp::PartialEqSpecImpl for PeerKey {
    open spec fn obeys_eq_spec() -> bool {
        true
    }

    open spec fn eq_spec(&self, other: &PeerKey) -> bool {
        self@ == other@
    }
}

/// Every peer of `keys` is a valid encoding of at most `MAX_PEER_ID_LEN`
/// bytes.
pub(crate) fn peers_are_valid(keys: &[PeerKey])
    ensures
        forall|i: int|
            0 <= i < keys@.len() ==> is_peer_id_encoding(#[trigger] keys@[i]@) && keys@[i]@.len()
                <= MAX_PEER_ID_LEN,
{
    let mut i: usize = 0;
    while i < keys.len()
        invariant
            i <= keys@.len(),
            forall|j: int|
                0 <= j < i ==> is_peer_id_encoding(#[trigger] keys@[j]@) && keys@[j]@.len()
                    <= MAX_PEER_ID_LEN,
        decreases keys@.len() - i,
    {
        let k = &keys[i];
        proof {
            use_type_invariant(k);
        }
        i = i + 1;
    }
}

/// Whether `p` occurs in `s`.
pub fn contains_peer(s: &[PeerKey], p: &PeerKey) -> (r: bool)
    ensures
        r == exists|i: int| 0 <= i < s@.len() && (#[trigger] s@[i])@ == p@,
{
    let mut i: usize = 0;
    while i < s.len()
        invariant
            i <= s@.len(),
            forall|j: int| 0 <= j < i ==> (#[trigger] s@[j])@ != p@,
        decreases s@.len() - i,
    {
        if s[i].same(p) {
            return true;
        }
        i = i + 1;
    }
    false
}

} // verus!
