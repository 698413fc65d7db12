//! Framing of messages on a stream: a 4-byte big-endian length, then the message.
use vstd::prelude::*;

verus! {

/// The request-response codec of the protocol.
#[derive(Debug, Clone, Copy, Default)]
pub struct ForwardPassCodec;

/// The protocol name under which peers exchange forward passes.
#[derive(Debug, Clone, Copy)]
pub struct ForwardPassProtocol;

impl ForwardPassProtocol {
    /// The protocol's name.
    pub fn name(&self) -> (r: &'static str)
        ensures
            r@ == "/inference/tensor/1.0.0"@,
    {
        "/inference/tensor/1.0.0"
    }
}

impl AsRef<str> for ForwardPassProtocol {
    fn as_ref(&self) -> (r: &str)
        ensures
            r@ == "/inference/tensor/1.0.0"@,
    {
        self.name()
    }
}

/// The header that announces `len` bytes: their count, truncated to 32 bits,
/// most significant byte first.
pub open spec fn spec_frame_header(len: nat) -> Seq<u8> {
    let n = len % 0x1_0000_0000;
    seq![
        (n / 0x100_0000) as u8,
        ((n / 0x1_0000) % 0x100) as u8,
        ((n / 0x100) % 0x100) as u8,
        (n % 0x100) as u8,
    ]
}

/// The length that a header announces.
pub open spec fn spec_frame_length(h: Seq<u8>) -> nat {
    h[0] as nat * 0x100_0000 + h[1] as nat * 0x1_0000 + h[2] as nat * 0x100 + h[3] as nat
}

/// The header written before a message of `len` bytes.
pub fn frame_header(len: usize) -> (r: [u8; 4])
    ensures
        r@ == spec_frame_header(len as nat),
{
    let n: u64 = (len as u64) % 0x1_0000_0000;
    assert(n == (len as nat) % 0x1_0000_0000);
    let r = [
        (n / 0x100_0000) as u8,
        ((n / 0x1_0000) % 0x100) as u8,
        ((n / 0x100) % 0x100) as u8,
        (n % 0x100) as u8,
    ];
    assert(r@ =~= spec_frame_header(len as nat));
    r
}

/// The length announced by a header.
pub fn frame_length(header: [u8; 4]) -> (r: usize)
    ensures
        r as nat == spec_frame_length(header@),
{
    let n: u64 = header[0] as u64 * 0x100_0000 + header[1] as u64 * 0x1_0000 + header[2] as u64
        * 0x100 + header[3] as u64;
    assert(n < 0x1_0000_0000);
    n as usize
}

/// A message preceded by its header.
pub fn frame(data: &[u8]) -> (r: Vec<u8>)
    ensures
        r@ == spec_frame_header(data@.len()) + data@,
{
    let h = frame_header(data.len());
    let mut out: Vec<u8> = Vec::new();
    crate::wire::push_bytes(&mut out, &h);
    crate::wire::push_bytes(&mut out, data);
    assert(out@ =~= spec_frame_header(data@.len()) + data@);
    out
}

/// A header announces the length it was written for, for every length below `2^32`.
pub proof fn lemma_frame_roundtrip(len: nat)
    requires
        len < 0x1_0000_0000,
    ensures
        spec_frame_length(spec_frame_header(len)) == len,
{
    let h = spec_frame_header(len);
    assert(len % 0x1_0000_0000 == len);
    assert(h[0] as nat == len / 0x100_0000);
    assert(h[1] as nat == (len / 0x1_0000) % 0x100);
    assert(h[2] as nat == (len / 0x100) % 0x100);
    assert(h[3] as nat == len % 0x100);
    assert(len / 0x100_0000 * 0x100_0000 + (len / 0x1_0000) % 0x100 * 0x1_0000 + (len / 0x100)
        % 0x100 * 0x100 + len % 0x100 == len) by (nonlinear_arith)
        requires
            len < 0x1_0000_0000,
    ;
}

} // verus!
