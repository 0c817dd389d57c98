//! Block headers as plain values, their consensus serialization, and the
//! identifying double-SHA-256 digest.
use vstd::prelude::*;

verus! {

/// A block header as the wire carries it: six fixed-width fields, eighty
/// bytes in all. The version is kept as the unsigned image of its
/// little-endian encoding.
#[derive(Clone, Copy)]
pub struct BlockHeader {
    pub version: u32,
    pub prev_blockhash: [u8; 32],
    pub merkle_root: [u8; 32],
    pub time: u32,
    pub bits: u32,
    pub nonce: u32,
}

/// Four little-endian bytes of a 32-bit word.
pub open spec fn le_bytes(x: u32) -> Seq<u8> {
    seq![
        (x % 256) as u8,
        (x / 256 % 256) as u8,
        (x / 0x1_0000 % 256) as u8,
        (x / 0x100_0000 % 256) as u8,
    ]
}

/// The eighty consensus bytes of a header.
pub open spec fn header_bytes(h: BlockHeader) -> Seq<u8> {
    le_bytes(h.version) + h.prev_blockhash@ + h.merkle_root@ + le_bytes(h.time) + le_bytes(h.bits)
        + le_bytes(h.nonce)
}

fn push_le_bytes(out: &mut Vec<u8>, x: u32)
    ensures
        final(out)@ == old(out)@ + le_bytes(x),
{
    out.push((x % 256) as u8);
    out.push((x / 256 % 256) as u8);
    out.push((x / 0x1_0000 % 256) as u8);
    out.push((x / 0x100_0000 % 256) as u8);
    proof {
        assert(out@ =~= old(out)@ + le_bytes(x));
    }
}

fn push_array(out: &mut Vec<u8>, a: &[u8; 32])
    ensures
        final(out)@ == old(out)@ + a@,
{
    let mut i: usize = 0;
    while i < 32
        invariant
            i <= 32,
            out@ == old(out)@ + a@.subrange(0, i as int),
        decreases 32 - i,
    {
        out.push(a[i]);
        i = i + 1;
        proof {
            assert(out@ =~= old(out)@ + a@.subrange(0, i as int));
        }
    }
    proof {
        assert(a@.subrange(0, 32) =~= a@);
    }
}

/// Serializes a header into its eighty consensus bytes.
pub fn encode_header(h: &BlockHeader) -> (r: Vec<u8>)
    ensures
        r@ == header_bytes(*h),
        r@.len() == 80,
{
    let mut out: Vec<u8> = Vec::new();
    push_le_bytes(&mut out, h.version);
    push_array(&mut out, &h.prev_blockhash);
    push_array(&mut out, &h.merkle_root);
    push_le_bytes(&mut out, h.time);
    push_le_bytes(&mut out, h.bits);
    push_le_bytes(&mut out, h.nonce);
    proof {
        assert(out@ =~= header_bytes(*h));
    }
    out
}

/// The double-SHA-256 digest of a byte string, named: it is a function of
/// the bytes alone.
pub uninterp spec fn sha256d_of(bytes: Seq<u8>) -> Seq<u8>;

/// Relies on bitcoin::hashes::sha256d::Hash::hash, which applies SHA-256
/// twice and returns the 32-byte digest; the result depends on the input
/// bytes alone.
#[verifier::external_body]
fn sha256d(bytes: &Vec<u8>) -> (r: Vec<u8>)
    ensures
        r@ == sha256d_of(bytes@),
        r@.len() == 32,
{
    let digest = <bitcoin::hashes::sha256d::Hash as bitcoin::hashes::Hash>::hash(bytes.as_slice());
    <bitcoin::hashes::sha256d::Hash as bitcoin::hashes::Hash>::to_byte_array(digest).to_vec()
}

/// The identifying hash of a header: the double digest of its eighty
/// consensus bytes, in wire order.
pub fn block_hash(h: &BlockHeader) -> (r: Vec<u8>)
    ensures
        r@ == sha256d_of(header_bytes(*h)),
        r@.len() == 32,
{
    let encoded = encode_header(h);
    sha256d(&encoded)
}

/// Relies on bitcoin::blockdata::constants::genesis_block for the mainnet
/// genesis header: version 1, all-zero previous id, time 1231006505, compact
/// target 0x1d00ffff, nonce 2083236893; the merkle root is the digest of the
/// genesis transaction, which that function builds.
#[verifier::external_body]
fn fetch_genesis_header() -> (r: BlockHeader)
    ensures
        r.version == 1,
        r.prev_blockhash@ == Seq::new(32, |i: int| 0u8),
        r.time == 1231006505,
        r.bits == 0x1d00ffff,
        r.nonce == 2083236893,
{
    let g = bitcoin::blockdata::constants::genesis_block(bitcoin::network::Network::Bitcoin).header;
    BlockHeader {
        version: g.version.to_consensus() as u32,
        prev_blockhash: <bitcoin::BlockHash as bitcoin::hashes::Hash>::to_byte_array(
            g.prev_blockhash,
        ),
        merkle_root: <bitcoin::TxMerkleNode as bitcoin::hashes::Hash>::to_byte_array(
            g.merkle_root,
        ),
        time: g.time,
        bits: g.bits.to_consensus(),
        nonce: g.nonce,
    }
}

/// The chain seeded with the height-0 genesis header, never requested from
/// the wire.
pub fn genesis_chain() -> (r: Vec<BlockHeader>)
    ensures
        r@.len() == 1,
        r@[0].version == 1,
        r@[0].prev_blockhash@ == Seq::new(32, |i: int| 0u8),
        r@[0].time == 1231006505,
        r@[0].bits == 0x1d00ffff,
        r@[0].nonce == 2083236893,
{
    let g = fetch_genesis_header();
    let mut v: Vec<BlockHeader> = Vec::new();
    v.push(g);
    v
}

} // verus!
