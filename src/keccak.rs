//! A ready-made node hash: Keccak-256 over the nodes' UTF-8 bytes, written
//! as lowercase hex.
use vstd::prelude::*;
use vstd::utf8::encode_utf8;
use tiny_keccak::{Hasher, Keccak};
use crate::tree::views;

verus! {

/// The Keccak-256 digest of a byte string.
pub uninterp spec fn keccak256_of(data: Seq<u8>) -> Seq<u8>;

/// The lowercase hex digit of a value below 16.
pub open spec fn hex_digit(d: u8) -> char {
    seq!['0', '1', '2', '3', '4', '5', '6', '7', '8', '9', 'a', 'b', 'c', 'd', 'e', 'f'][d as int]
}

/// Two lowercase hex digits per byte, high half first.
pub open spec fn hex_of(b: Seq<u8>) -> Seq<char> {
    Seq::new(
        2 * b.len(),
        |i: int|
            if i % 2 == 0 {
                hex_digit(b[i / 2] / 16)
            } else {
                hex_digit(b[i / 2] % 16)
            },
    )
}

/// The UTF-8 bytes of the nodes, one after another.
pub open spec fn concat_utf8(nodes: Seq<Seq<char>>) -> Seq<u8>
    decreases nodes.len(),
{
    if nodes.len() == 0 {
        Seq::empty()
    } else {
        concat_utf8(nodes.drop_last()) + encode_utf8(nodes.last())
    }
}

/// Relies on tiny_keccak's `Keccak::v256`, `update` and `finalize`: the
/// 32-byte Keccak-256 digest of `data`.
#[verifier::external_body]
fn keccak256(data: &[u8]) -> (r: [u8; 32])
    ensures
        r@ == keccak256_of(data@),
{
    let mut keccak = Keccak::v256();
    keccak.update(data);
    let mut out = [0u8; 32];
    keccak.finalize(&mut out);
    out
}

/// Relies on `hex::encode`: two lowercase hex digits per byte, high half first.
#[verifier::external_body]
fn hex_encode(digest: &[u8; 32]) -> (r: String)
    ensures
        r@ == hex_of(digest@),
{
    hex::encode(digest)
}

/// Hashes a sibling group: Keccak-256 of the nodes' bytes in order, as
/// lowercase hex.
pub fn keccak256_hash_function(nodes: Vec<String>) -> (r: String)
    ensures
        r@ == hex_of(keccak256_of(concat_utf8(views(nodes@)))),
{
    let mut bytes: Vec<u8> = Vec::new();
    let mut i: usize = 0;
    while i < nodes.len()
        invariant
            i <= nodes.len(),
            bytes@ == concat_utf8(views(nodes@).take(i as int)),
        decreases nodes.len() - i,
    {
        let chunk = nodes[i].as_str().as_bytes();
        let ghost before = bytes@;
        let mut k: usize = 0;
        while k < chunk.len()
            invariant
                k <= chunk.len(),
                bytes@ == before + chunk@.take(k as int),
            decreases chunk.len() - k,
        {
            bytes.push(chunk[k]);
            assert(chunk@.take(k + 1) =~= chunk@.take(k as int).push(chunk@[k as int]));
            k += 1;
        }
        assert(chunk@.take(k as int) =~= chunk@);
        assert(views(nodes@).take(i + 1).drop_last() =~= views(nodes@).take(i as int));
        i += 1;
    }
    assert(views(nodes@).take(i as int) =~= views(nodes@));
    let digest = keccak256(bytes.as_slice());
    hex_encode(&digest)
}

} // verus!
