//! Seed derivation for committee election.  The seed of one candidate
//! signing set is the Keccak-256 digest of the session's public key, the
//! proposal batch's canonical encoding, and the signing-set index,
//! concatenated in that fixed order.  (SCALE encodes a `u8` as its single
//! byte, so the index contributes exactly one byte.)

use vstd::prelude::*;

use sha3::Digest;
use sha3::Keccak256;

verus! {

/// The Keccak-256 digest of a byte sequence: a function of the input bytes
/// alone, identical on every node.
pub uninterp spec fn keccak256_of(data: Seq<u8>) -> Seq<u8>;

/// Relies on `sha3::Keccak256` through the `Digest` trait: the Keccak-256
/// digest of the input, 32 bytes, depending on the input bytes alone.
#[verifier::external_body]
fn keccak_256(data: &[u8]) -> (r: [u8; 32])
    ensures
        r@ == keccak256_of(data@),
        r@.len() == 32,
{
    let mut out = [0u8; 32];
    out.copy_from_slice(&Keccak256::digest(data));
    out
}

/// The election seed for one `(batch, ssid)` pair.
pub open spec fn spec_signing_seed(
    dkg_pub_key: Seq<u8>,
    encoded_batch: Seq<u8>,
    ssid: u8,
) -> Seq<u8> {
    keccak256_of(dkg_pub_key + encoded_batch + seq![ssid])
}

/// Derives the election seed for one `(batch, ssid)` pair:
/// `keccak256(dkg_pub_key ‖ encoded_batch ‖ ssid)`.
pub fn signing_seed(dkg_pub_key: &Vec<u8>, encoded_batch: &Vec<u8>, ssid: u8) -> (r: [u8; 32])
    ensures
        r@ == spec_signing_seed(dkg_pub_key@, encoded_batch@, ssid),
{
    let mut data: Vec<u8> = Vec::new();
    let mut i: usize = 0;
    while i < dkg_pub_key.len()
        invariant
            0 <= i <= dkg_pub_key@.len(),
            data@ == dkg_pub_key@.take(i as int),
        decreases dkg_pub_key@.len() - i,
    {
        data.push(dkg_pub_key[i]);
        proof {
            assert(data@ =~= dkg_pub_key@.take(i as int + 1));
        }
        i += 1;
    }
    proof {
        assert(data@ =~= dkg_pub_key@);
    }
    let mut j: usize = 0;
    while j < encoded_batch.len()
        invariant
            0 <= j <= encoded_batch@.len(),
            data@ == dkg_pub_key@ + encoded_batch@.take(j as int),
        decreases encoded_batch@.len() - j,
    {
        data.push(encoded_batch[j]);
        proof {
            assert(data@ =~= dkg_pub_key@ + encoded_batch@.take(j as int + 1));
        }
        j += 1;
    }
    data.push(ssid);
    proof {
        assert(data@ =~= dkg_pub_key@ + encoded_batch@ + seq![ssid]);
    }
    keccak_256(data.as_slice())
}

} // verus!
