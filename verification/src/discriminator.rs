//! The 8-byte method discriminator.
//!
//! Every instruction payload starts with the first eight bytes of the
//! SHA-256 digest of `"<namespace>:<name>"`, the namespace being `"global"`
//! for instruction calls.  The digest is bit-exact and reproducible, so the
//! discriminator is a function of the namespace and the name alone.

use vstd::prelude::*;

use crate::strutil::extend_bytes;
use sha2::Digest;
use vstd::string::StringSliceAdditionalSpecFns;
use vstd::utf8::encode_utf8;

verus! {

/// The SHA-256 digest of a byte sequence: a function of the bytes alone.
pub uninterp spec fn sha256_of(data: Seq<u8>) -> Seq<u8>;

/// Relies on the sha2 crate's SHA-256: a 32-byte digest determined by the
/// input bytes alone.
#[verifier::external_body]
fn sha256(data: &Vec<u8>) -> (r: Vec<u8>)
    ensures
        r@ == sha256_of(data@),
        r@.len() == 32,
{
    let mut hasher = sha2::Sha256::new();
    hasher.update(data.as_slice());
    hasher.finalize().to_vec()
}

/// The discriminator of an instruction: the first eight digest bytes of
/// `"<namespace>:<name>"`.
pub open spec fn discriminator_bytes(namespace: Seq<char>, name: Seq<char>) -> Seq<u8> {
    sha256_of(encode_utf8(namespace) + seq![58u8] + encode_utf8(name)).take(8)
}

/// Identical namespaces and names always yield identical discriminators:
/// the discriminator is a function of the two names and nothing else.
pub proof fn lemma_discriminator_deterministic(
    ns1: Seq<char>,
    name1: Seq<char>,
    ns2: Seq<char>,
    name2: Seq<char>,
)
    requires
        ns1 == ns2,
        name1 == name2,
    ensures
        discriminator_bytes(ns1, name1) == discriminator_bytes(ns2, name2),
{
}

/// Compute the discriminator of an instruction name under a namespace.
pub fn discriminator(namespace: &str, name: &str) -> (r: Vec<u8>)
    ensures
        r@ == discriminator_bytes(namespace@, name@),
        r@.len() == 8,
{
    let mut data: Vec<u8> = Vec::new();
    extend_bytes(&mut data, namespace.as_bytes());
    data.push(58);
    extend_bytes(&mut data, name.as_bytes());
    proof {
        assert(data@ =~= encode_utf8(namespace@) + seq![58u8] + encode_utf8(name@));
    }
    let digest = sha256(&data);
    let mut out: Vec<u8> = Vec::new();
    let mut i: usize = 0;
    while i < 8
        invariant
            digest@.len() == 32,
            digest@ == sha256_of(data@),
            data@ == encode_utf8(namespace@) + seq![58u8] + encode_utf8(name@),
            0 <= i <= 8,
            out@ =~= digest@.take(i as int),
        decreases 8 - i,
    {
        out.push(digest[i]);
        proof {
            assert(out@ =~= digest@.take(i + 1));
        }
        i = i + 1;
    }
    out
}

} // verus!
