//! Fixed-width cryptographic digests and the hash primitive the
//! authenticated collections chain their root hashes with.

use vstd::prelude::*;
use crate::codec::CodecError;

verus! {

/// Width in bytes of every digest value.
pub const DIGEST_LEN: usize = 32;

/// The SHA-256 digest of a byte sequence, named abstractly: the outside
/// hash's result is a function of the input bytes alone.
pub uninterp spec fn sha256_of(input: Seq<u8>) -> Seq<u8>;

/// Relies on sha2::Sha256::digest: a 32-byte digest determined by the input
/// bytes alone.
#[verifier::external_body]
pub(crate) fn sha256(input: &Vec<u8>) -> (r: Vec<u8>)
    ensures
        r@ == sha256_of(input@),
        r@.len() == DIGEST_LEN,
{
    <sha2::Sha256 as sha2::Digest>::digest(input.as_slice()).to_vec()
}

/// The canonical digest of an empty collection: all-zero bytes.
pub open spec fn zero_digest() -> Seq<u8> {
    Seq::new(DIGEST_LEN as nat, |i: int| 0u8)
}

/// A fixed-width digest value: the root hash of an authenticated collection,
/// or a key derived by hashing.
#[derive(Debug, Clone, PartialEq, Eq)]
pub struct Digest {
    bytes: Vec<u8>,
}

impl View for Digest {
    type V = Seq<u8>;

    closed spec fn view(&self) -> Seq<u8> {
        self.bytes@
    }
}

impl DeepView for Digest {
    type V = Seq<u8>;

    open spec fn deep_view(&self) -> Seq<u8> {
        self.view()
    }
}

impl Digest {
    /// Every digest holds exactly `DIGEST_LEN` bytes.
    pub open spec fn wf(&self) -> bool {
        self@.len() == DIGEST_LEN
    }

    /// The all-zero digest: the root hash of an empty authenticated list.
    pub fn zero() -> (r: Digest)
        ensures
            r@ == zero_digest(),
            r.wf(),
    {
        let mut bytes: Vec<u8> = Vec::new();
        let mut i: usize = 0;
        while i < DIGEST_LEN
            invariant
                i <= DIGEST_LEN,
                bytes@ == zero_digest().subrange(0, i as int),
            decreases DIGEST_LEN - i,
        {
            bytes.push(0u8);
            proof {
                assert(zero_digest().subrange(0, i + 1) =~= zero_digest().subrange(0, i as int).push(
                    0u8));
            }
            i = i + 1;
        }
        proof {
            assert(zero_digest().subrange(0, DIGEST_LEN as int) =~= zero_digest());
        }
        Digest { bytes }
    }

    /// Wraps raw bytes as a digest; the length must match exactly.
    pub fn from_bytes(bytes: Vec<u8>) -> (r: Result<Digest, CodecError>)
        ensures
            match r {
                Ok(d) => bytes@.len() == DIGEST_LEN && d@ == bytes@ && d.wf(),
                Err(e) => bytes@.len() != DIGEST_LEN && e == CodecError::MalformedValue,
            },
    {
        if bytes.len() != DIGEST_LEN {
            return Err(CodecError::MalformedValue);
        }
        Ok(Digest { bytes })
    }

    /// Hashes arbitrary bytes into a digest.
    pub fn hash_bytes(input: &Vec<u8>) -> (r: Digest)
        ensures
            r@ == sha256_of(input@),
            r.wf(),
    {
        let bytes = sha256(input);
        Digest { bytes }
    }

    /// The raw bytes of the digest.
    pub fn bytes(&self) -> (r: &Vec<u8>)
        ensures
            r@ == self@,
    {
        &self.bytes
    }

    /// A copy of the raw bytes.
    pub fn to_vec(&self) -> (r: Vec<u8>)
        ensures
            r@ == self@,
    {
        crate::codec::subvec(&self.bytes, 0, self.bytes.len())
    }
}

/// The root hash of an authenticated append-only list holding the given
/// entries: a left-to-right chain, starting from the zero digest, that
/// absorbs the digest of each entry in insertion order.
pub open spec fn chain_root(entries: Seq<Seq<u8>>) -> Seq<u8>
    decreases entries.len(),
{
    if entries.len() == 0 {
        zero_digest()
    } else {
        sha256_of(chain_root(entries.drop_last()) + sha256_of(entries.last()))
    }
}

/// One chaining step: absorbs `entry` into the running root `acc`.
pub fn chain_step(acc: &Vec<u8>, entry: &Vec<u8>) -> (r: Vec<u8>)
    ensures
        r@ == sha256_of(acc@ + sha256_of(entry@)),
        r@.len() == DIGEST_LEN,
{
    let entry_digest = sha256(entry);
    let mut buf = crate::codec::subvec(acc, 0, acc.len());
    proof {
        assert(buf@ =~= acc@);
    }
    crate::codec::extend_bytes(&mut buf, &entry_digest);
    sha256(&buf)
}

} // verus!
