//! Threshold signing manifests: the member keys and threshold of an
//! aggregate key, the recorded content hash and serial, and the partial
//! signatures collected for them.
use crate::base64_serde::{base64_decoded, base64_of, decode, encode};
use crate::codec::copy_bytes;
use crate::error::Error;
use crate::filter::{sha256_of, Filter};
use vstd::prelude::*;

verus! {

/// One member's entry: its key and its partial signature, empty until filled in.
pub struct ManifestSignature {
    pub address: Vec<u8>,
    pub signature: Vec<u8>,
}

/// The serial and content hash (standard base64 of the SHA-256 digest of the
/// signing bytes) of a filter, with the members' partial signatures.
pub struct Manifest {
    pub serial: u32,
    pub hash: String,
    pub signatures: Vec<ManifestSignature>,
}

/// The member keys of an aggregate key and how many signatures it needs.
pub struct PublicKeyManifest {
    pub public_keys: Vec<Vec<u8>>,
    pub required: u8,
}

/// A member's entry with whether its partial signature verified.
pub struct ManifestSignatureVerify {
    pub signature: ManifestSignature,
    pub verified: bool,
}

/// The entries with a non-empty signature, in order, as (key, signature).
pub open spec fn filled(s: Seq<ManifestSignature>) -> Seq<(Seq<u8>, Seq<u8>)>
    decreases s.len(),
{
    if s.len() == 0 {
        Seq::empty()
    } else if s.last().signature@.len() > 0 {
        filled(s.drop_last()).push((s.last().address@, s.last().signature@))
    } else {
        filled(s.drop_last())
    }
}

proof fn lemma_filled_len(s: Seq<ManifestSignature>)
    ensures
        filled(s).len() <= s.len(),
    decreases s.len(),
{
    if s.len() > 0 {
        lemma_filled_len(s.drop_last());
    }
}

impl PublicKeyManifest {
    /// The threshold is between 1 and the number of members.
    pub open spec fn valid(&self) -> bool {
        1 <= self.required <= self.public_keys@.len()
    }

    /// Whether the threshold is between 1 and the number of members.
    pub fn is_valid(&self) -> (r: bool)
        ensures
            r == self.valid(),
    {
        1 <= self.required && self.required as usize <= self.public_keys.len()
    }

    /// A copy of the member keys, in the given order.
    pub fn public_keys(&self) -> (r: Vec<Vec<u8>>)
        ensures
            r@.len() == self.public_keys@.len(),
            forall|i: int| 0 <= i < r@.len() ==> (#[trigger] r@[i])@ == self.public_keys@[i]@,
    {
        let mut out: Vec<Vec<u8>> = Vec::new();
        let mut i: usize = 0;
        while i < self.public_keys.len()
            invariant
                i <= self.public_keys@.len(),
                out@.len() == i,
                forall|j: int| 0 <= j < i ==> (#[trigger] out@[j])@ == self.public_keys@[j]@,
            decreases self.public_keys@.len() - i,
        {
            out.push(copy_bytes(self.public_keys[i].as_slice()));
            i = i + 1;
        }
        out
    }
}

impl ManifestSignature {
    /// An empty entry for a member, to be filled in by its signer.
    pub fn placeholder(address: &[u8]) -> (r: ManifestSignature)
        ensures
            r.address@ == address@,
            r.signature@.len() == 0,
    {
        ManifestSignature { address: copy_bytes(address), signature: Vec::new() }
    }

    /// The entry with the outcome of checking its partial signature.
    pub fn verify(&self, verified: bool) -> (r: ManifestSignatureVerify)
        ensures
            r.signature.address@ == self.address@,
            r.signature.signature@ == self.signature@,
            r.verified == verified,
    {
        ManifestSignatureVerify {
            signature: ManifestSignature {
                address: copy_bytes(self.address.as_slice()),
                signature: copy_bytes(self.signature.as_slice()),
            },
            verified,
        }
    }
}

impl Manifest {
    /// A manifest for a filter: its serial, the base64 of its content hash,
    /// and an empty entry for each member, in the members' order.
    pub fn for_filter(filter: &Filter, key_manifest: &PublicKeyManifest) -> (r: Result<
        Manifest,
        Error,
    >)
        ensures
            match r {
                Ok(m) => {
                    &&& filter.filter.encodable(filter.version)
                    &&& m.serial == filter.serial
                    &&& m.hash@ == base64_of(sha256_of(filter.signing_bytes()))
                    &&& m.signatures@.len() == key_manifest.public_keys@.len()
                    &&& forall|i: int|
                        0 <= i < m.signatures@.len() ==> (#[trigger] m.signatures@[i]).address@
                            == key_manifest.public_keys@[i]@ && m.signatures@[i].signature@.len()
                            == 0
                },
                Err(e) => !filter.filter.encodable(filter.version) && e
                    == Error::UnsupportedVersion,
            },
    {
        let hash = filter.hash()?;
        let mut signatures: Vec<ManifestSignature> = Vec::new();
        let mut i: usize = 0;
        while i < key_manifest.public_keys.len()
            invariant
                i <= key_manifest.public_keys@.len(),
                signatures@.len() == i,
                forall|j: int|
                    0 <= j < i ==> (#[trigger] signatures@[j]).address@
                        == key_manifest.public_keys@[j]@ && signatures@[j].signature@.len() == 0,
            decreases key_manifest.public_keys@.len() - i,
        {
            signatures.push(ManifestSignature::placeholder(key_manifest.public_keys[i].as_slice()));
            i = i + 1;
        }
        Ok(Manifest { serial: filter.serial, hash: encode(hash.as_slice()), signatures })
    }

    /// The entries whose partial signature has been filled in, in order:
    /// what is combined into the aggregate signature. Fails with
    /// `InsufficientSignatures` when there are fewer than the threshold.
    pub fn signers(&self, key_manifest: &PublicKeyManifest) -> (r: Result<
        Vec<ManifestSignature>,
        Error,
    >)
        ensures
            match r {
                Ok(v) => filled(self.signatures@).len() >= key_manifest.required && v@.len()
                    == filled(self.signatures@).len() && forall|i: int|
                    0 <= i < v@.len() ==> ((#[trigger] v@[i]).address@, v@[i].signature@)
                        == filled(self.signatures@)[i],
                Err(e) => filled(self.signatures@).len() < key_manifest.required && e
                    == Error::InsufficientSignatures,
            },
    {
        let mut out: Vec<ManifestSignature> = Vec::new();
        let mut i: usize = 0;
        while i < self.signatures.len()
            invariant
                i <= self.signatures@.len(),
                out@.len() == filled(self.signatures@.subrange(0, i as int)).len(),
                forall|j: int|
                    0 <= j < out@.len() ==> ((#[trigger] out@[j]).address@, out@[j].signature@)
                        == filled(self.signatures@.subrange(0, i as int))[j],
            decreases self.signatures@.len() - i,
        {
            let ghost prefix = self.signatures@.subrange(0, i as int);
            let ghost next = self.signatures@.subrange(0, i + 1);
            assert(next.drop_last() =~= prefix);
            if self.signatures[i].signature.len() > 0 {
                out.push(
                    ManifestSignature {
                        address: copy_bytes(self.signatures[i].address.as_slice()),
                        signature: copy_bytes(self.signatures[i].signature.as_slice()),
                    },
                );
            }
            i = i + 1;
        }
        assert(self.signatures@.subrange(0, self.signatures@.len() as int) =~= self.signatures@);
        if out.len() < key_manifest.required as usize {
            return Err(Error::InsufficientSignatures);
        }
        Ok(out)
    }

    /// The fail-fast check of a filter against this manifest, made before any
    /// signature is looked at: the recorded hash must be valid base64 of the
    /// SHA-256 digest of the filter's signing bytes (else `Decode` or
    /// `HashMismatch`), and the serials must agree (else `SerialMismatch`).
    /// Gives the signing bytes, which the signatures are then checked over.
    pub fn check_filter(&self, filter: &Filter) -> (r: Result<Vec<u8>, Error>)
        ensures
            match r {
                Ok(b) => filter.filter.encodable(filter.version) && b@ == filter.signing_bytes()
                    && base64_decoded(self.hash@) == Some(sha256_of(filter.signing_bytes()))
                    && self.serial == filter.serial,
                Err(Error::UnsupportedVersion) => !filter.filter.encodable(filter.version),
                Err(Error::Decode) => filter.filter.encodable(filter.version) && base64_decoded(
                    self.hash@,
                ) is None,
                Err(Error::HashMismatch) => filter.filter.encodable(filter.version)
                    && base64_decoded(self.hash@) is Some && base64_decoded(self.hash@) != Some(
                    sha256_of(filter.signing_bytes()),
                ),
                Err(Error::SerialMismatch) => filter.filter.encodable(filter.version)
                    && base64_decoded(self.hash@) == Some(sha256_of(filter.signing_bytes()))
                    && self.serial != filter.serial,
                Err(_) => false,
            },
    {
        let signing = filter.to_signing_bytes()?;
        let hash = filter.hash()?;
        let recorded = match decode(self.hash.as_str()) {
            Some(h) => h,
            None => return Err(Error::Decode),
        };
        if !bytes_equal(&recorded, &hash) {
            return Err(Error::HashMismatch);
        }
        if self.serial != filter.serial {
            return Err(Error::SerialMismatch);
        }
        Ok(signing)
    }
}

fn bytes_equal(a: &Vec<u8>, b: &Vec<u8>) -> (r: bool)
    ensures
        r == (a@ == b@),
{
    crate::keys::key_eq(a.as_slice(), b.as_slice())
}

} // verus!
