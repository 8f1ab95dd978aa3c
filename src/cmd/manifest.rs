//! Commands on signing manifests.
use crate::base64_serde::{base64_decoded, base64_of};
use crate::codec::le_u32;
use crate::error::Error;
use crate::filter::{sha256_of, Filter, FILTTER_VERSION};
use crate::manifest::{Manifest, PublicKeyManifest};
use vstd::prelude::*;

verus! {

/// Writes a manifest for the signing data in a file.
pub struct Generate {
    pub data: String,
    pub key: String,
    pub manifest: String,
    pub force: bool,
}

/// Checks the signing data in a file against a manifest.
pub struct Verify {
    pub data: String,
    pub key: String,
    pub manifest: String,
}

/// Commands on signing manifests.
pub enum ManifestCommand {
    Generate(Generate),
    Verify(Verify),
}

/// What a manifest command produced.
pub enum ManifestOutcome {
    /// A new manifest to write.
    Generated(Manifest),
    /// The signing bytes that passed the hash and serial checks, for the
    /// partial signatures to be checked over.
    Verified(Vec<u8>),
}

/// The bytes are the signing bytes of a well-formed filter in the current version.
pub open spec fn current_signing_data(data: Seq<u8>) -> bool {
    exists|f: Filter|
        f.version == FILTTER_VERSION && f.filter.shape_ok() && f.filter.encodable(FILTTER_VERSION)
            && #[trigger] f.signing_bytes() == data
}

/// What making a manifest for the signing data gives: for current signing
/// data, its serial, the base64 of its SHA-256, and an empty entry per
/// member in the members' order; `Decode` for anything else.
pub open spec fn manifest_generated(
    data: Seq<u8>,
    key_manifest: PublicKeyManifest,
    r: Result<Manifest, Error>,
) -> bool {
    match r {
        Ok(m) => {
            &&& current_signing_data(data)
            &&& data.len() >= 4
            &&& m.hash@ == base64_of(sha256_of(data))
            &&& m.serial == le_u32(data, 0)
            &&& m.signatures@.len() == key_manifest.public_keys@.len()
            &&& forall|i: int|
                0 <= i < m.signatures@.len() ==> (#[trigger] m.signatures@[i]).address@
                    == key_manifest.public_keys@[i]@ && m.signatures@[i].signature@.len() == 0
        },
        Err(e) => e == Error::Decode && !current_signing_data(data),
    }
}

/// What checking signing data against a manifest gives, before any
/// signature is looked at: `Decode` when the data is not current signing
/// data or the recorded hash is not base64; else `HashMismatch` when the
/// recorded hash is not the SHA-256 of the data; else `SerialMismatch` when
/// the serials differ; else the data.
pub open spec fn manifest_verified(data: Seq<u8>, m: Manifest, r: Result<Vec<u8>, Error>) -> bool {
    match r {
        Ok(b) => {
            &&& current_signing_data(data)
            &&& b@ == data
            &&& base64_decoded(m.hash@) == Some(sha256_of(data))
            &&& data.len() >= 4
            &&& m.serial == le_u32(data, 0)
        },
        Err(Error::Decode) => !current_signing_data(data) || base64_decoded(m.hash@) is None,
        Err(Error::HashMismatch) => {
            &&& current_signing_data(data)
            &&& base64_decoded(m.hash@) is Some
            &&& base64_decoded(m.hash@) != Some(sha256_of(data))
        },
        Err(Error::SerialMismatch) => {
            &&& current_signing_data(data)
            &&& base64_decoded(m.hash@) == Some(sha256_of(data))
            &&& data.len() >= 4
            &&& m.serial != le_u32(data, 0)
        },
        Err(_) => false,
    }
}

impl Generate {
    /// Reads the signing data (current version) and makes its manifest.
    pub fn run(&self, data: &[u8], key_manifest: &PublicKeyManifest) -> (r: Result<
        Manifest,
        Error,
    >)
        ensures
            manifest_generated(data@, *key_manifest, r),
    {
        let filter = match Filter::from_signing_bytes(data, FILTTER_VERSION) {
            Ok(f) => f,
            Err(_) => return Err(Error::Decode),
        };
        proof {
            crate::codec::lemma_u32_round_trip(filter.serial, data@, 0);
            assert(data@.subrange(0, 4) == crate::codec::u32_le(filter.serial));
            assert(current_signing_data(data@));
        }
        match Manifest::for_filter(&filter, key_manifest) {
            Ok(m) => Ok(m),
            Err(_) => Err(Error::Decode),
        }
    }
}

impl Verify {
    /// Reads the signing data (current version) and checks it against the
    /// manifest before any signature is looked at; gives the data to check
    /// the signatures over.
    pub fn run(&self, data: &[u8], manifest: &Manifest) -> (r: Result<Vec<u8>, Error>)
        ensures
            manifest_verified(data@, *manifest, r),
    {
        let filter = match Filter::from_signing_bytes(data, FILTTER_VERSION) {
            Ok(f) => f,
            Err(_) => return Err(Error::Decode),
        };
        proof {
            crate::codec::lemma_u32_round_trip(filter.serial, data@, 0);
            assert(data@.subrange(0, 4) == crate::codec::u32_le(filter.serial));
            assert(current_signing_data(data@));
        }
        match manifest.check_filter(&filter) {
            Ok(b) => Ok(b),
            Err(Error::HashMismatch) => Err(Error::HashMismatch),
            Err(Error::SerialMismatch) => Err(Error::SerialMismatch),
            Err(_) => Err(Error::Decode),
        }
    }
}

impl ManifestCommand {
    /// Runs the command on the signing data, public key manifest and (to
    /// verify) manifest that it names, with the outcome of that subcommand.
    pub fn run(
        &self,
        data: &[u8],
        key_manifest: &PublicKeyManifest,
        manifest: Option<&Manifest>,
    ) -> (r: Result<ManifestOutcome, Error>)
        requires
            self is Verify ==> manifest is Some,
        ensures
            match self {
                ManifestCommand::Generate(_) => match r {
                    Ok(ManifestOutcome::Generated(m)) => manifest_generated(
                        data@,
                        *key_manifest,
                        Ok(m),
                    ),
                    Ok(ManifestOutcome::Verified(_)) => false,
                    Err(e) => manifest_generated(data@, *key_manifest, Err(e)),
                },
                ManifestCommand::Verify(_) => match r {
                    Ok(ManifestOutcome::Verified(b)) => manifest_verified(
                        data@,
                        *manifest->0,
                        Ok(b),
                    ),
                    Ok(ManifestOutcome::Generated(_)) => false,
                    Err(e) => manifest_verified(data@, *manifest->0, Err(e)),
                },
            },
    {
        match self {
            ManifestCommand::Generate(cmd) => match cmd.run(data, key_manifest) {
                Ok(m) => Ok(ManifestOutcome::Generated(m)),
                Err(e) => Err(e),
            },
            ManifestCommand::Verify(cmd) => {
                let m = match manifest {
                    Some(m) => m,
                    None => return Err(Error::Decode),
                };
                match cmd.run(data, m) {
                    Ok(b) => Ok(ManifestOutcome::Verified(b)),
                    Err(e) => Err(e),
                }
            },
        }
    }
}

} // verus!
