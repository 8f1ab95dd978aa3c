//! Commands on filter envelopes.
use crate::descriptor::{has_entries, lemma_has_entries, Descriptor, Row};
use crate::error::Error;
use crate::filter::{descriptor_signing_bytes, Filter, FILTTER_VERSION};
use crate::manifest::{filled, Manifest, ManifestSignature, PublicKeyManifest};
use vstd::prelude::*;

verus! {

/// Checks the aggregate signature of a filter envelope.
pub struct Verify {
    pub input: String,
    pub key: String,
}

/// Builds a filter from rows, with the serial of a manifest and the
/// partial signatures collected in it.
pub struct Generate {
    pub input: String,
    pub key: String,
    pub output: String,
    pub manifest: String,
}

impl Verify {
    /// Reads the envelope and gives what its signature is checked over: the
    /// signing bytes, and the signature itself. Succeeds on every envelope of
    /// a well-formed filter.
    pub fn run(&self, envelope: &[u8]) -> (r: Result<(Vec<u8>, Vec<u8>), Error>)
        ensures
            match r {
                Ok((message, signature)) => exists|f: Filter|
                    {
                        &&& #[trigger] f.envelope() == envelope@
                        &&& f.encodable()
                        &&& message@ == f.signing_bytes()
                        &&& signature@ == f.signature@
                    },
                Err(e) => e == Error::Decode || e == Error::UnsupportedVersion,
            },
            (exists|f: Filter| f.encodable() && f.filter.shape_ok() && f.envelope() == envelope@)
                ==> r is Ok,
    {
        let filter = Filter::from_bytes(envelope)?;
        let message = match filter.to_signing_bytes() {
            Ok(m) => m,
            Err(e) => return Err(e),
        };
        let signature = crate::codec::copy_bytes(filter.signature.as_slice());
        Ok((message, signature))
    }
}

impl Generate {
    /// Builds the canonical descriptor of the rows and its filter with the
    /// manifest's serial, and picks the filled-in partial signatures to
    /// combine. Fails with `FilterBuild` exactly when no row names a full node
    /// and no edge row survives; otherwise with `InsufficientSignatures`
    /// exactly when fewer entries than the threshold are filled in.
    pub fn run(
        &self,
        manifest: &Manifest,
        key_manifest: &PublicKeyManifest,
        rows: &Vec<Row>,
    ) -> (r: Result<(Filter, Vec<ManifestSignature>), Error>)
        requires
            rows@.len() <= 0x7fff_ffff,
        ensures
            match r {
                Ok((f, signers)) => {
                    &&& has_entries(rows@)
                    &&& filled(manifest.signatures@).len() >= key_manifest.required
                    &&& f.version == FILTTER_VERSION
                    &&& f.serial == manifest.serial
                    &&& f.signature@.len() == 0
                    &&& f.filter.shape_ok()
                    &&& exists|d: Descriptor|
                        {
                            &&& #[trigger] d.canonical_for(rows@)
                            &&& f.signing_bytes() == descriptor_signing_bytes(manifest.serial, d)
                            &&& forall|i: int|
                                0 <= i < d.nodes@.len() ==> f.contains_key(
                                    (#[trigger] d.nodes@[i]).key@,
                                )
                            &&& forall|i: int|
                                0 <= i < d.edge_list().len() ==> f.contains_edge_between(
                                    (#[trigger] d.edge_endpoints(i)).0,
                                    d.edge_endpoints(i).1,
                                )
                        }
                    &&& signers@.len() == filled(manifest.signatures@).len()
                    &&& forall|i: int|
                        0 <= i < signers@.len() ==> ((#[trigger] signers@[i]).address@,
                        signers@[i].signature@) == filled(manifest.signatures@)[i]
                },
                Err(e) => (e == Error::FilterBuild && !has_entries(rows@)) || (e
                    == Error::InsufficientSignatures && has_entries(rows@) && filled(
                    manifest.signatures@,
                ).len() < key_manifest.required),
            },
    {
        let descriptor = Descriptor::from_rows(rows);
        proof {
            lemma_has_entries(rows@, descriptor);
        }
        let filter = Filter::from_descriptor(manifest.serial, &descriptor)?;
        let signers = manifest.signers(key_manifest)?;
        Ok((filter, signers))
    }
}

} // verus!
