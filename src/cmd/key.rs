//! Commands on aggregate public keys.
use crate::error::Error;
use crate::manifest::PublicKeyManifest;
use vstd::prelude::*;

verus! {

/// Reports on the public key manifest in a file.
pub struct Info {
    pub input: String,
}

/// Commands on aggregate public keys.
pub enum KeyCommand {
    Info(Info),
}

/// The number of member keys and the threshold of a public key manifest.
pub struct KeyInfo {
    pub keys: usize,
    pub required: u8,
}

impl Info {
    /// The member count and threshold, for a manifest whose threshold is
    /// between 1 and the member count; `Decode` otherwise.
    pub fn run(&self, key_manifest: &PublicKeyManifest) -> (r: Result<KeyInfo, Error>)
        ensures
            match r {
                Ok(info) => key_manifest.valid() && info.keys == key_manifest.public_keys@.len()
                    && info.required == key_manifest.required,
                Err(e) => !key_manifest.valid() && e == Error::Decode,
            },
    {
        if !key_manifest.is_valid() {
            return Err(Error::Decode);
        }
        Ok(KeyInfo { keys: key_manifest.public_keys.len(), required: key_manifest.required })
    }
}

impl KeyCommand {
    /// Runs the command on the manifest it names.
    pub fn run(&self, key_manifest: &PublicKeyManifest) -> (r: Result<KeyInfo, Error>)
        ensures
            match r {
                Ok(info) => key_manifest.valid() && info.keys == key_manifest.public_keys@.len()
                    && info.required == key_manifest.required,
                Err(e) => !key_manifest.valid() && e == Error::Decode,
            },
    {
        match self {
            KeyCommand::Info(cmd) => cmd.run(key_manifest),
        }
    }
}

} // verus!
