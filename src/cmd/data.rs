//! Commands on signing-data files.
use crate::descriptor::Descriptor;
use crate::error::Error;
use crate::filter::{descriptor_signing_bytes, Filter};
use vstd::prelude::*;

verus! {

/// Writes the signing bytes of the filter for a descriptor.
pub struct Generate {
    pub input: String,
    pub output: String,
    pub serial: u32,
}

/// Commands on signing-data files.
pub enum DataCommand {
    Generate(Generate),
}

impl Generate {
    /// The signing bytes of the unsigned filter built from the descriptor with
    /// this command's serial. Fails with `FilterBuild` exactly when the
    /// descriptor is empty.
    pub fn run(&self, descriptor: &Descriptor) -> (r: Result<Vec<u8>, Error>)
        requires
            descriptor.well_formed(),
            descriptor.nodes@.len() + descriptor.edge_list().len() < 0x1_0000_0000,
        ensures
            r is Ok <==> descriptor.nodes@.len() + descriptor.edge_list().len() > 0,
            r matches Err(e) ==> e == Error::FilterBuild,
            r matches Ok(b) ==> b@ == descriptor_signing_bytes(self.serial, *descriptor),
    {
        let filter = Filter::from_descriptor(self.serial, descriptor)?;
        match filter.to_signing_bytes() {
            Ok(b) => Ok(b),
            Err(e) => Err(e),
        }
    }
}

impl DataCommand {
    /// Runs the command on the descriptor it names.
    pub fn run(&self, descriptor: &Descriptor) -> (r: Result<Vec<u8>, Error>)
        requires
            descriptor.well_formed(),
            descriptor.nodes@.len() + descriptor.edge_list().len() < 0x1_0000_0000,
        ensures
            r is Ok <==> descriptor.nodes@.len() + descriptor.edge_list().len() > 0,
            r matches Err(e) ==> e == Error::FilterBuild,
            r matches Ok(b) ==> match self {
                DataCommand::Generate(g) => b@ == descriptor_signing_bytes(g.serial, *descriptor),
            },
    {
        match self {
            DataCommand::Generate(cmd) => cmd.run(descriptor),
        }
    }
}

} // verus!
