//! Commands on descriptors.
use crate::descriptor::{Descriptor, Row};
use vstd::prelude::*;

verus! {

/// Builds a descriptor from the rows of a file.
pub struct Generate {
    pub input: String,
    pub output: String,
}

/// Reports how many edge endpoints each key has.
pub struct CountEdges {
    pub input: String,
    pub output: String,
}

/// Reports the sizes of a descriptor.
pub struct Info {
    pub input: String,
}

/// The sizes of a descriptor.
pub struct DescriptorInfo {
    pub nodes: usize,
    pub edges: usize,
    pub keys: usize,
}

impl Generate {
    /// The canonical descriptor of the rows.
    pub fn run(&self, rows: &Vec<Row>) -> (d: Descriptor)
        requires
            rows@.len() <= 0x7fff_ffff,
        ensures
            d.canonical_for(rows@),
    {
        Descriptor::from_rows(rows)
    }
}

impl CountEdges {
    /// Per key: -1 for a full node, else the number of edge endpoints on it.
    pub fn run(&self, descriptor: &Descriptor) -> (r: Vec<(Vec<u8>, i64)>)
        requires
            descriptor.well_formed(),
            descriptor.edge_list().len() < 0x1000_0000_0000_0000,
        ensures
            r@.len() == descriptor.nodes@.len() + descriptor.counted_keys().len(),
            forall|i: int|
                0 <= i < descriptor.nodes@.len() ==> (#[trigger] r@[i]).0@
                    == descriptor.nodes@[i].key@ && r@[i].1 == -1,
            forall|i: int|
                0 <= i < descriptor.counted_keys().len() ==> (#[trigger] r@[descriptor.nodes@.len()
                    + i]).0@ == descriptor.counted_keys()[i].0 && r@[descriptor.nodes@.len() + i].1
                    == descriptor.counted_keys()[i].1,
    {
        descriptor.edge_counts()
    }
}

impl Info {
    /// The number of full nodes, of edges and of edge keys.
    pub fn run(&self, descriptor: &Descriptor) -> (r: DescriptorInfo)
        ensures
            r.nodes == descriptor.nodes@.len(),
            r.edges == descriptor.edge_list().len(),
            r.keys == match descriptor.edges {
                Some(e) => e.keys@.len(),
                None => 0,
            },
    {
        let (keys, edges) = match &descriptor.edges {
            Some(e) => (e.keys.len(), e.edges.len()),
            None => (0, 0),
        };
        DescriptorInfo { nodes: descriptor.nodes.len(), edges, keys }
    }
}

} // verus!
