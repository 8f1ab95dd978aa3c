//! The computing half of each command: the caller reads the named files and
//! hands their contents over; what comes back is written or printed.
pub mod data;
pub mod descriptor;
pub mod filter;
pub mod key;
pub mod manifest;
