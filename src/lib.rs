//! Version tags for launcher shims, the resolvers that pick an installed
//! interpreter for a tag, and the decisions of the process supervisor.

pub mod procs;
pub mod pythons;
pub mod run;
pub mod shims;
pub mod tags;
