//! The unit of storage: a versioned list of protocols.

use vstd::prelude::*;
use crate::protocol::Protocol;

verus! {

/// A project as it is saved and loaded: its format version and its protocols.
pub struct BitLoomProject {
    pub project_version: u32,
    pub protocols: Vec<Protocol>,
}

} // verus!
