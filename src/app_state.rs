//! The state of the application shell: which page it shows.

use vstd::prelude::*;

verus! {

/// The pages of the application.
#[derive(Clone, Copy, PartialEq, Eq, Structural, Debug)]
pub enum ViewPage {
    ProtocolDesigner,
    PacketBuilder,
}

/// What the application shell keeps between frames.
pub struct BitLoomApp {
    pub current_page: ViewPage,
}

} // verus!
