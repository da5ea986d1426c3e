//! A schema model for binary wire protocols: fields with explicit bit widths,
//! protocols that order them and may inherit from a parent, a registry that owns
//! the inheritance graph, and packets built from a resolved field list.

pub mod app_state;
pub mod field;
pub mod packet;
pub mod project;
pub mod protocol;
pub mod registry;
