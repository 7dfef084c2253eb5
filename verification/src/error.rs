//! Why reading a settings file or a settings document can fail.

use crate::mod_settings::Version;
use vstd::prelude::*;

verus! {

/// Why bytes could not be read as a settings file.
#[derive(Debug, Clone, Copy, PartialEq, Eq, Structural)]
pub enum LoadError {
    /// The bytes end before the value they started is complete.
    UnexpectedEof,
    /// A property tree carries a type tag that no type has.
    UnknownType(u8),
    /// The file was written by a Factorio older than 0.18, whose settings
    /// layout differs.
    VersionTooLow(Version),
}

/// Why a settings document (the JSON or YAML form) was refused.
#[derive(Debug, Clone, PartialEq, Eq)]
pub enum DocumentError {
    /// The document's `!type` field is not `ModSettings`; the field's value.
    UnknownObjectType(String),
}

} // verus!
