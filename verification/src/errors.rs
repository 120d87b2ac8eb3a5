//! Structured errors returned by the index.

use vstd::prelude::*;
use crate::values::AtreeAttributeType;

verus! {

/// Every failure the index reports: a kind plus the data that caused it.
///
/// Deleting an unknown subscription identifier is a no-op, never an error.
#[derive(Debug)]
pub enum AtreeError {
    /// A duplicate attribute name in the schema, at index creation.
    Schema(Vec<u8>),
    /// Malformed expression syntax; carries the byte offset of the failure.
    Parse(usize),
    /// An operator or literal that does not fit the attribute's declared type.
    Type(Vec<u8>, AtreeAttributeType),
    /// An attribute assigned twice in one event builder.
    Redefinition(Vec<u8>),
    /// A reference to an attribute that is not in the schema.
    UnknownAttribute(Vec<u8>),
}

} // verus!
