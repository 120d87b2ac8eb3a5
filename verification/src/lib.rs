//! A content-based matching index: it stores boolean filter expressions
//! ("subscriptions") over a fixed schema of typed attributes and, given a
//! typed sparse assignment of attribute values (an "event"), returns the
//! identifiers of every stored expression the event satisfies.
//!
//! Structurally identical sub-expressions of different subscriptions are
//! shared in one reference-counted node graph; deleting a subscription
//! reclaims every node no longer referenced.

pub mod ast;
pub mod atree;
pub mod decimal;
pub mod errors;
pub mod events;
pub mod parser;
pub mod schema;
pub mod values;

pub use ast::{Ast, CmpOp, EqOp, ListOp, PredKind, Predicate, SetOp};
pub use atree::{ATree, AtreeSearchResult, NodeKind};
pub use decimal::Decimal;
pub use errors::AtreeError;
pub use events::{Event, EventBuilder};
pub use parser::compile;
pub use schema::{AttributeDefinition, AttributeTable};
pub use values::{AtreeAttributeType, EventValue};
