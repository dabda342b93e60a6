//! A resolution engine for declarative field-mapping directives.
//!
//! A record type carries directives saying which destination shapes it maps
//! to and under which conversion strategies; its fields may carry directives
//! renaming the destination field, routing the value through a transform
//! function, or excluding the field. This crate aggregates the type-level
//! directives, folds the field directives into one mapping tree per
//! (destination, strategy) pair, and validates the combination, producing a
//! plan ready for code emission by an external back-end.
//!
//! Parsing concrete annotation syntax into the structured directive values
//! consumed here, and turning a resolved plan into generated code, are left
//! to external front and back ends.
#![verifier::loop_isolation(false)]

use vstd::prelude::*;

pub mod ast;
pub mod attr;
pub mod laws;
pub mod resolve;
pub mod valid;

pub use crate::attr::mapping_strategy::MAX_STRATEGIES_BY_ATTRIBUTE;
pub use crate::attr::mapping_strategy::MappingStrategy;
pub use crate::attr::mapping_strategy::MappingStrategyParseError;
pub use crate::attr::mapping_strategy::StrategyError;
pub use crate::attr::mapping_strategy::parse_strategy;
pub use crate::attr::spanned_item::SpannedItem;

verus! {

/// A mapper converting itself into a destination value of type `T` without
/// consuming itself; generated code implements it for annotated types.
pub trait Mapper<T> {
    fn to(&self) -> T;
}

} // verus!
