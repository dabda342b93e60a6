//! The directive model: structured values for type-level and field-level
//! mapping directives, and the aggregation of type-level directives into the
//! automatic-mapping registry.

pub mod aggregated_to;
pub mod data_type;
pub mod field;
pub mod mapping_strategy;
pub mod spanned_item;
