//! The resolved data model: the annotated record, its fields, and the
//! mapping trees the resolver produces from them.

pub mod data_type;
pub mod field;
pub mod mapping_field;
pub mod mapping_tree;
