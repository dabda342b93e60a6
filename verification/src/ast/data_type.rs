//! The annotated record: its identity, the aggregated type-level directives
//! and its fields.

use vstd::prelude::*;

use crate::ast::field::Field;
use crate::attr::aggregated_to::AggregatedTo;
use crate::attr::data_type::AggregationError;
use crate::attr::data_type::Params;
use crate::attr::data_type::get;
use crate::attr::data_type::spec_aggregate;

verus! {

/// The annotated record under resolution: its name, the automatic-mapping
/// registry aggregated from its type-level directives, and its fields in
/// declaration order.
#[derive(Debug, PartialEq, Eq)]
pub struct Struct {
    pub ident: String,
    pub attrs: AggregatedTo,
    pub fields: Vec<Field>,
}

/// The kinds of annotated item the engine resolves.
#[derive(Debug, PartialEq, Eq)]
pub enum Input {
    Struct(Struct),
}

impl Struct {
    /// Builds the descriptor of one annotated record, aggregating its
    /// type-level directives; rejects a destination registered twice for one
    /// strategy.
    pub fn new(ident: String, directives: &Vec<Params>, fields: Vec<Field>) -> (r: Result<
        Struct,
        AggregationError,
    >)
        ensures
            match r {
                Ok(s) => s.ident == ident && s.fields == fields && spec_aggregate(directives@)
                    == Ok::<_, (crate::attr::mapping_strategy::MappingStrategy, Seq<char>)>(
                    s.attrs.deep_view(),
                ),
                Err(e) => spec_aggregate(directives@) == Err::<
                    crate::attr::aggregated_to::RegistryView,
                    _,
                >(e.deep_view()),
            },
    {
        let attrs = get(directives)?;
        Ok(Struct { ident, attrs, fields })
    }
}

} // verus!
