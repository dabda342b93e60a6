//! One resolved source-to-destination field conversion.

use vstd::prelude::*;

use crate::ast::field::Member;
use crate::ast::field::MemberView;
use crate::attr::mapping_strategy::MappingStrategy;

verus! {

/// One entry of a mapping tree: how one member of the source record reaches
/// the destination under the tree's strategy. `field` is the rename target,
/// `with` the transform function, both optional.
#[derive(Debug, PartialEq, Eq)]
pub struct MappingField {
    pub ty: String,
    pub strategy: MappingStrategy,
    pub member: Member,
    pub field: Option<String>,
    pub with: Option<String>,
}

/// The mathematical content of a mapping field.
#[verifier::ext_equal]
pub struct MappingFieldView {
    pub ty: Seq<char>,
    pub strategy: MappingStrategy,
    pub member: MemberView,
    pub field: Option<Seq<char>>,
    pub with: Option<Seq<char>>,
}

impl DeepView for MappingField {
    type V = MappingFieldView;

    open spec fn deep_view(&self) -> MappingFieldView {
        MappingFieldView {
            ty: self.ty@,
            strategy: self.strategy,
            member: self.member.deep_view(),
            field: self.field.deep_view(),
            with: self.with.deep_view(),
        }
    }
}

impl Clone for MappingField {
    fn clone(&self) -> (res: Self)
        ensures
            res == *self,
    {
        MappingField {
            ty: self.ty.clone(),
            strategy: self.strategy,
            member: self.member.clone(),
            field: clone_opt_string(&self.field),
            with: clone_opt_string(&self.with),
        }
    }
}

/// Clones an optional string, keeping its value.
pub fn clone_opt_string(o: &Option<String>) -> (r: Option<String>)
    ensures
        r == *o,
{
    match o {
        Some(s) => Some(s.clone()),
        None => None,
    }
}

/// How the destination field obtains its value from the source record.
#[derive(Debug, PartialEq, Eq)]
pub enum SourceExpr {
    /// The source member is copied (cloned or borrowed), leaving the source
    /// intact.
    DirectCopy,
    /// The source member is moved out of the consumed source.
    DirectMove,
    /// The named transform function is applied to the source member.
    TransformCall(String),
}

impl MappingField {
    /// The destination member this entry assigns: the rename target when one
    /// was given, the source member otherwise.
    pub fn get_dest_field(&self) -> (r: Member)
        ensures
            match self.field {
                Some(f) => r.deep_view() == MemberView::Named(f@),
                None => r.deep_view() == self.member.deep_view(),
            },
    {
        match &self.field {
            Some(f) => Member::Named(f.clone()),
            None => self.member.clone(),
        }
    }

    /// The source expression this entry evaluates: a transform call when a
    /// transform is registered, otherwise a move for the consuming strategy
    /// and a copy for the non-consuming one.
    pub fn get_src_field(&self) -> (r: SourceExpr)
        ensures
            match self.with {
                Some(w) => (r matches SourceExpr::TransformCall(f) && f@ == w@),
                None => r == (if self.strategy is Into {
                    SourceExpr::DirectMove
                } else {
                    SourceExpr::DirectCopy
                }),
            },
    {
        match &self.with {
            Some(w) => SourceExpr::TransformCall(w.clone()),
            None => match self.strategy {
                MappingStrategy::Into => SourceExpr::DirectMove,
                MappingStrategy::Mapper => SourceExpr::DirectCopy,
            },
        }
    }
}

} // verus!
