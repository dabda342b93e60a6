//! A field of the annotated record: its member identity, declared type and
//! field-level directives.

use vstd::prelude::*;

use crate::attr::field::Params;
use crate::attr::field::spec_excludes_for_destination;

verus! {

/// The identity of a record member: a name, or a position for tuple records.
#[derive(Debug, PartialEq, Eq)]
pub enum Member {
    Named(String),
    Unnamed(usize),
}

/// The mathematical content of a member identity.
pub enum MemberView {
    Named(Seq<char>),
    Unnamed(usize),
}

impl DeepView for Member {
    type V = MemberView;

    open spec fn deep_view(&self) -> MemberView {
        match self {
            Member::Named(n) => MemberView::Named(n@),
            Member::Unnamed(i) => MemberView::Unnamed(*i),
        }
    }
}

impl Clone for Member {
    fn clone(&self) -> (res: Self)
        ensures
            res == *self,
    {
        match self {
            Member::Named(n) => Member::Named(n.clone()),
            Member::Unnamed(i) => Member::Unnamed(*i),
        }
    }
}

impl Member {
    /// Whether two member identities are the same.
    pub fn matches(&self, other: &Member) -> (r: bool)
        ensures
            r == (self.deep_view() == other.deep_view()),
    {
        match (self, other) {
            (Member::Named(a), Member::Named(b)) => *a == *b,
            (Member::Unnamed(a), Member::Unnamed(b)) => *a == *b,
            _ => false,
        }
    }
}

/// One field of the annotated record, with the directives written on it, in
/// declaration order.
#[derive(Debug, PartialEq, Eq)]
pub struct Field {
    pub member: Member,
    pub ty: String,
    pub attrs: Vec<Params>,
}

/// Whether some directive of `f` excludes it for destination `dest`.
pub open spec fn spec_field_excluded(f: Field, dest: Seq<char>) -> bool {
    exists|j: int|
        0 <= j < f.attrs@.len() && spec_excludes_for_destination(#[trigger] f.attrs@[j], dest)
}

impl Field {
    /// Builds a field description.
    pub fn new(member: Member, ty: String, attrs: Vec<Params>) -> (r: Field)
        ensures
            r == (Field { member, ty, attrs }),
    {
        Field { member, ty, attrs }
    }

    /// Whether some directive of this field excludes it for `destination`.
    pub fn is_excluded(&self, destination: &String) -> (r: bool)
        ensures
            r == spec_field_excluded(*self, destination@),
    {
        let mut i: usize = 0;
        while i < self.attrs.len()
            invariant
                i <= self.attrs@.len(),
                forall|j: int|
                    0 <= j < i ==> !spec_excludes_for_destination(
                        #[trigger] self.attrs@[j],
                        destination@,
                    ),
            decreases self.attrs@.len() - i,
        {
            if self.attrs[i].is_excluded_for_destination(destination) {
                return true;
            }
            i = i + 1;
        }
        false
    }
}

} // verus!
