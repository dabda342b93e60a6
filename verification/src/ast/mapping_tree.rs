//! The resolved plan for one (destination, strategy) pair: an ordered set of
//! mapping fields keyed by member identity.

use vstd::prelude::*;

use crate::ast::field::Member;
use crate::ast::field::MemberView;
use crate::ast::mapping_field::MappingField;
use crate::ast::mapping_field::MappingFieldView;
use crate::attr::mapping_strategy::MappingStrategy;

verus! {

/// How a (destination, strategy) pair came to be mapped: `Automatic` maps
/// every non-excluded field by default, `Additive` maps only explicitly
/// directed fields.
#[derive(Debug, Clone, Copy, PartialEq, Eq, Structural)]
pub enum MappingType {
    Additive,
    Automatic,
}

/// The resolved mapping of one source type to one destination under one
/// strategy. Entries are keyed by member identity: inserting an entry for a
/// member that already has one replaces it in place.
#[derive(Debug, PartialEq, Eq)]
pub struct MappingTree {
    pub ident: String,
    pub destination: String,
    pub strategy: MappingStrategy,
    pub mapping_fields: Vec<MappingField>,
    pub mapping_type: Option<MappingType>,
}

/// The mathematical content of a mapping tree.
#[verifier::ext_equal]
pub struct MappingTreeView {
    pub ident: Seq<char>,
    pub destination: Seq<char>,
    pub strategy: MappingStrategy,
    pub mapping_fields: Seq<MappingFieldView>,
    pub mapping_type: Option<MappingType>,
}

impl DeepView for MappingTree {
    type V = MappingTreeView;

    open spec fn deep_view(&self) -> MappingTreeView {
        MappingTreeView {
            ident: self.ident@,
            destination: self.destination@,
            strategy: self.strategy,
            mapping_fields: self.mapping_fields.deep_view(),
            mapping_type: self.mapping_type,
        }
    }
}

/// The index of the first entry for member `m`, if one exists.
pub open spec fn find_field_index(fields: Seq<MappingFieldView>, m: MemberView) -> Option<int>
    decreases fields.len(),
{
    if fields.len() == 0 {
        None
    } else {
        match find_field_index(fields.drop_last(), m) {
            Some(i) => Some(i),
            None => {
                if fields.last().member == m {
                    Some(fields.len() - 1)
                } else {
                    None
                }
            },
        }
    }
}

/// `fields` with `entry` inserted under its member key: an existing entry
/// for that member is replaced in place, otherwise `entry` is appended.
pub open spec fn upsert_field(fields: Seq<MappingFieldView>, entry: MappingFieldView) -> Seq<
    MappingFieldView,
> {
    match find_field_index(fields, entry.member) {
        Some(i) => fields.update(i, entry),
        None => fields.push(entry),
    }
}

/// `fields` with every entry for member `m` removed, order kept.
pub open spec fn remove_member(fields: Seq<MappingFieldView>, m: MemberView) -> Seq<
    MappingFieldView,
>
    decreases fields.len(),
{
    if fields.len() == 0 {
        Seq::empty()
    } else {
        let prefix = remove_member(fields.drop_last(), m);
        if fields.last().member == m {
            prefix
        } else {
            prefix.push(fields.last())
        }
    }
}

/// `fields` with the entry for member `m`, if any, renamed to `rename`; the
/// rest of that entry is kept.
pub open spec fn rename_fields(
    fields: Seq<MappingFieldView>,
    m: MemberView,
    rename: Seq<char>,
) -> Seq<MappingFieldView> {
    match find_field_index(fields, m) {
        Some(i) => fields.update(i, MappingFieldView { field: Some(rename), ..fields[i] }),
        None => fields,
    }
}

/// What `find_field_index` finds: the first index holding `m`, or nothing.
pub proof fn lemma_find_field_index(fields: Seq<MappingFieldView>, m: MemberView)
    ensures
        match find_field_index(fields, m) {
            Some(i) => 0 <= i < fields.len() && fields[i].member == m && forall|j: int|
                0 <= j < i ==> fields[j].member != m,
            None => forall|j: int| 0 <= j < fields.len() ==> fields[j].member != m,
        },
    decreases fields.len(),
{
    if fields.len() > 0 {
        lemma_find_field_index(fields.drop_last(), m);
        assert forall|j: int| 0 <= j < fields.len() - 1 implies fields[j]
            == fields.drop_last()[j] by {
            assert(fields.drop_last()[j] == fields[j]);
        }
    }
}

/// A hit stays the same hit when the sequence grows on the right.
pub proof fn lemma_find_field_index_extend(fields: Seq<MappingFieldView>, m: MemberView, i: int)
    requires
        0 <= i <= fields.len(),
        find_field_index(fields.take(i), m) is Some,
    ensures
        find_field_index(fields, m) == find_field_index(fields.take(i), m),
    decreases fields.len(),
{
    if i == fields.len() {
        assert(fields.take(i) =~= fields);
    } else {
        assert(fields.drop_last().take(i) =~= fields.take(i));
        lemma_find_field_index_extend(fields.drop_last(), m, i);
    }
}

impl MappingTree {
    /// An empty tree for one (destination, strategy) pair of the type
    /// `ident`.
    pub fn new(
        ident: String,
        destination: String,
        strategy: MappingStrategy,
        mapping_type: Option<MappingType>,
    ) -> (r: MappingTree)
        ensures
            r.ident == ident,
            r.destination == destination,
            r.strategy == strategy,
            r.mapping_type == mapping_type,
            r.mapping_fields@.len() == 0,
    {
        MappingTree { ident, destination, strategy, mapping_fields: Vec::new(), mapping_type }
    }

    /// Whether this tree is tagged with `mapping_type`.
    pub fn has_mapping_type(&self, mapping_type: &MappingType) -> (r: bool)
        ensures
            r == (self.mapping_type == Some(*mapping_type)),
    {
        match &self.mapping_type {
            Some(t) => *t == *mapping_type,
            None => false,
        }
    }

    /// Inserts `entry` under its member key, replacing an existing entry for
    /// the same member in place.
    pub fn upsert_mapping_field(&mut self, entry: MappingField)
        ensures
            final (self).ident == old(self).ident,
            final (self).destination == old(self).destination,
            final (self).strategy == old(self).strategy,
            final (self).mapping_type == old(self).mapping_type,
            final (self).mapping_fields.deep_view() == upsert_field(
                old(self).mapping_fields.deep_view(),
                entry.deep_view(),
            ),
    {
        let ghost fields = self.mapping_fields.deep_view();
        let ghost m = entry.deep_view().member;
        let mut i: usize = 0;
        while i < self.mapping_fields.len()
            invariant
                i <= self.mapping_fields@.len(),
                *self == *old(self),
                find_field_index(fields.take(i as int), m) is None,
            decreases self.mapping_fields@.len() - i,
        {
            proof {
                assert(fields.take(i + 1).drop_last() =~= fields.take(i as int));
            }
            if self.mapping_fields[i].member.matches(&entry.member) {
                proof {
                    assert(fields.take(i + 1).last() == fields[i as int]);
                    assert(find_field_index(fields.take(i + 1), m) == Some(i as int));
                    lemma_find_field_index_extend(fields, m, i + 1);
                }
                self.mapping_fields[i] = entry;
                proof {
                    assert(self.mapping_fields.deep_view() =~= fields.update(
                        i as int,
                        entry.deep_view(),
                    ));
                }
                return ;
            }
            i = i + 1;
        }
        proof {
            assert(fields.take(fields.len() as int) =~= fields);
        }
        self.mapping_fields.push(entry);
        proof {
            assert(self.mapping_fields.deep_view() =~= fields.push(entry.deep_view()));
        }
    }

    /// Renames the entry keyed by `member`, if one exists, to `rename`,
    /// leaving the rest of the entry and all other entries unchanged.
    pub fn set_rename(&mut self, member: &Member, rename: &String)
        ensures
            final (self).ident == old(self).ident,
            final (self).destination == old(self).destination,
            final (self).strategy == old(self).strategy,
            final (self).mapping_type == old(self).mapping_type,
            final (self).mapping_fields.deep_view() == rename_fields(
                old(self).mapping_fields.deep_view(),
                member.deep_view(),
                rename@,
            ),
    {
        let ghost fields = self.mapping_fields.deep_view();
        let ghost m = member.deep_view();
        let mut i: usize = 0;
        while i < self.mapping_fields.len()
            invariant
                i <= self.mapping_fields@.len(),
                *self == *old(self),
                find_field_index(fields.take(i as int), m) is None,
            decreases self.mapping_fields@.len() - i,
        {
            proof {
                assert(fields.take(i + 1).drop_last() =~= fields.take(i as int));
            }
            if self.mapping_fields[i].member.matches(member) {
                proof {
                    assert(fields.take(i + 1).last() == fields[i as int]);
                    assert(find_field_index(fields.take(i + 1), m) == Some(i as int));
                    lemma_find_field_index_extend(fields, m, i + 1);
                }
                let mut entry = self.mapping_fields[i].clone();
                entry.field = Some(rename.clone());
                self.mapping_fields[i] = entry;
                proof {
                    assert(self.mapping_fields.deep_view() =~= fields.update(
                        i as int,
                        MappingFieldView { field: Some(rename@), ..fields[i as int] },
                    ));
                }
                return ;
            }
            i = i + 1;
        }
        proof {
            assert(fields.take(fields.len() as int) =~= fields);
        }
    }

    /// Removes every entry keyed by `member`, keeping the order of the rest.
    pub fn remove_mapping_fields_by_member(&mut self, member: &Member)
        ensures
            final (self).ident == old(self).ident,
            final (self).destination == old(self).destination,
            final (self).strategy == old(self).strategy,
            final (self).mapping_type == old(self).mapping_type,
            final (self).mapping_fields.deep_view() == remove_member(
                old(self).mapping_fields.deep_view(),
                member.deep_view(),
            ),
    {
        let ghost fields = self.mapping_fields.deep_view();
        let ghost m = member.deep_view();
        let mut kept: Vec<MappingField> = Vec::new();
        let mut i: usize = 0;
        while i < self.mapping_fields.len()
            invariant
                i <= self.mapping_fields@.len(),
                *self == *old(self),
                kept.deep_view() == remove_member(fields.take(i as int), m),
            decreases self.mapping_fields@.len() - i,
        {
            proof {
                assert(fields.take(i + 1).drop_last() =~= fields.take(i as int));
            }
            if !self.mapping_fields[i].member.matches(member) {
                kept.push(self.mapping_fields[i].clone());
                proof {
                    assert(kept.deep_view() =~= remove_member(fields.take(i as int), m).push(
                        fields[i as int],
                    ));
                }
            }
            i = i + 1;
        }
        proof {
            assert(fields.take(fields.len() as int) =~= fields);
        }
        self.mapping_fields = kept;
    }
}

} // verus!
