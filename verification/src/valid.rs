//! The cross-directive validator: a second pass over the field directives
//! rejecting combinations the resolver does not catch incrementally.
//!
//! Checks, per field, per directive, in declaration order, stopping at the
//! first violation: an additive declaration of a pair the automatic registry
//! already governs; a destination-scoped exclusion whose destination takes
//! part in no automatic mapping; a transform registered for a strategy whose
//! (destination, strategy) tree neither the registry nor a strategy
//! selection on the same field calls for.

use vstd::prelude::*;

use crate::ast::data_type::Input;
use crate::ast::data_type::Struct;
use crate::ast::field::Field;
use crate::attr::aggregated_to::RegistryView;
use crate::attr::field::Params;
use crate::attr::field::spec_additive_for;
use crate::attr::field::strategies_of;
use crate::attr::mapping_strategy::MappingStrategy;

verus! {

/// A rejected descriptor: the first violation the validator finds.
#[derive(Debug, PartialEq, Eq)]
pub enum StructError {
    /// A field directive additively declares a (destination, strategy) pair
    /// that automatic mapping already governs.
    AdditiveMappingConflictsWithAutomatic { destination: String, strategy: MappingStrategy },
    /// A destination-scoped exclusion names a destination that takes part in
    /// no automatic mapping.
    IllegalExclusion { destination: String },
    /// A transform is registered for a strategy with no matching
    /// (destination, strategy) mapping to invoke it.
    OrphanTransform { destination: String, strategy: MappingStrategy },
}

/// The mathematical content of a validation error.
pub enum StructErrorView {
    AdditiveMappingConflictsWithAutomatic { destination: Seq<char>, strategy: MappingStrategy },
    IllegalExclusion { destination: Seq<char> },
    OrphanTransform { destination: Seq<char>, strategy: MappingStrategy },
}

impl DeepView for StructError {
    type V = StructErrorView;

    open spec fn deep_view(&self) -> StructErrorView {
        match self {
            StructError::AdditiveMappingConflictsWithAutomatic { destination, strategy } => {
                StructErrorView::AdditiveMappingConflictsWithAutomatic {
                    destination: destination@,
                    strategy: *strategy,
                }
            },
            StructError::IllegalExclusion { destination } => {
                StructErrorView::IllegalExclusion { destination: destination@ }
            },
            StructError::OrphanTransform { destination, strategy } => {
                StructErrorView::OrphanTransform { destination: destination@, strategy: *strategy }
            },
        }
    }
}

/// The first strategy of `ss` that the registry already pairs with `dest`.
pub open spec fn first_conflict(
    reg: RegistryView,
    dest: Seq<char>,
    ss: Seq<MappingStrategy>,
) -> Option<MappingStrategy>
    decreases ss.len(),
{
    if ss.len() == 0 {
        None
    } else {
        match first_conflict(reg, dest, ss.drop_last()) {
            Some(s) => Some(s),
            None => {
                if reg.contains_pair(dest, ss.last()) {
                    Some(ss.last())
                } else {
                    None
                }
            },
        }
    }
}

/// Whether some directive of field `f` additively declares `(dest,
/// strategy)`.
pub open spec fn field_declares(f: Field, dest: Seq<char>, strategy: MappingStrategy) -> bool {
    exists|j: int|
        0 <= j < f.attrs@.len() && spec_additive_for(#[trigger] f.attrs@[j], dest, strategy)
}

/// Whether a transform for `(dest, strategy)` has a mapping to land in: the
/// pair is automatic, or a directive on the same field declares it.
pub open spec fn with_supported(
    reg: RegistryView,
    f: Field,
    dest: Seq<char>,
    strategy: MappingStrategy,
) -> bool {
    reg.contains_pair(dest, strategy) || field_declares(f, dest, strategy)
}

/// The strategy of the first transform registration of `ws` that no mapping
/// supports.
pub open spec fn first_orphan(
    reg: RegistryView,
    f: Field,
    dest: Seq<char>,
    ws: Seq<(Option<Seq<char>>, MappingStrategy)>,
) -> Option<MappingStrategy>
    decreases ws.len(),
{
    if ws.len() == 0 {
        None
    } else {
        match first_orphan(reg, f, dest, ws.drop_last()) {
            Some(s) => Some(s),
            None => {
                if !with_supported(reg, f, dest, ws.last().1) {
                    Some(ws.last().1)
                } else {
                    None
                }
            },
        }
    }
}

/// The first violation of one directive, in check order: additive conflict,
/// illegal exclusion, orphan transform. A directive with no destination (an
/// unconditional exclusion) has nothing to check.
pub open spec fn directive_error(reg: RegistryView, f: Field, d: Params) -> Option<
    StructErrorView,
> {
    match d.destination {
        None => None,
        Some(dest) => match first_conflict(reg, dest@, strategies_of(d)) {
            Some(s) => Some(
                StructErrorView::AdditiveMappingConflictsWithAutomatic {
                    destination: dest@,
                    strategy: s,
                },
            ),
            None => {
                if d.exclude.1 && !reg.contains_destination(dest@) {
                    Some(StructErrorView::IllegalExclusion { destination: dest@ })
                } else {
                    match first_orphan(reg, f, dest@, d.with.deep_view()) {
                        Some(s) => Some(
                            StructErrorView::OrphanTransform { destination: dest@, strategy: s },
                        ),
                        None => None,
                    }
                }
            },
        },
    }
}

/// The first violation among field `f`'s directives, in declaration order.
pub open spec fn directives_error(reg: RegistryView, f: Field, ds: Seq<Params>) -> Option<
    StructErrorView,
>
    decreases ds.len(),
{
    if ds.len() == 0 {
        None
    } else {
        match directives_error(reg, f, ds.drop_last()) {
            Some(e) => Some(e),
            None => directive_error(reg, f, ds.last()),
        }
    }
}

/// The first violation among the fields `fs`, in declaration order.
pub open spec fn fields_error(reg: RegistryView, fs: Seq<Field>) -> Option<StructErrorView>
    decreases fs.len(),
{
    if fs.len() == 0 {
        None
    } else {
        match fields_error(reg, fs.drop_last()) {
            Some(e) => Some(e),
            None => directives_error(reg, fs.last(), fs.last().attrs@),
        }
    }
}

/// The first violation of descriptor `s`, if any.
pub open spec fn spec_validate(s: Struct) -> Option<StructErrorView> {
    fields_error(s.attrs.deep_view(), s.fields@)
}

proof fn lemma_first_conflict_extend(
    reg: RegistryView,
    dest: Seq<char>,
    ss: Seq<MappingStrategy>,
    i: int,
)
    requires
        0 <= i <= ss.len(),
        first_conflict(reg, dest, ss.take(i)) is Some,
    ensures
        first_conflict(reg, dest, ss) == first_conflict(reg, dest, ss.take(i)),
    decreases ss.len(),
{
    if i == ss.len() {
        assert(ss.take(i) =~= ss);
    } else {
        assert(ss.drop_last().take(i) =~= ss.take(i));
        lemma_first_conflict_extend(reg, dest, ss.drop_last(), i);
    }
}

proof fn lemma_first_orphan_extend(
    reg: RegistryView,
    f: Field,
    dest: Seq<char>,
    ws: Seq<(Option<Seq<char>>, MappingStrategy)>,
    i: int,
)
    requires
        0 <= i <= ws.len(),
        first_orphan(reg, f, dest, ws.take(i)) is Some,
    ensures
        first_orphan(reg, f, dest, ws) == first_orphan(reg, f, dest, ws.take(i)),
    decreases ws.len(),
{
    if i == ws.len() {
        assert(ws.take(i) =~= ws);
    } else {
        assert(ws.drop_last().take(i) =~= ws.take(i));
        lemma_first_orphan_extend(reg, f, dest, ws.drop_last(), i);
    }
}

proof fn lemma_directives_error_extend(reg: RegistryView, f: Field, ds: Seq<Params>, i: int)
    requires
        0 <= i <= ds.len(),
        directives_error(reg, f, ds.take(i)) is Some,
    ensures
        directives_error(reg, f, ds) == directives_error(reg, f, ds.take(i)),
    decreases ds.len(),
{
    if i == ds.len() {
        assert(ds.take(i) =~= ds);
    } else {
        assert(ds.drop_last().take(i) =~= ds.take(i));
        lemma_directives_error_extend(reg, f, ds.drop_last(), i);
    }
}

proof fn lemma_fields_error_extend(reg: RegistryView, fs: Seq<Field>, i: int)
    requires
        0 <= i <= fs.len(),
        fields_error(reg, fs.take(i)) is Some,
    ensures
        fields_error(reg, fs) == fields_error(reg, fs.take(i)),
    decreases fs.len(),
{
    if i == fs.len() {
        assert(fs.take(i) =~= fs);
    } else {
        assert(fs.drop_last().take(i) =~= fs.take(i));
        lemma_fields_error_extend(reg, fs.drop_last(), i);
    }
}

impl Field {
    /// Whether some directive of this field additively declares
    /// `(destination, strategy)`.
    pub fn declares_strategy(&self, destination: &String, strategy: &MappingStrategy) -> (r: bool)
        ensures
            r == field_declares(*self, destination@, *strategy),
    {
        let mut i: usize = 0;
        while i < self.attrs.len()
            invariant
                i <= self.attrs@.len(),
                forall|j: int|
                    0 <= j < i ==> !spec_additive_for(
                        #[trigger] self.attrs@[j],
                        destination@,
                        *strategy,
                    ),
            decreases self.attrs@.len() - i,
        {
            if self.attrs[i].is_additive_mapping_for_destination_and_strategy(
                destination,
                strategy,
            ) {
                return true;
            }
            i = i + 1;
        }
        false
    }
}

impl Struct {
    /// Whether `(destination, strategy)` is mapped at all: automatically by
    /// the registry, or additively by some directive of some field.
    pub fn has_strategy_for_destination(
        &self,
        destination: &String,
        strategy: &MappingStrategy,
    ) -> (r: bool)
        ensures
            r == (self.attrs.deep_view().contains_pair(destination@, *strategy) || exists|i: int|
                0 <= i < self.fields@.len() && field_declares(
                    #[trigger] self.fields@[i],
                    destination@,
                    *strategy,
                )),
    {
        if self.attrs.has_destination_for_strategy(destination, strategy) {
            return true;
        }
        let mut i: usize = 0;
        while i < self.fields.len()
            invariant
                i <= self.fields@.len(),
                forall|j: int|
                    0 <= j < i ==> !field_declares(
                        #[trigger] self.fields@[j],
                        destination@,
                        *strategy,
                    ),
            decreases self.fields@.len() - i,
        {
            if self.fields[i].declares_strategy(destination, strategy) {
                return true;
            }
            i = i + 1;
        }
        false
    }

    /// Checks every field directive against the registry, returning the
    /// first violation: exactly the value of [`spec_validate`].
    pub fn validate(&self) -> (r: Result<(), StructError>)
        ensures
            match r {
                Ok(_) => spec_validate(*self) is None,
                Err(e) => spec_validate(*self) == Some(e.deep_view()),
            },
    {
        let ghost reg = self.attrs.deep_view();
        let mut fi: usize = 0;
        while fi < self.fields.len()
            invariant
                fi <= self.fields@.len(),
                fields_error(reg, self.fields@.take(fi as int)) is None,
            decreases self.fields@.len() - fi,
        {
            proof {
                assert(self.fields@.take(fi + 1).drop_last() =~= self.fields@.take(fi as int));
            }
            let field = &self.fields[fi];
            let ghost f = self.fields@[fi as int];
            let mut k: usize = 0;
            while k < field.attrs.len()
                invariant
                    k <= field.attrs@.len(),
                    directives_error(reg, f, f.attrs@.take(k as int)) is None,
                decreases field.attrs@.len() - k,
            {
                proof {
                    assert(f.attrs@.take(k + 1).drop_last() =~= f.attrs@.take(k as int));
                }
                let d = &field.attrs[k];
                let ghost dv = f.attrs@[k as int];
                if let Some(dest) = &d.destination {
                    // Additive declarations must not meet the automatic
                    // registry.
                    let ghost ss = strategies_of(dv);
                    let mut si: usize = 0;
                    while si < d.strategies.len()
                        invariant
                            si <= d.strategies@.len(),
                            ss == strategies_of(dv),
                            d.strategies@.len() == ss.len(),
                            first_conflict(reg, dest@, ss.take(si as int)) is None,
                        decreases d.strategies@.len() - si,
                    {
                        proof {
                            assert(ss.take(si + 1).drop_last() =~= ss.take(si as int));
                        }
                        let strategy = d.strategies[si].1;
                        if self.attrs.has_destination_for_strategy(dest, &strategy) {
                            proof {
                                assert(first_conflict(reg, dest@, ss.take(si + 1)) == Some(
                                    strategy,
                                ));
                                lemma_first_conflict_extend(reg, dest@, ss, si + 1);
                                assert(directives_error(reg, f, f.attrs@.take(k + 1))
                                    == directive_error(reg, f, dv));
                                lemma_directives_error_extend(reg, f, f.attrs@, k + 1);
                                assert(fields_error(reg, self.fields@.take(fi + 1))
                                    == directives_error(reg, f, f.attrs@));
                                lemma_fields_error_extend(reg, self.fields@, fi + 1);
                            }
                            return Err(
                                StructError::AdditiveMappingConflictsWithAutomatic {
                                    destination: dest.clone(),
                                    strategy,
                                },
                            );
                        }
                        si = si + 1;
                    }
                    proof {
                        assert(ss.take(ss.len() as int) =~= ss);
                    }

                    // A scoped exclusion needs an automatic mapping to
                    // exclude from.
                    if d.exclude.1 && !self.attrs.has_destination(dest) {
                        proof {
                            assert(directives_error(reg, f, f.attrs@.take(k + 1))
                                == directive_error(reg, f, dv));
                            lemma_directives_error_extend(reg, f, f.attrs@, k + 1);
                            assert(fields_error(reg, self.fields@.take(fi + 1))
                                == directives_error(reg, f, f.attrs@));
                            lemma_fields_error_extend(reg, self.fields@, fi + 1);
                        }
                        return Err(StructError::IllegalExclusion { destination: dest.clone() });
                    }

                    // Each registered transform needs a mapping to invoke it.
                    let ghost ws = dv.with.deep_view();
                    let mut wi: usize = 0;
                    while wi < d.with.len()
                        invariant
                            wi <= d.with@.len(),
                            ws == dv.with.deep_view(),
                            d.with@.len() == ws.len(),
                            first_orphan(reg, f, dest@, ws.take(wi as int)) is None,
                        decreases d.with@.len() - wi,
                    {
                        proof {
                            assert(ws.take(wi + 1).drop_last() =~= ws.take(wi as int));
                        }
                        let strategy = d.with[wi].1;
                        let supported = self.attrs.has_destination_for_strategy(dest, &strategy)
                            || field.declares_strategy(dest, &strategy);
                        if !supported {
                            proof {
                                assert(first_orphan(reg, f, dest@, ws.take(wi + 1)) == Some(
                                    strategy,
                                ));
                                lemma_first_orphan_extend(reg, f, dest@, ws, wi + 1);
                                assert(directives_error(reg, f, f.attrs@.take(k + 1))
                                    == directive_error(reg, f, dv));
                                lemma_directives_error_extend(reg, f, f.attrs@, k + 1);
                                assert(fields_error(reg, self.fields@.take(fi + 1))
                                    == directives_error(reg, f, f.attrs@));
                                lemma_fields_error_extend(reg, self.fields@, fi + 1);
                            }
                            return Err(
                                StructError::OrphanTransform {
                                    destination: dest.clone(),
                                    strategy,
                                },
                            );
                        }
                        wi = wi + 1;
                    }
                    proof {
                        assert(ws.take(ws.len() as int) =~= ws);
                    }
                }
                k = k + 1;
            }
            proof {
                assert(f.attrs@.take(f.attrs@.len() as int) =~= f.attrs@);
            }
            fi = fi + 1;
        }
        proof {
            assert(self.fields@.take(self.fields@.len() as int) =~= self.fields@);
        }
        Ok(())
    }
}

impl Input {
    /// Validates the descriptor an input holds.
    pub fn validate(&self) -> (r: Result<(), StructError>)
        ensures
            match self {
                Input::Struct(s) => match r {
                    Ok(_) => spec_validate(*s) is None,
                    Err(e) => spec_validate(*s) == Some(e.deep_view()),
                },
            },
    {
        match self {
            Input::Struct(s) => s.validate(),
        }
    }
}

} // verus!
