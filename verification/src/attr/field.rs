//! Field-level directives: the structured value of one `to(...)` directive
//! written on a field, its construction checks, and the queries the resolver
//! and validator make of it.

use vstd::prelude::*;

use crate::attr::mapping_strategy::MappingStrategy;
use crate::attr::spanned_item::SpannedItem;

verus! {

/// A rejected field directive.
#[derive(Debug, PartialEq, Eq)]
pub enum ParamsError {
    /// An exclusion directive also carries rename, transform or strategy
    /// configuration.
    ExcludedField,
    /// A non-exclusion directive omits the destination reference.
    MissingDestination,
    /// A directive names a destination but none of rename, transform,
    /// strategy or exclusion.
    MissingMappingConfig,
}

/// A second transform was registered for a strategy that already has one on
/// the same directive; carries that strategy.
#[derive(Debug, PartialEq, Eq)]
pub enum WithError {
    DuplicateWithForStrategy(MappingStrategy),
}

/// One structured field-level directive.
///
/// `with` pairs a transform-function reference (the token, in slot `0`) with
/// the strategy it serves (slot `1`); `strategies` pairs each selected
/// strategy with the selector token it came from; `exclude` records whether
/// the directive excludes the field, together with the token that said so.
/// An exclusion with no destination is unconditional; with a destination it
/// is scoped to that destination.
#[derive(Debug, Clone, PartialEq, Eq)]
pub struct Params {
    pub destination: Option<String>,
    pub field: Option<String>,
    pub with: Vec<SpannedItem<String, MappingStrategy>>,
    pub exclude: SpannedItem<String, bool>,
    pub strategies: Vec<SpannedItem<String, MappingStrategy>>,
}

/// The strategies a directive explicitly selects, in selector order.
pub open spec fn strategies_of(p: Params) -> Seq<MappingStrategy> {
    p.strategies.deep_view().map_values(|e: (Option<Seq<char>>, MappingStrategy)| e.1)
}

/// The strategies the resolver acts on for a non-exclusion directive: the
/// explicit selection, or the default strategy when none is named.
pub open spec fn effective_strategies_of(p: Params) -> Seq<MappingStrategy> {
    if p.strategies@.len() == 0 {
        seq![MappingStrategy::Mapper]
    } else {
        strategies_of(p)
    }
}

/// The transform registered for `strategy` by the entries `withs`: the first
/// entry naming that strategy, if any.
pub open spec fn with_for(
    withs: Seq<(Option<Seq<char>>, MappingStrategy)>,
    strategy: MappingStrategy,
) -> Option<Seq<char>>
    decreases withs.len(),
{
    if withs.len() == 0 {
        None
    } else {
        match with_for(withs.drop_last(), strategy) {
            Some(f) => Some(f),
            None => {
                if withs.last().1 == strategy {
                    withs.last().0
                } else {
                    None
                }
            },
        }
    }
}

/// Whether the directive excludes a field for destination `dest`: it must be
/// an exclusion, and either unconditional or scoped to that destination.
pub open spec fn spec_excludes_for_destination(p: Params, dest: Seq<char>) -> bool {
    p.exclude.1 && match p.destination {
        Some(d) => d@ == dest,
        None => true,
    }
}

/// Whether the directive additively declares `(dest, strategy)`: it names
/// that destination and explicitly selects that strategy.
pub open spec fn spec_additive_for(p: Params, dest: Seq<char>, strategy: MappingStrategy) -> bool {
    match p.destination {
        Some(d) => d@ == dest && strategies_of(p).contains(strategy),
        None => false,
    }
}

impl Params {
    /// Builds a field directive, rejecting the underspecified and
    /// contradictory shapes.
    pub fn new(
        destination: Option<String>,
        field: Option<String>,
        with: Vec<SpannedItem<String, MappingStrategy>>,
        exclude: SpannedItem<String, bool>,
        strategies: Vec<SpannedItem<String, MappingStrategy>>,
    ) -> (r: Result<Params, ParamsError>)
        ensures
            ({
                let overloaded_exclusion = exclude.1 && (field is Some || with@.len() > 0
                    || strategies@.len() > 0);
                let missing_destination = !exclude.1 && destination is None;
                let missing_config = !exclude.1 && destination is Some && field is None
                    && with@.len() == 0 && strategies@.len() == 0;
                if overloaded_exclusion {
                    r == Err::<Params, ParamsError>(ParamsError::ExcludedField)
                } else if missing_destination {
                    r == Err::<Params, ParamsError>(ParamsError::MissingDestination)
                } else if missing_config {
                    r == Err::<Params, ParamsError>(ParamsError::MissingMappingConfig)
                } else {
                    r matches Ok(p) && p.destination == destination && p.field == field && p.with
                        == with && p.exclude == exclude && p.strategies == strategies
                }
            }),
    {
        let has_field = field.is_some();
        let has_with = with.len() > 0;
        let has_strategies = strategies.len() > 0;
        if exclude.1 && (has_field || has_with || has_strategies) {
            Err(ParamsError::ExcludedField)
        } else if !exclude.1 && destination.is_none() {
            Err(ParamsError::MissingDestination)
        } else if !exclude.1 && destination.is_some() && !has_field && !has_with
            && !has_strategies {
            Err(ParamsError::MissingMappingConfig)
        } else {
            Ok(Params { destination, field, with, exclude, strategies })
        }
    }

    /// The transform function this directive registers for `strategy`, if
    /// any.
    pub fn get_with_by_strategy(&self, strategy: &MappingStrategy) -> (r: Option<String>)
        ensures
            r.deep_view() == with_for(self.with.deep_view(), *strategy),
    {
        let mut found: Option<String> = None;
        let mut i: usize = 0;
        while i < self.with.len()
            invariant
                i <= self.with@.len(),
                found.deep_view() == with_for(self.with.deep_view().take(i as int), *strategy),
            decreases self.with@.len() - i,
        {
            proof {
                assert(self.with.deep_view().take(i + 1).drop_last() =~= self.with.deep_view().take(
                    i as int,
                ));
            }
            if found.is_none() && self.with[i].1 == *strategy {
                found = match &self.with[i].0 {
                    Some(f) => Some(f.clone()),
                    None => None,
                };
            }
            i = i + 1;
        }
        proof {
            assert(self.with.deep_view().take(self.with@.len() as int) =~= self.with.deep_view());
        }
        found
    }

    /// Whether this directive excludes its field for `destination`.
    pub fn is_excluded_for_destination(&self, destination: &String) -> (r: bool)
        ensures
            r == spec_excludes_for_destination(*self, destination@),
    {
        self.exclude.1 && match &self.destination {
            Some(d) => *d == *destination,
            None => true,
        }
    }

    /// Whether this directive additively declares `(destination, strategy)`.
    pub fn is_additive_mapping_for_destination_and_strategy(
        &self,
        destination: &String,
        strategy: &MappingStrategy,
    ) -> (r: bool)
        ensures
            r == spec_additive_for(*self, destination@, *strategy),
    {
        match &self.destination {
            Some(d) => *d == *destination && self.has_strategy(strategy),
            None => false,
        }
    }

    /// Whether this directive additively declares `destination` under some
    /// strategy.
    pub fn is_additive_mapping_for_destination(&self, destination: &String) -> (r: bool)
        ensures
            r == match self.destination {
                Some(d) => d@ == destination@ && self.strategies@.len() > 0,
                None => false,
            },
    {
        match &self.destination {
            Some(d) => *d == *destination && self.strategies.len() > 0,
            None => false,
        }
    }

    /// Whether `strategy` is among the directive's explicit selectors.
    pub fn has_strategy(&self, strategy: &MappingStrategy) -> (r: bool)
        ensures
            r == strategies_of(*self).contains(*strategy),
    {
        let mut i: usize = 0;
        while i < self.strategies.len()
            invariant
                i <= self.strategies@.len(),
                forall|j: int| 0 <= j < i ==> strategies_of(*self)[j] != *strategy,
            decreases self.strategies@.len() - i,
        {
            if self.strategies[i].1 == *strategy {
                proof {
                    assert(strategies_of(*self)[i as int] == *strategy);
                }
                return true;
            }
            i = i + 1;
        }
        false
    }
}

/// Registers a transform for a strategy on one directive, rejecting a second
/// transform for the same strategy.
///
/// On success the entry is appended; on failure the set is unchanged.
pub fn insert_with(
    with: &mut Vec<SpannedItem<String, MappingStrategy>>,
    new_with: SpannedItem<String, MappingStrategy>,
) -> (r: Result<(), WithError>)
    ensures
        ({
            let had = exists|j: int| 0 <= j < old(with)@.len() && old(with)@[j].1 == new_with.1;
            if had {
                r == Err::<(), WithError>(WithError::DuplicateWithForStrategy(new_with.1))
                    && final (with)@ == old(with)@
            } else {
                r == Ok::<(), WithError>(()) && final (with)@ == old(with)@.push(new_with)
            }
        }),
{
    let mut i: usize = 0;
    while i < with.len()
        invariant
            i <= with@.len(),
            *with == *old(with),
            forall|j: int| 0 <= j < i ==> with@[j].1 != new_with.1,
        decreases with@.len() - i,
    {
        if with[i].1 == new_with.1 {
            return Err(WithError::DuplicateWithForStrategy(new_with.1));
        }
        i = i + 1;
    }
    with.push(new_with);
    Ok(())
}

/// A rejected reduced-form directive.
#[derive(Debug, PartialEq, Eq)]
pub enum ToCreationError {
    /// Neither a rename target nor a transform was given.
    MissingConfigField,
    /// The destination reference is missing.
    MissingDestination,
}

/// The reduced field-directive form holding only a destination, an optional
/// rename target and an optional transform.
#[derive(Debug, Clone, PartialEq, Eq)]
pub struct To {
    pub ty: String,
    pub field: Option<String>,
    pub with: Option<String>,
}

impl To {
    /// Builds a reduced directive, requiring a destination and at least one
    /// of rename or transform.
    pub fn new(ty: Option<String>, field: Option<String>, with: Option<String>) -> (r: Result<
        To,
        ToCreationError,
    >)
        ensures
            field is None && with is None ==> r == Err::<To, ToCreationError>(
                ToCreationError::MissingConfigField,
            ),
            (field is Some || with is Some) && ty is None ==> r == Err::<To, ToCreationError>(
                ToCreationError::MissingDestination,
            ),
            (field is Some || with is Some) && ty is Some ==> (r matches Ok(t) && Some(t.ty) == ty
                && t.field == field && t.with == with),
    {
        if field.is_none() && with.is_none() {
            Err(ToCreationError::MissingConfigField)
        } else {
            match ty {
                None => Err(ToCreationError::MissingDestination),
                Some(ty) => Ok(To { ty, field, with }),
            }
        }
    }
}

} // verus!
