//! Type-level directives and their aggregation into the automatic-mapping
//! registry.

use vstd::prelude::*;

use crate::attr::aggregated_to::AggregatedTo;
use crate::attr::aggregated_to::RegistryView;
use crate::attr::aggregated_to::contains_string;
use crate::attr::aggregated_to::first_occurrences;
use crate::attr::mapping_strategy::MappingStrategy;
use crate::attr::spanned_item::SpannedItem;

verus! {

/// One structured type-level directive: the destinations it declares
/// automatic and the strategy selectors it names.
#[derive(Debug, Clone, PartialEq, Eq)]
pub struct Params {
    pub destinations: Vec<String>,
    pub strategies: Vec<SpannedItem<String, MappingStrategy>>,
}

/// The strategies a type-level directive selects, in selector order.
pub open spec fn strategies_of(p: Params) -> Seq<MappingStrategy> {
    p.strategies.deep_view().map_values(|e: (Option<Seq<char>>, MappingStrategy)| e.1)
}

/// Whether some selector of `s` names `strategy`.
pub open spec fn selects(
    s: Seq<(Option<Seq<char>>, MappingStrategy)>,
    strategy: MappingStrategy,
) -> bool {
    exists|i: int| 0 <= i < s.len() && #[trigger] s[i].1 == strategy
}

/// `s` with every selector whose strategy an earlier selector already names
/// dropped; first occurrences keep their order.
pub open spec fn first_selector_occurrences(
    s: Seq<(Option<Seq<char>>, MappingStrategy)>,
) -> Seq<(Option<Seq<char>>, MappingStrategy)>
    decreases s.len(),
{
    if s.len() == 0 {
        Seq::empty()
    } else {
        let prefix = first_selector_occurrences(s.drop_last());
        if selects(prefix, s.last().1) {
            prefix
        } else {
            prefix.push(s.last())
        }
    }
}

/// Whether some selector of `v` names `strategy`.
fn contains_selector(
    v: &Vec<SpannedItem<String, MappingStrategy>>,
    strategy: MappingStrategy,
) -> (r: bool)
    ensures
        r == selects(v.deep_view(), strategy),
{
    let mut i: usize = 0;
    while i < v.len()
        invariant
            i <= v@.len(),
            forall|j: int| 0 <= j < i ==> #[trigger] v.deep_view()[j].1 != strategy,
        decreases v@.len() - i,
    {
        if v[i].1 == strategy {
            proof {
                assert(v.deep_view()[i as int].1 == strategy);
            }
            return true;
        }
        i = i + 1;
    }
    false
}

impl Params {
    /// Builds a type-level directive: repeated destinations and repeated
    /// strategy selections collapse to their first occurrence, and an empty
    /// strategy selection falls back to the default strategy, carried with
    /// no token.
    pub fn new(destinations: Vec<String>, strategies: Vec<SpannedItem<String, MappingStrategy>>) -> (r:
        Params)
        ensures
            r.destinations.deep_view() == first_occurrences(destinations.deep_view()),
            strategies@.len() == 0 ==> r.strategies@.len() == 1 && r.strategies@[0].0 is None
                && r.strategies@[0].1 == MappingStrategy::Mapper,
            strategies@.len() > 0 ==> r.strategies.deep_view() == first_selector_occurrences(
                strategies.deep_view(),
            ),
    {
        let mut unique: Vec<String> = Vec::new();
        let mut i: usize = 0;
        while i < destinations.len()
            invariant
                i <= destinations@.len(),
                unique.deep_view() == first_occurrences(destinations.deep_view().take(i as int)),
            decreases destinations@.len() - i,
        {
            proof {
                assert(destinations.deep_view().take(i + 1).drop_last() =~= destinations.deep_view(
                ).take(i as int));
            }
            if !contains_string(&unique, &destinations[i]) {
                unique.push(destinations[i].clone());
            }
            i = i + 1;
        }
        proof {
            assert(destinations.deep_view().take(destinations@.len() as int)
                =~= destinations.deep_view());
        }
        if strategies.len() == 0 {
            let mut defaulted: Vec<SpannedItem<String, MappingStrategy>> = Vec::new();
            defaulted.push(SpannedItem::new_empty(MappingStrategy::Mapper));
            return Params { destinations: unique, strategies: defaulted };
        }
        let mut selectors: Vec<SpannedItem<String, MappingStrategy>> = Vec::new();
        let mut k: usize = 0;
        while k < strategies.len()
            invariant
                k <= strategies@.len(),
                selectors.deep_view() == first_selector_occurrences(
                    strategies.deep_view().take(k as int),
                ),
            decreases strategies@.len() - k,
        {
            proof {
                assert(strategies.deep_view().take(k + 1).drop_last() =~= strategies.deep_view(
                ).take(k as int));
            }
            if !contains_selector(&selectors, strategies[k].1) {
                let token = match &strategies[k].0 {
                    Some(t) => Some(t.clone()),
                    None => None,
                };
                selectors.push(SpannedItem(token, strategies[k].1));
                proof {
                    assert(selectors@.last().deep_view() == strategies.deep_view()[k as int]);
                    assert(selectors.deep_view() =~= first_selector_occurrences(
                        strategies.deep_view().take(k as int),
                    ).push(strategies.deep_view()[k as int]));
                }
            }
            k = k + 1;
        }
        proof {
            assert(strategies.deep_view().take(strategies@.len() as int) =~= strategies.deep_view());
        }
        Params { destinations: unique, strategies: selectors }
    }
}

/// Registers `(destination, strategy)`, rejecting a pair already present.
pub open spec fn spec_register(
    reg: RegistryView,
    destination: Seq<char>,
    strategy: MappingStrategy,
) -> Result<RegistryView, (MappingStrategy, Seq<char>)> {
    if reg.contains_pair(destination, strategy) {
        Err((strategy, destination))
    } else {
        Ok(reg.register(destination, strategy))
    }
}

/// Registers every destination of `ds` for `strategy`, in order, stopping at
/// the first duplicate.
pub open spec fn spec_register_destinations(
    reg: RegistryView,
    ds: Seq<Seq<char>>,
    strategy: MappingStrategy,
) -> Result<RegistryView, (MappingStrategy, Seq<char>)>
    decreases ds.len(),
{
    if ds.len() == 0 {
        Ok(reg)
    } else {
        match spec_register_destinations(reg, ds.drop_last(), strategy) {
            Err(e) => Err(e),
            Ok(r) => spec_register(r, ds.last(), strategy),
        }
    }
}

/// Registers `ds` under every strategy of `ss`, in order.
pub open spec fn spec_register_strategies(
    reg: RegistryView,
    ds: Seq<Seq<char>>,
    ss: Seq<MappingStrategy>,
) -> Result<RegistryView, (MappingStrategy, Seq<char>)>
    decreases ss.len(),
{
    if ss.len() == 0 {
        Ok(reg)
    } else {
        match spec_register_strategies(reg, ds, ss.drop_last()) {
            Err(e) => Err(e),
            Ok(r) => spec_register_destinations(r, ds, ss.last()),
        }
    }
}

/// Folds every type-level directive of `dirs` into `reg`, in order.
pub open spec fn spec_aggregate_from(reg: RegistryView, dirs: Seq<Params>) -> Result<
    RegistryView,
    (MappingStrategy, Seq<char>),
>
    decreases dirs.len(),
{
    if dirs.len() == 0 {
        Ok(reg)
    } else {
        match spec_aggregate_from(reg, dirs.drop_last()) {
            Err(e) => Err(e),
            Ok(r) => spec_register_strategies(
                r,
                dirs.last().destinations.deep_view(),
                strategies_of(dirs.last()),
            ),
        }
    }
}

/// The registry the type-level directives `dirs` describe, or the first
/// duplicate registration.
pub open spec fn spec_aggregate(dirs: Seq<Params>) -> Result<
    RegistryView,
    (MappingStrategy, Seq<char>),
> {
    spec_aggregate_from(RegistryView::empty(), dirs)
}

proof fn lemma_register_destinations_err(
    reg: RegistryView,
    ds: Seq<Seq<char>>,
    strategy: MappingStrategy,
    i: int,
)
    requires
        0 <= i <= ds.len(),
        spec_register_destinations(reg, ds.take(i), strategy) is Err,
    ensures
        spec_register_destinations(reg, ds, strategy) == spec_register_destinations(
            reg,
            ds.take(i),
            strategy,
        ),
    decreases ds.len(),
{
    if i == ds.len() {
        assert(ds.take(i) =~= ds);
    } else {
        assert(ds.drop_last().take(i) =~= ds.take(i));
        lemma_register_destinations_err(reg, ds.drop_last(), strategy, i);
    }
}

proof fn lemma_register_strategies_err(
    reg: RegistryView,
    ds: Seq<Seq<char>>,
    ss: Seq<MappingStrategy>,
    i: int,
)
    requires
        0 <= i <= ss.len(),
        spec_register_strategies(reg, ds, ss.take(i)) is Err,
    ensures
        spec_register_strategies(reg, ds, ss) == spec_register_strategies(reg, ds, ss.take(i)),
    decreases ss.len(),
{
    if i == ss.len() {
        assert(ss.take(i) =~= ss);
    } else {
        assert(ss.drop_last().take(i) =~= ss.take(i));
        lemma_register_strategies_err(reg, ds, ss.drop_last(), i);
    }
}

proof fn lemma_aggregate_from_err(reg: RegistryView, dirs: Seq<Params>, i: int)
    requires
        0 <= i <= dirs.len(),
        spec_aggregate_from(reg, dirs.take(i)) is Err,
    ensures
        spec_aggregate_from(reg, dirs) == spec_aggregate_from(reg, dirs.take(i)),
    decreases dirs.len(),
{
    if i == dirs.len() {
        assert(dirs.take(i) =~= dirs);
    } else {
        assert(dirs.drop_last().take(i) =~= dirs.take(i));
        lemma_aggregate_from_err(reg, dirs.drop_last(), i);
    }
}

/// A rejected set of type-level directives.
#[derive(Debug, PartialEq, Eq)]
pub enum AggregationError {
    /// The same destination was registered twice for one strategy; carries
    /// that strategy and destination.
    DuplicateDestinationForStrategy(MappingStrategy, String),
}

impl DeepView for AggregationError {
    type V = (MappingStrategy, Seq<char>);

    open spec fn deep_view(&self) -> (MappingStrategy, Seq<char>) {
        match self {
            AggregationError::DuplicateDestinationForStrategy(s, d) => (*s, d@),
        }
    }
}

/// Aggregates the type-level directives into the automatic-mapping
/// registry, rejecting a destination registered twice for one strategy.
pub fn get(directives: &Vec<Params>) -> (r: Result<AggregatedTo, AggregationError>)
    ensures
        match r {
            Ok(reg) => spec_aggregate(directives@) == Ok::<_, (MappingStrategy, Seq<char>)>(
                reg.deep_view(),
            ),
            Err(e) => spec_aggregate(directives@) == Err::<RegistryView, _>(e.deep_view()),
        },
{
    let mut reg = AggregatedTo::new();
    let mut i: usize = 0;
    while i < directives.len()
        invariant
            i <= directives@.len(),
            spec_aggregate_from(RegistryView::empty(), directives@.take(i as int)) == Ok::<
                _,
                (MappingStrategy, Seq<char>),
            >(reg.deep_view()),
        decreases directives@.len() - i,
    {
        proof {
            assert(directives@.take(i + 1).drop_last() =~= directives@.take(i as int));
        }
        let directive = &directives[i];
        let ghost reg_dir: RegistryView = reg.deep_view();
        let mut j: usize = 0;
        while j < directive.strategies.len()
            invariant
                j <= directive.strategies@.len(),
                spec_register_strategies(
                    reg_dir,
                    directive.destinations.deep_view(),
                    strategies_of(*directive).take(j as int),
                ) == Ok::<_, (MappingStrategy, Seq<char>)>(reg.deep_view()),
                directive == &directives@[i as int],
                i < directives@.len(),
                spec_aggregate_from(RegistryView::empty(), directives@.take(i as int)) == Ok::<
                    _,
                    (MappingStrategy, Seq<char>),
                >(reg_dir),
            decreases directive.strategies@.len() - j,
        {
            proof {
                assert(strategies_of(*directive).take(j + 1).drop_last() =~= strategies_of(
                    *directive,
                ).take(j as int));
            }
            let strategy = directive.strategies[j].1;
            let ghost reg_strat: RegistryView = reg.deep_view();
            let mut k: usize = 0;
            while k < directive.destinations.len()
                invariant
                    k <= directive.destinations@.len(),
                    spec_register_destinations(
                        reg_strat,
                        directive.destinations.deep_view().take(k as int),
                        strategy,
                    ) == Ok::<_, (MappingStrategy, Seq<char>)>(reg.deep_view()),
                    directive == &directives@[i as int],
                    i < directives@.len(),
                    j < directive.strategies@.len(),
                    strategy == strategies_of(*directive)[j as int],
                    spec_register_strategies(
                        reg_dir,
                        directive.destinations.deep_view(),
                        strategies_of(*directive).take(j as int),
                    ) == Ok::<_, (MappingStrategy, Seq<char>)>(reg_strat),
                    spec_aggregate_from(RegistryView::empty(), directives@.take(i as int)) == Ok::<
                        _,
                        (MappingStrategy, Seq<char>),
                    >(reg_dir),
                decreases directive.destinations@.len() - k,
            {
                proof {
                    assert(directive.destinations.deep_view().take(k + 1).drop_last()
                        =~= directive.destinations.deep_view().take(k as int));
                }
                let destination = &directive.destinations[k];
                if reg.has_destination_for_strategy(destination, &strategy) {
                    proof {
                        let ds = directive.destinations.deep_view();
                        let ss = strategies_of(*directive);
                        assert(spec_register_destinations(reg_strat, ds.take(k + 1), strategy)
                            == Err::<RegistryView, _>((strategy, destination@)));
                        lemma_register_destinations_err(reg_strat, ds, strategy, k + 1);
                        assert(spec_register_strategies(reg_dir, ds, ss.take(j + 1)) == Err::<
                            RegistryView,
                            _,
                        >((strategy, destination@)));
                        lemma_register_strategies_err(reg_dir, ds, ss, j + 1);
                        assert(spec_aggregate_from(
                            RegistryView::empty(),
                            directives@.take(i + 1),
                        ) == Err::<RegistryView, _>((strategy, destination@)));
                        lemma_aggregate_from_err(RegistryView::empty(), directives@, i + 1);
                    }
                    return Err(
                        AggregationError::DuplicateDestinationForStrategy(
                            strategy,
                            destination.clone(),
                        ),
                    );
                }
                let ghost before: RegistryView = reg.deep_view();
                match strategy {
                    MappingStrategy::Into => reg.into_destinations.push(destination.clone()),
                    MappingStrategy::Mapper => reg.mapper_destinations.push(destination.clone()),
                }
                proof {
                    assert(reg.deep_view() =~= before.register(destination@, strategy));
                }
                k = k + 1;
            }
            proof {
                assert(directive.destinations.deep_view().take(
                    directive.destinations@.len() as int,
                ) =~= directive.destinations.deep_view());
            }
            j = j + 1;
        }
        proof {
            assert(strategies_of(*directive).take(directive.strategies@.len() as int)
                =~= strategies_of(*directive));
        }
        i = i + 1;
    }
    proof {
        assert(directives@.take(directives@.len() as int) =~= directives@);
    }
    Ok(reg)
}

} // verus!
