//! The closed set of conversion strategies and the parsing of strategy
//! selector tokens.

use vstd::prelude::*;

use crate::attr::spanned_item::SpannedItem;

verus! {

/// How a generated conversion obtains the destination value from the source:
/// `Into` consumes the source (move), `Mapper` keeps it intact (clone or
/// borrow).
#[derive(Debug, Clone, Copy, PartialEq, Eq, Structural)]
pub enum MappingStrategy {
    Into,
    Mapper,
}

impl DeepView for MappingStrategy {
    type V = MappingStrategy;

    open spec fn deep_view(&self) -> MappingStrategy {
        *self
    }
}

/// Strategies a directive may select when no explicit selector is written.
impl Default for MappingStrategy {
    /// The non-consuming strategy is the default.
    fn default() -> (r: Self)
        ensures
            r == MappingStrategy::Mapper,
    {
        MappingStrategy::Mapper
    }
}

/// An unrecognized strategy selector token; carries the offending token.
#[derive(Debug)]
pub struct MappingStrategyParseError(pub String);

/// A strategy selector list that breaks a structural rule.
#[derive(Debug)]
pub enum StrategyError {
    /// More than [`MAX_STRATEGIES_BY_ATTRIBUTE`] strategies were requested on
    /// one directive occurrence.
    TooManyStrategies,
    /// The selector token is not a known strategy.
    InvalidStrategyIdentifier(MappingStrategyParseError),
}

/// At most two distinct strategies may be selected by one directive
/// occurrence.
pub const MAX_STRATEGIES_BY_ATTRIBUTE: usize = 2;

impl MappingStrategy {
    /// Parses one strategy selector token: `into` or `mapper`.
    pub fn try_from(value: &str) -> (r: Result<MappingStrategy, MappingStrategyParseError>)
        ensures
            value@ == "into"@ ==> r == Ok::<_, MappingStrategyParseError>(MappingStrategy::Into),
            value@ == "mapper"@ ==> r == Ok::<_, MappingStrategyParseError>(
                MappingStrategy::Mapper,
            ),
            value@ != "into"@ && value@ != "mapper"@ ==> (r matches Err(e) && e.0@ == value@),
    {
        proof {
            reveal_strlit("into");
            reveal_strlit("mapper");
            assert("into"@.len() == 4);
            assert("mapper"@.len() == 6);
        }
        let owned = value.to_owned();
        if owned == "into".to_owned() {
            Ok(MappingStrategy::Into)
        } else if owned == "mapper".to_owned() {
            Ok(MappingStrategy::Mapper)
        } else {
            Err(MappingStrategyParseError(owned))
        }
    }
    /// Expands one strategy selector token into the set of strategies it
    /// names: `all` names both, `into` and `mapper` name themselves.
    pub fn str_to_hash_set(val: &str) -> (r: Result<
        Vec<MappingStrategy>,
        MappingStrategyParseError,
    >)
        ensures
            val@ == "all"@ ==> (r matches Ok(v) && v@ == seq![
                MappingStrategy::Into,
                MappingStrategy::Mapper,
            ]),
            val@ == "into"@ ==> (r matches Ok(v) && v@ == seq![MappingStrategy::Into]),
            val@ == "mapper"@ ==> (r matches Ok(v) && v@ == seq![MappingStrategy::Mapper]),
            val@ != "all"@ && val@ != "into"@ && val@ != "mapper"@ ==> (r matches Err(e) && e.0@
                == val@),
    {
        proof {
            reveal_strlit("all");
            reveal_strlit("into");
            reveal_strlit("mapper");
            assert("all"@.len() == 3);
            assert("into"@.len() == 4);
            assert("mapper"@.len() == 6);
        }
        let owned = val.to_owned();
        let mut set: Vec<MappingStrategy> = Vec::new();
        if owned == "all".to_owned() {
            set.push(MappingStrategy::Into);
            set.push(MappingStrategy::Mapper);
            assert(set@ =~= seq![MappingStrategy::Into, MappingStrategy::Mapper]);
            Ok(set)
        } else {
            let strategy = MappingStrategy::try_from(val)?;
            set.push(strategy);
            assert(set@ =~= seq![strategy]);
            Ok(set)
        }
    }
}

/// Expands one strategy selector token into spanned strategy entries, after
/// checking that the directive still has room for more strategies.
///
/// `strategies` is the set gathered so far for the same directive occurrence;
/// the cap of [`MAX_STRATEGIES_BY_ATTRIBUTE`] is checked against it. Each
/// returned entry pairs the token with one strategy it names.
pub fn parse_strategy(token: &String, strategies: &Vec<SpannedItem<String, MappingStrategy>>) -> (r:
    Result<Vec<SpannedItem<String, MappingStrategy>>, StrategyError>)
    ensures
        strategies@.len() >= MAX_STRATEGIES_BY_ATTRIBUTE ==> (r matches Err(e) && e
            is TooManyStrategies),
        strategies@.len() < MAX_STRATEGIES_BY_ATTRIBUTE ==> {
            &&& token@ == "all"@ ==> (r matches Ok(v) && v@.len() == 2 && v@[0].deep_view() == (
            Some(token@),
            MappingStrategy::Into,
            ) && v@[1].deep_view() == (Some(token@), MappingStrategy::Mapper))
            &&& token@ == "into"@ ==> (r matches Ok(v) && v@.len() == 1 && v@[0].deep_view() == (
            Some(token@),
            MappingStrategy::Into,
            ))
            &&& token@ == "mapper"@ ==> (r matches Ok(v) && v@.len() == 1 && v@[0].deep_view() == (
            Some(token@),
            MappingStrategy::Mapper,
            ))
            &&& token@ != "all"@ && token@ != "into"@ && token@ != "mapper"@ ==> (r matches Err(e)
                && e matches StrategyError::InvalidStrategyIdentifier(p) && p.0@ == token@)
        },
{
    if strategies.len() >= MAX_STRATEGIES_BY_ATTRIBUTE {
        return Err(StrategyError::TooManyStrategies);
    }
    let named = match MappingStrategy::str_to_hash_set(token.as_str()) {
        Ok(named) => named,
        Err(e) => {
            return Err(StrategyError::InvalidStrategyIdentifier(e));
        },
    };
    let mut spanned: Vec<SpannedItem<String, MappingStrategy>> = Vec::new();
    let mut i: usize = 0;
    while i < named.len()
        invariant
            i <= named@.len(),
            spanned@.len() == i,
            forall|j: int|
                0 <= j < i ==> #[trigger] spanned@[j].deep_view() == (Some(token@), named@[j]),
        decreases named@.len() - i,
    {
        spanned.push(SpannedItem::new(token.clone(), named[i]));
        i = i + 1;
    }
    Ok(spanned)
}

} // verus!
