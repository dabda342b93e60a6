//! The automatic-mapping registry: which destinations are declared automatic
//! for each strategy by the type-level directives.

use vstd::prelude::*;

use crate::attr::mapping_strategy::MappingStrategy;

verus! {

/// The mathematical content of a registry: the automatic destinations of
/// each strategy, in registration order.
#[verifier::ext_equal]
pub struct RegistryView {
    pub into_destinations: Seq<Seq<char>>,
    pub mapper_destinations: Seq<Seq<char>>,
}

impl RegistryView {
    /// The destinations registered for `strategy`.
    pub open spec fn destinations_for(self, strategy: MappingStrategy) -> Seq<Seq<char>> {
        match strategy {
            MappingStrategy::Into => self.into_destinations,
            MappingStrategy::Mapper => self.mapper_destinations,
        }
    }

    /// Whether `(destination, strategy)` is registered.
    pub open spec fn contains_pair(self, destination: Seq<char>, strategy: MappingStrategy) -> bool {
        self.destinations_for(strategy).contains(destination)
    }

    /// Whether `destination` is registered under any strategy.
    pub open spec fn contains_destination(self, destination: Seq<char>) -> bool {
        self.into_destinations.contains(destination) || self.mapper_destinations.contains(
            destination,
        )
    }

    /// The registry with `(destination, strategy)` added.
    pub open spec fn register(self, destination: Seq<char>, strategy: MappingStrategy) -> Self {
        match strategy {
            MappingStrategy::Into => RegistryView {
                into_destinations: self.into_destinations.push(destination),
                ..self
            },
            MappingStrategy::Mapper => RegistryView {
                mapper_destinations: self.mapper_destinations.push(destination),
                ..self
            },
        }
    }

    /// The empty registry.
    pub open spec fn empty() -> Self {
        RegistryView { into_destinations: Seq::empty(), mapper_destinations: Seq::empty() }
    }
}

/// The destinations declared automatic for each strategy. Destinations are
/// kept in registration order and are unique per strategy; the aggregator
/// rejects a duplicate registration.
#[derive(Debug, Clone, PartialEq, Eq)]
pub struct AggregatedTo {
    pub into_destinations: Vec<String>,
    pub mapper_destinations: Vec<String>,
}

impl DeepView for AggregatedTo {
    type V = RegistryView;

    open spec fn deep_view(&self) -> RegistryView {
        RegistryView {
            into_destinations: self.into_destinations.deep_view(),
            mapper_destinations: self.mapper_destinations.deep_view(),
        }
    }
}

/// `s` with every repetition of an earlier element dropped; first
/// occurrences keep their order.
pub open spec fn first_occurrences(s: Seq<Seq<char>>) -> Seq<Seq<char>>
    decreases s.len(),
{
    if s.len() == 0 {
        Seq::empty()
    } else {
        let prefix = first_occurrences(s.drop_last());
        if prefix.contains(s.last()) {
            prefix
        } else {
            prefix.push(s.last())
        }
    }
}

/// `first_occurrences` keeps exactly the elements of its input, each once.
pub proof fn lemma_first_occurrences(s: Seq<Seq<char>>)
    ensures
        forall|x: Seq<char>|
            #[trigger] first_occurrences(s).contains(x) <==> s.contains(x),
        forall|i: int, j: int|
            0 <= i < j < first_occurrences(s).len() ==> first_occurrences(s)[i]
                != first_occurrences(s)[j],
    decreases s.len(),
{
    if s.len() > 0 {
        lemma_first_occurrences(s.drop_last());
        let prefix = first_occurrences(s.drop_last());
        let post = first_occurrences(s);
        assert forall|x: Seq<char>| #[trigger] s.drop_last().contains(x) implies s.contains(
            x,
        ) by {
            let w = choose|w: int|
                0 <= w < s.drop_last().len() && #[trigger] s.drop_last()[w] == x;
            assert(s[w] == x);
        }
        if prefix.contains(s.last()) {
            assert(post == prefix);
            assert forall|x: Seq<char>| s.contains(x) implies #[trigger] post.contains(x) by {
                let w = choose|w: int| 0 <= w < s.len() && #[trigger] s[w] == x;
                if w < s.len() - 1 {
                    assert(s.drop_last()[w] == x);
                    assert(s.drop_last().contains(x));
                } else {
                    assert(x == s.last());
                }
            }
            assert forall|x: Seq<char>| #[trigger] post.contains(x) implies s.contains(x) by {
                assert(s.drop_last().contains(x));
            }
        } else {
            assert(post == prefix.push(s.last()));
            assert forall|x: Seq<char>| #[trigger] post.contains(x) implies s.contains(x) by {
                let w = choose|w: int| 0 <= w < post.len() && #[trigger] post[w] == x;
                if w < prefix.len() {
                    assert(prefix[w] == x);
                    assert(prefix.contains(x));
                    assert(s.drop_last().contains(x));
                } else {
                    assert(s[s.len() - 1] == x);
                }
            }
            assert forall|x: Seq<char>| s.contains(x) implies #[trigger] post.contains(x) by {
                let w = choose|w: int| 0 <= w < s.len() && #[trigger] s[w] == x;
                if w < s.len() - 1 {
                    assert(s.drop_last()[w] == x);
                    assert(s.drop_last().contains(x));
                    assert(prefix.contains(x));
                    let v = choose|v: int| 0 <= v < prefix.len() && #[trigger] prefix[v] == x;
                    assert(post[v] == x);
                } else {
                    assert(post[prefix.len() as int] == x);
                }
            }
            assert forall|i: int, j: int| 0 <= i < j < post.len() implies post[i] != post[j] by {
                if j == post.len() - 1 {
                    if post[i] == s.last() {
                        assert(prefix[i] == s.last());
                        assert(prefix.contains(s.last()));
                    }
                } else {
                    assert(prefix[i] != prefix[j]);
                }
            }
        }
    }
}

/// Whether `haystack` holds a string whose characters equal `needle`'s.
pub fn contains_string(haystack: &Vec<String>, needle: &String) -> (r: bool)
    ensures
        r == haystack.deep_view().contains(needle@),
{
    let mut i: usize = 0;
    while i < haystack.len()
        invariant
            i <= haystack@.len(),
            forall|j: int| 0 <= j < i ==> haystack.deep_view()[j] != needle@,
        decreases haystack@.len() - i,
    {
        if haystack[i] == *needle {
            proof {
                assert(haystack.deep_view()[i as int] == needle@);
            }
            return true;
        }
        i = i + 1;
    }
    false
}

impl AggregatedTo {
    /// A registry with no destinations.
    pub fn new() -> (r: Self)
        ensures
            r.deep_view() == RegistryView::empty(),
    {
        let r = AggregatedTo { into_destinations: Vec::new(), mapper_destinations: Vec::new() };
        proof {
            assert(r.deep_view().into_destinations =~= Seq::<Seq<char>>::empty());
            assert(r.deep_view().mapper_destinations =~= Seq::<Seq<char>>::empty());
        }
        r
    }

    /// Whether `destination` is automatic for `strategy`.
    pub fn has_destination_for_strategy(
        &self,
        destination: &String,
        strategy: &MappingStrategy,
    ) -> (r: bool)
        ensures
            r == self.deep_view().contains_pair(destination@, *strategy),
    {
        match strategy {
            MappingStrategy::Into => contains_string(&self.into_destinations, destination),
            MappingStrategy::Mapper => contains_string(&self.mapper_destinations, destination),
        }
    }

    /// Whether `destination` is automatic under any strategy.
    pub fn has_destination(&self, destination: &String) -> (r: bool)
        ensures
            r == self.deep_view().contains_destination(destination@),
    {
        contains_string(&self.into_destinations, destination) || contains_string(
            &self.mapper_destinations,
            destination,
        )
    }

    /// The flattened union of the destinations of every strategy: each
    /// destination once, first occurrences in registration order (consuming
    /// strategy first). [`lemma_first_occurrences`] gives membership and
    /// freedom from duplicates.
    pub fn destinations(&self) -> (r: Vec<String>)
        ensures
            r.deep_view() == first_occurrences(
                self.into_destinations.deep_view() + self.mapper_destinations.deep_view(),
            ),
    {
        let ghost both = self.into_destinations.deep_view() + self.mapper_destinations.deep_view();
        let mut all: Vec<String> = Vec::new();
        let mut i: usize = 0;
        while i < self.into_destinations.len()
            invariant
                i <= self.into_destinations@.len(),
                all.deep_view() == first_occurrences(
                    self.into_destinations.deep_view().take(i as int),
                ),
            decreases self.into_destinations@.len() - i,
        {
            proof {
                assert(self.into_destinations.deep_view().take(i + 1).drop_last()
                    =~= self.into_destinations.deep_view().take(i as int));
            }
            if !contains_string(&all, &self.into_destinations[i]) {
                all.push(self.into_destinations[i].clone());
            }
            i = i + 1;
        }
        proof {
            assert(self.into_destinations.deep_view().take(
                self.into_destinations@.len() as int,
            ) =~= self.into_destinations.deep_view());
            assert(both.take(self.into_destinations@.len() as int)
                =~= self.into_destinations.deep_view());
        }
        let mut j: usize = 0;
        while j < self.mapper_destinations.len()
            invariant
                j <= self.mapper_destinations@.len(),
                all.deep_view() == first_occurrences(
                    both.take(self.into_destinations@.len() + j),
                ),
            decreases self.mapper_destinations@.len() - j,
        {
            proof {
                let n = self.into_destinations@.len() as int;
                assert(both.take(n + j + 1).drop_last() =~= both.take(n + j));
                assert(both.take(n + j + 1).last() == self.mapper_destinations.deep_view()[
                    j as int
                ]);
            }
            if !contains_string(&all, &self.mapper_destinations[j]) {
                all.push(self.mapper_destinations[j].clone());
            }
            j = j + 1;
        }
        proof {
            assert(both.take(both.len() as int) =~= both);
        }
        all
    }
}

} // verus!
