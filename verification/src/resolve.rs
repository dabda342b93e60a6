//! The mapping resolver: seeds one tree per automatic (destination,
//! strategy) pair, then folds every field's directives into the tree set.
//!
//! The whole pass is specified by [`spec_resolve`], a function of the
//! descriptor alone; [`Struct::mapping_trees`] returns exactly its value.
//! Folding order: trees are seeded for the consuming strategy first, then
//! the non-consuming one, each in registration order; fields are folded in
//! declaration order; within a field, default entries for automatic trees
//! come first, then each directive in order, then destination-wide renames
//! (a rename written without a strategy selector), applied to every tree of
//! the stated destination whatever created it.

use vstd::prelude::*;

use crate::ast::data_type::Struct;
use crate::ast::field::Field;
use crate::ast::field::MemberView;
use crate::ast::field::spec_field_excluded;
use crate::ast::mapping_field::MappingField;
use crate::ast::mapping_field::MappingFieldView;
use crate::ast::mapping_field::clone_opt_string;
use crate::ast::mapping_tree::MappingTree;
use crate::ast::mapping_tree::MappingTreeView;
use crate::ast::mapping_tree::MappingType;
use crate::ast::mapping_tree::remove_member;
use crate::ast::mapping_tree::rename_fields;
use crate::ast::mapping_tree::upsert_field;
use crate::attr::aggregated_to::RegistryView;
use crate::attr::field::Params;
use crate::attr::field::effective_strategies_of;
use crate::attr::field::strategies_of;
use crate::attr::field::with_for;
use crate::attr::mapping_strategy::MappingStrategy;
use crate::valid::StructError;
use crate::valid::spec_validate;

verus! {

/// The index of the first tree keyed `(dest, strategy)`, if one exists.
pub open spec fn find_tree_index(
    trees: Seq<MappingTreeView>,
    dest: Seq<char>,
    strategy: MappingStrategy,
) -> Option<int>
    decreases trees.len(),
{
    if trees.len() == 0 {
        None
    } else {
        match find_tree_index(trees.drop_last(), dest, strategy) {
            Some(i) => Some(i),
            None => {
                if trees.last().destination == dest && trees.last().strategy == strategy {
                    Some(trees.len() - 1)
                } else {
                    None
                }
            },
        }
    }
}

/// What `find_tree_index` finds: the first index keyed `(dest, strategy)`,
/// or nothing.
pub proof fn lemma_find_tree_index(
    trees: Seq<MappingTreeView>,
    dest: Seq<char>,
    strategy: MappingStrategy,
)
    ensures
        match find_tree_index(trees, dest, strategy) {
            Some(i) => 0 <= i < trees.len() && trees[i].destination == dest && trees[i].strategy
                == strategy && forall|j: int|
                0 <= j < i ==> !(trees[j].destination == dest && trees[j].strategy == strategy),
            None => forall|j: int|
                0 <= j < trees.len() ==> !(trees[j].destination == dest && trees[j].strategy
                    == strategy),
        },
    decreases trees.len(),
{
    if trees.len() > 0 {
        lemma_find_tree_index(trees.drop_last(), dest, strategy);
        assert forall|j: int| 0 <= j < trees.len() - 1 implies trees[j]
            == trees.drop_last()[j] by {
            assert(trees.drop_last()[j] == trees[j]);
        }
    }
}

/// A hit stays the same hit when the sequence grows on the right.
pub proof fn lemma_find_tree_index_extend(
    trees: Seq<MappingTreeView>,
    dest: Seq<char>,
    strategy: MappingStrategy,
    i: int,
)
    requires
        0 <= i <= trees.len(),
        find_tree_index(trees.take(i), dest, strategy) is Some,
    ensures
        find_tree_index(trees, dest, strategy) == find_tree_index(trees.take(i), dest, strategy),
    decreases trees.len(),
{
    if i == trees.len() {
        assert(trees.take(i) =~= trees);
    } else {
        assert(trees.drop_last().take(i) =~= trees.take(i));
        lemma_find_tree_index_extend(trees.drop_last(), dest, strategy, i);
    }
}

/// The default entry an automatic tree of strategy `strategy` gets for field
/// `f`: no rename, no transform.
pub open spec fn default_entry(f: Field, strategy: MappingStrategy) -> MappingFieldView {
    MappingFieldView {
        ty: f.ty@,
        strategy,
        member: f.member.deep_view(),
        field: None,
        with: None,
    }
}

/// The entry directive `d` of field `f` contributes for `strategy`: the
/// directive's rename target and its transform registered for that strategy.
pub open spec fn directive_entry(f: Field, d: Params, strategy: MappingStrategy) -> MappingFieldView {
    MappingFieldView {
        ty: f.ty@,
        strategy,
        member: f.member.deep_view(),
        field: d.field.deep_view(),
        with: with_for(d.with.deep_view(), strategy),
    }
}

/// An empty automatic tree for `(dest, strategy)` of the type `ident`.
pub open spec fn automatic_tree(
    ident: Seq<char>,
    dest: Seq<char>,
    strategy: MappingStrategy,
) -> MappingTreeView {
    MappingTreeView {
        ident,
        destination: dest,
        strategy,
        mapping_fields: Seq::empty(),
        mapping_type: Some(MappingType::Automatic),
    }
}

/// Seeds a tree for each destination of `dests` under `strategy`, skipping
/// pairs already present.
pub open spec fn seed_destinations(
    trees: Seq<MappingTreeView>,
    ident: Seq<char>,
    dests: Seq<Seq<char>>,
    strategy: MappingStrategy,
) -> Seq<MappingTreeView>
    decreases dests.len(),
{
    if dests.len() == 0 {
        trees
    } else {
        let prefix = seed_destinations(trees, ident, dests.drop_last(), strategy);
        if find_tree_index(prefix, dests.last(), strategy) is Some {
            prefix
        } else {
            prefix.push(automatic_tree(ident, dests.last(), strategy))
        }
    }
}

/// The automatic trees the registry calls for: one per registered
/// (destination, strategy) pair.
pub open spec fn seed(ident: Seq<char>, reg: RegistryView) -> Seq<MappingTreeView> {
    seed_destinations(
        seed_destinations(Seq::empty(), ident, reg.into_destinations, MappingStrategy::Into),
        ident,
        reg.mapper_destinations,
        MappingStrategy::Mapper,
    )
}

/// One automatic tree after field `f`'s default pass: trees tagged automatic
/// whose destination `f` does not exclude get `f`'s default entry.
pub open spec fn default_step(t: MappingTreeView, f: Field) -> MappingTreeView {
    if t.mapping_type == Some(MappingType::Automatic) && !spec_field_excluded(f, t.destination) {
        MappingTreeView {
            mapping_fields: upsert_field(t.mapping_fields, default_entry(f, t.strategy)),
            ..t
        }
    } else {
        t
    }
}

/// The default pass of field `f`, as a function on one tree.
pub open spec fn default_step_fn(f: Field) -> spec_fn(MappingTreeView) -> MappingTreeView {
    |t: MappingTreeView| default_step(t, f)
}

/// The default pass of field `f` over every tree.
pub open spec fn apply_defaults(trees: Seq<MappingTreeView>, f: Field) -> Seq<MappingTreeView> {
    trees.map_values(default_step_fn(f))
}

/// One tree after member `m` is unconditionally excluded.
pub open spec fn remove_step(t: MappingTreeView, m: MemberView) -> MappingTreeView {
    MappingTreeView { mapping_fields: remove_member(t.mapping_fields, m), ..t }
}

/// Unconditional exclusion of member `m`, as a function on one tree.
pub open spec fn remove_step_fn(m: MemberView) -> spec_fn(MappingTreeView) -> MappingTreeView {
    |t: MappingTreeView| remove_step(t, m)
}

/// One tree after member `m` is excluded for destination `dest`.
pub open spec fn remove_scoped_step(
    t: MappingTreeView,
    m: MemberView,
    dest: Seq<char>,
) -> MappingTreeView {
    if t.destination == dest {
        remove_step(t, m)
    } else {
        t
    }
}

/// Destination-scoped exclusion of member `m`, as a function on one tree.
pub open spec fn remove_scoped_step_fn(m: MemberView, dest: Seq<char>) -> spec_fn(
    MappingTreeView,
) -> MappingTreeView {
    |t: MappingTreeView| remove_scoped_step(t, m, dest)
}

/// Gets or creates the additive tree for `(dest, strategy)` and upserts
/// `entry` into it. A tree already keyed so is reused whatever its tag; a
/// created tree is appended, tagged additive.
pub open spec fn upsert_into_tree(
    trees: Seq<MappingTreeView>,
    ident: Seq<char>,
    dest: Seq<char>,
    strategy: MappingStrategy,
    entry: MappingFieldView,
) -> Seq<MappingTreeView> {
    match find_tree_index(trees, dest, strategy) {
        Some(i) => trees.update(
            i,
            MappingTreeView {
                mapping_fields: upsert_field(trees[i].mapping_fields, entry),
                ..trees[i]
            },
        ),
        None => trees.push(
            MappingTreeView {
                ident,
                destination: dest,
                strategy,
                mapping_fields: seq![entry],
                mapping_type: Some(MappingType::Additive),
            },
        ),
    }
}

/// Upserts `entry` into the tree for `(dest, strategy)` if one exists;
/// leaves the set unchanged otherwise (the validator reports the orphan).
pub open spec fn upsert_into_existing_tree(
    trees: Seq<MappingTreeView>,
    dest: Seq<char>,
    strategy: MappingStrategy,
    entry: MappingFieldView,
) -> Seq<MappingTreeView> {
    match find_tree_index(trees, dest, strategy) {
        Some(i) => trees.update(
            i,
            MappingTreeView {
                mapping_fields: upsert_field(trees[i].mapping_fields, entry),
                ..trees[i]
            },
        ),
        None => trees,
    }
}

/// Folds the strategies a non-exclusion directive selects: each gets or
/// creates its (destination, strategy) tree and upserts the directive's
/// entry.
pub open spec fn apply_strategies(
    trees: Seq<MappingTreeView>,
    ident: Seq<char>,
    f: Field,
    d: Params,
    dest: Seq<char>,
    ss: Seq<MappingStrategy>,
) -> Seq<MappingTreeView>
    decreases ss.len(),
{
    if ss.len() == 0 {
        trees
    } else {
        upsert_into_tree(
            apply_strategies(trees, ident, f, d, dest, ss.drop_last()),
            ident,
            dest,
            ss.last(),
            directive_entry(f, d, ss.last()),
        )
    }
}

/// Folds the directive's transform registrations: each upserts the
/// directive's entry into the tree of its strategy, where that tree exists.
pub open spec fn apply_withs(
    trees: Seq<MappingTreeView>,
    f: Field,
    d: Params,
    dest: Seq<char>,
    ws: Seq<(Option<Seq<char>>, MappingStrategy)>,
) -> Seq<MappingTreeView>
    decreases ws.len(),
{
    if ws.len() == 0 {
        trees
    } else {
        upsert_into_existing_tree(
            apply_withs(trees, f, d, dest, ws.drop_last()),
            dest,
            ws.last().1,
            directive_entry(f, d, ws.last().1),
        )
    }
}

/// Folds one directive of field `f` into the tree set.
pub open spec fn apply_directive(
    trees: Seq<MappingTreeView>,
    ident: Seq<char>,
    f: Field,
    d: Params,
) -> Seq<MappingTreeView> {
    if d.exclude.1 {
        match d.destination {
            None => trees.map_values(remove_step_fn(f.member.deep_view())),
            Some(dest) => trees.map_values(remove_scoped_step_fn(f.member.deep_view(), dest@)),
        }
    } else {
        match d.destination {
            None => trees,
            Some(dest) => apply_withs(
                apply_strategies(trees, ident, f, d, dest@, effective_strategies_of(d)),
                f,
                d,
                dest@,
                d.with.deep_view(),
            ),
        }
    }
}

/// Folds the directives of field `f`, in declaration order.
pub open spec fn apply_directives(
    trees: Seq<MappingTreeView>,
    ident: Seq<char>,
    f: Field,
    ds: Seq<Params>,
) -> Seq<MappingTreeView>
    decreases ds.len(),
{
    if ds.len() == 0 {
        trees
    } else {
        apply_directive(apply_directives(trees, ident, f, ds.drop_last()), ident, f, ds.last())
    }
}

/// Whether directive `d` carries a destination-wide rename: a rename target
/// with no strategy selector on a non-exclusion directive.
pub open spec fn rename_applies(d: Params) -> bool {
    !d.exclude.1 && d.destination is Some && d.field is Some && d.strategies@.len() == 0
}

/// One tree after a destination-wide rename of member `m` to `rename` for
/// destination `dest`.
pub open spec fn rename_step(
    t: MappingTreeView,
    dest: Seq<char>,
    m: MemberView,
    rename: Seq<char>,
) -> MappingTreeView {
    if t.destination == dest {
        MappingTreeView { mapping_fields: rename_fields(t.mapping_fields, m, rename), ..t }
    } else {
        t
    }
}

/// A destination-wide rename, as a function on one tree.
pub open spec fn rename_step_fn(dest: Seq<char>, m: MemberView, rename: Seq<char>) -> spec_fn(
    MappingTreeView,
) -> MappingTreeView {
    |t: MappingTreeView| rename_step(t, dest, m, rename)
}

/// One in-place step of mapping `step` over a tree sequence: after `prev`
/// (the first `j` trees stepped, the rest untouched) has its `j`th tree
/// stepped, the first `j + 1` trees are stepped and the rest untouched.
pub proof fn lemma_map_progress(
    base: Seq<MappingTreeView>,
    prev: Seq<MappingTreeView>,
    cur: Seq<MappingTreeView>,
    j: int,
    step: spec_fn(MappingTreeView) -> MappingTreeView,
)
    requires
        0 <= j < base.len(),
        prev == base.take(j).map_values(step) + base.skip(j),
        cur.len() == prev.len(),
        forall|x: int| 0 <= x < prev.len() && x != j ==> cur[x] == prev[x],
        cur[j] == step(base[j]),
    ensures
        cur == base.take(j + 1).map_values(step) + base.skip(j + 1),
{
    let target = base.take(j + 1).map_values(step) + base.skip(j + 1);
    assert forall|x: int| 0 <= x < cur.len() implies cur[x] == target[x] by {
        if x != j {
            assert(prev[x] == (base.take(j).map_values(step) + base.skip(j))[x]);
        }
    }
    assert(cur =~= target);
}

/// Applies the destination-wide renames among field `f`'s directives, in
/// declaration order, after all its directives are folded.
pub open spec fn apply_renames(
    trees: Seq<MappingTreeView>,
    f: Field,
    ds: Seq<Params>,
) -> Seq<MappingTreeView>
    decreases ds.len(),
{
    if ds.len() == 0 {
        trees
    } else {
        let prefix = apply_renames(trees, f, ds.drop_last());
        let d = ds.last();
        if rename_applies(d) {
            prefix.map_values(
                rename_step_fn(
                    d.destination.deep_view()->Some_0,
                    f.member.deep_view(),
                    d.field.deep_view()->Some_0,
                ),
            )
        } else {
            prefix
        }
    }
}

/// Folds one field into the tree set: defaults, directives, then
/// destination-wide renames.
pub open spec fn apply_field(
    trees: Seq<MappingTreeView>,
    ident: Seq<char>,
    f: Field,
) -> Seq<MappingTreeView> {
    apply_renames(apply_directives(apply_defaults(trees, f), ident, f, f.attrs@), f, f.attrs@)
}

/// Folds every field, in declaration order.
pub open spec fn apply_fields(
    trees: Seq<MappingTreeView>,
    ident: Seq<char>,
    fs: Seq<Field>,
) -> Seq<MappingTreeView>
    decreases fs.len(),
{
    if fs.len() == 0 {
        trees
    } else {
        apply_field(apply_fields(trees, ident, fs.drop_last()), ident, fs.last())
    }
}

/// The mapping trees descriptor `s` resolves to.
pub open spec fn spec_resolve(s: Struct) -> Seq<MappingTreeView> {
    apply_fields(seed(s.ident@, s.attrs.deep_view()), s.ident@, s.fields@)
}

/// Finds the first tree keyed `(destination, strategy)`.
fn find_tree(trees: &Vec<MappingTree>, destination: &String, strategy: MappingStrategy) -> (r:
    Option<usize>)
    ensures
        match r {
            Some(u) => u < trees@.len() && find_tree_index(
                trees.deep_view(),
                destination@,
                strategy,
            ) == Some(u as int),
            None => find_tree_index(trees.deep_view(), destination@, strategy) is None,
        },
{
    let ghost tv = trees.deep_view();
    let mut i: usize = 0;
    while i < trees.len()
        invariant
            i <= trees@.len(),
            find_tree_index(tv.take(i as int), destination@, strategy) is None,
        decreases trees@.len() - i,
    {
        proof {
            assert(tv.take(i + 1).drop_last() =~= tv.take(i as int));
        }
        if trees[i].destination == *destination && trees[i].strategy == strategy {
            proof {
                assert(find_tree_index(tv.take(i + 1), destination@, strategy) == Some(i as int));
                lemma_find_tree_index_extend(tv, destination@, strategy, i + 1);
            }
            return Some(i);
        }
        i = i + 1;
    }
    proof {
        assert(tv.take(tv.len() as int) =~= tv);
    }
    None
}

/// The entry directive `d` of field `f` contributes for `strategy`.
fn directive_entry_exec(f: &Field, d: &Params, strategy: MappingStrategy) -> (r: MappingField)
    ensures
        r.deep_view() == directive_entry(*f, *d, strategy),
{
    MappingField {
        ty: f.ty.clone(),
        strategy,
        member: f.member.clone(),
        field: clone_opt_string(&d.field),
        with: d.get_with_by_strategy(&strategy),
    }
}

/// The strategies directive `d` acts on: its explicit selection, or the
/// default strategy when none is named.
fn effective_strategies(d: &Params) -> (r: Vec<MappingStrategy>)
    ensures
        r@ == effective_strategies_of(*d),
{
    let mut out: Vec<MappingStrategy> = Vec::new();
    if d.strategies.len() == 0 {
        out.push(MappingStrategy::Mapper);
        proof {
            assert(out@ =~= effective_strategies_of(*d));
        }
    } else {
        let mut i: usize = 0;
        while i < d.strategies.len()
            invariant
                i <= d.strategies@.len(),
                out@ == strategies_of(*d).take(i as int),
            decreases d.strategies@.len() - i,
        {
            out.push(d.strategies[i].1);
            proof {
                assert(out@ =~= strategies_of(*d).take(i + 1));
            }
            i = i + 1;
        }
        proof {
            assert(strategies_of(*d).take(d.strategies@.len() as int) =~= strategies_of(*d));
        }
    }
    out
}

impl Struct {
    /// Resolves this descriptor into its mapping trees: exactly the value of
    /// [`spec_resolve`]. The pass is total; combinations the validator
    /// rejects still fold deterministically (an orphan transform simply
    /// finds no tree).
    #[verifier::rlimit(100)]
    pub fn mapping_trees(&self) -> (r: Vec<MappingTree>)
        ensures
            r.deep_view() == spec_resolve(*self),
    {
        let ghost ident_v = self.ident@;
        let mut trees: Vec<MappingTree> = Vec::new();

        // Seed one automatic tree per registered (destination, strategy).
        let ghost into_dests = self.attrs.into_destinations.deep_view();
        proof {
            assert(trees.deep_view() =~= seed_destinations(
                Seq::empty(),
                ident_v,
                into_dests.take(0),
                MappingStrategy::Into,
            ));
        }
        let mut i: usize = 0;
        while i < self.attrs.into_destinations.len()
            invariant
                i <= self.attrs.into_destinations@.len(),
                trees.deep_view() == seed_destinations(
                    Seq::empty(),
                    ident_v,
                    into_dests.take(i as int),
                    MappingStrategy::Into,
                ),
            decreases self.attrs.into_destinations@.len() - i,
        {
            proof {
                assert(into_dests.take(i + 1).drop_last() =~= into_dests.take(i as int));
            }
            let dest = &self.attrs.into_destinations[i];
            if find_tree(&trees, dest, MappingStrategy::Into).is_none() {
                trees.push(
                    MappingTree::new(
                        self.ident.clone(),
                        dest.clone(),
                        MappingStrategy::Into,
                        Some(MappingType::Automatic),
                    ),
                );
                proof {
                    assert(trees.deep_view() =~~= seed_destinations(
                        Seq::empty(),
                        ident_v,
                        into_dests.take(i + 1),
                        MappingStrategy::Into,
                    ));
                }
            }
            i = i + 1;
        }
        proof {
            assert(into_dests.take(into_dests.len() as int) =~= into_dests);
        }
        let ghost seeded_into = trees.deep_view();
        let ghost mapper_dests = self.attrs.mapper_destinations.deep_view();
        let mut i: usize = 0;
        while i < self.attrs.mapper_destinations.len()
            invariant
                i <= self.attrs.mapper_destinations@.len(),
                trees.deep_view() == seed_destinations(
                    seeded_into,
                    ident_v,
                    mapper_dests.take(i as int),
                    MappingStrategy::Mapper,
                ),
            decreases self.attrs.mapper_destinations@.len() - i,
        {
            proof {
                assert(mapper_dests.take(i + 1).drop_last() =~= mapper_dests.take(i as int));
            }
            let dest = &self.attrs.mapper_destinations[i];
            if find_tree(&trees, dest, MappingStrategy::Mapper).is_none() {
                trees.push(
                    MappingTree::new(
                        self.ident.clone(),
                        dest.clone(),
                        MappingStrategy::Mapper,
                        Some(MappingType::Automatic),
                    ),
                );
                proof {
                    assert(trees.deep_view() =~~= seed_destinations(
                        seeded_into,
                        ident_v,
                        mapper_dests.take(i + 1),
                        MappingStrategy::Mapper,
                    ));
                }
            }
            i = i + 1;
        }
        proof {
            assert(mapper_dests.take(mapper_dests.len() as int) =~= mapper_dests);
            assert(trees.deep_view() == seed(ident_v, self.attrs.deep_view()));
        }
        let ghost seeded = trees.deep_view();

        // Fold every field in declaration order.
        let mut fi: usize = 0;
        while fi < self.fields.len()
            invariant
                fi <= self.fields@.len(),
                trees.deep_view() == apply_fields(seeded, ident_v, self.fields@.take(fi as int)),
            decreases self.fields@.len() - fi,
        {
            proof {
                assert(self.fields@.take(fi + 1).drop_last() =~= self.fields@.take(fi as int));
            }
            let field = &self.fields[fi];
            let ghost f = self.fields@[fi as int];

            // Default entries for automatic trees not excluded by this field.
            let ghost t0 = trees.deep_view();
            proof {
                assert(t0.take(0).map_values(default_step_fn(f)) + t0.skip(0) =~= t0);
            }
            let mut j: usize = 0;
            while j < trees.len()
                invariant
                    j <= trees@.len(),
                    trees@.len() == t0.len(),
                    trees.deep_view() == t0.take(j as int).map_values(default_step_fn(f))
                        + t0.skip(j as int),
                decreases trees@.len() - j,
            {
                let ghost before = trees.deep_view();
                let is_automatic = trees[j].has_mapping_type(&MappingType::Automatic);
                let excluded = field.is_excluded(&trees[j].destination);
                if is_automatic && !excluded {
                    let entry = MappingField {
                        ty: field.ty.clone(),
                        strategy: trees[j].strategy,
                        member: field.member.clone(),
                        field: None,
                        with: None,
                    };
                    trees[j].upsert_mapping_field(entry);
                }
                proof {
                    assert(before[j as int] == t0[j as int]);
                    assert forall|x: int|
                        0 <= x < before.len() && x != j implies trees.deep_view()[x]
                        == before[x] by {
                        assert(trees.deep_view()[x] == trees@[x].deep_view());
                    }
                    assert(trees.deep_view()[j as int] =~~= default_step(t0[j as int], f));
                    lemma_map_progress(
                        t0,
                        before,
                        trees.deep_view(),
                        j as int,
                        default_step_fn(f),
                    );
                }
                j = j + 1;
            }
            proof {
                assert(t0.take(t0.len() as int) =~= t0);
                assert(t0.skip(t0.len() as int) =~= Seq::<MappingTreeView>::empty());
                assert(trees.deep_view() =~~= apply_defaults(t0, f));
            }

            // Fold each directive of this field, in order.
            let ghost t1 = trees.deep_view();
            let mut k: usize = 0;
            while k < field.attrs.len()
                invariant
                    k <= field.attrs@.len(),
                    trees.deep_view() == apply_directives(
                        t1,
                        ident_v,
                        f,
                        f.attrs@.take(k as int),
                    ),
                decreases field.attrs@.len() - k,
            {
                proof {
                    assert(f.attrs@.take(k + 1).drop_last() =~= f.attrs@.take(k as int));
                }
                let d = &field.attrs[k];
                let ghost dv = f.attrs@[k as int];
                let ghost t2 = trees.deep_view();
                if d.exclude.1 {
                    match &d.destination {
                        None => {
                            // Unconditional exclusion: drop the member from
                            // every tree.
                            let ghost m = f.member.deep_view();
                            proof {
                                assert(t2.take(0).map_values(remove_step_fn(m)) + t2.skip(0)
                                    =~= t2);
                            }
                            let mut j: usize = 0;
                            while j < trees.len()
                                invariant
                                    j <= trees@.len(),
                                    trees@.len() == t2.len(),
                                    trees.deep_view() == t2.take(j as int).map_values(
                                        remove_step_fn(m),
                                    ) + t2.skip(j as int),
                                decreases trees@.len() - j,
                            {
                                let ghost before = trees.deep_view();
                                trees[j].remove_mapping_fields_by_member(&field.member);
                                proof {
                                    assert(before[j as int] == t2[j as int]);
                                    assert forall|x: int|
                                        0 <= x < before.len() && x != j implies trees.deep_view()[x]
                                        == before[x] by {
                                        assert(trees.deep_view()[x] == trees@[x].deep_view());
                                    }
                                    assert(trees.deep_view()[j as int] =~~= remove_step(
                                        t2[j as int],
                                        m,
                                    ));
                                    lemma_map_progress(
                                        t2,
                                        before,
                                        trees.deep_view(),
                                        j as int,
                                        remove_step_fn(m),
                                    );
                                }
                                j = j + 1;
                            }
                            proof {
                                assert(t2.take(t2.len() as int) =~= t2);
                                assert(t2.skip(t2.len() as int)
                                    =~= Seq::<MappingTreeView>::empty());
                                assert(trees.deep_view() =~~= apply_directive(t2, ident_v, f, dv));
                            }
                        },
                        Some(dest) => {
                            // Destination-scoped exclusion: drop the member
                            // from that destination's trees.
                            let ghost m = f.member.deep_view();
                            proof {
                                assert(t2.take(0).map_values(remove_scoped_step_fn(m, dest@))
                                    + t2.skip(0) =~= t2);
                            }
                            let mut j: usize = 0;
                            while j < trees.len()
                                invariant
                                    j <= trees@.len(),
                                    trees@.len() == t2.len(),
                                    trees.deep_view() == t2.take(j as int).map_values(
                                        remove_scoped_step_fn(m, dest@),
                                    ) + t2.skip(j as int),
                                decreases trees@.len() - j,
                            {
                                let ghost before = trees.deep_view();
                                if trees[j].destination == *dest {
                                    trees[j].remove_mapping_fields_by_member(&field.member);
                                }
                                proof {
                                    assert(before[j as int] == t2[j as int]);
                                    assert forall|x: int|
                                        0 <= x < before.len() && x != j implies trees.deep_view()[x]
                                        == before[x] by {
                                        assert(trees.deep_view()[x] == trees@[x].deep_view());
                                    }
                                    assert(trees.deep_view()[j as int] =~~= remove_scoped_step(
                                        t2[j as int],
                                        m,
                                        dest@,
                                    ));
                                    lemma_map_progress(
                                        t2,
                                        before,
                                        trees.deep_view(),
                                        j as int,
                                        remove_scoped_step_fn(m, dest@),
                                    );
                                }
                                j = j + 1;
                            }
                            proof {
                                assert(t2.take(t2.len() as int) =~= t2);
                                assert(t2.skip(t2.len() as int)
                                    =~= Seq::<MappingTreeView>::empty());
                                assert(trees.deep_view() =~~= apply_directive(t2, ident_v, f, dv));
                            }
                        },
                    }
                } else {
                    match &d.destination {
                        None => {
                            proof {
                                assert(trees.deep_view() == apply_directive(t2, ident_v, f, dv));
                            }
                        },
                        Some(dest) => {
                            // Get or create a tree per selected strategy and
                            // upsert this directive's entry.
                            let strats = effective_strategies(d);
                            let ghost ss = effective_strategies_of(dv);
                            let mut si: usize = 0;
                            while si < strats.len()
                                invariant
                                    si <= ss.len(),
                                    strats@ == ss,
                                    trees.deep_view() == apply_strategies(
                                        t2,
                                        ident_v,
                                        f,
                                        dv,
                                        dest@,
                                        ss.take(si as int),
                                    ),
                                decreases strats@.len() - si,
                            {
                                proof {
                                    assert(ss.take(si + 1).drop_last() =~= ss.take(si as int));
                                }
                                let strat = strats[si];
                                let entry = directive_entry_exec(field, d, strat);
                                let ghost before = trees.deep_view();
                                match find_tree(&trees, dest, strat) {
                                    Some(ti) => {
                                        trees[ti].upsert_mapping_field(entry);
                                        proof {
                                            assert(trees.deep_view() =~~= upsert_into_tree(
                                                before,
                                                ident_v,
                                                dest@,
                                                strat,
                                                directive_entry(f, dv, strat),
                                            ));
                                        }
                                    },
                                    None => {
                                        let mut created = MappingTree::new(
                                            self.ident.clone(),
                                            dest.clone(),
                                            strat,
                                            Some(MappingType::Additive),
                                        );
                                        created.upsert_mapping_field(entry);
                                        trees.push(created);
                                        proof {
                                            assert(trees.deep_view() =~~= upsert_into_tree(
                                                before,
                                                ident_v,
                                                dest@,
                                                strat,
                                                directive_entry(f, dv, strat),
                                            ));
                                        }
                                    },
                                }
                                si = si + 1;
                            }
                            proof {
                                assert(ss.take(ss.len() as int) =~= ss);
                            }

                            // Route each transform registration to the tree
                            // of its strategy, where that tree exists.
                            let ghost t3 = trees.deep_view();
                            let ghost ws = dv.with.deep_view();
                            let mut wi: usize = 0;
                            while wi < d.with.len()
                                invariant
                                    wi <= ws.len(),
                                    ws == dv.with.deep_view(),
                                    d.with@.len() == ws.len(),
                                    trees.deep_view() == apply_withs(
                                        t3,
                                        f,
                                        dv,
                                        dest@,
                                        ws.take(wi as int),
                                    ),
                                decreases d.with@.len() - wi,
                            {
                                proof {
                                    assert(ws.take(wi + 1).drop_last() =~= ws.take(wi as int));
                                }
                                let wstrat = d.with[wi].1;
                                let entry = directive_entry_exec(field, d, wstrat);
                                let ghost before = trees.deep_view();
                                match find_tree(&trees, dest, wstrat) {
                                    Some(ti) => {
                                        trees[ti].upsert_mapping_field(entry);
                                        proof {
                                            assert(trees.deep_view()
                                                =~~= upsert_into_existing_tree(
                                                before,
                                                dest@,
                                                wstrat,
                                                directive_entry(f, dv, wstrat),
                                            ));
                                        }
                                    },
                                    None => {
                                        proof {
                                            assert(trees.deep_view()
                                                == upsert_into_existing_tree(
                                                before,
                                                dest@,
                                                wstrat,
                                                directive_entry(f, dv, wstrat),
                                            ));
                                        }
                                    },
                                }
                                wi = wi + 1;
                            }
                            proof {
                                assert(ws.take(ws.len() as int) =~= ws);
                                assert(trees.deep_view() == apply_directive(t2, ident_v, f, dv));
                            }
                        },
                    }
                }
                k = k + 1;
            }
            proof {
                assert(f.attrs@.take(f.attrs@.len() as int) =~= f.attrs@);
            }

            // Destination-wide renames: a rename with no strategy selector
            // reaches the member's entry in every tree of its destination.
            let ghost t4 = trees.deep_view();
            let mut k: usize = 0;
            while k < field.attrs.len()
                invariant
                    k <= field.attrs@.len(),
                    trees.deep_view() == apply_renames(t4, f, f.attrs@.take(k as int)),
                decreases field.attrs@.len() - k,
            {
                proof {
                    assert(f.attrs@.take(k + 1).drop_last() =~= f.attrs@.take(k as int));
                }
                let d = &field.attrs[k];
                let ghost dv = f.attrs@[k as int];
                let ghost t5 = trees.deep_view();
                if !d.exclude.1 && d.destination.is_some() && d.field.is_some()
                    && d.strategies.len() == 0 {
                    let dest = match &d.destination {
                        Some(dest) => dest,
                        None => unreached(),
                    };
                    let rename = match &d.field {
                        Some(rename) => rename,
                        None => unreached(),
                    };
                    let ghost m = f.member.deep_view();
                    proof {
                        assert(t5.take(0).map_values(rename_step_fn(dest@, m, rename@)) + t5.skip(
                            0,
                        ) =~= t5);
                    }
                    let mut j: usize = 0;
                    while j < trees.len()
                        invariant
                            j <= trees@.len(),
                            trees@.len() == t5.len(),
                            trees.deep_view() == t5.take(j as int).map_values(
                                rename_step_fn(dest@, m, rename@),
                            ) + t5.skip(j as int),
                        decreases trees@.len() - j,
                    {
                        let ghost before = trees.deep_view();
                        if trees[j].destination == *dest {
                            trees[j].set_rename(&field.member, rename);
                        }
                        proof {
                            assert(before[j as int] == t5[j as int]);
                            assert forall|x: int|
                                0 <= x < before.len() && x != j implies trees.deep_view()[x]
                                == before[x] by {
                                assert(trees.deep_view()[x] == trees@[x].deep_view());
                            }
                            assert(trees.deep_view()[j as int] =~~= rename_step(
                                t5[j as int],
                                dest@,
                                m,
                                rename@,
                            ));
                            lemma_map_progress(
                                t5,
                                before,
                                trees.deep_view(),
                                j as int,
                                rename_step_fn(dest@, m, rename@),
                            );
                        }
                        j = j + 1;
                    }
                    proof {
                        assert(t5.take(t5.len() as int) =~= t5);
                        assert(t5.skip(t5.len() as int) =~= Seq::<MappingTreeView>::empty());
                        assert(trees.deep_view() =~~= apply_renames(t4, f, f.attrs@.take(k + 1)));
                    }
                } else {
                    proof {
                        assert(trees.deep_view() == apply_renames(t4, f, f.attrs@.take(k + 1)));
                    }
                }
                k = k + 1;
            }
            proof {
                assert(f.attrs@.take(f.attrs@.len() as int) =~= f.attrs@);
                assert(trees.deep_view() == apply_field(
                    apply_fields(seeded, ident_v, self.fields@.take(fi as int)),
                    ident_v,
                    f,
                ));
                assert(self.fields@.take(fi + 1).last() == f);
            }
            fi = fi + 1;
        }
        proof {
            assert(self.fields@.take(self.fields@.len() as int) =~= self.fields@);
        }
        trees
    }

    /// Validates the descriptor and, only if every check passes, resolves
    /// it: there is no partial plan. The first violation aborts resolution
    /// for the whole type.
    pub fn resolve(&self) -> (r: Result<Vec<MappingTree>, StructError>)
        ensures
            match spec_validate(*self) {
                None => (r matches Ok(trees) && trees.deep_view() == spec_resolve(*self)),
                Some(e) => (r matches Err(err) && err.deep_view() == e),
            },
    {
        match self.validate() {
            Ok(_) => Ok(self.mapping_trees()),
            Err(e) => Err(e),
        }
    }
}

} // verus!
