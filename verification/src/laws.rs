//! The engine's guarantees, stated and proved over [`spec_resolve`] and
//! [`spec_validate`] — the very functions the executable resolver and
//! validator are proved to compute.

use vstd::prelude::*;

use crate::ast::data_type::Struct;
use crate::ast::field::Field;
use crate::ast::field::MemberView;
use crate::ast::field::spec_field_excluded;
use crate::ast::mapping_field::MappingFieldView;
use crate::ast::mapping_tree::MappingTreeView;
use crate::ast::mapping_tree::MappingType;
use crate::ast::mapping_tree::find_field_index;
use crate::ast::mapping_tree::lemma_find_field_index;
use crate::ast::mapping_tree::remove_member;
use crate::ast::mapping_tree::rename_fields;
use crate::ast::mapping_tree::upsert_field;
use crate::attr::aggregated_to::RegistryView;
use crate::attr::field::Params;
use crate::attr::mapping_strategy::MappingStrategy;
use crate::resolve::apply_defaults;
use crate::resolve::apply_directive;
use crate::resolve::apply_directives;
use crate::resolve::apply_field;
use crate::resolve::apply_fields;
use crate::resolve::apply_renames;
use crate::resolve::apply_strategies;
use crate::resolve::apply_withs;
use crate::resolve::default_step;
use crate::resolve::default_step_fn;
use crate::resolve::directive_entry;
use crate::resolve::find_tree_index;
use crate::resolve::lemma_find_tree_index;
use crate::resolve::remove_scoped_step;
use crate::resolve::remove_scoped_step_fn;
use crate::resolve::remove_step;
use crate::resolve::remove_step_fn;
use crate::resolve::rename_applies;
use crate::resolve::rename_step;
use crate::resolve::rename_step_fn;
use crate::resolve::seed;
use crate::resolve::seed_destinations;
use crate::resolve::spec_resolve;
use crate::resolve::upsert_into_existing_tree;
use crate::resolve::upsert_into_tree;

verus! {

/// Whether some tree of `trees` is keyed `(dest, strategy)`.
pub open spec fn has_tree(
    trees: Seq<MappingTreeView>,
    dest: Seq<char>,
    strategy: MappingStrategy,
) -> bool {
    exists|i: int|
        0 <= i < trees.len() && (#[trigger] trees[i]).destination == dest && trees[i].strategy
            == strategy
}

/// The tag discipline resolution maintains: every tree is tagged, and it is
/// tagged automatic exactly when the registry holds its key.
pub open spec fn tags_consistent(trees: Seq<MappingTreeView>, reg: RegistryView) -> bool {
    forall|i: int|
        0 <= i < trees.len() ==> (#[trigger] trees[i]).mapping_type is Some && (
        trees[i].mapping_type == Some(MappingType::Automatic) <==> reg.contains_pair(
            trees[i].destination,
            trees[i].strategy,
        ))
}

/// Every registered pair has a tree.
pub open spec fn covers(trees: Seq<MappingTreeView>, reg: RegistryView) -> bool {
    forall|d: Seq<char>, s: MappingStrategy|
        #[trigger] reg.contains_pair(d, s) ==> has_tree(trees, d, s)
}

/// Whether some entry of `fields` is keyed by member `m`.
pub open spec fn has_member(fields: Seq<MappingFieldView>, m: MemberView) -> bool {
    exists|i: int| 0 <= i < fields.len() && #[trigger] fields[i].member == m
}

/// Whether no two entries of `fields` share a member key.
pub open spec fn unique_members(fields: Seq<MappingFieldView>) -> bool {
    forall|i: int, j: int|
        0 <= i < j < fields.len() ==> #[trigger] fields[i].member != #[trigger] fields[j].member
}

/// Whether no two fields of `fs` share a member identity, as any descriptor
/// of a real record has.
pub open spec fn distinct_members(fs: Seq<Field>) -> bool {
    forall|i: int, j: int|
        0 <= i < j < fs.len() ==> (#[trigger] fs[i]).member.deep_view() != (
        #[trigger] fs[j]).member.deep_view()
}

/// Resolution is a function of the descriptor alone: two resolutions of the
/// same descriptor yield the same tree set — the same destinations,
/// strategies and field sets.
pub proof fn lemma_resolution_idempotent(
    s: Struct,
    r1: Seq<MappingTreeView>,
    r2: Seq<MappingTreeView>,
)
    requires
        r1 == spec_resolve(s),
        r2 == spec_resolve(s),
    ensures
        r1 == r2,
{
}

/// Upserting `e` keys exactly `e.member` in addition, and keeps keys unique.
pub proof fn lemma_upsert_member_sets(
    fields: Seq<MappingFieldView>,
    e: MappingFieldView,
    m: MemberView,
)
    ensures
        has_member(upsert_field(fields, e), m) == (m == e.member || has_member(fields, m)),
        unique_members(fields) ==> unique_members(upsert_field(fields, e)),
{
    lemma_find_field_index(fields, e.member);
    match find_field_index(fields, e.member) {
        Some(i) => {
            let post = fields.update(i, e);
            if m == e.member {
                assert(post[i].member == m);
            } else {
                if has_member(fields, m) {
                    let w = choose|w: int| 0 <= w < fields.len() && #[trigger] fields[w].member
                        == m;
                    assert(w != i);
                    assert(post[w].member == m);
                }
                if has_member(post, m) {
                    let w = choose|w: int| 0 <= w < post.len() && #[trigger] post[w].member == m;
                    assert(w != i);
                    assert(fields[w].member == m);
                }
            }
        },
        None => {
            let post = fields.push(e);
            if m == e.member {
                assert(post[fields.len() as int].member == m);
            } else {
                if has_member(fields, m) {
                    let w = choose|w: int| 0 <= w < fields.len() && #[trigger] fields[w].member
                        == m;
                    assert(post[w].member == m);
                }
                if has_member(post, m) {
                    let w = choose|w: int| 0 <= w < post.len() && #[trigger] post[w].member == m;
                    assert(w < fields.len());
                    assert(fields[w].member == m);
                }
            }
        },
    }
}

/// Removing `m` leaves no entry for `m`, leaves every other key's presence
/// as it was, and keeps keys unique.
pub proof fn lemma_remove_member_sets(fields: Seq<MappingFieldView>, m: MemberView, m2: MemberView)
    ensures
        !has_member(remove_member(fields, m), m),
        m2 != m ==> has_member(remove_member(fields, m), m2) == has_member(fields, m2),
        unique_members(fields) ==> unique_members(remove_member(fields, m)),
    decreases fields.len(),
{
    if fields.len() == 0 {
    } else {
        let prefix = fields.drop_last();
        assert(unique_members(fields) ==> unique_members(prefix));
        lemma_remove_member_sets(prefix, m, m2);
        lemma_remove_member_sets(prefix, m, fields.last().member);
        let removed_prefix = remove_member(prefix, m);
        let last = fields.last();
        if last.member == m {
            assert(remove_member(fields, m) == removed_prefix);
            if m2 != m && has_member(fields, m2) {
                let w = choose|w: int| 0 <= w < fields.len() && #[trigger] fields[w].member == m2;
                assert(w < fields.len() - 1);
                assert(prefix[w].member == m2);
            }
            if m2 != m && has_member(prefix, m2) {
                let w = choose|w: int| 0 <= w < prefix.len() && #[trigger] prefix[w].member == m2;
                assert(fields[w].member == m2);
            }
        } else {
            let post = removed_prefix.push(last);
            assert(remove_member(fields, m) == post);
            if has_member(post, m) {
                let w = choose|w: int| 0 <= w < post.len() && #[trigger] post[w].member == m;
                assert(w < removed_prefix.len());
                assert(removed_prefix[w].member == m);
            }
            if m2 != m {
                if has_member(fields, m2) {
                    let w = choose|w: int| 0 <= w < fields.len() && #[trigger] fields[w].member
                        == m2;
                    if w == fields.len() - 1 {
                        assert(post[removed_prefix.len() as int].member == m2);
                    } else {
                        assert(prefix[w].member == m2);
                        let w2 = choose|w2: int|
                            0 <= w2 < removed_prefix.len() && #[trigger] removed_prefix[w2].member
                                == m2;
                        assert(post[w2].member == m2);
                    }
                }
                if has_member(post, m2) {
                    let w = choose|w: int| 0 <= w < post.len() && #[trigger] post[w].member == m2;
                    if w == removed_prefix.len() {
                        assert(fields[fields.len() - 1].member == m2);
                    } else {
                        assert(removed_prefix[w].member == m2);
                        let w2 = choose|w2: int|
                            0 <= w2 < prefix.len() && #[trigger] prefix[w2].member == m2;
                        assert(fields[w2].member == m2);
                    }
                }
            }
            if unique_members(fields) {
                assert forall|i: int, j: int| 0 <= i < j < post.len() implies post[i].member
                    != post[j].member by {
                    if j == post.len() - 1 {
                        assert(post[j].member == last.member);
                        if post[i].member == last.member {
                            assert(removed_prefix[i].member == last.member);
                            assert(has_member(removed_prefix, last.member));
                            assert(has_member(prefix, last.member));
                            let w2 = choose|w2: int|
                                0 <= w2 < prefix.len() && #[trigger] prefix[w2].member
                                    == last.member;
                            assert(fields[w2].member == fields[fields.len() - 1].member);
                            assert(false);
                        }
                    } else {
                        assert(removed_prefix[i].member != removed_prefix[j].member);
                    }
                }
            }
        }
    }
}

/// Whether `step` changes nothing about a tree but its entries.
pub open spec fn key_tag_preserving(step: spec_fn(MappingTreeView) -> MappingTreeView) -> bool {
    forall|t: MappingTreeView|
        (#[trigger] step(t)).ident == t.ident && step(t).destination == t.destination
            && step(t).strategy == t.strategy && step(t).mapping_type == t.mapping_type
}

/// A pass that only edits entries keeps the tag discipline and the coverage
/// of the registry.
proof fn lemma_map_tags(
    trees: Seq<MappingTreeView>,
    reg: RegistryView,
    step: spec_fn(MappingTreeView) -> MappingTreeView,
)
    requires
        tags_consistent(trees, reg),
        covers(trees, reg),
        key_tag_preserving(step),
    ensures
        tags_consistent(trees.map_values(step), reg),
        covers(trees.map_values(step), reg),
{
    let post = trees.map_values(step);
    assert forall|d: Seq<char>, s: MappingStrategy| #[trigger]
        reg.contains_pair(d, s) implies has_tree(post, d, s) by {
        let w = choose|i: int|
            0 <= i < trees.len() && (#[trigger] trees[i]).destination == d && trees[i].strategy
                == s;
        assert(post[w].destination == d && post[w].strategy == s);
    }
}

/// Getting-or-creating a tree and upserting into it keeps the tag
/// discipline: a reused tree keeps its key and tag, and a created tree is
/// additive with an unregistered key, since every registered key already has
/// a tree.
proof fn lemma_upsert_into_tree_tags(
    trees: Seq<MappingTreeView>,
    reg: RegistryView,
    ident: Seq<char>,
    dest: Seq<char>,
    strategy: MappingStrategy,
    entry: MappingFieldView,
)
    requires
        tags_consistent(trees, reg),
        covers(trees, reg),
    ensures
        tags_consistent(upsert_into_tree(trees, ident, dest, strategy, entry), reg),
        covers(upsert_into_tree(trees, ident, dest, strategy, entry), reg),
{
    lemma_find_tree_index(trees, dest, strategy);
    let post = upsert_into_tree(trees, ident, dest, strategy, entry);
    match find_tree_index(trees, dest, strategy) {
        Some(i) => {
            assert forall|d: Seq<char>, s: MappingStrategy| #[trigger]
                reg.contains_pair(d, s) implies has_tree(post, d, s) by {
                let w = choose|w: int|
                    0 <= w < trees.len() && (#[trigger] trees[w]).destination == d
                        && trees[w].strategy == s;
                assert(post[w].destination == d && post[w].strategy == s);
            }
        },
        None => {
            if reg.contains_pair(dest, strategy) {
                let w = choose|w: int|
                    0 <= w < trees.len() && (#[trigger] trees[w]).destination == dest
                        && trees[w].strategy == strategy;
                assert(false);
            }
            assert forall|d: Seq<char>, s: MappingStrategy| #[trigger]
                reg.contains_pair(d, s) implies has_tree(post, d, s) by {
                let w = choose|w: int|
                    0 <= w < trees.len() && (#[trigger] trees[w]).destination == d
                        && trees[w].strategy == s;
                assert(post[w].destination == d && post[w].strategy == s);
            }
        },
    }
}

/// Upserting into an existing tree keeps the tag discipline.
proof fn lemma_upsert_into_existing_tags(
    trees: Seq<MappingTreeView>,
    reg: RegistryView,
    dest: Seq<char>,
    strategy: MappingStrategy,
    entry: MappingFieldView,
)
    requires
        tags_consistent(trees, reg),
        covers(trees, reg),
    ensures
        tags_consistent(upsert_into_existing_tree(trees, dest, strategy, entry), reg),
        covers(upsert_into_existing_tree(trees, dest, strategy, entry), reg),
{
    lemma_find_tree_index(trees, dest, strategy);
    let post = upsert_into_existing_tree(trees, dest, strategy, entry);
    assert forall|d: Seq<char>, s: MappingStrategy| #[trigger]
        reg.contains_pair(d, s) implies has_tree(post, d, s) by {
        let w = choose|w: int|
            0 <= w < trees.len() && (#[trigger] trees[w]).destination == d && trees[w].strategy
                == s;
        assert(post[w].destination == d && post[w].strategy == s);
    }
}

proof fn lemma_strategies_tags(
    trees: Seq<MappingTreeView>,
    reg: RegistryView,
    ident: Seq<char>,
    f: Field,
    d: Params,
    dest: Seq<char>,
    ss: Seq<MappingStrategy>,
)
    requires
        tags_consistent(trees, reg),
        covers(trees, reg),
    ensures
        tags_consistent(apply_strategies(trees, ident, f, d, dest, ss), reg),
        covers(apply_strategies(trees, ident, f, d, dest, ss), reg),
    decreases ss.len(),
{
    if ss.len() > 0 {
        lemma_strategies_tags(trees, reg, ident, f, d, dest, ss.drop_last());
        lemma_upsert_into_tree_tags(
            apply_strategies(trees, ident, f, d, dest, ss.drop_last()),
            reg,
            ident,
            dest,
            ss.last(),
            directive_entry(f, d, ss.last()),
        );
    }
}

proof fn lemma_withs_tags(
    trees: Seq<MappingTreeView>,
    reg: RegistryView,
    f: Field,
    d: Params,
    dest: Seq<char>,
    ws: Seq<(Option<Seq<char>>, MappingStrategy)>,
)
    requires
        tags_consistent(trees, reg),
        covers(trees, reg),
    ensures
        tags_consistent(apply_withs(trees, f, d, dest, ws), reg),
        covers(apply_withs(trees, f, d, dest, ws), reg),
    decreases ws.len(),
{
    if ws.len() > 0 {
        lemma_withs_tags(trees, reg, f, d, dest, ws.drop_last());
        lemma_upsert_into_existing_tags(
            apply_withs(trees, f, d, dest, ws.drop_last()),
            reg,
            dest,
            ws.last().1,
            directive_entry(f, d, ws.last().1),
        );
    }
}

proof fn lemma_directive_tags(
    trees: Seq<MappingTreeView>,
    reg: RegistryView,
    ident: Seq<char>,
    f: Field,
    d: Params,
)
    requires
        tags_consistent(trees, reg),
        covers(trees, reg),
    ensures
        tags_consistent(apply_directive(trees, ident, f, d), reg),
        covers(apply_directive(trees, ident, f, d), reg),
{
    if d.exclude.1 {
        match d.destination {
            None => lemma_map_tags(trees, reg, remove_step_fn(f.member.deep_view())),
            Some(dest) => lemma_map_tags(
                trees,
                reg,
                remove_scoped_step_fn(f.member.deep_view(), dest@),
            ),
        }
    } else {
        match d.destination {
            None => {},
            Some(dest) => {
                lemma_strategies_tags(
                    trees,
                    reg,
                    ident,
                    f,
                    d,
                    dest@,
                    crate::attr::field::effective_strategies_of(d),
                );
                lemma_withs_tags(
                    apply_strategies(
                        trees,
                        ident,
                        f,
                        d,
                        dest@,
                        crate::attr::field::effective_strategies_of(d),
                    ),
                    reg,
                    f,
                    d,
                    dest@,
                    d.with.deep_view(),
                );
            },
        }
    }
}

proof fn lemma_directives_tags(
    trees: Seq<MappingTreeView>,
    reg: RegistryView,
    ident: Seq<char>,
    f: Field,
    ds: Seq<Params>,
)
    requires
        tags_consistent(trees, reg),
        covers(trees, reg),
    ensures
        tags_consistent(apply_directives(trees, ident, f, ds), reg),
        covers(apply_directives(trees, ident, f, ds), reg),
    decreases ds.len(),
{
    if ds.len() > 0 {
        lemma_directives_tags(trees, reg, ident, f, ds.drop_last());
        lemma_directive_tags(apply_directives(trees, ident, f, ds.drop_last()), reg, ident, f, ds.last());
    }
}

proof fn lemma_renames_tags(
    trees: Seq<MappingTreeView>,
    reg: RegistryView,
    f: Field,
    ds: Seq<Params>,
)
    requires
        tags_consistent(trees, reg),
        covers(trees, reg),
    ensures
        tags_consistent(apply_renames(trees, f, ds), reg),
        covers(apply_renames(trees, f, ds), reg),
    decreases ds.len(),
{
    if ds.len() > 0 {
        lemma_renames_tags(trees, reg, f, ds.drop_last());
        if rename_applies(ds.last()) {
            lemma_map_tags(
                apply_renames(trees, f, ds.drop_last()),
                reg,
                rename_step_fn(
                    ds.last().destination.deep_view()->Some_0,
                    f.member.deep_view(),
                    ds.last().field.deep_view()->Some_0,
                ),
            );
        }
    }
}

proof fn lemma_field_tags(
    trees: Seq<MappingTreeView>,
    reg: RegistryView,
    ident: Seq<char>,
    f: Field,
)
    requires
        tags_consistent(trees, reg),
        covers(trees, reg),
    ensures
        tags_consistent(apply_field(trees, ident, f), reg),
        covers(apply_field(trees, ident, f), reg),
{
    lemma_map_tags(trees, reg, default_step_fn(f));
    lemma_directives_tags(apply_defaults(trees, f), reg, ident, f, f.attrs@);
    lemma_renames_tags(apply_directives(apply_defaults(trees, f), ident, f, f.attrs@), reg, f, f.attrs@);
}

proof fn lemma_fields_tags(
    trees: Seq<MappingTreeView>,
    reg: RegistryView,
    ident: Seq<char>,
    fs: Seq<Field>,
)
    requires
        tags_consistent(trees, reg),
        covers(trees, reg),
    ensures
        tags_consistent(apply_fields(trees, ident, fs), reg),
        covers(apply_fields(trees, ident, fs), reg),
    decreases fs.len(),
{
    if fs.len() > 0 {
        lemma_fields_tags(trees, reg, ident, fs.drop_last());
        lemma_field_tags(apply_fields(trees, ident, fs.drop_last()), reg, ident, fs.last());
    }
}

/// Seeding adds exactly the registered automatic trees of `dests`.
proof fn lemma_seed_destinations_tags(
    trees: Seq<MappingTreeView>,
    reg: RegistryView,
    ident: Seq<char>,
    dests: Seq<Seq<char>>,
    strategy: MappingStrategy,
)
    requires
        tags_consistent(trees, reg),
        forall|x: Seq<char>| dests.contains(x) ==> reg.contains_pair(x, strategy),
    ensures
        tags_consistent(seed_destinations(trees, ident, dests, strategy), reg),
        seed_destinations(trees, ident, dests, strategy).len() >= trees.len(),
        forall|i: int|
            0 <= i < trees.len() ==> seed_destinations(trees, ident, dests, strategy)[i]
                == trees[i],
        forall|x: Seq<char>| #![auto]
            dests.contains(x) ==> has_tree(seed_destinations(trees, ident, dests, strategy), x, strategy),
        forall|i: int|
            trees.len() <= i < seed_destinations(trees, ident, dests, strategy).len()
                ==> #[trigger] seed_destinations(trees, ident, dests, strategy)[i].mapping_fields
                == Seq::<MappingFieldView>::empty(),
    decreases dests.len(),
{
    if dests.len() > 0 {
        assert forall|x: Seq<char>| dests.drop_last().contains(x) implies reg.contains_pair(
            x,
            strategy,
        ) by {
            let w = choose|w: int|
                0 <= w < dests.drop_last().len() && #[trigger] dests.drop_last()[w] == x;
            assert(dests[w] == x);
            assert(dests.contains(x));
        }
        lemma_seed_destinations_tags(trees, reg, ident, dests.drop_last(), strategy);
        let prefix = seed_destinations(trees, ident, dests.drop_last(), strategy);
        let post = seed_destinations(trees, ident, dests, strategy);
        lemma_find_tree_index(prefix, dests.last(), strategy);
        assert(dests.contains(dests.last()));
        assert forall|x: Seq<char>| #![auto] dests.contains(x) implies has_tree(
            post,
            x,
            strategy,
        ) by {
            if x == dests.last() {
                match find_tree_index(prefix, dests.last(), strategy) {
                    Some(i) => {
                        assert(post[i].destination == x && post[i].strategy == strategy);
                    },
                    None => {
                        assert(post[post.len() - 1].destination == x && post[post.len()
                            - 1].strategy == strategy);
                    },
                }
            } else {
                let w = choose|w: int| 0 <= w < dests.len() && dests[w] == x;
                assert(dests.drop_last()[w] == x);
                assert(dests.drop_last().contains(x));
                let t = choose|t: int|
                    0 <= t < prefix.len() && (#[trigger] prefix[t]).destination == x
                        && prefix[t].strategy == strategy;
                assert(post[t].destination == x && post[t].strategy == strategy);
            }
        }
    }
}

/// The tag discipline holds of every resolution: a tree is tagged automatic
/// exactly when its (destination, strategy) pair is registered, so no pair
/// is at once automatic and additive; and every registered pair has a tree.
pub proof fn lemma_mutual_exclusivity_trees(s: Struct)
    ensures
        tags_consistent(spec_resolve(s), s.attrs.deep_view()),
        covers(spec_resolve(s), s.attrs.deep_view()),
{
    let reg = s.attrs.deep_view();
    let ident = s.ident@;
    let empty = Seq::<MappingTreeView>::empty();
    assert forall|x: Seq<char>|
        reg.into_destinations.contains(x) implies reg.contains_pair(
        x,
        MappingStrategy::Into,
    ) by {}
    lemma_seed_destinations_tags(empty, reg, ident, reg.into_destinations, MappingStrategy::Into);
    let pass1 = seed_destinations(empty, ident, reg.into_destinations, MappingStrategy::Into);
    lemma_seed_destinations_tags(pass1, reg, ident, reg.mapper_destinations, MappingStrategy::Mapper);
    let pass2 = seed_destinations(pass1, ident, reg.mapper_destinations, MappingStrategy::Mapper);
    assert(covers(pass2, reg)) by {
        assert forall|d: Seq<char>, st: MappingStrategy| #[trigger]
            reg.contains_pair(d, st) implies has_tree(pass2, d, st) by {
            match st {
                MappingStrategy::Into => {
                    assert(has_tree(pass1, d, MappingStrategy::Into));
                    let w = choose|w: int|
                        0 <= w < pass1.len() && (#[trigger] pass1[w]).destination == d
                            && pass1[w].strategy == MappingStrategy::Into;
                    assert(pass2[w].destination == d && pass2[w].strategy
                        == MappingStrategy::Into);
                },
                MappingStrategy::Mapper => {
                    assert(has_tree(pass2, d, MappingStrategy::Mapper));
                },
            }
        }
    }
    lemma_fields_tags(pass2, reg, ident, s.fields@);
}

/// The tree reached by upserting directive `d`'s entry for `st` into `t`.
pub open spec fn tree_upserted(
    t: MappingTreeView,
    f: Field,
    d: Params,
    st: MappingStrategy,
) -> MappingTreeView {
    MappingTreeView { mapping_fields: upsert_field(t.mapping_fields, directive_entry(f, d, st)), ..t }
}

/// The additive tree directive `d` creates for `(dst, st)`.
pub open spec fn new_additive_tree(
    ident: Seq<char>,
    dst: Seq<char>,
    st: MappingStrategy,
    f: Field,
    d: Params,
) -> MappingTreeView {
    MappingTreeView {
        ident,
        destination: dst,
        strategy: st,
        mapping_fields: seq![directive_entry(f, d, st)],
        mapping_type: Some(MappingType::Additive),
    }
}

/// Whether `pred` is preserved by every edit folding field `f` can make to
/// a tree, and holds of every tree that fold can create.
pub open spec fn pred_closed(
    pred: spec_fn(MappingTreeView) -> bool,
    ident: Seq<char>,
    f: Field,
) -> bool {
    &&& forall|t: MappingTreeView| pred(t) ==> #[trigger] pred(default_step(t, f))
    &&& forall|t: MappingTreeView, k: int|
        #![trigger pred(remove_step(t, f.member.deep_view())), f.attrs@[k]]
        0 <= k < f.attrs@.len() && f.attrs@[k].exclude.1 && f.attrs@[k].destination is None && pred(
            t,
        ) ==> pred(remove_step(t, f.member.deep_view()))
    &&& forall|t: MappingTreeView, k: int|
        #![trigger pred(remove_scoped_step(t, f.member.deep_view(), f.attrs@[k].destination.deep_view()->Some_0))]
        0 <= k < f.attrs@.len() && f.attrs@[k].exclude.1 && f.attrs@[k].destination is Some && pred(
            t,
        ) ==> pred(
            remove_scoped_step(
                t,
                f.member.deep_view(),
                f.attrs@[k].destination.deep_view()->Some_0,
            ),
        )
    &&& forall|t: MappingTreeView, k: int, st: MappingStrategy|
        #![trigger pred(tree_upserted(t, f, f.attrs@[k], st))]
        0 <= k < f.attrs@.len() && pred(t) ==> pred(tree_upserted(t, f, f.attrs@[k], st))
    &&& forall|k: int, st: MappingStrategy, dst: Seq<char>|
        #![trigger pred(new_additive_tree(ident, dst, st, f, f.attrs@[k]))]
        0 <= k < f.attrs@.len() ==> pred(new_additive_tree(ident, dst, st, f, f.attrs@[k]))
    &&& forall|t: MappingTreeView, dst: Seq<char>, rn: Seq<char>|
        #![trigger pred(rename_step(t, dst, f.member.deep_view(), rn))]
        pred(t) ==> pred(rename_step(t, dst, f.member.deep_view(), rn))
}

#[verifier::rlimit(100)]
#[verifier::spinoff_prover]
proof fn lemma_pred_strategies(
    trees: Seq<MappingTreeView>,
    ident: Seq<char>,
    f: Field,
    k: int,
    dest: Seq<char>,
    ss: Seq<MappingStrategy>,
    pred: spec_fn(MappingTreeView) -> bool,
)
    requires
        pred_closed(pred, ident, f),
        0 <= k < f.attrs@.len(),
        forall|i: int| 0 <= i < trees.len() ==> pred(#[trigger] trees[i]),
    ensures
        forall|i: int|
            0 <= i < apply_strategies(trees, ident, f, f.attrs@[k], dest, ss).len() ==> pred(
                #[trigger] apply_strategies(trees, ident, f, f.attrs@[k], dest, ss)[i],
            ),
    decreases ss.len(),
{
    if ss.len() > 0 {
        lemma_pred_strategies(trees, ident, f, k, dest, ss.drop_last(), pred);
        let d = f.attrs@[k];
        let prefix = apply_strategies(trees, ident, f, d, dest, ss.drop_last());
        let st = ss.last();
        lemma_find_tree_index(prefix, dest, st);
        match find_tree_index(prefix, dest, st) {
            Some(i) => {
                assert(pred(tree_upserted(prefix[i], f, f.attrs@[k], st)));
            },
            None => {
                assert(pred(new_additive_tree(ident, dest, st, f, f.attrs@[k])));
            },
        }
    }
}

#[verifier::rlimit(100)]
#[verifier::spinoff_prover]
proof fn lemma_pred_withs(
    trees: Seq<MappingTreeView>,
    ident: Seq<char>,
    f: Field,
    k: int,
    dest: Seq<char>,
    ws: Seq<(Option<Seq<char>>, MappingStrategy)>,
    pred: spec_fn(MappingTreeView) -> bool,
)
    requires
        pred_closed(pred, ident, f),
        0 <= k < f.attrs@.len(),
        forall|i: int| 0 <= i < trees.len() ==> pred(#[trigger] trees[i]),
    ensures
        forall|i: int|
            0 <= i < apply_withs(trees, f, f.attrs@[k], dest, ws).len() ==> pred(
                #[trigger] apply_withs(trees, f, f.attrs@[k], dest, ws)[i],
            ),
    decreases ws.len(),
{
    if ws.len() > 0 {
        lemma_pred_withs(trees, ident, f, k, dest, ws.drop_last(), pred);
        let d = f.attrs@[k];
        let prefix = apply_withs(trees, f, d, dest, ws.drop_last());
        let st = ws.last().1;
        lemma_find_tree_index(prefix, dest, st);
        match find_tree_index(prefix, dest, st) {
            Some(i) => {
                assert(pred(tree_upserted(prefix[i], f, f.attrs@[k], st)));
            },
            None => {},
        }
    }
}

#[verifier::rlimit(100)]
#[verifier::spinoff_prover]
proof fn lemma_pred_directive(
    trees: Seq<MappingTreeView>,
    ident: Seq<char>,
    f: Field,
    k: int,
    pred: spec_fn(MappingTreeView) -> bool,
)
    requires
        pred_closed(pred, ident, f),
        0 <= k < f.attrs@.len(),
        forall|i: int| 0 <= i < trees.len() ==> pred(#[trigger] trees[i]),
    ensures
        forall|i: int|
            0 <= i < apply_directive(trees, ident, f, f.attrs@[k]).len() ==> pred(
                #[trigger] apply_directive(trees, ident, f, f.attrs@[k])[i],
            ),
{
    let d = f.attrs@[k];
    if d.exclude.1 {
        match d.destination {
            None => {
                let post = trees.map_values(remove_step_fn(f.member.deep_view()));
                assert forall|i: int| 0 <= i < post.len() implies pred(#[trigger] post[i]) by {
                    assert(pred(trees[i]) && f.attrs@[k].exclude.1);
                    assert(post[i] == remove_step(trees[i], f.member.deep_view()));
                }
            },
            Some(dest) => {
                let post = trees.map_values(
                    remove_scoped_step_fn(f.member.deep_view(), dest@),
                );
                assert forall|i: int| 0 <= i < post.len() implies pred(#[trigger] post[i]) by {
                    assert(pred(trees[i]) && f.attrs@[k].exclude.1);
                    assert(f.attrs@[k].destination.deep_view()->Some_0 == dest@);
                    assert(post[i] == remove_scoped_step(
                        trees[i],
                        f.member.deep_view(),
                        f.attrs@[k].destination.deep_view()->Some_0,
                    ));
                }
            },
        }
    } else {
        match d.destination {
            None => {},
            Some(dest) => {
                lemma_pred_strategies(
                    trees,
                    ident,
                    f,
                    k,
                    dest@,
                    crate::attr::field::effective_strategies_of(d),
                    pred,
                );
                lemma_pred_withs(
                    apply_strategies(
                        trees,
                        ident,
                        f,
                        d,
                        dest@,
                        crate::attr::field::effective_strategies_of(d),
                    ),
                    ident,
                    f,
                    k,
                    dest@,
                    d.with.deep_view(),
                    pred,
                );
            },
        }
    }
}

#[verifier::rlimit(100)]
#[verifier::spinoff_prover]
proof fn lemma_pred_directives(
    trees: Seq<MappingTreeView>,
    ident: Seq<char>,
    f: Field,
    n: int,
    pred: spec_fn(MappingTreeView) -> bool,
)
    requires
        pred_closed(pred, ident, f),
        0 <= n <= f.attrs@.len(),
        forall|i: int| 0 <= i < trees.len() ==> pred(#[trigger] trees[i]),
    ensures
        forall|i: int|
            0 <= i < apply_directives(trees, ident, f, f.attrs@.take(n)).len() ==> pred(
                #[trigger] apply_directives(trees, ident, f, f.attrs@.take(n))[i],
            ),
    decreases n,
{
    if n > 0 {
        lemma_pred_directives(trees, ident, f, n - 1, pred);
        assert(f.attrs@.take(n).drop_last() =~= f.attrs@.take(n - 1));
        assert(f.attrs@.take(n).last() == f.attrs@[n - 1]);
        lemma_pred_directive(
            apply_directives(trees, ident, f, f.attrs@.take(n - 1)),
            ident,
            f,
            n - 1,
            pred,
        );
    }
}

#[verifier::rlimit(100)]
#[verifier::spinoff_prover]
proof fn lemma_pred_renames(
    trees: Seq<MappingTreeView>,
    ident: Seq<char>,
    f: Field,
    n: int,
    pred: spec_fn(MappingTreeView) -> bool,
)
    requires
        pred_closed(pred, ident, f),
        0 <= n <= f.attrs@.len(),
        forall|i: int| 0 <= i < trees.len() ==> pred(#[trigger] trees[i]),
    ensures
        forall|i: int|
            0 <= i < apply_renames(trees, f, f.attrs@.take(n)).len() ==> pred(
                #[trigger] apply_renames(trees, f, f.attrs@.take(n))[i],
            ),
    decreases n,
{
    if n > 0 {
        lemma_pred_renames(trees, ident, f, n - 1, pred);
        assert(f.attrs@.take(n).drop_last() =~= f.attrs@.take(n - 1));
        assert(f.attrs@.take(n).last() == f.attrs@[n - 1]);
        let d = f.attrs@[n - 1];
        let prefix = apply_renames(trees, f, f.attrs@.take(n - 1));
        if rename_applies(d) {
            let post = prefix.map_values(
                rename_step_fn(
                    d.destination.deep_view()->Some_0,
                    f.member.deep_view(),
                    d.field.deep_view()->Some_0,
                ),
            );
            assert forall|i: int| 0 <= i < post.len() implies pred(#[trigger] post[i]) by {
                assert(pred(prefix[i]));
                assert(post[i] == rename_step(
                    prefix[i],
                    d.destination.deep_view()->Some_0,
                    f.member.deep_view(),
                    d.field.deep_view()->Some_0,
                ));
            }
        }
    }
}

/// Every edit of one field's fold keeps `pred` across the whole tree set.
#[verifier::rlimit(100)]
#[verifier::spinoff_prover]
proof fn lemma_pred_field(
    trees: Seq<MappingTreeView>,
    ident: Seq<char>,
    f: Field,
    pred: spec_fn(MappingTreeView) -> bool,
)
    requires
        pred_closed(pred, ident, f),
        forall|i: int| 0 <= i < trees.len() ==> pred(#[trigger] trees[i]),
    ensures
        forall|i: int|
            0 <= i < apply_field(trees, ident, f).len() ==> pred(
                #[trigger] apply_field(trees, ident, f)[i],
            ),
{
    let defaulted = apply_defaults(trees, f);
    assert forall|i: int| 0 <= i < defaulted.len() implies pred(#[trigger] defaulted[i]) by {
        assert(pred(trees[i]));
        assert(defaulted[i] == default_step(trees[i], f));
    }
    lemma_pred_directives(defaulted, ident, f, f.attrs@.len() as int, pred);
    assert(f.attrs@.take(f.attrs@.len() as int) =~= f.attrs@);
    lemma_pred_renames(apply_directives(defaulted, ident, f, f.attrs@), ident, f, f.attrs@.len() as int, pred);
}

/// `pred` survives the whole field fold when it is closed under every
/// field's edits.
#[verifier::rlimit(100)]
#[verifier::spinoff_prover]
proof fn lemma_pred_fields(
    trees: Seq<MappingTreeView>,
    ident: Seq<char>,
    fs: Seq<Field>,
    pred: spec_fn(MappingTreeView) -> bool,
)
    requires
        forall|k: int| 0 <= k < fs.len() ==> #[trigger] pred_closed(pred, ident, fs[k]),
        forall|i: int| 0 <= i < trees.len() ==> pred(#[trigger] trees[i]),
    ensures
        forall|i: int|
            0 <= i < apply_fields(trees, ident, fs).len() ==> pred(
                #[trigger] apply_fields(trees, ident, fs)[i],
            ),
    decreases fs.len(),
{
    if fs.len() > 0 {
        lemma_pred_fields(trees, ident, fs.drop_last(), pred);
        assert(pred_closed(pred, ident, fs[fs.len() - 1]));
        lemma_pred_field(apply_fields(trees, ident, fs.drop_last()), ident, fs.last(), pred);
    }
}

/// Tree entries stay uniquely keyed: the closure facts.
pub open spec fn pred_unique() -> spec_fn(MappingTreeView) -> bool {
    |t: MappingTreeView| unique_members(t.mapping_fields)
}

/// Member `m` stays absent from every tree.
pub open spec fn pred_absent(m: MemberView) -> spec_fn(MappingTreeView) -> bool {
    |t: MappingTreeView| !has_member(t.mapping_fields, m)
}

/// Member `m` stays absent from every tree of destination `dest`.
pub open spec fn pred_absent_for(dest: Seq<char>, m: MemberView) -> spec_fn(MappingTreeView) -> bool {
    |t: MappingTreeView| t.destination == dest ==> !has_member(t.mapping_fields, m)
}

/// Member `m` is present in the automatic tree keyed `(dest, strategy)`.
pub open spec fn pred_present(dest: Seq<char>, strategy: MappingStrategy, m: MemberView) -> spec_fn(
    MappingTreeView,
) -> bool {
    |t: MappingTreeView|
        (t.destination == dest && t.strategy == strategy && t.mapping_type == Some(
            MappingType::Automatic,
        )) ==> has_member(t.mapping_fields, m)
}

proof fn lemma_pred_closed_unique(ident: Seq<char>, f: Field)
    ensures
        pred_closed(pred_unique(), ident, f),
{
    let pred = pred_unique();
    assert forall|t: MappingTreeView| pred(t) implies #[trigger] pred(default_step(t, f)) by {
        lemma_upsert_member_sets(
            t.mapping_fields,
            crate::resolve::default_entry(f, t.strategy),
            f.member.deep_view(),
        );
    }
    assert forall|t: MappingTreeView, k: int|
        #![trigger pred(remove_step(t, f.member.deep_view())), f.attrs@[k]]
        0 <= k < f.attrs@.len() && f.attrs@[k].exclude.1 && f.attrs@[k].destination is None && pred(
            t,
        ) implies pred(remove_step(t, f.member.deep_view())) by {
        lemma_remove_member_sets(t.mapping_fields, f.member.deep_view(), f.member.deep_view());
    }
    assert forall|t: MappingTreeView, k: int|
        0 <= k < f.attrs@.len() && f.attrs@[k].exclude.1 && f.attrs@[k].destination is Some && pred(
            t,
        ) implies #[trigger] pred(
        remove_scoped_step(t, f.member.deep_view(), f.attrs@[k].destination.deep_view()->Some_0),
    ) by {
        lemma_remove_member_sets(t.mapping_fields, f.member.deep_view(), f.member.deep_view());
    }
    assert forall|t: MappingTreeView, k: int, st: MappingStrategy|
        0 <= k < f.attrs@.len() && pred(t) implies #[trigger] pred(
        tree_upserted(t, f, f.attrs@[k], st),
    ) by {
        lemma_upsert_member_sets(
            t.mapping_fields,
            directive_entry(f, f.attrs@[k], st),
            f.member.deep_view(),
        );
    }
    assert forall|k: int, st: MappingStrategy, dst: Seq<char>|
        0 <= k < f.attrs@.len() implies #[trigger] pred(
        new_additive_tree(ident, dst, st, f, f.attrs@[k]),
    ) by {
        let fields = seq![directive_entry(f, f.attrs@[k], st)];
        assert(unique_members(fields));
    }
    assert forall|t: MappingTreeView, dst: Seq<char>, rn: Seq<char>| pred(t) implies #[trigger] pred(
        rename_step(t, dst, f.member.deep_view(), rn),
    ) by {
        lemma_rename_member_sets(t.mapping_fields, f.member.deep_view(), rn, f.member.deep_view());
    }
}

/// Every tree of every resolution keeps at most one entry per member.
pub proof fn lemma_resolution_unique_members(s: Struct)
    ensures
        forall|i: int|
            0 <= i < spec_resolve(s).len() ==> unique_members(
                (#[trigger] spec_resolve(s)[i]).mapping_fields,
            ),
{
    let pred = pred_unique();
    let reg = s.attrs.deep_view();
    let ident = s.ident@;
    let empty = Seq::<MappingTreeView>::empty();
    lemma_seed_destinations_tags(empty, reg, ident, reg.into_destinations, MappingStrategy::Into);
    let pass1 = seed_destinations(empty, ident, reg.into_destinations, MappingStrategy::Into);
    lemma_seed_destinations_tags(pass1, reg, ident, reg.mapper_destinations, MappingStrategy::Mapper);
    let pass2 = seed_destinations(pass1, ident, reg.mapper_destinations, MappingStrategy::Mapper);
    assert forall|i: int| 0 <= i < pass2.len() implies pred(#[trigger] pass2[i]) by {
        if i < pass1.len() {
            assert(pass2[i] == pass1[i]);
            assert(pass1[i].mapping_fields == Seq::<MappingFieldView>::empty());
        } else {
            assert(pass2[i].mapping_fields == Seq::<MappingFieldView>::empty());
        }
    }
    assert forall|k: int| 0 <= k < s.fields@.len() implies #[trigger] pred_closed(
        pred,
        ident,
        s.fields@[k],
    ) by {
        lemma_pred_closed_unique(ident, s.fields@[k]);
    }
    lemma_pred_fields(pass2, ident, s.fields@, pred);
}

/// A field other than `m`'s owner never touches entries keyed `m`.
proof fn lemma_pred_closed_absent(ident: Seq<char>, g: Field, m: MemberView)
    requires
        g.member.deep_view() != m,
    ensures
        pred_closed(pred_absent(m), ident, g),
{
    let pred = pred_absent(m);
    assert forall|t: MappingTreeView| pred(t) implies #[trigger] pred(default_step(t, g)) by {
        lemma_upsert_member_sets(
            t.mapping_fields,
            crate::resolve::default_entry(g, t.strategy),
            m,
        );
    }
    assert forall|t: MappingTreeView, k: int|
        #![trigger pred(remove_step(t, g.member.deep_view())), g.attrs@[k]]
        0 <= k < g.attrs@.len() && g.attrs@[k].exclude.1 && g.attrs@[k].destination is None && pred(
            t,
        ) implies pred(remove_step(t, g.member.deep_view())) by {
        lemma_remove_member_sets(t.mapping_fields, g.member.deep_view(), m);
    }
    assert forall|t: MappingTreeView, k: int|
        0 <= k < g.attrs@.len() && g.attrs@[k].exclude.1 && g.attrs@[k].destination is Some && pred(
            t,
        ) implies #[trigger] pred(
        remove_scoped_step(t, g.member.deep_view(), g.attrs@[k].destination.deep_view()->Some_0),
    ) by {
        lemma_remove_member_sets(t.mapping_fields, g.member.deep_view(), m);
    }
    assert forall|t: MappingTreeView, k: int, st: MappingStrategy|
        0 <= k < g.attrs@.len() && pred(t) implies #[trigger] pred(
        tree_upserted(t, g, g.attrs@[k], st),
    ) by {
        lemma_upsert_member_sets(t.mapping_fields, directive_entry(g, g.attrs@[k], st), m);
    }
    assert forall|k: int, st: MappingStrategy, dst: Seq<char>|
        0 <= k < g.attrs@.len() implies #[trigger] pred(
        new_additive_tree(ident, dst, st, g, g.attrs@[k]),
    ) by {
        let fields = seq![directive_entry(g, g.attrs@[k], st)];
        if has_member(fields, m) {
            let w = choose|w: int| 0 <= w < fields.len() && #[trigger] fields[w].member == m;
            assert(false);
        }
    }
    assert forall|t: MappingTreeView, dst: Seq<char>, rn: Seq<char>| pred(t) implies #[trigger] pred(
        rename_step(t, dst, g.member.deep_view(), rn),
    ) by {
        lemma_rename_member_sets(t.mapping_fields, g.member.deep_view(), rn, m);
    }
}

/// Folding an exclusion-only directive suffix that starts with an
/// unconditional exclusion leaves no entry for the field's member anywhere.
proof fn lemma_dirs_absent(
    trees: Seq<MappingTreeView>,
    ident: Seq<char>,
    f: Field,
    n: int,
    e: int,
    m: MemberView,
)
    requires
        m == f.member.deep_view(),
        0 <= e < n <= f.attrs@.len(),
        f.attrs@[e].exclude.1,
        f.attrs@[e].destination is None,
        forall|j: int| e < j < n ==> (#[trigger] f.attrs@[j]).exclude.1,
    ensures
        forall|i: int|
            0 <= i < apply_directives(trees, ident, f, f.attrs@.take(n)).len() ==> !has_member(
                (#[trigger] apply_directives(trees, ident, f, f.attrs@.take(n))[i]).mapping_fields,
                m,
            ),
    decreases n,
{
    assert(f.attrs@.take(n).drop_last() =~= f.attrs@.take(n - 1));
    assert(f.attrs@.take(n).last() == f.attrs@[n - 1]);
    let prefix = apply_directives(trees, ident, f, f.attrs@.take(n - 1));
    let d = f.attrs@[n - 1];
    let post = apply_directives(trees, ident, f, f.attrs@.take(n));
    if n - 1 == e {
        assert(post == prefix.map_values(remove_step_fn(m)));
        assert forall|i: int| 0 <= i < post.len() implies !has_member(
            (#[trigger] post[i]).mapping_fields,
            m,
        ) by {
            assert(post[i] == remove_step(prefix[i], m));
            lemma_remove_member_sets(prefix[i].mapping_fields, m, m);
        }
    } else {
        lemma_dirs_absent(trees, ident, f, n - 1, e, m);
        assert(d.exclude.1);
        match d.destination {
            None => {
                assert(post == prefix.map_values(remove_step_fn(m)));
                assert forall|i: int| 0 <= i < post.len() implies !has_member(
                    (#[trigger] post[i]).mapping_fields,
                    m,
                ) by {
                    assert(post[i] == remove_step(prefix[i], m));
                    lemma_remove_member_sets(prefix[i].mapping_fields, m, m);
                }
            },
            Some(dest) => {
                assert(post == prefix.map_values(remove_scoped_step_fn(m, dest@)));
                assert forall|i: int| 0 <= i < post.len() implies !has_member(
                    (#[trigger] post[i]).mapping_fields,
                    m,
                ) by {
                    assert(post[i] == remove_scoped_step(prefix[i], m, dest@));
                    assert(!has_member(prefix[i].mapping_fields, m));
                    lemma_remove_member_sets(prefix[i].mapping_fields, m, m);
                }
            },
        }
    }
}

/// Renames keep an absent member absent.
proof fn lemma_renames_keep_absent(
    trees: Seq<MappingTreeView>,
    f: Field,
    n: int,
    m: MemberView,
)
    requires
        0 <= n <= f.attrs@.len(),
        forall|i: int|
            0 <= i < trees.len() ==> !has_member((#[trigger] trees[i]).mapping_fields, m),
    ensures
        forall|i: int|
            0 <= i < apply_renames(trees, f, f.attrs@.take(n)).len() ==> !has_member(
                (#[trigger] apply_renames(trees, f, f.attrs@.take(n))[i]).mapping_fields,
                m,
            ),
    decreases n,
{
    if n > 0 {
        lemma_renames_keep_absent(trees, f, n - 1, m);
        assert(f.attrs@.take(n).drop_last() =~= f.attrs@.take(n - 1));
        assert(f.attrs@.take(n).last() == f.attrs@[n - 1]);
        let prefix = apply_renames(trees, f, f.attrs@.take(n - 1));
        let d = f.attrs@[n - 1];
        if rename_applies(d) {
            let post = apply_renames(trees, f, f.attrs@.take(n));
            assert forall|i: int| 0 <= i < post.len() implies !has_member(
                (#[trigger] post[i]).mapping_fields,
                m,
            ) by {
                assert(post[i] == rename_step(
                    prefix[i],
                    d.destination.deep_view()->Some_0,
                    f.member.deep_view(),
                    d.field.deep_view()->Some_0,
                ));
                lemma_rename_member_sets(
                    prefix[i].mapping_fields,
                    f.member.deep_view(),
                    d.field.deep_view()->Some_0,
                    m,
                );
            }
        }
    }
}

proof fn lemma_fields_absent(
    trees: Seq<MappingTreeView>,
    ident: Seq<char>,
    fs: Seq<Field>,
    fi: int,
    e: int,
    m: MemberView,
)
    requires
        distinct_members(fs),
        0 <= fi < fs.len(),
        m == fs[fi].member.deep_view(),
        0 <= e < fs[fi].attrs@.len(),
        fs[fi].attrs@[e].exclude.1,
        fs[fi].attrs@[e].destination is None,
        forall|j: int| e < j < fs[fi].attrs@.len() ==> (#[trigger] fs[fi].attrs@[j]).exclude.1,
    ensures
        forall|i: int|
            0 <= i < apply_fields(trees, ident, fs).len() ==> !has_member(
                (#[trigger] apply_fields(trees, ident, fs)[i]).mapping_fields,
                m,
            ),
    decreases fs.len(),
{
    let f = fs[fi];
    let prev = apply_fields(trees, ident, fs.drop_last());
    if fi == fs.len() - 1 {
        let defaulted = apply_defaults(prev, f);
        lemma_dirs_absent(defaulted, ident, f, f.attrs@.len() as int, e, m);
        assert(f.attrs@.take(f.attrs@.len() as int) =~= f.attrs@);
        lemma_renames_keep_absent(
            apply_directives(defaulted, ident, f, f.attrs@),
            f,
            f.attrs@.len() as int,
            m,
        );
    } else {
        assert(distinct_members(fs.drop_last()));
        assert(fs.drop_last()[fi] == fs[fi]);
        lemma_fields_absent(trees, ident, fs.drop_last(), fi, e, m);
        let g = fs.last();
        assert(g.member.deep_view() != m);
        lemma_pred_closed_absent(ident, g, m);
        lemma_pred_field(prev, ident, g, pred_absent(m));
        let post = apply_fields(trees, ident, fs);
        assert forall|i: int| 0 <= i < post.len() implies !has_member(
            (#[trigger] post[i]).mapping_fields,
            m,
        ) by {
            assert(pred_absent(m)(post[i]));
        }
    }
}

/// A field carrying an unconditional exclude directive, followed only by
/// exclusions, appears in no mapping tree, for any destination or strategy.
pub proof fn lemma_unconditional_exclusion(s: Struct, fi: int, e: int)
    requires
        distinct_members(s.fields@),
        0 <= fi < s.fields@.len(),
        0 <= e < s.fields@[fi].attrs@.len(),
        s.fields@[fi].attrs@[e].exclude.1,
        s.fields@[fi].attrs@[e].destination is None,
        forall|j: int|
            e < j < s.fields@[fi].attrs@.len() ==> (#[trigger] s.fields@[fi].attrs@[j]).exclude.1,
    ensures
        forall|i: int|
            0 <= i < spec_resolve(s).len() ==> !has_member(
                (#[trigger] spec_resolve(s)[i]).mapping_fields,
                s.fields@[fi].member.deep_view(),
            ),
{
    lemma_fields_absent(
        seed(s.ident@, s.attrs.deep_view()),
        s.ident@,
        s.fields@,
        fi,
        e,
        s.fields@[fi].member.deep_view(),
    );
}

/// A field other than `m`'s owner keeps `m` present wherever it was.
proof fn lemma_pred_closed_present_other(
    ident: Seq<char>,
    g: Field,
    dest: Seq<char>,
    strategy: MappingStrategy,
    m: MemberView,
)
    requires
        g.member.deep_view() != m,
    ensures
        pred_closed(pred_present(dest, strategy, m), ident, g),
{
    let pred = pred_present(dest, strategy, m);
    assert forall|t: MappingTreeView| pred(t) implies #[trigger] pred(default_step(t, g)) by {
        lemma_upsert_member_sets(
            t.mapping_fields,
            crate::resolve::default_entry(g, t.strategy),
            m,
        );
    }
    assert forall|t: MappingTreeView, k: int|
        #![trigger pred(remove_step(t, g.member.deep_view())), g.attrs@[k]]
        0 <= k < g.attrs@.len() && g.attrs@[k].exclude.1 && g.attrs@[k].destination is None && pred(
            t,
        ) implies pred(remove_step(t, g.member.deep_view())) by {
        lemma_remove_member_sets(t.mapping_fields, g.member.deep_view(), m);
    }
    assert forall|t: MappingTreeView, k: int|
        0 <= k < g.attrs@.len() && g.attrs@[k].exclude.1 && g.attrs@[k].destination is Some && pred(
            t,
        ) implies #[trigger] pred(
        remove_scoped_step(t, g.member.deep_view(), g.attrs@[k].destination.deep_view()->Some_0),
    ) by {
        lemma_remove_member_sets(t.mapping_fields, g.member.deep_view(), m);
    }
    assert forall|t: MappingTreeView, k: int, st: MappingStrategy|
        0 <= k < g.attrs@.len() && pred(t) implies #[trigger] pred(
        tree_upserted(t, g, g.attrs@[k], st),
    ) by {
        lemma_upsert_member_sets(t.mapping_fields, directive_entry(g, g.attrs@[k], st), m);
    }
    assert forall|k: int, st: MappingStrategy, dst: Seq<char>|
        0 <= k < g.attrs@.len() implies #[trigger] pred(
        new_additive_tree(ident, dst, st, g, g.attrs@[k]),
    ) by {}
    assert forall|t: MappingTreeView, dst: Seq<char>, rn: Seq<char>| pred(t) implies #[trigger] pred(
        rename_step(t, dst, g.member.deep_view(), rn),
    ) by {
        lemma_rename_member_sets(t.mapping_fields, g.member.deep_view(), rn, m);
    }
}

/// The owner of `m` keeps `m` present in the automatic tree of a
/// destination it does not exclude.
proof fn lemma_pred_closed_present_self(
    ident: Seq<char>,
    f: Field,
    dest: Seq<char>,
    strategy: MappingStrategy,
    m: MemberView,
)
    requires
        m == f.member.deep_view(),
        !spec_field_excluded(f, dest),
    ensures
        pred_closed(pred_present(dest, strategy, m), ident, f),
{
    let pred = pred_present(dest, strategy, m);
    assert forall|t: MappingTreeView| pred(t) implies #[trigger] pred(default_step(t, f)) by {
        lemma_upsert_member_sets(
            t.mapping_fields,
            crate::resolve::default_entry(f, t.strategy),
            m,
        );
    }
    assert forall|t: MappingTreeView, k: int|
        #![trigger pred(remove_step(t, f.member.deep_view())), f.attrs@[k]]
        0 <= k < f.attrs@.len() && f.attrs@[k].exclude.1 && f.attrs@[k].destination is None && pred(
            t,
        ) implies pred(remove_step(t, f.member.deep_view())) by {
        assert(crate::attr::field::spec_excludes_for_destination(f.attrs@[k], dest));
        assert(false);
    }
    assert forall|t: MappingTreeView, k: int|
        0 <= k < f.attrs@.len() && f.attrs@[k].exclude.1 && f.attrs@[k].destination is Some && pred(
            t,
        ) implies #[trigger] pred(
        remove_scoped_step(t, f.member.deep_view(), f.attrs@[k].destination.deep_view()->Some_0),
    ) by {
        let dst = f.attrs@[k].destination.deep_view()->Some_0;
        if dst == dest {
            assert(crate::attr::field::spec_excludes_for_destination(f.attrs@[k], dest));
            assert(false);
        }
    }
    assert forall|t: MappingTreeView, k: int, st: MappingStrategy|
        0 <= k < f.attrs@.len() && pred(t) implies #[trigger] pred(
        tree_upserted(t, f, f.attrs@[k], st),
    ) by {
        lemma_upsert_member_sets(t.mapping_fields, directive_entry(f, f.attrs@[k], st), m);
    }
    assert forall|k: int, st: MappingStrategy, dst: Seq<char>|
        0 <= k < f.attrs@.len() implies #[trigger] pred(
        new_additive_tree(ident, dst, st, f, f.attrs@[k]),
    ) by {}
    assert forall|t: MappingTreeView, dst: Seq<char>, rn: Seq<char>| pred(t) implies #[trigger] pred(
        rename_step(t, dst, f.member.deep_view(), rn),
    ) by {
        lemma_rename_member_sets(t.mapping_fields, f.member.deep_view(), rn, m);
    }
}

/// Folding a field establishes its entry in every automatic tree of a
/// destination it does not exclude.
proof fn lemma_field_establish_present(
    trees: Seq<MappingTreeView>,
    ident: Seq<char>,
    f: Field,
    dest: Seq<char>,
    strategy: MappingStrategy,
    m: MemberView,
)
    requires
        m == f.member.deep_view(),
        !spec_field_excluded(f, dest),
    ensures
        forall|i: int|
            0 <= i < apply_field(trees, ident, f).len() ==> pred_present(dest, strategy, m)(
                #[trigger] apply_field(trees, ident, f)[i],
            ),
{
    let pred = pred_present(dest, strategy, m);
    let defaulted = apply_defaults(trees, f);
    assert forall|i: int| 0 <= i < defaulted.len() implies pred(#[trigger] defaulted[i]) by {
        assert(defaulted[i] == default_step(trees[i], f));
        if defaulted[i].destination == dest && defaulted[i].strategy == strategy
            && defaulted[i].mapping_type == Some(MappingType::Automatic) {
            lemma_upsert_member_sets(
                trees[i].mapping_fields,
                crate::resolve::default_entry(f, trees[i].strategy),
                m,
            );
        }
    }
    lemma_pred_closed_present_self(ident, f, dest, strategy, m);
    lemma_pred_directives(defaulted, ident, f, f.attrs@.len() as int, pred);
    assert(f.attrs@.take(f.attrs@.len() as int) =~= f.attrs@);
    lemma_pred_renames(
        apply_directives(defaulted, ident, f, f.attrs@),
        ident,
        f,
        f.attrs@.len() as int,
        pred,
    );
}

proof fn lemma_fields_present(
    trees: Seq<MappingTreeView>,
    ident: Seq<char>,
    fs: Seq<Field>,
    fi: int,
    dest: Seq<char>,
    strategy: MappingStrategy,
    m: MemberView,
)
    requires
        distinct_members(fs),
        0 <= fi < fs.len(),
        m == fs[fi].member.deep_view(),
        !spec_field_excluded(fs[fi], dest),
    ensures
        forall|i: int|
            0 <= i < apply_fields(trees, ident, fs).len() ==> pred_present(dest, strategy, m)(
                #[trigger] apply_fields(trees, ident, fs)[i],
            ),
    decreases fs.len(),
{
    let prev = apply_fields(trees, ident, fs.drop_last());
    if fi == fs.len() - 1 {
        lemma_field_establish_present(prev, ident, fs[fi], dest, strategy, m);
    } else {
        assert(distinct_members(fs.drop_last()));
        assert(fs.drop_last()[fi] == fs[fi]);
        lemma_fields_present(trees, ident, fs.drop_last(), fi, dest, strategy, m);
        let g = fs.last();
        assert(g.member.deep_view() != m);
        lemma_pred_closed_present_other(ident, g, dest, strategy, m);
        lemma_pred_field(prev, ident, g, pred_present(dest, strategy, m));
    }
}

/// Automatic completeness: for a registered (destination, strategy) pair and
/// a field that does not exclude that destination, the resolved tree for the
/// pair exists, is tagged automatic, and holds exactly one entry for the
/// field's member.
///
/// The distinct-members hypothesis is needed: entries are keyed by member
/// identity, so a descriptor in which two fields share a member (no real
/// record has one) collapses them into one entry, and an exclusion on one
/// such field removes the other's entry with it.
pub proof fn lemma_automatic_completeness(
    s: Struct,
    dest: Seq<char>,
    strategy: MappingStrategy,
    fi: int,
)
    requires
        distinct_members(s.fields@),
        s.attrs.deep_view().contains_pair(dest, strategy),
        0 <= fi < s.fields@.len(),
        !spec_field_excluded(s.fields@[fi], dest),
    ensures
        find_tree_index(spec_resolve(s), dest, strategy) is Some,
        ({
            let trees = spec_resolve(s);
            let ti = find_tree_index(trees, dest, strategy)->Some_0;
            let m = s.fields@[fi].member.deep_view();
            &&& trees[ti].mapping_type == Some(MappingType::Automatic)
            &&& has_member(trees[ti].mapping_fields, m)
            &&& unique_members(trees[ti].mapping_fields)
        }),
{
    let trees = spec_resolve(s);
    let m = s.fields@[fi].member.deep_view();
    lemma_mutual_exclusivity_trees(s);
    assert(has_tree(trees, dest, strategy));
    lemma_find_tree_index(trees, dest, strategy);
    if find_tree_index(trees, dest, strategy) is None {
        let w = choose|w: int|
            0 <= w < trees.len() && (#[trigger] trees[w]).destination == dest && trees[w].strategy
                == strategy;
        assert(false);
    }
    let ti = find_tree_index(trees, dest, strategy)->Some_0;
    lemma_fields_present(
        seed(s.ident@, s.attrs.deep_view()),
        s.ident@,
        s.fields@,
        fi,
        dest,
        strategy,
        m,
    );
    assert(pred_present(dest, strategy, m)(trees[ti]));
    lemma_resolution_unique_members(s);
}

/// A field other than `m`'s owner keeps `m` out of `dest`'s trees.
proof fn lemma_pred_closed_absent_for(ident: Seq<char>, g: Field, dest: Seq<char>, m: MemberView)
    requires
        g.member.deep_view() != m,
    ensures
        pred_closed(pred_absent_for(dest, m), ident, g),
{
    let pred = pred_absent_for(dest, m);
    assert forall|t: MappingTreeView| pred(t) implies #[trigger] pred(default_step(t, g)) by {
        lemma_upsert_member_sets(
            t.mapping_fields,
            crate::resolve::default_entry(g, t.strategy),
            m,
        );
    }
    assert forall|t: MappingTreeView, k: int|
        #![trigger pred(remove_step(t, g.member.deep_view())), g.attrs@[k]]
        0 <= k < g.attrs@.len() && g.attrs@[k].exclude.1 && g.attrs@[k].destination is None && pred(
            t,
        ) implies pred(remove_step(t, g.member.deep_view())) by {
        lemma_remove_member_sets(t.mapping_fields, g.member.deep_view(), m);
    }
    assert forall|t: MappingTreeView, k: int|
        0 <= k < g.attrs@.len() && g.attrs@[k].exclude.1 && g.attrs@[k].destination is Some && pred(
            t,
        ) implies #[trigger] pred(
        remove_scoped_step(t, g.member.deep_view(), g.attrs@[k].destination.deep_view()->Some_0),
    ) by {
        lemma_remove_member_sets(t.mapping_fields, g.member.deep_view(), m);
    }
    assert forall|t: MappingTreeView, k: int, st: MappingStrategy|
        0 <= k < g.attrs@.len() && pred(t) implies #[trigger] pred(
        tree_upserted(t, g, g.attrs@[k], st),
    ) by {
        lemma_upsert_member_sets(t.mapping_fields, directive_entry(g, g.attrs@[k], st), m);
    }
    assert forall|k: int, st: MappingStrategy, dst: Seq<char>|
        0 <= k < g.attrs@.len() implies #[trigger] pred(
        new_additive_tree(ident, dst, st, g, g.attrs@[k]),
    ) by {
        let fields = seq![directive_entry(g, g.attrs@[k], st)];
        if has_member(fields, m) {
            let w = choose|w: int| 0 <= w < fields.len() && #[trigger] fields[w].member == m;
            assert(false);
        }
    }
    assert forall|t: MappingTreeView, dst: Seq<char>, rn: Seq<char>| pred(t) implies #[trigger] pred(
        rename_step(t, dst, g.member.deep_view(), rn),
    ) by {
        lemma_rename_member_sets(t.mapping_fields, g.member.deep_view(), rn, m);
    }
}

proof fn lemma_strategies_scoped_absent(
    trees: Seq<MappingTreeView>,
    ident: Seq<char>,
    f: Field,
    d: Params,
    other: Seq<char>,
    ss: Seq<MappingStrategy>,
    dest: Seq<char>,
    m: MemberView,
)
    requires
        other != dest,
        forall|i: int|
            0 <= i < trees.len() ==> pred_absent_for(dest, m)(#[trigger] trees[i]),
    ensures
        forall|i: int|
            0 <= i < apply_strategies(trees, ident, f, d, other, ss).len() ==> pred_absent_for(
                dest,
                m,
            )(#[trigger] apply_strategies(trees, ident, f, d, other, ss)[i]),
    decreases ss.len(),
{
    if ss.len() > 0 {
        lemma_strategies_scoped_absent(trees, ident, f, d, other, ss.drop_last(), dest, m);
        let prefix = apply_strategies(trees, ident, f, d, other, ss.drop_last());
        let st = ss.last();
        lemma_find_tree_index(prefix, other, st);
        let post = apply_strategies(trees, ident, f, d, other, ss);
        assert forall|i: int| 0 <= i < post.len() implies pred_absent_for(dest, m)(
            #[trigger] post[i],
        ) by {
            match find_tree_index(prefix, other, st) {
                Some(w) => {
                    if i == w {
                        assert(post[i].destination == other);
                    } else {
                        assert(post[i] == prefix[i]);
                        assert(pred_absent_for(dest, m)(prefix[i]));
                    }
                },
                None => {
                    if i < prefix.len() {
                        assert(post[i] == prefix[i]);
                        assert(pred_absent_for(dest, m)(prefix[i]));
                    } else {
                        assert(post[i].destination == other);
                    }
                },
            }
        }
    }
}

proof fn lemma_withs_scoped_absent(
    trees: Seq<MappingTreeView>,
    f: Field,
    d: Params,
    other: Seq<char>,
    ws: Seq<(Option<Seq<char>>, MappingStrategy)>,
    dest: Seq<char>,
    m: MemberView,
)
    requires
        other != dest,
        forall|i: int|
            0 <= i < trees.len() ==> pred_absent_for(dest, m)(#[trigger] trees[i]),
    ensures
        forall|i: int|
            0 <= i < apply_withs(trees, f, d, other, ws).len() ==> pred_absent_for(dest, m)(
                #[trigger] apply_withs(trees, f, d, other, ws)[i],
            ),
    decreases ws.len(),
{
    if ws.len() > 0 {
        lemma_withs_scoped_absent(trees, f, d, other, ws.drop_last(), dest, m);
        let prefix = apply_withs(trees, f, d, other, ws.drop_last());
        let st = ws.last().1;
        lemma_find_tree_index(prefix, other, st);
        let post = apply_withs(trees, f, d, other, ws);
        assert forall|i: int| 0 <= i < post.len() implies pred_absent_for(dest, m)(
            #[trigger] post[i],
        ) by {
            match find_tree_index(prefix, other, st) {
                Some(w) => {
                    if i == w {
                        assert(post[i].destination == other);
                    } else {
                        assert(post[i] == prefix[i]);
                        assert(pred_absent_for(dest, m)(prefix[i]));
                    }
                },
                None => {
                    assert(post[i] == prefix[i]);
                    assert(pred_absent_for(dest, m)(prefix[i]));
                },
            }
        }
    }
}

/// Folding a directive suffix that starts with a `dest`-scoped exclusion and
/// never re-adds for `dest` leaves the member out of `dest`'s trees.
proof fn lemma_dirs_scoped_absent(
    trees: Seq<MappingTreeView>,
    ident: Seq<char>,
    f: Field,
    n: int,
    e: int,
    dest: Seq<char>,
    m: MemberView,
)
    requires
        m == f.member.deep_view(),
        0 <= e < n <= f.attrs@.len(),
        f.attrs@[e].exclude.1,
        f.attrs@[e].destination is Some,
        f.attrs@[e].destination.deep_view()->Some_0 == dest,
        forall|j: int|
            e < j < n ==> ((#[trigger] f.attrs@[j]).exclude.1 || f.attrs@[j].destination is None
                || f.attrs@[j].destination.deep_view()->Some_0 != dest),
    ensures
        forall|i: int|
            0 <= i < apply_directives(trees, ident, f, f.attrs@.take(n)).len() ==> pred_absent_for(
                dest,
                m,
            )(#[trigger] apply_directives(trees, ident, f, f.attrs@.take(n))[i]),
    decreases n,
{
    assert(f.attrs@.take(n).drop_last() =~= f.attrs@.take(n - 1));
    assert(f.attrs@.take(n).last() == f.attrs@[n - 1]);
    let prefix = apply_directives(trees, ident, f, f.attrs@.take(n - 1));
    let d = f.attrs@[n - 1];
    let post = apply_directives(trees, ident, f, f.attrs@.take(n));
    if n - 1 == e {
        let dst = d.destination->Some_0;
        assert(post == prefix.map_values(remove_scoped_step_fn(m, dst@)));
        assert forall|i: int| 0 <= i < post.len() implies pred_absent_for(dest, m)(
            #[trigger] post[i],
        ) by {
            assert(post[i] == remove_scoped_step(prefix[i], m, dst@));
            lemma_remove_member_sets(prefix[i].mapping_fields, m, m);
        }
    } else {
        lemma_dirs_scoped_absent(trees, ident, f, n - 1, e, dest, m);
        if d.exclude.1 {
            match d.destination {
                None => {
                    assert(post == prefix.map_values(remove_step_fn(m)));
                    assert forall|i: int| 0 <= i < post.len() implies pred_absent_for(dest, m)(
                        #[trigger] post[i],
                    ) by {
                        assert(post[i] == remove_step(prefix[i], m));
                        lemma_remove_member_sets(prefix[i].mapping_fields, m, m);
                    }
                },
                Some(dst) => {
                    assert(post == prefix.map_values(remove_scoped_step_fn(m, dst@)));
                    assert forall|i: int| 0 <= i < post.len() implies pred_absent_for(dest, m)(
                        #[trigger] post[i],
                    ) by {
                        assert(post[i] == remove_scoped_step(prefix[i], m, dst@));
                        assert(pred_absent_for(dest, m)(prefix[i]));
                        lemma_remove_member_sets(prefix[i].mapping_fields, m, m);
                    }
                },
            }
        } else {
            match d.destination {
                None => {},
                Some(dst) => {
                    assert(dst@ != dest);
                    lemma_strategies_scoped_absent(
                        prefix,
                        ident,
                        f,
                        d,
                        dst@,
                        crate::attr::field::effective_strategies_of(d),
                        dest,
                        m,
                    );
                    lemma_withs_scoped_absent(
                        apply_strategies(
                            prefix,
                            ident,
                            f,
                            d,
                            dst@,
                            crate::attr::field::effective_strategies_of(d),
                        ),
                        f,
                        d,
                        dst@,
                        d.with.deep_view(),
                        dest,
                        m,
                    );
                },
            }
        }
    }
}

/// Renames keep a member absent from `dest`'s trees.
proof fn lemma_renames_keep_absent_for(
    trees: Seq<MappingTreeView>,
    f: Field,
    n: int,
    dest: Seq<char>,
    m: MemberView,
)
    requires
        0 <= n <= f.attrs@.len(),
        forall|i: int|
            0 <= i < trees.len() ==> pred_absent_for(dest, m)(#[trigger] trees[i]),
    ensures
        forall|i: int|
            0 <= i < apply_renames(trees, f, f.attrs@.take(n)).len() ==> pred_absent_for(dest, m)(
                #[trigger] apply_renames(trees, f, f.attrs@.take(n))[i],
            ),
    decreases n,
{
    if n > 0 {
        lemma_renames_keep_absent_for(trees, f, n - 1, dest, m);
        assert(f.attrs@.take(n).drop_last() =~= f.attrs@.take(n - 1));
        assert(f.attrs@.take(n).last() == f.attrs@[n - 1]);
        let prefix = apply_renames(trees, f, f.attrs@.take(n - 1));
        let d = f.attrs@[n - 1];
        if rename_applies(d) {
            let post = apply_renames(trees, f, f.attrs@.take(n));
            assert forall|i: int| 0 <= i < post.len() implies pred_absent_for(dest, m)(
                #[trigger] post[i],
            ) by {
                assert(post[i] == rename_step(
                    prefix[i],
                    d.destination.deep_view()->Some_0,
                    f.member.deep_view(),
                    d.field.deep_view()->Some_0,
                ));
                assert(pred_absent_for(dest, m)(prefix[i]));
                lemma_rename_member_sets(
                    prefix[i].mapping_fields,
                    f.member.deep_view(),
                    d.field.deep_view()->Some_0,
                    m,
                );
            }
        }
    }
}

proof fn lemma_fields_absent_for(
    trees: Seq<MappingTreeView>,
    ident: Seq<char>,
    fs: Seq<Field>,
    fi: int,
    e: int,
    dest: Seq<char>,
    m: MemberView,
)
    requires
        distinct_members(fs),
        0 <= fi < fs.len(),
        m == fs[fi].member.deep_view(),
        0 <= e < fs[fi].attrs@.len(),
        fs[fi].attrs@[e].exclude.1,
        fs[fi].attrs@[e].destination is Some,
        fs[fi].attrs@[e].destination.deep_view()->Some_0 == dest,
        forall|j: int|
            e < j < fs[fi].attrs@.len() ==> ((#[trigger] fs[fi].attrs@[j]).exclude.1
                || fs[fi].attrs@[j].destination is None
                || fs[fi].attrs@[j].destination.deep_view()->Some_0 != dest),
    ensures
        forall|i: int|
            0 <= i < apply_fields(trees, ident, fs).len() ==> pred_absent_for(dest, m)(
                #[trigger] apply_fields(trees, ident, fs)[i],
            ),
    decreases fs.len(),
{
    let f = fs[fi];
    let prev = apply_fields(trees, ident, fs.drop_last());
    if fi == fs.len() - 1 {
        let defaulted = apply_defaults(prev, f);
        lemma_dirs_scoped_absent(defaulted, ident, f, f.attrs@.len() as int, e, dest, m);
        assert(f.attrs@.take(f.attrs@.len() as int) =~= f.attrs@);
        lemma_renames_keep_absent_for(
            apply_directives(defaulted, ident, f, f.attrs@),
            f,
            f.attrs@.len() as int,
            dest,
            m,
        );
    } else {
        assert(distinct_members(fs.drop_last()));
        assert(fs.drop_last()[fi] == fs[fi]);
        lemma_fields_absent_for(trees, ident, fs.drop_last(), fi, e, dest, m);
        let g = fs.last();
        assert(g.member.deep_view() != m);
        lemma_pred_closed_absent_for(ident, g, dest, m);
        lemma_pred_field(prev, ident, g, pred_absent_for(dest, m));
    }
}

/// Destination-scoped exclusion: a field excluded for one destination, and
/// never re-added for it, is out of every tree of that destination.
pub proof fn lemma_scoped_exclusion(s: Struct, fi: int, e: int, dest: Seq<char>)
    requires
        distinct_members(s.fields@),
        0 <= fi < s.fields@.len(),
        0 <= e < s.fields@[fi].attrs@.len(),
        s.fields@[fi].attrs@[e].exclude.1,
        s.fields@[fi].attrs@[e].destination is Some,
        s.fields@[fi].attrs@[e].destination.deep_view()->Some_0 == dest,
        forall|j: int|
            e < j < s.fields@[fi].attrs@.len() ==> ((#[trigger] s.fields@[fi].attrs@[j]).exclude.1
                || s.fields@[fi].attrs@[j].destination is None
                || s.fields@[fi].attrs@[j].destination.deep_view()->Some_0 != dest),
    ensures
        forall|i: int|
            0 <= i < spec_resolve(s).len() ==> ((#[trigger] spec_resolve(s)[i]).destination == dest
                ==> !has_member(spec_resolve(s)[i].mapping_fields, s.fields@[fi].member.deep_view())),
{
    lemma_fields_absent_for(
        seed(s.ident@, s.attrs.deep_view()),
        s.ident@,
        s.fields@,
        fi,
        e,
        dest,
        s.fields@[fi].member.deep_view(),
    );
    let post = spec_resolve(s);
    assert forall|i: int|
        0 <= i < post.len() && (#[trigger] post[i]).destination == dest implies !has_member(
        post[i].mapping_fields,
        s.fields@[fi].member.deep_view(),
    ) by {
        assert(pred_absent_for(dest, s.fields@[fi].member.deep_view())(post[i]));
    }
}

/// A field whose only exclusions are scoped to one destination still fills
/// the automatic trees of every other destination: its scoped exclusion
/// removes it from that destination alone.
pub proof fn lemma_scoped_exclusion_keeps_other_destinations(
    s: Struct,
    dest: Seq<char>,
    other: Seq<char>,
    strategy: MappingStrategy,
    fi: int,
)
    requires
        distinct_members(s.fields@),
        0 <= fi < s.fields@.len(),
        other != dest,
        s.attrs.deep_view().contains_pair(other, strategy),
        forall|j: int|
            0 <= j < s.fields@[fi].attrs@.len() ==> ((#[trigger] s.fields@[fi].attrs@[j]).exclude.1
                ==> s.fields@[fi].attrs@[j].destination.deep_view() == Some(dest)),
    ensures
        find_tree_index(spec_resolve(s), other, strategy) is Some,
        ({
            let trees = spec_resolve(s);
            let ti = find_tree_index(trees, other, strategy)->Some_0;
            has_member(trees[ti].mapping_fields, s.fields@[fi].member.deep_view())
        }),
{
    let f = s.fields@[fi];
    if spec_field_excluded(f, other) {
        let j = choose|j: int|
            0 <= j < f.attrs@.len() && crate::attr::field::spec_excludes_for_destination(
                #[trigger] f.attrs@[j],
                other,
            );
        assert(f.attrs@[j].exclude.1);
        assert(false);
    }
    lemma_automatic_completeness(s, other, strategy, fi);
}

proof fn lemma_first_conflict_none(
    reg: RegistryView,
    dest: Seq<char>,
    ss: Seq<MappingStrategy>,
)
    requires
        crate::valid::first_conflict(reg, dest, ss) is None,
    ensures
        forall|k: int| 0 <= k < ss.len() ==> !reg.contains_pair(dest, #[trigger] ss[k]),
    decreases ss.len(),
{
    if ss.len() > 0 {
        lemma_first_conflict_none(reg, dest, ss.drop_last());
        assert forall|k: int| 0 <= k < ss.len() implies !reg.contains_pair(
            dest,
            #[trigger] ss[k],
        ) by {
            if k < ss.len() - 1 {
                assert(ss.drop_last()[k] == ss[k]);
            }
        }
    }
}

proof fn lemma_fields_error_none_down(reg: RegistryView, fs: Seq<Field>, i: int)
    requires
        crate::valid::fields_error(reg, fs) is None,
        0 <= i < fs.len(),
    ensures
        crate::valid::directives_error(reg, fs[i], fs[i].attrs@) is None,
    decreases fs.len(),
{
    if i < fs.len() - 1 {
        assert(fs.drop_last()[i] == fs[i]);
        lemma_fields_error_none_down(reg, fs.drop_last(), i);
    }
}

proof fn lemma_directives_error_none_down(reg: RegistryView, f: Field, ds: Seq<Params>, k: int)
    requires
        crate::valid::directives_error(reg, f, ds) is None,
        0 <= k < ds.len(),
    ensures
        crate::valid::directive_error(reg, f, ds[k]) is None,
    decreases ds.len(),
{
    if k < ds.len() - 1 {
        assert(ds.drop_last()[k] == ds[k]);
        lemma_directives_error_none_down(reg, f, ds.drop_last(), k);
    }
}

/// A directive relying on the default (unnamed) strategy never raises the
/// additive-on-automatic conflict: only explicitly selected strategies are
/// held against the registry.
pub proof fn lemma_default_strategy_raises_no_conflict(
    reg: RegistryView,
    f: Field,
    d: Params,
)
    requires
        d.strategies@.len() == 0,
    ensures
        match d.destination {
            Some(dest) => crate::valid::first_conflict(
                reg,
                dest@,
                crate::attr::field::strategies_of(d),
            ) is None,
            None => true,
        },
        !(crate::valid::directive_error(reg, f, d)
            matches Some(crate::valid::StructErrorView::AdditiveMappingConflictsWithAutomatic { .. })),
{
    match d.destination {
        Some(dest) => {
            assert(crate::attr::field::strategies_of(d).len() == 0);
        },
        None => {},
    }
}

/// Mutual exclusivity at the validator: a descriptor that validates has no
/// directive additively declaring a pair the automatic registry governs; a
/// descriptor with such a directive is rejected.
pub proof fn lemma_mutual_exclusivity_validator(
    s: Struct,
    fi: int,
    di: int,
    strategy: MappingStrategy,
)
    requires
        0 <= fi < s.fields@.len(),
        0 <= di < s.fields@[fi].attrs@.len(),
        s.fields@[fi].attrs@[di].destination is Some,
        crate::attr::field::strategies_of(s.fields@[fi].attrs@[di]).contains(strategy),
    ensures
        crate::valid::spec_validate(s) is None ==> !s.attrs.deep_view().contains_pair(
            s.fields@[fi].attrs@[di].destination.deep_view()->Some_0,
            strategy,
        ),
        s.attrs.deep_view().contains_pair(
            s.fields@[fi].attrs@[di].destination.deep_view()->Some_0,
            strategy,
        ) ==> crate::valid::spec_validate(s) is Some,
{
    let reg = s.attrs.deep_view();
    let f = s.fields@[fi];
    let d = f.attrs@[di];
    let dest = d.destination.deep_view()->Some_0;
    if crate::valid::spec_validate(s) is None {
        lemma_fields_error_none_down(reg, s.fields@, fi);
        lemma_directives_error_none_down(reg, f, f.attrs@, di);
        assert(crate::valid::first_conflict(
            reg,
            dest,
            crate::attr::field::strategies_of(d),
        ) is None);
        lemma_first_conflict_none(reg, dest, crate::attr::field::strategies_of(d));
        let ss = crate::attr::field::strategies_of(d);
        let w = choose|w: int| 0 <= w < ss.len() && ss[w] == strategy;
        assert(!reg.contains_pair(dest, ss[w]));
    }
}

/// Renaming keeps every key where it was, and keeps keys unique.
pub proof fn lemma_rename_member_sets(
    fields: Seq<MappingFieldView>,
    m: MemberView,
    rename: Seq<char>,
    m2: MemberView,
)
    ensures
        has_member(rename_fields(fields, m, rename), m2) == has_member(fields, m2),
        unique_members(fields) ==> unique_members(rename_fields(fields, m, rename)),
        rename_fields(fields, m, rename).len() == fields.len(),
        forall|i: int|
            0 <= i < fields.len() ==> #[trigger] rename_fields(fields, m, rename)[i].member
                == fields[i].member,
{
    lemma_find_field_index(fields, m);
    let post = rename_fields(fields, m, rename);
    assert forall|i: int| 0 <= i < fields.len() implies #[trigger] post[i].member
        == fields[i].member by {}
    if has_member(fields, m2) {
        let w = choose|w: int| 0 <= w < fields.len() && #[trigger] fields[w].member == m2;
        assert(post[w].member == m2);
    }
    if has_member(post, m2) {
        let w = choose|w: int| 0 <= w < post.len() && #[trigger] post[w].member == m2;
        assert(fields[w].member == m2);
    }
}

} // verus!
