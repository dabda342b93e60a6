use mapper::MappingStrategy;
use mapper::MappingStrategyParseError;
use mapper::SpannedItem;
use mapper::StrategyError;
use mapper::ast::data_type::Struct;
use mapper::ast::field::Field;
use mapper::ast::field::Member;
use mapper::ast::mapping_field::SourceExpr;
use mapper::ast::mapping_tree::MappingTree;
use mapper::ast::mapping_tree::MappingType;
use mapper::attr::data_type::AggregationError;
use mapper::attr::data_type::Params as TypeParams;
use mapper::attr::field::Params as FieldParams;
use mapper::attr::field::ParamsError;
use mapper::attr::field::WithError;
use mapper::attr::field::insert_with;
use mapper::valid::StructError;

fn type_directive(dests: &[&str], strategy_tokens: &[&str]) -> TypeParams {
    let mut strategies = Vec::new();
    for t in strategy_tokens {
        for st in MappingStrategy::str_to_hash_set(t).unwrap() {
            strategies.push(SpannedItem::new(t.to_string(), st));
        }
    }
    TypeParams::new(dests.iter().map(|d| d.to_string()).collect(), strategies)
}

fn field_directive(
    dest: Option<&str>,
    rename: Option<&str>,
    withs: &[(&str, &str)],
    exclude: bool,
    strategy_tokens: &[&str],
) -> FieldParams {
    let mut with = Vec::new();
    for (func, token) in withs {
        let strategy = if token.is_empty() {
            MappingStrategy::default()
        } else {
            MappingStrategy::try_from(token).unwrap()
        };
        insert_with(&mut with, SpannedItem::new(func.to_string(), strategy)).unwrap();
    }
    let mut strategies = Vec::new();
    for t in strategy_tokens {
        let items = mapper::parse_strategy(&t.to_string(), &strategies).unwrap();
        for item in items {
            strategies.push(item);
        }
    }
    let exclude = if exclude {
        SpannedItem::new("exclude".to_string(), true)
    } else {
        SpannedItem::new_empty(false)
    };
    FieldParams::new(
        dest.map(|d| d.to_string()),
        rename.map(|r| r.to_string()),
        with,
        exclude,
        strategies,
    )
    .unwrap()
}

fn field(name: &str, ty: &str, dirs: Vec<FieldParams>) -> Field {
    Field::new(Member::Named(name.to_string()), ty.to_string(), dirs)
}

fn descriptor(ident: &str, type_dirs: Vec<TypeParams>, fields: Vec<Field>) -> Struct {
    Struct::new(ident.to_string(), &type_dirs, fields).unwrap()
}

fn tree<'a>(trees: &'a [MappingTree], dest: &str, strategy: MappingStrategy) -> &'a MappingTree {
    trees
        .iter()
        .find(|t| t.destination == dest && t.strategy == strategy)
        .unwrap()
}

#[test]
fn automatic_mapping_maps_every_field_without_rename() {
    // Fields `name` and `account_id`, automatic destination Person under the
    // default strategy: one tree, two direct-copy entries, no renames.
    let s = descriptor(
        "User",
        vec![type_directive(&["Person"], &[])],
        vec![
            field("name", "String", vec![]),
            field("account_id", "String", vec![]),
        ],
    );
    let trees = s.resolve().unwrap();
    assert_eq!(trees.len(), 1);
    let t = &trees[0];
    assert_eq!(t.destination, "Person");
    assert_eq!(t.strategy, MappingStrategy::Mapper);
    assert_eq!(t.mapping_type, Some(MappingType::Automatic));
    assert_eq!(t.mapping_fields.len(), 2);
    assert_eq!(t.mapping_fields[0].member, Member::Named("name".to_string()));
    assert_eq!(t.mapping_fields[1].member, Member::Named("account_id".to_string()));
    for mf in &t.mapping_fields {
        assert_eq!(mf.field, None);
        assert!(matches!(mf.get_src_field(), SourceExpr::DirectCopy));
    }
}

#[test]
fn rename_lands_in_automatic_tree() {
    // Field `age` directive (Person, field=_age) on a type automatically
    // mapped to Person: the tree holds `age` renamed to `_age`.
    let s = descriptor(
        "User",
        vec![type_directive(&["Person"], &[])],
        vec![field("age", "u16", vec![field_directive(Some("Person"), Some("_age"), &[], false, &[])])],
    );
    let trees = s.resolve().unwrap();
    let t = tree(&trees, "Person", MappingStrategy::Mapper);
    assert_eq!(t.mapping_fields.len(), 1);
    assert_eq!(t.mapping_fields[0].member, Member::Named("age".to_string()));
    assert_eq!(t.mapping_fields[0].field, Some("_age".to_string()));
}

#[test]
fn per_strategy_transforms_split_into_two_trees() {
    // with(consuming)=map_into, with(non-consuming)=map_mapper,
    // strategy=consuming, on a type automatically mapped non-consuming:
    // the automatic tree keeps map_mapper, an additive consuming tree gets
    // map_into.
    let s = descriptor(
        "User",
        vec![type_directive(&["Person"], &[])],
        vec![field(
            "name",
            "String",
            vec![field_directive(
                Some("Person"),
                None,
                &[("map_into", "into"), ("map_mapper", "mapper")],
                false,
                &["into"],
            )],
        )],
    );
    let trees = s.resolve().unwrap();
    assert_eq!(trees.len(), 2);
    let auto = tree(&trees, "Person", MappingStrategy::Mapper);
    assert_eq!(auto.mapping_type, Some(MappingType::Automatic));
    assert_eq!(auto.mapping_fields[0].with, Some("map_mapper".to_string()));
    let additive = tree(&trees, "Person", MappingStrategy::Into);
    assert_eq!(additive.mapping_type, Some(MappingType::Additive));
    assert_eq!(additive.mapping_fields[0].with, Some("map_into".to_string()));
}

#[test]
fn unconditional_exclude_leaves_other_fields_alone() {
    // Field `name` carries a bare exclude on a type automatically mapped to
    // Person: the tree has no entry for `name`, the others are untouched.
    let s = descriptor(
        "User",
        vec![type_directive(&["Person"], &[])],
        vec![
            field("name", "String", vec![field_directive(None, None, &[], true, &[])]),
            field("age", "u16", vec![]),
        ],
    );
    let trees = s.resolve().unwrap();
    let t = tree(&trees, "Person", MappingStrategy::Mapper);
    assert!(t.mapping_fields.iter().all(|mf| mf.member != Member::Named("name".to_string())));
    assert_eq!(t.mapping_fields.len(), 1);
    assert_eq!(t.mapping_fields[0].member, Member::Named("age".to_string()));
}

#[test]
fn additive_declaration_on_automatic_pair_is_rejected() {
    // Type-level Person automatic for the non-consuming strategy, plus a
    // field directive (Person, strategy=non-consuming): rejected.
    let s = descriptor(
        "User",
        vec![type_directive(&["Person"], &[])],
        vec![field("name", "String", vec![field_directive(Some("Person"), None, &[], false, &["mapper"])])],
    );
    let err = s.resolve().err().unwrap();
    assert!(matches!(
        err,
        StructError::AdditiveMappingConflictsWithAutomatic { destination, strategy }
            if destination == "Person" && strategy == MappingStrategy::Mapper
    ));
}

#[test]
fn duplicate_destination_for_strategy_is_rejected() {
    let res = Struct::new(
        "User".to_string(),
        &vec![
            type_directive(&["Person"], &["mapper"]),
            type_directive(&["Person"], &["mapper"]),
        ],
        vec![],
    );
    let err = res.err().unwrap();
    assert!(matches!(
        err,
        AggregationError::DuplicateDestinationForStrategy(MappingStrategy::Mapper, d)
            if d == "Person"
    ));
}

#[test]
fn duplicate_destination_across_strategies_is_allowed() {
    let s = descriptor(
        "User",
        vec![
            type_directive(&["Person"], &["into"]),
            type_directive(&["Person"], &["mapper"]),
        ],
        vec![field("name", "String", vec![])],
    );
    let trees = s.resolve().unwrap();
    assert_eq!(trees.len(), 2);
}

#[test]
fn excluded_directive_with_other_config_is_rejected() {
    // The shape of `(Person, exclude, strategy=into)`.
    let mut strategies = Vec::new();
    let items = mapper::parse_strategy(&"into".to_string(), &strategies).unwrap();
    for item in items {
        strategies.push(item);
    }
    let res = FieldParams::new(
        Some("Person".to_string()),
        None,
        Vec::new(),
        SpannedItem::new("exclude".to_string(), true),
        strategies,
    );
    assert!(matches!(res, Err(ParamsError::ExcludedField)));
}

#[test]
fn directive_without_destination_is_rejected() {
    let res = FieldParams::new(
        None,
        Some("_age".to_string()),
        Vec::new(),
        SpannedItem::new_empty(false),
        Vec::new(),
    );
    assert!(matches!(res, Err(ParamsError::MissingDestination)));
}

#[test]
fn directive_without_config_is_rejected() {
    // The shape of `#[to(Person)]` on a field.
    let res = FieldParams::new(
        Some("Person".to_string()),
        None,
        Vec::new(),
        SpannedItem::new_empty(false),
        Vec::new(),
    );
    assert!(matches!(res, Err(ParamsError::MissingMappingConfig)));
}

#[test]
fn exclusion_for_unmapped_destination_is_rejected() {
    let s = descriptor(
        "User",
        vec![type_directive(&["Person"], &[])],
        vec![field("name", "String", vec![field_directive(Some("Animal"), None, &[], true, &[])])],
    );
    let err = s.resolve().err().unwrap();
    assert!(matches!(
        err,
        StructError::IllegalExclusion { destination } if destination == "Animal"
    ));
}

#[test]
fn orphan_transform_is_rejected() {
    // A transform registered for the consuming strategy while Person is
    // automatic for the default strategy only: no mapping would invoke it.
    let s = descriptor(
        "User",
        vec![type_directive(&["Person"], &[])],
        vec![field(
            "name",
            "String",
            vec![field_directive(Some("Person"), None, &[("with_test", "into")], false, &[])],
        )],
    );
    let err = s.resolve().err().unwrap();
    assert!(matches!(
        err,
        StructError::OrphanTransform { destination, strategy }
            if destination == "Person" && strategy == MappingStrategy::Into
    ));
}

#[test]
fn too_many_strategies_is_rejected() {
    let mut strategies = Vec::new();
    let items = mapper::parse_strategy(&"all".to_string(), &strategies).unwrap();
    for item in items {
        strategies.push(item);
    }
    let err = mapper::parse_strategy(&"into".to_string(), &strategies).err().unwrap();
    assert!(matches!(err, StrategyError::TooManyStrategies));
}

#[test]
fn invalid_strategy_identifier_is_rejected() {
    let err = mapper::parse_strategy(&"sideways".to_string(), &Vec::new()).err().unwrap();
    match err {
        StrategyError::InvalidStrategyIdentifier(MappingStrategyParseError(token)) => {
            assert_eq!(token, "sideways")
        }
        _ => panic!("expected an invalid identifier"),
    }
}

#[test]
fn duplicate_with_for_strategy_is_rejected() {
    let mut with = Vec::new();
    insert_with(&mut with, SpannedItem::new("a".to_string(), MappingStrategy::Into)).unwrap();
    let err = insert_with(&mut with, SpannedItem::new("b".to_string(), MappingStrategy::Into))
        .err()
        .unwrap();
    assert!(matches!(err, WithError::DuplicateWithForStrategy(MappingStrategy::Into)));
    assert_eq!(with.len(), 1);
}

#[test]
fn str_to_hash_set_expands_selectors() {
    assert_eq!(
        MappingStrategy::str_to_hash_set("all").unwrap(),
        vec![MappingStrategy::Into, MappingStrategy::Mapper]
    );
    assert_eq!(MappingStrategy::str_to_hash_set("into").unwrap(), vec![MappingStrategy::Into]);
    assert_eq!(MappingStrategy::str_to_hash_set("mapper").unwrap(), vec![MappingStrategy::Mapper]);
    let MappingStrategyParseError(token) = MappingStrategy::str_to_hash_set("both").err().unwrap();
    assert_eq!(token, "both");
}

#[test]
fn resolving_twice_gives_equal_trees() {
    let build = || {
        descriptor(
            "User",
            vec![type_directive(&["Person", "Robot"], &["all"])],
            vec![
                field("name", "String", vec![field_directive(Some("Person"), Some("_name"), &[], false, &[])]),
                field("age", "u16", vec![field_directive(Some("Robot"), None, &[], true, &[])]),
            ],
        )
    };
    let first = build().resolve().unwrap();
    let second = build().resolve().unwrap();
    assert_eq!(first, second);
}

#[test]
fn type_without_fields_resolves_to_empty_trees() {
    let s = descriptor("User", vec![type_directive(&["Person"], &["all"])], vec![]);
    let trees = s.resolve().unwrap();
    assert_eq!(trees.len(), 2);
    assert!(trees.iter().all(|t| t.mapping_fields.is_empty()));
}

#[test]
fn scoped_exclusion_spares_other_destinations() {
    let s = descriptor(
        "User",
        vec![type_directive(&["Person", "Robot"], &[])],
        vec![
            field("name", "String", vec![field_directive(Some("Robot"), None, &[], true, &[])]),
            field("age", "u16", vec![]),
        ],
    );
    let trees = s.resolve().unwrap();
    let robot = tree(&trees, "Robot", MappingStrategy::Mapper);
    assert!(robot.mapping_fields.iter().all(|mf| mf.member != Member::Named("name".to_string())));
    let person = tree(&trees, "Person", MappingStrategy::Mapper);
    assert!(person.mapping_fields.iter().any(|mf| mf.member == Member::Named("name".to_string())));
}

#[test]
fn duplicate_destinations_in_one_directive_collapse() {
    let d = type_directive(&["Person", "Person"], &[]);
    assert_eq!(d.destinations, vec!["Person".to_string()]);
}

#[test]
fn has_strategy_for_destination_sees_registry_and_fields() {
    let s = descriptor(
        "User",
        vec![type_directive(&["Person"], &["mapper"])],
        vec![field("name", "String", vec![field_directive(Some("Robot"), None, &[], false, &["into"])])],
    );
    assert!(s.has_strategy_for_destination(&"Person".to_string(), &MappingStrategy::Mapper));
    assert!(s.has_strategy_for_destination(&"Robot".to_string(), &MappingStrategy::Into));
    assert!(!s.has_strategy_for_destination(&"Person".to_string(), &MappingStrategy::Into));
    assert!(!s.has_strategy_for_destination(&"Robot".to_string(), &MappingStrategy::Mapper));
}

#[test]
fn input_wraps_a_struct_descriptor() {
    let s = descriptor(
        "User",
        vec![type_directive(&["Person"], &[])],
        vec![field("name", "String", vec![])],
    );
    let input = mapper::ast::data_type::Input::Struct(s);
    assert!(input.validate().is_ok());
    let mapper::ast::data_type::Input::Struct(s) = input;
    assert_eq!(s.resolve().unwrap().len(), 1);
}

#[test]
fn destinations_flattens_both_strategies() {
    let s = descriptor(
        "User",
        vec![
            type_directive(&["Person"], &["into"]),
            type_directive(&["Robot"], &["mapper"]),
        ],
        vec![],
    );
    let all = s.attrs.destinations();
    assert_eq!(all, vec!["Person".to_string(), "Robot".to_string()]);
}

#[test]
fn destinations_union_holds_each_destination_once() {
    // Person is automatic under both strategies; the flattened union names
    // it once.
    let s = descriptor("User", vec![type_directive(&["Person"], &["all"])], vec![]);
    let all = s.attrs.destinations();
    assert_eq!(all, vec!["Person".to_string()]);
}

#[test]
fn repeated_selector_in_one_directive_collapses() {
    // `strategy=all, strategy=into` selects the consuming strategy twice;
    // the selection collapses to the set {into, mapper} and aggregation
    // accepts it.
    let d = type_directive(&["Person"], &["all", "into"]);
    assert_eq!(d.strategies.len(), 2);
    let s = descriptor("User", vec![d], vec![field("name", "String", vec![])]);
    assert!(s.resolve().is_ok());
}
