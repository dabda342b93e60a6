use mapper::MappingStrategy;
use mapper::SpannedItem;
use mapper::ast::data_type::Struct;
use mapper::ast::field::Field;
use mapper::ast::field::Member;
use mapper::ast::mapping_field::SourceExpr;
use mapper::ast::mapping_tree::MappingTree;
use mapper::attr::data_type::Params as TypeParams;
use mapper::attr::field::Params as FieldParams;

fn type_directive(dests: &[&str], strategy_tokens: &[&str]) -> TypeParams {
    let mut strategies = Vec::new();
    for t in strategy_tokens {
        for st in MappingStrategy::str_to_hash_set(t).unwrap() {
            strategies.push(SpannedItem::new(t.to_string(), st));
        }
    }
    TypeParams::new(dests.iter().map(|d| d.to_string()).collect(), strategies)
}

/// Builds one field directive; each with-entry pairs a transform name with a
/// strategy token ("" for the default strategy).
fn field_directive(
    dest: Option<&str>,
    rename: Option<&str>,
    withs: &[(&str, &str)],
    exclude: bool,
    strategy_tokens: &[&str],
) -> FieldParams {
    let mut with = Vec::new();
    for (func, token) in withs {
        let strategy = if token.is_empty() {
            MappingStrategy::default()
        } else {
            MappingStrategy::try_from(token).unwrap()
        };
        mapper::attr::field::insert_with(&mut with, SpannedItem::new(func.to_string(), strategy))
            .unwrap();
    }
    let mut strategies = Vec::new();
    for t in strategy_tokens {
        let items = mapper::parse_strategy(&t.to_string(), &strategies).unwrap();
        for item in items {
            strategies.push(item);
        }
    }
    let exclude = if exclude {
        SpannedItem::new("exclude".to_string(), true)
    } else {
        SpannedItem::new_empty(false)
    };
    FieldParams::new(
        dest.map(|d| d.to_string()),
        rename.map(|r| r.to_string()),
        with,
        exclude,
        strategies,
    )
    .unwrap()
}

fn field(name: &str, ty: &str, dirs: Vec<FieldParams>) -> Field {
    Field::new(Member::Named(name.to_string()), ty.to_string(), dirs)
}

fn resolve(ident: &str, type_dirs: Vec<TypeParams>, fields: Vec<Field>) -> Vec<MappingTree> {
    Struct::new(ident.to_string(), &type_dirs, fields)
        .unwrap()
        .resolve()
        .unwrap()
}

fn tree<'a>(trees: &'a [MappingTree], dest: &str, strategy: MappingStrategy) -> &'a MappingTree {
    trees
        .iter()
        .find(|t| t.destination == dest && t.strategy == strategy)
        .unwrap()
}

fn apply_tree(
    tree: &MappingTree,
    record: &[(&str, &str)],
    transforms: &[(&str, fn(&str) -> String)],
) -> Vec<(String, String)> {
    tree.mapping_fields
        .iter()
        .map(|mf| {
            let dest_name = match mf.get_dest_field() {
                Member::Named(n) => n,
                Member::Unnamed(i) => i.to_string(),
            };
            let src_name = match &mf.member {
                Member::Named(n) => n.clone(),
                Member::Unnamed(i) => i.to_string(),
            };
            let src_val = record.iter().find(|(n, _)| *n == src_name).unwrap().1;
            let value = match mf.get_src_field() {
                SourceExpr::DirectCopy | SourceExpr::DirectMove => src_val.to_string(),
                SourceExpr::TransformCall(f) => {
                    (transforms.iter().find(|(n, _)| *n == f).unwrap().1)(src_val)
                }
            };
            (dest_name, value)
        })
        .collect()
}

fn get(pairs: &[(String, String)], name: &str) -> String {
    pairs.iter().find(|(n, _)| n == name).unwrap().1.clone()
}

#[test]
pub fn map_with_func_should_works() {
    fn with_fun(val: &str) -> String {
        val.to_string()
    }
    let trees = resolve(
        "User",
        vec![type_directive(&["Person"], &[])],
        vec![field("age", "u16", vec![field_directive(Some("Person"), None, &[("with_fun", "")], false, &[])])],
    );
    let t = tree(&trees, "Person", MappingStrategy::Mapper);
    let person = apply_tree(t, &[("age", "123")], &[("with_fun", with_fun)]);
    assert_eq!("123", get(&person, "age"));
}

#[test]
pub fn map_with_generic_func_should_works() {
    fn gen_func(val: &str) -> String {
        val.to_string()
    }
    let trees = resolve(
        "User",
        vec![type_directive(&["Person"], &[])],
        vec![field("age", "u16", vec![field_directive(Some("Person"), None, &[("gen_func", "")], false, &[])])],
    );
    let t = tree(&trees, "Person", MappingStrategy::Mapper);
    let person = apply_tree(t, &[("age", "123")], &[("gen_func", gen_func)]);
    assert_eq!("123", get(&person, "age"));
}

#[test]
pub fn map_generic_destination_type_with_func_should_works() {
    fn map_u16_to_string(val: &str) -> String {
        val.to_string()
    }
    let trees = resolve(
        "User",
        vec![type_directive(&["Person::<String>"], &[])],
        vec![field(
            "age",
            "u16",
            vec![field_directive(Some("Person::<String>"), None, &[("map_u16_to_string", "")], false, &[])],
        )],
    );
    let t = tree(&trees, "Person::<String>", MappingStrategy::Mapper);
    let person = apply_tree(t, &[("age", "123")], &[("map_u16_to_string", map_u16_to_string)]);
    assert_eq!("123", get(&person, "age"));
}

#[test]
pub fn exclude_field_should_works() {
    let trees = resolve(
        "User",
        vec![type_directive(&["Person"], &[])],
        vec![
            field("age", "u16", vec![]),
            field("name", "String", vec![field_directive(Some("Person"), None, &[], true, &[])]),
        ],
    );
    let t = tree(&trees, "Person", MappingStrategy::Mapper);
    assert!(t.mapping_fields.iter().all(|mf| mf.member != Member::Named("name".to_string())));
    let person = apply_tree(t, &[("age", "123")], &[]);
    assert_eq!("123", get(&person, "age"));
}

#[test]
pub fn use_with_strategy_should_works() {
    fn map_into(val: &str) -> String {
        val.to_string()
    }
    fn map_mapper(val: &str) -> String {
        val.to_string()
    }
    let trees = resolve(
        "User",
        vec![type_directive(&["Person"], &["into", "mapper"])],
        vec![field(
            "name",
            "String",
            vec![field_directive(
                Some("Person"),
                None,
                &[("map_into", "into"), ("map_mapper", "mapper")],
                false,
                &[],
            )],
        )],
    );
    let person_mapper = apply_tree(
        tree(&trees, "Person", MappingStrategy::Mapper),
        &[("name", "Marie")],
        &[("map_into", map_into), ("map_mapper", map_mapper)],
    );
    let person_into = apply_tree(
        tree(&trees, "Person", MappingStrategy::Into),
        &[("name", "Marie")],
        &[("map_into", map_into), ("map_mapper", map_mapper)],
    );
    assert_eq!("Marie", get(&person_into, "name"));
    assert_eq!("Marie", get(&person_mapper, "name"));
}

#[test]
pub fn use_with_strategy_should_works_for_for_additive_and_automatic_mapping() {
    fn map_into(val: &str) -> String {
        val.to_uppercase()
    }
    fn map_mapper(val: &str) -> String {
        val.to_lowercase()
    }
    let trees = resolve(
        "User",
        vec![type_directive(&["Person"], &[])],
        vec![field(
            "name",
            "String",
            vec![field_directive(
                Some("Person"),
                None,
                &[("map_into", "into"), ("map_mapper", "mapper")],
                false,
                &["into"],
            )],
        )],
    );
    let person_mapper = apply_tree(
        tree(&trees, "Person", MappingStrategy::Mapper),
        &[("name", "Marie")],
        &[("map_into", map_into), ("map_mapper", map_mapper)],
    );
    let person_into = apply_tree(
        tree(&trees, "Person", MappingStrategy::Into),
        &[("name", "Marie")],
        &[("map_into", map_into), ("map_mapper", map_mapper)],
    );
    assert_eq!("MARIE", get(&person_into, "name"));
    assert_eq!("marie", get(&person_mapper, "name"));
}

#[test]
pub fn exclude_field_without_destination_should_never_be_mapped() {
    let trees = resolve(
        "User",
        vec![type_directive(&["Person"], &[])],
        vec![
            field("name", "String", vec![field_directive(None, None, &[], true, &[])]),
            field("age", "u16", vec![]),
        ],
    );
    let t = tree(&trees, "Person", MappingStrategy::Mapper);
    assert!(t.mapping_fields.iter().all(|mf| mf.member != Member::Named("name".to_string())));
    let person = apply_tree(t, &[("age", "30")], &[]);
    assert_eq!("30", get(&person, "age"));
}

#[test]
pub fn additive_mapping_use_all_strategies() {
    let trees = resolve(
        "User",
        vec![],
        vec![field("age", "u16", vec![field_directive(Some("Person"), None, &[], false, &["all"])])],
    );
    let person_mapper =
        apply_tree(tree(&trees, "Person", MappingStrategy::Mapper), &[("age", "30")], &[]);
    let person_into =
        apply_tree(tree(&trees, "Person", MappingStrategy::Into), &[("age", "30")], &[]);
    assert_eq!("30", get(&person_into, "age"));
    assert_eq!("30", get(&person_mapper, "age"));
}

#[test]
pub fn field_mapping_should_works() {
    let trees = resolve(
        "User",
        vec![type_directive(&["Person"], &[])],
        vec![field("age", "u16", vec![field_directive(Some("Person"), Some("_age"), &[], false, &[])])],
    );
    let t = tree(&trees, "Person", MappingStrategy::Mapper);
    let person = apply_tree(t, &[("age", "30")], &[]);
    assert_eq!("30", get(&person, "_age"));
}
