use mapper::Mapper;
use mapper::MappingStrategy;
use mapper::SpannedItem;
use mapper::ast::data_type::Struct;
use mapper::ast::field::Field;
use mapper::ast::field::Member;
use mapper::ast::mapping_field::SourceExpr;
use mapper::ast::mapping_tree::MappingTree;
use mapper::attr::data_type::Params as TypeParams;

fn type_directive(dests: &[&str], strategy_tokens: &[&str]) -> TypeParams {
    let mut strategies = Vec::new();
    for t in strategy_tokens {
        for st in MappingStrategy::str_to_hash_set(t).unwrap() {
            strategies.push(SpannedItem::new(t.to_string(), st));
        }
    }
    TypeParams::new(dests.iter().map(|d| d.to_string()).collect(), strategies)
}

fn plain_field(name: &str, ty: &str) -> Field {
    Field::new(Member::Named(name.to_string()), ty.to_string(), Vec::new())
}

fn resolve(ident: &str, type_dirs: Vec<TypeParams>, fields: Vec<Field>) -> Vec<MappingTree> {
    Struct::new(ident.to_string(), &type_dirs, fields)
        .unwrap()
        .resolve()
        .unwrap()
}

fn tree<'a>(
    trees: &'a [MappingTree],
    dest: &str,
    strategy: MappingStrategy,
) -> &'a MappingTree {
    trees
        .iter()
        .find(|t| t.destination == dest && t.strategy == strategy)
        .unwrap()
}

/// Interprets one mapping tree over a record of named string values.
fn apply_tree(
    tree: &MappingTree,
    record: &[(&str, &str)],
    transforms: &[(&str, fn(&str) -> String)],
) -> Vec<(String, String)> {
    tree.mapping_fields
        .iter()
        .map(|mf| {
            let dest_name = match mf.get_dest_field() {
                Member::Named(n) => n,
                Member::Unnamed(i) => i.to_string(),
            };
            let src_name = match &mf.member {
                Member::Named(n) => n.clone(),
                Member::Unnamed(i) => i.to_string(),
            };
            let src_val = record.iter().find(|(n, _)| *n == src_name).unwrap().1;
            let value = match mf.get_src_field() {
                SourceExpr::DirectCopy | SourceExpr::DirectMove => src_val.to_string(),
                SourceExpr::TransformCall(f) => {
                    (transforms.iter().find(|(n, _)| *n == f).unwrap().1)(src_val)
                }
            };
            (dest_name, value)
        })
        .collect()
}

fn get(pairs: &[(String, String)], name: &str) -> String {
    pairs.iter().find(|(n, _)| n == name).unwrap().1.clone()
}

#[test]
pub fn map_multiple_fields_should_works() {
    let trees = resolve(
        "User",
        vec![type_directive(&["Person"], &[])],
        vec![plain_field("name", "String"), plain_field("account_id", "String")],
    );
    let t = tree(&trees, "Person", MappingStrategy::Mapper);
    let person = apply_tree(t, &[("name", "Marie"), ("account_id", "ID-123")], &[]);
    assert_eq!(get(&person, "name"), "Marie");
    assert_eq!(get(&person, "account_id"), "ID-123");
}

#[test]
pub fn map_one_field_should_works() {
    let trees = resolve(
        "User",
        vec![type_directive(&["Person"], &[])],
        vec![plain_field("name", "String")],
    );
    let t = tree(&trees, "Person", MappingStrategy::Mapper);
    let person = apply_tree(t, &[("name", "Marie")], &[]);
    assert_eq!(get(&person, "name"), "Marie");
}

#[test]
pub fn map_field_with_generic_destination_type() {
    let trees = resolve(
        "User",
        vec![type_directive(&["Person::<String>"], &[])],
        vec![plain_field("name", "String")],
    );
    let t = tree(&trees, "Person::<String>", MappingStrategy::Mapper);
    let person = apply_tree(t, &[("name", "Marie")], &[]);
    assert_eq!("Marie", get(&person, "name"));
}

#[test]
pub fn map_field_with_generics_destination_type() {
    let trees = resolve(
        "User",
        vec![type_directive(&["Person::<String, u8>"], &[])],
        vec![plain_field("name", "String"), plain_field("age", "u8")],
    );
    let t = tree(&trees, "Person::<String, u8>", MappingStrategy::Mapper);
    let person = apply_tree(t, &[("name", "Marie"), ("age", "35")], &[]);
    assert_eq!("Marie", get(&person, "name"));
}

#[test]
pub fn map_field_by_consuming_self() {
    let trees = resolve(
        "User",
        vec![type_directive(&["Person"], &["into"])],
        vec![plain_field("name", "String")],
    );
    let t = tree(&trees, "Person", MappingStrategy::Into);
    assert!(matches!(t.mapping_fields[0].get_src_field(), SourceExpr::DirectMove));
    let person = apply_tree(t, &[("name", "Marie")], &[]);
    assert_eq!("Marie", get(&person, "name"));
}

#[test]
pub fn map_field_use_all_strategies() {
    let trees = resolve(
        "User",
        vec![type_directive(&["Person"], &["all"])],
        vec![plain_field("name", "String")],
    );
    let mapper_tree = tree(&trees, "Person", MappingStrategy::Mapper);
    let into_tree = tree(&trees, "Person", MappingStrategy::Into);
    let person_mapper = apply_tree(mapper_tree, &[("name", "Marie")], &[]);
    let person_into = apply_tree(into_tree, &[("name", "Marie")], &[]);
    assert_eq!("Marie", get(&person_into, "name"));
    assert_eq!("Marie", get(&person_mapper, "name"));
}

#[test]
fn mapper_trait_converts_to_destination_value() {
    struct Fixed;
    impl mapper::Mapper<u32> for Fixed {
        fn to(&self) -> u32 {
            7
        }
    }
    assert_eq!(Fixed.to(), 7);
}
