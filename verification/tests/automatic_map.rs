use mapper::MappingStrategy;
use mapper::SpannedItem;
use mapper::ast::data_type::Struct;
use mapper::ast::field::Field;
use mapper::ast::field::Member;
use mapper::ast::mapping_field::SourceExpr;
use mapper::ast::mapping_tree::MappingTree;
use mapper::attr::data_type::Params as TypeParams;

fn type_directive(dests: &[&str], strategy_tokens: &[&str]) -> TypeParams {
    let mut strategies = Vec::new();
    for t in strategy_tokens {
        for st in MappingStrategy::str_to_hash_set(t).unwrap() {
            strategies.push(SpannedItem::new(t.to_string(), st));
        }
    }
    TypeParams::new(dests.iter().map(|d| d.to_string()).collect(), strategies)
}

fn plain_field(name: &str, ty: &str) -> Field {
    Field::new(Member::Named(name.to_string()), ty.to_string(), Vec::new())
}

fn resolve(ident: &str, type_dirs: Vec<TypeParams>, fields: Vec<Field>) -> Vec<MappingTree> {
    Struct::new(ident.to_string(), &type_dirs, fields)
        .unwrap()
        .resolve()
        .unwrap()
}

fn apply_tree(tree: &MappingTree, record: &[(&str, &str)]) -> Vec<(String, String)> {
    tree.mapping_fields
        .iter()
        .map(|mf| {
            let dest_name = match mf.get_dest_field() {
                Member::Named(n) => n,
                Member::Unnamed(i) => i.to_string(),
            };
            let src_name = match &mf.member {
                Member::Named(n) => n.clone(),
                Member::Unnamed(i) => i.to_string(),
            };
            let src_val = record.iter().find(|(n, _)| *n == src_name).unwrap().1;
            assert!(matches!(mf.get_src_field(), SourceExpr::DirectCopy));
            (dest_name, src_val.to_string())
        })
        .collect()
}

fn get(pairs: &[(String, String)], name: &str) -> String {
    pairs.iter().find(|(n, _)| n == name).unwrap().1.clone()
}

#[test]
pub fn derive_should_clone_multiple_fields() {
    let trees = resolve(
        "User",
        vec![type_directive(&["Person"], &[])],
        vec![plain_field("name", "String"), plain_field("account_id", "String")],
    );
    assert_eq!(trees.len(), 1);
    let person = apply_tree(&trees[0], &[("name", "Marie"), ("account_id", "ID-123")]);
    assert_eq!(get(&person, "name"), "Marie");
    assert_eq!(get(&person, "account_id"), "ID-123");
}

#[test]
pub fn derive_should_clone_one_field() {
    let trees = resolve(
        "User",
        vec![type_directive(&["Person"], &[])],
        vec![plain_field("name", "String")],
    );
    assert_eq!(trees.len(), 1);
    let person = apply_tree(&trees[0], &[("name", "Marie")]);
    assert_eq!(get(&person, "name"), "Marie");
}

#[test]
pub fn derive_should_works_with_generic_types() {
    let trees = resolve(
        "User",
        vec![type_directive(&["Person<String>"], &[])],
        vec![plain_field("name", "String")],
    );
    assert_eq!(trees.len(), 1);
    assert_eq!(trees[0].destination, "Person<String>");
    let person = apply_tree(&trees[0], &[("name", "Marie")]);
    assert_eq!(get(&person, "name"), "Marie");
}
