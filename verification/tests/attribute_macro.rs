use mapper::MappingStrategy;
use mapper::SpannedItem;
use mapper::ast::data_type::Struct;
use mapper::ast::field::Field;
use mapper::ast::field::Member;
use mapper::ast::mapping_field::SourceExpr;
use mapper::attr::data_type::Params as TypeParams;
use mapper::attr::field::Params as FieldParams;

fn map(txt: &str) -> String {
    txt.to_uppercase()
}

#[test]
fn test_macro() {
    // Animal, automatic destination Vehicule; field `name` renamed to
    // `_name` and routed through `map`.
    let type_dirs = vec![TypeParams::new(vec!["Vehicule".to_string()], Vec::new())];
    let directive = FieldParams::new(
        Some("Vehicule".to_string()),
        Some("_name".to_string()),
        vec![SpannedItem::new("map".to_string(), MappingStrategy::default())],
        SpannedItem::new_empty(false),
        Vec::new(),
    )
    .unwrap();
    let fields = vec![Field::new(
        Member::Named("name".to_string()),
        "String".to_string(),
        vec![directive],
    )];
    let trees = Struct::new("Animal".to_string(), &type_dirs, fields)
        .unwrap()
        .resolve()
        .unwrap();
    assert_eq!(trees.len(), 1);
    let tree = &trees[0];
    assert_eq!(tree.destination, "Vehicule");
    assert_eq!(tree.strategy, MappingStrategy::Mapper);
    assert_eq!(tree.mapping_fields.len(), 1);
    let mf = &tree.mapping_fields[0];
    assert_eq!(mf.get_dest_field(), Member::Named("_name".to_string()));
    let animal_name = "Toto";
    let vehicule_name = match mf.get_src_field() {
        SourceExpr::TransformCall(f) => {
            assert_eq!(f, "map");
            map(animal_name)
        }
        _ => panic!("expected a transform call"),
    };
    assert_eq!(vehicule_name, "TOTO")
}
