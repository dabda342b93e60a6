use mapper::attr::field::To;
use mapper::attr::field::ToCreationError;

#[test]
fn should_failed_if_type_is_not_specified() {
    let path = "field_value".to_string();
    let with = "with_value".to_string();
    let res = To::new(None, Some(path), Some(with));
    let err = res.err().unwrap();
    assert!(matches!(err, ToCreationError::MissingDestination));
}

#[test]
fn should_failed_if_config_is_not_specified() {
    let res = To::new(None, None, None);
    let err = res.err().unwrap();
    assert!(matches!(err, ToCreationError::MissingConfigField));
}

#[test]
fn should_build_fully_configured_to() {
    let res = To::new(
        Some("Vehicule".to_string()),
        Some("name".to_string()),
        Some("mapfunc".to_string()),
    )
    .unwrap();
    assert_eq!("Vehicule", res.ty);
    assert_eq!("name", res.field.unwrap());
    assert_eq!("mapfunc", res.with.unwrap());
}
