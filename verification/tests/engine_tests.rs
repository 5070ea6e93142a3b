use schemajs::engine::{validate_row_value, ColumnType, JsonKind, TableColumn, ValidationError};

fn common_table() -> Vec<TableColumn> {
    vec![
        TableColumn { name: "id".to_string(), data_type: ColumnType::String, required: false },
        TableColumn { name: "enabled".to_string(), data_type: ColumnType::Boolean, required: true },
    ]
}

#[test]
fn test_row_correct_validation() {
    let table = common_table();
    // {"id": "Hello", "enabled": true}
    let row = vec![Some(JsonKind::String), Some(JsonKind::Boolean)];
    validate_row_value(&table, &row).unwrap();
}

#[test]
fn test_row_invalid_boolean() {
    let table = common_table();
    // {"id": "1", "enabled": ""}
    let validate = validate_row_value(&table, &vec![Some(JsonKind::String), Some(JsonKind::String)]);
    assert!(validate.is_err());
    assert!(matches!(validate.err().unwrap(), ValidationError::ExpectedBoolean(_)));

    // {"id": "1"}
    let validate = validate_row_value(&table, &vec![Some(JsonKind::String), None]);
    assert!(matches!(validate.err().unwrap(), ValidationError::MissingColumn(_)));
}

#[test]
fn row_checks_name_the_failing_column() {
    let table = common_table();
    match validate_row_value(&table, &vec![Some(JsonKind::Other), Some(JsonKind::Boolean)]) {
        Err(ValidationError::ExpectedString(c)) => assert_eq!(c, "id"),
        other => panic!("unexpected {:?}", other),
    }
    match validate_row_value(&table, &vec![Some(JsonKind::String)]) {
        Err(ValidationError::MissingColumn(c)) => assert_eq!(c, "enabled"),
        other => panic!("unexpected {:?}", other),
    }
}

#[test]
fn a_missing_optional_column_ends_the_check() {
    // The optional column comes first and is absent: what follows is not looked at.
    let table = common_table();
    assert!(validate_row_value(&table, &vec![None, Some(JsonKind::Other)]).is_ok());
    // Columns of other types take any value.
    let any = vec![TableColumn { name: "created_at".to_string(), data_type: ColumnType::Other, required: true }];
    assert!(validate_row_value(&any, &vec![Some(JsonKind::Boolean)]).is_ok());
    assert!(validate_row_value(&Vec::new(), &Vec::new()).is_ok());
}
