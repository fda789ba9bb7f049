use rustlibraries::validate::{Field, Schema, ValidationError, Value, ValueType};

fn user_schema() -> Schema {
    Schema::new(vec![
        Field::required("id", ValueType::Int).number_range(0, 1_000_000),
        Field::required("email", ValueType::Text).min_len(5),
        Field::required("score", ValueType::Float),
        Field::optional("active", ValueType::Bool),
        Field::required("tags", ValueType::List(Box::new(ValueType::Text))),
    ])
}

#[test]
fn validates_object_schema() {
    let value = Value::object(vec![
        ("id", Value::Int(7)),
        ("email", Value::Text("user@example.test".to_string())),
        ("score", Value::Float(91.5f64.to_bits())),
        ("active", Value::Bool(true)),
        (
            "tags",
            Value::list(vec![Value::Text("alpha".to_string()), Value::Text("beta".to_string())]),
        ),
    ]);
    let validated = user_schema().validate(&value).unwrap();
    assert_eq!(validated.get("id"), Some(&Value::Int(7)));
}

#[test]
fn reports_missing_fields() {
    let value = Value::object(vec![("id", Value::Int(7))]);
    assert_eq!(
        user_schema().validate(&value).unwrap_err(),
        ValidationError::MissingField("email".to_string())
    );
}

#[test]
fn reports_nested_list_type_mismatch() {
    let value = Value::object(vec![
        ("id", Value::Int(7)),
        ("email", Value::Text("user@example.test".to_string())),
        ("score", Value::Float(91.5f64.to_bits())),
        ("tags", Value::list(vec![Value::Text("ok".to_string()), Value::Int(3)])),
    ]);
    assert_eq!(
        user_schema().validate(&value).unwrap_err(),
        ValidationError::TypeMismatch { field: "tags".to_string(), expected: ValueType::Text, actual: "int" }
    );
}

#[test]
fn reports_string_constraints() {
    let value = Value::object(vec![
        ("id", Value::Int(7)),
        ("email", Value::Text("x".to_string())),
        ("score", Value::Float(91.5f64.to_bits())),
        ("tags", Value::list(vec![Value::Text("ok".to_string())])),
    ]);
    assert_eq!(
        user_schema().validate(&value).unwrap_err(),
        ValidationError::MinLength { field: "email".to_string(), min: 5, actual: 1 }
    );
}

#[test]
fn reports_root_and_number_range_errors() {
    assert_eq!(user_schema().validate(&Value::Int(1)).unwrap_err(), ValidationError::RootNotObject);
    let schema = Schema::new(vec![Field::required("n", ValueType::Int).number_range(0, 10)]);
    assert_eq!(
        schema.validate(&Value::object(vec![("n", Value::Int(-1))])).unwrap_err(),
        ValidationError::NumberTooSmall { field: "n".to_string(), min: 0, actual: -1 }
    );
    assert_eq!(
        schema.validate(&Value::object(vec![("n", Value::Int(11))])).unwrap_err(),
        ValidationError::NumberTooLarge { field: "n".to_string(), max: 10, actual: 11 }
    );
    // an integer is accepted where a float is expected; null passes an optional field
    let schema = Schema::new(vec![Field::required("x", ValueType::Float), Field::optional("y", ValueType::Int)]);
    assert!(schema.validate(&Value::object(vec![("x", Value::Int(2)), ("y", Value::Null)])).is_ok());
    assert_eq!(
        schema.validate(&Value::object(vec![("x", Value::Text("2".to_string()))])).unwrap_err(),
        ValidationError::TypeMismatch { field: "x".to_string(), expected: ValueType::Float, actual: "text" }
    );
}

#[test]
fn later_entry_wins_and_many_stops_at_first_failure() {
    let value = Value::object(vec![("a", Value::Int(1)), ("a", Value::Int(2))]);
    let schema = Schema::new(vec![Field::required("a", ValueType::Int)]);
    assert_eq!(schema.validate(&value).unwrap().get("a"), Some(&Value::Int(2)));
    let values = vec![value, Value::Null, Value::object(vec![])];
    assert_eq!(schema.validate_many(&values).unwrap_err(), ValidationError::RootNotObject);
    assert_eq!(schema.validate_many(&values[..1]).unwrap().len(), 1);
    // text length is measured in UTF-8 bytes
    let schema = Schema::new(vec![Field::required("t", ValueType::Text).min_len(3)]);
    assert!(schema.validate(&Value::object(vec![("t", Value::Text("\u{e9}\u{e9}".to_string()))])).is_ok());
}

#[test]
fn objects_are_kept_sorted_with_one_entry_per_name() {
    let a = Value::object(vec![("b", Value::Int(1)), ("a", Value::Int(2)), ("b", Value::Int(3))]);
    let b = Value::object(vec![("a", Value::Int(2)), ("b", Value::Int(3))]);
    assert_eq!(a, b);
    match a {
        Value::Object(entries) => {
            let names: Vec<&str> = entries.iter().map(|e| e.name.as_str()).collect();
            assert_eq!(names, vec!["a", "b"]);
        }
        _ => panic!("expected an object"),
    }
    let c = Value::object(vec![("\u{e9}", Value::Null), ("z", Value::Null), ("A", Value::Null)]);
    match c {
        Value::Object(entries) => {
            let names: Vec<&str> = entries.iter().map(|e| e.name.as_str()).collect();
            assert_eq!(names, vec!["A", "z", "\u{e9}"]);
        }
        _ => panic!("expected an object"),
    }
}

#[test]
fn validation_error_messages() {
    assert_eq!(
        ValidationError::TypeMismatch {
            field: "tags".to_string(),
            expected: ValueType::List(Box::new(ValueType::Text)),
            actual: "int"
        }
        .message(),
        "field tags expected List(Text), received int"
    );
    assert_eq!(
        ValidationError::MinLength { field: "email".to_string(), min: 5, actual: 1 }.message(),
        "field email length 1 is below minimum 5"
    );
    assert_eq!(
        ValidationError::NumberTooSmall { field: "n".to_string(), min: 0, actual: -1 }.message(),
        "field n value -1 is below minimum 0"
    );
    assert_eq!(ValidationError::RootNotObject.message(), "root value must be an object");
}
