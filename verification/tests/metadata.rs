use blazingly::json::{JsonNumber, JsonValue};
use blazingly::metadata::{merge_field_validation_errors, merge_validation_errors, FieldMetadata};
use blazingly::operation::{is_email, ValidationErrors};

fn violations(field: &str, nested: &ValidationErrors) -> Vec<String> {
    let mut merged = ValidationErrors::new();
    merge_field_validation_errors(&mut merged, field, nested);
    merged
        .violations()
        .iter()
        .map(|violation| violation.field.clone())
        .collect()
}

#[test]
fn a_field_validator_that_names_its_own_field_is_not_doubled() {
    let mut reported = ValidationErrors::new();
    reported.push("published_at", "too_far_ahead", "too far ahead");
    assert_eq!(violations("published_at", &reported), ["published_at"]);
}

#[test]
fn a_field_validator_may_still_report_a_path_inside_the_value() {
    let mut reported = ValidationErrors::new();
    reported.push("", "invalid", "invalid");
    reported.push("window.end", "invalid", "invalid");
    reported.push("slots[0]", "invalid", "invalid");
    reported.push("end", "invalid", "invalid");
    assert_eq!(
        violations("window", &reported),
        ["window", "window.end", "window.slots[0]", "window.end"]
    );
}

#[test]
fn an_unnamed_field_leaves_the_reported_path_alone() {
    let mut reported = ValidationErrors::new();
    reported.push("street", "min_length", "too short");
    assert_eq!(violations("", &reported), ["street"]);
}

#[test]
fn nested_violations_move_below_their_field() {
    let mut nested = ValidationErrors::new();
    nested.push("street", "min_length", "too short");
    let mut merged = ValidationErrors::new();
    merged.push("name", "email", "no email");
    merge_validation_errors(&mut merged, "address", &nested);
    let fields: Vec<&str> = merged
        .violations()
        .iter()
        .map(|violation| violation.field.as_str())
        .collect();
    assert_eq!(fields, ["name", "address.street"]);
    assert!(!merged.is_empty());
    assert!(ValidationErrors::new().is_empty());
}

#[test]
fn field_metadata_round_trips_through_its_encoding() {
    for metadata in [
        FieldMetadata::Default(JsonValue::unsigned(20)),
        FieldMetadata::Default(JsonValue::text("draft")),
        FieldMetadata::Default(JsonValue::flag(true)),
        FieldMetadata::Nullable,
        FieldMetadata::Enumeration(vec!["uk".to_string(), "ru".to_string()]),
    ] {
        let encoded = metadata.to_string().expect("the metadata encodes");
        assert_eq!(
            FieldMetadata::parse(&encoded),
            Some(metadata),
            "{encoded} did not round trip"
        );
    }

    assert_eq!(FieldMetadata::parse("min_items=2"), None);
    assert_eq!(FieldMetadata::parse("validate_code"), None);
    assert_eq!(FieldMetadata::parse("nullable=false"), None);
}

#[test]
fn field_metadata_projects_json_schema_keywords() {
    let mut schema = JsonValue::object().with("type", JsonValue::text("integer"));
    FieldMetadata::Default(JsonValue::unsigned(20)).apply_json_schema(&mut schema);
    FieldMetadata::Nullable.apply_json_schema(&mut schema);
    FieldMetadata::Enumeration(vec!["uk".to_string()]).apply_json_schema(&mut schema);

    assert_eq!(schema.get("default"), Some(&JsonValue::unsigned(20)));
    assert_eq!(schema.get("nullable"), Some(&JsonValue::flag(true)));
    assert_eq!(
        schema.get("enum"),
        Some(&JsonValue::list(vec![JsonValue::text("uk")]))
    );
}

#[test]
fn a_default_is_read_in_json_notation() {
    assert_eq!(
        FieldMetadata::parse("default=-4"),
        Some(FieldMetadata::Default(JsonValue::Number(
            JsonNumber::Negative(-4)
        )))
    );
    assert_eq!(
        FieldMetadata::parse("default=2.5"),
        Some(FieldMetadata::Default(JsonValue::Number(
            JsonNumber::Decimal("2.5".to_string())
        )))
    );
    assert_eq!(FieldMetadata::parse("default=draft"), None);
}

#[test]
fn only_addresses_are_emails() {
    assert!(is_email("ada@example.com"));
    assert!(!is_email("ada"));
    assert!(!is_email("@example.com"));
    assert!(!is_email("ada@"));
}
