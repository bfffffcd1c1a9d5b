use blazingly::contract::{SchemaKind, TypeDescriptor, TypeView};
use blazingly::json::{JsonEntry, JsonNumber, JsonValue};
use blazingly::body::Chunks;
use blazingly::operation::ApiSchema;
use blazingly::outcome::{serialize_success, ExecutionOutcome};
use blazingly::outputs::{
    record_response_size, response_size_hint, Created, NoContent, PreparedJson, ResponseHints,
    ResponseExt, MAX_RESPONSE_HINT, MIN_RESPONSE_HINT,
};

struct DocumentedPage;

impl ApiSchema for DocumentedPage {
    fn described() -> TypeView {
        unreachable!()
    }

    fn type_descriptor() -> TypeDescriptor {
        TypeDescriptor::scalar("DocumentedPage", SchemaKind::Object)
    }
}

/// Shapes stand for response types; two of them never share a slot here.
const FIRST_SHAPE: usize = 0x1000;
const SECOND_SHAPE: usize = 0x1010;

fn texts(items: &[&str]) -> JsonValue {
    JsonValue::list(items.iter().map(|item| JsonValue::text(item)).collect())
}

#[test]
fn prepared_json_encodes_a_borrowed_view() {
    let mut hints = ResponseHints::new();
    let body = PreparedJson::<DocumentedPage>::encode(&mut hints, FIRST_SHAPE, &texts(&["alpha", "beta"]))
        .expect("the view encodes");
    assert_eq!(body.as_bytes(), br#"["alpha","beta"]"#);
    assert_eq!(body.len(), 16);
    assert!(!body.is_empty());
}

#[test]
fn prepared_json_reports_the_declared_schema_not_its_bytes() {
    assert_eq!(
        PreparedJson::<DocumentedPage>::type_descriptor(),
        DocumentedPage::type_descriptor()
    );
}

#[test]
fn prepared_json_carries_adopted_bytes_verbatim() {
    let body = PreparedJson::<DocumentedPage>::from_bytes(b"{\"already\":\"encoded\"}".to_vec());
    assert_eq!(body.into_bytes(), b"{\"already\":\"encoded\"}".to_vec());
}

#[test]
fn an_unseen_response_shape_reserves_the_floor() {
    let hints = ResponseHints::new();
    assert_eq!(response_size_hint(&hints, FIRST_SHAPE), MIN_RESPONSE_HINT);
}

#[test]
fn a_recorded_response_shape_reserves_headroom() {
    let mut hints = ResponseHints::new();
    record_response_size(&mut hints, FIRST_SHAPE, 8192);
    let hint = response_size_hint(&hints, FIRST_SHAPE);
    assert!(hint > 8192, "the hint should leave room to grow: {hint}");
    assert!(hint <= MAX_RESPONSE_HINT);
    assert_eq!(hint, 8192 + 1024 + 32);
}

#[test]
fn an_outsized_response_cannot_pin_the_hint_above_the_ceiling() {
    let mut hints = ResponseHints::new();
    record_response_size(&mut hints, SECOND_SHAPE, usize::MAX);
    assert_eq!(response_size_hint(&hints, SECOND_SHAPE), MAX_RESPONSE_HINT);
}

#[test]
fn a_hint_is_kept_per_shape() {
    let mut hints = ResponseHints::new();
    record_response_size(&mut hints, FIRST_SHAPE, 4096);
    assert_eq!(response_size_hint(&hints, SECOND_SHAPE), MIN_RESPONSE_HINT);
    // A shape that shares the slot takes it over.
    record_response_size(&mut hints, FIRST_SHAPE + 512, 100);
    assert_eq!(response_size_hint(&hints, FIRST_SHAPE), MIN_RESPONSE_HINT);
}

#[test]
fn every_kind_of_value_is_written_in_its_notation() {
    let value = JsonValue::Object(vec![
        JsonEntry { key: "b".to_string(), value: JsonValue::Null },
        JsonEntry { key: "a".to_string(), value: JsonValue::Bool(true) },
        JsonEntry { key: "n".to_string(), value: JsonValue::Number(JsonNumber::Negative(-3)) },
        JsonEntry {
            key: "d".to_string(),
            value: JsonValue::Number(JsonNumber::Decimal("1.5".to_string())),
        },
        JsonEntry { key: "t".to_string(), value: JsonValue::text("x\"y") },
        JsonEntry { key: "u".to_string(), value: JsonValue::unsigned(18446744073709551615) },
    ]);
    let mut hints = ResponseHints::new();
    let body = PreparedJson::<DocumentedPage>::encode(&mut hints, FIRST_SHAPE, &value)
        .expect("the value encodes");
    let read: blazingly_json::Value =
        blazingly_json::from_slice(body.as_bytes()).expect("the notation is JSON");
    assert_eq!(read["a"], blazingly_json::Value::Bool(true));
    assert_eq!(read["b"], blazingly_json::Value::Null);
    assert_eq!(read["n"].as_i64(), Some(-3));
    assert_eq!(read["d"].as_f64(), Some(1.5));
    assert_eq!(read["t"].as_str(), Some("x\"y"));
    assert_eq!(read["u"].as_u64(), Some(u64::MAX));
}

#[test]
fn a_member_written_twice_counts_once() {
    let value = JsonValue::Object(vec![
        JsonEntry { key: "k".to_string(), value: JsonValue::unsigned(1) },
        JsonEntry { key: "k".to_string(), value: JsonValue::unsigned(2) },
    ]);
    assert_eq!(value.get("k"), Some(&JsonValue::unsigned(1)));
    let mut hints = ResponseHints::new();
    let body = PreparedJson::<DocumentedPage>::encode(&mut hints, FIRST_SHAPE, &value)
        .expect("the value encodes");
    assert_eq!(body.as_bytes(), br#"{"k":1}"#);
}

#[test]
fn headers_travel_beside_the_body() {
    let response = Created(7_u64)
        .header("location", "/users/7")
        .header("x-kind", "user");
    let (body, headers) = response.into_parts();
    assert_eq!(body.0, 7);
    let pairs: Vec<(&str, &str)> = headers
        .iter()
        .map(|header| (header.name.as_str(), header.value.as_str()))
        .collect();
    assert_eq!(pairs, [("location", "/users/7"), ("x-kind", "user")]);
    assert_eq!(NoContent::default(), NoContent);
}

#[test]
fn a_recorded_size_is_read_back_from_any_table() {
    fn recorded(hints: &mut ResponseHints, size: usize) -> usize {
        record_response_size(hints, FIRST_SHAPE, size);
        response_size_hint(hints, FIRST_SHAPE)
    }
    let mut hints = ResponseHints::new();
    assert_eq!(recorded(&mut hints, 8000), 8000 + 1000 + 32);
    assert_eq!(recorded(&mut hints, 16_000), 16_000 + 2000 + 32);
}

#[test]
fn a_success_records_the_size_of_its_body() {
    let mut hints = ResponseHints::new();
    let value = JsonValue::text(&"x".repeat(8000));
    let outcome: ExecutionOutcome<Chunks, (), ()> =
        serialize_success(&mut hints, FIRST_SHAPE, 201, &value);
    let ExecutionOutcome::Success { status, body: Some(body), .. } = outcome else {
        panic!("a text encodes");
    };
    assert_eq!((status, body.len()), (201, 8002));
    assert_eq!(response_size_hint(&hints, FIRST_SHAPE), 8002 + 1000 + 32);
}
