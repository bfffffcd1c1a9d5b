use blazingly::contract::{
    FieldDescriptor, ModelDescriptor, ModelView, SchemaKind, TypeDescriptor, TypeView,
    ValidationRule,
};
use blazingly::json::{JsonValue, JsonView};
use blazingly::metadata::FieldMetadata;
use blazingly::text::TextView;
use blazingly::schema::{
    apply_field_metadata, apply_validation, model_schema, schema_value, SchemaDialect,
};

/// Dialect that inlines models.
struct Inline;

impl SchemaDialect for Inline {
    fn model_projected(&self, _descriptor: TypeView, _model: ModelView) -> JsonView {
        unreachable!()
    }

    fn binary_projected(&self) -> JsonView {
        unreachable!()
    }

    fn validator_projected(&self, _node: JsonView, _validator: TextView) -> Option<JsonView> {
        unreachable!()
    }

    fn model_node(&self, _descriptor: &TypeDescriptor, model: &ModelDescriptor) -> JsonValue {
        model_schema(self, model)
    }

    fn binary_node(&self) -> JsonValue {
        JsonValue::object()
            .with("type", JsonValue::text("string"))
            .with("contentEncoding", JsonValue::text("base64"))
    }

    fn project_custom_validator(&self, _schema: &mut JsonValue, _validator: &str) -> bool {
        false
    }
}

/// Dialect that references models.
struct Referencing;

impl SchemaDialect for Referencing {
    fn model_projected(&self, _descriptor: TypeView, _model: ModelView) -> JsonView {
        unreachable!()
    }

    fn binary_projected(&self) -> JsonView {
        unreachable!()
    }

    fn validator_projected(&self, _node: JsonView, _validator: TextView) -> Option<JsonView> {
        unreachable!()
    }

    fn model_node(&self, _descriptor: &TypeDescriptor, model: &ModelDescriptor) -> JsonValue {
        JsonValue::object().with(
            "$ref",
            JsonValue::text(&format!("#/components/schemas/{}", model.name)),
        )
    }

    fn binary_node(&self) -> JsonValue {
        JsonValue::object()
            .with("type", JsonValue::text("string"))
            .with("format", JsonValue::text("binary"))
    }

    fn project_custom_validator(&self, schema: &mut JsonValue, validator: &str) -> bool {
        if validator == "handled" {
            schema.set("x-handled", JsonValue::flag(true));
            return true;
        }
        false
    }
}

fn article() -> ModelDescriptor {
    ModelDescriptor::new(
        "Article",
        vec![FieldDescriptor::new(
            "title",
            true,
            TypeDescriptor::scalar("String", SchemaKind::String),
            Vec::new(),
        )],
    )
}

/// The value below a list of keys; a number reads as an index.
fn below<'value>(value: &'value JsonValue, path: &[&str]) -> Option<&'value JsonValue> {
    let mut reached = value;
    for key in path {
        reached = match reached {
            JsonValue::Array(items) => items.get(key.parse::<usize>().ok()?)?,
            other => other.get(key)?,
        };
    }
    Some(reached)
}

fn text_below<'value>(value: &'value JsonValue, path: &[&str]) -> Option<&'value str> {
    below(value, path).and_then(|found| found.as_str())
}

#[test]
fn the_dialect_decides_how_a_model_appears() {
    let descriptor = TypeDescriptor::model(article());

    let inline = schema_value(&Inline, &descriptor);
    let referenced = schema_value(&Referencing, &descriptor);

    assert_eq!(text_below(&inline, &["type"]), Some("object"));
    assert_eq!(
        text_below(&inline, &["properties", "title", "type"]),
        Some("string")
    );
    assert_eq!(
        text_below(&referenced, &["$ref"]),
        Some("#/components/schemas/Article")
    );
}

#[test]
fn the_dialect_decides_how_binary_payloads_are_spelled() {
    let descriptor = TypeDescriptor::scalar("Vec<u8>", SchemaKind::Binary);

    assert_eq!(
        text_below(&schema_value(&Inline, &descriptor), &["contentEncoding"]),
        Some("base64")
    );
    assert_eq!(
        text_below(&schema_value(&Referencing, &descriptor), &["format"]),
        Some("binary")
    );
}

/// The bounds a type declares survive every nesting the traversal reaches.
#[test]
fn type_constraints_recurse_into_items_at_any_depth() {
    let tag = TypeDescriptor::scalar("Tag", SchemaKind::String).with_constraints(vec![
        ValidationRule::MinLength(1),
        ValidationRule::MaxLength(20),
    ]);
    let tags = TypeDescriptor {
        rust_name: "Vec<Vec<Tag>>".to_string(),
        schema: SchemaKind::Array(Box::new(SchemaKind::Array(Box::new(SchemaKind::String)))),
        model: None,
        items: Some(Box::new(TypeDescriptor {
            rust_name: "Vec<Tag>".to_string(),
            schema: SchemaKind::Array(Box::new(SchemaKind::String)),
            model: None,
            items: Some(Box::new(tag)),
            constraints: Vec::new(),
        })),
        constraints: Vec::new(),
    };

    for dialect in [
        schema_value(&Inline, &tags),
        schema_value(&Referencing, &tags),
    ] {
        assert_eq!(
            below(&dialect, &["items", "items", "minLength"]),
            Some(&JsonValue::unsigned(1))
        );
        assert_eq!(
            below(&dialect, &["items", "items", "maxLength"]),
            Some(&JsonValue::unsigned(20))
        );
        assert!(below(&dialect, &["minLength"]).is_none());
    }
}

#[test]
fn nullability_widens_a_type_and_wraps_a_reference() {
    let widened = JsonValue::list(vec![JsonValue::text("string"), JsonValue::text("null")]);
    let mut typed = JsonValue::object().with("type", JsonValue::text("string"));
    apply_field_metadata(&mut typed, &FieldMetadata::Nullable);
    assert_eq!(typed.get("type"), Some(&widened));

    apply_field_metadata(&mut typed, &FieldMetadata::Nullable);
    assert_eq!(
        typed.get("type"),
        Some(&widened),
        "widening is idempotent"
    );

    let mut referenced =
        JsonValue::object().with("$ref", JsonValue::text("#/components/schemas/Article"));
    apply_field_metadata(&mut referenced, &FieldMetadata::Nullable);
    assert_eq!(
        text_below(&referenced, &["anyOf", "0", "$ref"]),
        Some("#/components/schemas/Article")
    );
    assert_eq!(text_below(&referenced, &["anyOf", "1", "type"]), Some("null"));
}

#[test]
fn a_custom_validator_is_offered_to_the_dialect_before_the_extension_array() {
    let handled_rule = vec![ValidationRule::Custom("handled".to_string())];
    let mut handled = JsonValue::object().with("type", JsonValue::text("string"));
    apply_validation(&Referencing, &mut handled, &handled_rule);
    assert_eq!(handled.get("x-handled"), Some(&JsonValue::flag(true)));
    assert!(handled.get("x-blazingly-validators").is_none());

    let opaque = JsonValue::list(vec![JsonValue::text("opaque")]);
    let opaque_rule = vec![ValidationRule::Custom("opaque".to_string())];
    let mut declined = JsonValue::object().with("type", JsonValue::text("string"));
    apply_validation(&Referencing, &mut declined, &opaque_rule);
    assert_eq!(declined.get("x-blazingly-validators"), Some(&opaque));

    apply_validation(&Referencing, &mut declined, &opaque_rule);
    assert_eq!(
        declined.get("x-blazingly-validators"),
        Some(&opaque),
        "a doubly projected validator is recorded once"
    );
}

#[test]
fn a_null_becomes_a_node_with_its_first_keyword() {
    let mut null = JsonValue::Null;
    apply_field_metadata(&mut null, &FieldMetadata::Nullable);
    assert_eq!(null, JsonValue::Null);
    apply_field_metadata(&mut null, &FieldMetadata::Default(JsonValue::unsigned(3)));
    assert_eq!(null.get("default"), Some(&JsonValue::unsigned(3)));

    let mut bounded = JsonValue::Null;
    apply_validation(
        &Referencing,
        &mut bounded,
        &vec![ValidationRule::MinLength(2), ValidationRule::Alias("short".to_string())],
    );
    assert_eq!(bounded.get("minLength"), Some(&JsonValue::unsigned(2)));
    assert_eq!(
        bounded.get("x-blazingly-aliases"),
        Some(&JsonValue::list(vec![JsonValue::text("short")]))
    );
}

#[test]
fn a_list_is_asked_for_only_where_a_rule_goes_into_it() {
    let mut odd = JsonValue::object()
        .with("x-blazingly-aliases", JsonValue::text("none"))
        .with("x-blazingly-validators", JsonValue::Null);
    apply_validation(
        &Referencing,
        &mut odd,
        &vec![ValidationRule::Email, ValidationRule::Custom("handled".to_string())],
    );
    assert_eq!(odd.get("format"), Some(&JsonValue::text("email")));
    assert_eq!(odd.get("x-handled"), Some(&JsonValue::flag(true)));
    assert_eq!(odd.get("x-blazingly-aliases"), Some(&JsonValue::text("none")));

    let mut text = JsonValue::text("kept");
    apply_field_metadata(&mut text, &FieldMetadata::Nullable);
    assert_eq!(text, JsonValue::text("kept"));
}
