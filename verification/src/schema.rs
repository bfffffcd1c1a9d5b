//! The JSON Schema projection of types and models.
//!
//! Several documents describe the same operations, so they project the same
//! types. What they agree on stands here once; what they differ on is supplied
//! through a dialect.
use crate::contract::{
    FieldView, ModelDescriptor, ModelView, RuleView, SchemaKind, TypeDescriptor, TypeView,
    ValidationRule, rules_view,
};
use crate::json::{members, JsonValue, JsonView, NumberView};
use crate::metadata::{metadata_parsed, text_list, texts_value, FieldMetadata, MetadataView};
use crate::operation::texts;
use crate::text::{eq_text, TextView};
use crate::uploads::member;
use vstd::prelude::*;
use vstd::string::*;

verus! {

/// The member under a key is a list, or there is none.
pub open spec fn list_or_absent(node: JsonView, key: Seq<char>) -> bool {
    match member(node, key) {
        Some(value) => value is List,
        None => true,
    }
}

/// A schema node: an object whose extension lists are lists.
pub open spec fn is_node(node: JsonView) -> bool {
    &&& node is Object
    &&& list_or_absent(node, "x-blazingly-aliases"@)
    &&& list_or_absent(node, "x-blazingly-validators"@)
}

/// A keyword can be set: an object takes it, and a null becomes an object.
pub open spec fn takes_keywords(node: JsonView) -> bool {
    node is Object || node is Null
}

/// A name can be added to an extension list: there is one, or room for one.
pub open spec fn takes_names(node: JsonView, keyword: Seq<char>) -> bool {
    node is Object && list_or_absent(node, keyword)
}

/// Metadata can be projected. Being nullable leaves alone what is no object.
pub open spec fn takes_metadata(node: JsonView, metadata: MetadataView) -> bool {
    metadata is Nullable || takes_keywords(node)
}

/// A rule can be projected: an extension list is asked for only where the rule
/// goes into it.
pub open spec fn takes_rule<D: SchemaDialect>(dialect: &D, node: JsonView, rule: RuleView) -> bool {
    match rule {
        RuleView::Alias(_) => takes_names(node, "x-blazingly-aliases"@),
        RuleView::Custom(validator) => match metadata_parsed(validator) {
            Some(metadata) => takes_metadata(node, metadata),
            None => dialect.validator_projected(node, validator) is Some || takes_names(
                node,
                "x-blazingly-validators"@,
            ),
        },
        _ => takes_keywords(node),
    }
}

/// Rules can be projected, one after the other. A schema node takes them all.
pub open spec fn takes_rules<D: SchemaDialect>(
    dialect: &D,
    node: JsonView,
    rules: Seq<RuleView>,
) -> bool
    decreases rules.len(),
{
    ||| is_node(node)
    ||| rules.len() == 0
    ||| takes_rule(dialect, node, rules[0]) && takes_rules(
        dialect,
        with_rule(dialect, node, rules[0]),
        rules.drop_first(),
    )
}

/// Format decisions that distinguish one JSON Schema output from another.
pub trait SchemaDialect {
    /// What the dialect projects where a model-typed value appears.
    spec fn model_projected(&self, ty: TypeView, model: ModelView) -> JsonView;

    /// What the dialect projects for a binary payload.
    spec fn binary_projected(&self) -> JsonView;

    /// What the dialect makes of a node for a custom validator it knows.
    spec fn validator_projected(&self, node: JsonView, validator: TextView) -> Option<JsonView>;

    /// The node projected where a model-typed value appears.
    fn model_node(&self, descriptor: &TypeDescriptor, model: &ModelDescriptor) -> (node: JsonValue)
        ensures
            node@ == self.model_projected(descriptor@, model@),
            is_node(node@),
    ;

    /// The node projected for a binary payload.
    fn binary_node(&self) -> (node: JsonValue)
        ensures
            node@ == self.binary_projected(),
            is_node(node@),
    ;

    /// Projects one opaque custom validator, and says whether it did.
    fn project_custom_validator(&self, schema: &mut JsonValue, validator: &str) -> (handled: bool)
        ensures
            is_node(old(schema)@) ==> is_node(final(schema)@),
            match self.validator_projected(old(schema)@, validator@) {
                Some(node) => handled && final(schema)@ == node,
                None => !handled && final(schema)@ == old(schema)@,
            },
    ;
}

// ---------------------------------------------------------------------------
// Nodes
// ---------------------------------------------------------------------------

/// A node with a member set.
pub open spec fn put(node: JsonView, key: Seq<char>, value: JsonView) -> JsonView {
    JsonView::Object(members(node).insert(key, value))
}

/// The node that names a type.
pub open spec fn typed(name: Seq<char>) -> JsonView {
    JsonView::Object(map!["type"@ => JsonView::Text(name)])
}

/// The node of an array with a node for its items.
pub open spec fn array_of(items: JsonView) -> JsonView {
    JsonView::Object(map!["type"@ => JsonView::Text("array"@), "items"@ => items])
}

/// The names in an extension list.
pub open spec fn names_in(node: JsonView, keyword: Seq<char>) -> Seq<JsonView> {
    match member(node, keyword) {
        Some(JsonView::List(names)) => names,
        _ => Seq::empty(),
    }
}

/// A node with a name in an extension list, once.
pub open spec fn extended(node: JsonView, keyword: Seq<char>, name: Seq<char>) -> JsonView {
    let names = names_in(node, keyword);
    if names.contains(JsonView::Text(name)) {
        node
    } else {
        put(node, keyword, JsonView::List(names.push(JsonView::Text(name))))
    }
}

/// A node that also accepts null: its type becomes a union, and a reference is
/// wrapped.
pub open spec fn widened(node: JsonView) -> JsonView {
    match member(node, "type"@) {
        Some(JsonView::Text(name)) => put(node, "type"@, text_list(seq![name, "null"@])),
        Some(JsonView::List(names)) => if names.contains(JsonView::Text("null"@)) {
            node
        } else {
            put(node, "type"@, JsonView::List(names.push(JsonView::Text("null"@))))
        },
        _ => if member(node, "$ref"@) is Some {
            JsonView::Object(map!["anyOf"@ => JsonView::List(seq![node, typed("null"@)])])
        } else {
            node
        },
    }
}

/// A node with metadata projected into it.
pub open spec fn with_metadata(node: JsonView, metadata: MetadataView) -> JsonView {
    match metadata {
        MetadataView::Default(value) => put(node, "default"@, value),
        MetadataView::Enumeration(values) => put(node, "enum"@, text_list(values)),
        MetadataView::Nullable => widened(node),
    }
}

/// A node with one validation rule projected into it.
pub open spec fn with_rule<D: SchemaDialect>(dialect: &D, node: JsonView, rule: RuleView) -> JsonView {
    match rule {
        RuleView::MinLength(value) => put(
            node,
            "minLength"@,
            JsonView::Number(NumberView::Unsigned(value as u64)),
        ),
        RuleView::MaxLength(value) => put(
            node,
            "maxLength"@,
            JsonView::Number(NumberView::Unsigned(value as u64)),
        ),
        RuleView::Email => put(node, "format"@, JsonView::Text("email"@)),
        RuleView::Alias(alias) => extended(node, "x-blazingly-aliases"@, alias),
        RuleView::Custom(validator) => match metadata_parsed(validator) {
            Some(metadata) => with_metadata(node, metadata),
            None => match dialect.validator_projected(node, validator) {
                Some(projected) => projected,
                None => extended(node, "x-blazingly-validators"@, validator),
            },
        },
        RuleView::Nested => put(node, "x-blazingly-nested-validation"@, JsonView::Bool(true)),
    }
}

/// A node with validation rules projected into it, in order.
pub open spec fn with_rules<D: SchemaDialect>(
    dialect: &D,
    node: JsonView,
    rules: Seq<RuleView>,
) -> JsonView
    decreases rules.len(),
{
    if rules.len() == 0 {
        node
    } else {
        with_rule(dialect, with_rules(dialect, node, rules.drop_last()), rules.last())
    }
}

/// The projection of a bare schema kind.
pub open spec fn kind_schema<D: SchemaDialect>(dialect: &D, schema: SchemaKind) -> JsonView
    decreases schema,
{
    match schema {
        SchemaKind::String => typed("string"@),
        SchemaKind::Binary => dialect.binary_projected(),
        SchemaKind::Integer => typed("integer"@),
        SchemaKind::Number => typed("number"@),
        SchemaKind::Boolean => typed("boolean"@),
        SchemaKind::Array(item) => array_of(kind_schema(dialect, *item)),
        SchemaKind::Object => typed("object"@),
        SchemaKind::Any => JsonView::Object(Map::empty()),
    }
}

/// The string format that a well-known type name stands for.
pub open spec fn known_format(rust_name: Seq<char>) -> Option<Seq<char>> {
    if rust_name == "Uuid"@ {
        Some("uuid"@)
    } else if rust_name == "Url"@ {
        Some("uri"@)
    } else if rust_name == "IpAddress"@ {
        Some("ip"@)
    } else if rust_name == "Date"@ {
        Some("date"@)
    } else if rust_name == "DateTime"@ {
        Some("date-time"@)
    } else if rust_name == "Decimal"@ {
        Some("decimal"@)
    } else {
        None
    }
}

/// A node with the format of a well-known type name.
pub open spec fn with_known_format(node: JsonView, rust_name: Seq<char>) -> JsonView {
    match known_format(rust_name) {
        Some(format) => put(node, "format"@, JsonView::Text(format)),
        None => node,
    }
}

/// The projection of a type, with the rules the type itself declares.
pub open spec fn type_schema<D: SchemaDialect>(dialect: &D, ty: TypeView) -> JsonView
    decreases ty,
{
    let node = match ty.model {
        Some(model) => dialect.model_projected(ty, *model),
        None => {
            let bare = match (ty.schema, ty.items) {
                (SchemaKind::Array(_), Some(items)) => array_of(type_schema(dialect, *items)),
                _ => kind_schema(dialect, ty.schema),
            };
            put(
                with_known_format(bare, ty.rust_name),
                "x-rust-type"@,
                JsonView::Text(ty.rust_name),
            )
        },
    };
    with_rules(dialect, node, ty.constraints)
}

/// The property nodes of the first so many fields of a model.
pub open spec fn properties<D: SchemaDialect>(dialect: &D, model: ModelView, count: nat) -> Map<
    Seq<char>,
    JsonView,
>
    decreases count,
{
    if count == 0 {
        Map::empty()
    } else {
        let field = model.fields[count - 1];
        properties(dialect, model, (count - 1) as nat).insert(
            field.name,
            with_rules(dialect, type_schema(dialect, field.ty), field.validation),
        )
    }
}

/// The names of the required fields among the first so many of a model.
pub open spec fn required_names(model: ModelView, count: nat) -> Seq<Seq<char>>
    decreases count,
{
    if count == 0 {
        Seq::empty()
    } else {
        let before = required_names(model, (count - 1) as nat);
        if model.fields[count - 1].required {
            before.push(model.fields[count - 1].name)
        } else {
            before
        }
    }
}

/// The projection of a model as a full object schema.
pub open spec fn object_schema<D: SchemaDialect>(dialect: &D, model: ModelView) -> JsonView {
    JsonView::Object(
        map![
            "type"@ => JsonView::Text("object"@),
            "properties"@ => JsonView::Object(properties(dialect, model, model.fields.len())),
            "required"@ => text_list(required_names(model, model.fields.len())),
            "additionalProperties"@ => JsonView::Bool(false),
        ],
    )
}

proof fn lemma_keys()
    ensures
        "x-blazingly-aliases"@ != "x-blazingly-validators"@,
        "x-blazingly-aliases"@ != "type"@,
        "x-blazingly-validators"@ != "type"@,
        "x-blazingly-aliases"@ != "items"@,
        "x-blazingly-validators"@ != "items"@,
        "x-blazingly-aliases"@ != "format"@,
        "x-blazingly-validators"@ != "format"@,
        "x-blazingly-aliases"@ != "default"@,
        "x-blazingly-validators"@ != "default"@,
        "x-blazingly-aliases"@ != "enum"@,
        "x-blazingly-validators"@ != "enum"@,
        "x-blazingly-aliases"@ != "anyOf"@,
        "x-blazingly-validators"@ != "anyOf"@,
        "x-blazingly-aliases"@ != "minLength"@,
        "x-blazingly-validators"@ != "minLength"@,
        "x-blazingly-aliases"@ != "maxLength"@,
        "x-blazingly-validators"@ != "maxLength"@,
        "x-blazingly-aliases"@ != "x-rust-type"@,
        "x-blazingly-validators"@ != "x-rust-type"@,
        "x-blazingly-aliases"@ != "x-blazingly-nested-validation"@,
        "x-blazingly-validators"@ != "x-blazingly-nested-validation"@,
{
    reveal_strlit("x-blazingly-aliases");
    reveal_strlit("x-blazingly-validators");
    reveal_strlit("type");
    reveal_strlit("items");
    reveal_strlit("format");
    reveal_strlit("default");
    reveal_strlit("enum");
    reveal_strlit("anyOf");
    reveal_strlit("minLength");
    reveal_strlit("maxLength");
    reveal_strlit("x-rust-type");
    reveal_strlit("x-blazingly-nested-validation");
    assert("x-blazingly-aliases"@.len() == 19);
    assert("x-blazingly-validators"@.len() == 22);
    assert("x-blazingly-nested-validation"@.len() == 29);
    assert("x-rust-type"@.len() == 11);
    assert("type"@.len() == 4);
    assert("items"@.len() == 5);
    assert("format"@.len() == 6);
    assert("default"@.len() == 7);
    assert("enum"@.len() == 4);
    assert("anyOf"@.len() == 5);
    assert("minLength"@.len() == 9);
    assert("maxLength"@.len() == 9);
}

fn has_name(names: &Vec<JsonValue>, name: &str) -> (has: bool)
    ensures
        has == names@.map_values(|item: JsonValue| crate::json::json_view(item)).contains(
            JsonView::Text(name@),
        ),
{
    let ghost views = names@.map_values(|item: JsonValue| crate::json::json_view(item));
    let mut index: usize = 0;
    while index < names.len()
        invariant
            index <= names@.len(),
            views == names@.map_values(|item: JsonValue| crate::json::json_view(item)),
            forall|i: int| 0 <= i < index ==> #[trigger] views[i] != JsonView::Text(name@),
        decreases names@.len() - index,
    {
        assert(views[index as int] == names@[index as int]@);
        if let Some(text) = names[index].as_str() {
            if eq_text(text, name) {
                return true;
            }
        }
        index += 1;
    }
    false
}

fn copies_of(items: &Vec<JsonValue>) -> (copies: Vec<JsonValue>)
    ensures
        copies@.map_values(|item: JsonValue| crate::json::json_view(item)) == items@.map_values(
            |item: JsonValue| crate::json::json_view(item),
        ),
{
    let mut copies: Vec<JsonValue> = Vec::new();
    let mut index: usize = 0;
    while index < items.len()
        invariant
            index <= items@.len(),
            copies@.len() == index,
            forall|i: int| 0 <= i < index ==> (#[trigger] copies@[i])@ == items@[i]@,
        decreases items@.len() - index,
    {
        copies.push(items[index].clone());
        index += 1;
    }
    proof {
        let left = copies@.map_values(|item: JsonValue| crate::json::json_view(item));
        let right = items@.map_values(|item: JsonValue| crate::json::json_view(item));
        assert forall|i: int| 0 <= i < left.len() implies left[i] == right[i] by {
            assert(copies@[i]@ == items@[i]@);
        }
        assert(left =~= right);
    }
    copies
}

/// Appends one name to a document extension list, at most once.
pub fn push_extension(schema: &mut JsonValue, keyword: &str, name: &str)
    requires
        old(schema)@ is Object,
        list_or_absent(old(schema)@, keyword@),
    ensures
        final(schema)@ == extended(old(schema)@, keyword@, name@),
{
    let mut names = match schema.get(keyword) {
        Some(JsonValue::Array(names)) => {
            proof {
                crate::json::lemma_list_view(*names);
            }
            if has_name(names, name) {
                return;
            }
            copies_of(names)
        },
        _ => Vec::new(),
    };
    let ghost before = names@.map_values(|item: JsonValue| crate::json::json_view(item));
    let added = JsonValue::text(name);
    names.push(added);
    proof {
        assert(before == names_in(schema@, keyword@));
        assert(names@.map_values(|item: JsonValue| crate::json::json_view(item)) =~= before.push(
            JsonView::Text(name@),
        ));
    }
    schema.set(keyword, JsonValue::list(names));
}

fn type_union(first: &str) -> (union: JsonValue)
    ensures
        union@ == text_list(seq![first@, "null"@]),
{
    let mut names: Vec<String> = Vec::new();
    names.push(first.to_owned());
    names.push("null".to_owned());
    assert(texts(names@) =~= seq![first@, "null"@]);
    texts_value(&names)
}

fn typed_node(name: &str) -> (node: JsonValue)
    ensures
        node@ == typed(name@),
{
    let node = JsonValue::object().with("type", JsonValue::text(name));
    assert(members(node@) =~= members(typed(name@)));
    node
}

/// Makes a node accept null as well.
fn widen_with_null(schema: &mut JsonValue)
    ensures
        final(schema)@ == widened(old(schema)@),
{
    let union: Option<JsonValue> = match schema.get("type") {
        Some(JsonValue::String(name)) => Some(type_union(name.as_str())),
        Some(JsonValue::Array(names)) => {
            proof {
                crate::json::lemma_list_view(*names);
            }
            if has_name(names, "null") {
                return;
            }
            let ghost before = names@.map_values(|item: JsonValue| crate::json::json_view(item));
            let mut names = copies_of(names);
            let added = JsonValue::text("null");
            names.push(added);
            proof {
                assert(names@.map_values(|item: JsonValue| crate::json::json_view(item))
                    =~= before.push(JsonView::Text("null"@)));
            }
            Some(JsonValue::list(names))
        },
        _ => None,
    };
    match union {
        Some(union) => {
            schema.set("type", union);
        },
        None => {
            if schema.get("$ref").is_some() {
                let ghost node = schema@;
                let mut choices: Vec<JsonValue> = Vec::new();
                choices.push(schema.clone());
                choices.push(typed_node("null"));
                assert(choices@.map_values(|item: JsonValue| crate::json::json_view(item)) =~= seq![
                    node,
                    typed("null"@),
                ]);
                let wrapped = JsonValue::object().with("anyOf", JsonValue::list(choices));
                assert(members(wrapped@) =~= members(widened(node)));
                *schema = wrapped;
            }
        },
    }
}

/// Projects a recovered default, enumeration, or nullability marker.
pub fn apply_field_metadata(schema: &mut JsonValue, metadata: &FieldMetadata)
    requires
        takes_metadata(old(schema)@, metadata@),
    ensures
        final(schema)@ == with_metadata(old(schema)@, metadata@),
{
    match metadata {
        FieldMetadata::Default(value) => {
            schema.set("default", value.clone());
        },
        FieldMetadata::Enumeration(values) => {
            schema.set("enum", texts_value(values));
        },
        FieldMetadata::Nullable => {
            widen_with_null(schema);
        },
    }
}

/// Projecting metadata keeps a node a node.
proof fn lemma_metadata_keeps(node: JsonView, metadata: MetadataView)
    requires
        is_node(node),
    ensures
        is_node(with_metadata(node, metadata)),
{
    lemma_keys();
}

fn apply_rule<D: SchemaDialect>(dialect: &D, schema: &mut JsonValue, rule: &ValidationRule)
    requires
        is_node(old(schema)@) || takes_rule(dialect, old(schema)@, rule@),
    ensures
        final(schema)@ == with_rule(dialect, old(schema)@, rule@),
        is_node(old(schema)@) ==> is_node(final(schema)@),
{
    proof {
        lemma_keys();
    }
    match rule {
        ValidationRule::MinLength(value) => {
            schema.set("minLength", JsonValue::unsigned(*value as u64));
        },
        ValidationRule::MaxLength(value) => {
            schema.set("maxLength", JsonValue::unsigned(*value as u64));
        },
        ValidationRule::Email => {
            schema.set("format", JsonValue::text("email"));
        },
        ValidationRule::Alias(alias) => {
            push_extension(schema, "x-blazingly-aliases", alias.as_str());
        },
        ValidationRule::Custom(validator) => {
            match FieldMetadata::parse(validator.as_str()) {
                Some(metadata) => {
                    proof {
                        if is_node(schema@) {
                            lemma_metadata_keeps(schema@, metadata@);
                        }
                    }
                    apply_field_metadata(schema, &metadata);
                },
                None => {
                    if !dialect.project_custom_validator(schema, validator.as_str()) {
                        push_extension(schema, "x-blazingly-validators", validator.as_str());
                    }
                },
            }
        },
        ValidationRule::Nested => {
            schema.set("x-blazingly-nested-validation", JsonValue::Bool(true));
        },
    }
}

/// Applies the declared validation rules to a schema node.
pub fn apply_validation<D: SchemaDialect>(
    dialect: &D,
    schema: &mut JsonValue,
    validation: &Vec<ValidationRule>,
)
    requires
        takes_rules(dialect, old(schema)@, rules_view(validation@)),
    ensures
        final(schema)@ == with_rules(dialect, old(schema)@, rules_view(validation@)),
        is_node(old(schema)@) ==> is_node(final(schema)@),
{
    let ghost rules = rules_view(validation@);
    let ghost start = schema@;
    let mut index: usize = 0;
    assert(rules.take(0) =~= Seq::empty());
    assert(rules.skip(0) =~= rules);
    while index < validation.len()
        invariant
            index <= validation@.len(),
            rules == rules_view(validation@),
            takes_rules(dialect, schema@, rules.skip(index as int)),
            is_node(start) ==> is_node(schema@),
            schema@ == with_rules(dialect, start, rules.take(index as int)),
        decreases validation@.len() - index,
    {
        proof {
            assert(rules.take(index + 1).drop_last() =~= rules.take(index as int));
            assert(rules.take(index + 1).last() == validation@[index as int]@);
            assert(rules.skip(index as int)[0] == validation@[index as int]@);
            assert(rules.skip(index as int).drop_first() =~= rules.skip(index + 1));
        }
        apply_rule(dialect, schema, &validation[index]);
        index += 1;
    }
    assert(rules.take(index as int) =~= rules);
}

/// Projects a bare schema kind, without model or naming information.
#[must_use]
pub fn schema_kind_value<D: SchemaDialect>(dialect: &D, schema: &SchemaKind) -> (node: JsonValue)
    ensures
        node@ == kind_schema(dialect, *schema),
        is_node(node@),
    decreases schema,
{
    proof {
        lemma_keys();
    }
    match schema {
        SchemaKind::String => typed_node("string"),
        SchemaKind::Binary => dialect.binary_node(),
        SchemaKind::Integer => typed_node("integer"),
        SchemaKind::Number => typed_node("number"),
        SchemaKind::Boolean => typed_node("boolean"),
        SchemaKind::Array(item) => {
            let items = schema_kind_value(dialect, item);
            array_node(items)
        },
        SchemaKind::Object => typed_node("object"),
        SchemaKind::Any => JsonValue::object(),
    }
}

fn array_node(items: JsonValue) -> (node: JsonValue)
    ensures
        node@ == array_of(items@),
{
    let node = JsonValue::object().with("type", JsonValue::text("array")).with("items", items);
    assert(members(node@) =~= members(array_of(items@)));
    node
}

fn apply_known_string_format(schema: &mut JsonValue, rust_name: &str)
    requires
        is_node(old(schema)@),
    ensures
        final(schema)@ == with_known_format(old(schema)@, rust_name@),
        is_node(final(schema)@),
{
    proof {
        lemma_keys();
    }
    let format = if eq_text(rust_name, "Uuid") {
        "uuid"
    } else if eq_text(rust_name, "Url") {
        "uri"
    } else if eq_text(rust_name, "IpAddress") {
        "ip"
    } else if eq_text(rust_name, "Date") {
        "date"
    } else if eq_text(rust_name, "DateTime") {
        "date-time"
    } else if eq_text(rust_name, "Decimal") {
        "decimal"
    } else {
        return;
    };
    schema.set("format", JsonValue::text(format));
}

/// Projects one type, including the rules the type itself declares.
#[must_use]
pub fn schema_value<D: SchemaDialect>(dialect: &D, descriptor: &TypeDescriptor) -> (node: JsonValue)
    ensures
        node@ == type_schema(dialect, descriptor@),
        is_node(node@),
    decreases descriptor,
{
    proof {
        lemma_keys();
    }
    let mut value = match &descriptor.model {
        Some(model) => dialect.model_node(descriptor, model),
        None => {
            let mut value = match (&descriptor.schema, &descriptor.items) {
                (SchemaKind::Array(_), Some(items)) => array_node(schema_value(dialect, items)),
                _ => schema_kind_value(dialect, &descriptor.schema),
            };
            apply_known_string_format(&mut value, descriptor.rust_name.as_str());
            value.set("x-rust-type", JsonValue::text(descriptor.rust_name.as_str()));
            value
        },
    };
    apply_validation(dialect, &mut value, &descriptor.constraints);
    value
}

/// Projects a model into a full object schema.
#[must_use]
pub fn model_schema<D: SchemaDialect>(dialect: &D, model: &ModelDescriptor) -> (node: JsonValue)
    ensures
        node@ == object_schema(dialect, model@),
        is_node(node@),
{
    let ghost view = model@;
    let mut held = JsonValue::object();
    let mut required: Vec<String> = Vec::new();
    let mut index: usize = 0;
    assert(texts(required@) =~= Seq::empty());
    while index < model.fields.len()
        invariant
            index <= model.fields@.len(),
            view == model@,
            view.fields.len() == model.fields@.len(),
            held@ == JsonView::Object(properties(dialect, view, index as nat)),
            texts(required@) == required_names(view, index as nat),
        decreases model.fields@.len() - index,
    {
        let field = &model.fields[index];
        assert(view.fields[index as int] == field@);
        let mut schema = schema_value(dialect, &field.ty);
        apply_validation(dialect, &mut schema, &field.validation);
        held.set(field.name.as_str(), schema);
        if field.required {
            let ghost before = texts(required@);
            let name = field.name.clone();
            required.push(name);
            assert(texts(required@) =~= before.push(name@));
        }
        index += 1;
    }
    let node = JsonValue::object().with("type", JsonValue::text("object")).with(
        "properties",
        held,
    ).with("required", texts_value(&required)).with("additionalProperties", JsonValue::Bool(false));
    proof {
        reveal_strlit("type");
        reveal_strlit("properties");
        reveal_strlit("required");
        reveal_strlit("additionalProperties");
        reveal_strlit("x-blazingly-aliases");
        reveal_strlit("x-blazingly-validators");
        assert("type"@.len() == 4);
        assert("properties"@.len() == 10);
        assert("required"@.len() == 8);
        assert("additionalProperties"@.len() == 20);
        assert("x-blazingly-aliases"@.len() == 19);
        assert("x-blazingly-validators"@.len() == 22);
        assert(members(node@) =~= members(object_schema(dialect, view)));
    }
    node
}

/// Projecting nullability or an extension name a second time changes nothing,
/// so a value type may be projected both from its own rules and from those its
/// field inherited.
pub proof fn law_projecting_twice_is_projecting_once(
    node: JsonView,
    keyword: Seq<char>,
    name: Seq<char>,
)
    requires
        node is Object,
        list_or_absent(node, keyword),
    ensures
        widened(widened(node)) == widened(node),
        extended(extended(node, keyword, name), keyword, name) == extended(node, keyword, name),
{
    reveal_strlit("type");
    reveal_strlit("$ref");
    reveal_strlit("anyOf");
    assert("type"@[0] == 't');
    assert("$ref"@[0] == '$');
    assert("anyOf"@[0] == 'a');
    match member(node, "type"@) {
        Some(JsonView::Text(own)) => {
            let union = seq![own, "null"@];
            let names = union.map_values(|value: Seq<char>| JsonView::Text(value));
            assert(names[1] == JsonView::Text("null"@));
        },
        Some(JsonView::List(names)) => {
            let more = names.push(JsonView::Text("null"@));
            assert(more[names.len() as int] == JsonView::Text("null"@));
        },
        _ => {},
    }
    let names = names_in(node, keyword);
    let more = names.push(JsonView::Text(name));
    assert(more[names.len() as int] == JsonView::Text(name));
}

/// The items of a type, so many levels down.
pub open spec fn item_at(ty: TypeView, depth: nat) -> TypeView
    decreases depth,
{
    if depth == 0 {
        ty
    } else {
        match ty.items {
            Some(items) => item_at(*items, (depth - 1) as nat),
            None => ty,
        }
    }
}

/// A type is a list of lists, so many levels down, whose own rules leave the
/// decision about a node to nobody else.
pub open spec fn lists_down_to(ty: TypeView, depth: nat) -> bool
    decreases depth,
{
    depth == 0 || {
        &&& ty.model is None
        &&& ty.schema is Array
        &&& forall|i: int| 0 <= i < ty.constraints.len() ==> !((#[trigger] ty.constraints[i]) is Custom)
        &&& ty.items matches Some(items) && lists_down_to(*items, (depth - 1) as nat)
    }
}

/// The node of the items, so many levels down.
pub open spec fn node_at(node: JsonView, depth: nat) -> Option<JsonView>
    decreases depth,
{
    if depth == 0 {
        Some(node)
    } else {
        match member(node, "items"@) {
            Some(items) => node_at(items, (depth - 1) as nat),
            None => None,
        }
    }
}

proof fn lemma_items_kept<D: SchemaDialect>(dialect: &D, node: JsonView, rules: Seq<RuleView>)
    requires
        node is Object,
        forall|i: int| 0 <= i < rules.len() ==> !((#[trigger] rules[i]) is Custom),
    ensures
        with_rules(dialect, node, rules) is Object,
        member(with_rules(dialect, node, rules), "items"@) == member(node, "items"@),
    decreases rules.len(),
{
    if rules.len() > 0 {
        lemma_items_kept(dialect, node, rules.drop_last());
        assert(!(rules[rules.len() - 1] is Custom));
        reveal_strlit("items");
        reveal_strlit("minLength");
        reveal_strlit("maxLength");
        reveal_strlit("format");
        reveal_strlit("x-blazingly-aliases");
        reveal_strlit("x-blazingly-nested-validation");
        assert("items"@[0] == 'i');
        assert("minLength"@[0] == 'm');
        assert("maxLength"@[0] == 'm');
        assert("format"@[0] == 'f');
        assert("x-blazingly-aliases"@[0] == 'x');
        assert("x-blazingly-nested-validation"@[0] == 'x');
    }
}

/// What a value type declares survives every nesting: however deep a list of
/// lists is, the node of its innermost items is the projection of their type
/// with the rules of that type.
pub proof fn law_constraints_survive_nesting<D: SchemaDialect>(
    dialect: &D,
    ty: TypeView,
    depth: nat,
)
    requires
        lists_down_to(ty, depth),
    ensures
        node_at(type_schema(dialect, ty), depth) == Some(type_schema(dialect, item_at(ty, depth))),
    decreases depth,
{
    if depth > 0 {
        let items = *ty.items->Some_0;
        law_constraints_survive_nesting(dialect, items, (depth - 1) as nat);
        let bare = array_of(type_schema(dialect, items));
        reveal_strlit("items");
        reveal_strlit("type");
        reveal_strlit("format");
        reveal_strlit("x-rust-type");
        assert("items"@[0] == 'i');
        assert("type"@[0] == 't');
        assert("format"@[0] == 'f');
        assert("x-rust-type"@[0] == 'x');
        let node = put(
            with_known_format(bare, ty.rust_name),
            "x-rust-type"@,
            JsonView::Text(ty.rust_name),
        );
        assert(member(node, "items"@) == Some(type_schema(dialect, items)));
        lemma_items_kept(dialect, node, ty.constraints);
    }
}

/// A model demands exactly its required fields: a name stands in the `required`
/// list of the object schema if and only if a field with that name is required.
/// Every name in the list is a key of `properties`, and `properties` has exactly
/// the names of the fields.
pub proof fn law_required_fields_are_demanded<D: SchemaDialect>(
    dialect: &D,
    model: ModelView,
    name: Seq<char>,
)
    ensures
        ({
            let schema = object_schema(dialect, model);
            &&& member(schema, "required"@) matches Some(JsonView::List(demanded)) && (
            demanded.contains(JsonView::Text(name)) <==> exists|i: int|
                0 <= i < model.fields.len() && (#[trigger] model.fields[i]).required
                    && model.fields[i].name == name)
            &&& member(schema, "properties"@) matches Some(JsonView::Object(known)) && (
            known.contains_key(name) <==> exists|i: int|
                0 <= i < model.fields.len() && (#[trigger] model.fields[i]).name == name)
            &&& member(schema, "type"@) == Some(JsonView::Text("object"@))
            &&& member(schema, "additionalProperties"@) == Some(JsonView::Bool(false))
        }),
{
    lemma_object_members(dialect, model);
    let count = model.fields.len();
    let names = required_names(model, count);
    let listed = names.map_values(|value: Seq<char>| JsonView::Text(value));
    lemma_required_names(model, count, name);
    lemma_properties_known(dialect, model, count, name);
    if names.contains(name) {
        let at = choose|at: int| 0 <= at < names.len() && names[at] == name;
        assert(listed[at] == JsonView::Text(name));
    }
    if listed.contains(JsonView::Text(name)) {
        let at = choose|at: int| 0 <= at < listed.len() && listed[at] == JsonView::Text(name);
        assert(names[at] == name);
    }
}

/// The `required` list keeps declaration order: a model with one field more
/// demands what it did before, followed by that field if and only if the field
/// is required.
pub proof fn law_required_fields_keep_their_order<D: SchemaDialect>(
    dialect: &D,
    model: ModelView,
    field: FieldView,
)
    ensures
        ({
            let more = ModelView { name: model.name, fields: model.fields.push(field) };
            let demanded = member(object_schema(dialect, model), "required"@)->Some_0->List_0;
            member(object_schema(dialect, more), "required"@) == Some(
                JsonView::List(
                    if !field.required {
                        demanded
                    } else {
                        demanded.push(JsonView::Text(field.name))
                    },
                ),
            )
        }),
{
    let more = ModelView { name: model.name, fields: model.fields.push(field) };
    lemma_object_members(dialect, model);
    lemma_object_members(dialect, more);
    let count = model.fields.len();
    lemma_required_prefix(model, more, count);
    let before = required_names(model, count);
    let after = required_names(more, count + 1);
    let as_text = |value: Seq<char>| JsonView::Text(value);
    if field.required {
        assert(after.map_values(as_text) =~= before.map_values(as_text).push(
            JsonView::Text(field.name),
        ));
    }
}

proof fn lemma_object_members<D: SchemaDialect>(dialect: &D, model: ModelView)
    ensures
        ({
            let schema = object_schema(dialect, model);
            let count = model.fields.len();
            &&& member(schema, "type"@) == Some(JsonView::Text("object"@))
            &&& member(schema, "properties"@) == Some(
                JsonView::Object(properties(dialect, model, count)),
            )
            &&& member(schema, "required"@) == Some(text_list(required_names(model, count)))
            &&& member(schema, "additionalProperties"@) == Some(JsonView::Bool(false))
        }),
{
    reveal_strlit("type");
    reveal_strlit("properties");
    reveal_strlit("required");
    reveal_strlit("additionalProperties");
    assert("type"@.len() == 4);
    assert("properties"@.len() == 10);
    assert("required"@.len() == 8);
    assert("additionalProperties"@.len() == 20);
}

proof fn lemma_required_prefix(model: ModelView, more: ModelView, count: nat)
    requires
        count <= model.fields.len() <= more.fields.len(),
        forall|i: int| 0 <= i < count ==> model.fields[i] == #[trigger] more.fields[i],
    ensures
        required_names(model, count) == required_names(more, count),
    decreases count,
{
    if count > 0 {
        lemma_required_prefix(model, more, (count - 1) as nat);
        assert(model.fields[count - 1] == more.fields[count - 1]);
    }
}

proof fn lemma_required_names(model: ModelView, count: nat, name: Seq<char>)
    requires
        count <= model.fields.len(),
    ensures
        required_names(model, count).contains(name) <==> exists|i: int|
            0 <= i < count && (#[trigger] model.fields[i]).required && model.fields[i].name == name,
    decreases count,
{
    let names = required_names(model, count);
    if count > 0 {
        let rest = (count - 1) as nat;
        let before = required_names(model, rest);
        let field = model.fields[count - 1];
        lemma_required_names(model, rest, name);
        if before.contains(name) {
            let at = choose|at: int| 0 <= at < before.len() && before[at] == name;
            assert(names[at] == name);
        }
        if field.required && field.name == name {
            assert(names[names.len() - 1] == name);
        }
        if names.contains(name) {
            let at = choose|at: int| 0 <= at < names.len() && names[at] == name;
            if at < before.len() {
                assert(before[at] == name);
            }
        }
    }
}

proof fn lemma_properties_known<D: SchemaDialect>(
    dialect: &D,
    model: ModelView,
    count: nat,
    name: Seq<char>,
)
    requires
        count <= model.fields.len(),
    ensures
        properties(dialect, model, count).contains_key(name) <==> exists|i: int|
            0 <= i < count && (#[trigger] model.fields[i]).name == name,
    decreases count,
{
    if count > 0 {
        lemma_properties_known(dialect, model, (count - 1) as nat, name);
    }
}

/// The node of a bare kind names the JSON type of that kind, and the node of a list
/// holds the node of its items.
pub proof fn law_kinds_have_their_json_type<D: SchemaDialect>(dialect: &D, item: SchemaKind)
    ensures
        member(kind_schema(dialect, SchemaKind::String), "type"@) == Some(
            JsonView::Text("string"@),
        ),
        member(kind_schema(dialect, SchemaKind::Integer), "type"@) == Some(
            JsonView::Text("integer"@),
        ),
        member(kind_schema(dialect, SchemaKind::Number), "type"@) == Some(
            JsonView::Text("number"@),
        ),
        member(kind_schema(dialect, SchemaKind::Boolean), "type"@) == Some(
            JsonView::Text("boolean"@),
        ),
        member(kind_schema(dialect, SchemaKind::Object), "type"@) == Some(
            JsonView::Text("object"@),
        ),
        members(kind_schema(dialect, SchemaKind::Any)) == Map::<Seq<char>, JsonView>::empty(),
        member(kind_schema(dialect, SchemaKind::Array(Box::new(item))), "type"@) == Some(
            JsonView::Text("array"@),
        ),
        member(kind_schema(dialect, SchemaKind::Array(Box::new(item))), "items"@) == Some(
            kind_schema(dialect, item),
        ),
{
    reveal_strlit("type");
    reveal_strlit("items");
    assert("type"@.len() == 4);
    assert("items"@.len() == 5);
    reveal_with_fuel(kind_schema, 2);
}

/// Every rule becomes the keyword that JSON Schema has for it, with the rule's own
/// bound, and leaves the other keywords of the node alone.
pub proof fn law_rules_become_keywords<D: SchemaDialect>(
    dialect: &D,
    node: JsonView,
    bound: usize,
    name: Seq<char>,
    other: Seq<char>,
)
    requires
        is_node(node),
    ensures
        ({
            let low = with_rule(dialect, node, RuleView::MinLength(bound));
            let high = with_rule(dialect, node, RuleView::MaxLength(bound));
            let email = with_rule(dialect, node, RuleView::Email);
            let alias = with_rule(dialect, node, RuleView::Alias(name));
            let number = JsonView::Number(NumberView::Unsigned(bound as u64));
            &&& member(low, "minLength"@) == Some(number)
            &&& member(high, "maxLength"@) == Some(number)
            &&& member(email, "format"@) == Some(JsonView::Text("email"@))
            &&& member(alias, "x-blazingly-aliases"@) matches Some(JsonView::List(names))
                && names.contains(JsonView::Text(name))
            &&& other != "minLength"@ ==> member(low, other) == member(node, other)
            &&& other != "maxLength"@ ==> member(high, other) == member(node, other)
            &&& other != "format"@ ==> member(email, other) == member(node, other)
            &&& other != "x-blazingly-aliases"@ ==> member(alias, other) == member(node, other)
        }),
{
    let names = names_in(node, "x-blazingly-aliases"@);
    let more = names.push(JsonView::Text(name));
    assert(more[names.len() as int] == JsonView::Text(name));
}

/// A node that is made nullable accepts null and what it accepted before: its type
/// becomes the old one or null, a list of types gains null, and a reference becomes
/// a choice between itself and null.
pub proof fn law_nullable_nodes_accept_null(node: JsonView)
    requires
        node is Object,
    ensures
        match member(node, "type"@) {
            Some(JsonView::Text(name)) => member(widened(node), "type"@) == Some(
                JsonView::List(seq![JsonView::Text(name), JsonView::Text("null"@)]),
            ),
            Some(JsonView::List(names)) => (member(widened(node), "type"@) matches Some(
                JsonView::List(more),
            ) && more.contains(JsonView::Text("null"@)) && forall|i: int|
                0 <= i < names.len() ==> more.contains(#[trigger] names[i])),
            _ => member(node, "$ref"@) is Some ==> (member(widened(node), "anyOf"@) matches Some(
                JsonView::List(choices),
            ) && choices.contains(node) && choices.contains(
                JsonView::Object(map!["type"@ => JsonView::Text("null"@)]),
            )),
        },
        forall|key: Seq<char>|
            key != "type"@ && member(node, "type"@) is Some && (member(node, "type"@)->Some_0 is Text
                || member(node, "type"@)->Some_0 is List) ==> #[trigger] member(
                widened(node),
                key,
            ) == member(node, key),
{
    match member(node, "type"@) {
        Some(JsonView::Text(name)) => {
            let pair = seq![name, "null"@].map_values(|value: Seq<char>| JsonView::Text(value));
            assert(pair =~= seq![JsonView::Text(name), JsonView::Text("null"@)]);
        },
        Some(JsonView::List(names)) => {
            let more = names.push(JsonView::Text("null"@));
            assert(more[names.len() as int] == JsonView::Text("null"@));
            assert forall|i: int| 0 <= i < names.len() implies more.contains(
                #[trigger] names[i],
            ) && names.contains(names[i]) by {
                assert(more[i] == names[i]);
            }
        },
        _ => {
            let choices = seq![node, typed("null"@)];
            assert(choices[0] == node);
            assert(choices[1] == typed("null"@));
        },
    }
}

/// The types that everyone knows have the string format that goes by their name,
/// and no other type is given a format.
pub proof fn law_known_types_have_their_format(rust_name: Seq<char>)
    ensures
        known_format("Uuid"@) == Some("uuid"@),
        known_format("Url"@) == Some("uri"@),
        known_format("IpAddress"@) == Some("ip"@),
        known_format("Date"@) == Some("date"@),
        known_format("DateTime"@) == Some("date-time"@),
        known_format("Decimal"@) == Some("decimal"@),
        known_format(rust_name) is Some ==> rust_name == "Uuid"@ || rust_name == "Url"@ || rust_name
            == "IpAddress"@ || rust_name == "Date"@ || rust_name == "DateTime"@ || rust_name
            == "Decimal"@,
{
    reveal_strlit("Uuid");
    reveal_strlit("Url");
    reveal_strlit("IpAddress");
    reveal_strlit("Date");
    reveal_strlit("DateTime");
    reveal_strlit("Decimal");
    assert("Uuid"@[1] == 'u');
    assert("Url"@[1] == 'r');
    assert("IpAddress"@[0] == 'I');
    assert("Date"@.len() == 4 && "Date"@[1] == 'a');
    assert("DateTime"@.len() == 8 && "DateTime"@[1] == 'a');
    assert("Decimal"@[1] == 'e');
}

/// The property of a field is the node of its type with the rules of the field, of
/// the last field where several share a name.
pub proof fn law_properties_are_their_fields<D: SchemaDialect>(
    dialect: &D,
    model: ModelView,
    at: int,
)
    requires
        0 <= at < model.fields.len(),
        forall|i: int|
            at < i < model.fields.len() ==> (#[trigger] model.fields[i]).name
                != model.fields[at].name,
    ensures
        ({
            let field = model.fields[at];
            member(object_schema(dialect, model), "properties"@) matches Some(known) && member(
                known,
                field.name,
            ) == Some(with_rules(dialect, type_schema(dialect, field.ty), field.validation))
        }),
{
    lemma_object_members(dialect, model);
    lemma_property(dialect, model, model.fields.len(), at);
}

proof fn lemma_property<D: SchemaDialect>(dialect: &D, model: ModelView, count: nat, at: int)
    requires
        0 <= at < count <= model.fields.len(),
        forall|i: int|
            at < i < count ==> (#[trigger] model.fields[i]).name != model.fields[at].name,
    ensures
        properties(dialect, model, count).contains_key(model.fields[at].name),
        properties(dialect, model, count)[model.fields[at].name] == with_rules(
            dialect,
            type_schema(dialect, model.fields[at].ty),
            model.fields[at].validation,
        ),
    decreases count,
{
    if at < count - 1 {
        assert(model.fields[count - 1].name != model.fields[at].name);
        lemma_property(dialect, model, (count - 1) as nat, at);
    }
}

/// A default and the accepted values of a field stand in its schema as they were
/// declared, and change nothing else of it.
pub proof fn law_metadata_becomes_keywords(
    keywords: Map<Seq<char>, JsonView>,
    value: JsonView,
    values: Seq<Seq<char>>,
    other: Seq<char>,
)
    ensures
        ({
            let node = JsonView::Object(keywords);
            let defaulted = members(with_metadata(node, MetadataView::Default(value)));
            let listed = members(with_metadata(node, MetadataView::Enumeration(values)));
            &&& defaulted.contains_key("default"@) && defaulted["default"@] == value
            &&& other != "default"@ ==> (defaulted.contains_key(other) <==> keywords.contains_key(
                other,
            )) && (keywords.contains_key(other) ==> defaulted[other] == keywords[other])
            &&& listed.contains_key("enum"@) && (listed["enum"@] matches JsonView::List(items)
                && items.len() == values.len() && forall|i: int|
                0 <= i < items.len() ==> #[trigger] items[i] == JsonView::Text(values[i]))
            &&& other != "enum"@ ==> (listed.contains_key(other) <==> keywords.contains_key(other))
                && (keywords.contains_key(other) ==> listed[other] == keywords[other])
        }),
{
}

} // verus!
