//! Field metadata, and the violations of nested values.
use crate::contract::{rules_view, RuleView, ValidationRule};
use crate::json::{
    compact_json, compact_text, is_scalar, members, parse_json, parsed_json, JsonValue, JsonView,
};
use crate::operation::{texts, ApiSchema, FieldViolation, ValidationErrors, ViolationView};
use crate::text::{
    chars_of, char_lists, cut, cut_chars, eq_text, index_of, split_chars, split_spec, string_from,
};
use vstd::prelude::*;
use vstd::string::*;

verus! {

// ---------------------------------------------------------------------------
// Violations of nested values
// ---------------------------------------------------------------------------

/// Where a violation of a nested value stands in the value that holds it.
pub open spec fn under_prefix(prefix: Seq<char>, field: Seq<char>) -> Seq<char> {
    if field.len() == 0 {
        prefix
    } else {
        prefix + "."@ + field
    }
}

/// A path starts at a field and goes on into it.
pub open spec fn rooted_at(path: Seq<char>, field: Seq<char>) -> bool {
    &&& path.len() > field.len()
    &&& path.take(field.len() as int) == field
    &&& path[field.len() as int] == '.' || path[field.len() as int] == '['
}

/// Where a violation of a field's own rules stands, named once.
pub open spec fn under_field(field: Seq<char>, path: Seq<char>) -> Seq<char> {
    if field.len() == 0 {
        path
    } else if path.len() == 0 || path == field {
        field
    } else if rooted_at(path, field) {
        path
    } else {
        field + "."@ + path
    }
}

/// Violations with their paths moved under a prefix.
pub open spec fn moved_under_prefix(nested: Seq<ViolationView>, prefix: Seq<char>) -> Seq<
    ViolationView,
> {
    nested.map_values(
        |violation: ViolationView|
            ViolationView { field: under_prefix(prefix, violation.field), ..violation },
    )
}

/// Violations with their paths moved under a field.
pub open spec fn moved_under_field(nested: Seq<ViolationView>, field: Seq<char>) -> Seq<
    ViolationView,
> {
    nested.map_values(
        |violation: ViolationView|
            ViolationView { field: under_field(field, violation.field), ..violation },
    )
}

fn dotted(head: &str, tail: &str) -> (path: String)
    ensures
        path@ == head@ + "."@ + tail@,
{
    let mut path = head.to_owned();
    path.append(".");
    path.append(tail);
    path
}

fn is_empty_text(text: &str) -> (empty: bool)
    ensures
        empty == (text@.len() == 0),
{
    chars_of(text).len() == 0
}

/// Merges nested model violations under the field that holds the model.
pub fn merge_validation_errors(
    target: &mut ValidationErrors,
    prefix: &str,
    nested: &ValidationErrors,
)
    ensures
        final(target)@ == old(target)@ + moved_under_prefix(nested@, prefix@),
{
    let violations = nested.violations();
    let ghost moved = moved_under_prefix(nested@, prefix@);
    let ghost start = target@;
    let mut index: usize = 0;
    assert(start + moved.take(0) =~= start);
    while index < violations.len()
        invariant
            index <= violations@.len(),
            violations@.map_values(|violation: FieldViolation| violation@) == nested@,
            moved == moved_under_prefix(nested@, prefix@),
            moved.len() == violations@.len(),
            target@ == start + moved.take(index as int),
        decreases violations@.len() - index,
    {
        let violation = &violations[index];
        let field = if is_empty_text(violation.field.as_str()) {
            prefix.to_owned()
        } else {
            dotted(prefix, violation.field.as_str())
        };
        proof {
            assert(nested@[index as int] == violation@);
            assert(moved.take(index + 1) =~= moved.take(index as int).push(
                moved[index as int],
            ));
        }
        target.push(field.as_str(), violation.code.as_str(), violation.message.as_str());
        assert(target@ =~= start + moved.take(index + 1));
        index += 1;
    }
    assert(moved.take(index as int) =~= moved);
}

fn is_rooted_at(path: &str, field: &str) -> (rooted: bool)
    ensures
        rooted == rooted_at(path@, field@),
{
    let whole = chars_of(path);
    let start = chars_of(field);
    if whole.len() <= start.len() {
        return false;
    }
    let mut index: usize = 0;
    while index < start.len()
        invariant
            whole@ == path@,
            start@ == field@,
            index <= start@.len() < whole@.len(),
            forall|i: int| 0 <= i < index ==> #[trigger] whole@[i] == start@[i],
        decreases start@.len() - index,
    {
        if whole[index] != start[index] {
            proof {
                assert(path@.take(field@.len() as int)[index as int] != field@[index as int]);
            }
            return false;
        }
        index += 1;
    }
    assert(path@.take(field@.len() as int) =~= field@);
    whole[start.len()] == '.' || whole[start.len()] == '['
}

/// Merges the violations a constrained value reported about itself, naming the
/// field that holds the value once.
pub fn merge_field_validation_errors(
    target: &mut ValidationErrors,
    field: &str,
    nested: &ValidationErrors,
)
    ensures
        final(target)@ == old(target)@ + moved_under_field(nested@, field@),
{
    let violations = nested.violations();
    let ghost moved = moved_under_field(nested@, field@);
    let ghost start = target@;
    let mut index: usize = 0;
    assert(start + moved.take(0) =~= start);
    while index < violations.len()
        invariant
            index <= violations@.len(),
            violations@.map_values(|violation: FieldViolation| violation@) == nested@,
            moved == moved_under_field(nested@, field@),
            moved.len() == violations@.len(),
            target@ == start + moved.take(index as int),
        decreases violations@.len() - index,
    {
        let violation = &violations[index];
        let given = violation.field.as_str();
        let path = if is_empty_text(field) {
            given.to_owned()
        } else if is_empty_text(given) || eq_text(given, field) {
            field.to_owned()
        } else if is_rooted_at(given, field) {
            given.to_owned()
        } else {
            dotted(field, given)
        };
        proof {
            assert(nested@[index as int] == violation@);
            assert(moved.take(index + 1) =~= moved.take(index as int).push(
                moved[index as int],
            ));
        }
        target.push(path.as_str(), violation.code.as_str(), violation.message.as_str());
        assert(target@ =~= start + moved.take(index + 1));
        index += 1;
    }
    assert(moved.take(index as int) =~= moved);
}

/// A scalar type that carries its own rules wherever it is used.
pub trait ApiConstrained: ApiSchema {
    /// What the rules of the type say.
    spec fn constrained_by() -> Seq<RuleView>;

    /// Rules a model records for every field declared with this type.
    fn constraint_rules() -> (rules: Vec<ValidationRule>)
        ensures
            rules_view(rules@) == Self::constrained_by(),
    ;

    /// Runs the declared rules against one value. The paths of the violations
    /// are relative to the value.
    fn validate_constraints(&self) -> Result<(), ValidationErrors>;
}

// ---------------------------------------------------------------------------
// Field metadata
// ---------------------------------------------------------------------------

/// Field metadata carried inside a custom validation rule, as
/// `keyword=value`.
#[derive(Debug, PartialEq, Eq)]
pub enum FieldMetadata {
    /// Value substituted when the field is absent from the request.
    Default(JsonValue),
    /// The field accepts `null` in addition to its declared type.
    Nullable,
    /// The complete set of accepted string values, in declaration order.
    Enumeration(Vec<String>),
}

/// What field metadata says.
pub enum MetadataView {
    Default(JsonView),
    Nullable,
    Enumeration(Seq<Seq<char>>),
}

impl View for FieldMetadata {
    type V = MetadataView;

    open spec fn view(&self) -> MetadataView {
        match self {
            FieldMetadata::Default(value) => MetadataView::Default(value@),
            FieldMetadata::Nullable => MetadataView::Nullable,
            FieldMetadata::Enumeration(values) => MetadataView::Enumeration(texts(values@)),
        }
    }
}

/// The metadata that a keyword and its value stand for, where `read` is what
/// the value is as JSON.
pub open spec fn metadata_from(
    keyword: Seq<char>,
    value: Seq<char>,
    read: Option<JsonView>,
) -> Option<MetadataView> {
    if keyword == "default"@ {
        match read {
            Some(read) => Some(MetadataView::Default(read)),
            None => None,
        }
    } else if keyword == "nullable"@ && value == "true"@ {
        Some(MetadataView::Nullable)
    } else if keyword == "enum"@ && value.len() > 0 {
        Some(MetadataView::Enumeration(split_spec(value, '|')))
    } else {
        None
    }
}

/// The metadata that a text stands for.
pub open spec fn metadata_parsed(encoded: Seq<char>) -> Option<MetadataView> {
    match cut(encoded, '=') {
        Some((keyword, value)) => metadata_from(keyword, value, parsed_json(value)),
        None => None,
    }
}

/// The keyword of metadata.
pub open spec fn metadata_keyword(metadata: MetadataView) -> Seq<char> {
    match metadata {
        MetadataView::Default(_) => "default"@,
        MetadataView::Nullable => "nullable"@,
        MetadataView::Enumeration(_) => "enum"@,
    }
}

/// The list of texts, as JSON.
pub open spec fn text_list(values: Seq<Seq<char>>) -> JsonView {
    JsonView::List(values.map_values(|value: Seq<char>| JsonView::Text(value)))
}

/// The value of metadata in a JSON Schema.
pub open spec fn metadata_schema(metadata: MetadataView) -> JsonView {
    match metadata {
        MetadataView::Default(value) => value,
        MetadataView::Nullable => JsonView::Bool(true),
        MetadataView::Enumeration(values) => text_list(values),
    }
}

/// Texts joined by a bar.
pub open spec fn joined(values: Seq<Seq<char>>) -> Seq<char>
    decreases values.len(),
{
    if values.len() == 0 {
        Seq::empty()
    } else if values.len() == 1 {
        values[0]
    } else {
        joined(values.drop_last()).push('|') + values.last()
    }
}

/// Metadata as a text; nothing comes of a default that the JSON engine cannot
/// write.
pub open spec fn metadata_text(metadata: MetadataView) -> Option<Seq<char>> {
    match metadata {
        MetadataView::Default(value) => match compact_json(value) {
            Some(text) => Some("default="@ + text),
            None => None,
        },
        MetadataView::Nullable => Some("nullable=true"@),
        MetadataView::Enumeration(values) => Some("enum="@ + joined(values)),
    }
}

/// The values of an enumeration that a text can carry: there is one, none
/// holds a bar, and they are not one empty text alone.
pub open spec fn carried(values: Seq<Seq<char>>) -> bool {
    &&& values.len() > 0
    &&& joined(values).len() > 0
    &&& forall|i: int, j: int|
        0 <= i < values.len() && 0 <= j < values[i].len() ==> (#[trigger] values[i][j]) != '|'
}

/// The JSON list of some texts.
pub(crate) fn texts_value(values: &Vec<String>) -> (list: JsonValue)
    ensures
        list@ == text_list(texts(values@)),
{
    let mut items: Vec<JsonValue> = Vec::new();
    let mut index: usize = 0;
    while index < values.len()
        invariant
            index <= values@.len(),
            items@.len() == index,
            forall|i: int|
                0 <= i < index ==> (#[trigger] items@[i])@ == JsonView::Text(values@[i]@),
        decreases values@.len() - index,
    {
        items.push(JsonValue::text(values[index].as_str()));
        index += 1;
    }
    proof {
        let left = items@.map_values(|item: JsonValue| crate::json::json_view(item));
        let right = texts(values@).map_values(|value: Seq<char>| JsonView::Text(value));
        assert forall|i: int| 0 <= i < left.len() implies left[i] == right[i] by {
            assert(items@[i]@ == JsonView::Text(values@[i]@));
        }
        assert(left =~= right);
    }
    JsonValue::list(items)
}

fn strings_of(pieces: &Vec<Vec<char>>) -> (strings: Vec<String>)
    ensures
        texts(strings@) == char_lists(pieces@),
{
    let mut strings: Vec<String> = Vec::new();
    let mut index: usize = 0;
    while index < pieces.len()
        invariant
            index <= pieces@.len(),
            strings@.len() == index,
            forall|i: int| 0 <= i < index ==> (#[trigger] strings@[i])@ == pieces@[i]@,
        decreases pieces@.len() - index,
    {
        strings.push(string_from(pieces[index].as_slice()));
        index += 1;
    }
    assert(texts(strings@) =~= char_lists(pieces@));
    strings
}

impl FieldMetadata {
    /// The metadata that a keyword and its value stand for, where `read` is
    /// what the value is as JSON.
    #[must_use]
    pub fn from_keyword(keyword: &str, value: &str, read: Option<JsonValue>) -> (metadata: Option<
        Self,
    >)
        ensures
            match metadata {
                Some(metadata) => metadata_from(keyword@, value@, opt_json(read)) == Some(
                    metadata@,
                ),
                None => metadata_from(keyword@, value@, opt_json(read)) is None,
            },
    {
        if eq_text(keyword, "default") {
            return match read {
                Some(read) => Some(FieldMetadata::Default(read)),
                None => None,
            };
        }
        if eq_text(keyword, "nullable") && eq_text(value, "true") {
            return Some(FieldMetadata::Nullable);
        }
        if eq_text(keyword, "enum") && !is_empty_text(value) {
            let characters = chars_of(value);
            let pieces = split_chars(characters.as_slice(), '|');
            return Some(FieldMetadata::Enumeration(strings_of(&pieces)));
        }
        None
    }

    /// Parses the canonical `keyword=value` encoding.
    #[must_use]
    pub fn parse(encoded: &str) -> (metadata: Option<Self>)
        ensures
            match metadata {
                Some(metadata) => metadata_parsed(encoded@) == Some(metadata@),
                None => metadata_parsed(encoded@) is None,
            },
    {
        let characters = chars_of(encoded);
        match cut_chars(characters.as_slice(), '=') {
            None => None,
            Some((keyword, value)) => {
                let keyword = string_from(keyword);
                let value = string_from(value);
                let read = parse_json(value.as_str());
                FieldMetadata::from_keyword(keyword.as_str(), value.as_str(), read)
            },
        }
    }

    /// JSON Schema keyword this metadata projects to.
    #[must_use]
    pub fn keyword(&self) -> (keyword: &'static str)
        ensures
            keyword@ == metadata_keyword(self@),
    {
        match self {
            FieldMetadata::Default(_) => "default",
            FieldMetadata::Nullable => "nullable",
            FieldMetadata::Enumeration(_) => "enum",
        }
    }

    /// JSON Schema value this metadata projects to.
    #[must_use]
    pub fn schema_value(&self) -> (value: JsonValue)
        ensures
            value@ == metadata_schema(self@),
    {
        match self {
            FieldMetadata::Default(value) => value.clone(),
            FieldMetadata::Nullable => JsonValue::Bool(true),
            FieldMetadata::Enumeration(values) => texts_value(values),
        }
    }

    /// Writes the metadata into a JSON Schema object; another value is left as
    /// it is.
    pub fn apply_json_schema(&self, schema: &mut JsonValue)
        ensures
            final(schema)@ == if old(schema)@ is Object {
                JsonView::Object(
                    members(old(schema)@).insert(metadata_keyword(self@), metadata_schema(self@)),
                )
            } else {
                old(schema)@
            },
    {
        if schema.is_object() {
            schema.set(self.keyword(), self.schema_value());
        }
    }

    /// The metadata as a text. What the text says is the metadata again, where
    /// a text can carry it.
    #[must_use]
    pub fn to_string(&self) -> (text: Option<String>)
        ensures
            match text {
                Some(text) => {
                    &&& metadata_text(self@) == Some(text@)
                    &&& match self@ {
                        MetadataView::Default(value) => is_scalar(value) ==> metadata_parsed(text@)
                            == Some(self@),
                        MetadataView::Nullable => metadata_parsed(text@) == Some(self@),
                        MetadataView::Enumeration(values) => carried(values) ==> metadata_parsed(
                            text@,
                        ) == Some(self@),
                    }
                },
                None => metadata_text(self@) is None && !(self@ matches MetadataView::Default(
                    value,
                ) && is_scalar(value)),
            },
    {
        match self {
            FieldMetadata::Default(value) => match compact_text(value) {
                Some(encoded) => {
                    let mut text = "default=".to_owned();
                    text.append(encoded.as_str());
                    proof {
                        reveal_strlit("default=");
                        reveal_strlit("default");
                        lemma_cut_keyword("default"@, encoded@);
                        assert("default="@ =~= "default"@.push('='));
                    }
                    Some(text)
                },
                None => None,
            },
            FieldMetadata::Nullable => {
                proof {
                    reveal_strlit("nullable=true");
                    reveal_strlit("nullable");
                    reveal_strlit("default");
                    reveal_strlit("true");
                    lemma_cut_keyword("nullable"@, "true"@);
                    assert("nullable=true"@ =~= "nullable"@.push('=') + "true"@);
                    assert("nullable"@.len() != "default"@.len());
                }
                Some("nullable=true".to_owned())
            },
            FieldMetadata::Enumeration(values) => {
                let mut text = "enum=".to_owned();
                let joint = join_texts(values);
                text.append(joint.as_str());
                proof {
                    reveal_strlit("enum=");
                    reveal_strlit("enum");
                    reveal_strlit("default");
                    reveal_strlit("nullable");
                    lemma_cut_keyword("enum"@, joint@);
                    assert("enum="@ =~= "enum"@.push('='));
                    assert("enum"@.len() != "default"@.len());
                    assert("enum"@.len() != "nullable"@.len());
                    if carried(texts(values@)) {
                        lemma_split_joined(texts(values@));
                    }
                }
                Some(text)
            },
        }
    }
}

/// What an optional JSON value says.
pub open spec fn opt_json(value: Option<JsonValue>) -> Option<JsonView> {
    match value {
        Some(value) => Some(value@),
        None => None,
    }
}

fn join_texts(values: &Vec<String>) -> (text: String)
    ensures
        text@ == joined(texts(values@)),
{
    let ghost all = texts(values@);
    let mut text = "".to_owned();
    proof {
        reveal_strlit("");
        assert(all.take(0) =~= Seq::empty());
        assert(text@ =~= Seq::empty());
    }
    let mut index: usize = 0;
    while index < values.len()
        invariant
            index <= values@.len(),
            all == texts(values@),
            text@ == joined(all.take(index as int)),
        decreases values@.len() - index,
    {
        proof {
            assert(all.take(index + 1).drop_last() =~= all.take(index as int));
            assert(all.take(index + 1).last() == values@[index as int]@);
        }
        if index > 0 {
            text.append("|");
            proof {
                reveal_strlit("|");
                assert("|"@ =~= seq!['|']);
            }
        }
        text.append(values[index].as_str());
        proof {
            if index == 0 {
                assert(text@ =~= values@[0]@);
            } else {
                assert(text@ =~= joined(all.take(index as int)).push('|') + values@[index as int]@);
            }
        }
        index += 1;
    }
    assert(all.take(index as int) =~= all);
    text
}

/// A keyword without an equals sign is what stands before the first one.
proof fn lemma_cut_keyword(keyword: Seq<char>, value: Seq<char>)
    requires
        forall|i: int| 0 <= i < keyword.len() ==> #[trigger] keyword[i] != '=',
    ensures
        cut(keyword.push('=') + value, '=') == Some((keyword, value)),
    decreases keyword.len(),
{
    let text = keyword.push('=') + value;
    lemma_index_behind(text, '=', keyword.len() as int);
    assert(text.take(keyword.len() as int) =~= keyword);
    assert(text.skip(keyword.len() as int + 1) =~= value);
}

proof fn lemma_index_behind(text: Seq<char>, wanted: char, at: int)
    requires
        0 <= at < text.len(),
        text[at] == wanted,
        forall|i: int| 0 <= i < at ==> #[trigger] text[i] != wanted,
    ensures
        index_of(text, wanted) == Some(at),
    decreases text.len(),
{
    if at > 0 {
        assert(text[0] != wanted);
        assert forall|i: int| 0 <= i < at - 1 implies #[trigger] text.drop_first()[i]
            != wanted by {
            assert(text.drop_first()[i] == text[i + 1]);
        }
        lemma_index_behind(text.drop_first(), wanted, at - 1);
    }
}

proof fn lemma_split_behind(text: Seq<char>, piece: Seq<char>)
    requires
        forall|i: int| 0 <= i < piece.len() ==> #[trigger] piece[i] != '|',
    ensures
        split_spec(text.push('|') + piece, '|') == split_spec(text, '|').push(piece),
    decreases piece.len(),
{
    let whole = text.push('|') + piece;
    if piece.len() == 0 {
        assert(whole.drop_last() =~= text);
        assert(piece =~= Seq::empty());
    } else {
        let shorter = piece.drop_last();
        assert(whole.drop_last() =~= text.push('|') + shorter);
        lemma_split_behind(text, shorter);
        let pieces = split_spec(text, '|').push(shorter);
        assert(pieces.drop_last() =~= split_spec(text, '|'));
        assert(shorter.push(piece.last()) =~= piece);
        assert(whole.last() == piece.last());
    }
}

proof fn lemma_split_single(piece: Seq<char>)
    requires
        forall|i: int| 0 <= i < piece.len() ==> #[trigger] piece[i] != '|',
    ensures
        split_spec(piece, '|') == seq![piece],
    decreases piece.len(),
{
    if piece.len() == 0 {
        assert(piece =~= Seq::empty());
    } else {
        lemma_split_single(piece.drop_last());
        let pieces = seq![piece.drop_last()];
        assert(piece.drop_last().push(piece.last()) =~= piece);
        assert(pieces.drop_last().push(pieces.last().push(piece.last())) =~= seq![piece]);
    }
}

proof fn lemma_split_joined(values: Seq<Seq<char>>)
    requires
        values.len() > 0,
        forall|i: int, j: int|
            0 <= i < values.len() && 0 <= j < values[i].len() ==> (#[trigger] values[i][j])
                != '|',
    ensures
        split_spec(joined(values), '|') == values,
    decreases values.len(),
{
    let last = values.last();
    assert forall|i: int| 0 <= i < last.len() implies #[trigger] last[i] != '|' by {
        assert(values[values.len() - 1][i] != '|');
    }
    if values.len() == 1 {
        lemma_split_single(values[0]);
        assert(seq![values[0]] =~= values);
    } else {
        assert forall|i: int, j: int|
            0 <= i < values.drop_last().len() && 0 <= j < values.drop_last()[i].len() implies (
        #[trigger] values.drop_last()[i][j]) != '|' by {
            assert(values[i][j] != '|');
        }
        lemma_split_joined(values.drop_last());
        lemma_split_behind(joined(values.drop_last()), last);
        assert(values.drop_last().push(last) =~= values);
    }
}

/// Parsing gives back what was written: enumerations and nullability survive
/// being carried as a text.
pub proof fn law_metadata_survives_as_text(values: Seq<Seq<char>>)
    requires
        carried(values),
    ensures
        metadata_parsed(metadata_text(MetadataView::Enumeration(values))->Some_0) == Some(
            MetadataView::Enumeration(values),
        ),
        metadata_parsed(metadata_text(MetadataView::Nullable)->Some_0) == Some(
            MetadataView::Nullable,
        ),
{
    reveal_strlit("enum=");
    reveal_strlit("enum");
    reveal_strlit("default");
    reveal_strlit("nullable");
    reveal_strlit("nullable=true");
    reveal_strlit("true");
    lemma_cut_keyword("enum"@, joined(values));
    assert("enum="@ =~= "enum"@.push('='));
    assert("enum"@.len() != "default"@.len());
    assert("enum"@.len() != "nullable"@.len());
    lemma_split_joined(values);
    lemma_cut_keyword("nullable"@, "true"@);
    assert("nullable=true"@ =~= "nullable"@.push('=') + "true"@);
    assert("nullable"@.len() != "default"@.len());
}

/// A violation that is moved under a field keeps its code and its message and is
/// found below that field; moving it there twice is moving it once. The list keeps
/// its length and its order.
pub proof fn law_moved_violations_stand_below_their_field(
    nested: Seq<ViolationView>,
    field: Seq<char>,
    i: int,
)
    requires
        0 <= i < nested.len(),
        field.len() > 0,
    ensures
        ({
            let moved = moved_under_field(nested, field);
            let prefixed = moved_under_prefix(nested, field);
            let own = nested[i].field;
            &&& moved.len() == nested.len() && prefixed.len() == nested.len()
            &&& moved[i].code == nested[i].code && moved[i].message == nested[i].message
            &&& prefixed[i].code == nested[i].code && prefixed[i].message == nested[i].message
            &&& moved[i].field.len() >= field.len() && moved[i].field.take(field.len() as int)
                == field
            &&& own.len() == 0 ==> moved[i].field == field && prefixed[i].field == field
            &&& own.len() > 0 ==> prefixed[i].field == field.push('.') + own
            &&& own == field ==> moved[i].field == field
            &&& own.len() > 0 && !(own.len() >= field.len() && own.take(field.len() as int)
                == field) ==> moved[i].field == field.push('.') + own
            &&& moved_under_field(moved, field) == moved
        }),
{
    let moved = moved_under_field(nested, field);
    reveal_strlit(".");
    assert("."@ =~= seq!['.']);
    let own = nested[i].field;
    assert(field + "."@ + own =~= field.push('.') + own);
    assert(field.take(field.len() as int) =~= field);
    assert((field.push('.') + own).take(field.len() as int) =~= field);
    assert forall|k: int| 0 <= k < moved.len() implies moved_under_field(moved, field)[k]
        == moved[k] by {
        let path = nested[k].field;
        let under = under_field(field, path);
        assert(field + "."@ + path =~= field.push('.') + path);
        assert((field.push('.') + path).take(field.len() as int) =~= field);
        assert((field.push('.') + path)[field.len() as int] == '.');
        assert(under_field(field, under) == under);
    }
    assert(moved_under_field(moved, field) =~= moved);
}

/// Metadata stands in a schema under its own keyword: a default as the value
/// itself, nullability as true, and the accepted values as a list of all of them in
/// order.
pub proof fn law_metadata_stands_under_its_keyword(metadata: MetadataView)
    ensures
        metadata matches MetadataView::Default(value) ==> metadata_keyword(metadata) == "default"@
            && metadata_schema(metadata) == value,
        metadata is Nullable ==> metadata_keyword(metadata) == "nullable"@ && metadata_schema(
            metadata,
        ) == JsonView::Bool(true),
        metadata matches MetadataView::Enumeration(values) ==> metadata_keyword(metadata) == "enum"@
            && (metadata_schema(metadata) matches JsonView::List(items) && items.len()
            == values.len() && forall|i: int|
            0 <= i < items.len() ==> #[trigger] items[i] == JsonView::Text(values[i])),
{
}

} // verus!
