//! Operations as Markdown, for people and for agents.
use crate::application::{
    descriptors_view, method_name, AppDefinition, DescriptorView, LinkView, OperationDescriptor,
};
use crate::contract::{
    field_view, model_view, rules_view, type_view, FieldDescriptor, FieldView, ModelDescriptor,
    ModelView, RuleView, TypeDescriptor, TypeView, ValidationRule,
};
use crate::json::{compact_json, compact_text, JsonValue, JsonView};
use crate::metadata::{metadata_parsed, FieldMetadata, MetadataView};
use crate::operation::{
    dependencies_view, headers_view, inputs_view, opt_text, responses_view, security_view, texts,
    Confirmation, DependencyDescriptor, HeaderView, InputDescriptor, InputSource, InputView,
    McpToolDescriptor, McpView, OperationRisk, OutputExposure, ResponseDescriptor, ResponseHeader,
    ResponseView, SecurityRequirement, SecurityView,
};
use crate::text::{
    chars_of, decimal, decimal_text, eq_text, lemma_before_total, lemma_before_transitive,
    lower_all, string_from, text_before, text_before_spec,
};
use vstd::prelude::*;
use vstd::string::*;

verus! {

// ---------------------------------------------------------------------------
// Words
// ---------------------------------------------------------------------------

/// Whether something has to be given, as a word.
pub open spec fn requirement(required: bool) -> Seq<char> {
    if required {
        "required"@
    } else {
        "optional"@
    }
}

pub(crate) fn requirement_word(required: bool) -> (word: &'static str)
    ensures
        word@ == requirement(required),
{
    if required {
        "required"
    } else {
        "optional"
    }
}

/// A flag as a word.
pub open spec fn flag_word(flag: bool) -> Seq<char> {
    if flag {
        "true"@
    } else {
        "false"@
    }
}

pub(crate) fn flag_name(flag: bool) -> (word: &'static str)
    ensures
        word@ == flag_word(flag),
{
    if flag {
        "true"
    } else {
        "false"
    }
}

/// A risk as a word.
pub open spec fn risk_word(risk: OperationRisk) -> Seq<char> {
    match risk {
        OperationRisk::Read => "Read"@,
        OperationRisk::Write => "Write"@,
        OperationRisk::Destructive => "Destructive"@,
    }
}

pub(crate) fn risk_name(risk: OperationRisk) -> (word: &'static str)
    ensures
        word@ == risk_word(risk),
{
    match risk {
        OperationRisk::Read => "Read",
        OperationRisk::Write => "Write",
        OperationRisk::Destructive => "Destructive",
    }
}

/// A confirmation policy as a word.
pub open spec fn confirmation_word(confirmation: Confirmation) -> Seq<char> {
    match confirmation {
        Confirmation::Never => "Never"@,
        Confirmation::Required => "Required"@,
    }
}

pub(crate) fn confirmation_name(confirmation: Confirmation) -> (word: &'static str)
    ensures
        word@ == confirmation_word(confirmation),
{
    match confirmation {
        Confirmation::Never => "Never",
        Confirmation::Required => "Required",
    }
}

/// An output exposure as a word.
pub open spec fn exposure_word(exposure: OutputExposure) -> Seq<char> {
    match exposure {
        OutputExposure::Full => "Full"@,
        OutputExposure::SummaryOnly => "SummaryOnly"@,
        OutputExposure::Hidden => "None"@,
    }
}

pub(crate) fn exposure_name(exposure: OutputExposure) -> (word: &'static str)
    ensures
        word@ == exposure_word(exposure),
{
    match exposure {
        OutputExposure::Full => "Full",
        OutputExposure::SummaryOnly => "SummaryOnly",
        OutputExposure::Hidden => "None",
    }
}

/// A source as a word.
pub open spec fn source_title(source: InputSource) -> Seq<char> {
    match source {
        InputSource::Path => "Path"@,
        InputSource::Query => "Query"@,
        InputSource::Header => "Header"@,
        InputSource::Cookie => "Cookie"@,
        InputSource::Json => "JSON"@,
        InputSource::Form => "Form"@,
        InputSource::Multipart => "Multipart"@,
        InputSource::File => "File"@,
        InputSource::Stream => "Stream"@,
    }
}

pub(crate) fn input_source_name(source: InputSource) -> (word: &'static str)
    ensures
        word@ == source_title(source),
{
    match source {
        InputSource::Path => "Path",
        InputSource::Query => "Query",
        InputSource::Header => "Header",
        InputSource::Cookie => "Cookie",
        InputSource::Json => "JSON",
        InputSource::Form => "Form",
        InputSource::Multipart => "Multipart",
        InputSource::File => "File",
        InputSource::Stream => "Stream",
    }
}

/// A JSON value as it is shown; nothing where the engine cannot write it.
pub open spec fn shown(value: JsonView) -> Seq<char> {
    match compact_json(value) {
        Some(text) => text,
        None => Seq::empty(),
    }
}

pub(crate) fn shown_value(value: &JsonValue) -> (text: String)
    ensures
        text@ == shown(value@),
{
    match compact_text(value) {
        Some(text) => text,
        None => String::new(),
    }
}

/// Texts with something between them.
pub open spec fn joined_by(list: Seq<Seq<char>>, between: Seq<char>) -> Seq<char>
    decreases list.len(),
{
    if list.len() == 0 {
        Seq::empty()
    } else if list.len() == 1 {
        list[0]
    } else {
        joined_by(list.drop_last(), between) + between + list.last()
    }
}

pub(crate) fn join_texts(list: &Vec<String>, between: &str) -> (text: String)
    ensures
        text@ == joined_by(texts(list@), between@),
{
    let ghost views = texts(list@);
    let mut text = String::new();
    let mut index: usize = 0;
    assert(text@ =~= joined_by(views.take(0), between@));
    while index < list.len()
        invariant
            index <= list@.len(),
            views == texts(list@),
            text@ == joined_by(views.take(index as int), between@),
        decreases list@.len() - index,
    {
        proof {
            let prefix = views.take(index + 1);
            assert(prefix.drop_last() =~= views.take(index as int));
            assert(prefix.last() == list@[index as int]@);
        }
        if index > 0 {
            text.append(between);
        }
        text.append(list[index].as_str());
        proof {
            if index == 0 {
                assert(views.take(1)[0] == list@[0]@);
                assert(text@ =~= list@[0]@);
            }
        }
        index += 1;
    }
    assert(views.take(list@.len() as int) =~= views);
    text
}

// ---------------------------------------------------------------------------
// Rules and models
// ---------------------------------------------------------------------------

/// Recovered metadata as prose.
pub open spec fn metadata_prose(metadata: MetadataView) -> Seq<char> {
    match metadata {
        MetadataView::Default(value) => "default `"@ + shown(value) + "`"@,
        MetadataView::Nullable => "nullable"@,
        MetadataView::Enumeration(values) => "one of `"@ + joined_by(values, "`, `"@) + "`"@,
    }
}

/// The prose that a custom rule reads as: metadata reads as what it says, and
/// anything else as the name of a validator.
pub open spec fn encoded_prose(encoded: Seq<char>) -> Seq<char> {
    match metadata_parsed(encoded) {
        Some(metadata) => metadata_prose(metadata),
        None => "validator `"@ + encoded + "`"@,
    }
}

/// One recorded rule as prose.
pub open spec fn rule_prose(rule: RuleView) -> Seq<char> {
    match rule {
        RuleView::MinLength(value) => "min length "@ + decimal(value as nat),
        RuleView::MaxLength(value) => "max length "@ + decimal(value as nat),
        RuleView::Email => "email"@,
        RuleView::Alias(alias) => "alias `"@ + alias + "`"@,
        RuleView::Custom(validator) => encoded_prose(validator),
        RuleView::Nested => "nested validation"@,
    }
}

/// Renders a recovered default, nullability marker, or enumeration as prose.
pub fn describe_metadata(metadata: &FieldMetadata) -> (prose: String)
    ensures
        prose@ == metadata_prose(metadata@),
{
    let mut prose = String::new();
    match metadata {
        FieldMetadata::Default(value) => {
            prose.append("default `");
            prose.append(shown_value(value).as_str());
            prose.append("`");
        },
        FieldMetadata::Nullable => {
            prose.append("nullable");
        },
        FieldMetadata::Enumeration(values) => {
            prose.append("one of `");
            prose.append(join_texts(values, "`, `").as_str());
            prose.append("`");
        },
    }
    assert(prose@ =~= metadata_prose(metadata@));
    prose
}

/// The prose that a custom rule reads as, once it was read as metadata.
pub fn describe_encoded_rule(encoded: &str, metadata: Option<FieldMetadata>) -> (prose: String)
    ensures
        prose@ == match metadata {
            Some(metadata) => metadata_prose(metadata@),
            None => "validator `"@ + encoded@ + "`"@,
        },
{
    match metadata {
        Some(metadata) => describe_metadata(&metadata),
        None => {
            let mut prose = String::new();
            prose.append("validator `");
            prose.append(encoded);
            prose.append("`");
            assert(prose@ =~= "validator `"@ + encoded@ + "`"@);
            prose
        },
    }
}

/// One recorded rule as prose.
pub fn describe_rule(rule: &ValidationRule) -> (prose: String)
    ensures
        prose@ == rule_prose(rule@),
{
    let mut prose = String::new();
    match rule {
        ValidationRule::MinLength(value) => {
            prose.append("min length ");
            prose.append(decimal_text(*value as u64).as_str());
        },
        ValidationRule::MaxLength(value) => {
            prose.append("max length ");
            prose.append(decimal_text(*value as u64).as_str());
        },
        ValidationRule::Email => {
            prose.append("email");
        },
        ValidationRule::Alias(alias) => {
            prose.append("alias `");
            prose.append(alias.as_str());
            prose.append("`");
        },
        ValidationRule::Custom(validator) => {
            return describe_encoded_rule(
                validator.as_str(),
                FieldMetadata::parse(validator.as_str()),
            );
        },
        ValidationRule::Nested => {
            prose.append("nested validation");
        },
    }
    assert(prose@ =~= rule_prose(rule@));
    prose
}

/// A text followed by the first so many rules, each about some scope.
pub open spec fn with_rules(
    out: Seq<char>,
    rules: Seq<RuleView>,
    scope: Seq<char>,
    count: int,
) -> Seq<char>
    decreases count,
{
    if count <= 0 {
        out
    } else {
        with_rules(out, rules, scope, count - 1) + ", "@ + scope + rule_prose(rules[count - 1])
    }
}

fn write_rules(output: &mut String, rules: &Vec<ValidationRule>, scope: &str)
    ensures
        final(output)@ == with_rules(
            old(output)@,
            rules_view(rules@),
            scope@,
            rules@.len() as int,
        ),
{
    let ghost start = output@;
    let ghost views = rules_view(rules@);
    let mut index: usize = 0;
    while index < rules.len()
        invariant
            index <= rules@.len(),
            views == rules_view(rules@),
            output@ == with_rules(start, views, scope@, index as int),
        decreases rules@.len() - index,
    {
        assert(views[index as int] == rules@[index as int]@);
        output.append(", ");
        output.append(scope);
        output.append(describe_rule(&rules[index]).as_str());
        index += 1;
    }
}

/// A text followed by the rules about the elements of a collection, one level
/// of scope for each level of nesting.
pub open spec fn with_item_rules(
    out: Seq<char>,
    items: Option<Box<TypeView>>,
    scope: Seq<char>,
) -> Seq<char>
    decreases items,
{
    match items {
        None => out,
        Some(item) => {
            let inner = scope + "each item "@;
            with_item_rules(
                with_rules(out, item.constraints, inner, item.constraints.len() as int),
                item.items,
                inner,
            )
        },
    }
}

fn write_item_rules(output: &mut String, items: &Option<Box<TypeDescriptor>>, scope: &str)
    ensures
        final(output)@ == with_item_rules(
            old(output)@,
            match *items {
                Some(item) => Some(Box::new(type_view(*item))),
                None => None,
            },
            scope@,
        ),
    decreases items,
{
    if let Some(item) = items {
        let mut inner = scope.to_owned();
        inner.append("each item ");
        assert(type_view(**item).constraints == rules_view(item.constraints@));
        write_rules(output, &item.constraints, inner.as_str());
        write_item_rules(output, &item.items, inner.as_str());
    }
}

/// A text followed by the line about a field.
pub open spec fn with_field(out: Seq<char>, field: FieldView) -> Seq<char> {
    let head = out + "- `"@ + field.name + "`: `"@ + field.ty.rust_name + "` ("@ + requirement(
        field.required,
    ) + ")"@;
    let ruled = with_rules(head, field.validation, Seq::empty(), field.validation.len() as int);
    with_item_rules(ruled, field.ty.items, Seq::empty()) + "\n"@
}

fn write_field(output: &mut String, field: &FieldDescriptor)
    ensures
        final(output)@ == with_field(old(output)@, field@),
{
    proof {
        reveal_strlit("");
        assert(""@ =~= Seq::<char>::empty());
        assert(field@.ty == type_view(field.ty));
    }
    output.append("- `");
    output.append(field.name.as_str());
    output.append("`: `");
    output.append(field.ty.rust_name.as_str());
    output.append("` (");
    output.append(requirement_word(field.required));
    output.append(")");
    write_rules(output, &field.validation, "");
    write_item_rules(output, &field.ty.items, "");
    output.append("\n");
}

/// A text followed by the lines about the first so many fields.
pub open spec fn with_fields(out: Seq<char>, fields: Seq<FieldView>, count: int) -> Seq<char>
    decreases count,
{
    if count <= 0 {
        out
    } else {
        with_field(with_fields(out, fields, count - 1), fields[count - 1])
    }
}

/// A text followed by the section about a model.
pub open spec fn with_model(out: Seq<char>, model: ModelView) -> Seq<char> {
    with_fields(
        out + "\n### `"@ + model.name + "` fields\n\n"@,
        model.fields,
        model.fields.len() as int,
    ) + "\n"@
}

pub(crate) fn write_model(output: &mut String, model: &ModelDescriptor)
    ensures
        final(output)@ == with_model(old(output)@, model@),
{
    let ghost fields = model@.fields;
    output.append("\n### `");
    output.append(model.name.as_str());
    output.append("` fields\n\n");
    let ghost start = output@;
    let mut index: usize = 0;
    while index < model.fields.len()
        invariant
            index <= model.fields@.len(),
            fields == model@.fields,
            output@ == with_fields(start, fields, index as int),
        decreases model.fields@.len() - index,
    {
        assert(fields[index as int] == field_view(model.fields@[index as int]));
        write_field(output, &model.fields[index]);
        index += 1;
    }
    output.append("\n");
}

/// A text followed by the section about the model of a type, if it has one.
pub open spec fn with_model_of(out: Seq<char>, ty: TypeView) -> Seq<char> {
    match ty.model {
        Some(model) => with_model(out, *model),
        None => out,
    }
}

pub(crate) fn write_model_of(output: &mut String, ty: &TypeDescriptor)
    ensures
        final(output)@ == with_model_of(old(output)@, ty@),
{
    if let Some(model) = &ty.model {
        assert(ty@.model == Some(Box::new(model_view(**model))));
        write_model(output, model);
    }
}

// ---------------------------------------------------------------------------
// Operations
// ---------------------------------------------------------------------------

/// The position of the last occurrence of a character.
pub open spec fn last_index_of(text: Seq<char>, wanted: char) -> Option<int>
    decreases text.len(),
{
    if text.len() == 0 {
        None
    } else if text.last() == wanted {
        Some(text.len() - 1)
    } else {
        last_index_of(text.drop_last(), wanted)
    }
}

/// The section that an operation belongs to: its first tag where it declares
/// one, and otherwise the namespace of its identity, if it has one.
pub open spec fn section_of(operation: DescriptorView) -> Option<Seq<char>> {
    if operation.documentation.tags.len() > 0 {
        Some(operation.documentation.tags[0])
    } else {
        match last_index_of(operation.contract.id, '.') {
            Some(at) => if at > 0 {
                Some(operation.contract.id.take(at))
            } else {
                None
            },
            None => None,
        }
    }
}

/// The section that an operation belongs to.
pub fn operation_tag(operation: &OperationDescriptor) -> (tag: Option<String>)
    ensures
        opt_text(tag) == section_of(operation@),
{
    if operation.documentation.tags.len() > 0 {
        assert(operation@.documentation.tags[0] == operation.documentation.tags@[0]@);
        return Some(operation.documentation.tags[0].clone());
    }
    let id = chars_of(operation.contract.id.as_str());
    let mut end: usize = id.len();
    assert(id@.take(end as int) =~= id@);
    while end > 0
        invariant
            end <= id@.len(),
            id@ == operation@.contract.id,
            operation@.documentation.tags.len() == 0,
            last_index_of(id@, '.') == last_index_of(id@.take(end as int), '.'),
        decreases end,
    {
        proof {
            assert(id@.take(end as int).last() == id@[end - 1]);
            assert(id@.take(end as int).drop_last() =~= id@.take(end - 1));
        }
        if id[end - 1] == '.' {
            if end == 1 {
                return None;
            }
            let namespace = vstd::slice::slice_subrange(id.as_slice(), 0, end - 1);
            assert(namespace@ =~= id@.take(end - 1));
            return Some(string_from(namespace));
        }
        end -= 1;
    }
    None
}

/// The long-form description that an operation declares beyond its summary: an
/// explicit one before that of its tool, which counts only where it says
/// something else than the summary.
pub open spec fn description_of(operation: DescriptorView) -> Option<Seq<char>> {
    match operation.documentation.description {
        Some(declared) => if declared.len() > 0 {
            Some(declared)
        } else {
            tool_description(operation)
        },
        None => tool_description(operation),
    }
}

/// What the tool of an operation says beyond its summary.
pub open spec fn tool_description(operation: DescriptorView) -> Option<Seq<char>> {
    match operation.contract.mcp {
        Some(tool) => if tool.description.len() > 0 && tool.description
            != operation.contract.summary {
            Some(tool.description)
        } else {
            None
        },
        None => None,
    }
}

/// The long-form description that an operation declares beyond its summary.
pub fn operation_description(operation: &OperationDescriptor) -> (description: Option<&str>)
    ensures
        match description {
            Some(description) => description_of(operation@) == Some(description@),
            None => description_of(operation@) is None,
        },
{
    if let Some(declared) = &operation.documentation.description {
        if declared.as_str().unicode_len() > 0 {
            return Some(declared.as_str());
        }
    }
    if let Some(tool) = &operation.contract.mcp {
        let description = tool.description.as_str();
        if description.unicode_len() > 0 && !eq_text(
            description,
            operation.contract.summary.as_str(),
        ) {
            return Some(description);
        }
    }
    None
}

/// A text followed by a description, if there is one.
pub open spec fn with_description(out: Seq<char>, description: Option<Seq<char>>) -> Seq<char> {
    match description {
        Some(description) => out + description + "\n\n"@,
        None => out,
    }
}

fn write_description(output: &mut String, operation: &OperationDescriptor)
    ensures
        final(output)@ == with_description(old(output)@, description_of(operation@)),
{
    if let Some(description) = operation_description(operation) {
        output.append(description);
        output.append("\n\n");
    }
}

/// A text followed by a link, if there is one.
pub open spec fn with_link(out: Seq<char>, link: Option<LinkView>) -> Seq<char> {
    match link {
        Some(link) => out + "- See also: ["@ + (match link.description {
            Some(label) => label,
            None => "Further documentation"@,
        }) + "]("@ + link.url + ")\n"@,
        None => out,
    }
}

fn write_link(output: &mut String, operation: &OperationDescriptor)
    ensures
        final(output)@ == with_link(old(output)@, operation@.documentation.external_docs),
{
    if let Some(link) = &operation.documentation.external_docs {
        output.append("- See also: [");
        match &link.description {
            Some(label) => {
                output.append(label.as_str());
            },
            None => {
                output.append("Further documentation");
            },
        }
        output.append("](");
        output.append(link.url.as_str());
        output.append(")\n");
    }
}

/// A text followed by the lines about the first so many inputs.
pub open spec fn with_inputs(out: Seq<char>, inputs: Seq<InputView>, count: int) -> Seq<char>
    decreases count,
{
    if count <= 0 {
        out
    } else {
        let input = inputs[count - 1];
        with_model_of(
            with_inputs(out, inputs, count - 1) + "- "@ + source_title(input.source) + " input `"@
                + input.name + "`: `"@ + input.ty.rust_name + "` ("@ + requirement(input.required)
                + ")\n"@,
            input.ty,
        )
    }
}

fn write_inputs(output: &mut String, inputs: &Vec<InputDescriptor>)
    ensures
        final(output)@ == with_inputs(old(output)@, inputs_view(inputs@), inputs@.len() as int),
{
    let ghost start = output@;
    let ghost views = inputs_view(inputs@);
    let mut index: usize = 0;
    while index < inputs.len()
        invariant
            index <= inputs@.len(),
            views == inputs_view(inputs@),
            output@ == with_inputs(start, views, index as int),
        decreases inputs@.len() - index,
    {
        let input = &inputs[index];
        assert(views[index as int] == input@);
        output.append("- ");
        output.append(input_source_name(input.source));
        output.append(" input `");
        output.append(input.name.as_str());
        output.append("`: `");
        output.append(input.ty.rust_name.as_str());
        output.append("` (");
        output.append(requirement_word(input.required));
        output.append(")\n");
        write_model_of(output, &input.ty);
        index += 1;
    }
}

/// A text followed by the lines about the first so many dependencies.
pub open spec fn with_dependencies(out: Seq<char>, list: Seq<Seq<char>>, count: int) -> Seq<char>
    decreases count,
{
    if count <= 0 {
        out
    } else {
        with_dependencies(out, list, count - 1) + "- Dependency: `"@ + list[count - 1] + "`\n"@
    }
}

fn write_dependencies(output: &mut String, list: &Vec<DependencyDescriptor>)
    ensures
        final(output)@ == with_dependencies(
            old(output)@,
            dependencies_view(list@),
            list@.len() as int,
        ),
{
    let ghost start = output@;
    let ghost views = dependencies_view(list@);
    let mut index: usize = 0;
    while index < list.len()
        invariant
            index <= list@.len(),
            views == dependencies_view(list@),
            output@ == with_dependencies(start, views, index as int),
        decreases list@.len() - index,
    {
        assert(views[index as int] == list@[index as int]@);
        output.append("- Dependency: `");
        output.append(list[index].rust_name.as_str());
        output.append("`\n");
        index += 1;
    }
}

/// A text followed by the line about a security requirement.
pub open spec fn with_requirement(out: Seq<char>, security: SecurityView) -> Seq<char> {
    if security.scopes.len() == 0 {
        out + "- Security: `"@ + security.scheme + "`\n"@
    } else {
        out + "- Security: `"@ + security.scheme + "` with scopes `"@ + joined_by(
            security.scopes,
            "`, `"@,
        ) + "`\n"@
    }
}

/// A text followed by the lines about the first so many requirements.
pub open spec fn with_security(out: Seq<char>, list: Seq<SecurityView>, count: int) -> Seq<char>
    decreases count,
{
    if count <= 0 {
        out
    } else {
        with_requirement(with_security(out, list, count - 1), list[count - 1])
    }
}

fn write_security(output: &mut String, list: &Vec<SecurityRequirement>)
    ensures
        final(output)@ == with_security(old(output)@, security_view(list@), list@.len() as int),
{
    let ghost start = output@;
    let ghost views = security_view(list@);
    let mut index: usize = 0;
    while index < list.len()
        invariant
            index <= list@.len(),
            views == security_view(list@),
            output@ == with_security(start, views, index as int),
        decreases list@.len() - index,
    {
        let security = &list[index];
        assert(views[index as int] == security@);
        output.append("- Security: `");
        output.append(security.scheme.as_str());
        if security.scopes.len() == 0 {
            output.append("`\n");
        } else {
            output.append("` with scopes `");
            output.append(join_texts(&security.scopes, "`, `").as_str());
            output.append("`\n");
        }
        index += 1;
    }
}

/// A text followed by the lines about the first so many headers.
pub open spec fn with_headers(out: Seq<char>, headers: Seq<HeaderView>, count: int) -> Seq<char>
    decreases count,
{
    if count <= 0 {
        out
    } else {
        with_headers(out, headers, count - 1) + "  - Header `"@ + headers[count - 1].name
            + "`: `"@ + headers[count - 1].value + "`\n"@
    }
}

fn write_headers(output: &mut String, headers: &Vec<ResponseHeader>)
    ensures
        final(output)@ == with_headers(old(output)@, headers_view(headers@), headers@.len() as int),
{
    let ghost start = output@;
    let ghost views = headers_view(headers@);
    let mut index: usize = 0;
    while index < headers.len()
        invariant
            index <= headers@.len(),
            views == headers_view(headers@),
            output@ == with_headers(start, views, index as int),
        decreases headers@.len() - index,
    {
        let header = &headers[index];
        assert(views[index as int] == header@);
        output.append("  - Header `");
        output.append(header.name.as_str());
        output.append("`: `");
        output.append(header.value.as_str());
        output.append("`\n");
        index += 1;
    }
}

/// What an optional text says, and nothing where there is none.
pub open spec fn text_or_nothing(text: Option<Seq<char>>) -> Seq<char> {
    match text {
        Some(text) => text,
        None => Seq::empty(),
    }
}

/// The name of the type of a body.
pub open spec fn body_word(body: Option<TypeView>) -> Seq<char> {
    match body {
        Some(body) => body.rust_name,
        None => "empty"@,
    }
}

pub(crate) fn body_name(body: &Option<TypeDescriptor>) -> (word: &str)
    ensures
        word@ == body_word(crate::operation::opt_type(*body)),
{
    match body {
        Some(body) => body.rust_name.as_str(),
        None => "empty",
    }
}

/// A text followed by the line about an error response.
pub open spec fn with_error(out: Seq<char>, response: ResponseView, code: Seq<char>) -> Seq<char> {
    out + "- Error `"@ + decimal(response.status as nat) + "` (`"@ + code + "`): "@
        + text_or_nothing(response.error_message) + "\n"@
}

fn write_error(output: &mut String, response: &ResponseDescriptor, code: &str)
    ensures
        final(output)@ == with_error(old(output)@, response@, code@),
{
    let ghost start = output@;
    output.append("- Error `");
    output.append(decimal_text(response.status as u64).as_str());
    output.append("` (`");
    output.append(code);
    output.append("`): ");
    match &response.error_message {
        Some(message) => {
            output.append(message.as_str());
        },
        None => {
            assert(output@ =~= output@ + Seq::<char>::empty());
        },
    }
    output.append("\n");
}

/// A text followed by the lines about a response.
pub open spec fn with_response(out: Seq<char>, response: ResponseView) -> Seq<char> {
    let answered = match response.error_code {
        Some(code) => {
            let failed = with_error(out, response, code);
            match response.body {
                Some(details) => failed + "  - Typed details: `"@ + details.rust_name + "`\n"@,
                None => failed,
            }
        },
        None => out + "- Response `"@ + decimal(response.status as nat) + "`: `"@ + body_word(
            response.body,
        ) + "`\n"@,
    };
    with_headers(answered, response.headers, response.headers.len() as int)
}

fn write_response(output: &mut String, response: &ResponseDescriptor)
    ensures
        final(output)@ == with_response(old(output)@, response@),
{
    if let Some(code) = &response.error_code {
        write_error(output, response, code.as_str());
        if let Some(details) = &response.body {
            output.append("  - Typed details: `");
            output.append(details.rust_name.as_str());
            output.append("`\n");
        }
    } else {
        output.append("- Response `");
        output.append(decimal_text(response.status as u64).as_str());
        output.append("`: `");
        output.append(body_name(&response.body));
        output.append("`\n");
    }
    write_headers(output, &response.headers);
}

/// A text followed by the lines about the first so many responses.
pub open spec fn with_responses(out: Seq<char>, list: Seq<ResponseView>, count: int) -> Seq<char>
    decreases count,
{
    if count <= 0 {
        out
    } else {
        with_response(with_responses(out, list, count - 1), list[count - 1])
    }
}

fn write_responses(output: &mut String, list: &Vec<ResponseDescriptor>)
    ensures
        final(output)@ == with_responses(old(output)@, responses_view(list@), list@.len() as int),
{
    let ghost start = output@;
    let ghost views = responses_view(list@);
    let mut index: usize = 0;
    while index < list.len()
        invariant
            index <= list@.len(),
            views == responses_view(list@),
            output@ == with_responses(start, views, index as int),
        decreases list@.len() - index,
    {
        assert(views[index as int] == list@[index as int]@);
        write_response(output, &list[index]);
        index += 1;
    }
}

/// A text followed by the section about an operation.
pub open spec fn with_operation(out: Seq<char>, operation: DescriptorView, heading: Seq<char>) -> Seq<
    char,
> {
    let contract = operation.contract;
    let titled = out + heading + " `"@ + contract.id + "`\n\n"@ + contract.summary + "\n\n"@;
    let warned = if operation.documentation.deprecated {
        titled + "**Deprecated.** Still served, no longer recommended.\n\n"@
    } else {
        titled
    };
    let described = with_description(warned, description_of(operation));
    let bound = described + "- HTTP: `"@ + method_name(operation.method) + " "@ + operation.path
        + "`\n"@;
    let linked = with_link(bound, operation.documentation.external_docs);
    let fed = with_inputs(linked, contract.inputs, contract.inputs.len() as int);
    let wired = with_dependencies(fed, contract.dependencies, contract.dependencies.len() as int);
    let guarded = with_security(wired, contract.security, contract.security.len() as int);
    let answered = with_responses(guarded, contract.responses, contract.responses.len() as int);
    (match contract.mcp {
        Some(tool) => answered + "- MCP tool: `"@ + tool.name + "`\n"@,
        None => answered,
    }) + "\n"@
}

/// Writes the section about an operation. That it is deprecated stands above
/// its description: a reader should learn so before reading how it works.
pub fn write_operation(output: &mut String, operation: &OperationDescriptor, heading: &str)
    ensures
        final(output)@ == with_operation(old(output)@, operation@, heading@),
{
    output.append(heading);
    output.append(" `");
    output.append(operation.contract.id.as_str());
    output.append("`\n\n");
    output.append(operation.contract.summary.as_str());
    output.append("\n\n");
    if operation.documentation.deprecated {
        output.append("**Deprecated.** Still served, no longer recommended.\n\n");
    }
    write_description(output, operation);
    output.append("- HTTP: `");
    output.append(operation.http.method.as_str());
    output.append(" ");
    output.append(operation.http.path.as_str());
    output.append("`\n");
    write_link(output, operation);
    write_inputs(output, &operation.contract.inputs);
    write_dependencies(output, &operation.contract.dependencies);
    write_security(output, &operation.contract.security);
    write_responses(output, &operation.contract.responses);
    if let Some(tool) = &operation.contract.mcp {
        output.append("- MCP tool: `");
        output.append(tool.name.as_str());
        output.append("`\n");
    }
    output.append("\n");
}

// ---------------------------------------------------------------------------
// Documents
// ---------------------------------------------------------------------------

/// Sections in order, with one more where it is not among them.
pub open spec fn with_section(sections: Seq<Seq<char>>, section: Seq<char>) -> Seq<Seq<char>>
    decreases sections.len(),
{
    if sections.len() == 0 {
        seq![section]
    } else if sections[0] == section {
        sections
    } else if text_before_spec(section, sections[0]) {
        seq![section] + sections
    } else {
        seq![sections[0]] + with_section(sections.drop_first(), section)
    }
}

/// The sections of the first so many operations, in order.
pub open spec fn sections_of(operations: Seq<DescriptorView>, count: int) -> Seq<Seq<char>>
    decreases count,
{
    if count <= 0 {
        Seq::empty()
    } else {
        let before = sections_of(operations, count - 1);
        match section_of(operations[count - 1]) {
            Some(section) => with_section(before, section),
            None => before,
        }
    }
}

fn add_section(sections: &mut Vec<String>, section: String)
    ensures
        texts(final(sections)@) == with_section(texts(old(sections)@), section@),
{
    let ghost views = texts(sections@);
    let ghost added = section@;
    let ghost before = sections@;
    let mut at: usize = 0;
    proof {
        assert(views.skip(0) =~= views);
        assert(views.take(0) + with_section(views, added) =~= with_section(views, added));
    }
    while at < sections.len() && !eq_text(sections[at].as_str(), section.as_str()) && !text_before(
        section.as_str(),
        sections[at].as_str(),
    )
        invariant
            at <= sections@.len(),
            sections@ == before,
            views == texts(before),
            added == section@,
            with_section(views, added) == views.take(at as int) + with_section(
                views.skip(at as int),
                added,
            ),
        decreases sections@.len() - at,
    {
        proof {
            let rest = views.skip(at as int);
            assert(rest[0] == sections@[at as int]@);
            assert(rest.drop_first() =~= views.skip(at + 1));
            assert(views.take(at + 1) =~= views.take(at as int).push(rest[0]));
            assert(views.take(at as int) + (seq![rest[0]] + with_section(rest.drop_first(), added))
                =~= views.take(at + 1) + with_section(views.skip(at + 1), added));
        }
        at += 1;
    }
    let ghost rest = views.skip(at as int);
    if at < sections.len() {
        assert(rest[0] == sections@[at as int]@);
        if eq_text(sections[at].as_str(), section.as_str()) {
            assert(views.take(at as int) + rest =~= views);
            return;
        }
    }
    sections.insert(at, section);
    proof {
        if at < before.len() {
            assert(texts(sections@) =~= views.take(at as int) + (seq![added] + rest));
        } else {
            assert(texts(sections@) =~= views.take(at as int) + seq![added]);
        }
    }
}

/// A text followed by the operations of one section among the first so many.
pub open spec fn with_operations(
    out: Seq<char>,
    operations: Seq<DescriptorView>,
    section: Option<Seq<char>>,
    heading: Seq<char>,
    count: int,
) -> Seq<char>
    decreases count,
{
    if count <= 0 {
        out
    } else {
        let before = with_operations(out, operations, section, heading, count - 1);
        if section_of(operations[count - 1]) == section {
            with_operation(before, operations[count - 1], heading)
        } else {
            before
        }
    }
}

/// A text followed by the first so many sections.
pub open spec fn with_sections(
    out: Seq<char>,
    operations: Seq<DescriptorView>,
    sections: Seq<Seq<char>>,
    heading: Seq<char>,
    count: int,
) -> Seq<char>
    decreases count,
{
    if count <= 0 {
        out
    } else {
        with_operations(
            with_sections(out, operations, sections, heading, count - 1) + "## "@ + sections[count
                - 1] + "\n\n"@,
            operations,
            Some(sections[count - 1]),
            heading,
            operations.len() as int,
        )
    }
}

/// Whether an operation belongs to no section.
pub open spec fn has_ungrouped(operations: Seq<DescriptorView>) -> bool {
    exists|i: int| 0 <= i < operations.len() && section_of(#[trigger] operations[i]) is None
}

/// The document about every operation, by sections.
pub open spec fn api_document(operations: Seq<DescriptorView>) -> Seq<char> {
    let sections = sections_of(operations, operations.len() as int);
    let grouped = sections.len() > 0;
    let heading = if grouped {
        "###"@
    } else {
        "##"@
    };
    let written = with_sections(
        "# API\n\n"@,
        operations,
        sections,
        heading,
        sections.len() as int,
    );
    let parted = if grouped && has_ungrouped(operations) {
        written + "## Other\n\n"@
    } else {
        written
    };
    with_operations(parted, operations, None, heading, operations.len() as int)
}

fn same_section(left: &Option<String>, right: Option<&str>) -> (same: bool)
    ensures
        same == (opt_text(*left) == match right {
            Some(right) => Some(right@),
            None => None,
        }),
{
    match (left, right) {
        (Some(left), Some(right)) => eq_text(left.as_str(), right),
        (None, None) => true,
        _ => false,
    }
}

fn write_section(
    output: &mut String,
    operations: &[OperationDescriptor],
    section: Option<&str>,
    heading: &str,
)
    ensures
        final(output)@ == with_operations(
            old(output)@,
            descriptors_view(operations@),
            match section {
                Some(section) => Some(section@),
                None => None,
            },
            heading@,
            operations@.len() as int,
        ),
{
    let ghost start = output@;
    let ghost views = descriptors_view(operations@);
    let ghost wanted = match section {
        Some(section) => Some(section@),
        None => None,
    };
    let mut index: usize = 0;
    while index < operations.len()
        invariant
            index <= operations@.len(),
            views == descriptors_view(operations@),
            wanted == match section {
                Some(section) => Some(section@),
                None => None,
            },
            output@ == with_operations(start, views, wanted, heading@, index as int),
        decreases operations@.len() - index,
    {
        let operation = &operations[index];
        assert(views[index as int] == operation@);
        if same_section(&operation_tag(operation), section) {
            write_operation(output, operation, heading);
        }
        index += 1;
    }
}

/// Generates concise Markdown describing every public API operation, grouped by
/// section so that a large surface does not read as one flat list.
#[must_use]
pub fn api_markdown(app: &AppDefinition) -> (document: String)
    ensures
        document@ == api_document(descriptors_view(app.spec_operations())),
{
    let operations = app.operations();
    let ghost views = descriptors_view(operations@);
    let mut output = "# API\n\n".to_owned();
    let mut sections: Vec<String> = Vec::new();
    let mut ungrouped = false;
    let mut index: usize = 0;
    assert(texts(sections@) =~= sections_of(views, 0));
    while index < operations.len()
        invariant
            index <= operations@.len(),
            views == descriptors_view(operations@),
            texts(sections@) == sections_of(views, index as int),
            ungrouped == (exists|i: int|
                0 <= i < index && section_of(#[trigger] views[i]) is None),
        decreases operations@.len() - index,
    {
        assert(views[index as int] == operations@[index as int]@);
        match operation_tag(&operations[index]) {
            Some(tag) => {
                add_section(&mut sections, tag);
            },
            None => {
                assert(section_of(views[index as int]) is None);
                ungrouped = true;
            },
        }
        index += 1;
    }
    let ghost tags = texts(sections@);
    assert(ungrouped == has_ungrouped(views));
    let grouped = sections.len() > 0;
    let heading = if grouped {
        "###"
    } else {
        "##"
    };
    let ghost start = output@;
    let mut at: usize = 0;
    while at < sections.len()
        invariant
            at <= sections@.len(),
            tags == texts(sections@),
            views == descriptors_view(operations@),
            output@ == with_sections(start, views, tags, heading@, at as int),
        decreases sections@.len() - at,
    {
        assert(tags[at as int] == sections@[at as int]@);
        output.append("## ");
        output.append(sections[at].as_str());
        output.append("\n\n");
        write_section(&mut output, operations, Some(sections[at].as_str()), heading);
        at += 1;
    }
    if grouped && ungrouped {
        output.append("## Other\n\n");
    }
    write_section(&mut output, operations, None, heading);
    output
}

/// A text followed by the models of the first so many inputs.
pub open spec fn with_input_models(out: Seq<char>, inputs: Seq<InputView>, count: int) -> Seq<char>
    decreases count,
{
    if count <= 0 {
        out
    } else {
        with_model_of(with_input_models(out, inputs, count - 1), inputs[count - 1].ty)
    }
}

/// A text followed by the errors among the first so many responses.
pub open spec fn with_errors(out: Seq<char>, list: Seq<ResponseView>, count: int) -> Seq<char>
    decreases count,
{
    if count <= 0 {
        out
    } else {
        let before = with_errors(out, list, count - 1);
        match list[count - 1].error_code {
            Some(code) => with_error(before, list[count - 1], code),
            None => before,
        }
    }
}

/// A text followed by the section about the tool of an operation.
pub open spec fn with_tool(out: Seq<char>, operation: DescriptorView, tool: McpView) -> Seq<char> {
    let contract = operation.contract;
    let head = out + "## `"@ + tool.name + "`\n\n"@ + tool.description + "\n\n"@
        + "- Operation: `"@ + contract.id + "`\n"@ + "- Risk: `"@ + risk_word(contract.agent.risk)
        + "`\n"@ + "- Confirmation: `"@ + confirmation_word(contract.agent.confirmation) + "`\n"@
        + "- Idempotent: `"@ + flag_word(contract.agent.idempotent) + "`\n"@
        + "- Output exposure: `"@ + exposure_word(tool.expose_output) + "`\n\n"@;
    let modelled = with_input_models(head, contract.inputs, contract.inputs.len() as int);
    with_errors(modelled, contract.responses, contract.responses.len() as int) + "\n"@
}

/// A text followed by the tools of the first so many operations.
pub open spec fn with_tools(out: Seq<char>, operations: Seq<DescriptorView>, count: int) -> Seq<char>
    decreases count,
{
    if count <= 0 {
        out
    } else {
        let before = with_tools(out, operations, count - 1);
        match operations[count - 1].contract.mcp {
            Some(tool) => with_tool(before, operations[count - 1], tool),
            None => before,
        }
    }
}

fn write_tool(output: &mut String, operation: &OperationDescriptor, tool: &McpToolDescriptor)
    ensures
        final(output)@ == with_tool(old(output)@, operation@, tool@),
{
    let contract = &operation.contract;
    output.append("## `");
    output.append(tool.name.as_str());
    output.append("`\n\n");
    output.append(tool.description.as_str());
    output.append("\n\n");
    output.append("- Operation: `");
    output.append(contract.id.as_str());
    output.append("`\n");
    output.append("- Risk: `");
    output.append(risk_name(contract.agent.risk));
    output.append("`\n");
    output.append("- Confirmation: `");
    output.append(confirmation_name(contract.agent.confirmation));
    output.append("`\n");
    output.append("- Idempotent: `");
    output.append(flag_name(contract.agent.idempotent));
    output.append("`\n");
    output.append("- Output exposure: `");
    output.append(exposure_name(tool.expose_output));
    output.append("`\n\n");
    let ghost head = output@;
    let ghost inputs = inputs_view(contract.inputs@);
    let mut index: usize = 0;
    while index < contract.inputs.len()
        invariant
            index <= contract.inputs@.len(),
            inputs == inputs_view(contract.inputs@),
            output@ == with_input_models(head, inputs, index as int),
        decreases contract.inputs@.len() - index,
    {
        assert(inputs[index as int] == contract.inputs@[index as int]@);
        write_model_of(output, &contract.inputs[index].ty);
        index += 1;
    }
    let ghost modelled = output@;
    let ghost responses = responses_view(contract.responses@);
    let mut at: usize = 0;
    while at < contract.responses.len()
        invariant
            at <= contract.responses@.len(),
            responses == responses_view(contract.responses@),
            output@ == with_errors(modelled, responses, at as int),
        decreases contract.responses@.len() - at,
    {
        let response = &contract.responses[at];
        assert(responses[at as int] == response@);
        if let Some(code) = &response.error_code {
            write_error(output, response, code.as_str());
        }
        at += 1;
    }
    output.append("\n");
}

/// Generates agent-oriented Markdown for native MCP tools.
#[must_use]
pub fn mcp_markdown(app: &AppDefinition) -> (document: String)
    ensures
        document@ == with_tools(
            "# MCP tools\n\n"@,
            descriptors_view(app.spec_operations()),
            app.spec_operations().len() as int,
        ),
{
    let operations = app.operations();
    let ghost views = descriptors_view(operations@);
    let mut output = "# MCP tools\n\n".to_owned();
    let mut index: usize = 0;
    while index < operations.len()
        invariant
            index <= operations@.len(),
            views == descriptors_view(operations@),
            output@ == with_tools("# MCP tools\n\n"@, views, index as int),
        decreases operations@.len() - index,
    {
        let operation = &operations[index];
        assert(views[index as int] == operation@);
        if let Some(tool) = &operation.contract.mcp {
            write_tool(&mut output, operation, tool);
        }
        index += 1;
    }
    output
}

/// Sections in strictly increasing order.
pub open spec fn sections_in_order(sections: Seq<Seq<char>>) -> bool {
    forall|i: int, j: int|
        0 <= i < j < sections.len() ==> text_before_spec(
            #[trigger] sections[i],
            #[trigger] sections[j],
        )
}

proof fn lemma_with_section(sections: Seq<Seq<char>>, section: Seq<char>)
    requires
        sections_in_order(sections),
    ensures
        sections_in_order(with_section(sections, section)),
        forall|other: Seq<char>| #[trigger]
            with_section(sections, section).contains(other) <==> sections.contains(other) || other
                == section,
    decreases sections.len(),
{
    let after = with_section(sections, section);
    if sections.len() == 0 {
        assert(after[0] == section);
        assert forall|other: Seq<char>| #[trigger] after.contains(other) <==> sections.contains(
            other,
        ) || other == section by {
            if other == section {
                assert(after[0] == other);
            }
        }
    } else if sections[0] == section {
        assert(sections.contains(section));
    } else if text_before_spec(section, sections[0]) {
        assert forall|i: int, j: int| 0 <= i < j < after.len() implies text_before_spec(
            #[trigger] after[i],
            #[trigger] after[j],
        ) by {
            assert(after[j] == sections[j - 1]);
            if i > 0 {
                assert(after[i] == sections[i - 1]);
            } else if j > 1 {
                assert(text_before_spec(sections[0], sections[j - 1]));
                lemma_before_transitive(section, sections[0], sections[j - 1]);
            }
        }
        assert forall|other: Seq<char>| #[trigger] after.contains(other) <==> sections.contains(
            other,
        ) || other == section by {
            if after.contains(other) {
                let i = choose|i: int| 0 <= i < after.len() && after[i] == other;
                if i > 0 {
                    assert(sections[i - 1] == other);
                }
            }
            if sections.contains(other) {
                let i = choose|i: int| 0 <= i < sections.len() && sections[i] == other;
                assert(after[i + 1] == other);
            }
            assert(after[0] == section);
        }
    } else {
        let rest = sections.drop_first();
        assert forall|i: int, j: int| 0 <= i < j < rest.len() implies text_before_spec(
            #[trigger] rest[i],
            #[trigger] rest[j],
        ) by {
            assert(text_before_spec(sections[i + 1], sections[j + 1]));
        }
        lemma_with_section(rest, section);
        lemma_before_total(sections[0], section);
        let tail = with_section(rest, section);
        assert(after == seq![sections[0]] + tail);
        assert forall|i: int, j: int| 0 <= i < j < after.len() implies text_before_spec(
            #[trigger] after[i],
            #[trigger] after[j],
        ) by {
            assert(after[j] == tail[j - 1]);
            if i > 0 {
                assert(after[i] == tail[i - 1]);
            } else {
                assert(tail.contains(tail[j - 1]));
                if tail[j - 1] != section {
                    let k = choose|k: int| 0 <= k < rest.len() && rest[k] == tail[j - 1];
                    assert(text_before_spec(sections[0], sections[k + 1]));
                }
            }
        }
        assert forall|other: Seq<char>| #[trigger] after.contains(other) <==> sections.contains(
            other,
        ) || other == section by {
            if after.contains(other) {
                let i = choose|i: int| 0 <= i < after.len() && after[i] == other;
                if i > 0 {
                    assert(tail[i - 1] == other);
                    assert(tail.contains(other));
                    if rest.contains(other) {
                        let k = choose|k: int| 0 <= k < rest.len() && rest[k] == other;
                        assert(sections[k + 1] == other);
                    }
                } else {
                    assert(sections[0] == other);
                }
            }
            if sections.contains(other) {
                let i = choose|i: int| 0 <= i < sections.len() && sections[i] == other;
                if i > 0 {
                    assert(rest[i - 1] == other);
                    assert(tail.contains(other));
                } else {
                    assert(after[0] == other);
                }
            }
            if other == section {
                assert(tail.contains(other));
            }
            if tail.contains(other) {
                let k = choose|k: int| 0 <= k < tail.len() && tail[k] == other;
                assert(after[k + 1] == other);
            }
        }
    }
}

/// The sections of a document are in strict order, and an operation stands in
/// each: they are exactly those that the operations belong to.
pub proof fn law_sections_are_those_of_the_operations(
    operations: Seq<DescriptorView>,
    count: int,
)
    requires
        0 <= count <= operations.len(),
    ensures
        sections_in_order(sections_of(operations, count)),
        forall|section: Seq<char>| #[trigger]
            sections_of(operations, count).contains(section) <==> exists|i: int|
                0 <= i < count && section_of(#[trigger] operations[i]) == Some(section),
    decreases count,
{
    if count > 0 {
        law_sections_are_those_of_the_operations(operations, count - 1);
        let before = sections_of(operations, count - 1);
        let after = sections_of(operations, count);
        if let Some(own) = section_of(operations[count - 1]) {
            lemma_with_section(before, own);
        }
        assert forall|section: Seq<char>| #[trigger] after.contains(section) <==> exists|i: int|
            0 <= i < count && section_of(#[trigger] operations[i]) == Some(section) by {
            if after.contains(section) {
                if section_of(operations[count - 1]) == Some(section) {
                } else {
                    assert(before.contains(section));
                    let i = choose|i: int|
                        0 <= i < count - 1 && section_of(#[trigger] operations[i]) == Some(section);
                    assert(section_of(operations[i]) == Some(section));
                }
            }
            if exists|i: int|
                0 <= i < count && section_of(#[trigger] operations[i]) == Some(section) {
                let i = choose|i: int|
                    0 <= i < count && section_of(#[trigger] operations[i]) == Some(section);
                if i < count - 1 {
                    assert(before.contains(section));
                }
            }
        }
    }
}

/// A text holds another, in one piece.
pub open spec fn holds(text: Seq<char>, piece: Seq<char>) -> bool {
    exists|at: int|
        0 <= at && at + piece.len() <= text.len() && #[trigger] text.subrange(
            at,
            at + piece.len(),
        ) == piece
}

/// A text goes on after another.
pub open spec fn goes_on(before: Seq<char>, after: Seq<char>) -> bool {
    before.len() <= after.len() && after.take(before.len() as int) == before
}

pub proof fn lemma_sum_goes_on(before: Seq<char>, more: Seq<char>)
    ensures
        goes_on(before, before + more),
{
    assert((before + more).take(before.len() as int) =~= before);
}

pub proof fn lemma_goes_further(first: Seq<char>, second: Seq<char>, third: Seq<char>)
    requires
        goes_on(first, second),
        goes_on(second, third),
    ensures
        goes_on(first, third),
{
    assert(third.take(first.len() as int) =~= second.take(first.len() as int));
}

pub proof fn lemma_still_held(before: Seq<char>, after: Seq<char>, piece: Seq<char>)
    requires
        goes_on(before, after),
        holds(before, piece),
    ensures
        holds(after, piece),
{
    let at = choose|at: int|
        0 <= at && at + piece.len() <= before.len() && #[trigger] before.subrange(
            at,
            at + piece.len(),
        ) == piece;
    assert(after.subrange(at, at + piece.len()) =~= after.take(before.len() as int).subrange(
        at,
        at + piece.len(),
    ));
}

pub proof fn lemma_held_between(before: Seq<char>, piece: Seq<char>, after: Seq<char>)
    ensures
        holds(before + piece + after, piece),
        holds(before + piece, piece),
{
    let all = before + piece + after;
    let at = before.len() as int;
    assert(all.subrange(at, at + piece.len()) =~= piece);
    assert((before + piece).subrange(at, at + piece.len()) =~= piece);
}

proof fn lemma_rules_go_on(out: Seq<char>, rules: Seq<RuleView>, scope: Seq<char>, count: int)
    ensures
        goes_on(out, with_rules(out, rules, scope, count)),
    decreases count,
{
    if count <= 0 {
        lemma_sum_goes_on(out, Seq::empty());
        assert(out + Seq::<char>::empty() =~= out);
    } else {
        let before = with_rules(out, rules, scope, count - 1);
        lemma_rules_go_on(out, rules, scope, count - 1);
        let more = ", "@ + scope + rule_prose(rules[count - 1]);
        lemma_sum_goes_on(before, more);
        assert(before + ", "@ + scope + rule_prose(rules[count - 1]) =~= before + more);
        lemma_goes_further(out, before, before + more);
    }
}

proof fn lemma_item_rules_go_on(out: Seq<char>, items: Option<Box<TypeView>>, scope: Seq<char>)
    ensures
        goes_on(out, with_item_rules(out, items, scope)),
    decreases items,
{
    match items {
        None => {
            lemma_sum_goes_on(out, Seq::empty());
            assert(out + Seq::<char>::empty() =~= out);
        },
        Some(item) => {
            let inner = scope + "each item "@;
            let ruled = with_rules(out, item.constraints, inner, item.constraints.len() as int);
            lemma_rules_go_on(out, item.constraints, inner, item.constraints.len() as int);
            lemma_item_rules_go_on(ruled, item.items, inner);
            lemma_goes_further(out, ruled, with_item_rules(ruled, item.items, inner));
        },
    }
}

proof fn lemma_field_goes_on(out: Seq<char>, field: FieldView)
    ensures
        goes_on(out, with_field(out, field)),
        holds(
            with_field(out, field),
            "- `"@ + field.name + "`: `"@ + field.ty.rust_name + "` ("@ + (if field.required {
                "required"@
            } else {
                "optional"@
            }) + ")"@,
        ),
{
    let line = "- `"@ + field.name + "`: `"@ + field.ty.rust_name + "` ("@ + requirement(
        field.required,
    ) + ")"@;
    let head = out + line;
    assert(head =~= out + "- `"@ + field.name + "`: `"@ + field.ty.rust_name + "` ("@ + requirement(
        field.required,
    ) + ")"@);
    let ruled = with_rules(head, field.validation, Seq::empty(), field.validation.len() as int);
    let listed = with_item_rules(ruled, field.ty.items, Seq::empty());
    lemma_sum_goes_on(out, line);
    lemma_held_between(out, line, Seq::empty());
    lemma_rules_go_on(head, field.validation, Seq::empty(), field.validation.len() as int);
    lemma_item_rules_go_on(ruled, field.ty.items, Seq::empty());
    lemma_sum_goes_on(listed, "\n"@);
    lemma_goes_further(head, ruled, listed);
    lemma_goes_further(head, listed, listed + "\n"@);
    lemma_goes_further(out, head, listed + "\n"@);
    lemma_still_held(head, listed + "\n"@, line);
}

proof fn lemma_fields_go_on(out: Seq<char>, fields: Seq<FieldView>, count: int, k: int)
    requires
        count <= fields.len(),
    ensures
        goes_on(out, with_fields(out, fields, count)),
        0 <= k < count ==> holds(
            with_fields(out, fields, count),
            "- `"@ + fields[k].name + "`: `"@ + fields[k].ty.rust_name + "` ("@ + (
            if fields[k].required {
                "required"@
            } else {
                "optional"@
            }) + ")"@,
        ),
    decreases count,
{
    if count <= 0 {
        lemma_sum_goes_on(out, Seq::empty());
        assert(out + Seq::<char>::empty() =~= out);
    } else {
        let before = with_fields(out, fields, count - 1);
        lemma_fields_go_on(out, fields, count - 1, k);
        lemma_field_goes_on(before, fields[count - 1]);
        lemma_goes_further(out, before, with_fields(out, fields, count));
        if 0 <= k < count - 1 {
            lemma_still_held(
                before,
                with_fields(out, fields, count),
                "- `"@ + fields[k].name + "`: `"@ + fields[k].ty.rust_name + "` ("@ + (
                if fields[k].required {
                    "required"@
                } else {
                    "optional"@
                }) + ")"@,
            );
        }
    }
}

proof fn lemma_model_goes_on(out: Seq<char>, ty: TypeView)
    ensures
        goes_on(out, with_model_of(out, ty)),
{
    match ty.model {
        None => {
            lemma_sum_goes_on(out, Seq::empty());
            assert(out + Seq::<char>::empty() =~= out);
        },
        Some(model) => {
            let title = "\n### `"@ + model.name + "` fields\n\n"@;
            let head = out + title;
            assert(head =~= out + "\n### `"@ + model.name + "` fields\n\n"@);
            let listed = with_fields(head, model.fields, model.fields.len() as int);
            lemma_sum_goes_on(out, title);
            lemma_fields_go_on(head, model.fields, model.fields.len() as int, 0);
            lemma_sum_goes_on(listed, "\n"@);
            lemma_goes_further(out, head, listed);
            lemma_goes_further(out, listed, listed + "\n"@);
        },
    }
}

/// A model is described by all of its fields, each with its name, its type and
/// whether it is required.
pub proof fn law_models_are_described_by_their_fields(out: Seq<char>, model: ModelView, k: int)
    requires
        0 <= k < model.fields.len(),
    ensures
        holds(
            with_model(out, model),
            "- `"@ + model.fields[k].name + "`: `"@ + model.fields[k].ty.rust_name + "` ("@ + (
            if model.fields[k].required {
                "required"@
            } else {
                "optional"@
            }) + ")"@,
        ),
{
    let head = out + "\n### `"@ + model.name + "` fields\n\n"@;
    let listed = with_fields(head, model.fields, model.fields.len() as int);
    lemma_fields_go_on(head, model.fields, model.fields.len() as int, k);
    lemma_sum_goes_on(listed, "\n"@);
    lemma_still_held(
        listed,
        listed + "\n"@,
        "- `"@ + model.fields[k].name + "`: `"@ + model.fields[k].ty.rust_name + "` ("@ + (
        if model.fields[k].required {
            "required"@
        } else {
            "optional"@
        }) + ")"@,
    );
}

/// The line of an input.
pub open spec fn input_line(input: InputView) -> Seq<char> {
    "- "@ + source_title(input.source) + " input `"@ + input.name + "`: `"@ + input.ty.rust_name
        + "` ("@ + (if input.required {
        "required"@
    } else {
        "optional"@
    }) + ")\n"@
}

proof fn lemma_inputs_go_on(out: Seq<char>, inputs: Seq<InputView>, count: int, k: int)
    requires
        count <= inputs.len(),
    ensures
        goes_on(out, with_inputs(out, inputs, count)),
        0 <= k < count ==> holds(with_inputs(out, inputs, count), input_line(inputs[k])),
    decreases count,
{
    if count <= 0 {
        lemma_sum_goes_on(out, Seq::empty());
        assert(out + Seq::<char>::empty() =~= out);
    } else {
        let input = inputs[count - 1];
        let before = with_inputs(out, inputs, count - 1);
        let told = before + input_line(input);
        let after = with_inputs(out, inputs, count);
        lemma_inputs_go_on(out, inputs, count - 1, k);
        assert(told =~= before + "- "@ + source_title(input.source) + " input `"@ + input.name
            + "`: `"@ + input.ty.rust_name + "` ("@ + requirement(input.required) + ")\n"@);
        lemma_sum_goes_on(before, input_line(input));
        lemma_held_between(before, input_line(input), Seq::empty());
        lemma_model_goes_on(told, input.ty);
        lemma_goes_further(before, told, after);
        lemma_goes_further(out, before, after);
        lemma_still_held(told, after, input_line(input));
        if 0 <= k < count - 1 {
            lemma_still_held(before, after, input_line(inputs[k]));
        }
    }
}

proof fn lemma_dependencies_go_on(out: Seq<char>, list: Seq<Seq<char>>, count: int, k: int)
    ensures
        goes_on(out, with_dependencies(out, list, count)),
        0 <= k < count ==> holds(
            with_dependencies(out, list, count),
            "- Dependency: `"@ + list[k] + "`\n"@,
        ),
    decreases count,
{
    if count <= 0 {
        lemma_sum_goes_on(out, Seq::empty());
        assert(out + Seq::<char>::empty() =~= out);
    } else {
        let before = with_dependencies(out, list, count - 1);
        let line = "- Dependency: `"@ + list[count - 1] + "`\n"@;
        lemma_dependencies_go_on(out, list, count - 1, k);
        assert(with_dependencies(out, list, count) =~= before + line);
        lemma_sum_goes_on(before, line);
        lemma_held_between(before, line, Seq::empty());
        lemma_goes_further(out, before, before + line);
        if 0 <= k < count - 1 {
            lemma_still_held(before, before + line, "- Dependency: `"@ + list[k] + "`\n"@);
        }
    }
}

proof fn lemma_security_goes_on(out: Seq<char>, list: Seq<SecurityView>, count: int, k: int)
    ensures
        goes_on(out, with_security(out, list, count)),
        0 <= k < count ==> holds(
            with_security(out, list, count),
            "- Security: `"@ + list[k].scheme + "`"@,
        ),
    decreases count,
{
    if count <= 0 {
        lemma_sum_goes_on(out, Seq::empty());
        assert(out + Seq::<char>::empty() =~= out);
    } else {
        let before = with_security(out, list, count - 1);
        let after = with_security(out, list, count);
        let security = list[count - 1];
        let line = "- Security: `"@ + security.scheme + "`"@;
        reveal_strlit("`\n");
        reveal_strlit("`");
        reveal_strlit("\n");
        reveal_strlit("` with scopes `");
        reveal_strlit(" with scopes `");
        assert("`"@ + "\n"@ =~= "`\n"@);
        assert("`"@ + " with scopes `"@ =~= "` with scopes `"@);
        let rest = if security.scopes.len() == 0 {
            "\n"@
        } else {
            " with scopes `"@ + joined_by(security.scopes, "`, `"@) + "`\n"@
        };
        lemma_security_goes_on(out, list, count - 1, k);
        assert(after =~= before + line + rest);
        assert(before + line + rest =~= before + (line + rest));
        lemma_sum_goes_on(before, line + rest);
        lemma_held_between(before, line, rest);
        lemma_goes_further(out, before, after);
        if 0 <= k < count - 1 {
            lemma_still_held(before, after, "- Security: `"@ + list[k].scheme + "`"@);
        }
    }
}

/// The line of a response: an error with its code and message, anything else with
/// what it answers.
pub open spec fn response_line(response: ResponseView) -> Seq<char> {
    match response.error_code {
        Some(code) => "- Error `"@ + decimal(response.status as nat) + "` (`"@ + code + "`): "@ + (
        match response.error_message {
            Some(message) => message,
            None => Seq::empty(),
        }) + "\n"@,
        None => "- Response `"@ + decimal(response.status as nat) + "`: `"@ + (
        match response.body {
            Some(body) => body.rust_name,
            None => "empty"@,
        }) + "`\n"@,
    }
}

proof fn lemma_headers_go_on(out: Seq<char>, headers: Seq<HeaderView>, count: int)
    ensures
        goes_on(out, with_headers(out, headers, count)),
    decreases count,
{
    if count <= 0 {
        lemma_sum_goes_on(out, Seq::empty());
        assert(out + Seq::<char>::empty() =~= out);
    } else {
        let before = with_headers(out, headers, count - 1);
        let line = "  - Header `"@ + headers[count - 1].name + "`: `"@ + headers[count - 1].value
            + "`\n"@;
        lemma_headers_go_on(out, headers, count - 1);
        assert(with_headers(out, headers, count) =~= before + line);
        lemma_sum_goes_on(before, line);
        lemma_goes_further(out, before, before + line);
    }
}

/// What is told of the body of an error.
spec fn response_details(response: ResponseView) -> Seq<char> {
    match (response.error_code, response.body) {
        (Some(_), Some(details)) => "  - Typed details: `"@ + details.rust_name + "`\n"@,
        _ => Seq::empty(),
    }
}

proof fn lemma_error_told(out: Seq<char>, response: ResponseView, code: Seq<char>)
    requires
        response.error_code == Some(code),
    ensures
        with_error(out, response, code) == out + response_line(response),
{
    assert(with_error(out, response, code) =~= out + response_line(response));
}

proof fn lemma_answer_told(out: Seq<char>, response: ResponseView)
    requires
        response.error_code is None,
    ensures
        out + "- Response `"@ + decimal(response.status as nat) + "`: `"@ + body_word(response.body)
            + "`\n"@ == out + response_line(response),
{
    assert(out + "- Response `"@ + decimal(response.status as nat) + "`: `"@ + body_word(
        response.body,
    ) + "`\n"@ =~= out + response_line(response));
}

proof fn lemma_response_told(out: Seq<char>, response: ResponseView)
    ensures
        with_response(out, response) == with_headers(
            out + response_line(response) + response_details(response),
            response.headers,
            response.headers.len() as int,
        ),
{
    let told = out + response_line(response);
    assert(told + Seq::<char>::empty() =~= told);
    match response.error_code {
        Some(code) => {
            lemma_error_told(out, response, code);
            if let Some(details) = response.body {
                assert(told + response_details(response) =~= told + "  - Typed details: `"@
                    + details.rust_name + "`\n"@);
            }
        },
        None => {
            lemma_answer_told(out, response);
        },
    }
}

proof fn lemma_response_goes_on(out: Seq<char>, response: ResponseView)
    ensures
        goes_on(out, with_response(out, response)),
        holds(with_response(out, response), response_line(response)),
{
    let line = response_line(response);
    let more = response_details(response);
    let told = out + line;
    let answered = told + more;
    let after = with_headers(answered, response.headers, response.headers.len() as int);
    lemma_response_told(out, response);
    lemma_sum_goes_on(out, line);
    lemma_sum_goes_on(told, more);
    lemma_held_between(out, line, Seq::empty());
    lemma_headers_go_on(answered, response.headers, response.headers.len() as int);
    lemma_goes_further(told, answered, after);
    lemma_goes_further(out, told, after);
    lemma_still_held(told, after, line);
}

proof fn lemma_responses_go_on(out: Seq<char>, list: Seq<ResponseView>, count: int, k: int)
    ensures
        goes_on(out, with_responses(out, list, count)),
        0 <= k < count ==> holds(with_responses(out, list, count), response_line(list[k])),
    decreases count,
{
    if count <= 0 {
        lemma_sum_goes_on(out, Seq::empty());
        assert(out + Seq::<char>::empty() =~= out);
    } else {
        let before = with_responses(out, list, count - 1);
        lemma_responses_go_on(out, list, count - 1, k);
        lemma_response_goes_on(before, list[count - 1]);
        lemma_goes_further(out, before, with_responses(out, list, count));
        if 0 <= k < count - 1 {
            lemma_still_held(
                before,
                with_responses(out, list, count),
                response_line(list[k]),
            );
        }
    }
}

/// An operation is described in full: under its identifier and summary, with a
/// warning where it is deprecated, its binding, all of its inputs, dependencies,
/// security requirements and responses, and its tool where it is one.
pub proof fn law_operations_are_described_in_full(
    out: Seq<char>,
    operation: DescriptorView,
    heading: Seq<char>,
    k: int,
)
    ensures
        ({
            let contract = operation.contract;
            let text = with_operation(out, operation, heading);
            &&& holds(text, heading + " `"@ + contract.id + "`\n\n"@ + contract.summary + "\n\n"@)
            &&& operation.documentation.deprecated ==> holds(
                text,
                "**Deprecated.** Still served, no longer recommended.\n\n"@,
            )
            &&& holds(
                text,
                "- HTTP: `"@ + method_name(operation.method) + " "@ + operation.path + "`\n"@,
            )
            &&& 0 <= k < contract.inputs.len() ==> holds(text, input_line(contract.inputs[k]))
            &&& 0 <= k < contract.dependencies.len() ==> holds(
                text,
                "- Dependency: `"@ + contract.dependencies[k] + "`\n"@,
            )
            &&& 0 <= k < contract.security.len() ==> holds(
                text,
                "- Security: `"@ + contract.security[k].scheme + "`"@,
            )
            &&& 0 <= k < contract.responses.len() ==> holds(
                text,
                response_line(contract.responses[k]),
            )
            &&& contract.mcp matches Some(tool) ==> holds(
                text,
                "- MCP tool: `"@ + tool.name + "`\n"@,
            )
        }),
        goes_on(out, with_operation(out, operation, heading)),
{
    let contract = operation.contract;
    let text = with_operation(out, operation, heading);
    let title = heading + " `"@ + contract.id + "`\n\n"@ + contract.summary + "\n\n"@;
    let titled = out + heading + " `"@ + contract.id + "`\n\n"@ + contract.summary + "\n\n"@;
    let warning = "**Deprecated.** Still served, no longer recommended.\n\n"@;
    let warned = if operation.documentation.deprecated {
        titled + warning
    } else {
        titled
    };
    let described = with_description(warned, description_of(operation));
    let binding = "- HTTP: `"@ + method_name(operation.method) + " "@ + operation.path + "`\n"@;
    let bound = described + "- HTTP: `"@ + method_name(operation.method) + " "@ + operation.path
        + "`\n"@;
    let linked = with_link(bound, operation.documentation.external_docs);
    let fed = with_inputs(linked, contract.inputs, contract.inputs.len() as int);
    let wired = with_dependencies(fed, contract.dependencies, contract.dependencies.len() as int);
    let guarded = with_security(wired, contract.security, contract.security.len() as int);
    let answered = with_responses(guarded, contract.responses, contract.responses.len() as int);
    let exposed = match contract.mcp {
        Some(tool) => answered + "- MCP tool: `"@ + tool.name + "`\n"@,
        None => answered,
    };
    assert(titled =~= out + title);
    lemma_sum_goes_on(out, title);
    lemma_held_between(out, title, Seq::empty());
    lemma_sum_goes_on(titled, warning);
    lemma_held_between(titled, warning, Seq::empty());
    lemma_sum_goes_on(titled, Seq::empty());
    assert(titled + Seq::<char>::empty() =~= titled);
    lemma_description_goes_on(warned, description_of(operation));
    assert(bound =~= described + binding);
    lemma_sum_goes_on(described, binding);
    lemma_held_between(described, binding, Seq::empty());
    lemma_link_goes_on(bound, operation.documentation.external_docs);
    lemma_inputs_go_on(linked, contract.inputs, contract.inputs.len() as int, k);
    lemma_dependencies_go_on(fed, contract.dependencies, contract.dependencies.len() as int, k);
    lemma_security_goes_on(wired, contract.security, contract.security.len() as int, k);
    lemma_responses_go_on(guarded, contract.responses, contract.responses.len() as int, k);
    match contract.mcp {
        Some(tool) => {
            let line = "- MCP tool: `"@ + tool.name + "`\n"@;
            assert(exposed =~= answered + line);
            lemma_sum_goes_on(answered, line);
            lemma_held_between(answered, line, Seq::empty());
        },
        None => {
            lemma_sum_goes_on(answered, Seq::empty());
            assert(answered + Seq::<char>::empty() =~= answered);
        },
    }
    lemma_sum_goes_on(exposed, "\n"@);
    assert(text == exposed + "\n"@);
    lemma_goes_further(answered, exposed, text);
    lemma_goes_further(guarded, answered, text);
    lemma_goes_further(wired, guarded, text);
    lemma_goes_further(fed, wired, text);
    lemma_goes_further(linked, fed, text);
    lemma_goes_further(bound, linked, text);
    lemma_goes_further(described, bound, text);
    lemma_goes_further(warned, described, text);
    lemma_goes_further(titled, warned, text);
    lemma_goes_further(out, titled, text);
    lemma_still_held(titled, text, title);
    if operation.documentation.deprecated {
        lemma_still_held(warned, text, warning);
    }
    lemma_still_held(bound, text, binding);
    if 0 <= k < contract.inputs.len() {
        lemma_still_held(fed, text, input_line(contract.inputs[k]));
    }
    if 0 <= k < contract.dependencies.len() {
        lemma_still_held(wired, text, "- Dependency: `"@ + contract.dependencies[k] + "`\n"@);
    }
    if 0 <= k < contract.security.len() {
        lemma_still_held(guarded, text, "- Security: `"@ + contract.security[k].scheme + "`"@);
    }
    if 0 <= k < contract.responses.len() {
        lemma_still_held(answered, text, response_line(contract.responses[k]));
    }
    if let Some(tool) = contract.mcp {
        lemma_still_held(exposed, text, "- MCP tool: `"@ + tool.name + "`\n"@);
    }
}

pub proof fn lemma_description_goes_on(out: Seq<char>, description: Option<Seq<char>>)
    ensures
        goes_on(out, with_description(out, description)),
        description matches Some(told) ==> holds(with_description(out, description), told),
{
    match description {
        Some(told) => {
            lemma_held_between(out, told, "\n\n"@);
            assert(out + told + "\n\n"@ =~= out + (told + "\n\n"@));
            lemma_sum_goes_on(out, told + "\n\n"@);
        },
        None => {
            lemma_sum_goes_on(out, Seq::empty());
            assert(out + Seq::<char>::empty() =~= out);
        },
    }
}

proof fn lemma_link_goes_on(out: Seq<char>, link: Option<LinkView>)
    ensures
        goes_on(out, with_link(out, link)),
{
    match link {
        Some(link) => {
            let label = match link.description {
                Some(label) => label,
                None => "Further documentation"@,
            };
            let line = "- See also: ["@ + label + "]("@ + link.url + ")\n"@;
            assert(out + line =~= out + "- See also: ["@ + label + "]("@ + link.url + ")\n"@);
            lemma_sum_goes_on(out, line);
        },
        None => {
            lemma_sum_goes_on(out, Seq::empty());
            assert(out + Seq::<char>::empty() =~= out);
        },
    }
}

/// An operation belongs to the section of its first tag, or else to that of its
/// identifier up to the last dot; an identifier without a dot gives none.
pub proof fn law_sections_are_first_tags_or_name_spaces(
    operation: DescriptorView,
    space: Seq<char>,
    own: Seq<char>,
)
    requires
        !own.contains('.'),
    ensures
        operation.documentation.tags.len() > 0 ==> section_of(operation) == Some(
            operation.documentation.tags[0],
        ),
        operation.documentation.tags.len() == 0 && operation.contract.id == space.push('.') + own
            && space.len() > 0 ==> section_of(operation) == Some(space),
        operation.documentation.tags.len() == 0 && operation.contract.id == own ==> section_of(
            operation,
        ) is None,
{
    let id = space.push('.') + own;
    lemma_last_index(space, own);
    assert(id.take(space.len() as int) =~= space);
    lemma_no_index(own);
}

proof fn lemma_no_index(own: Seq<char>)
    requires
        !own.contains('.'),
    ensures
        last_index_of(own, '.') is None,
    decreases own.len(),
{
    if own.len() > 0 {
        assert(own.contains(own[own.len() - 1]));
        let shorter = own.drop_last();
        if shorter.contains('.') {
            let i = choose|i: int| 0 <= i < shorter.len() && shorter[i] == '.';
            assert(own[i] == '.');
        }
        lemma_no_index(shorter);
    }
}

proof fn lemma_last_index(space: Seq<char>, own: Seq<char>)
    requires
        !own.contains('.'),
    ensures
        last_index_of(space.push('.') + own, '.') == Some(space.len() as int),
    decreases own.len(),
{
    let id = space.push('.') + own;
    if own.len() == 0 {
        assert(id =~= space.push('.'));
    } else {
        assert(own.contains(own[own.len() - 1]));
        assert(id.last() == own.last());
        let shorter = own.drop_last();
        if shorter.contains('.') {
            let i = choose|i: int| 0 <= i < shorter.len() && shorter[i] == '.';
            assert(own[i] == '.');
        }
        assert(id.drop_last() =~= space.push('.') + shorter);
        lemma_last_index(space, shorter);
    }
}

/// A declared description is shown; where none is declared, the description of the
/// tool is, unless it only repeats the summary.
pub proof fn law_descriptions_say_more_than_the_summary(operation: DescriptorView)
    ensures
        operation.documentation.description matches Some(declared) && declared.len() > 0
            ==> description_of(operation) == operation.documentation.description,
        description_of(operation) matches Some(told) ==> told.len() > 0 && (
        operation.documentation.description == Some(told) || (operation.contract.mcp matches Some(
            tool,
        ) && tool.description == told && told != operation.contract.summary)),
        operation.documentation.description is None && (operation.contract.mcp matches Some(tool)
            && tool.description.len() > 0 && tool.description != operation.contract.summary)
            ==> description_of(operation) is Some,
{
}

/// A tool is described with what an agent has to know: its operation, its risk,
/// whether it must be confirmed, whether it may be repeated, and what it exposes.
pub proof fn law_tools_are_described_for_agents(
    out: Seq<char>,
    operation: DescriptorView,
    tool: McpView,
)
    ensures
        ({
            let agent = operation.contract.agent;
            let text = with_tool(out, operation, tool);
            &&& holds(text, "## `"@ + tool.name + "`\n\n"@ + tool.description + "\n\n"@)
            &&& holds(text, "- Operation: `"@ + operation.contract.id + "`\n"@)
            &&& holds(text, "- Risk: `"@ + (match agent.risk {
                OperationRisk::Read => "Read"@,
                OperationRisk::Write => "Write"@,
                OperationRisk::Destructive => "Destructive"@,
            }) + "`\n"@)
            &&& holds(text, "- Confirmation: `"@ + (if agent.confirmation is Required {
                "Required"@
            } else {
                "Never"@
            }) + "`\n"@)
            &&& holds(text, "- Idempotent: `"@ + (if agent.idempotent {
                "true"@
            } else {
                "false"@
            }) + "`\n"@)
            &&& holds(text, "- Output exposure: `"@ + (match tool.expose_output {
                OutputExposure::Full => "Full"@,
                OutputExposure::SummaryOnly => "SummaryOnly"@,
                OutputExposure::Hidden => "None"@,
            }) + "`\n\n"@)
        }),
        goes_on(out, with_tool(out, operation, tool)),
{
    let contract = operation.contract;
    let agent = contract.agent;
    let text = with_tool(out, operation, tool);
    let one = "## `"@ + tool.name + "`\n\n"@ + tool.description + "\n\n"@;
    let two = "- Operation: `"@ + contract.id + "`\n"@;
    let three = "- Risk: `"@ + risk_word(agent.risk) + "`\n"@;
    let four = "- Confirmation: `"@ + confirmation_word(agent.confirmation) + "`\n"@;
    let five = "- Idempotent: `"@ + flag_word(agent.idempotent) + "`\n"@;
    let six = "- Output exposure: `"@ + exposure_word(tool.expose_output) + "`\n\n"@;
    let head = out + "## `"@ + tool.name + "`\n\n"@ + tool.description + "\n\n"@
        + "- Operation: `"@ + contract.id + "`\n"@ + "- Risk: `"@ + risk_word(contract.agent.risk)
        + "`\n"@ + "- Confirmation: `"@ + confirmation_word(contract.agent.confirmation) + "`\n"@
        + "- Idempotent: `"@ + flag_word(contract.agent.idempotent) + "`\n"@
        + "- Output exposure: `"@ + exposure_word(tool.expose_output) + "`\n\n"@;
    assert(head =~= out + one + two + three + four + five + six);
    assert(head =~= out + (one + two + three + four + five + six));
    lemma_sum_goes_on(out, one + two + three + four + five + six);
    lemma_held_between(out, one, two + three + four + five + six);
    assert(head =~= out + one + (two + three + four + five + six));
    lemma_held_between(out + one, two, three + four + five + six);
    assert(head =~= out + one + two + (three + four + five + six));
    lemma_held_between(out + one + two, three, four + five + six);
    assert(head =~= out + one + two + three + (four + five + six));
    lemma_held_between(out + one + two + three, four, five + six);
    assert(head =~= out + one + two + three + four + (five + six));
    lemma_held_between(out + one + two + three + four, five, six);
    lemma_held_between(out + one + two + three + four + five, six, Seq::empty());
    let modelled = with_input_models(head, contract.inputs, contract.inputs.len() as int);
    let failed = with_errors(modelled, contract.responses, contract.responses.len() as int);
    lemma_input_models_go_on(head, contract.inputs, contract.inputs.len() as int);
    lemma_errors_go_on(modelled, contract.responses, contract.responses.len() as int);
    lemma_sum_goes_on(failed, "\n"@);
    lemma_goes_further(head, modelled, failed);
    lemma_goes_further(head, failed, text);
    lemma_goes_further(out, head, text);
    lemma_still_held(head, text, one);
    lemma_still_held(head, text, two);
    lemma_still_held(head, text, three);
    lemma_still_held(head, text, four);
    lemma_still_held(head, text, five);
    lemma_still_held(head, text, six);
}

proof fn lemma_input_models_go_on(out: Seq<char>, inputs: Seq<InputView>, count: int)
    ensures
        goes_on(out, with_input_models(out, inputs, count)),
    decreases count,
{
    if count <= 0 {
        lemma_sum_goes_on(out, Seq::empty());
        assert(out + Seq::<char>::empty() =~= out);
    } else {
        let before = with_input_models(out, inputs, count - 1);
        lemma_input_models_go_on(out, inputs, count - 1);
        lemma_model_goes_on(before, inputs[count - 1].ty);
        lemma_goes_further(out, before, with_input_models(out, inputs, count));
    }
}

proof fn lemma_errors_go_on(out: Seq<char>, list: Seq<ResponseView>, count: int)
    ensures
        goes_on(out, with_errors(out, list, count)),
    decreases count,
{
    if count <= 0 {
        lemma_sum_goes_on(out, Seq::empty());
        assert(out + Seq::<char>::empty() =~= out);
    } else {
        let before = with_errors(out, list, count - 1);
        lemma_errors_go_on(out, list, count - 1);
        if let Some(code) = list[count - 1].error_code {
            let line = response_line(list[count - 1]);
            lemma_error_told(before, list[count - 1], code);
            lemma_sum_goes_on(before, line);
            lemma_goes_further(out, before, before + line);
        }
    }
}

/// Every operation that is a tool is described as one, and no other is.
pub proof fn law_every_tool_is_described(
    out: Seq<char>,
    operations: Seq<DescriptorView>,
    count: int,
    i: int,
)
    requires
        0 <= i < count <= operations.len(),
    ensures
        operations[i].contract.mcp matches Some(tool) ==> holds(
            with_tools(out, operations, count),
            "## `"@ + tool.name + "`\n\n"@ + tool.description + "\n\n"@,
        ),
        (forall|j: int| 0 <= j < count ==> (#[trigger] operations[j]).contract.mcp is None)
            ==> with_tools(out, operations, count) == out,
    decreases count,
{
    let before = with_tools(out, operations, count - 1);
    if i < count - 1 {
        law_every_tool_is_described(out, operations, count - 1, i);
    } else if count > 1 {
        law_every_tool_is_described(out, operations, count - 1, 0);
    }
    if let Some(tool) = operations[count - 1].contract.mcp {
        law_tools_are_described_for_agents(before, operations[count - 1], tool);
        if i < count - 1 {
            if let Some(own) = operations[i].contract.mcp {
                lemma_still_held(
                    before,
                    with_tools(out, operations, count),
                    "## `"@ + own.name + "`\n\n"@ + own.description + "\n\n"@,
                );
            }
        }
    }
}

/// How an operation is headed.
pub open spec fn title_of(operation: DescriptorView, heading: Seq<char>) -> Seq<char> {
    heading + " `"@ + operation.contract.id + "`\n\n"@ + operation.contract.summary + "\n\n"@
}

proof fn lemma_operations_go_on(
    out: Seq<char>,
    operations: Seq<DescriptorView>,
    section: Option<Seq<char>>,
    heading: Seq<char>,
    count: int,
    i: int,
)
    requires
        count <= operations.len(),
    ensures
        goes_on(out, with_operations(out, operations, section, heading, count)),
        0 <= i < count && section_of(operations[i]) == section ==> holds(
            with_operations(out, operations, section, heading, count),
            title_of(operations[i], heading),
        ),
    decreases count,
{
    if count <= 0 {
        lemma_sum_goes_on(out, Seq::empty());
        assert(out + Seq::<char>::empty() =~= out);
    } else {
        let before = with_operations(out, operations, section, heading, count - 1);
        let after = with_operations(out, operations, section, heading, count);
        lemma_operations_go_on(out, operations, section, heading, count - 1, i);
        if section_of(operations[count - 1]) == section {
            law_operations_are_described_in_full(before, operations[count - 1], heading, 0);
            lemma_goes_further(out, before, after);
            if 0 <= i < count - 1 && section_of(operations[i]) == section {
                lemma_still_held(before, after, title_of(operations[i], heading));
            }
        }
    }
}

proof fn lemma_sections_go_on(
    out: Seq<char>,
    operations: Seq<DescriptorView>,
    sections: Seq<Seq<char>>,
    heading: Seq<char>,
    count: int,
    i: int,
    s: int,
)
    requires
        count <= sections.len(),
        0 <= i < operations.len(),
    ensures
        goes_on(out, with_sections(out, operations, sections, heading, count)),
        0 <= s < count && section_of(operations[i]) == Some(sections[s]) ==> holds(
            with_sections(out, operations, sections, heading, count),
            title_of(operations[i], heading),
        ) && holds(
            with_sections(out, operations, sections, heading, count),
            "## "@ + sections[s] + "\n\n"@,
        ),
    decreases count,
{
    if count <= 0 {
        lemma_sum_goes_on(out, Seq::empty());
        assert(out + Seq::<char>::empty() =~= out);
    } else {
        let before = with_sections(out, operations, sections, heading, count - 1);
        let title = "## "@ + sections[count - 1] + "\n\n"@;
        let headed = before + "## "@ + sections[count - 1] + "\n\n"@;
        let own = Some(sections[count - 1]);
        let after = with_sections(out, operations, sections, heading, count);
        lemma_sections_go_on(out, operations, sections, heading, count - 1, i, s);
        assert(headed =~= before + title);
        lemma_sum_goes_on(before, title);
        lemma_held_between(before, title, Seq::empty());
        lemma_operations_go_on(headed, operations, own, heading, operations.len() as int, i);
        lemma_goes_further(before, headed, after);
        lemma_goes_further(out, before, after);
        lemma_still_held(headed, after, title);
        if 0 <= s < count - 1 && section_of(operations[i]) == Some(sections[s]) {
            lemma_still_held(before, after, title_of(operations[i], heading));
            lemma_still_held(before, after, "## "@ + sections[s] + "\n\n"@);
        }
    }
}

/// The document describes every operation, under the title of its section where it
/// has one; headings are one level deeper where there are sections.
pub proof fn law_every_operation_is_documented(operations: Seq<DescriptorView>, i: int)
    requires
        0 <= i < operations.len(),
    ensures
        ({
            let grouped = exists|j: int|
                0 <= j < operations.len() && section_of(#[trigger] operations[j]) is Some;
            let document = api_document(operations);
            &&& holds(document, title_of(operations[i], if grouped {
                "###"@
            } else {
                "##"@
            }))
            &&& section_of(operations[i]) matches Some(section) ==> holds(
                document,
                "## "@ + section + "\n\n"@,
            )
            &&& grouped && section_of(operations[i]) is None ==> holds(document, "## Other\n\n"@)
        }),
{
    let sections = sections_of(operations, operations.len() as int);
    let grouped = sections.len() > 0;
    law_sections_are_those_of_the_operations(operations, operations.len() as int);
    assert(grouped <==> exists|j: int|
        0 <= j < operations.len() && section_of(#[trigger] operations[j]) is Some) by {
        if grouped {
            assert(sections.contains(sections[0]));
        }
        if exists|j: int| 0 <= j < operations.len() && section_of(#[trigger] operations[j]) is Some {
            let j = choose|j: int|
                0 <= j < operations.len() && section_of(#[trigger] operations[j]) is Some;
            assert(section_of(operations[j]) == Some(section_of(operations[j])->Some_0));
            assert(sections.contains(section_of(operations[j])->Some_0));
        }
    }
    let heading = if grouped {
        "###"@
    } else {
        "##"@
    };
    let written = with_sections(
        "# API\n\n"@,
        operations,
        sections,
        heading,
        sections.len() as int,
    );
    let parted = if grouped && has_ungrouped(operations) {
        written + "## Other\n\n"@
    } else {
        written
    };
    let document = api_document(operations);
    lemma_sum_goes_on(written, "## Other\n\n"@);
    lemma_held_between(written, "## Other\n\n"@, Seq::empty());
    lemma_sum_goes_on(written, Seq::empty());
    assert(written + Seq::<char>::empty() =~= written);
    lemma_operations_go_on(parted, operations, None, heading, operations.len() as int, i);
    lemma_goes_further(written, parted, document);
    match section_of(operations[i]) {
        Some(section) => {
            assert(sections.contains(section));
            let s = sections.index_of(section);
            lemma_sections_go_on(
                "# API\n\n"@,
                operations,
                sections,
                heading,
                sections.len() as int,
                i,
                s,
            );
            lemma_still_held(written, document, title_of(operations[i], heading));
            lemma_still_held(written, document, "## "@ + section + "\n\n"@);
        },
        None => {
            if grouped {
                assert(has_ungrouped(operations));
                lemma_still_held(parted, document, "## Other\n\n"@);
            }
        },
    }
}

proof fn lemma_rule_shown(
    out: Seq<char>,
    rules: Seq<RuleView>,
    scope: Seq<char>,
    count: int,
    k: int,
)
    requires
        0 <= k < count <= rules.len(),
    ensures
        holds(with_rules(out, rules, scope, count), ", "@ + scope + rule_prose(rules[k])),
    decreases count,
{
    let before = with_rules(out, rules, scope, count - 1);
    let line = ", "@ + scope + rule_prose(rules[count - 1]);
    assert(with_rules(out, rules, scope, count) =~= before + line);
    lemma_sum_goes_on(before, line);
    lemma_held_between(before, line, Seq::empty());
    if k < count - 1 {
        lemma_rule_shown(out, rules, scope, count - 1, k);
        lemma_still_held(before, before + line, ", "@ + scope + rule_prose(rules[k]));
    }
}

/// Every rule of a field is shown behind it, in words of its own.
pub proof fn law_rules_are_shown_behind_their_field(out: Seq<char>, field: FieldView, k: int)
    requires
        0 <= k < field.validation.len(),
    ensures
        match field.validation[k] {
            RuleView::MinLength(value) => holds(
                with_field(out, field),
                ", "@ + "min length "@ + decimal(value as nat),
            ),
            RuleView::MaxLength(value) => holds(
                with_field(out, field),
                ", "@ + "max length "@ + decimal(value as nat),
            ),
            RuleView::Email => holds(with_field(out, field), ", "@ + "email"@),
            RuleView::Alias(alias) => holds(
                with_field(out, field),
                ", "@ + ("alias `"@ + alias + "`"@),
            ),
            RuleView::Nested => holds(with_field(out, field), ", "@ + "nested validation"@),
            RuleView::Custom(validator) => match metadata_parsed(validator) {
                None => holds(with_field(out, field), ", "@ + ("validator `"@ + validator + "`"@)),
                Some(MetadataView::Nullable) => holds(with_field(out, field), ", "@ + "nullable"@),
                Some(MetadataView::Default(value)) => holds(
                    with_field(out, field),
                    ", "@ + ("default `"@ + shown(value) + "`"@),
                ),
                Some(MetadataView::Enumeration(values)) => holds(
                    with_field(out, field),
                    ", "@ + ("one of `"@ + joined_by(values, "`, `"@) + "`"@),
                ),
            },
        },
{
    let head = out + "- `"@ + field.name + "`: `"@ + field.ty.rust_name + "` ("@ + requirement(
        field.required,
    ) + ")"@;
    let count = field.validation.len() as int;
    let ruled = with_rules(head, field.validation, Seq::empty(), count);
    let listed = with_item_rules(ruled, field.ty.items, Seq::empty());
    let prose = rule_prose(field.validation[k]);
    lemma_rule_shown(head, field.validation, Seq::empty(), count, k);
    assert(", "@ + Seq::<char>::empty() =~= ", "@);
    lemma_item_rules_go_on(ruled, field.ty.items, Seq::empty());
    lemma_sum_goes_on(listed, "\n"@);
    lemma_goes_further(ruled, listed, listed + "\n"@);
    lemma_still_held(ruled, listed + "\n"@, ", "@ + prose);
    if let RuleView::MinLength(value) = field.validation[k] {
        assert(", "@ + prose =~= ", "@ + "min length "@ + decimal(value as nat));
    }
    if let RuleView::MaxLength(value) = field.validation[k] {
        assert(", "@ + prose =~= ", "@ + "max length "@ + decimal(value as nat));
    }
}

/// The title of a source is its word, but for capitals.
pub proof fn law_titles_are_the_words_of_sources(source: InputSource)
    ensures
        lower_all(source_title(source)) == crate::arguments::source_word(source),
{
    reveal_strlit("Path");
    reveal_strlit("path");
    reveal_strlit("Query");
    reveal_strlit("query");
    reveal_strlit("Header");
    reveal_strlit("header");
    reveal_strlit("Cookie");
    reveal_strlit("cookie");
    reveal_strlit("JSON");
    reveal_strlit("json");
    reveal_strlit("Form");
    reveal_strlit("form");
    reveal_strlit("Multipart");
    reveal_strlit("multipart");
    reveal_strlit("File");
    reveal_strlit("file");
    reveal_strlit("Stream");
    reveal_strlit("stream");
    assert(lower_all(source_title(source)) =~= crate::arguments::source_word(source));
}

/// Every declared header of a response is listed under it.
pub proof fn law_response_headers_are_listed(
    out: Seq<char>,
    headers: Seq<HeaderView>,
    count: int,
    k: int,
)
    requires
        0 <= k < count <= headers.len(),
    ensures
        holds(
            with_headers(out, headers, count),
            "  - Header `"@ + headers[k].name + "`: `"@ + headers[k].value + "`\n"@,
        ),
    decreases count,
{
    let before = with_headers(out, headers, count - 1);
    let line = "  - Header `"@ + headers[count - 1].name + "`: `"@ + headers[count - 1].value
        + "`\n"@;
    assert(with_headers(out, headers, count) =~= before + line);
    lemma_sum_goes_on(before, line);
    lemma_held_between(before, line, Seq::empty());
    if k < count - 1 {
        law_response_headers_are_listed(out, headers, count - 1, k);
        lemma_still_held(
            before,
            before + line,
            "  - Header `"@ + headers[k].name + "`: `"@ + headers[k].value + "`\n"@,
        );
    }
}

} // verus!
