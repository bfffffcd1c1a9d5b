//! Generated documentation, examples, clients and project scaffolds.
use crate::application::{descriptors_view, method_name, AppDefinition, DescriptorView, OperationDescriptor};
use crate::contract::{
    field_view, model_view, rules_view, FieldDescriptor, FieldView, ModelDescriptor, ModelView,
    RuleView, SchemaKind, TypeDescriptor, TypeView, ValidationRule,
};
use crate::deploy::{application_name, deployment_files, with_scaffold_files, KubernetesConfig};
use crate::generated::{by_path, in_path_order, GeneratedFile, GeneratedFiles};
use crate::json::{members, pretty_json, pretty_text, JsonNumber, JsonValue, JsonView, NumberView};
use crate::markdown::{
    api_document, api_markdown, body_name, body_word, confirmation_name, confirmation_word,
    description_of, exposure_name, exposure_word, flag_name, flag_word, goes_on, holds,
    input_source_name, lemma_description_goes_on, lemma_goes_further, lemma_held_between,
    lemma_still_held, lemma_sum_goes_on, operation_description, requirement, requirement_word, risk_name, risk_word, shown,
    shown_value, source_title, text_or_nothing, with_description,
};
use crate::metadata::{metadata_parsed, FieldMetadata, MetadataView};
use crate::operation::{
    inputs_view, responses_view, AgentPolicy, Confirmation, InputDescriptor, InputSource,
    InputView, OperationRisk, OutputExposure, ResponseDescriptor, ResponseView,
};
use crate::template::{blanks_view, fill, filled, Blank};
use crate::text::{chars_of, decimal, decimal_text, eq_chars, string_from};
use vstd::prelude::*;
use vstd::string::*;

verus! {

// ---------------------------------------------------------------------------
// Configuration
// ---------------------------------------------------------------------------

/// Configuration for a generated human/agent documentation bundle.
#[derive(Clone, Debug, PartialEq, Eq)]
pub struct DocsBundleConfig {
    pub title: String,
    pub base_url: String,
    pub mcp_endpoint: String,
}

impl DocsBundleConfig {
    #[must_use]
    pub fn new(title: &str) -> (config: Self)
        ensures
            config.title@ == title@,
            config.base_url@ == "http://127.0.0.1:3000"@,
            config.mcp_endpoint@ == "http://127.0.0.1:3000/mcp"@,
    {
        DocsBundleConfig {
            title: title.to_owned(),
            base_url: "http://127.0.0.1:3000".to_owned(),
            mcp_endpoint: "http://127.0.0.1:3000/mcp".to_owned(),
        }
    }

    #[must_use]
    pub fn with_base_url(self, base_url: &str) -> (config: Self)
        ensures
            config.base_url@ == base_url@,
            config == (DocsBundleConfig { base_url: config.base_url, ..self }),
    {
        let mut updated = self;
        updated.base_url = base_url.to_owned();
        updated
    }

    #[must_use]
    pub fn with_mcp_endpoint(self, endpoint: &str) -> (config: Self)
        ensures
            config.mcp_endpoint@ == endpoint@,
            config == (DocsBundleConfig { mcp_endpoint: config.mcp_endpoint, ..self }),
    {
        let mut updated = self;
        updated.mcp_endpoint = endpoint.to_owned();
        updated
    }
}

/// The version that a scaffold depends on.
pub const PACKAGE_VERSION: &'static str = "0.1.0";

/// A minimal compilable native project scaffold.
#[derive(Clone, Debug, PartialEq, Eq)]
pub struct ScaffoldConfig {
    pub package_name: String,
    pub blazingly_dependency: String,
    pub listen_address: String,
    pub kubernetes: Option<KubernetesConfig>,
}

impl ScaffoldConfig {
    #[must_use]
    pub fn new(package_name: &str) -> (config: Self)
        ensures
            config.package_name@ == package_name@,
            config.blazingly_dependency@ == "{ version = \""@ + PACKAGE_VERSION@
                + "\", features = [\"native\"] }"@,
            config.listen_address@ == "127.0.0.1:3000"@,
            config.kubernetes matches Some(kubernetes) && kubernetes.application_name@
                == application_name(package_name@) && kubernetes.container_image@
                == application_name(package_name@) + ":latest"@ && kubernetes.ingress_host@
                == application_name(package_name@) + ".example.com"@ && kubernetes.min_replicas
                == 2 && kubernetes.max_replicas == 32 && kubernetes.target_cpu_utilization == 60,
    {
        let mut dependency = "{ version = \"".to_owned();
        dependency.append(PACKAGE_VERSION);
        dependency.append("\", features = [\"native\"] }");
        ScaffoldConfig {
            package_name: package_name.to_owned(),
            blazingly_dependency: dependency,
            listen_address: "127.0.0.1:3000".to_owned(),
            kubernetes: Some(KubernetesConfig::new(package_name)),
        }
    }

    /// Uses an exact Cargo dependency expression.
    #[must_use]
    pub fn with_dependency(self, dependency: &str) -> (config: Self)
        ensures
            config.blazingly_dependency@ == dependency@,
            config == (ScaffoldConfig {
                blazingly_dependency: config.blazingly_dependency,
                ..self
            }),
    {
        let mut updated = self;
        updated.blazingly_dependency = dependency.to_owned();
        updated
    }

    #[must_use]
    pub fn with_listen_address(self, address: &str) -> (config: Self)
        ensures
            config.listen_address@ == address@,
            config == (ScaffoldConfig { listen_address: config.listen_address, ..self }),
    {
        let mut updated = self;
        updated.listen_address = address.to_owned();
        updated
    }

    /// Replaces the generated container/Kubernetes settings.
    #[must_use]
    pub fn with_kubernetes(self, kubernetes: KubernetesConfig) -> (config: Self)
        ensures
            config == (ScaffoldConfig { kubernetes: Some(kubernetes), ..self }),
    {
        let mut updated = self;
        updated.kubernetes = Some(kubernetes);
        updated
    }

    /// Generates only the local Rust project.
    #[must_use]
    pub fn without_kubernetes(self) -> (config: Self)
        ensures
            config == (ScaffoldConfig { kubernetes: None, ..self }),
    {
        let mut updated = self;
        updated.kubernetes = None;
        updated
    }
}

/// Deterministic generated files for humans, agents, and client authors.
pub struct DocsBundle {
    files: GeneratedFiles,
}

impl View for DocsBundle {
    type V = Map<Seq<char>, Seq<char>>;

    closed spec fn view(&self) -> Map<Seq<char>, Seq<char>> {
        self.files@
    }
}

impl DocsBundle {
    #[must_use]
    pub fn file(&self, path: &str) -> (contents: Option<&str>)
        ensures
            match contents {
                Some(contents) => self@.contains_key(path@) && self@[path@] == contents@,
                None => !self@.contains_key(path@),
            },
    {
        self.files.file(path)
    }

    /// The files in the order of their paths.
    pub fn files(&self) -> (files: &[GeneratedFile])
        ensures
            in_path_order(files@),
            by_path(files@) == self@,
    {
        self.files.files()
    }

    /// The files in the order of their paths.
    #[must_use]
    pub fn into_files(self) -> (files: Vec<GeneratedFile>)
        ensures
            in_path_order(files@),
            by_path(files@) == self@,
    {
        self.files.into_files()
    }
}

// ---------------------------------------------------------------------------
// Examples
// ---------------------------------------------------------------------------

/// The number one, written as a decimal.
pub open spec fn decimal_one() -> JsonView {
    JsonView::Number(NumberView::Decimal("1.0"@))
}

/// A sample value of a shape.
pub open spec fn shape_example(schema: SchemaKind) -> JsonView
    decreases schema,
{
    match schema {
        SchemaKind::String => JsonView::Text("example"@),
        SchemaKind::Binary => JsonView::Text("example"@),
        SchemaKind::Integer => JsonView::Number(NumberView::Unsigned(1)),
        SchemaKind::Number => decimal_one(),
        SchemaKind::Boolean => JsonView::Bool(true),
        SchemaKind::Array(item) => JsonView::List(seq![shape_example(*item)]),
        SchemaKind::Object => JsonView::Object(Map::empty()),
        SchemaKind::Any => JsonView::Null,
    }
}

/// The metadata that a rule carries, if it does.
pub open spec fn rule_metadata(rule: RuleView) -> Option<MetadataView> {
    match rule {
        RuleView::Custom(validator) => metadata_parsed(validator),
        _ => None,
    }
}

/// The first default among rules, from one position on.
pub open spec fn first_default(rules: Seq<RuleView>, at: int) -> Option<JsonView>
    decreases rules.len() - at,
{
    if at < 0 || at >= rules.len() {
        None
    } else {
        match rule_metadata(rules[at]) {
            Some(MetadataView::Default(value)) => Some(value),
            _ => first_default(rules, at + 1),
        }
    }
}

/// The first value of the first enumeration among rules that has one, from one
/// position on.
pub open spec fn first_choice(rules: Seq<RuleView>, at: int) -> Option<Seq<char>>
    decreases rules.len() - at,
{
    if at < 0 || at >= rules.len() {
        None
    } else {
        match rule_metadata(rules[at]) {
            Some(MetadataView::Enumeration(values)) => if values.len() > 0 {
                Some(values[0])
            } else {
                first_choice(rules, at + 1)
            },
            _ => first_choice(rules, at + 1),
        }
    }
}

/// A sample value of a type.
pub open spec fn type_example(ty: TypeView) -> JsonView
    decreases ty, 0int,
{
    match ty.model {
        Some(model) => JsonView::Object(model_example(*model, model.fields.len() as int)),
        None => match ty.schema {
            SchemaKind::Binary => JsonView::Text("ZXhhbXBsZQ=="@),
            SchemaKind::Array(item) => JsonView::List(
                seq![
                    match ty.items {
                        Some(full) => type_example(*full),
                        None => shape_example(*item),
                    },
                ],
            ),
            schema => shape_example(schema),
        },
    }
}

/// Sample members of a model, over its first so many fields.
pub open spec fn model_example(model: ModelView, count: int) -> Map<Seq<char>, JsonView>
    decreases model, count,
{
    if count <= 0 || count > model.fields.len() {
        Map::empty()
    } else {
        model_example(model, count - 1).insert(
            model.fields[count - 1].name,
            field_example(model.fields[count - 1]),
        )
    }
}

/// A sample value of a field, preferring what the field itself declares.
pub open spec fn field_example(field: FieldView) -> JsonView
    decreases field, 0int,
{
    match first_default(field.validation, 0) {
        Some(value) => value,
        None => match first_choice(field.validation, 0) {
            Some(first) => JsonView::Text(first),
            None => type_example(field.ty),
        },
    }
}

/// Sample arguments, over the first so many inputs.
pub open spec fn arguments_example(inputs: Seq<InputView>, count: int) -> Map<Seq<char>, JsonView>
    decreases count,
{
    if count <= 0 {
        Map::empty()
    } else {
        let before = arguments_example(inputs, count - 1);
        let input = inputs[count - 1];
        match input.ty.model {
            Some(model) => before.union_prefer_right(
                model_example(*model, model.fields.len() as int),
            ),
            None => before.insert(input.name, type_example(input.ty)),
        }
    }
}

fn one() -> (value: JsonValue)
    ensures
        value@ == decimal_one(),
{
    JsonValue::Number(JsonNumber::Decimal("1.0".to_owned()))
}

fn schema_kind_example(schema: &SchemaKind) -> (value: JsonValue)
    ensures
        value@ == shape_example(*schema),
    decreases schema,
{
    match schema {
        SchemaKind::String => JsonValue::text("example"),
        SchemaKind::Binary => JsonValue::text("example"),
        SchemaKind::Integer => JsonValue::unsigned(1),
        SchemaKind::Number => one(),
        SchemaKind::Boolean => JsonValue::flag(true),
        SchemaKind::Array(item) => {
            let items: Vec<JsonValue> = vec![schema_kind_example(item)];
            assert(items@.map_values(|item: JsonValue| crate::json::json_view(item)) =~= seq![
                shape_example(**item),
            ]);
            JsonValue::list(items)
        },
        SchemaKind::Object => JsonValue::object(),
        SchemaKind::Any => JsonValue::Null,
    }
}

fn find_default(rules: &Vec<ValidationRule>) -> (value: Option<JsonValue>)
    ensures
        crate::metadata::opt_json(value) == first_default(rules_view(rules@), 0),
{
    let ghost views = rules_view(rules@);
    let mut at: usize = 0;
    while at < rules.len()
        invariant
            at <= rules@.len(),
            views == rules_view(rules@),
            first_default(views, 0) == first_default(views, at as int),
        decreases rules@.len() - at,
    {
        assert(views[at as int] == rules@[at as int]@);
        if let ValidationRule::Custom(validator) = &rules[at] {
            if let Some(FieldMetadata::Default(value)) = FieldMetadata::parse(validator.as_str()) {
                return Some(value);
            }
        }
        at += 1;
    }
    None
}

fn find_choice(rules: &Vec<ValidationRule>) -> (choice: Option<String>)
    ensures
        crate::operation::opt_text(choice) == first_choice(rules_view(rules@), 0),
{
    let ghost views = rules_view(rules@);
    let mut at: usize = 0;
    while at < rules.len()
        invariant
            at <= rules@.len(),
            views == rules_view(rules@),
            first_choice(views, 0) == first_choice(views, at as int),
        decreases rules@.len() - at,
    {
        assert(views[at as int] == rules@[at as int]@);
        if let ValidationRule::Custom(validator) = &rules[at] {
            if let Some(FieldMetadata::Enumeration(values)) = FieldMetadata::parse(
                validator.as_str(),
            ) {
                if values.len() > 0 {
                    return Some(values[0].clone());
                }
            }
        }
        at += 1;
    }
    None
}

/// A sample value of a type.
pub fn example_value(descriptor: &TypeDescriptor) -> (value: JsonValue)
    ensures
        value@ == type_example(descriptor@),
    decreases descriptor, 0int, 0int,
{
    if let Some(model) = &descriptor.model {
        assert(descriptor@.model == Some(Box::new(model_view(**model))));
        let sample = example_fields(model, JsonValue::object());
        assert(Map::<Seq<char>, JsonView>::empty().union_prefer_right(
            model_example(model@, model@.fields.len() as int),
        ) =~= model_example(model@, model@.fields.len() as int));
        return sample;
    }
    match &descriptor.schema {
        SchemaKind::Binary => JsonValue::text("ZXhhbXBsZQ=="),
        SchemaKind::Array(item) => {
            let sample = match &descriptor.items {
                Some(full) => example_value(full),
                None => schema_kind_example(item),
            };
            let items: Vec<JsonValue> = vec![sample];
            assert(items@.map_values(|item: JsonValue| crate::json::json_view(item)) =~= seq![
                sample@,
            ]);
            JsonValue::list(items)
        },
        schema => schema_kind_example(schema),
    }
}

/// Sets sample members of a model on an object.
fn example_fields(model: &ModelDescriptor, object: JsonValue) -> (value: JsonValue)
    requires
        object@ is Object,
    ensures
        value@ == JsonView::Object(
            members(object@).union_prefer_right(
                model_example(model@, model@.fields.len() as int),
            ),
        ),
    decreases model, 1int, 0int,
{
    let ghost start = members(object@);
    let ghost view = model@;
    let mut properties = object;
    let mut index: usize = 0;
    assert(start.union_prefer_right(model_example(view, 0)) =~= start);
    assert(properties@ == JsonView::Object(members(properties@)));
    while index < model.fields.len()
        invariant
            index <= model.fields@.len(),
            view == model@,
            view.fields.len() == model.fields@.len(),
            properties@ == JsonView::Object(
                start.union_prefer_right(model_example(view, index as int)),
            ),
        decreases model.fields@.len() - index,
    {
        let field = &model.fields[index];
        let ghost before = model_example(view, index as int);
        assert(view.fields[index as int] == field_view(*field));
        let sample = sample_of_field(field);
        properties.set(field.name.as_str(), sample);
        assert(start.union_prefer_right(before).insert(field.name@, sample@)
            =~= start.union_prefer_right(before.insert(field.name@, sample@)));
        index += 1;
    }
    properties
}

fn sample_of_field(field: &FieldDescriptor) -> (value: JsonValue)
    ensures
        value@ == field_example(field@),
    decreases field, 0int, 0int,
{
    if let Some(value) = find_default(&field.validation) {
        return value;
    }
    if let Some(first) = find_choice(&field.validation) {
        return JsonValue::text(first.as_str());
    }
    example_value(&field.ty)
}

/// Sample arguments of an operation.
pub fn example_arguments(inputs: &Vec<InputDescriptor>) -> (arguments: JsonValue)
    ensures
        arguments@ == JsonView::Object(
            arguments_example(inputs_view(inputs@), inputs@.len() as int),
        ),
{
    let ghost views = inputs_view(inputs@);
    let mut arguments = JsonValue::object();
    let mut index: usize = 0;
    while index < inputs.len()
        invariant
            index <= inputs@.len(),
            views == inputs_view(inputs@),
            arguments@ == JsonView::Object(arguments_example(views, index as int)),
        decreases inputs@.len() - index,
    {
        let input = &inputs[index];
        assert(views[index as int] == input@);
        if let Some(model) = &input.ty.model {
            assert(input@.ty.model == Some(Box::new(model_view(**model))));
            arguments = example_fields(model, arguments);
        } else {
            arguments.set(input.name.as_str(), example_value(&input.ty));
        }
        index += 1;
    }
    arguments
}

// ---------------------------------------------------------------------------
// The contract for agents
// ---------------------------------------------------------------------------

/// How agents are told to use the operations.
pub const AGENT_RULES: &'static str = "Use only the operations listed here. Treat typed validation and domain errors as correctable tool feedback. Never retry a destructive or non-idempotent operation without user intent. Operations marked as requiring confirmation must receive explicit confirmation before invocation.\n\
     \n";

/// A text followed by the lines about the tool of an operation.
pub open spec fn with_agent_tool(out: Seq<char>, operation: DescriptorView) -> Seq<char> {
    let inputs = operation.contract.inputs;
    match operation.contract.mcp {
        Some(tool) => out + "- MCP: `"@ + tool.name + "`; output exposure `"@ + exposure_word(
            tool.expose_output,
        ) + "`\n"@ + "- Example arguments: `"@ + shown(
            JsonView::Object(arguments_example(inputs, inputs.len() as int)),
        ) + "`\n"@,
        None => out + "- MCP: not exposed\n"@,
    }
}

/// A text followed by the lines about the first so many inputs.
pub open spec fn with_agent_inputs(out: Seq<char>, inputs: Seq<InputView>, count: int) -> Seq<char>
    decreases count,
{
    if count <= 0 {
        out
    } else {
        let input = inputs[count - 1];
        with_agent_inputs(out, inputs, count - 1) + "- Input `"@ + input.name + "` from "@
            + source_title(input.source) + ": `"@ + input.ty.rust_name + "` ("@ + requirement(
            input.required,
        ) + ")\n"@
    }
}

/// A text followed by the line about a response.
pub open spec fn with_agent_response(out: Seq<char>, response: ResponseView) -> Seq<char> {
    match response.error_code {
        Some(code) => out + "- Correctable error `"@ + code + "` / HTTP "@ + decimal(
            response.status as nat,
        ) + ": "@ + text_or_nothing(response.error_message) + "\n"@,
        None => out + "- Success HTTP "@ + decimal(response.status as nat) + ": `"@ + body_word(
            response.body,
        ) + "`\n"@,
    }
}

/// A text followed by the lines about the first so many responses.
pub open spec fn with_agent_responses(out: Seq<char>, list: Seq<ResponseView>, count: int) -> Seq<
    char,
>
    decreases count,
{
    if count <= 0 {
        out
    } else {
        with_agent_response(with_agent_responses(out, list, count - 1), list[count - 1])
    }
}

/// A text followed by the section about an operation.
pub open spec fn with_agent_section(out: Seq<char>, operation: DescriptorView) -> Seq<char> {
    let contract = operation.contract;
    let titled = out + "## `"@ + contract.id + "`\n\n"@ + contract.summary + "\n\n"@;
    let described = with_description(titled, description_of(operation));
    let bound = described + "- HTTP: `"@ + method_name(operation.method) + " "@ + operation.path
        + "`\n"@;
    let ruled = bound + "- Agent policy: risk `"@ + risk_word(contract.agent.risk)
        + "`, confirmation `"@ + confirmation_word(contract.agent.confirmation)
        + "`, idempotent `"@ + flag_word(contract.agent.idempotent) + "`\n"@;
    let exposed = with_agent_tool(ruled, operation);
    let fed = with_agent_inputs(exposed, contract.inputs, contract.inputs.len() as int);
    with_agent_responses(fed, contract.responses, contract.responses.len() as int) + "\n"@
}

/// A text followed by the sections about the first so many operations.
pub open spec fn with_agent_sections(
    out: Seq<char>,
    operations: Seq<DescriptorView>,
    count: int,
) -> Seq<char>
    decreases count,
{
    if count <= 0 {
        out
    } else {
        with_agent_section(with_agent_sections(out, operations, count - 1), operations[count - 1])
    }
}

/// The contract for agents.
pub open spec fn agent_document(title: Seq<char>, operations: Seq<DescriptorView>) -> Seq<char> {
    with_agent_sections(
        "# "@ + title + " agent contract\n\n"@ + AGENT_RULES@,
        operations,
        operations.len() as int,
    )
}

fn write_agent_section(output: &mut String, operation: &OperationDescriptor)
    ensures
        final(output)@ == with_agent_section(old(output)@, operation@),
{
    let contract = &operation.contract;
    output.append("## `");
    output.append(contract.id.as_str());
    output.append("`\n\n");
    output.append(contract.summary.as_str());
    output.append("\n\n");
    if let Some(description) = operation_description(operation) {
        output.append(description);
        output.append("\n\n");
    }
    output.append("- HTTP: `");
    output.append(operation.http.method.as_str());
    output.append(" ");
    output.append(operation.http.path.as_str());
    output.append("`\n");
    output.append("- Agent policy: risk `");
    output.append(risk_name(contract.agent.risk));
    output.append("`, confirmation `");
    output.append(confirmation_name(contract.agent.confirmation));
    output.append("`, idempotent `");
    output.append(flag_name(contract.agent.idempotent));
    output.append("`\n");
    if let Some(tool) = &contract.mcp {
        output.append("- MCP: `");
        output.append(tool.name.as_str());
        output.append("`; output exposure `");
        output.append(exposure_name(tool.expose_output));
        output.append("`\n");
        output.append("- Example arguments: `");
        output.append(shown_value(&example_arguments(&contract.inputs)).as_str());
        output.append("`\n");
    } else {
        output.append("- MCP: not exposed\n");
    }
    write_agent_inputs(output, &contract.inputs);
    write_agent_responses(output, &contract.responses);
    output.append("\n");
}

fn write_agent_inputs(output: &mut String, inputs: &Vec<InputDescriptor>)
    ensures
        final(output)@ == with_agent_inputs(
            old(output)@,
            inputs_view(inputs@),
            inputs@.len() as int,
        ),
{
    let ghost start = output@;
    let ghost views = inputs_view(inputs@);
    let mut index: usize = 0;
    while index < inputs.len()
        invariant
            index <= inputs@.len(),
            views == inputs_view(inputs@),
            output@ == with_agent_inputs(start, views, index as int),
        decreases inputs@.len() - index,
    {
        let input = &inputs[index];
        assert(views[index as int] == input@);
        output.append("- Input `");
        output.append(input.name.as_str());
        output.append("` from ");
        output.append(input_source_name(input.source));
        output.append(": `");
        output.append(input.ty.rust_name.as_str());
        output.append("` (");
        output.append(requirement_word(input.required));
        output.append(")\n");
        index += 1;
    }
}

fn write_agent_responses(output: &mut String, list: &Vec<ResponseDescriptor>)
    ensures
        final(output)@ == with_agent_responses(
            old(output)@,
            responses_view(list@),
            list@.len() as int,
        ),
{
    let ghost start = output@;
    let ghost views = responses_view(list@);
    let mut index: usize = 0;
    while index < list.len()
        invariant
            index <= list@.len(),
            views == responses_view(list@),
            output@ == with_agent_responses(start, views, index as int),
        decreases list@.len() - index,
    {
        let response = &list[index];
        assert(views[index as int] == response@);
        if let Some(code) = &response.error_code {
            output.append("- Correctable error `");
            output.append(code.as_str());
            output.append("` / HTTP ");
            output.append(decimal_text(response.status as u64).as_str());
            output.append(": ");
            match &response.error_message {
                Some(message) => {
                    output.append(message.as_str());
                },
                None => {
                    assert(output@ =~= output@ + Seq::<char>::empty());
                },
            }
            output.append("\n");
        } else {
            output.append("- Success HTTP ");
            output.append(decimal_text(response.status as u64).as_str());
            output.append(": `");
            output.append(body_name(&response.body));
            output.append("`\n");
        }
        index += 1;
    }
}

/// Generates an agent-first contract document: policy, inputs, outputs,
/// failures, and concrete MCP arguments.
#[must_use]
pub fn ai_markdown(app: &AppDefinition, config: &DocsBundleConfig) -> (document: String)
    ensures
        document@ == agent_document(config.title@, descriptors_view(app.spec_operations())),
{
    let operations = app.operations();
    let ghost views = descriptors_view(operations@);
    let mut output = "# ".to_owned();
    output.append(config.title.as_str());
    output.append(" agent contract\n\n");
    output.append(AGENT_RULES);
    let ghost start = output@;
    let mut index: usize = 0;
    while index < operations.len()
        invariant
            index <= operations@.len(),
            views == descriptors_view(operations@),
            output@ == with_agent_sections(start, views, index as int),
        decreases operations@.len() - index,
    {
        assert(views[index as int] == operations@[index as int]@);
        write_agent_section(&mut output, &operations[index]);
        index += 1;
    }
    output
}

// ---------------------------------------------------------------------------
// Requests by example
// ---------------------------------------------------------------------------

/// A text with every occurrence of a pattern replaced, from left to right.
pub open spec fn replaced(text: Seq<char>, pattern: Seq<char>, with: Seq<char>) -> Seq<char>
    decreases text.len(),
{
    if pattern.len() == 0 || text.len() < pattern.len() {
        text
    } else if text.take(pattern.len() as int) == pattern {
        with + replaced(text.skip(pattern.len() as int), pattern, with)
    } else {
        seq![text[0]] + replaced(text.skip(1), pattern, with)
    }
}

fn replace_all(text: &Vec<char>, pattern: &Vec<char>, with: &Vec<char>) -> (output: Vec<char>)
    requires
        pattern@.len() > 0,
    ensures
        output@ == replaced(text@, pattern@, with@),
{
    let mut output: Vec<char> = Vec::new();
    let mut at: usize = 0;
    assert(text@.skip(0) =~= text@);
    assert(output@ + replaced(text@, pattern@, with@) =~= replaced(text@, pattern@, with@));
    while text.len() - at >= pattern.len()
        invariant
            at <= text@.len(),
            pattern@.len() > 0,
            output@ + replaced(text@.skip(at as int), pattern@, with@) == replaced(
                text@,
                pattern@,
                with@,
            ),
        decreases text@.len() - at,
    {
        let ghost rest = text@.skip(at as int);
        let ghost before = output@;
        let window = vstd::slice::slice_subrange(text.as_slice(), at, at + pattern.len());
        assert(window@ =~= rest.take(pattern@.len() as int));
        if eq_chars(window, pattern.as_slice()) {
            output.extend_from_slice(with.as_slice());
            proof {
                assert(output@ =~= before + with@);
                assert(rest.skip(pattern@.len() as int) =~= text@.skip(at + pattern@.len()));
                assert(before + (with@ + replaced(
                    rest.skip(pattern@.len() as int),
                    pattern@,
                    with@,
                )) =~= output@ + replaced(text@.skip(at + pattern@.len()), pattern@, with@));
            }
            at = at + pattern.len();
        } else {
            output.push(text[at]);
            proof {
                assert(rest[0] == text@[at as int]);
                assert(rest.skip(1) =~= text@.skip(at + 1));
                assert(before + (seq![rest[0]] + replaced(rest.skip(1), pattern@, with@))
                    =~= output@ + replaced(text@.skip(at + 1), pattern@, with@));
            }
            at += 1;
        }
    }
    let ghost before = output@;
    let tail = vstd::slice::slice_subrange(text.as_slice(), at, text.len());
    output.extend_from_slice(tail);
    assert(tail@ =~= text@.skip(at as int));
    assert(output@ =~= before + tail@);
    output
}

/// The names under which an input is given: those of the fields of its model,
/// or its own.
pub open spec fn names_given(input: InputView) -> Seq<Seq<char>> {
    match input.ty.model {
        Some(model) => model.fields.map_values(|field: FieldView| field.name),
        None => seq![input.name],
    }
}

fn input_names(input: &InputDescriptor) -> (names: Vec<String>)
    ensures
        crate::operation::texts(names@) == names_given(input@),
{
    let mut names: Vec<String> = Vec::new();
    if let Some(model) = &input.ty.model {
        assert(input@.ty.model == Some(Box::new(model_view(**model))));
        let ghost fields = model_view(**model).fields;
        let mut index: usize = 0;
        while index < model.fields.len()
            invariant
                index <= model.fields@.len(),
                fields == model_view(**model).fields,
                names@.len() == index,
                forall|i: int| 0 <= i < index ==> (#[trigger] names@[i])@ == fields[i].name,
            decreases model.fields@.len() - index,
        {
            assert(fields[index as int] == field_view(model.fields@[index as int]));
            names.push(model.fields[index].name.clone());
            index += 1;
        }
        assert(crate::operation::texts(names@) =~= names_given(input@));
    } else {
        names.push(input.name.clone());
        assert(crate::operation::texts(names@) =~= names_given(input@));
    }
    names
}

/// A sample argument as a text: itself where it is one.
pub open spec fn argument_text(arguments: Map<Seq<char>, JsonView>, name: Seq<char>) -> Seq<char> {
    if arguments.contains_key(name) {
        match arguments[name] {
            JsonView::Text(text) => text,
            value => shown(value),
        }
    } else {
        shown(JsonView::Null)
    }
}

fn scalar_text(arguments: &JsonValue, name: &str) -> (text: String)
    ensures
        text@ == argument_text(members(arguments@), name@),
{
    match arguments.get(name) {
        Some(JsonValue::String(text)) => text.clone(),
        Some(value) => shown_value(value),
        None => shown_value(&JsonValue::Null),
    }
}

/// A name in braces, as a path holds it.
pub open spec fn placeholder(name: Seq<char>) -> Seq<char> {
    "{"@ + name + "}"@
}

/// A path with the placeholders of the first so many names replaced.
pub open spec fn with_names_filled(
    path: Seq<char>,
    names: Seq<Seq<char>>,
    arguments: Map<Seq<char>, JsonView>,
    count: int,
) -> Seq<char>
    decreases count,
{
    if count <= 0 {
        path
    } else {
        replaced(
            with_names_filled(path, names, arguments, count - 1),
            placeholder(names[count - 1]),
            argument_text(arguments, names[count - 1]),
        )
    }
}

/// A path with the placeholders of the path inputs among the first so many
/// replaced by sample arguments.
pub open spec fn example_path(
    path: Seq<char>,
    inputs: Seq<InputView>,
    arguments: Map<Seq<char>, JsonView>,
    count: int,
) -> Seq<char>
    decreases count,
{
    if count <= 0 {
        path
    } else {
        let before = example_path(path, inputs, arguments, count - 1);
        let input = inputs[count - 1];
        if input.source == InputSource::Path {
            with_names_filled(
                before,
                names_given(input),
                arguments,
                names_given(input).len() as int,
            )
        } else {
            before
        }
    }
}

fn fill_path(path: &str, inputs: &Vec<InputDescriptor>, arguments: &JsonValue) -> (filled_path:
    String)
    ensures
        filled_path@ == example_path(
            path@,
            inputs_view(inputs@),
            members(arguments@),
            inputs@.len() as int,
        ),
{
    let ghost views = inputs_view(inputs@);
    let ghost given = members(arguments@);
    let mut current = chars_of(path);
    let mut index: usize = 0;
    while index < inputs.len()
        invariant
            index <= inputs@.len(),
            views == inputs_view(inputs@),
            given == members(arguments@),
            current@ == example_path(path@, views, given, index as int),
        decreases inputs@.len() - index,
    {
        let input = &inputs[index];
        assert(views[index as int] == input@);
        if input.source == InputSource::Path {
            let names = input_names(input);
            let ghost wanted = names_given(input@);
            let ghost start = current@;
            let mut at: usize = 0;
            while at < names.len()
                invariant
                    at <= names@.len(),
                    wanted == crate::operation::texts(names@),
                    given == members(arguments@),
                    current@ == with_names_filled(start, wanted, given, at as int),
                decreases names@.len() - at,
            {
                assert(wanted[at as int] == names@[at as int]@);
                let mut pattern = "{".to_owned();
                pattern.append(names[at].as_str());
                pattern.append("}");
                let argument = scalar_text(arguments, names[at].as_str());
                proof {
                    reveal_strlit("{");
                    assert(pattern@ == placeholder(names@[at as int]@));
                }
                current = replace_all(
                    &current,
                    &chars_of(pattern.as_str()),
                    &chars_of(argument.as_str()),
                );
                at += 1;
            }
        }
        index += 1;
    }
    string_from(current.as_slice())
}

/// A name as a header has it.
pub open spec fn dashed(name: Seq<char>) -> Seq<char> {
    name.map_values(
        |character: char|
            if character == '_' {
                '-'
            } else {
                character
            },
    )
}

fn header_form(name: &str) -> (header: String)
    ensures
        header@ == dashed(name@),
{
    let characters = chars_of(name);
    let mut output: Vec<char> = Vec::new();
    let mut index: usize = 0;
    while index < characters.len()
        invariant
            index <= characters@.len(),
            characters@ == name@,
            output@.len() == index,
            forall|i: int| 0 <= i < index ==> #[trigger] output@[i] == dashed(name@)[i],
        decreases characters@.len() - index,
    {
        if characters[index] == '_' {
            output.push('-');
        } else {
            output.push(characters[index]);
        }
        index += 1;
    }
    assert(output@ =~= dashed(name@));
    string_from(output.as_slice())
}

/// A text without the slashes at its end.
pub open spec fn without_end_slashes(text: Seq<char>) -> Seq<char>
    decreases text.len(),
{
    if text.len() > 0 && text.last() == '/' {
        without_end_slashes(text.drop_last())
    } else {
        text
    }
}

fn trim_slashes(text: &str) -> (trimmed: String)
    ensures
        trimmed@ == without_end_slashes(text@),
{
    let mut characters = chars_of(text);
    while characters.len() > 0 && characters[characters.len() - 1] == '/'
        invariant
            without_end_slashes(characters@) == without_end_slashes(text@),
        decreases characters@.len(),
    {
        let ghost before = characters@;
        let dropped = characters.pop();
        assert(characters@ =~= before.drop_last());
    }
    string_from(characters.as_slice())
}

/// A text followed by the header options of the first so many names.
pub open spec fn with_header_options(
    out: Seq<char>,
    names: Seq<Seq<char>>,
    arguments: Map<Seq<char>, JsonView>,
    count: int,
) -> Seq<char>
    decreases count,
{
    if count <= 0 {
        out
    } else {
        with_header_options(out, names, arguments, count - 1) + " \\\n  -H '"@ + dashed(
            names[count - 1],
        ) + ": "@ + argument_text(arguments, names[count - 1]) + "'"@
    }
}

/// A text followed by the header options of the first so many inputs.
pub open spec fn with_header_inputs(
    out: Seq<char>,
    inputs: Seq<InputView>,
    arguments: Map<Seq<char>, JsonView>,
    count: int,
) -> Seq<char>
    decreases count,
{
    if count <= 0 {
        out
    } else {
        let before = with_header_inputs(out, inputs, arguments, count - 1);
        let input = inputs[count - 1];
        if input.source == InputSource::Header {
            with_header_options(
                before,
                names_given(input),
                arguments,
                names_given(input).len() as int,
            )
        } else {
            before
        }
    }
}

fn write_header_inputs(output: &mut String, inputs: &Vec<InputDescriptor>, arguments: &JsonValue)
    ensures
        final(output)@ == with_header_inputs(
            old(output)@,
            inputs_view(inputs@),
            members(arguments@),
            inputs@.len() as int,
        ),
{
    let ghost views = inputs_view(inputs@);
    let ghost given = members(arguments@);
    let ghost start = output@;
    let mut index: usize = 0;
    while index < inputs.len()
        invariant
            index <= inputs@.len(),
            views == inputs_view(inputs@),
            given == members(arguments@),
            output@ == with_header_inputs(start, views, given, index as int),
        decreases inputs@.len() - index,
    {
        let input = &inputs[index];
        assert(views[index as int] == input@);
        if input.source == InputSource::Header {
            let names = input_names(input);
            let ghost wanted = names_given(input@);
            let ghost before = output@;
            let mut at: usize = 0;
            while at < names.len()
                invariant
                    at <= names@.len(),
                    wanted == crate::operation::texts(names@),
                    given == members(arguments@),
                    output@ == with_header_options(before, wanted, given, at as int),
                decreases names@.len() - at,
            {
                assert(wanted[at as int] == names@[at as int]@);
                output.append(" \\\n  -H '");
                output.append(header_form(names[at].as_str()).as_str());
                output.append(": ");
                output.append(scalar_text(arguments, names[at].as_str()).as_str());
                output.append("'");
                at += 1;
            }
        }
        index += 1;
    }
}

/// The media type of a body, if a source is one.
pub open spec fn media_type(source: InputSource) -> Option<Seq<char>> {
    match source {
        InputSource::Json => Some("application/json"@),
        InputSource::Form => Some("application/x-www-form-urlencoded"@),
        InputSource::Multipart => Some("multipart/form-data"@),
        InputSource::File => Some("multipart/form-data"@),
        InputSource::Stream => Some("application/octet-stream"@),
        _ => None,
    }
}

fn body_media_type(source: InputSource) -> (media: Option<&'static str>)
    ensures
        match media {
            Some(media) => media_type(source) == Some(media@),
            None => media_type(source) is None,
        },
{
    match source {
        InputSource::Json => Some("application/json"),
        InputSource::Form => Some("application/x-www-form-urlencoded"),
        InputSource::Multipart => Some("multipart/form-data"),
        InputSource::File => Some("multipart/form-data"),
        InputSource::Stream => Some("application/octet-stream"),
        _ => None,
    }
}

/// A text followed by the body of the first input that is one, from one on.
pub open spec fn with_body(out: Seq<char>, inputs: Seq<InputView>, at: int) -> Seq<char>
    decreases inputs.len() - at,
{
    if at < 0 || at >= inputs.len() {
        out
    } else {
        match media_type(inputs[at].source) {
            Some(media) => out + " \\\n  -H 'content-type: "@ + media + "' \\\n  --data '"@
                + shown(type_example(inputs[at].ty)) + "'"@,
            None => with_body(out, inputs, at + 1),
        }
    }
}

fn write_body(output: &mut String, inputs: &Vec<InputDescriptor>)
    ensures
        final(output)@ == with_body(old(output)@, inputs_view(inputs@), 0),
{
    let ghost views = inputs_view(inputs@);
    let ghost start = output@;
    let mut at: usize = 0;
    while at < inputs.len()
        invariant
            at <= inputs@.len(),
            views == inputs_view(inputs@),
            output@ == start,
            start == old(output)@,
            with_body(start, views, 0) == with_body(start, views, at as int),
        decreases inputs@.len() - at,
    {
        let input = &inputs[at];
        assert(views[at as int] == input@);
        if let Some(media) = body_media_type(input.source) {
            output.append(" \\\n  -H 'content-type: ");
            output.append(media);
            output.append("' \\\n  --data '");
            output.append(shown_value(&example_value(&input.ty)).as_str());
            output.append("'");
            return;
        }
        at += 1;
    }
}

/// A text followed by a sample request to an operation.
pub open spec fn with_http_example(
    out: Seq<char>,
    operation: DescriptorView,
    base_url: Seq<char>,
) -> Seq<char> {
    let inputs = operation.contract.inputs;
    let arguments = arguments_example(inputs, inputs.len() as int);
    let called = out + "## `"@ + operation.contract.id + "`\n\n"@ + "```bash\ncurl -X "@
        + method_name(operation.method) + " '"@ + without_end_slashes(base_url) + example_path(
        operation.path,
        inputs,
        arguments,
        inputs.len() as int,
    ) + "'"@;
    let headed = with_header_inputs(called, inputs, arguments, inputs.len() as int);
    with_body(headed, inputs, 0) + "\n```\n\n"@
}

/// A text followed by sample requests to the first so many operations.
pub open spec fn with_http_examples(
    out: Seq<char>,
    operations: Seq<DescriptorView>,
    base_url: Seq<char>,
    count: int,
) -> Seq<char>
    decreases count,
{
    if count <= 0 {
        out
    } else {
        with_http_example(
            with_http_examples(out, operations, base_url, count - 1),
            operations[count - 1],
            base_url,
        )
    }
}

/// Generates sample HTTP requests.
#[must_use]
pub fn http_examples(app: &AppDefinition, config: &DocsBundleConfig) -> (document: String)
    ensures
        document@ == with_http_examples(
            "# HTTP examples\n\n"@,
            descriptors_view(app.spec_operations()),
            config.base_url@,
            app.spec_operations().len() as int,
        ),
{
    let operations = app.operations();
    let ghost views = descriptors_view(operations@);
    let mut output = "# HTTP examples\n\n".to_owned();
    let mut index: usize = 0;
    while index < operations.len()
        invariant
            index <= operations@.len(),
            views == descriptors_view(operations@),
            output@ == with_http_examples(
                "# HTTP examples\n\n"@,
                views,
                config.base_url@,
                index as int,
            ),
        decreases operations@.len() - index,
    {
        let operation = &operations[index];
        assert(views[index as int] == operation@);
        let inputs = &operation.contract.inputs;
        let arguments = example_arguments(inputs);
        output.append("## `");
        output.append(operation.contract.id.as_str());
        output.append("`\n\n");
        output.append("```bash\ncurl -X ");
        output.append(operation.http.method.as_str());
        output.append(" '");
        output.append(trim_slashes(config.base_url.as_str()).as_str());
        output.append(fill_path(operation.http.path.as_str(), inputs, &arguments).as_str());
        output.append("'");
        write_header_inputs(&mut output, inputs, &arguments);
        write_body(&mut output, inputs);
        output.append("\n```\n\n");
        index += 1;
    }
    output
}

/// A sample call of a tool.
pub open spec fn tool_call(operation: DescriptorView, name: Seq<char>) -> JsonView {
    let inputs = operation.contract.inputs;
    let plain = map![
        "name"@ => JsonView::Text(name),
        "arguments"@ => JsonView::Object(arguments_example(inputs, inputs.len() as int)),
    ];
    let params = if operation.contract.agent.confirmation == Confirmation::Required {
        plain.insert(
            "_meta"@,
            JsonView::Object(map!["dev.blazingly/confirmed"@ => JsonView::Bool(true)]),
        )
    } else {
        plain
    };
    JsonView::Object(
        map![
            "jsonrpc"@ => JsonView::Text("2.0"@),
            "id"@ => JsonView::Number(NumberView::Unsigned(1)),
            "method"@ => JsonView::Text("tools/call"@),
            "params"@ => JsonView::Object(params),
        ],
    )
}

/// A sample call of a tool.
pub fn example_call(operation: &OperationDescriptor, name: &str) -> (request: JsonValue)
    ensures
        request@ == tool_call(operation@, name@),
{
    let mut params = JsonValue::object().with("name", JsonValue::text(name)).with(
        "arguments",
        example_arguments(&operation.contract.inputs),
    );
    let ghost inputs = operation@.contract.inputs;
    assert(members(params@) =~= map![
        "name"@ => JsonView::Text(name@),
        "arguments"@ => JsonView::Object(arguments_example(inputs, inputs.len() as int)),
    ]);
    if operation.contract.agent.confirmation == Confirmation::Required {
        let meta = JsonValue::object().with("dev.blazingly/confirmed", JsonValue::flag(true));
        assert(members(meta@) =~= map!["dev.blazingly/confirmed"@ => JsonView::Bool(true)]);
        params.set("_meta", meta);
    }
    let request = JsonValue::object().with("jsonrpc", JsonValue::text("2.0")).with(
        "id",
        JsonValue::unsigned(1),
    ).with("method", JsonValue::text("tools/call")).with("params", params);
    assert(members(request@) =~= members(tool_call(operation@, name@)));
    request
}

/// A request as it is shown to people.
pub open spec fn shown_request(request: JsonView) -> Seq<char> {
    match pretty_json(request) {
        Some(text) => text,
        None => "{\"error\":\"example generation failed\"}"@,
    }
}

/// A text followed by sample calls of the tools of the first so many
/// operations.
pub open spec fn with_mcp_examples(
    out: Seq<char>,
    operations: Seq<DescriptorView>,
    count: int,
) -> Seq<char>
    decreases count,
{
    if count <= 0 {
        out
    } else {
        let before = with_mcp_examples(out, operations, count - 1);
        match operations[count - 1].contract.mcp {
            Some(tool) => before + "## `"@ + tool.name + "`\n\n```json\n"@ + shown_request(
                tool_call(operations[count - 1], tool.name),
            ) + "\n```\n\n"@,
            None => before,
        }
    }
}

/// Generates sample MCP calls.
#[must_use]
pub fn mcp_examples(app: &AppDefinition, config: &DocsBundleConfig) -> (document: String)
    ensures
        document@ == with_mcp_examples(
            "# MCP examples\n\nStreamable HTTP endpoint: `"@ + config.mcp_endpoint@ + "`\n\n"@,
            descriptors_view(app.spec_operations()),
            app.spec_operations().len() as int,
        ),
{
    let operations = app.operations();
    let ghost views = descriptors_view(operations@);
    let mut output = "# MCP examples\n\nStreamable HTTP endpoint: `".to_owned();
    output.append(config.mcp_endpoint.as_str());
    output.append("`\n\n");
    let ghost start = output@;
    let mut index: usize = 0;
    while index < operations.len()
        invariant
            index <= operations@.len(),
            views == descriptors_view(operations@),
            output@ == with_mcp_examples(start, views, index as int),
        decreases operations@.len() - index,
    {
        let operation = &operations[index];
        assert(views[index as int] == operation@);
        if let Some(tool) = &operation.contract.mcp {
            let request = example_call(operation, tool.name.as_str());
            output.append("## `");
            output.append(tool.name.as_str());
            output.append("`\n\n```json\n");
            match pretty_text(&request) {
                Some(text) => {
                    output.append(text.as_str());
                },
                None => {
                    output.append("{\"error\":\"example generation failed\"}");
                },
            }
            output.append("\n```\n\n");
        }
        index += 1;
    }
    output
}

// ---------------------------------------------------------------------------
// Clients and projects
// ---------------------------------------------------------------------------

/// The head of a generated client.
pub const CLIENT: &'static str = "// Generated starter for {base_url}. Dependencies: reqwest, serde_json.\n\
     pub struct Client {{\n\
     \x20   base_url: String,\n\
     \x20   http: reqwest::Client,\n\
     }}\n\
     \n\
     impl Client {{\n\
     \x20   pub fn new(base_url: impl Into<String>) -> Self {{\n\
     \x20       Self {{ base_url: base_url.into(), http: reqwest::Client::new() }}\n\
     \x20   }}\n\
     \n";

/// One call of a generated client.
pub const CLIENT_CALL: &'static str = "    /// Calls `{id}`. Replace path placeholders before passing `path`.\n\
     \x20   pub async fn {function}(\n\
     \x20       &self,\n\
     \x20       path: &str,\n\
     \x20       body: Option<&serde_json::Value>,\n\
     \x20   ) -> Result<serde_json::Value, reqwest::Error> {{\n\
     \x20       let request = self.http.request(\n\
     \x20           reqwest::Method::{method},\n\
     \x20           format!(\"{{}}{{}}\", self.base_url.trim_end_matches('/'), path),\n\
     \x20       );\n\
     \x20       let request = match body {{ Some(body) => request.json(body), None => request }};\n\
     \x20       request.send().await?.error_for_status()?.json().await\n\
     \x20   }}\n\
     \n";

/// The manifest of a generated project.
pub const MANIFEST: &'static str = "[package]\n\
     name = \"{package_name}\"\n\
     version = \"0.1.0\"\n\
     edition = \"2024\"\n\
     \n\
     [workspace]\n\
     \n\
     [dependencies]\n\
     blazingly = {dependency}\n";

/// The program of a generated project.
pub const PROGRAM: &'static str = "use blazingly::prelude::*;\n\
     use std::num::NonZeroUsize;\n\
     use std::time::Duration;\n\
     \n\
     #[get(\"/health\", id = \"health.read\", summary = \"Liveness probe\")]\n\
     fn health() -> Json<&'static str> {{\n\
     \x20   Json(\"ok\")\n\
     }}\n\
     \n\
     fn application() -> ExecutableApp {{\n\
     \x20   ExecutableApp::new(routes![health])\n\
     \x20       .expect(\"application contract should compile\")\n\
     }}\n\
     \n\
     fn main() -> std::io::Result<()> {{\n\
     \x20   let address = std::env::var(\"BLAZINGLY_LISTEN_ADDRESS\")\n\
     \x20       .unwrap_or_else(|_| \"{address}\".to_owned());\n\
     \x20   let workers = std::env::var(\"BLAZINGLY_WORKERS\")\n\
     \x20       .ok()\n\
     \x20       .and_then(|value| value.parse::<NonZeroUsize>().ok())\n\
     \x20       .or_else(|| std::thread::available_parallelism().ok())\n\
     \x20       .unwrap_or(NonZeroUsize::MIN);\n\
     \x20   let max_requests_per_connection =\n\
     \x20       std::env::var(\"BLAZINGLY_MAX_REQUESTS_PER_CONNECTION\")\n\
     \x20           .ok()\n\
     \x20           .and_then(|value| value.parse::<NonZeroUsize>().ok());\n\
     \x20   let limits = blazingly::native::ServerLimits::new()\n\
     \x20       .with_max_requests_per_connection(max_requests_per_connection);\n\
     \x20   let (_shutdown, signal) = blazingly::native::termination_channel()?;\n\
     \x20   blazingly::native::MulticoreServer::new(workers, application)\n\
     \x20       .with_limits(limits)\n\
     \x20       .with_openapi(blazingly::openapi::OpenApiConfig::default())\n\
     \x20       .serve_gracefully(address, signal, Duration::from_secs(25))\n\
     }}\n";

/// A character that a Rust name can hold.
pub open spec fn name_char(character: char) -> bool {
    ||| 'a' <= character <= 'z'
    ||| 'A' <= character <= 'Z'
    ||| '0' <= character <= '9'
    ||| character == '_'
}

/// The name of the function that calls an operation.
pub open spec fn function_name(id: Seq<char>) -> Seq<char> {
    id.map_values(
        |character: char|
            if name_char(character) {
                character
            } else {
                '_'
            },
    )
}

fn rust_identifier(operation_id: &str) -> (name: String)
    ensures
        name@ == function_name(operation_id@),
{
    let characters = chars_of(operation_id);
    let mut output: Vec<char> = Vec::new();
    let mut index: usize = 0;
    while index < characters.len()
        invariant
            index <= characters@.len(),
            characters@ == operation_id@,
            output@.len() == index,
            forall|i: int| 0 <= i < index ==> #[trigger] output@[i] == function_name(operation_id@)[i],
        decreases characters@.len() - index,
    {
        let character = characters[index];
        let fits = ('a' <= character && character <= 'z') || ('A' <= character && character <= 'Z')
            || ('0' <= character && character <= '9') || character == '_';
        if fits {
            output.push(character);
        } else {
            output.push('_');
        }
        index += 1;
    }
    assert(output@ =~= function_name(operation_id@));
    string_from(output.as_slice())
}

/// A text followed by the calls of the first so many operations.
pub open spec fn with_calls(out: Seq<char>, operations: Seq<DescriptorView>, count: int) -> Seq<char>
    decreases count,
{
    if count <= 0 {
        out
    } else {
        let operation = operations[count - 1];
        with_calls(out, operations, count - 1) + filled(
            CLIENT_CALL@,
            seq![
                ("id"@, operation.contract.id),
                ("function"@, function_name(operation.contract.id)),
                ("method"@, method_name(operation.method)),
            ],
        )
    }
}

/// The source of a client.
pub open spec fn client_source(base_url: Seq<char>, operations: Seq<DescriptorView>) -> Seq<char> {
    with_calls(
        filled(CLIENT@, seq![("base_url"@, base_url)]),
        operations,
        operations.len() as int,
    ) + "}\n"@
}

/// Generates the source of a client.
#[must_use]
pub fn rust_client_source(app: &AppDefinition, config: &DocsBundleConfig) -> (source: String)
    ensures
        source@ == client_source(config.base_url@, descriptors_view(app.spec_operations())),
{
    let operations = app.operations();
    let ghost views = descriptors_view(operations@);
    let head: Vec<Blank> = vec![Blank { name: "base_url", text: config.base_url.clone() }];
    assert(blanks_view(head@) =~= seq![("base_url"@, config.base_url@)]);
    let mut output = fill(CLIENT, &head);
    let ghost start = output@;
    let mut index: usize = 0;
    while index < operations.len()
        invariant
            index <= operations@.len(),
            views == descriptors_view(operations@),
            output@ == with_calls(start, views, index as int),
        decreases operations@.len() - index,
    {
        let operation = &operations[index];
        assert(views[index as int] == operation@);
        let id = operation.contract.id.as_str();
        let blanks: Vec<Blank> = vec![
            Blank { name: "id", text: id.to_owned() },
            Blank { name: "function", text: rust_identifier(id) },
            Blank { name: "method", text: operation.http.method.as_str().to_owned() },
        ];
        assert(blanks_view(blanks@) =~= seq![
            ("id"@, operation@.contract.id),
            ("function"@, function_name(operation@.contract.id)),
            ("method"@, method_name(operation@.method)),
        ]);
        output.append(fill(CLIENT_CALL, &blanks).as_str());
        index += 1;
    }
    output.append("}\n");
    output
}

/// The files of a documentation bundle, by their paths.
pub open spec fn bundle_files(
    operations: Seq<DescriptorView>,
    config: DocsBundleConfig,
    contracts: Seq<char>,
) -> Map<Seq<char>, Seq<char>> {
    Map::empty().insert("api.md"@, api_document(operations)).insert(
        "ai.md"@,
        agent_document(config.title@, operations),
    ).insert("contracts.json"@, contracts).insert(
        "examples/http.md"@,
        with_http_examples(
            "# HTTP examples\n\n"@,
            operations,
            config.base_url@,
            operations.len() as int,
        ),
    ).insert(
        "examples/mcp.md"@,
        with_mcp_examples(
            "# MCP examples\n\nStreamable HTTP endpoint: `"@ + config.mcp_endpoint@ + "`\n\n"@,
            operations,
            operations.len() as int,
        ),
    ).insert("clients/rust.rs"@, client_source(config.base_url@, operations))
}

/// Builds a deterministic API/AI/client bundle from one operation graph and the
/// manifest of its contracts, which may have failed to be encoded.
pub fn bundle<E>(
    app: &AppDefinition,
    config: &DocsBundleConfig,
    contracts: Result<String, E>,
) -> (bundle: Result<DocsBundle, E>)
    ensures
        match contracts {
            Ok(contracts) => bundle matches Ok(bundle) && bundle@ == bundle_files(
                descriptors_view(app.spec_operations()),
                *config,
                contracts@,
            ),
            Err(error) => bundle == Err::<DocsBundle, E>(error),
        },
{
    let contracts = match contracts {
        Ok(contracts) => contracts,
        Err(error) => {
            return Err(error);
        },
    };
    let files = GeneratedFiles::new().with("api.md", api_markdown(app)).with(
        "ai.md",
        ai_markdown(app, config),
    ).with("contracts.json", contracts).with("examples/http.md", http_examples(app, config)).with(
        "examples/mcp.md",
        mcp_examples(app, config),
    ).with("clients/rust.rs", rust_client_source(app, config));
    Ok(DocsBundle { files })
}

/// The files of a project scaffold, by their paths.
pub open spec fn scaffold_of(config: ScaffoldConfig) -> Map<Seq<char>, Seq<char>> {
    let project = Map::empty().insert(
        "Cargo.toml"@,
        filled(
            MANIFEST@,
            seq![
                ("package_name"@, config.package_name@),
                ("dependency"@, config.blazingly_dependency@),
            ],
        ),
    ).insert("src/main.rs"@, filled(PROGRAM@, seq![("address"@, config.listen_address@)]));
    match config.kubernetes {
        Some(kubernetes) => project.union_prefer_right(
            deployment_files(config.package_name@, kubernetes),
        ),
        None => project,
    }
}

/// Generates a native project and optional Kubernetes deployment.
#[must_use]
pub fn scaffold(config: &ScaffoldConfig) -> (bundle: DocsBundle)
    ensures
        bundle@ == scaffold_of(*config),
{
    let manifest: Vec<Blank> = vec![
        Blank { name: "package_name", text: config.package_name.clone() },
        Blank { name: "dependency", text: config.blazingly_dependency.clone() },
    ];
    assert(blanks_view(manifest@) =~= seq![
        ("package_name"@, config.package_name@),
        ("dependency"@, config.blazingly_dependency@),
    ]);
    let program: Vec<Blank> = vec![Blank { name: "address", text: config.listen_address.clone() }];
    assert(blanks_view(program@) =~= seq![("address"@, config.listen_address@)]);
    let files = GeneratedFiles::new().with("Cargo.toml", fill(MANIFEST, &manifest)).with(
        "src/main.rs",
        fill(PROGRAM, &program),
    );
    let files = match &config.kubernetes {
        Some(kubernetes) => with_scaffold_files(files, config.package_name.as_str(), kubernetes),
        None => files,
    };
    DocsBundle { files }
}

// ---------------------------------------------------------------------------
// What examples are examples of
// ---------------------------------------------------------------------------

/// A value has the shape of a kind.
pub open spec fn has_shape(value: JsonView, kind: SchemaKind) -> bool
    decreases kind,
{
    match kind {
        SchemaKind::String | SchemaKind::Binary => value is Text,
        SchemaKind::Integer => value matches JsonView::Number(number) && !(number is Decimal),
        SchemaKind::Number => value is Number,
        SchemaKind::Boolean => value is Bool,
        SchemaKind::Array(item) => value matches JsonView::List(items) && forall|i: int|
            0 <= i < items.len() ==> has_shape(#[trigger] items[i], *item),
        SchemaKind::Object => value is Object,
        SchemaKind::Any => true,
    }
}

/// The example of a kind has the shape of that kind, and that of a list is not
/// empty.
pub proof fn law_examples_have_their_shape(kind: SchemaKind)
    ensures
        has_shape(shape_example(kind), kind),
        kind is Array ==> shape_example(kind)->List_0.len() > 0,
    decreases kind,
{
    match kind {
        SchemaKind::Array(item) => {
            law_examples_have_their_shape(*item);
            let items = seq![shape_example(*item)];
            assert(shape_example(kind) == JsonView::List(items));
            assert forall|i: int| 0 <= i < items.len() implies has_shape(
                #[trigger] items[i],
                *item,
            ) by {
                assert(items[i] == shape_example(*item));
            }
        },
        _ => {},
    }
}

/// The example of a model gives a value to each of its fields and to nothing else:
/// the default that the field declares, else the first value that it allows, else
/// an example of its type.
pub proof fn law_model_examples_give_every_field(model: ModelView, name: Seq<char>, at: int)
    requires
        0 <= at < model.fields.len(),
        forall|i: int|
            at < i < model.fields.len() ==> (#[trigger] model.fields[i]).name
                != model.fields[at].name,
    ensures
        ({
            let given = model_example(model, model.fields.len() as int);
            let field = model.fields[at];
            &&& given.contains_key(name) <==> exists|i: int|
                0 <= i < model.fields.len() && (#[trigger] model.fields[i]).name == name
            &&& given.contains_key(field.name)
            &&& first_default(field.validation, 0) matches Some(value) ==> given[field.name]
                == value
            &&& first_default(field.validation, 0) is None ==> (match first_choice(
                field.validation,
                0,
            ) {
                Some(choice) => given[field.name] == JsonView::Text(choice),
                None => given[field.name] == type_example(field.ty),
            })
        }),
{
    lemma_model_example(model, model.fields.len() as int, name, at);
}

proof fn lemma_model_example(model: ModelView, count: int, name: Seq<char>, at: int)
    requires
        0 <= count <= model.fields.len(),
        0 <= at < model.fields.len(),
        forall|i: int|
            at < i < model.fields.len() ==> (#[trigger] model.fields[i]).name
                != model.fields[at].name,
    ensures
        model_example(model, count).contains_key(name) <==> exists|i: int|
            0 <= i < count && (#[trigger] model.fields[i]).name == name,
        at < count ==> model_example(model, count).contains_key(model.fields[at].name)
            && model_example(model, count)[model.fields[at].name] == field_example(
            model.fields[at],
        ),
    decreases count,
{
    if count > 0 {
        lemma_model_example(model, count - 1, name, at);
        if at < count - 1 {
            assert(model.fields[count - 1].name != model.fields[at].name);
        }
    }
}

/// A declared default is the value of a rule that declares one, and the first such
/// rule counts; a declared choice is the first value of the first enumeration that
/// has any.
pub proof fn law_declared_defaults_are_found(rules: Seq<RuleView>, from: int)
    requires
        0 <= from <= rules.len(),
    ensures
        match first_default(rules, from) {
            Some(value) => exists|i: int|
                from <= i < rules.len() && rule_metadata(#[trigger] rules[i]) == Some(
                    MetadataView::Default(value),
                ) && forall|j: int|
                    from <= j < i ==> !(rule_metadata(#[trigger] rules[j]) matches Some(
                        MetadataView::Default(_),
                    )),
            None => forall|j: int|
                from <= j < rules.len() ==> !(rule_metadata(#[trigger] rules[j]) matches Some(
                    MetadataView::Default(_),
                )),
        },
    decreases rules.len() - from,
{
    if from < rules.len() {
        match rule_metadata(rules[from]) {
            Some(MetadataView::Default(value)) => {
                assert(rule_metadata(rules[from]) == Some(MetadataView::Default(value)));
            },
            _ => {
                law_declared_defaults_are_found(rules, from + 1);
                match first_default(rules, from + 1) {
                    Some(value) => {
                        let i = choose|i: int|
                            from + 1 <= i < rules.len() && rule_metadata(#[trigger] rules[i])
                                == Some(MetadataView::Default(value)) && forall|j: int|
                                from + 1 <= j < i ==> !(rule_metadata(
                                    #[trigger] rules[j],
                                ) matches Some(MetadataView::Default(_)));
                        assert(rule_metadata(rules[i]) == Some(MetadataView::Default(value)));
                    },
                    None => {},
                }
            },
        }
    }
}

/// The example arguments of an operation give every input that is no model under
/// its name, and every field of the models.
pub proof fn law_argument_examples_give_every_input(inputs: Seq<InputView>, at: int)
    requires
        0 <= at < inputs.len(),
    ensures
        ({
            let given = arguments_example(inputs, inputs.len() as int);
            match inputs[at].ty.model {
                Some(model) => forall|i: int|
                    0 <= i < model.fields.len() ==> given.contains_key(
                        (#[trigger] model.fields[i]).name,
                    ),
                None => given.contains_key(inputs[at].name),
            }
        }),
{
    lemma_arguments_example(inputs, inputs.len() as int, at);
}

proof fn lemma_arguments_example(inputs: Seq<InputView>, count: int, at: int)
    requires
        0 <= at < count <= inputs.len(),
    ensures
        ({
            let given = arguments_example(inputs, count);
            match inputs[at].ty.model {
                Some(model) => forall|i: int|
                    0 <= i < model.fields.len() ==> given.contains_key(
                        (#[trigger] model.fields[i]).name,
                    ),
                None => given.contains_key(inputs[at].name),
            }
        }),
    decreases count,
{
    if at < count - 1 {
        lemma_arguments_example(inputs, count - 1, at);
    } else {
        match inputs[at].ty.model {
            Some(model) => {
                assert forall|i: int| 0 <= i < model.fields.len() implies arguments_example(
                    inputs,
                    count,
                ).contains_key((#[trigger] model.fields[i]).name) by {
                    lemma_model_keys(*model, model.fields.len() as int, i);
                }
            },
            None => {},
        }
    }
}

proof fn lemma_model_keys(model: ModelView, count: int, at: int)
    requires
        0 <= at < count <= model.fields.len(),
    ensures
        model_example(model, count).contains_key(model.fields[at].name),
    decreases count,
{
    if at < count - 1 {
        lemma_model_keys(model, count - 1, at);
    }
}

/// An example body is labelled with a media type that the service admits for its
/// source.
pub proof fn law_example_bodies_are_admitted(
    source: InputSource,
    length: nat,
    max_body_bytes: usize,
)
    requires
        media_type(source) is Some,
        length <= max_body_bytes,
    ensures
        crate::response::body_refused(length, media_type(source), max_body_bytes, source) is None,
        source == InputSource::Json || source == InputSource::Form || source
            == InputSource::Multipart || source == InputSource::File || source
            == InputSource::Stream,
{
    let media = media_type(source)->Some_0;
    reveal_strlit("application/json");
    reveal_strlit("application/x-www-form-urlencoded");
    reveal_strlit("multipart/form-data");
    reveal_strlit("application/octet-stream");
    if source != InputSource::Stream {
        assert forall|i: int| 0 <= i < media.len() implies #[trigger] media[i] != ';' by {}
        assert(crate::response::media_type_ends(media, media.len() as int));
        crate::response::law_bodies_are_admitted_by_media_type(
            length,
            media,
            media.len() as int,
            max_body_bytes,
        );
        assert(media.take(media.len() as int) =~= media);
        assert(crate::text::trim_start_spec(media) == media);
        assert(crate::text::trim_end_spec(media) == media);
        assert(crate::text::lower_all(media) =~= media);
    }
}

/// The example of a tool call names the tool and its arguments, and says that it
/// was confirmed if and only if the operation asks for a confirmation.
pub proof fn law_tool_calls_are_confirmed_where_asked(operation: DescriptorView, name: Seq<char>)
    ensures
        ({
            let call = members(tool_call(operation, name));
            let params = members(call["params"@]);
            let inputs = operation.contract.inputs;
            &&& call["method"@] == JsonView::Text("tools/call"@)
            &&& params["name"@] == JsonView::Text(name)
            &&& params["arguments"@] == JsonView::Object(
                arguments_example(inputs, inputs.len() as int),
            )
            &&& params.contains_key("_meta"@) <==> operation.contract.agent.confirmation
                == Confirmation::Required
            &&& params.contains_key("_meta"@) ==> members(
                params["_meta"@],
            )["dev.blazingly/confirmed"@] == JsonView::Bool(true)
        }),
{
    reveal_strlit("jsonrpc");
    reveal_strlit("id");
    reveal_strlit("method");
    reveal_strlit("params");
    reveal_strlit("name");
    reveal_strlit("arguments");
    reveal_strlit("_meta");
    assert("jsonrpc"@.len() == 7 && "id"@.len() == 2);
    assert("method"@[0] == 'm' && "params"@[0] == 'p');
    assert("name"@[0] == 'n' && "arguments"@[0] == 'a' && "_meta"@[0] == '_');
}

/// The name of a generated function is an identifier of the same length as the
/// operation id, with an underscore for every character that no identifier holds.
pub proof fn law_function_names_are_identifiers(id: Seq<char>)
    ensures
        function_name(id).len() == id.len(),
        forall|i: int|
            0 <= i < id.len() ==> {
                let c = #[trigger] function_name(id)[i];
                let plain = 'a' <= id[i] <= 'z' || 'A' <= id[i] <= 'Z' || '0' <= id[i] <= '9'
                    || id[i] == '_';
                if plain {
                    c == id[i]
                } else {
                    c == '_'
                }
            },
{
}

/// A placeholder at the start of a text is replaced, and what follows it is
/// searched on; a text that does not start with one keeps its first character.
pub proof fn law_patterns_are_replaced(
    text: Seq<char>,
    pattern: Seq<char>,
    with: Seq<char>,
    first: char,
)
    requires
        pattern.len() > 0,
    ensures
        replaced(pattern + text, pattern, with) == with + replaced(text, pattern, with),
        first != pattern[0] ==> replaced(seq![first] + text, pattern, with) == seq![first]
            + replaced(text, pattern, with),
{
    let start = pattern + text;
    assert(start.take(pattern.len() as int) =~= pattern);
    assert(start.skip(pattern.len() as int) =~= text);
    let other = seq![first] + text;
    if first != pattern[0] {
        if other.len() >= pattern.len() {
            assert(other.take(pattern.len() as int)[0] == first);
            assert(other.skip(1) =~= text);
        } else {
            assert(text.len() < pattern.len());
        }
    }
}

/// A documentation bundle is made of six files, each with the document that its
/// name stands for.
pub proof fn law_bundles_hold_their_documents(
    operations: Seq<DescriptorView>,
    config: DocsBundleConfig,
    contracts: Seq<char>,
)
    ensures
        ({
            let files = bundle_files(operations, config, contracts);
            &&& files.dom() == set![
                "api.md"@,
                "ai.md"@,
                "contracts.json"@,
                "examples/http.md"@,
                "examples/mcp.md"@,
                "clients/rust.rs"@,
            ]
            &&& files["api.md"@] == api_document(operations)
            &&& files["contracts.json"@] == contracts
            &&& files["ai.md"@] == agent_document(config.title@, operations)
            &&& files["clients/rust.rs"@] == client_source(config.base_url@, operations)
        }),
{
    reveal_strlit("api.md");
    reveal_strlit("ai.md");
    reveal_strlit("contracts.json");
    reveal_strlit("examples/http.md");
    reveal_strlit("examples/mcp.md");
    reveal_strlit("clients/rust.rs");
    assert("api.md"@.len() == 6);
    assert("ai.md"@.len() == 5);
    assert("contracts.json"@.len() == 14);
    assert("examples/http.md"@.len() == 16);
    assert("examples/mcp.md"@.len() == 15 && "examples/mcp.md"@[0] == 'e');
    assert("clients/rust.rs"@.len() == 15 && "clients/rust.rs"@[0] == 'c');
    assert(bundle_files(operations, config, contracts).dom() =~= set![
        "api.md"@,
        "ai.md"@,
        "contracts.json"@,
        "examples/http.md"@,
        "examples/mcp.md"@,
        "clients/rust.rs"@,
    ]);
}

/// A project has a manifest and a program. It has the files of a deployment, under
/// the name of its package, if and only if one was configured.
pub proof fn law_projects_are_deployed_where_configured(config: ScaffoldConfig, path: Seq<char>)
    ensures
        scaffold_of(config).contains_key("Cargo.toml"@),
        scaffold_of(config).contains_key("src/main.rs"@),
        config.kubernetes is None && scaffold_of(config).contains_key(path) ==> path
            == "Cargo.toml"@ || path == "src/main.rs"@,
        config.kubernetes matches Some(kubernetes) ==> {
            let files = deployment_files(config.package_name@, kubernetes);
            files.contains_key(path) ==> scaffold_of(config).contains_key(path)
                && scaffold_of(config)[path] == files[path]
        },
{
}

/// The policy of an operation as agents read it.
pub open spec fn policy_line(agent: AgentPolicy) -> Seq<char> {
    "- Agent policy: risk `"@ + (match agent.risk {
        OperationRisk::Read => "Read"@,
        OperationRisk::Write => "Write"@,
        OperationRisk::Destructive => "Destructive"@,
    }) + "`, confirmation `"@ + (if agent.confirmation is Required {
        "Required"@
    } else {
        "Never"@
    }) + "`, idempotent `"@ + (if agent.idempotent {
        "true"@
    } else {
        "false"@
    }) + "`\n"@
}

/// An input as agents read it.
pub open spec fn agent_input_line(input: InputView) -> Seq<char> {
    "- Input `"@ + input.name + "` from "@ + source_title(input.source) + ": `"@
        + input.ty.rust_name + "` ("@ + (if input.required {
        "required"@
    } else {
        "optional"@
    }) + ")\n"@
}

/// A response as agents read it: a declared error can be corrected, anything else
/// is a success.
pub open spec fn agent_response_line(response: ResponseView) -> Seq<char> {
    match response.error_code {
        Some(code) => "- Correctable error `"@ + code + "` / HTTP "@ + decimal(
            response.status as nat,
        ) + ": "@ + (match response.error_message {
            Some(message) => message,
            None => Seq::empty(),
        }) + "\n"@,
        None => "- Success HTTP "@ + decimal(response.status as nat) + ": `"@ + (
        match response.body {
            Some(body) => body.rust_name,
            None => "empty"@,
        }) + "`\n"@,
    }
}

proof fn lemma_nothing_goes_on(out: Seq<char>)
    ensures
        goes_on(out, out),
{
    lemma_sum_goes_on(out, Seq::empty());
    assert(out + Seq::<char>::empty() =~= out);
}

proof fn lemma_agent_inputs_go_on(out: Seq<char>, inputs: Seq<InputView>, count: int, k: int)
    ensures
        goes_on(out, with_agent_inputs(out, inputs, count)),
        0 <= k < count ==> holds(
            with_agent_inputs(out, inputs, count),
            agent_input_line(inputs[k]),
        ),
    decreases count,
{
    if count <= 0 {
        lemma_nothing_goes_on(out);
    } else {
        let before = with_agent_inputs(out, inputs, count - 1);
        let line = agent_input_line(inputs[count - 1]);
        lemma_agent_inputs_go_on(out, inputs, count - 1, k);
        assert(with_agent_inputs(out, inputs, count) =~= before + line);
        lemma_sum_goes_on(before, line);
        lemma_held_between(before, line, Seq::empty());
        lemma_goes_further(out, before, before + line);
        if 0 <= k < count - 1 {
            lemma_still_held(before, before + line, agent_input_line(inputs[k]));
        }
    }
}

proof fn lemma_agent_response_told(out: Seq<char>, response: ResponseView)
    ensures
        with_agent_response(out, response) == out + agent_response_line(response),
{
    match response.error_code {
        Some(code) => {
            assert(with_agent_response(out, response) =~= out + agent_response_line(response));
        },
        None => {
            assert(with_agent_response(out, response) =~= out + agent_response_line(response));
        },
    }
}

proof fn lemma_agent_responses_go_on(out: Seq<char>, list: Seq<ResponseView>, count: int, k: int)
    ensures
        goes_on(out, with_agent_responses(out, list, count)),
        0 <= k < count ==> holds(
            with_agent_responses(out, list, count),
            agent_response_line(list[k]),
        ),
    decreases count,
{
    if count <= 0 {
        lemma_nothing_goes_on(out);
    } else {
        let before = with_agent_responses(out, list, count - 1);
        let line = agent_response_line(list[count - 1]);
        lemma_agent_responses_go_on(out, list, count - 1, k);
        lemma_agent_response_told(before, list[count - 1]);
        lemma_sum_goes_on(before, line);
        lemma_held_between(before, line, Seq::empty());
        lemma_goes_further(out, before, before + line);
        if 0 <= k < count - 1 {
            lemma_still_held(before, before + line, agent_response_line(list[k]));
        }
    }
}

proof fn lemma_agent_tool_goes_on(out: Seq<char>, operation: DescriptorView)
    ensures
        goes_on(out, with_agent_tool(out, operation)),
        match operation.contract.mcp {
            Some(tool) => holds(
                with_agent_tool(out, operation),
                "- MCP: `"@ + tool.name + "`; output exposure `"@ + (match tool.expose_output {
                    OutputExposure::Full => "Full"@,
                    OutputExposure::SummaryOnly => "SummaryOnly"@,
                    OutputExposure::Hidden => "None"@,
                }) + "`\n"@,
            ),
            None => holds(with_agent_tool(out, operation), "- MCP: not exposed\n"@),
        },
{
    let inputs = operation.contract.inputs;
    match operation.contract.mcp {
        Some(tool) => {
            let line = "- MCP: `"@ + tool.name + "`; output exposure `"@ + exposure_word(
                tool.expose_output,
            ) + "`\n"@;
            let more = "- Example arguments: `"@ + shown(
                JsonView::Object(arguments_example(inputs, inputs.len() as int)),
            ) + "`\n"@;
            assert(with_agent_tool(out, operation) =~= out + line + more);
            assert(out + line + more =~= out + (line + more));
            lemma_sum_goes_on(out, line + more);
            lemma_held_between(out, line, more);
        },
        None => {
            lemma_sum_goes_on(out, "- MCP: not exposed\n"@);
            lemma_held_between(out, "- MCP: not exposed\n"@, Seq::empty());
        },
    }
}

/// Agents are told of an operation what they need to call it: its identifier, its
/// binding, its policy, its tool or that it has none, its inputs and its responses.
pub proof fn law_agents_are_told_what_they_need(
    out: Seq<char>,
    operation: DescriptorView,
    k: int,
)
    ensures
        ({
            let contract = operation.contract;
            let text = with_agent_section(out, operation);
            &&& holds(text, "## `"@ + contract.id + "`\n\n"@ + contract.summary + "\n\n"@)
            &&& holds(
                text,
                "- HTTP: `"@ + method_name(operation.method) + " "@ + operation.path + "`\n"@,
            )
            &&& holds(text, policy_line(contract.agent))
            &&& match contract.mcp {
                Some(tool) => holds(
                    text,
                    "- MCP: `"@ + tool.name + "`; output exposure `"@ + (
                    match tool.expose_output {
                        OutputExposure::Full => "Full"@,
                        OutputExposure::SummaryOnly => "SummaryOnly"@,
                        OutputExposure::Hidden => "None"@,
                    }) + "`\n"@,
                ),
                None => holds(text, "- MCP: not exposed\n"@),
            }
            &&& 0 <= k < contract.inputs.len() ==> holds(text, agent_input_line(contract.inputs[k]))
            &&& 0 <= k < contract.responses.len() ==> holds(
                text,
                agent_response_line(contract.responses[k]),
            )
        }),
        goes_on(out, with_agent_section(out, operation)),
{
    let contract = operation.contract;
    let text = with_agent_section(out, operation);
    let title = "## `"@ + contract.id + "`\n\n"@ + contract.summary + "\n\n"@;
    let titled = out + "## `"@ + contract.id + "`\n\n"@ + contract.summary + "\n\n"@;
    let described = with_description(titled, description_of(operation));
    let binding = "- HTTP: `"@ + method_name(operation.method) + " "@ + operation.path + "`\n"@;
    let bound = described + "- HTTP: `"@ + method_name(operation.method) + " "@ + operation.path
        + "`\n"@;
    let ruled = bound + "- Agent policy: risk `"@ + risk_word(contract.agent.risk)
        + "`, confirmation `"@ + confirmation_word(contract.agent.confirmation)
        + "`, idempotent `"@ + flag_word(contract.agent.idempotent) + "`\n"@;
    let exposed = with_agent_tool(ruled, operation);
    let fed = with_agent_inputs(exposed, contract.inputs, contract.inputs.len() as int);
    let answered = with_agent_responses(fed, contract.responses, contract.responses.len() as int);
    assert(titled =~= out + title);
    lemma_sum_goes_on(out, title);
    lemma_held_between(out, title, Seq::empty());
    lemma_description_goes_on(titled, description_of(operation));
    assert(bound =~= described + binding);
    lemma_sum_goes_on(described, binding);
    lemma_held_between(described, binding, Seq::empty());
    assert(ruled =~= bound + policy_line(contract.agent));
    lemma_sum_goes_on(bound, policy_line(contract.agent));
    lemma_held_between(bound, policy_line(contract.agent), Seq::empty());
    lemma_agent_tool_goes_on(ruled, operation);
    lemma_agent_inputs_go_on(exposed, contract.inputs, contract.inputs.len() as int, k);
    lemma_agent_responses_go_on(fed, contract.responses, contract.responses.len() as int, k);
    lemma_sum_goes_on(answered, "\n"@);
    lemma_goes_further(fed, answered, text);
    lemma_goes_further(exposed, fed, text);
    lemma_goes_further(ruled, exposed, text);
    lemma_goes_further(bound, ruled, text);
    lemma_goes_further(described, bound, text);
    lemma_goes_further(titled, described, text);
    lemma_goes_further(out, titled, text);
    lemma_still_held(titled, text, title);
    lemma_still_held(bound, text, binding);
    lemma_still_held(ruled, text, policy_line(contract.agent));
    match contract.mcp {
        Some(tool) => {
            lemma_still_held(
                exposed,
                text,
                "- MCP: `"@ + tool.name + "`; output exposure `"@ + (match tool.expose_output {
                    OutputExposure::Full => "Full"@,
                    OutputExposure::SummaryOnly => "SummaryOnly"@,
                    OutputExposure::Hidden => "None"@,
                }) + "`\n"@,
            );
        },
        None => {
            lemma_still_held(exposed, text, "- MCP: not exposed\n"@);
        },
    }
    if 0 <= k < contract.inputs.len() {
        lemma_still_held(fed, text, agent_input_line(contract.inputs[k]));
    }
    if 0 <= k < contract.responses.len() {
        lemma_still_held(answered, text, agent_response_line(contract.responses[k]));
    }
}

/// Agents are told of every operation.
pub proof fn law_agents_are_told_of_every_operation(
    out: Seq<char>,
    operations: Seq<DescriptorView>,
    count: int,
    i: int,
)
    requires
        0 <= i < count <= operations.len(),
    ensures
        holds(
            with_agent_sections(out, operations, count),
            "## `"@ + operations[i].contract.id + "`\n\n"@ + operations[i].contract.summary
                + "\n\n"@,
        ),
        holds(
            with_agent_sections(out, operations, count),
            policy_line(operations[i].contract.agent),
        ),
    decreases count,
{
    let before = with_agent_sections(out, operations, count - 1);
    let after = with_agent_sections(out, operations, count);
    law_agents_are_told_what_they_need(before, operations[count - 1], 0);
    if i < count - 1 {
        law_agents_are_told_of_every_operation(out, operations, count - 1, i);
        lemma_still_held(
            before,
            after,
            "## `"@ + operations[i].contract.id + "`\n\n"@ + operations[i].contract.summary
                + "\n\n"@,
        );
        lemma_still_held(before, after, policy_line(operations[i].contract.agent));
    }
}

proof fn lemma_header_options_go_on(
    out: Seq<char>,
    names: Seq<Seq<char>>,
    arguments: Map<Seq<char>, JsonView>,
    count: int,
    k: int,
)
    ensures
        goes_on(out, with_header_options(out, names, arguments, count)),
        0 <= k < count ==> holds(
            with_header_options(out, names, arguments, count),
            " \\\n  -H '"@ + dashed(names[k]) + ": "@ + argument_text(arguments, names[k]) + "'"@,
        ),
    decreases count,
{
    if count <= 0 {
        lemma_nothing_goes_on(out);
    } else {
        let before = with_header_options(out, names, arguments, count - 1);
        let line = " \\\n  -H '"@ + dashed(names[count - 1]) + ": "@ + argument_text(
            arguments,
            names[count - 1],
        ) + "'"@;
        lemma_header_options_go_on(out, names, arguments, count - 1, k);
        assert(with_header_options(out, names, arguments, count) =~= before + line);
        lemma_sum_goes_on(before, line);
        lemma_held_between(before, line, Seq::empty());
        lemma_goes_further(out, before, before + line);
        if 0 <= k < count - 1 {
            lemma_still_held(
                before,
                before + line,
                " \\\n  -H '"@ + dashed(names[k]) + ": "@ + argument_text(arguments, names[k])
                    + "'"@,
            );
        }
    }
}

proof fn lemma_header_inputs_go_on(
    out: Seq<char>,
    inputs: Seq<InputView>,
    arguments: Map<Seq<char>, JsonView>,
    count: int,
    k: int,
)
    requires
        count <= inputs.len(),
    ensures
        goes_on(out, with_header_inputs(out, inputs, arguments, count)),
        0 <= k < count && inputs[k].source is Header && inputs[k].ty.model is None ==> holds(
            with_header_inputs(out, inputs, arguments, count),
            " \\\n  -H '"@ + dashed(inputs[k].name) + ": "@ + argument_text(
                arguments,
                inputs[k].name,
            ) + "'"@,
        ),
        (forall|j: int| 0 <= j < count ==> !((#[trigger] inputs[j]).source is Header))
            ==> with_header_inputs(out, inputs, arguments, count) == out,
    decreases count,
{
    if count <= 0 {
        lemma_nothing_goes_on(out);
    } else {
        let before = with_header_inputs(out, inputs, arguments, count - 1);
        let after = with_header_inputs(out, inputs, arguments, count);
        let input = inputs[count - 1];
        let names = names_given(input);
        lemma_header_inputs_go_on(out, inputs, arguments, count - 1, k);
        lemma_nothing_goes_on(before);
        if input.source == InputSource::Header {
            lemma_header_options_go_on(before, names, arguments, names.len() as int, 0);
        }
        lemma_goes_further(out, before, after);
        if 0 <= k < count - 1 && inputs[k].source is Header && inputs[k].ty.model is None {
            lemma_still_held(
                before,
                after,
                " \\\n  -H '"@ + dashed(inputs[k].name) + ": "@ + argument_text(
                    arguments,
                    inputs[k].name,
                ) + "'"@,
            );
        }
    }
}

/// Names are written with dashes in place of underscores, and otherwise as they are.
pub proof fn law_names_are_dashed(name: Seq<char>, i: int)
    requires
        0 <= i < name.len(),
    ensures
        dashed(name).len() == name.len(),
        dashed(name)[i] == if name[i] == '_' {
            '-'
        } else {
            name[i]
        },
{
}

/// A base address is kept up to the slashes at its end.
pub proof fn law_end_slashes_are_left_out(text: Seq<char>)
    ensures
        ({
            let kept = without_end_slashes(text);
            &&& kept.len() <= text.len()
            &&& kept == text.take(kept.len() as int)
            &&& kept.len() > 0 ==> kept.last() != '/'
            &&& forall|i: int| kept.len() <= i < text.len() ==> #[trigger] text[i] == '/'
        }),
    decreases text.len(),
{
    if text.len() > 0 && text.last() == '/' {
        let shorter = text.drop_last();
        law_end_slashes_are_left_out(shorter);
        let kept = without_end_slashes(text);
        assert(kept =~= text.take(kept.len() as int));
        assert forall|i: int| kept.len() <= i < text.len() implies #[trigger] text[i] == '/' by {
            if i < shorter.len() {
                assert(shorter[i] == text[i]);
            }
        }
    } else {
        assert(text.take(text.len() as int) =~= text);
    }
}

/// The example of an operation calls its method at its address, gives every plain
/// header input as a header, and sends the first input that makes up a body under
/// its media type, with an example of its type.
pub proof fn law_examples_call_the_operation(
    out: Seq<char>,
    operation: DescriptorView,
    base_url: Seq<char>,
    k: int,
)
    ensures
        ({
            let inputs = operation.contract.inputs;
            let arguments = arguments_example(inputs, inputs.len() as int);
            let text = with_http_example(out, operation, base_url);
            &&& holds(
                text,
                "## `"@ + operation.contract.id + "`\n\n"@ + "```bash\ncurl -X "@ + method_name(
                    operation.method,
                ) + " '"@ + without_end_slashes(base_url) + example_path(
                    operation.path,
                    inputs,
                    arguments,
                    inputs.len() as int,
                ) + "'"@,
            )
            &&& 0 <= k < inputs.len() && inputs[k].source is Header && inputs[k].ty.model is None
                ==> holds(
                text,
                " \\\n  -H '"@ + dashed(inputs[k].name) + ": "@ + argument_text(
                    arguments,
                    inputs[k].name,
                ) + "'"@,
            )
            &&& 0 <= k < inputs.len() && inputs[k].source is Json && (forall|j: int|
                0 <= j < k ==> media_type((#[trigger] inputs[j]).source) is None) ==> holds(
                text,
                " \\\n  -H 'content-type: "@ + "application/json"@ + "' \\\n  --data '"@ + shown(
                    type_example(inputs[k].ty),
                ) + "'"@,
            )
            &&& 0 <= k < inputs.len() && inputs[k].source is Form && (forall|j: int|
                0 <= j < k ==> media_type((#[trigger] inputs[j]).source) is None) ==> holds(
                text,
                " \\\n  -H 'content-type: "@ + "application/x-www-form-urlencoded"@
                    + "' \\\n  --data '"@ + shown(type_example(inputs[k].ty)) + "'"@,
            )
        }),
        goes_on(out, with_http_example(out, operation, base_url)),
{
    let inputs = operation.contract.inputs;
    let arguments = arguments_example(inputs, inputs.len() as int);
    let path = example_path(operation.path, inputs, arguments, inputs.len() as int);
    let text = with_http_example(out, operation, base_url);
    let call = "## `"@ + operation.contract.id + "`\n\n"@ + "```bash\ncurl -X "@ + method_name(
        operation.method,
    ) + " '"@ + without_end_slashes(base_url) + path + "'"@;
    let called = out + "## `"@ + operation.contract.id + "`\n\n"@ + "```bash\ncurl -X "@
        + method_name(operation.method) + " '"@ + without_end_slashes(base_url) + path + "'"@;
    let headed = with_header_inputs(called, inputs, arguments, inputs.len() as int);
    let sent = with_body(headed, inputs, 0);
    assert(called =~= out + call);
    lemma_sum_goes_on(out, call);
    lemma_held_between(out, call, Seq::empty());
    lemma_header_inputs_go_on(called, inputs, arguments, inputs.len() as int, k);
    lemma_body_goes_on(headed, inputs, 0, k);
    lemma_sum_goes_on(sent, "\n```\n\n"@);
    lemma_goes_further(headed, sent, text);
    lemma_goes_further(called, headed, text);
    lemma_goes_further(out, called, text);
    lemma_still_held(called, text, call);
    if 0 <= k < inputs.len() && inputs[k].source is Header && inputs[k].ty.model is None {
        lemma_still_held(
            headed,
            text,
            " \\\n  -H '"@ + dashed(inputs[k].name) + ": "@ + argument_text(
                arguments,
                inputs[k].name,
            ) + "'"@,
        );
    }
    if 0 <= k < inputs.len() && (inputs[k].source is Json || inputs[k].source is Form) && (forall|
        j: int,
    |
        0 <= j < k ==> media_type((#[trigger] inputs[j]).source) is None) {
        lemma_still_held(
            sent,
            text,
            " \\\n  -H 'content-type: "@ + media_type(inputs[k].source)->Some_0
                + "' \\\n  --data '"@ + shown(type_example(inputs[k].ty)) + "'"@,
        );
    }
}

proof fn lemma_body_goes_on(out: Seq<char>, inputs: Seq<InputView>, at: int, k: int)
    requires
        0 <= at,
    ensures
        goes_on(out, with_body(out, inputs, at)),
        at <= k < inputs.len() && media_type(inputs[k].source) is Some && (forall|j: int|
            at <= j < k ==> media_type((#[trigger] inputs[j]).source) is None) ==> holds(
            with_body(out, inputs, at),
            " \\\n  -H 'content-type: "@ + media_type(inputs[k].source)->Some_0
                + "' \\\n  --data '"@ + shown(type_example(inputs[k].ty)) + "'"@,
        ),
    decreases inputs.len() - at,
{
    lemma_nothing_goes_on(out);
    if at < inputs.len() {
        match media_type(inputs[at].source) {
            Some(media) => {
                let line = " \\\n  -H 'content-type: "@ + media + "' \\\n  --data '"@ + shown(
                    type_example(inputs[at].ty),
                ) + "'"@;
                assert(with_body(out, inputs, at) =~= out + line);
                lemma_sum_goes_on(out, line);
                lemma_held_between(out, line, Seq::empty());
            },
            None => {
                lemma_body_goes_on(out, inputs, at + 1, k);
            },
        }
    }
}

/// Every tool has an example call, and nothing else has one.
pub proof fn law_every_tool_has_an_example(
    out: Seq<char>,
    operations: Seq<DescriptorView>,
    count: int,
    i: int,
)
    requires
        0 <= i < count <= operations.len(),
    ensures
        goes_on(out, with_mcp_examples(out, operations, count)),
        operations[i].contract.mcp matches Some(tool) ==> holds(
            with_mcp_examples(out, operations, count),
            "## `"@ + tool.name + "`\n\n```json\n"@ + shown_request(
                tool_call(operations[i], tool.name),
            ) + "\n```\n\n"@,
        ),
        (forall|j: int| 0 <= j < count ==> (#[trigger] operations[j]).contract.mcp is None)
            ==> with_mcp_examples(out, operations, count) == out,
    decreases count,
{
    let before = with_mcp_examples(out, operations, count - 1);
    let after = with_mcp_examples(out, operations, count);
    lemma_nothing_goes_on(out);
    lemma_nothing_goes_on(before);
    if count > 1 {
        law_every_tool_has_an_example(
            out,
            operations,
            count - 1,
            if i < count - 1 {
                i
            } else {
                0
            },
        );
    }
    if let Some(tool) = operations[count - 1].contract.mcp {
        let line = "## `"@ + tool.name + "`\n\n```json\n"@ + shown_request(
            tool_call(operations[count - 1], tool.name),
        ) + "\n```\n\n"@;
        assert(after =~= before + line);
        lemma_sum_goes_on(before, line);
        lemma_held_between(before, line, Seq::empty());
        lemma_goes_further(out, before, after);
    }
    if i < count - 1 {
        if let Some(own) = operations[i].contract.mcp {
            lemma_still_held(
                before,
                after,
                "## `"@ + own.name + "`\n\n```json\n"@ + shown_request(
                    tool_call(operations[i], own.name),
                ) + "\n```\n\n"@,
            );
        }
    }
}

} // verus!
