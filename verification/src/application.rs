//! HTTP bindings and the validated, deterministic application description.
use crate::compatibility::contains_text;
use crate::contract::{
    debug_notation, debug_text, field_view, is_identity, InvalidOperationId, OperationId,
    TypeDescriptor,
};
use crate::operation::{
    dependencies_view, fresh_contract, inputs_view, json_body, opt_text, opt_type, responses_view,
    security_view, texts, AgentPolicy, ContractView, DependencyDescriptor, InputDescriptor,
    InputSource, InputView, McpToolDescriptor, OperationContract, ResponseDescriptor,
    SecurityRequirement, SecuritySchemeDescriptor, SecuritySchemeKind, SecurityView,
};
use crate::order::{arrange, arranged, law_arrangement_is_unique, strictly_arranged, Ranked};
use crate::text::{
    char_lists, chars_of, eq_chars, eq_text, lemma_before_irreflexive, lemma_before_total,
    lemma_before_transitive, split_chars, split_spec, string_from, text_before, text_before_spec,
};
use vstd::prelude::*;
use vstd::string::*;

verus! {

// ---------------------------------------------------------------------------
// Methods and bindings
// ---------------------------------------------------------------------------

/// HTTP methods supported by the operation frontend.
#[derive(Clone, Copy, Debug, PartialEq, Eq, PartialOrd, Ord, Hash, Structural)]
pub enum HttpMethod {
    Get,
    Head,
    Post,
    Put,
    Patch,
    Delete,
    Options,
    Trace,
    Connect,
}

/// The name of a method on the wire.
pub open spec fn method_name(method: HttpMethod) -> Seq<char> {
    match method {
        HttpMethod::Get => "GET"@,
        HttpMethod::Head => "HEAD"@,
        HttpMethod::Post => "POST"@,
        HttpMethod::Put => "PUT"@,
        HttpMethod::Patch => "PATCH"@,
        HttpMethod::Delete => "DELETE"@,
        HttpMethod::Options => "OPTIONS"@,
        HttpMethod::Trace => "TRACE"@,
        HttpMethod::Connect => "CONNECT"@,
    }
}

/// The key of a method in an `OpenAPI` path item.
pub open spec fn openapi_key(method: HttpMethod) -> Seq<char> {
    match method {
        HttpMethod::Get => "get"@,
        HttpMethod::Head => "head"@,
        HttpMethod::Post => "post"@,
        HttpMethod::Put => "put"@,
        HttpMethod::Patch => "patch"@,
        HttpMethod::Delete => "delete"@,
        HttpMethod::Options => "options"@,
        HttpMethod::Trace => "trace"@,
        HttpMethod::Connect => "x-blazingly-connect"@,
    }
}

/// The position of a method in the order of methods.
pub open spec fn method_rank(method: HttpMethod) -> int {
    match method {
        HttpMethod::Get => 0,
        HttpMethod::Head => 1,
        HttpMethod::Post => 2,
        HttpMethod::Put => 3,
        HttpMethod::Patch => 4,
        HttpMethod::Delete => 5,
        HttpMethod::Options => 6,
        HttpMethod::Trace => 7,
        HttpMethod::Connect => 8,
    }
}

impl HttpMethod {
    #[must_use]
    pub fn as_str(self) -> (name: &'static str)
        ensures
            name@ == method_name(self),
    {
        match self {
            HttpMethod::Get => "GET",
            HttpMethod::Head => "HEAD",
            HttpMethod::Post => "POST",
            HttpMethod::Put => "PUT",
            HttpMethod::Patch => "PATCH",
            HttpMethod::Delete => "DELETE",
            HttpMethod::Options => "OPTIONS",
            HttpMethod::Trace => "TRACE",
            HttpMethod::Connect => "CONNECT",
        }
    }

    #[must_use]
    pub fn as_openapi_key(self) -> (key: &'static str)
        ensures
            key@ == openapi_key(self),
    {
        match self {
            HttpMethod::Get => "get",
            HttpMethod::Head => "head",
            HttpMethod::Post => "post",
            HttpMethod::Put => "put",
            HttpMethod::Patch => "patch",
            HttpMethod::Delete => "delete",
            HttpMethod::Options => "options",
            HttpMethod::Trace => "trace",
            HttpMethod::Connect => "x-blazingly-connect",
        }
    }

    /// The position of the method in the order of methods.
    #[must_use]
    pub fn rank(self) -> (rank: usize)
        ensures
            rank == method_rank(self),
            rank < 9,
    {
        match self {
            HttpMethod::Get => 0,
            HttpMethod::Head => 1,
            HttpMethod::Post => 2,
            HttpMethod::Put => 3,
            HttpMethod::Patch => 4,
            HttpMethod::Delete => 5,
            HttpMethod::Options => 6,
            HttpMethod::Trace => 7,
            HttpMethod::Connect => 8,
        }
    }
}

/// The HTTP projection of a protocol-neutral operation contract.
#[derive(Debug, PartialEq, Eq)]
pub struct HttpBinding {
    pub method: HttpMethod,
    pub path: String,
}

impl Clone for HttpBinding {
    fn clone(&self) -> (copy: Self)
        ensures
            copy.method == self.method,
            copy.path@ == self.path@,
    {
        HttpBinding { method: self.method, path: self.path.clone() }
    }
}

impl HttpBinding {
    #[must_use]
    pub fn new(method: HttpMethod, path: &str) -> (binding: Self)
        ensures
            binding.method == method,
            binding.path@ == path@,
    {
        HttpBinding { method, path: path.to_owned() }
    }
}

/// A link to documentation kept elsewhere.
#[derive(Debug, PartialEq, Eq)]
pub struct ExternalDocs {
    pub url: String,
    pub description: Option<String>,
}

/// What a link says.
pub struct LinkView {
    pub url: Seq<char>,
    pub description: Option<Seq<char>>,
}

impl View for ExternalDocs {
    type V = LinkView;

    open spec fn view(&self) -> LinkView {
        LinkView { url: self.url@, description: opt_text(self.description) }
    }
}

impl Clone for ExternalDocs {
    fn clone(&self) -> (copy: Self)
        ensures
            copy@ == self@,
    {
        ExternalDocs { url: self.url.clone(), description: self.description.clone() }
    }
}

/// Reader-facing metadata of an operation.
#[derive(Debug, PartialEq, Eq)]
pub struct OperationDocumentation {
    /// The long description, when one was declared.
    pub description: Option<String>,
    pub tags: Vec<String>,
    pub deprecated: bool,
    pub external_docs: Option<ExternalDocs>,
}

/// What the metadata of an operation says.
#[verifier::ext_equal]
pub struct DocumentationView {
    pub description: Option<Seq<char>>,
    pub tags: Seq<Seq<char>>,
    pub deprecated: bool,
    pub external_docs: Option<LinkView>,
}

impl View for OperationDocumentation {
    type V = DocumentationView;

    open spec fn view(&self) -> DocumentationView {
        DocumentationView {
            description: opt_text(self.description),
            tags: texts(self.tags@),
            deprecated: self.deprecated,
            external_docs: match self.external_docs {
                Some(docs) => Some(docs@),
                None => None,
            },
        }
    }
}

impl Clone for OperationDocumentation {
    fn clone(&self) -> (copy: Self)
        ensures
            copy@ == self@,
    {
        let copy = OperationDocumentation {
            description: self.description.clone(),
            tags: self.tags.clone(),
            deprecated: self.deprecated,
            external_docs: self.external_docs.clone(),
        };
        assert(copy@ =~= self@);
        copy
    }
}

impl Default for OperationDocumentation {
    fn default() -> (documentation: Self)
        ensures
            documentation.description is None,
            documentation.tags@.len() == 0,
            !documentation.deprecated,
            documentation.external_docs is None,
    {
        OperationDocumentation {
            description: None,
            tags: Vec::new(),
            deprecated: false,
            external_docs: None,
        }
    }
}

/// A protocol-neutral operation paired with its HTTP projection.
#[derive(Debug, PartialEq, Eq)]
pub struct OperationDescriptor {
    pub contract: OperationContract,
    pub http: HttpBinding,
    pub documentation: OperationDocumentation,
}

/// What an operation descriptor says.
pub struct DescriptorView {
    pub contract: ContractView,
    pub method: HttpMethod,
    pub path: Seq<char>,
    pub documentation: DocumentationView,
}

impl View for OperationDescriptor {
    type V = DescriptorView;

    open spec fn view(&self) -> DescriptorView {
        DescriptorView {
            contract: self.contract@,
            method: self.http.method,
            path: self.http.path@,
            documentation: self.documentation@,
        }
    }
}

/// What a list of operation descriptors says.
pub open spec fn descriptors_view(operations: Seq<OperationDescriptor>) -> Seq<DescriptorView> {
    operations.map_values(|operation: OperationDescriptor| operation@)
}

impl Clone for OperationDescriptor {
    fn clone(&self) -> (copy: Self)
        ensures
            copy@ == self@,
    {
        OperationDescriptor {
            contract: self.contract.clone(),
            http: self.http.clone(),
            documentation: self.documentation.clone(),
        }
    }
}

impl OperationDescriptor {
    /// Creates an HTTP projection of a protocol-neutral operation.
    pub fn new(
        method: HttpMethod,
        path: &str,
        id: &str,
        summary: &str,
        input: Option<TypeDescriptor>,
        responses: Vec<ResponseDescriptor>,
    ) -> (result: Result<Self, InvalidOperationId>)
        ensures
            result is Ok <==> is_identity(id@),
            result matches Err(error) ==> error@ == id@,
            result matches Ok(operation) ==> {
                &&& operation.contract@ == fresh_contract(
                    id@,
                    summary@,
                    opt_type(input),
                    responses_view(responses@),
                )
                &&& operation.http.method == method
                &&& operation.http.path@ == path@
                &&& operation.documentation.description is None
                &&& operation.documentation.tags@.len() == 0
                &&& !operation.documentation.deprecated
                &&& operation.documentation.external_docs is None
            },
    {
        match OperationContract::new(id, summary, input, responses) {
            Ok(contract) => Ok(
                OperationDescriptor {
                    contract,
                    http: HttpBinding::new(method, path),
                    documentation: OperationDocumentation::default(),
                },
            ),
            Err(error) => Err(error),
        }
    }

    #[must_use]
    pub fn with_mcp_tool(self, tool: McpToolDescriptor, policy: AgentPolicy) -> (operation: Self)
        ensures
            operation.contract@ == (ContractView {
                agent: policy,
                mcp: Some(tool@),
                ..self.contract@
            }),
            operation.http == self.http,
            operation.documentation == self.documentation,
    {
        OperationDescriptor {
            contract: self.contract.with_agent_policy(policy).with_mcp_tool(tool),
            http: self.http,
            documentation: self.documentation,
        }
    }

    #[must_use]
    pub fn mcp_tool(&self) -> (tool: Option<&McpToolDescriptor>)
        ensures
            tool == match self.contract.mcp {
                Some(tool) => Some(&tool),
                None => None,
            },
    {
        match &self.contract.mcp {
            Some(tool) => Some(tool),
            None => None,
        }
    }

    #[must_use]
    pub fn with_inputs(self, inputs: Vec<InputDescriptor>) -> (operation: Self)
        ensures
            operation.contract@ == (ContractView {
                inputs: inputs_view(inputs@),
                input: json_body(inputs_view(inputs@)),
                ..self.contract@
            }),
            operation.http == self.http,
            operation.documentation == self.documentation,
    {
        OperationDescriptor {
            contract: self.contract.with_inputs(inputs),
            http: self.http,
            documentation: self.documentation,
        }
    }

    #[must_use]
    pub fn with_dependencies(self, dependencies: Vec<DependencyDescriptor>) -> (operation: Self)
        ensures
            operation.contract@ == (ContractView {
                dependencies: dependencies_view(dependencies@),
                ..self.contract@
            }),
            operation.http == self.http,
            operation.documentation == self.documentation,
    {
        OperationDescriptor {
            contract: self.contract.with_dependencies(dependencies),
            http: self.http,
            documentation: self.documentation,
        }
    }

    #[must_use]
    pub fn with_security(self, requirements: Vec<SecurityRequirement>) -> (operation: Self)
        ensures
            operation.contract@ == (ContractView {
                security: security_view(requirements@),
                ..self.contract@
            }),
            operation.http == self.http,
            operation.documentation == self.documentation,
    {
        OperationDescriptor {
            contract: self.contract.with_security(requirements),
            http: self.http,
            documentation: self.documentation,
        }
    }

    /// The same operation with reader-facing metadata.
    #[must_use]
    pub fn with_documentation(self, documentation: OperationDocumentation) -> (operation: Self)
        ensures
            operation == (OperationDescriptor { documentation, ..self }),
    {
        OperationDescriptor { contract: self.contract, http: self.http, documentation }
    }
}

// ---------------------------------------------------------------------------
// Route shapes and inputs
// ---------------------------------------------------------------------------

/// A path segment that stands for a parameter.
pub open spec fn is_placeholder(segment: Seq<char>) -> bool {
    segment.len() >= 2 && segment[0] == '{' && segment.last() == '}'
}

/// The shape of a path: its segments with every parameter reduced to `{}`.
pub open spec fn route_shape(path: Seq<char>) -> Seq<Seq<char>> {
    split_spec(path, '/').map_values(
        |segment: Seq<char>|
            if is_placeholder(segment) {
                seq!['{', '}']
            } else {
                segment
            },
    )
}

/// The parameter names a path declares, in order.
pub open spec fn placeholder_names(segments: Seq<Seq<char>>) -> Seq<Seq<char>>
    decreases segments.len(),
{
    if segments.len() == 0 {
        Seq::empty()
    } else {
        let names = placeholder_names(segments.drop_last());
        let segment = segments.last();
        if is_placeholder(segment) && segment.len() > 2 {
            names.push(segment.subrange(1, segment.len() - 1))
        } else {
            names
        }
    }
}

/// The names callers use for an input: the fields of its model, or its own.
pub open spec fn public_names(input: InputView) -> Seq<Seq<char>> {
    match input.ty.model {
        Some(model) => model.fields.map_values(|field: crate::contract::FieldView| field.name),
        None => seq![input.name],
    }
}

/// The names callers use for the inputs that satisfy a condition, in order.
pub open spec fn names_of(inputs: Seq<InputView>, paths_only: bool) -> Seq<Seq<char>>
    decreases inputs.len(),
{
    if inputs.len() == 0 {
        Seq::empty()
    } else {
        let names = names_of(inputs.drop_last(), paths_only);
        if paths_only && inputs.last().source != InputSource::Path {
            names
        } else {
            names + public_names(inputs.last())
        }
    }
}

/// Two lists with the same members.
pub open spec fn same_members(left: Seq<Seq<char>>, right: Seq<Seq<char>>) -> bool {
    &&& forall|i: int| 0 <= i < left.len() ==> right.contains(#[trigger] left[i])
    &&& forall|i: int| 0 <= i < right.len() ==> left.contains(#[trigger] right[i])
}

/// The first name, from one position on, that already occurred before it.
pub open spec fn first_repeat(names: Seq<Seq<char>>, at: int) -> Option<Seq<char>>
    decreases names.len() - at,
{
    if at < 0 || at >= names.len() {
        None
    } else if names.take(at).contains(names[at]) {
        Some(names[at])
    } else {
        first_repeat(names, at + 1)
    }
}

// ---------------------------------------------------------------------------
// Faults
// ---------------------------------------------------------------------------

/// An invalid application graph.
#[derive(Clone, Debug, PartialEq, Eq)]
pub enum BuildError {
    DuplicateOperationId(OperationId),
    DuplicateHttpBinding { method: HttpMethod, path: String },
    AmbiguousHttpBinding { method: HttpMethod, path: String },
    InvalidPathInputs { operation: OperationId },
    DuplicateInputName { operation: OperationId, name: String },
    DuplicateSecurityScheme(String),
    DuplicateSecurityRequirement { operation: OperationId, scheme: String },
    UnknownSecurityScheme { operation: OperationId, scheme: String },
    UnknownSecurityScope { operation: OperationId, scheme: String, scope: String },
}

/// What a build error says.
pub enum BuildFault {
    DuplicateOperationId(Seq<char>),
    DuplicateHttpBinding { method: HttpMethod, path: Seq<char> },
    AmbiguousHttpBinding { method: HttpMethod, path: Seq<char> },
    InvalidPathInputs { operation: Seq<char> },
    DuplicateInputName { operation: Seq<char>, name: Seq<char> },
    DuplicateSecurityScheme(Seq<char>),
    DuplicateSecurityRequirement { operation: Seq<char>, scheme: Seq<char> },
    UnknownSecurityScheme { operation: Seq<char>, scheme: Seq<char> },
    UnknownSecurityScope { operation: Seq<char>, scheme: Seq<char>, scope: Seq<char> },
}

impl View for BuildError {
    type V = BuildFault;

    open spec fn view(&self) -> BuildFault {
        match self {
            BuildError::DuplicateOperationId(id) => BuildFault::DuplicateOperationId(id@),
            BuildError::DuplicateHttpBinding { method, path } => BuildFault::DuplicateHttpBinding {
                method: *method,
                path: path@,
            },
            BuildError::AmbiguousHttpBinding { method, path } => BuildFault::AmbiguousHttpBinding {
                method: *method,
                path: path@,
            },
            BuildError::InvalidPathInputs { operation } => BuildFault::InvalidPathInputs {
                operation: operation@,
            },
            BuildError::DuplicateInputName { operation, name } => BuildFault::DuplicateInputName {
                operation: operation@,
                name: name@,
            },
            BuildError::DuplicateSecurityScheme(name) => BuildFault::DuplicateSecurityScheme(name@),
            BuildError::DuplicateSecurityRequirement {
                operation,
                scheme,
            } => BuildFault::DuplicateSecurityRequirement {
                operation: operation@,
                scheme: scheme@,
            },
            BuildError::UnknownSecurityScheme {
                operation,
                scheme,
            } => BuildFault::UnknownSecurityScheme { operation: operation@, scheme: scheme@ },
            BuildError::UnknownSecurityScope {
                operation,
                scheme,
                scope,
            } => BuildFault::UnknownSecurityScope {
                operation: operation@,
                scheme: scheme@,
                scope: scope@,
            },
        }
    }
}

/// The message of a build fault.
pub open spec fn fault_message(fault: BuildFault) -> Seq<char> {
    match fault {
        BuildFault::DuplicateOperationId(id) => "operation id OperationId("@ + debug_notation(id)
            + ") is registered more than once"@,
        BuildFault::DuplicateHttpBinding { method, path } => method_name(method) + " "@ + path
            + " is registered more than once"@,
        BuildFault::AmbiguousHttpBinding { method, path } => method_name(method) + " "@ + path
            + " conflicts with another parameterized route"@,
        BuildFault::InvalidPathInputs { operation } => "operation "@ + operation
            + " path placeholders do not match its Path<T> inputs"@,
        BuildFault::DuplicateInputName { operation, name } => "operation "@ + operation
            + " exposes input name "@ + debug_notation(name) + " more than once"@,
        BuildFault::DuplicateSecurityScheme(name) => "security scheme "@ + debug_notation(name)
            + " is registered more than once"@,
        BuildFault::DuplicateSecurityRequirement { operation, scheme } => "operation "@ + operation
            + " requires security scheme "@ + debug_notation(scheme) + " more than once"@,
        BuildFault::UnknownSecurityScheme { operation, scheme } => "operation "@ + operation
            + " references unknown security scheme "@ + debug_notation(scheme),
        BuildFault::UnknownSecurityScope { operation, scheme, scope } => "operation "@ + operation
            + " requires unknown scope "@ + debug_notation(scope) + " from security scheme "@
            + debug_notation(scheme),
    }
}

impl BuildError {
    /// The message shown for an invalid application graph.
    #[must_use]
    pub fn to_string(&self) -> (text: String)
        ensures
            text@ == fault_message(self@),
    {
        let mut text = String::new();
        match self {
            BuildError::DuplicateOperationId(id) => {
                text.append("operation id OperationId(");
                text.append(debug_text(id.as_str()).as_str());
                text.append(") is registered more than once");
            },
            BuildError::DuplicateHttpBinding { method, path } => {
                text.append(method.as_str());
                text.append(" ");
                text.append(path.as_str());
                text.append(" is registered more than once");
            },
            BuildError::AmbiguousHttpBinding { method, path } => {
                text.append(method.as_str());
                text.append(" ");
                text.append(path.as_str());
                text.append(" conflicts with another parameterized route");
            },
            BuildError::InvalidPathInputs { operation } => {
                text.append("operation ");
                text.append(operation.as_str());
                text.append(" path placeholders do not match its Path<T> inputs");
            },
            BuildError::DuplicateInputName { operation, name } => {
                text.append("operation ");
                text.append(operation.as_str());
                text.append(" exposes input name ");
                text.append(debug_text(name.as_str()).as_str());
                text.append(" more than once");
            },
            BuildError::DuplicateSecurityScheme(name) => {
                text.append("security scheme ");
                text.append(debug_text(name.as_str()).as_str());
                text.append(" is registered more than once");
            },
            BuildError::DuplicateSecurityRequirement { operation, scheme } => {
                text.append("operation ");
                text.append(operation.as_str());
                text.append(" requires security scheme ");
                text.append(debug_text(scheme.as_str()).as_str());
                text.append(" more than once");
            },
            BuildError::UnknownSecurityScheme { operation, scheme } => {
                text.append("operation ");
                text.append(operation.as_str());
                text.append(" references unknown security scheme ");
                text.append(debug_text(scheme.as_str()).as_str());
            },
            BuildError::UnknownSecurityScope { operation, scheme, scope } => {
                text.append("operation ");
                text.append(operation.as_str());
                text.append(" requires unknown scope ");
                text.append(debug_text(scope.as_str()).as_str());
                text.append(" from security scheme ");
                text.append(debug_text(scheme.as_str()).as_str());
            },
        }
        assert(text@ =~= fault_message(self@));
        text
    }
}

/// The scopes a security scheme declares; only OAuth 2 declares any.
pub open spec fn declared_scopes(kind: SecuritySchemeKind) -> Option<Seq<Seq<char>>> {
    match kind {
        SecuritySchemeKind::OAuth2 { scopes, .. } => Some(texts(scopes@)),
        _ => None,
    }
}

/// The first scheme with a name.
pub open spec fn scheme_named(
    schemes: Seq<SecuritySchemeDescriptor>,
    name: Seq<char>,
) -> Option<SecuritySchemeDescriptor>
    decreases schemes.len(),
{
    if schemes.len() == 0 {
        None
    } else if schemes[0].name@ == name {
        Some(schemes[0])
    } else {
        scheme_named(schemes.drop_first(), name)
    }
}

/// The first scope, from one position on, that a scheme does not declare.
pub open spec fn unknown_scope(
    scopes: Seq<Seq<char>>,
    declared: Option<Seq<Seq<char>>>,
    at: int,
) -> Option<Seq<char>>
    decreases scopes.len() - at,
{
    if at >= scopes.len() {
        None
    } else if declared matches Some(known) && known.contains(scopes[at]) {
        unknown_scope(scopes, declared, at + 1)
    } else {
        Some(scopes[at])
    }
}

/// The scheme names of a list of requirements.
pub open spec fn required_schemes(requirements: Seq<SecurityView>) -> Seq<Seq<char>> {
    requirements.map_values(|requirement: SecurityView| requirement.scheme)
}

/// What is wrong with the security requirements of an operation, from one
/// position on.
pub open spec fn security_fault(
    id: Seq<char>,
    requirements: Seq<SecurityView>,
    schemes: Seq<SecuritySchemeDescriptor>,
    at: int,
) -> Option<BuildFault>
    decreases requirements.len() - at,
{
    if at < 0 || at >= requirements.len() {
        None
    } else {
        let requirement = requirements[at];
        if required_schemes(requirements.take(at)).contains(requirement.scheme) {
            Some(
                BuildFault::DuplicateSecurityRequirement {
                    operation: id,
                    scheme: requirement.scheme,
                },
            )
        } else {
            match scheme_named(schemes, requirement.scheme) {
                None => Some(
                    BuildFault::UnknownSecurityScheme {
                        operation: id,
                        scheme: requirement.scheme,
                    },
                ),
                Some(scheme) => match unknown_scope(
                    requirement.scopes,
                    declared_scopes(scheme.kind),
                    0,
                ) {
                    Some(scope) => Some(
                        BuildFault::UnknownSecurityScope {
                            operation: id,
                            scheme: requirement.scheme,
                            scope,
                        },
                    ),
                    None => security_fault(id, requirements, schemes, at + 1),
                },
            }
        }
    }
}

/// What is wrong with the inputs of an operation: its path placeholders and
/// path inputs must agree, and no name may occur twice.
pub open spec fn input_fault(operation: OperationDescriptor) -> Option<BuildFault> {
    let contract = operation.contract@;
    if !same_members(
        placeholder_names(split_spec(operation.http.path@, '/')),
        names_of(contract.inputs, true),
    ) {
        Some(BuildFault::InvalidPathInputs { operation: contract.id })
    } else {
        match first_repeat(names_of(contract.inputs, false), 0) {
            Some(name) => Some(BuildFault::DuplicateInputName { operation: contract.id, name }),
            None => None,
        }
    }
}

/// What is wrong with one operation among those registered before it.
pub open spec fn operation_fault(
    operations: Seq<OperationDescriptor>,
    schemes: Seq<SecuritySchemeDescriptor>,
    at: int,
) -> Option<BuildFault> {
    let operation = operations[at];
    if let Some(fault) = input_fault(operation) {
        Some(fault)
    } else if let Some(fault) = security_fault(
        operation.contract@.id,
        operation.contract@.security,
        schemes,
        0,
    ) {
        Some(fault)
    } else if exists|i: int| 0 <= i < at && (#[trigger] operations[i]).contract.id@
        == operation.contract.id@ {
        Some(BuildFault::DuplicateOperationId(operation.contract.id@))
    } else if exists|i: int| 0 <= i < at && same_binding(#[trigger] operations[i], operation) {
        Some(
            BuildFault::DuplicateHttpBinding {
                method: operation.http.method,
                path: operation.http.path@,
            },
        )
    } else if exists|i: int| 0 <= i < at && same_route(#[trigger] operations[i], operation) {
        Some(
            BuildFault::AmbiguousHttpBinding {
                method: operation.http.method,
                path: operation.http.path@,
            },
        )
    } else {
        None
    }
}

/// Two operations bound to the same method and path.
pub open spec fn same_binding(left: OperationDescriptor, right: OperationDescriptor) -> bool {
    left.http.method == right.http.method && left.http.path@ == right.http.path@
}

/// Two operations that a request could not tell apart.
pub open spec fn same_route(left: OperationDescriptor, right: OperationDescriptor) -> bool {
    left.http.method == right.http.method && route_shape(left.http.path@) == route_shape(
        right.http.path@,
    )
}

/// The first fault among the operations from one position on.
pub open spec fn operations_fault(
    operations: Seq<OperationDescriptor>,
    schemes: Seq<SecuritySchemeDescriptor>,
    at: int,
) -> Option<BuildFault>
    decreases operations.len() - at,
{
    if at >= operations.len() {
        None
    } else {
        match operation_fault(operations, schemes, at) {
            Some(fault) => Some(fault),
            None => operations_fault(operations, schemes, at + 1),
        }
    }
}

/// The names of a list of schemes.
pub open spec fn scheme_names(schemes: Seq<SecuritySchemeDescriptor>) -> Seq<Seq<char>> {
    schemes.map_values(|scheme: SecuritySchemeDescriptor| scheme.name@)
}

/// What is wrong with an application: schemes are checked before operations,
/// and each in registration order.
pub open spec fn build_fault(
    operations: Seq<OperationDescriptor>,
    schemes: Seq<SecuritySchemeDescriptor>,
) -> Option<BuildFault> {
    match first_repeat(scheme_names(schemes), 0) {
        Some(name) => Some(BuildFault::DuplicateSecurityScheme(name)),
        None => operations_fault(operations, schemes, 0),
    }
}

proof fn lemma_same_views_same_fault(
    left: Seq<OperationDescriptor>,
    right: Seq<OperationDescriptor>,
    schemes: Seq<SecuritySchemeDescriptor>,
    at: int,
)
    requires
        descriptors_view(left) == descriptors_view(right),
        0 <= at,
    ensures
        operations_fault(left, schemes, at) == operations_fault(right, schemes, at),
    decreases left.len() - at,
{
    assert(left.len() == descriptors_view(left).len());
    assert(right.len() == descriptors_view(right).len());
    assert forall|i: int| 0 <= i < left.len() implies (#[trigger] left[i])@ == right[i]@ by {
        assert(descriptors_view(left)[i] == left[i]@);
        assert(descriptors_view(right)[i] == right[i]@);
    }
    if at < left.len() {
        lemma_same_views_same_fault(left, right, schemes, at + 1);
        let a = left[at];
        let b = right[at];
        assert(a@ == b@);
        assert(a.contract.id@ == a.contract@.id && b.contract.id@ == b.contract@.id);
        assert forall|i: int| 0 <= i < at implies (#[trigger] left[i]).contract.id@
            == right[i].contract.id@ by {
            assert(left[i]@ == right[i]@);
            assert(left[i].contract@.id == right[i].contract@.id);
        }
        assert((exists|i: int| 0 <= i < at && (#[trigger] left[i]).contract.id@ == a.contract.id@)
            == (exists|i: int| 0 <= i < at && (#[trigger] right[i]).contract.id@ == b.contract.id@))
            by {
            if exists|i: int| 0 <= i < at && (#[trigger] left[i]).contract.id@ == a.contract.id@ {
                let i = choose|i: int|
                    0 <= i < at && (#[trigger] left[i]).contract.id@ == a.contract.id@;
                assert(right[i].contract.id@ == b.contract.id@);
            }
            if exists|i: int| 0 <= i < at && (#[trigger] right[i]).contract.id@ == b.contract.id@ {
                let i = choose|i: int|
                    0 <= i < at && (#[trigger] right[i]).contract.id@ == b.contract.id@;
                assert(left[i].contract.id@ == a.contract.id@);
            }
        }
        assert((exists|i: int| 0 <= i < at && same_binding(#[trigger] left[i], a)) == (exists|i: int|
            0 <= i < at && same_binding(#[trigger] right[i], b))) by {
            if exists|i: int| 0 <= i < at && same_binding(#[trigger] left[i], a) {
                let i = choose|i: int| 0 <= i < at && same_binding(#[trigger] left[i], a);
                assert(left[i]@ == right[i]@);
                assert(same_binding(right[i], b));
            }
            if exists|i: int| 0 <= i < at && same_binding(#[trigger] right[i], b) {
                let i = choose|i: int| 0 <= i < at && same_binding(#[trigger] right[i], b);
                assert(left[i]@ == right[i]@);
                assert(same_binding(left[i], a));
            }
        }
        assert((exists|i: int| 0 <= i < at && same_route(#[trigger] left[i], a)) == (exists|i: int|
            0 <= i < at && same_route(#[trigger] right[i], b))) by {
            if exists|i: int| 0 <= i < at && same_route(#[trigger] left[i], a) {
                let i = choose|i: int| 0 <= i < at && same_route(#[trigger] left[i], a);
                assert(left[i]@ == right[i]@);
                assert(same_route(right[i], b));
            }
            if exists|i: int| 0 <= i < at && same_route(#[trigger] right[i], b) {
                let i = choose|i: int| 0 <= i < at && same_route(#[trigger] right[i], b);
                assert(left[i]@ == right[i]@);
                assert(same_route(left[i], a));
            }
        }
    }
}

/// Whether an application is valid depends on what its descriptors say alone.
pub proof fn law_validity_depends_on_what_is_said(
    left: Seq<OperationDescriptor>,
    right: Seq<OperationDescriptor>,
    schemes: Seq<SecuritySchemeDescriptor>,
)
    requires
        descriptors_view(left) == descriptors_view(right),
    ensures
        build_fault(left, schemes) == build_fault(right, schemes),
{
    lemma_same_views_same_fault(left, right, schemes, 0);
}

// ---------------------------------------------------------------------------
// Validation
// ---------------------------------------------------------------------------

fn placeholder(segment: &[char]) -> (found: bool)
    ensures
        found == is_placeholder(segment@),
{
    segment.len() >= 2 && segment[0] == '{' && segment[segment.len() - 1] == '}'
}

fn path_placeholders(path: &str) -> (names: Vec<String>)
    ensures
        texts(names@) == placeholder_names(split_spec(path@, '/')),
{
    let characters = chars_of(path);
    let segments = split_chars(characters.as_slice(), '/');
    let ghost views = char_lists(segments@);
    let mut names: Vec<String> = Vec::new();
    let mut index: usize = 0;
    proof {
        assert(views.take(0) =~= Seq::empty());
        assert(texts(names@) =~= Seq::empty());
    }
    while index < segments.len()
        invariant
            index <= segments@.len(),
            views == char_lists(segments@),
            texts(names@) == placeholder_names(views.take(index as int)),
        decreases segments@.len() - index,
    {
        let segment = &segments[index];
        proof {
            assert(views.take(index + 1).drop_last() =~= views.take(index as int));
            assert(views.take(index + 1).last() == segment@);
        }
        if placeholder(segment.as_slice()) && segment.len() > 2 {
            let name = string_from(
                vstd::slice::slice_subrange(segment.as_slice(), 1, segment.len() - 1),
            );
            let ghost before = texts(names@);
            names.push(name);
            assert(texts(names@) =~= before.push(segment@.subrange(1, segment@.len() - 1)));
        }
        index += 1;
    }
    assert(views.take(views.len() as int) =~= views);
    names
}

fn push_public_names(names: &mut Vec<String>, input: &InputDescriptor)
    ensures
        texts(final(names)@) == texts(old(names)@) + public_names(input@),
{
    match &input.ty.model {
        None => {
            names.push(input.name.clone());
            assert(texts(names@) =~= texts(old(names)@) + public_names(input@));
        },
        Some(model) => {
            let ghost expected = public_names(input@);
            let ghost start = texts(names@);
            let mut index: usize = 0;
            proof {
                assert(expected.take(0) =~= Seq::empty());
                assert(start + expected.take(0) =~= start);
                assert(input.ty@.model == Some(Box::new(crate::contract::model_view(**model))));
                assert(expected.len() == model.fields@.len());
                assert forall|i: int| 0 <= i < model.fields@.len() implies expected[i]
                    == model.fields@[i].name@ by {
                    assert(crate::contract::model_view(**model).fields[i] == field_view(
                        model.fields@[i],
                    ));
                }
            }
            while index < model.fields.len()
                invariant
                    index <= model.fields@.len(),
                    expected.len() == model.fields@.len(),
                    forall|i: int|
                        0 <= i < model.fields@.len() ==> #[trigger] expected[i]
                            == model.fields@[i].name@,
                    texts(names@) == start + expected.take(index as int),
                decreases model.fields@.len() - index,
            {
                let ghost before = texts(names@);
                names.push(model.fields[index].name.clone());
                proof {
                    assert(texts(names@) =~= before.push(expected[index as int]));
                    assert(start + expected.take(index + 1) =~= (start + expected.take(
                        index as int,
                    )).push(expected[index as int]));
                }
                index += 1;
            }
            assert(expected.take(expected.len() as int) =~= expected);
        },
    }
}

fn input_names(inputs: &Vec<InputDescriptor>, paths_only: bool) -> (names: Vec<String>)
    ensures
        texts(names@) == names_of(inputs_view(inputs@), paths_only),
{
    let ghost views = inputs_view(inputs@);
    let mut names: Vec<String> = Vec::new();
    let mut index: usize = 0;
    proof {
        assert(views.take(0) =~= Seq::empty());
        assert(texts(names@) =~= Seq::empty());
    }
    while index < inputs.len()
        invariant
            index <= inputs@.len(),
            views == inputs_view(inputs@),
            texts(names@) == names_of(views.take(index as int), paths_only),
        decreases inputs@.len() - index,
    {
        proof {
            assert(views.take(index + 1).drop_last() =~= views.take(index as int));
            assert(views.take(index + 1).last() == inputs@[index as int]@);
        }
        if !paths_only || inputs[index].source == InputSource::Path {
            push_public_names(&mut names, &inputs[index]);
        }
        index += 1;
    }
    assert(views.take(views.len() as int) =~= views);
    names
}

fn covers(left: &Vec<String>, right: &Vec<String>) -> (all: bool)
    ensures
        all == forall|i: int|
            0 <= i < texts(left@).len() ==> texts(right@).contains(#[trigger] texts(left@)[i]),
{
    let mut index: usize = 0;
    while index < left.len()
        invariant
            index <= left@.len(),
            forall|i: int| 0 <= i < index ==> texts(right@).contains(#[trigger] texts(left@)[i]),
        decreases left@.len() - index,
    {
        if !contains_text(right, left[index].as_str()) {
            assert(!texts(right@).contains(texts(left@)[index as int]));
            return false;
        }
        index += 1;
    }
    true
}

fn repeated_name(names: &Vec<String>) -> (found: Option<usize>)
    ensures
        match found {
            Some(at) => at < names@.len() && first_repeat(texts(names@), 0) == Some(
                names@[at as int]@,
            ),
            None => first_repeat(texts(names@), 0) is None,
        },
{
    let ghost views = texts(names@);
    let mut index: usize = 0;
    while index < names.len()
        invariant
            index <= names@.len(),
            views == texts(names@),
            first_repeat(views, 0) == first_repeat(views, index as int),
        decreases names@.len() - index,
    {
        let mut earlier: usize = 0;
        while earlier < index
            invariant
                earlier <= index < names@.len(),
                views == texts(names@),
                first_repeat(views, 0) == first_repeat(views, index as int),
                forall|i: int| 0 <= i < earlier ==> views[i] != views[index as int],
            decreases index - earlier,
        {
            if eq_text(names[earlier].as_str(), names[index].as_str()) {
                assert(views.take(index as int)[earlier as int] == views[index as int]);
                return Some(index);
            }
            earlier += 1;
        }
        index += 1;
    }
    None
}

fn validate_operation_inputs(operation: &OperationDescriptor) -> (result: Result<(), BuildError>)
    ensures
        match result {
            Ok(()) => input_fault(*operation) is None,
            Err(error) => input_fault(*operation) == Some(error@),
        },
{
    let placeholders = path_placeholders(operation.http.path.as_str());
    let path_inputs = input_names(&operation.contract.inputs, true);
    if !(covers(&placeholders, &path_inputs) && covers(&path_inputs, &placeholders)) {
        return Err(BuildError::InvalidPathInputs { operation: operation.contract.id.clone() });
    }
    let names = input_names(&operation.contract.inputs, false);
    match repeated_name(&names) {
        Some(at) => Err(
            BuildError::DuplicateInputName {
                operation: operation.contract.id.clone(),
                name: names[at].clone(),
            },
        ),
        None => Ok(()),
    }
}

fn find_scheme(schemes: &Vec<SecuritySchemeDescriptor>, name: &str) -> (found: Option<usize>)
    ensures
        match found {
            Some(at) => at < schemes@.len() && scheme_named(schemes@, name@) == Some(
                schemes@[at as int],
            ),
            None => scheme_named(schemes@, name@) is None,
        },
{
    let mut index: usize = 0;
    assert(schemes@.skip(0) =~= schemes@);
    while index < schemes.len()
        invariant
            index <= schemes@.len(),
            scheme_named(schemes@, name@) == scheme_named(schemes@.skip(index as int), name@),
        decreases schemes@.len() - index,
    {
        proof {
            assert(schemes@.skip(index as int)[0] == schemes@[index as int]);
            assert(schemes@.skip(index as int).drop_first() =~= schemes@.skip(index + 1));
        }
        if eq_text(schemes[index].name.as_str(), name) {
            return Some(index);
        }
        index += 1;
    }
    None
}

fn find_unknown_scope(scopes: &Vec<String>, kind: &SecuritySchemeKind) -> (found: Option<usize>)
    ensures
        match found {
            Some(at) => at < scopes@.len() && unknown_scope(
                texts(scopes@),
                declared_scopes(*kind),
                0,
            ) == Some(scopes@[at as int]@),
            None => unknown_scope(texts(scopes@), declared_scopes(*kind), 0) is None,
        },
{
    let ghost views = texts(scopes@);
    let ghost declared = declared_scopes(*kind);
    let mut index: usize = 0;
    while index < scopes.len()
        invariant
            index <= scopes@.len(),
            views == texts(scopes@),
            declared == declared_scopes(*kind),
            unknown_scope(views, declared, 0) == unknown_scope(views, declared, index as int),
        decreases scopes@.len() - index,
    {
        let known = match kind {
            SecuritySchemeKind::OAuth2 { scopes: known, .. } => {
                contains_text(known, scopes[index].as_str())
            },
            _ => false,
        };
        assert(views[index as int] == scopes@[index as int]@);
        if !known {
            return Some(index);
        }
        index += 1;
    }
    None
}

fn validate_operation_security(
    operation: &OperationDescriptor,
    schemes: &Vec<SecuritySchemeDescriptor>,
) -> (result: Result<(), BuildError>)
    ensures
        match result {
            Ok(()) => security_fault(
                operation.contract@.id,
                operation.contract@.security,
                schemes@,
                0,
            ) is None,
            Err(error) => security_fault(
                operation.contract@.id,
                operation.contract@.security,
                schemes@,
                0,
            ) == Some(error@),
        },
{
    let security = &operation.contract.security;
    let ghost id = operation.contract@.id;
    let ghost views = operation.contract@.security;
    let mut index: usize = 0;
    while index < security.len()
        invariant
            index <= security@.len(),
            *security == operation.contract.security,
            id == operation.contract@.id,
            views == operation.contract@.security,
            views == security_view(security@),
            security_fault(id, views, schemes@, 0) == security_fault(
                id,
                views,
                schemes@,
                index as int,
            ),
        decreases security@.len() - index,
    {
        let requirement = &security[index];
        assert(views[index as int] == requirement@);
        let mut earlier: usize = 0;
        while earlier < index
            invariant
                earlier <= index < security@.len(),
                *security == operation.contract.security,
                id == operation.contract@.id,
                views == operation.contract@.security,
                views == security_view(security@),
                *requirement == security@[index as int],
                views[index as int] == requirement@,
                security_fault(id, views, schemes@, 0) == security_fault(
                    id,
                    views,
                    schemes@,
                    index as int,
                ),
                forall|i: int|
                    0 <= i < earlier ==> (#[trigger] views[i]).scheme != requirement@.scheme,
            decreases index - earlier,
        {
            assert(views[earlier as int] == security@[earlier as int]@);
            if eq_text(security[earlier].scheme.as_str(), requirement.scheme.as_str()) {
                assert(required_schemes(views.take(index as int))[earlier as int]
                    == requirement@.scheme);
                return Err(
                    BuildError::DuplicateSecurityRequirement {
                        operation: operation.contract.id.clone(),
                        scheme: requirement.scheme.clone(),
                    },
                );
            }
            earlier += 1;
        }
        assert(!required_schemes(views.take(index as int)).contains(requirement@.scheme)) by {
            let before = required_schemes(views.take(index as int));
            assert forall|i: int| 0 <= i < before.len() implies before[i]
                != requirement@.scheme by {
                assert(views[i].scheme != requirement@.scheme);
            }
        }
        match find_scheme(schemes, requirement.scheme.as_str()) {
            None => {
                return Err(
                    BuildError::UnknownSecurityScheme {
                        operation: operation.contract.id.clone(),
                        scheme: requirement.scheme.clone(),
                    },
                );
            },
            Some(at) => {
                match find_unknown_scope(&requirement.scopes, &schemes[at].kind) {
                    Some(scope) => {
                        return Err(
                            BuildError::UnknownSecurityScope {
                                operation: operation.contract.id.clone(),
                                scheme: requirement.scheme.clone(),
                                scope: requirement.scopes[scope].clone(),
                            },
                        );
                    },
                    None => {},
                }
            },
        }
        index += 1;
    }
    Ok(())
}

// ---------------------------------------------------------------------------
// Building
// ---------------------------------------------------------------------------

impl Ranked for OperationDescriptor {
    /// Operations are ordered by path, then method, then identity.
    open spec fn ranks_before(self, other: Self) -> bool {
        ||| text_before_spec(self.http.path@, other.http.path@)
        ||| self.http.path@ == other.http.path@ && (method_rank(self.http.method) < method_rank(
            other.http.method,
        ) || method_rank(self.http.method) == method_rank(other.http.method) && text_before_spec(
            self.contract.id@,
            other.contract.id@,
        ))
    }

    proof fn rank_laws(a: Self, b: Self, c: Self) {
        lemma_before_irreflexive(a.http.path@);
        lemma_before_irreflexive(a.contract.id@);
        lemma_before_total(a.http.path@, b.http.path@);
        lemma_before_total(b.http.path@, c.http.path@);
        lemma_before_total(a.contract.id@, b.contract.id@);
        lemma_before_total(b.contract.id@, c.contract.id@);
        lemma_text_order(a.http.path@, b.http.path@, c.http.path@);
        lemma_text_order(a.contract.id@, b.contract.id@, c.contract.id@);
    }

    fn comes_before(&self, other: &Self) -> (before: bool) {
        if text_before(self.http.path.as_str(), other.http.path.as_str()) {
            return true;
        }
        if !eq_text(self.http.path.as_str(), other.http.path.as_str()) {
            return false;
        }
        let rank: usize = self.http.method.rank();
        let other_rank: usize = other.http.method.rank();
        rank < other_rank || rank == other_rank && text_before(
            self.contract.id.as_str(),
            other.contract.id.as_str(),
        )
    }
}

proof fn lemma_text_order(a: Seq<char>, b: Seq<char>, c: Seq<char>)
    ensures
        text_before_spec(a, b) && text_before_spec(b, c) ==> text_before_spec(a, c),
        text_before_spec(c, a) && text_before_spec(a, b) ==> text_before_spec(c, b),
        text_before_spec(b, c) && text_before_spec(c, a) ==> text_before_spec(b, a),
        !(text_before_spec(a, b) && text_before_spec(b, a)),
        !(text_before_spec(b, c) && text_before_spec(c, b)),
        !(text_before_spec(a, c) && text_before_spec(c, a)),
{
    lemma_before_irreflexive(a);
    lemma_before_irreflexive(b);
    if text_before_spec(a, b) && text_before_spec(b, c) {
        lemma_before_transitive(a, b, c);
    }
    if text_before_spec(c, a) && text_before_spec(a, b) {
        lemma_before_transitive(c, a, b);
    }
    if text_before_spec(b, c) && text_before_spec(c, a) {
        lemma_before_transitive(b, c, a);
    }
    if text_before_spec(a, b) && text_before_spec(b, a) {
        lemma_before_transitive(a, b, a);
    }
    if text_before_spec(b, c) && text_before_spec(c, b) {
        lemma_before_transitive(b, c, b);
    }
    if text_before_spec(a, c) && text_before_spec(c, a) {
        lemma_before_transitive(a, c, a);
    }
}

impl Ranked for SecuritySchemeDescriptor {
    /// Schemes are ordered by name.
    open spec fn ranks_before(self, other: Self) -> bool {
        text_before_spec(self.name@, other.name@)
    }

    proof fn rank_laws(a: Self, b: Self, c: Self) {
        lemma_before_irreflexive(a.name@);
        lemma_before_total(a.name@, b.name@);
        lemma_before_total(b.name@, c.name@);
        lemma_text_order(a.name@, b.name@, c.name@);
    }

    fn comes_before(&self, other: &Self) -> (before: bool) {
        text_before(self.name.as_str(), other.name.as_str())
    }
}

/// A validated, deterministic application description.
#[derive(Clone, Debug, PartialEq, Eq)]
pub struct AppDefinition {
    operations: Vec<OperationDescriptor>,
    security_schemes: Vec<SecuritySchemeDescriptor>,
}

impl AppDefinition {
    pub closed spec fn spec_operations(self) -> Seq<OperationDescriptor> {
        self.operations@
    }

    pub closed spec fn spec_schemes(self) -> Seq<SecuritySchemeDescriptor> {
        self.security_schemes@
    }

    #[must_use]
    pub fn operations(&self) -> (operations: &[OperationDescriptor])
        ensures
            operations@ == self.spec_operations(),
    {
        self.operations.as_slice()
    }

    #[must_use]
    pub fn security_schemes(&self) -> (schemes: &[SecuritySchemeDescriptor])
        ensures
            schemes@ == self.spec_schemes(),
    {
        self.security_schemes.as_slice()
    }
}

/// Builder for an application description.
#[derive(Clone, Debug)]
pub struct App {
    operations: Vec<OperationDescriptor>,
    security_schemes: Vec<SecuritySchemeDescriptor>,
}

impl Default for App {
    fn default() -> (app: Self)
        ensures
            app.spec_operations() == Seq::<OperationDescriptor>::empty(),
            app.spec_schemes() == Seq::<SecuritySchemeDescriptor>::empty(),
    {
        App::new()
    }
}

/// Whether an application with these registrations is described by a
/// definition: it has no fault, and the definition holds exactly what was
/// registered, in order.
pub open spec fn defines(
    operations: Seq<OperationDescriptor>,
    schemes: Seq<SecuritySchemeDescriptor>,
    definition: AppDefinition,
) -> bool {
    &&& build_fault(operations, schemes) is None
    &&& definition.spec_operations().to_multiset() == operations.to_multiset()
    &&& definition.spec_schemes().to_multiset() == schemes.to_multiset()
    &&& strictly_arranged(definition.spec_operations())
    &&& strictly_arranged(definition.spec_schemes())
}

proof fn lemma_two_positions<T>(original: Seq<T>, shuffled: Seq<T>, i: int, j: int) -> (found: (
    int,
    int,
))
    requires
        original.to_multiset() == shuffled.to_multiset(),
        0 <= i < j < shuffled.len(),
    ensures
        0 <= found.0 < original.len(),
        0 <= found.1 < original.len(),
        found.0 != found.1,
        original[found.0] == shuffled[i],
        original[found.1] == shuffled[j],
{
    original.to_multiset_ensures();
    shuffled.to_multiset_ensures();
    assert(shuffled.contains(shuffled[i]));
    assert(shuffled.to_multiset().count(shuffled[i]) > 0);
    assert(original.contains(shuffled[i]));
    let a = choose|a: int| 0 <= a < original.len() && original[a] == shuffled[i];
    let fewer = original.remove(a);
    let rest = shuffled.remove(i);
    vstd::seq_lib::to_multiset_remove(original, a);
    vstd::seq_lib::to_multiset_remove(shuffled, i);
    fewer.to_multiset_ensures();
    rest.to_multiset_ensures();
    assert(rest[j - 1] == shuffled[j]);
    assert(rest.contains(shuffled[j]));
    assert(rest.to_multiset().count(shuffled[j]) > 0);
    assert(fewer.contains(shuffled[j]));
    let b = choose|b: int| 0 <= b < fewer.len() && fewer[b] == shuffled[j];
    if b < a {
        (a, b)
    } else {
        (a, b + 1)
    }
}

pub(crate) proof fn lemma_no_operation_fault(
    operations: Seq<OperationDescriptor>,
    schemes: Seq<SecuritySchemeDescriptor>,
    at: int,
)
    requires
        operations_fault(operations, schemes, at) is None,
        0 <= at,
    ensures
        forall|i: int|
            at <= i < operations.len() ==> operation_fault(operations, schemes, i) is None,
    decreases operations.len() - at,
{
    if at < operations.len() {
        lemma_no_operation_fault(operations, schemes, at + 1);
    }
}

proof fn lemma_distinct_bindings(
    operations: Seq<OperationDescriptor>,
    schemes: Seq<SecuritySchemeDescriptor>,
    a: int,
    b: int,
)
    requires
        operations_fault(operations, schemes, 0) is None,
        0 <= a < b < operations.len(),
    ensures
        !same_binding(operations[a], operations[b]),
{
    lemma_no_operation_fault(operations, schemes, 0);
    assert(operation_fault(operations, schemes, b) is None);
}

proof fn lemma_strict_operations(
    original: Seq<OperationDescriptor>,
    schemes: Seq<SecuritySchemeDescriptor>,
    sorted: Seq<OperationDescriptor>,
)
    requires
        operations_fault(original, schemes, 0) is None,
        original.to_multiset() == sorted.to_multiset(),
        arranged(sorted),
    ensures
        strictly_arranged(sorted),
{
    assert forall|i: int, j: int| 0 <= i < j < sorted.len() implies (
    #[trigger] sorted[i]).ranks_before(#[trigger] sorted[j]) by {
        let (a, b) = lemma_two_positions(original, sorted, i, j);
        if a < b {
            lemma_distinct_bindings(original, schemes, a, b);
        } else {
            lemma_distinct_bindings(original, schemes, b, a);
        }
        assert(!same_binding(sorted[i], sorted[j]));
        lemma_before_total(sorted[i].http.path@, sorted[j].http.path@);
        assert(!sorted[j].ranks_before(sorted[i]));
    }
}

proof fn lemma_no_repeat(names: Seq<Seq<char>>, at: int)
    requires
        first_repeat(names, at) is None,
        0 <= at,
    ensures
        forall|i: int, j: int| 0 <= i < j < names.len() && at <= j ==> names[i] != names[j],
    decreases names.len() - at,
{
    if at < names.len() {
        lemma_no_repeat(names, at + 1);
        assert forall|i: int, j: int| 0 <= i < j < names.len() && at <= j implies names[i]
            != names[j] by {
            if j == at {
                assert(names.take(at)[i] == names[i]);
            }
        }
    }
}

proof fn lemma_strict_schemes(
    original: Seq<SecuritySchemeDescriptor>,
    sorted: Seq<SecuritySchemeDescriptor>,
)
    requires
        first_repeat(scheme_names(original), 0) is None,
        original.to_multiset() == sorted.to_multiset(),
        arranged(sorted),
    ensures
        strictly_arranged(sorted),
{
    lemma_no_repeat(scheme_names(original), 0);
    assert forall|i: int, j: int| 0 <= i < j < sorted.len() implies (
    #[trigger] sorted[i]).ranks_before(#[trigger] sorted[j]) by {
        let (a, b) = lemma_two_positions(original, sorted, i, j);
        assert(scheme_names(original)[a] != scheme_names(original)[b]);
        lemma_before_total(sorted[i].name@, sorted[j].name@);
        assert(!sorted[j].ranks_before(sorted[i]));
    }
}

proof fn lemma_distinct_names(names: Seq<Seq<char>>, at: int)
    requires
        forall|i: int, j: int| 0 <= i < j < names.len() ==> names[i] != names[j],
        0 <= at,
    ensures
        first_repeat(names, at) is None,
    decreases names.len() - at,
{
    if at < names.len() {
        if names.take(at).contains(names[at]) {
            let i = choose|i: int| 0 <= i < names.take(at).len() && names.take(at)[i] == names[at];
            assert(names[i] == names[at]);
        }
        lemma_distinct_names(names, at + 1);
    }
}

proof fn lemma_shuffled_names(
    schemes: Seq<SecuritySchemeDescriptor>,
    shuffled: Seq<SecuritySchemeDescriptor>,
)
    requires
        schemes.to_multiset() == shuffled.to_multiset(),
        first_repeat(scheme_names(schemes), 0) is None,
    ensures
        first_repeat(scheme_names(shuffled), 0) is None,
{
    lemma_no_repeat(scheme_names(schemes), 0);
    let names = scheme_names(shuffled);
    assert forall|i: int, j: int| 0 <= i < j < names.len() implies names[i] != names[j] by {
        let (a, b) = lemma_two_positions(schemes, shuffled, i, j);
        assert(scheme_names(schemes)[a] != scheme_names(schemes)[b]);
    }
    lemma_distinct_names(names, 0);
}

proof fn lemma_first_named(schemes: Seq<SecuritySchemeDescriptor>, name: Seq<char>)
    ensures
        match scheme_named(schemes, name) {
            Some(found) => schemes.contains(found) && found.name@ == name,
            None => forall|i: int| 0 <= i < schemes.len() ==> (#[trigger] schemes[i]).name@ != name,
        },
    decreases schemes.len(),
{
    if schemes.len() > 0 {
        lemma_first_named(schemes.drop_first(), name);
        assert forall|i: int| 1 <= i < schemes.len() implies #[trigger] schemes[i]
            == schemes.drop_first()[i - 1] by {}
        if schemes.drop_first().contains(scheme_named(schemes.drop_first(), name)->Some_0) {
            let i = choose|i: int|
                0 <= i < schemes.drop_first().len() && schemes.drop_first()[i] == scheme_named(
                    schemes.drop_first(),
                    name,
                )->Some_0;
            assert(schemes[i + 1] == schemes.drop_first()[i]);
        }
    }
}

proof fn lemma_shuffled_scheme(
    schemes: Seq<SecuritySchemeDescriptor>,
    shuffled: Seq<SecuritySchemeDescriptor>,
    name: Seq<char>,
)
    requires
        schemes.to_multiset() == shuffled.to_multiset(),
        first_repeat(scheme_names(schemes), 0) is None,
    ensures
        scheme_named(schemes, name) == scheme_named(shuffled, name),
{
    lemma_first_named(schemes, name);
    lemma_first_named(shuffled, name);
    lemma_no_repeat(scheme_names(schemes), 0);
    schemes.to_multiset_ensures();
    shuffled.to_multiset_ensures();
    match (scheme_named(schemes, name), scheme_named(shuffled, name)) {
        (Some(a), Some(b)) => {
            assert(shuffled.to_multiset().count(b) > 0);
            assert(schemes.contains(b));
            let i = choose|i: int| 0 <= i < schemes.len() && schemes[i] == a;
            let j = choose|j: int| 0 <= j < schemes.len() && schemes[j] == b;
            assert(scheme_names(schemes)[i] == scheme_names(schemes)[j]);
        },
        (Some(a), None) => {
            assert(schemes.to_multiset().count(a) > 0);
            assert(shuffled.contains(a));
        },
        (None, Some(b)) => {
            assert(shuffled.to_multiset().count(b) > 0);
            assert(schemes.contains(b));
        },
        (None, None) => {},
    }
}

proof fn lemma_shuffled_security(
    id: Seq<char>,
    requirements: Seq<SecurityView>,
    schemes: Seq<SecuritySchemeDescriptor>,
    shuffled: Seq<SecuritySchemeDescriptor>,
    at: int,
)
    requires
        schemes.to_multiset() == shuffled.to_multiset(),
        first_repeat(scheme_names(schemes), 0) is None,
    ensures
        security_fault(id, requirements, schemes, at) == security_fault(
            id,
            requirements,
            shuffled,
            at,
        ),
    decreases requirements.len() - at,
{
    if 0 <= at < requirements.len() {
        lemma_shuffled_scheme(schemes, shuffled, requirements[at].scheme);
        lemma_shuffled_security(id, requirements, schemes, shuffled, at + 1);
    }
}

proof fn lemma_no_fault_among(
    operations: Seq<OperationDescriptor>,
    schemes: Seq<SecuritySchemeDescriptor>,
    at: int,
)
    requires
        0 <= at,
        forall|i: int|
            at <= i < operations.len() ==> operation_fault(operations, schemes, i) is None,
    ensures
        operations_fault(operations, schemes, at) is None,
    decreases operations.len() - at,
{
    if at < operations.len() {
        lemma_no_fault_among(operations, schemes, at + 1);
    }
}

proof fn lemma_shuffled_build(
    operations: Seq<OperationDescriptor>,
    schemes: Seq<SecuritySchemeDescriptor>,
    other_operations: Seq<OperationDescriptor>,
    other_schemes: Seq<SecuritySchemeDescriptor>,
)
    requires
        operations.to_multiset() == other_operations.to_multiset(),
        schemes.to_multiset() == other_schemes.to_multiset(),
        build_fault(operations, schemes) is None,
    ensures
        build_fault(other_operations, other_schemes) is None,
{
    lemma_shuffled_names(schemes, other_schemes);
    lemma_no_operation_fault(operations, schemes, 0);
    operations.to_multiset_ensures();
    other_operations.to_multiset_ensures();
    assert forall|j: int| 0 <= j < other_operations.len() implies operation_fault(
        other_operations,
        other_schemes,
        j,
    ) is None by {
        let operation = other_operations[j];
        assert(other_operations.contains(operation));
        assert(other_operations.to_multiset().count(operation) > 0);
        assert(operations.contains(operation));
        let place = choose|place: int|
            0 <= place < operations.len() && operations[place] == operation;
        assert(operation_fault(operations, schemes, place) is None);
        lemma_shuffled_security(
            operation.contract@.id,
            operation.contract@.security,
            schemes,
            other_schemes,
            0,
        );
        assert forall|i: int| 0 <= i < j implies {
            &&& (#[trigger] other_operations[i]).contract.id@ != operation.contract.id@
            &&& !same_binding(other_operations[i], operation)
            &&& !same_route(other_operations[i], operation)
        } by {
            let (a, b) = lemma_two_positions(operations, other_operations, i, j);
            if a < b {
                assert(operation_fault(operations, schemes, b) is None);
                assert(operations[a] == other_operations[i]);
            } else {
                assert(operation_fault(operations, schemes, a) is None);
                assert(operations[b] == operation);
            }
        }
    }
    lemma_no_fault_among(other_operations, other_schemes, 0);
}

/// Whether an application is valid does not depend on registration order.
pub proof fn law_validity_ignores_registration_order(
    operations: Seq<OperationDescriptor>,
    schemes: Seq<SecuritySchemeDescriptor>,
    other_operations: Seq<OperationDescriptor>,
    other_schemes: Seq<SecuritySchemeDescriptor>,
)
    requires
        operations.to_multiset() == other_operations.to_multiset(),
        schemes.to_multiset() == other_schemes.to_multiset(),
    ensures
        build_fault(operations, schemes) is None <==> build_fault(
            other_operations,
            other_schemes,
        ) is None,
{
    if build_fault(operations, schemes) is None {
        lemma_shuffled_build(operations, schemes, other_operations, other_schemes);
    }
    if build_fault(other_operations, other_schemes) is None {
        lemma_shuffled_build(other_operations, other_schemes, operations, schemes);
    }
}

/// The description does not depend on registration order: two applications
/// with the same registrations are described by the same lists.
pub proof fn law_application_order_is_deterministic(
    operations: Seq<OperationDescriptor>,
    schemes: Seq<SecuritySchemeDescriptor>,
    definition: AppDefinition,
    other_operations: Seq<OperationDescriptor>,
    other_schemes: Seq<SecuritySchemeDescriptor>,
    other: AppDefinition,
)
    requires
        operations.to_multiset() == other_operations.to_multiset(),
        schemes.to_multiset() == other_schemes.to_multiset(),
        defines(operations, schemes, definition),
        defines(other_operations, other_schemes, other),
    ensures
        definition.spec_operations() == other.spec_operations(),
        definition.spec_schemes() == other.spec_schemes(),
{
    law_arrangement_is_unique(definition.spec_operations(), other.spec_operations());
    law_arrangement_is_unique(definition.spec_schemes(), other.spec_schemes());
}

impl App {
    pub closed spec fn spec_operations(self) -> Seq<OperationDescriptor> {
        self.operations@
    }

    pub closed spec fn spec_schemes(self) -> Seq<SecuritySchemeDescriptor> {
        self.security_schemes@
    }

    #[must_use]
    pub fn new() -> (app: Self)
        ensures
            app.spec_operations() == Seq::<OperationDescriptor>::empty(),
            app.spec_schemes() == Seq::<SecuritySchemeDescriptor>::empty(),
    {
        App { operations: Vec::new(), security_schemes: Vec::new() }
    }

    #[must_use]
    pub fn route(self, operation: OperationDescriptor) -> (app: Self)
        ensures
            app.spec_operations() == self.spec_operations().push(operation),
            app.spec_schemes() == self.spec_schemes(),
    {
        let mut operations = self.operations;
        operations.push(operation);
        App { operations, security_schemes: self.security_schemes }
    }

    #[must_use]
    pub fn routes(self, operations: Vec<OperationDescriptor>) -> (app: Self)
        ensures
            app.spec_operations() == self.spec_operations() + operations@,
            app.spec_schemes() == self.spec_schemes(),
    {
        let mut all = self.operations;
        let mut more = operations;
        all.append(&mut more);
        App { operations: all, security_schemes: self.security_schemes }
    }

    /// Registers a named security scheme referenced by operation contracts.
    #[must_use]
    pub fn security_scheme(self, scheme: SecuritySchemeDescriptor) -> (app: Self)
        ensures
            app.spec_operations() == self.spec_operations(),
            app.spec_schemes() == self.spec_schemes().push(scheme),
    {
        let mut security_schemes = self.security_schemes;
        security_schemes.push(scheme);
        App { operations: self.operations, security_schemes }
    }

    fn repeated_scheme(&self) -> (found: Option<usize>)
        ensures
            match found {
                Some(at) => at < self.spec_schemes().len() && first_repeat(
                    scheme_names(self.spec_schemes()),
                    0,
                ) == Some(self.spec_schemes()[at as int].name@),
                None => first_repeat(scheme_names(self.spec_schemes()), 0) is None,
            },
    {
        let mut names: Vec<String> = Vec::new();
        let mut index: usize = 0;
        while index < self.security_schemes.len()
            invariant
                index <= self.security_schemes@.len(),
                names@.len() == index,
                forall|i: int|
                    0 <= i < index ==> (#[trigger] names@[i])@ == self.security_schemes@[i].name@,
            decreases self.security_schemes@.len() - index,
        {
            names.push(self.security_schemes[index].name.clone());
            index += 1;
        }
        assert(texts(names@) =~= scheme_names(self.security_schemes@));
        repeated_name(&names)
    }

    fn check_operation(&self, at: usize) -> (result: Result<(), BuildError>)
        requires
            at < self.spec_operations().len(),
        ensures
            match result {
                Ok(()) => operation_fault(
                    self.spec_operations(),
                    self.spec_schemes(),
                    at as int,
                ) is None,
                Err(error) => operation_fault(
                    self.spec_operations(),
                    self.spec_schemes(),
                    at as int,
                ) == Some(error@),
            },
    {
        let operation = &self.operations[at];
        match validate_operation_inputs(operation) {
            Err(error) => {
                return Err(error);
            },
            Ok(()) => {},
        }
        match validate_operation_security(operation, &self.security_schemes) {
            Err(error) => {
                return Err(error);
            },
            Ok(()) => {},
        }
        let mut repeated_id = false;
        let mut repeated_binding = false;
        let mut repeated_route = false;
        let mut index: usize = 0;
        while index < at
            invariant
                index <= at < self.operations@.len(),
                *operation == self.operations@[at as int],
                repeated_id <==> exists|i: int|
                    0 <= i < index && (#[trigger] self.operations@[i]).contract.id@
                        == operation.contract.id@,
                repeated_binding <==> exists|i: int|
                    0 <= i < index && same_binding(#[trigger] self.operations@[i], *operation),
                repeated_route <==> exists|i: int|
                    0 <= i < index && same_route(#[trigger] self.operations@[i], *operation),
            decreases at - index,
        {
            let other = &self.operations[index];
            if eq_text(other.contract.id.as_str(), operation.contract.id.as_str()) {
                assert(self.operations@[index as int].contract.id@ == operation.contract.id@);
                repeated_id = true;
            }
            if other.http.method == operation.http.method {
                if eq_text(other.http.path.as_str(), operation.http.path.as_str()) {
                    assert(same_binding(self.operations@[index as int], *operation));
                    repeated_binding = true;
                }
                if same_shape(other.http.path.as_str(), operation.http.path.as_str()) {
                    assert(same_route(self.operations@[index as int], *operation));
                    repeated_route = true;
                }
            }
            index += 1;
        }
        if repeated_id {
            Err(BuildError::DuplicateOperationId(operation.contract.id.clone()))
        } else if repeated_binding {
            Err(
                BuildError::DuplicateHttpBinding {
                    method: operation.http.method,
                    path: operation.http.path.clone(),
                },
            )
        } else if repeated_route {
            Err(
                BuildError::AmbiguousHttpBinding {
                    method: operation.http.method,
                    path: operation.http.path.clone(),
                },
            )
        } else {
            Ok(())
        }
    }

    /// Validates and deterministically orders the application graph.
    pub fn build(self) -> (result: Result<AppDefinition, BuildError>)
        ensures
            match result {
                Ok(definition) => defines(
                    self.spec_operations(),
                    self.spec_schemes(),
                    definition,
                ),
                Err(error) => build_fault(self.spec_operations(), self.spec_schemes()) == Some(
                    error@,
                ),
            },
    {
        match self.repeated_scheme() {
            Some(at) => {
                return Err(
                    BuildError::DuplicateSecurityScheme(self.security_schemes[at].name.clone()),
                );
            },
            None => {},
        }
        let mut index: usize = 0;
        while index < self.operations.len()
            invariant
                index <= self.operations@.len(),
                first_repeat(scheme_names(self.security_schemes@), 0) is None,
                operations_fault(self.operations@, self.security_schemes@, 0) == operations_fault(
                    self.operations@,
                    self.security_schemes@,
                    index as int,
                ),
            decreases self.operations@.len() - index,
        {
            match self.check_operation(index) {
                Err(error) => {
                    return Err(error);
                },
                Ok(()) => {},
            }
            index += 1;
        }
        let ghost all = self.operations@;
        let ghost schemes = self.security_schemes@;
        let operations = arrange(self.operations);
        let security_schemes = arrange(self.security_schemes);
        proof {
            lemma_strict_operations(all, schemes, operations@);
            lemma_strict_schemes(schemes, security_schemes@);
        }
        Ok(AppDefinition { operations, security_schemes })
    }
}

fn same_shape(left: &str, right: &str) -> (same: bool)
    ensures
        same == (route_shape(left@) == route_shape(right@)),
{
    let left_chars = chars_of(left);
    let right_chars = chars_of(right);
    let a = split_chars(left_chars.as_slice(), '/');
    let b = split_chars(right_chars.as_slice(), '/');
    let ghost shape_a = route_shape(left@);
    let ghost shape_b = route_shape(right@);
    if a.len() != b.len() {
        assert(shape_a.len() == a@.len() && shape_b.len() == b@.len());
        return false;
    }
    let mut index: usize = 0;
    while index < a.len()
        invariant
            index <= a@.len(),
            a@.len() == b@.len(),
            char_lists(a@) == split_spec(left@, '/'),
            char_lists(b@) == split_spec(right@, '/'),
            shape_a == route_shape(left@),
            shape_b == route_shape(right@),
            shape_a.len() == a@.len(),
            shape_b.len() == b@.len(),
            forall|i: int| 0 <= i < index ==> shape_a[i] == shape_b[i],
        decreases a@.len() - index,
    {
        let x = &a[index];
        let y = &b[index];
        assert(char_lists(a@)[index as int] == x@);
        assert(char_lists(b@)[index as int] == y@);
        let parameter_x = placeholder(x.as_slice());
        let parameter_y = placeholder(y.as_slice());
        let same = if parameter_x || parameter_y {
            parameter_x && parameter_y
        } else {
            eq_chars(x.as_slice(), y.as_slice())
        };
        if !same {
            assert(shape_a[index as int] != shape_b[index as int]);
            return false;
        }
        assert(shape_a[index as int] =~= shape_b[index as int]);
        index += 1;
    }
    assert(shape_a =~= shape_b);
    true
}

// ---------------------------------------------------------------------------
// What makes an application valid
// ---------------------------------------------------------------------------

/// A path has a placeholder with a name.
pub open spec fn path_asks_for(path: Seq<char>, name: Seq<char>) -> bool {
    name.len() > 0 && split_spec(path, '/').contains(seq!['{'] + name + seq!['}'])
}

/// An input is known under a name: one of the fields of its model, or its own.
pub open spec fn known_under(input: InputView, name: Seq<char>) -> bool {
    match input.ty.model {
        Some(model) => exists|i: int|
            0 <= i < model.fields.len() && (#[trigger] model.fields[i]).name == name,
        None => input.name == name,
    }
}

/// No name is taken twice among inputs.
pub open spec fn names_apart(inputs: Seq<InputView>) -> bool {
    &&& forall|a: int, b: int, name: Seq<char>|
        0 <= a < b < inputs.len() && #[trigger] known_under(inputs[a], name)
            ==> !#[trigger] known_under(inputs[b], name)
    &&& forall|a: int, i: int, j: int|
        #![trigger inputs[a].ty.model->Some_0.fields[i], inputs[a].ty.model->Some_0.fields[j]]
        0 <= a < inputs.len() && inputs[a].ty.model is Some && 0 <= i < j
            < inputs[a].ty.model->Some_0.fields.len()
            ==> inputs[a].ty.model->Some_0.fields[i].name
            != inputs[a].ty.model->Some_0.fields[j].name
}

/// A requirement can be met: a scheme is registered for it and declares its scopes;
/// only an OAuth2 scheme declares any.
pub open spec fn can_be_met(
    requirement: SecurityView,
    schemes: Seq<SecuritySchemeDescriptor>,
) -> bool {
    exists|i: int|
        {
            &&& 0 <= i < schemes.len()
            &&& (#[trigger] schemes[i]).name@ == requirement.scheme
            &&& forall|k: int|
                0 <= k < requirement.scopes.len() ==> (schemes[i].kind matches
                    SecuritySchemeKind::OAuth2 { scopes, .. } && texts(scopes@).contains(
                    #[trigger] requirement.scopes[k],
                ))
        }
}

/// Two paths that a request cannot tell apart: segment by segment, they are both
/// placeholders or the same text.
pub open spec fn paths_collide(left: Seq<char>, right: Seq<char>) -> bool {
    let a = split_spec(left, '/');
    let b = split_spec(right, '/');
    &&& a.len() == b.len()
    &&& forall|i: int|
        0 <= i < a.len() ==> (is_placeholder(#[trigger] a[i]) && is_placeholder(b[i])) || a[i]
            == b[i]
}

proof fn lemma_placeholder_names(segments: Seq<Seq<char>>, name: Seq<char>)
    ensures
        placeholder_names(segments).contains(name) <==> name.len() > 0 && segments.contains(
            seq!['{'] + name + seq!['}'],
        ),
    decreases segments.len(),
{
    let braced = seq!['{'] + name + seq!['}'];
    if segments.len() > 0 {
        let head = segments.drop_last();
        let last = segments.last();
        let before = placeholder_names(head);
        let all = placeholder_names(segments);
        lemma_placeholder_names(head, name);
        if head.contains(braced) {
            let i = choose|i: int| 0 <= i < head.len() && head[i] == braced;
            assert(segments[i] == braced);
        }
        if before.contains(name) {
            let i = choose|i: int| 0 <= i < before.len() && before[i] == name;
            assert(all[i] == name);
        }
        if is_placeholder(last) && last.len() > 2 {
            let own = last.subrange(1, last.len() - 1);
            assert(last =~= seq!['{'] + own + seq!['}']);
            assert(all[all.len() - 1] == own);
            if own == name {
                assert(segments[segments.len() - 1] == braced);
            }
        }
        if name.len() > 0 && last == braced {
            assert(braced[0] == '{');
            assert(braced.last() == '}');
            assert(braced.subrange(1, braced.len() - 1) =~= name);
            assert(all[all.len() - 1] == name);
        }
        if all.contains(name) {
            let i = choose|i: int| 0 <= i < all.len() && all[i] == name;
            if i < before.len() {
                assert(before[i] == name);
            }
        }
        if segments.contains(braced) {
            let i = choose|i: int| 0 <= i < segments.len() && segments[i] == braced;
            if i < head.len() {
                assert(head[i] == braced);
            }
        }
    }
}

proof fn lemma_public_names(input: InputView, name: Seq<char>)
    ensures
        public_names(input).contains(name) <==> known_under(input, name),
{
    match input.ty.model {
        Some(model) => {
            let names = public_names(input);
            if known_under(input, name) {
                let i = choose|i: int|
                    0 <= i < model.fields.len() && (#[trigger] model.fields[i]).name == name;
                assert(names[i] == name);
            }
            if names.contains(name) {
                let i = choose|i: int| 0 <= i < names.len() && names[i] == name;
                assert(model.fields[i].name == name);
            }
        },
        None => {
            assert(public_names(input)[0] == input.name);
        },
    }
}

proof fn lemma_names_of(inputs: Seq<InputView>, paths_only: bool, name: Seq<char>)
    ensures
        names_of(inputs, paths_only).contains(name) <==> exists|i: int|
            0 <= i < inputs.len() && (!paths_only || (#[trigger] inputs[i]).source
                == InputSource::Path) && known_under(inputs[i], name),
    decreases inputs.len(),
{
    if inputs.len() > 0 {
        let head = inputs.drop_last();
        let last = inputs.last();
        let before = names_of(head, paths_only);
        let all = names_of(inputs, paths_only);
        let own = public_names(last);
        lemma_names_of(head, paths_only, name);
        lemma_public_names(last, name);
        assert forall|i: int| 0 <= i < head.len() implies #[trigger] inputs[i] == head[i] by {}
        assert(inputs[inputs.len() - 1] == last);
        if before.contains(name) {
            let i = choose|i: int| 0 <= i < before.len() && before[i] == name;
            assert(all[i] == name);
            let k = choose|k: int|
                0 <= k < head.len() && (!paths_only || (#[trigger] head[k]).source
                    == InputSource::Path) && known_under(head[k], name);
            assert(inputs[k] == head[k]);
        }
        if !(paths_only && last.source != InputSource::Path) {
            if own.contains(name) {
                let i = choose|i: int| 0 <= i < own.len() && own[i] == name;
                assert(all[before.len() + i] == name);
            }
            if all.contains(name) {
                let i = choose|i: int| 0 <= i < all.len() && all[i] == name;
                if i < before.len() {
                    assert(before[i] == name);
                } else {
                    assert(own[i - before.len()] == name);
                }
            }
        }
        if exists|i: int|
            0 <= i < inputs.len() && (!paths_only || (#[trigger] inputs[i]).source
                == InputSource::Path) && known_under(inputs[i], name) {
            let i = choose|i: int|
                0 <= i < inputs.len() && (!paths_only || (#[trigger] inputs[i]).source
                    == InputSource::Path) && known_under(inputs[i], name);
            if i < head.len() {
                assert(head[i] == inputs[i]);
            }
        }
    }
}

proof fn lemma_names_apart(inputs: Seq<InputView>)
    ensures
        names_of(inputs, false).no_duplicates() <==> names_apart(inputs),
    decreases inputs.len(),
{
    if inputs.len() > 0 {
        let head = inputs.drop_last();
        let last = inputs.last();
        let before = names_of(head, false);
        let own = public_names(last);
        let all = names_of(inputs, false);
        lemma_names_apart(head);
        assert forall|i: int| 0 <= i < head.len() implies #[trigger] inputs[i] == head[i] by {}
        assert(inputs[inputs.len() - 1] == last);
        if all.no_duplicates() {
            assert(before.no_duplicates()) by {
                assert forall|i: int, j: int|
                    0 <= i < before.len() && 0 <= j < before.len() && i != j implies before[i]
                    != before[j] by {
                    assert(all[i] == before[i] && all[j] == before[j]);
                }
            }
            assert forall|a: int, b: int, name: Seq<char>|
                0 <= a < b < inputs.len() && #[trigger] known_under(
                    inputs[a],
                    name,
                ) implies !#[trigger] known_under(inputs[b], name) by {
                if b < head.len() {
                    assert(known_under(head[a], name));
                    assert(!known_under(head[b], name));
                } else if known_under(inputs[b], name) {
                    assert(head[a] == inputs[a]);
                    lemma_names_of(head, false, name);
                    lemma_public_names(last, name);
                    let i = choose|i: int| 0 <= i < before.len() && before[i] == name;
                    let j = choose|j: int| 0 <= j < own.len() && own[j] == name;
                    assert(all[i] == all[before.len() + j]);
                }
            }
            assert forall|a: int, i: int, j: int|
                #![trigger inputs[a].ty.model->Some_0.fields[i], inputs[a].ty.model->Some_0.fields[j]]
                0 <= a < inputs.len() && inputs[a].ty.model is Some && 0 <= i < j
                    < inputs[a].ty.model->Some_0.fields.len() implies inputs[a].ty.model->Some_0.fields[i].name
                != inputs[a].ty.model->Some_0.fields[j].name by {
                if a < head.len() {
                    assert(head[a] == inputs[a]);
                    assert(head[a].ty.model->Some_0.fields[i].name
                        != head[a].ty.model->Some_0.fields[j].name);
                } else {
                    assert(own[i] == last.ty.model->Some_0.fields[i].name);
                    assert(own[j] == last.ty.model->Some_0.fields[j].name);
                    assert(all[before.len() + i] != all[before.len() + j]);
                }
            }
        }
        if names_apart(inputs) {
            assert(names_apart(head)) by {
                assert forall|a: int, b: int, name: Seq<char>|
                    0 <= a < b < head.len() && #[trigger] known_under(
                        head[a],
                        name,
                    ) implies !#[trigger] known_under(head[b], name) by {
                    assert(known_under(inputs[a], name));
                    assert(!known_under(inputs[b], name));
                }
                assert forall|a: int, i: int, j: int|
                    #![trigger head[a].ty.model->Some_0.fields[i], head[a].ty.model->Some_0.fields[j]]
                    0 <= a < head.len() && head[a].ty.model is Some && 0 <= i < j
                        < head[a].ty.model->Some_0.fields.len() implies head[a].ty.model->Some_0.fields[i].name
                    != head[a].ty.model->Some_0.fields[j].name by {
                    assert(inputs[a].ty.model->Some_0.fields[i].name
                        != inputs[a].ty.model->Some_0.fields[j].name);
                }
            }
            assert forall|i: int, j: int|
                0 <= i < all.len() && 0 <= j < all.len() && i < j implies all[i] != all[j] by {
                if j < before.len() {
                    assert(before[i] != before[j]);
                } else {
                    let name = own[j - before.len()];
                    assert(own.contains(name));
                    lemma_public_names(last, name);
                    if i < before.len() {
                        if before[i] == name {
                            assert(before.contains(name));
                            lemma_names_of(head, false, name);
                            let k = choose|k: int|
                                0 <= k < head.len() && (!false || (#[trigger] head[k]).source
                                    == InputSource::Path) && known_under(head[k], name);
                            assert(known_under(inputs[k], name));
                            assert(known_under(inputs[inputs.len() - 1], name));
                        }
                    } else {
                        match last.ty.model {
                            Some(model) => {
                                let x = i - before.len();
                                let y = j - before.len();
                                assert(inputs[inputs.len() - 1].ty.model->Some_0.fields[x].name
                                    != inputs[inputs.len() - 1].ty.model->Some_0.fields[y].name);
                            },
                            None => {},
                        }
                    }
                }
            }
            assert(all.no_duplicates());
        }
    }
}

proof fn lemma_repeats(names: Seq<Seq<char>>)
    ensures
        first_repeat(names, 0) is None <==> names.no_duplicates(),
{
    if first_repeat(names, 0) is None {
        lemma_no_repeat(names, 0);
        assert forall|i: int, j: int|
            0 <= i < names.len() && 0 <= j < names.len() && i != j implies names[i] != names[j] by {
            if i < j {
                assert(names[i] != names[j]);
            } else {
                assert(names[j] != names[i]);
            }
        }
    }
    if names.no_duplicates() {
        assert forall|i: int, j: int| 0 <= i < j < names.len() implies names[i] != names[j] by {}
        lemma_distinct_names(names, 0);
    }
}

proof fn lemma_unknown_scope(
    scopes: Seq<Seq<char>>,
    declared: Option<Seq<Seq<char>>>,
    at: int,
)
    requires
        0 <= at,
    ensures
        unknown_scope(scopes, declared, at) is None <==> forall|k: int|
            at <= k < scopes.len() ==> (declared matches Some(known) && known.contains(
                #[trigger] scopes[k],
            )),
        unknown_scope(scopes, declared, at) matches Some(scope) ==> scopes.contains(scope) && !(
        declared matches Some(known) && known.contains(scope)),
    decreases scopes.len() - at,
{
    if at < scopes.len() {
        lemma_unknown_scope(scopes, declared, at + 1);
        assert(scopes.contains(scopes[at]));
    }
}

proof fn lemma_met(requirement: SecurityView, schemes: Seq<SecuritySchemeDescriptor>)
    requires
        first_repeat(scheme_names(schemes), 0) is None,
    ensures
        can_be_met(requirement, schemes) <==> (scheme_named(schemes, requirement.scheme) matches Some(
            scheme,
        ) && unknown_scope(requirement.scopes, declared_scopes(scheme.kind), 0) is None),
{
    lemma_first_named(schemes, requirement.scheme);
    lemma_no_repeat(scheme_names(schemes), 0);
    match scheme_named(schemes, requirement.scheme) {
        Some(scheme) => {
            lemma_unknown_scope(requirement.scopes, declared_scopes(scheme.kind), 0);
            let at = choose|at: int| 0 <= at < schemes.len() && schemes[at] == scheme;
            if can_be_met(requirement, schemes) {
                let i = choose|i: int|
                    {
                        &&& 0 <= i < schemes.len()
                        &&& (#[trigger] schemes[i]).name@ == requirement.scheme
                        &&& forall|k: int|
                            0 <= k < requirement.scopes.len() ==> (schemes[i].kind matches
                                SecuritySchemeKind::OAuth2 { scopes, .. } && texts(
                                scopes@,
                            ).contains(#[trigger] requirement.scopes[k]))
                    };
                assert(scheme_names(schemes)[i] == scheme_names(schemes)[at]);
                assert(i == at);
            }
            if unknown_scope(requirement.scopes, declared_scopes(scheme.kind), 0) is None {
                assert(schemes[at].name@ == requirement.scheme);
                assert forall|k: int| 0 <= k < requirement.scopes.len() implies (
                schemes[at].kind matches SecuritySchemeKind::OAuth2 { scopes, .. } && texts(
                    scopes@,
                ).contains(#[trigger] requirement.scopes[k])) by {
                    assert(declared_scopes(scheme.kind) matches Some(known) && known.contains(
                        requirement.scopes[k],
                    ));
                }
            }
        },
        None => {},
    }
}

proof fn lemma_security_fault(
    id: Seq<char>,
    requirements: Seq<SecurityView>,
    schemes: Seq<SecuritySchemeDescriptor>,
    at: int,
)
    requires
        0 <= at <= requirements.len(),
        first_repeat(scheme_names(schemes), 0) is None,
    ensures
        security_fault(id, requirements, schemes, at) is None <==> forall|j: int|
            at <= j < requirements.len() ==> can_be_met(#[trigger] requirements[j], schemes)
                && forall|i: int|
                0 <= i < j ==> (#[trigger] requirements[i]).scheme != requirements[j].scheme,
    decreases requirements.len() - at,
{
    if at < requirements.len() {
        let requirement = requirements[at];
        let earlier = required_schemes(requirements.take(at));
        lemma_security_fault(id, requirements, schemes, at + 1);
        lemma_met(requirement, schemes);
        if earlier.contains(requirement.scheme) {
            let i = choose|i: int| 0 <= i < earlier.len() && earlier[i] == requirement.scheme;
            assert(requirements[i].scheme == requirements[at].scheme);
        } else {
            assert forall|i: int| 0 <= i < at implies (#[trigger] requirements[i]).scheme
                != requirement.scheme by {
                assert(earlier[i] == requirements[i].scheme);
            }
        }
        lemma_unknown_scope(
            requirement.scopes,
            match scheme_named(schemes, requirement.scheme) {
                Some(scheme) => declared_scopes(scheme.kind),
                None => None,
            },
            0,
        );
    }
}

proof fn lemma_colliding_paths(left: Seq<char>, right: Seq<char>)
    ensures
        route_shape(left) == route_shape(right) <==> paths_collide(left, right),
{
    let a = split_spec(left, '/');
    let b = split_spec(right, '/');
    let x = route_shape(left);
    let y = route_shape(right);
    let hole = seq!['{', '}'];
    assert(hole[0] == '{' && hole.last() == '}');
    if x == y {
        assert(a.len() == x.len() && b.len() == y.len());
        assert forall|i: int| 0 <= i < a.len() implies (is_placeholder(#[trigger] a[i])
            && is_placeholder(b[i])) || a[i] == b[i] by {
            assert(x[i] == y[i]);
        }
    }
    if paths_collide(left, right) {
        assert forall|i: int| 0 <= i < a.len() implies x[i] == y[i] by {
            assert((is_placeholder(a[i]) && is_placeholder(b[i])) || a[i] == b[i]);
        }
        assert(x =~= y);
    }
}

/// An operation stands on its own: its path asks for exactly its path inputs, no
/// name is taken twice among its inputs, and each of its security requirements can
/// be met and is stated once.
pub open spec fn stands_alone(
    operation: OperationDescriptor,
    schemes: Seq<SecuritySchemeDescriptor>,
) -> bool {
    let contract = operation.contract@;
    &&& forall|name: Seq<char>| #[trigger]
        path_asks_for(operation.http.path@, name) <==> exists|i: int|
            0 <= i < contract.inputs.len() && (#[trigger] contract.inputs[i]).source
                == InputSource::Path && known_under(contract.inputs[i], name)
    &&& names_apart(contract.inputs)
    &&& forall|j: int|
        0 <= j < contract.security.len() ==> can_be_met(#[trigger] contract.security[j], schemes)
            && forall|i: int|
            0 <= i < j ==> (#[trigger] contract.security[i]).scheme != contract.security[j].scheme
}

proof fn lemma_stands_alone(
    operation: OperationDescriptor,
    schemes: Seq<SecuritySchemeDescriptor>,
)
    requires
        first_repeat(scheme_names(schemes), 0) is None,
    ensures
        stands_alone(operation, schemes) <==> input_fault(operation) is None && security_fault(
            operation.contract@.id,
            operation.contract@.security,
            schemes,
            0,
        ) is None,
{
    let contract = operation.contract@;
    let segments = split_spec(operation.http.path@, '/');
    let holes = placeholder_names(segments);
    let given = names_of(contract.inputs, true);
    lemma_security_fault(contract.id, contract.security, schemes, 0);
    lemma_names_apart(contract.inputs);
    lemma_repeats(names_of(contract.inputs, false));
    assert forall|name: Seq<char>| #[trigger] path_asks_for(operation.http.path@, name)
        == holes.contains(name) by {
        lemma_placeholder_names(segments, name);
    }
    assert forall|name: Seq<char>| #[trigger] given.contains(name) <==> exists|i: int|
        0 <= i < contract.inputs.len() && (#[trigger] contract.inputs[i]).source
            == InputSource::Path && known_under(contract.inputs[i], name) by {
        lemma_names_of(contract.inputs, true, name);
        if exists|i: int|
            0 <= i < contract.inputs.len() && (#[trigger] contract.inputs[i]).source
                == InputSource::Path && known_under(contract.inputs[i], name) {
            let i = choose|i: int|
                0 <= i < contract.inputs.len() && (#[trigger] contract.inputs[i]).source
                    == InputSource::Path && known_under(contract.inputs[i], name);
            assert(!true || contract.inputs[i].source == InputSource::Path);
        }
    }
    if same_members(holes, given) {
        assert forall|name: Seq<char>| holes.contains(name) == #[trigger] given.contains(name) by {
            if holes.contains(name) {
                let i = choose|i: int| 0 <= i < holes.len() && holes[i] == name;
                assert(given.contains(holes[i]));
            }
            if given.contains(name) {
                let i = choose|i: int| 0 <= i < given.len() && given[i] == name;
                assert(holes.contains(given[i]));
            }
        }
        assert forall|name: Seq<char>| #[trigger] path_asks_for(
            operation.http.path@,
            name,
        ) == given.contains(name) by {}
    }
    if stands_alone(operation, schemes) {
        assert forall|i: int| 0 <= i < holes.len() implies given.contains(#[trigger] holes[i]) by {
            assert(holes.contains(holes[i]));
            assert(path_asks_for(operation.http.path@, holes[i]));
        }
        assert forall|i: int| 0 <= i < given.len() implies holes.contains(#[trigger] given[i]) by {
            assert(given.contains(given[i]));
            assert(path_asks_for(operation.http.path@, given[i]));
        }
    }
}

/// An application is valid if and only if no two of its security schemes share a
/// name, each of its operations stands on its own, no two operations share an id,
/// and no two are bound to the same method and to paths that a request cannot tell
/// apart.
pub proof fn law_what_makes_an_application_valid(
    operations: Seq<OperationDescriptor>,
    schemes: Seq<SecuritySchemeDescriptor>,
)
    ensures
        build_fault(operations, schemes) is None <==> {
            &&& forall|i: int, j: int|
                0 <= i < j < schemes.len() ==> (#[trigger] schemes[i]).name@ != (
                #[trigger] schemes[j]).name@
            &&& forall|i: int|
                0 <= i < operations.len() ==> stands_alone(#[trigger] operations[i], schemes)
            &&& forall|i: int, j: int|
                0 <= i < j < operations.len() ==> {
                    &&& (#[trigger] operations[i]).contract.id@ != (
                    #[trigger] operations[j]).contract.id@
                    &&& !(operations[i].http.method == operations[j].http.method && paths_collide(
                        operations[i].http.path@,
                        operations[j].http.path@,
                    ))
                }
        },
{
    let names = scheme_names(schemes);
    lemma_repeats(names);
    if names.no_duplicates() {
        assert forall|i: int, j: int| 0 <= i < j < schemes.len() implies (
        #[trigger] schemes[i]).name@ != (#[trigger] schemes[j]).name@ by {
            assert(names[i] != names[j]);
        }
    }
    if forall|i: int, j: int|
        0 <= i < j < schemes.len() ==> (#[trigger] schemes[i]).name@ != (
        #[trigger] schemes[j]).name@ {
        assert forall|i: int, j: int|
            0 <= i < names.len() && 0 <= j < names.len() && i != j implies names[i] != names[j] by {
            if i < j {
                assert(schemes[i].name@ != schemes[j].name@);
            } else {
                assert(schemes[j].name@ != schemes[i].name@);
            }
        }
        assert(names.no_duplicates());
    }
    if first_repeat(names, 0) is None {
        assert forall|i: int| 0 <= i < operations.len() implies (input_fault(
            #[trigger] operations[i],
        ) is None && security_fault(
            operations[i].contract@.id,
            operations[i].contract@.security,
            schemes,
            0,
        ) is None) == stands_alone(operations[i], schemes) by {
            lemma_stands_alone(operations[i], schemes);
        }
        assert forall|i: int, j: int| 0 <= i < j < operations.len() implies same_route(
            #[trigger] operations[i],
            #[trigger] operations[j],
        ) == (operations[i].http.method == operations[j].http.method && paths_collide(
            operations[i].http.path@,
            operations[j].http.path@,
        )) by {
            lemma_colliding_paths(operations[i].http.path@, operations[j].http.path@);
        }
        if operations_fault(operations, schemes, 0) is None {
            lemma_no_operation_fault(operations, schemes, 0);
            assert forall|i: int| 0 <= i < operations.len() implies stands_alone(
                #[trigger] operations[i],
                schemes,
            ) by {
                assert(operation_fault(operations, schemes, i) is None);
            }
            assert forall|i: int, j: int| 0 <= i < j < operations.len() implies {
                &&& (#[trigger] operations[i]).contract.id@ != (
                #[trigger] operations[j]).contract.id@
                &&& !(operations[i].http.method == operations[j].http.method && paths_collide(
                    operations[i].http.path@,
                    operations[j].http.path@,
                ))
            } by {
                assert(operation_fault(operations, schemes, j) is None);
                assert(!same_route(operations[i], operations[j]));
            }
        }
        if {
            &&& forall|i: int|
                0 <= i < operations.len() ==> stands_alone(#[trigger] operations[i], schemes)
            &&& forall|i: int, j: int|
                0 <= i < j < operations.len() ==> {
                    &&& (#[trigger] operations[i]).contract.id@ != (
                    #[trigger] operations[j]).contract.id@
                    &&& !(operations[i].http.method == operations[j].http.method && paths_collide(
                        operations[i].http.path@,
                        operations[j].http.path@,
                    ))
                }
        } {
            assert forall|j: int| 0 <= j < operations.len() implies operation_fault(
                operations,
                schemes,
                j,
            ) is None by {
                assert(stands_alone(operations[j], schemes));
                assert forall|i: int| 0 <= i < j implies {
                    &&& (#[trigger] operations[i]).contract.id@ != operations[j].contract.id@
                    &&& !same_binding(operations[i], operations[j])
                    &&& !same_route(operations[i], operations[j])
                } by {
                    assert(operations[i].contract.id@ != operations[j].contract.id@);
                }
            }
            lemma_no_fault_among(operations, schemes, 0);
        }
    }
}

/// A fault is what it says: the name, the id or the binding that it reports as a
/// repetition is there twice, and what it reports of one operation holds of an
/// operation with that id.
pub proof fn law_faults_are_what_they_say(
    operations: Seq<OperationDescriptor>,
    schemes: Seq<SecuritySchemeDescriptor>,
)
    ensures
        match build_fault(operations, schemes) {
            Some(BuildFault::DuplicateSecurityScheme(name)) => exists|i: int, j: int|
                0 <= i < j < schemes.len() && (#[trigger] schemes[i]).name@ == name && (
                #[trigger] schemes[j]).name@ == name,
            Some(BuildFault::DuplicateOperationId(id)) => exists|i: int, j: int|
                0 <= i < j < operations.len() && (#[trigger] operations[i]).contract.id@ == id && (
                #[trigger] operations[j]).contract.id@ == id,
            Some(BuildFault::DuplicateHttpBinding { method, path }) => exists|i: int, j: int|
                0 <= i < j < operations.len() && (#[trigger] operations[i]).http.method == method
                    && operations[i].http.path@ == path && (#[trigger] operations[j]).http.method
                    == method && operations[j].http.path@ == path,
            Some(BuildFault::AmbiguousHttpBinding { method, path }) => exists|i: int, j: int|
                0 <= i < j < operations.len() && (#[trigger] operations[i]).http.method == method
                    && operations[i].http.path@ != path && paths_collide(
                    operations[i].http.path@,
                    path,
                ) && (#[trigger] operations[j]).http.method == method && operations[j].http.path@
                    == path,
            Some(BuildFault::InvalidPathInputs { operation }) => exists|j: int, name: Seq<char>|
                0 <= j < operations.len() && (#[trigger] operations[j]).contract.id@ == operation && (
                #[trigger] path_asks_for(operations[j].http.path@, name)) != names_of(
                    operations[j].contract@.inputs,
                    true,
                ).contains(name),
            Some(BuildFault::DuplicateInputName { operation, name }) => exists|j: int|
                0 <= j < operations.len() && (#[trigger] operations[j]).contract.id@ == operation
                    && !names_apart(operations[j].contract@.inputs) && names_of(
                    operations[j].contract@.inputs,
                    false,
                ).contains(name),
            Some(BuildFault::UnknownSecurityScheme { operation, scheme }) => (forall|i: int|
                0 <= i < schemes.len() ==> (#[trigger] schemes[i]).name@ != scheme) && exists|j: int|
                0 <= j < operations.len() && (#[trigger] operations[j]).contract.id@ == operation
                    && required_schemes(operations[j].contract@.security).contains(scheme),
            Some(BuildFault::DuplicateSecurityRequirement { operation, scheme }) => exists|j: int|
                0 <= j < operations.len() && (#[trigger] operations[j]).contract.id@ == operation
                    && !required_schemes(operations[j].contract@.security).no_duplicates()
                    && required_schemes(operations[j].contract@.security).contains(scheme),
            Some(BuildFault::UnknownSecurityScope { operation, scheme, scope }) => exists|j: int|
                0 <= j < operations.len() && (#[trigger] operations[j]).contract.id@ == operation
                    && required_schemes(operations[j].contract@.security).contains(scheme) && !(
                scheme_named(schemes, scheme) matches Some(found) && declared_scopes(
                    found.kind,
                ) matches Some(known) && known.contains(scope)),
            None => true,
        },
{
    let names = scheme_names(schemes);
    match first_repeat(names, 0) {
        Some(name) => {
            let (i, j) = lemma_repeated(names, 0);
            assert(schemes[i].name@ == name && schemes[j].name@ == name);
        },
        None => {
            lemma_faulty_operation(operations, schemes, 0);
            if operations_fault(operations, schemes, 0) is Some {
                let at = choose|at: int|
                    0 <= at < operations.len() && #[trigger] operation_fault(
                        operations,
                        schemes,
                        at,
                    ) == operations_fault(operations, schemes, 0);
                lemma_fault_of(operations, schemes, at);
            }
        },
    }
}

proof fn lemma_repeated(names: Seq<Seq<char>>, at: int) -> (found: (int, int))
    requires
        first_repeat(names, at) is Some,
    ensures
        0 <= found.0 < found.1 < names.len(),
        names[found.0] == first_repeat(names, at)->Some_0,
        names[found.1] == first_repeat(names, at)->Some_0,
    decreases names.len() - at,
{
    if names.take(at).contains(names[at]) {
        let i = choose|i: int| 0 <= i < names.take(at).len() && names.take(at)[i] == names[at];
        (i, at)
    } else {
        lemma_repeated(names, at + 1)
    }
}

proof fn lemma_faulty_operation(
    operations: Seq<OperationDescriptor>,
    schemes: Seq<SecuritySchemeDescriptor>,
    from: int,
)
    requires
        0 <= from,
    ensures
        operations_fault(operations, schemes, from) is Some ==> exists|at: int|
            from <= at < operations.len() && #[trigger] operation_fault(operations, schemes, at)
                == operations_fault(operations, schemes, from),
    decreases operations.len() - from,
{
    if from < operations.len() {
        lemma_faulty_operation(operations, schemes, from + 1);
        assert(operation_fault(operations, schemes, from) == operation_fault(
            operations,
            schemes,
            from,
        ));
    }
}

proof fn lemma_fault_of(
    operations: Seq<OperationDescriptor>,
    schemes: Seq<SecuritySchemeDescriptor>,
    at: int,
)
    requires
        0 <= at < operations.len(),
        operation_fault(operations, schemes, at) is Some,
    ensures
        ({
            let operation = operations[at];
            let contract = operation.contract@;
            match operation_fault(operations, schemes, at)->Some_0 {
                BuildFault::InvalidPathInputs { operation: id } => id == contract.id && exists|
                    name: Seq<char>,
                | (#[trigger] path_asks_for(operation.http.path@, name)) != names_of(
                        contract.inputs,
                        true,
                    ).contains(name),
                BuildFault::DuplicateInputName { operation: id, name } => id == contract.id
                    && !names_apart(contract.inputs) && names_of(contract.inputs, false).contains(
                    name,
                ),
                BuildFault::UnknownSecurityScheme { operation: id, scheme } => id == contract.id && (
                forall|i: int| 0 <= i < schemes.len() ==> (#[trigger] schemes[i]).name@ != scheme)
                    && required_schemes(contract.security).contains(scheme),
                BuildFault::DuplicateSecurityRequirement { operation: id, scheme } => id
                    == contract.id && !required_schemes(contract.security).no_duplicates()
                    && required_schemes(contract.security).contains(scheme),
                BuildFault::UnknownSecurityScope { operation: id, scheme, scope } => id
                    == contract.id && required_schemes(contract.security).contains(scheme) && !(
                scheme_named(schemes, scheme) matches Some(found) && declared_scopes(
                    found.kind,
                ) matches Some(known) && known.contains(scope)),
                BuildFault::DuplicateOperationId(id) => id == operation.contract.id@ && exists|
                    i: int,
                |
                    0 <= i < at && (#[trigger] operations[i]).contract.id@ == id,
                BuildFault::DuplicateHttpBinding { method, path } => method == operation.http.method
                    && path == operation.http.path@ && exists|i: int|
                    0 <= i < at && (#[trigger] operations[i]).http.method == method
                        && operations[i].http.path@ == path,
                BuildFault::AmbiguousHttpBinding { method, path } => method == operation.http.method
                    && path == operation.http.path@ && exists|i: int|
                    0 <= i < at && (#[trigger] operations[i]).http.method == method
                        && operations[i].http.path@ != path && paths_collide(
                        operations[i].http.path@,
                        path,
                    ),
                BuildFault::DuplicateSecurityScheme(_) => false,
            }
        }),
{
    let operation = operations[at];
    let contract = operation.contract@;
    let segments = split_spec(operation.http.path@, '/');
    let holes = placeholder_names(segments);
    let given = names_of(contract.inputs, true);
    if !same_members(holes, given) {
        if exists|i: int| 0 <= i < holes.len() && !given.contains(#[trigger] holes[i]) {
            let i = choose|i: int| 0 <= i < holes.len() && !given.contains(#[trigger] holes[i]);
            lemma_placeholder_names(segments, holes[i]);
            assert(holes.contains(holes[i]));
            assert(path_asks_for(operation.http.path@, holes[i]) != given.contains(holes[i]));
        } else {
            let i = choose|i: int| 0 <= i < given.len() && !holes.contains(#[trigger] given[i]);
            lemma_placeholder_names(segments, given[i]);
            assert(given.contains(given[i]));
            assert(path_asks_for(operation.http.path@, given[i]) != given.contains(given[i]));
        }
    } else {
        let names = names_of(contract.inputs, false);
        match first_repeat(names, 0) {
            Some(name) => {
                let (i, j) = lemma_repeated(names, 0);
                lemma_names_apart(contract.inputs);
                assert(names.contains(names[i]));
            },
            None => {
                lemma_security_told(contract.id, contract.security, schemes, 0);
                if security_fault(contract.id, contract.security, schemes, 0) is None {
                    if exists|i: int|
                        0 <= i < at && same_binding(#[trigger] operations[i], operation) {
                    } else if exists|i: int|
                        0 <= i < at && same_route(#[trigger] operations[i], operation) {
                        let i = choose|i: int|
                            0 <= i < at && same_route(#[trigger] operations[i], operation);
                        lemma_colliding_paths(operations[i].http.path@, operation.http.path@);
                        assert(!same_binding(operations[i], operation));
                    }
                }
            },
        }
    }
}

proof fn lemma_security_told(
    id: Seq<char>,
    requirements: Seq<SecurityView>,
    schemes: Seq<SecuritySchemeDescriptor>,
    at: int,
)
    requires
        0 <= at <= requirements.len(),
    ensures
        ({
            let asked = required_schemes(requirements);
            match security_fault(id, requirements, schemes, at) {
                Some(BuildFault::UnknownSecurityScheme { operation, scheme }) => operation == id && (
                forall|i: int| 0 <= i < schemes.len() ==> (#[trigger] schemes[i]).name@ != scheme)
                    && asked.contains(scheme),
                Some(BuildFault::DuplicateSecurityRequirement { operation, scheme }) => operation
                    == id && !asked.no_duplicates() && asked.contains(scheme),
                Some(BuildFault::UnknownSecurityScope { operation, scheme, scope }) => operation
                    == id && asked.contains(scheme) && !(scheme_named(schemes, scheme) matches Some(
                    found,
                ) && declared_scopes(found.kind) matches Some(known) && known.contains(scope)),
                Some(_) => false,
                None => true,
            }
        }),
    decreases requirements.len() - at,
{
    if at < requirements.len() {
        let asked = required_schemes(requirements);
        let requirement = requirements[at];
        let earlier = required_schemes(requirements.take(at));
        assert(asked[at] == requirement.scheme);
        lemma_first_named(schemes, requirement.scheme);
        if earlier.contains(requirement.scheme) {
            let i = choose|i: int| 0 <= i < earlier.len() && earlier[i] == requirement.scheme;
            assert(asked[i] == earlier[i]);
            assert(asked[i] == asked[at]);
        } else {
            match scheme_named(schemes, requirement.scheme) {
                Some(scheme) => {
                    lemma_unknown_scope(requirement.scopes, declared_scopes(scheme.kind), 0);
                },
                None => {},
            }
            lemma_security_told(id, requirements, schemes, at + 1);
        }
    }
}

/// Methods go by their own names, in capitals, and no two share one.
pub proof fn law_methods_have_their_own_names(left: HttpMethod, right: HttpMethod)
    ensures
        method_name(left) == method_name(right) <==> left == right,
        openapi_key(left) == openapi_key(right) <==> left == right,
        left != HttpMethod::Connect ==> openapi_key(left) == crate::text::lower_all(
            method_name(left),
        ),
{
    reveal_strlit("GET");
    reveal_strlit("HEAD");
    reveal_strlit("POST");
    reveal_strlit("PUT");
    reveal_strlit("PATCH");
    reveal_strlit("DELETE");
    reveal_strlit("OPTIONS");
    reveal_strlit("TRACE");
    reveal_strlit("CONNECT");
    reveal_strlit("get");
    reveal_strlit("head");
    reveal_strlit("post");
    reveal_strlit("put");
    reveal_strlit("patch");
    reveal_strlit("delete");
    reveal_strlit("options");
    reveal_strlit("trace");
    reveal_strlit("x-blazingly-connect");
    let a = method_name(left);
    let b = method_name(right);
    let x = openapi_key(left);
    let y = openapi_key(right);
    if a == b {
        assert(a[0] == b[0]);
        assert(a[1] == b[1]);
        assert(a.len() == b.len());
    }
    if x == y {
        assert(x[0] == y[0]);
        assert(x[1] == y[1]);
        assert(x.len() == y.len());
    }
    if left != HttpMethod::Connect {
        assert(x =~= crate::text::lower_all(a));
    }
}

} // verus!
