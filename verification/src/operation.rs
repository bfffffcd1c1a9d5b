//! Operation-level descriptors: inputs, responses, policies and the contract
//! that ties them together.
use crate::contract::{
    is_identity, list_view, model_type_view, scalar_view, ContractFormatVersion,
    InvalidOperationId, ModelDescriptor, ModelView, OperationId, SchemaKind, TypeDescriptor,
    TypeView, CURRENT_FORMAT_MAJOR, CURRENT_FORMAT_MINOR,
};
use crate::text::{chars_of, is_white, white_spec};
use vstd::prelude::*;
use vstd::string::*;

verus! {

// ---------------------------------------------------------------------------
// Validation failures
// ---------------------------------------------------------------------------

/// One typed model-validation failure.
#[derive(Debug, PartialEq, Eq)]
pub struct FieldViolation {
    pub field: String,
    pub code: String,
    pub message: String,
}

/// What a violation says.
pub struct ViolationView {
    pub field: Seq<char>,
    pub code: Seq<char>,
    pub message: Seq<char>,
}

impl View for FieldViolation {
    type V = ViolationView;

    open spec fn view(&self) -> ViolationView {
        ViolationView { field: self.field@, code: self.code@, message: self.message@ }
    }
}

impl Clone for FieldViolation {
    fn clone(&self) -> (copy: Self)
        ensures
            copy@ == self@,
    {
        FieldViolation {
            field: self.field.clone(),
            code: self.code.clone(),
            message: self.message.clone(),
        }
    }
}

/// All model-validation failures collected in one pass.
#[derive(Clone, Debug, PartialEq, Eq)]
pub struct ValidationErrors {
    violations: Vec<FieldViolation>,
}

impl View for ValidationErrors {
    type V = Seq<ViolationView>;

    closed spec fn view(&self) -> Seq<ViolationView> {
        self.violations@.map_values(|violation: FieldViolation| violation@)
    }
}

impl Default for ValidationErrors {
    fn default() -> (errors: Self)
        ensures
            errors@ == Seq::<ViolationView>::empty(),
    {
        ValidationErrors::new()
    }
}

impl ValidationErrors {
    #[must_use]
    pub fn new() -> (errors: Self)
        ensures
            errors@ == Seq::<ViolationView>::empty(),
    {
        let errors = ValidationErrors { violations: Vec::new() };
        assert(errors@ =~= Seq::<ViolationView>::empty());
        errors
    }

    pub fn push(&mut self, field: &str, code: &str, message: &str)
        ensures
            final(self)@ == old(self)@.push(
                ViolationView { field: field@, code: code@, message: message@ },
            ),
    {
        self.violations.push(
            FieldViolation {
                field: field.to_owned(),
                code: code.to_owned(),
                message: message.to_owned(),
            },
        );
        assert(self@ =~= old(self)@.push(
            ViolationView { field: field@, code: code@, message: message@ },
        ));
    }

    #[must_use]
    pub fn is_empty(&self) -> (empty: bool)
        ensures
            empty == (self@.len() == 0),
    {
        self.violations.len() == 0
    }

    #[must_use]
    pub fn violations(&self) -> (violations: &[FieldViolation])
        ensures
            violations@.map_values(|violation: FieldViolation| violation@) == self@,
    {
        self.violations.as_slice()
    }
}

/// A text that reads as an email address: something before the first `@`, a
/// domain with a dot after it, and no white space.
pub open spec fn email_shaped(value: Seq<char>) -> bool {
    &&& exists|at: int|
        {
            &&& 0 < at < value.len() - 1
            &&& #[trigger] value[at] == '@'
            &&& forall|i: int| 0 <= i < at ==> value[i] != '@'
            &&& exists|dot: int| at < dot < value.len() && #[trigger] value[dot] == '.'
        }
    &&& forall|i: int| 0 <= i < value.len() ==> !white_spec(#[trigger] value[i])
}

/// Conservative email syntax check.
#[must_use]
pub fn is_email(value: &str) -> (email: bool)
    ensures
        email == email_shaped(value@),
{
    let characters = chars_of(value);
    let ghost text = value@;
    let mut at: usize = 0;
    while at < characters.len() && characters[at] != '@'
        invariant
            characters@ == text,
            at <= text.len(),
            forall|i: int| 0 <= i < at ==> text[i] != '@',
        decreases text.len() - at,
    {
        at += 1;
    }
    if at == characters.len() || at == 0 || at + 1 == characters.len() {
        proof {
            if exists|k: int|
                {
                    &&& 0 < k < text.len() - 1
                    &&& #[trigger] text[k] == '@'
                    &&& forall|i: int| 0 <= i < k ==> text[i] != '@'
                } {
                let k = choose|k: int|
                    {
                        &&& 0 < k < text.len() - 1
                        &&& #[trigger] text[k] == '@'
                        &&& forall|i: int| 0 <= i < k ==> text[i] != '@'
                    };
                assert(k >= at);
                assert(at < text.len() ==> text[at as int] == '@');
                assert(false);
            }
        }
        return false;
    }
    let mut dotted = false;
    let mut index: usize = 0;
    while index < characters.len()
        invariant
            characters@ == text,
            text == value@,
            0 < at < text.len() - 1,
            text[at as int] == '@',
            forall|i: int| 0 <= i < at ==> text[i] != '@',
            index <= text.len(),
            dotted <==> exists|dot: int| at < dot < index && #[trigger] text[dot] == '.',
            forall|i: int| 0 <= i < index ==> !white_spec(#[trigger] text[i]),
        decreases text.len() - index,
    {
        if is_white(characters[index]) {
            assert(white_spec(text[index as int]));
            return false;
        }
        if index > at && characters[index] == '.' {
            assert(text[index as int] == '.');
            dotted = true;
        }
        index += 1;
    }
    proof {
        if dotted {
            assert(text[at as int] == '@');
        } else if email_shaped(text) {
            let k = choose|k: int|
                {
                    &&& 0 < k < text.len() - 1
                    &&& #[trigger] text[k] == '@'
                    &&& forall|i: int| 0 <= i < k ==> text[i] != '@'
                    &&& exists|dot: int| k < dot < text.len() && #[trigger] text[dot] == '.'
                };
            assert(k == at);
            assert(false);
        }
    }
    dotted
}

// ---------------------------------------------------------------------------
// Schema traits
// ---------------------------------------------------------------------------

/// A model that can describe and validate itself without runtime reflection.
pub trait ApiModel {
    /// What the model describes itself as.
    spec fn described_model() -> ModelView;

    fn model_descriptor() -> (model: ModelDescriptor)
        ensures
            model@ == Self::described_model(),
    ;

    /// Validates the model and reports every field violation found.
    fn validate(&self) -> Result<(), ValidationErrors>;
}

/// A Rust type that can participate in an operation schema.
pub trait ApiSchema {
    /// What the type describes itself as.
    spec fn described() -> TypeView;

    fn type_descriptor() -> (ty: TypeDescriptor)
        ensures
            ty@ == Self::described(),
    ;

    /// Validates a decoded operation argument.
    ///
    /// Primitive schemas are valid by default; models answer through their
    /// [`ApiModel`] implementation.
    fn validate_input(&self) -> (verdict: Result<(), ValidationErrors>)
        default_ensures
            verdict is Ok,
    {
        Ok(())
    }
}

impl<T: ApiModel> ApiSchema for T {
    open spec fn described() -> TypeView {
        model_type_view(T::described_model())
    }

    fn type_descriptor() -> (ty: TypeDescriptor) {
        TypeDescriptor::model(T::model_descriptor())
    }

    fn validate_input(&self) -> (verdict: Result<(), ValidationErrors>)
        ensures
            call_ensures(T::validate, (self,), verdict),
    {
        self.validate()
    }
}

impl ApiSchema for String {
    open spec fn described() -> TypeView {
        scalar_view("String"@, SchemaKind::String)
    }

    fn type_descriptor() -> (ty: TypeDescriptor) {
        TypeDescriptor::scalar("String", SchemaKind::String)
    }
}

impl ApiSchema for &str {
    open spec fn described() -> TypeView {
        scalar_view("&str"@, SchemaKind::String)
    }

    fn type_descriptor() -> (ty: TypeDescriptor) {
        TypeDescriptor::scalar("&str", SchemaKind::String)
    }
}

impl ApiSchema for bool {
    open spec fn described() -> TypeView {
        scalar_view("bool"@, SchemaKind::Boolean)
    }

    fn type_descriptor() -> (ty: TypeDescriptor) {
        TypeDescriptor::scalar("bool", SchemaKind::Boolean)
    }
}

impl ApiSchema for u8 {
    open spec fn described() -> TypeView {
        scalar_view("u8"@, SchemaKind::Integer)
    }

    fn type_descriptor() -> (ty: TypeDescriptor) {
        TypeDescriptor::scalar("u8", SchemaKind::Integer)
    }
}

impl ApiSchema for u16 {
    open spec fn described() -> TypeView {
        scalar_view("u16"@, SchemaKind::Integer)
    }

    fn type_descriptor() -> (ty: TypeDescriptor) {
        TypeDescriptor::scalar("u16", SchemaKind::Integer)
    }
}

impl ApiSchema for u32 {
    open spec fn described() -> TypeView {
        scalar_view("u32"@, SchemaKind::Integer)
    }

    fn type_descriptor() -> (ty: TypeDescriptor) {
        TypeDescriptor::scalar("u32", SchemaKind::Integer)
    }
}

impl ApiSchema for u64 {
    open spec fn described() -> TypeView {
        scalar_view("u64"@, SchemaKind::Integer)
    }

    fn type_descriptor() -> (ty: TypeDescriptor) {
        TypeDescriptor::scalar("u64", SchemaKind::Integer)
    }
}

impl ApiSchema for u128 {
    open spec fn described() -> TypeView {
        scalar_view("u128"@, SchemaKind::Integer)
    }

    fn type_descriptor() -> (ty: TypeDescriptor) {
        TypeDescriptor::scalar("u128", SchemaKind::Integer)
    }
}

impl ApiSchema for usize {
    open spec fn described() -> TypeView {
        scalar_view("usize"@, SchemaKind::Integer)
    }

    fn type_descriptor() -> (ty: TypeDescriptor) {
        TypeDescriptor::scalar("usize", SchemaKind::Integer)
    }
}

impl ApiSchema for i8 {
    open spec fn described() -> TypeView {
        scalar_view("i8"@, SchemaKind::Integer)
    }

    fn type_descriptor() -> (ty: TypeDescriptor) {
        TypeDescriptor::scalar("i8", SchemaKind::Integer)
    }
}

impl ApiSchema for i16 {
    open spec fn described() -> TypeView {
        scalar_view("i16"@, SchemaKind::Integer)
    }

    fn type_descriptor() -> (ty: TypeDescriptor) {
        TypeDescriptor::scalar("i16", SchemaKind::Integer)
    }
}

impl ApiSchema for i32 {
    open spec fn described() -> TypeView {
        scalar_view("i32"@, SchemaKind::Integer)
    }

    fn type_descriptor() -> (ty: TypeDescriptor) {
        TypeDescriptor::scalar("i32", SchemaKind::Integer)
    }
}

impl ApiSchema for i64 {
    open spec fn described() -> TypeView {
        scalar_view("i64"@, SchemaKind::Integer)
    }

    fn type_descriptor() -> (ty: TypeDescriptor) {
        TypeDescriptor::scalar("i64", SchemaKind::Integer)
    }
}

impl ApiSchema for i128 {
    open spec fn described() -> TypeView {
        scalar_view("i128"@, SchemaKind::Integer)
    }

    fn type_descriptor() -> (ty: TypeDescriptor) {
        TypeDescriptor::scalar("i128", SchemaKind::Integer)
    }
}

impl ApiSchema for isize {
    open spec fn described() -> TypeView {
        scalar_view("isize"@, SchemaKind::Integer)
    }

    fn type_descriptor() -> (ty: TypeDescriptor) {
        TypeDescriptor::scalar("isize", SchemaKind::Integer)
    }
}

impl<T: ApiSchema> ApiSchema for Vec<T> {
    open spec fn described() -> TypeView {
        list_view(T::described())
    }

    fn type_descriptor() -> (ty: TypeDescriptor) {
        let item = T::type_descriptor();
        let mut rust_name = "Vec<".to_owned();
        rust_name.append(item.rust_name.as_str());
        rust_name.append(">");
        let schema = SchemaKind::Array(Box::new(item.schema.clone()));
        let ty = TypeDescriptor {
            rust_name,
            schema,
            model: None,
            items: Some(Box::new(item)),
            constraints: Vec::new(),
        };
        assert(ty@ =~= list_view(T::described()));
        ty
    }
}

impl<T: ApiSchema> ApiSchema for Option<T> {
    open spec fn described() -> TypeView {
        T::described()
    }

    fn type_descriptor() -> (ty: TypeDescriptor) {
        T::type_descriptor()
    }
}

// ---------------------------------------------------------------------------
// Headers and failures
// ---------------------------------------------------------------------------

/// A response header emitted without transport-specific dependencies.
#[derive(Debug, PartialEq, Eq)]
pub struct ResponseHeader {
    pub name: String,
    pub value: String,
}

/// What a response header says.
pub struct HeaderView {
    pub name: Seq<char>,
    pub value: Seq<char>,
}

impl View for ResponseHeader {
    type V = HeaderView;

    open spec fn view(&self) -> HeaderView {
        HeaderView { name: self.name@, value: self.value@ }
    }
}

/// What a list of headers says.
pub open spec fn headers_view(headers: Seq<ResponseHeader>) -> Seq<HeaderView> {
    headers.map_values(|header: ResponseHeader| header@)
}

impl ResponseHeader {
    #[must_use]
    pub fn new(name: &str, value: &str) -> (header: Self)
        ensures
            header@ == (HeaderView { name: name@, value: value@ }),
    {
        ResponseHeader { name: name.to_owned(), value: value.to_owned() }
    }
}

impl Clone for ResponseHeader {
    fn clone(&self) -> (copy: Self)
        ensures
            copy@ == self@,
    {
        ResponseHeader { name: self.name.clone(), value: self.value.clone() }
    }
}

/// A typed domain failure shared by HTTP and MCP projections.
#[derive(Clone, Debug, PartialEq, Eq)]
pub struct OperationFailure {
    pub status: u16,
    pub code: String,
    pub message: String,
    pub details: Option<Vec<u8>>,
    pub headers: Vec<ResponseHeader>,
}

impl OperationFailure {
    #[must_use]
    pub fn new(status: u16, code: &str, message: &str) -> (failure: Self)
        ensures
            failure.status == status,
            failure.code@ == code@,
            failure.message@ == message@,
            failure.details is None,
            failure.headers@.len() == 0,
    {
        OperationFailure {
            status,
            code: code.to_owned(),
            message: message.to_owned(),
            details: None,
            headers: Vec::new(),
        }
    }

    #[must_use]
    pub fn with_details(self, details: Vec<u8>) -> (failure: Self)
        ensures
            failure == (OperationFailure { details: Some(details), ..self }),
    {
        let mut updated = self;
        updated.details = Some(details);
        updated
    }

    #[must_use]
    pub fn with_header(self, name: &str, value: &str) -> (failure: Self)
        ensures
            failure == (OperationFailure { headers: failure.headers, ..self }),
            headers_view(failure.headers@) == headers_view(self.headers@).push(
                HeaderView { name: name@, value: value@ },
            ),
    {
        let mut updated = self;
        let ghost before = updated.headers@;
        updated.headers.push(ResponseHeader::new(name, value));
        assert(headers_view(updated.headers@) =~= headers_view(before).push(
            HeaderView { name: name@, value: value@ },
        ));
        updated
    }
}

/// A response construction failure that must be redacted by transports.
#[derive(Clone, Debug, PartialEq, Eq)]
pub struct ResponseBuildError {
    pub code: String,
    pub message: String,
}

impl ResponseBuildError {
    #[must_use]
    pub fn serialization_failed() -> (error: Self)
        ensures
            error.code@ == "serialization_failed"@,
            error.message@ == "operation response could not be serialized"@,
    {
        ResponseBuildError {
            code: "serialization_failed".to_owned(),
            message: "operation response could not be serialized".to_owned(),
        }
    }
}

/// A user-declared operation error with stable transport semantics.
pub trait ApiError: Sized {
    fn response_descriptors() -> Vec<ResponseDescriptor>;

    /// Whether the error may become a failure.
    spec fn fails_as(self, failure: Result<OperationFailure, ResponseBuildError>) -> bool;

    /// Converts the declared error into its transport-neutral failure, or
    /// reports that a typed error payload cannot be serialized.
    fn into_failure(self) -> (failure: Result<OperationFailure, ResponseBuildError>)
        ensures
            self.fails_as(failure),
    ;
}

// ---------------------------------------------------------------------------
// Responses and inputs
// ---------------------------------------------------------------------------

/// What an optional text says.
pub open spec fn opt_text(text: Option<String>) -> Option<Seq<char>> {
    match text {
        Some(text) => Some(text@),
        None => None,
    }
}

/// What an optional type says.
pub open spec fn opt_type(ty: Option<TypeDescriptor>) -> Option<TypeView> {
    match ty {
        Some(ty) => Some(ty@),
        None => None,
    }
}

/// A single successful or error response declared by an operation.
#[derive(Debug, PartialEq, Eq)]
pub struct ResponseDescriptor {
    pub status: u16,
    pub body: Option<TypeDescriptor>,
    pub error_code: Option<String>,
    pub error_message: Option<String>,
    pub headers: Vec<ResponseHeader>,
}

/// What a response descriptor says.
#[verifier::ext_equal]
pub struct ResponseView {
    pub status: u16,
    pub body: Option<TypeView>,
    pub error_code: Option<Seq<char>>,
    pub error_message: Option<Seq<char>>,
    pub headers: Seq<HeaderView>,
}

impl View for ResponseDescriptor {
    type V = ResponseView;

    open spec fn view(&self) -> ResponseView {
        ResponseView {
            status: self.status,
            body: opt_type(self.body),
            error_code: opt_text(self.error_code),
            error_message: opt_text(self.error_message),
            headers: headers_view(self.headers@),
        }
    }
}

impl Clone for ResponseDescriptor {
    fn clone(&self) -> (copy: Self)
        ensures
            copy@ == self@,
    {
        let copy = ResponseDescriptor {
            status: self.status,
            body: self.body.clone(),
            error_code: self.error_code.clone(),
            error_message: self.error_message.clone(),
            headers: self.headers.clone(),
        };
        assert(copy@ =~= self@);
        copy
    }
}

impl ResponseDescriptor {
    #[must_use]
    pub fn success(status: u16, body: Option<TypeDescriptor>) -> (response: Self)
        ensures
            response@ == (ResponseView {
                status,
                body: opt_type(body),
                error_code: None,
                error_message: None,
                headers: Seq::empty(),
            }),
    {
        let response = ResponseDescriptor {
            status,
            body,
            error_code: None,
            error_message: None,
            headers: Vec::new(),
        };
        assert(response@.headers =~= Seq::empty());
        response
    }

    #[must_use]
    pub fn error(status: u16, code: &str, message: &str, body: Option<TypeDescriptor>) -> (response:
        Self)
        ensures
            response@ == (ResponseView {
                status,
                body: opt_type(body),
                error_code: Some(code@),
                error_message: Some(message@),
                headers: Seq::empty(),
            }),
    {
        let response = ResponseDescriptor {
            status,
            body,
            error_code: Some(code.to_owned()),
            error_message: Some(message.to_owned()),
            headers: Vec::new(),
        };
        assert(response@.headers =~= Seq::empty());
        response
    }

    #[must_use]
    pub fn with_headers(self, headers: Vec<ResponseHeader>) -> (response: Self)
        ensures
            response@ == (ResponseView { headers: headers_view(headers@), ..self@ }),
    {
        let mut updated = self;
        updated.headers = headers;
        updated
    }
}

/// The transport-neutral source of one operation argument.
#[derive(Clone, Copy, Debug, PartialEq, Eq, Structural)]
pub enum InputSource {
    Path,
    Query,
    Header,
    Cookie,
    Json,
    Form,
    Multipart,
    File,
    /// The raw request body, pulled chunk by chunk.
    Stream,
}

/// One typed operation argument and its HTTP extraction source.
#[derive(Debug, PartialEq, Eq)]
pub struct InputDescriptor {
    pub name: String,
    pub source: InputSource,
    pub required: bool,
    pub ty: TypeDescriptor,
}

/// What an input descriptor says.
pub struct InputView {
    pub name: Seq<char>,
    pub source: InputSource,
    pub required: bool,
    pub ty: TypeView,
}

impl View for InputDescriptor {
    type V = InputView;

    open spec fn view(&self) -> InputView {
        InputView {
            name: self.name@,
            source: self.source,
            required: self.required,
            ty: self.ty@,
        }
    }
}

impl Clone for InputDescriptor {
    fn clone(&self) -> (copy: Self)
        ensures
            copy@ == self@,
    {
        InputDescriptor {
            name: self.name.clone(),
            source: self.source,
            required: self.required,
            ty: self.ty.clone(),
        }
    }
}

impl InputDescriptor {
    #[must_use]
    pub fn new(name: &str, source: InputSource, required: bool, ty: TypeDescriptor) -> (input: Self)
        ensures
            input@ == (InputView { name: name@, source, required, ty: ty@ }),
    {
        InputDescriptor { name: name.to_owned(), source, required, ty }
    }
}

// ---------------------------------------------------------------------------
// Agent policy and MCP projection
// ---------------------------------------------------------------------------

/// Agent-visible risk associated with invoking an operation.
#[derive(Clone, Copy, Debug, PartialEq, Eq, Structural)]
pub enum OperationRisk {
    Read,
    Write,
    Destructive,
}

/// Whether an agent must ask for confirmation before invoking an operation.
#[derive(Clone, Copy, Debug, PartialEq, Eq, Structural)]
pub enum Confirmation {
    Never,
    Required,
}

/// Protocol-neutral metadata used by MCP and other agent transports.
#[derive(Clone, Copy, Debug, PartialEq, Eq, Structural)]
pub struct AgentPolicy {
    pub risk: OperationRisk,
    pub confirmation: Confirmation,
    pub idempotent: bool,
}

/// How much operation output may be exposed to an agent.
#[derive(Clone, Copy, Debug, PartialEq, Eq, Structural)]
pub enum OutputExposure {
    Full,
    SummaryOnly,
    /// No output at all.
    Hidden,
}

impl Default for OperationRisk {
    fn default() -> (risk: Self)
        ensures
            risk == OperationRisk::Read,
    {
        OperationRisk::Read
    }
}

impl Default for Confirmation {
    fn default() -> (confirmation: Self)
        ensures
            confirmation == Confirmation::Never,
    {
        Confirmation::Never
    }
}

impl Default for OutputExposure {
    fn default() -> (exposure: Self)
        ensures
            exposure == OutputExposure::Full,
    {
        OutputExposure::Full
    }
}

/// The policy of an operation that declares none.
pub open spec fn default_policy() -> AgentPolicy {
    AgentPolicy {
        risk: OperationRisk::Read,
        confirmation: Confirmation::Never,
        idempotent: false,
    }
}

impl Default for AgentPolicy {
    fn default() -> (policy: Self)
        ensures
            policy == default_policy(),
    {
        AgentPolicy {
            risk: OperationRisk::Read,
            confirmation: Confirmation::Never,
            idempotent: false,
        }
    }
}

/// MCP tool semantics declared alongside an operation.
#[derive(Debug, PartialEq, Eq)]
pub struct McpToolDescriptor {
    pub name: String,
    pub description: String,
    pub expose_output: OutputExposure,
}

/// What an MCP tool descriptor says.
pub struct McpView {
    pub name: Seq<char>,
    pub description: Seq<char>,
    pub expose_output: OutputExposure,
}

impl View for McpToolDescriptor {
    type V = McpView;

    open spec fn view(&self) -> McpView {
        McpView {
            name: self.name@,
            description: self.description@,
            expose_output: self.expose_output,
        }
    }
}

/// What an optional MCP tool says.
pub open spec fn opt_mcp(tool: Option<McpToolDescriptor>) -> Option<McpView> {
    match tool {
        Some(tool) => Some(tool@),
        None => None,
    }
}

impl Clone for McpToolDescriptor {
    fn clone(&self) -> (copy: Self)
        ensures
            copy@ == self@,
    {
        McpToolDescriptor {
            name: self.name.clone(),
            description: self.description.clone(),
            expose_output: self.expose_output,
        }
    }
}

impl McpToolDescriptor {
    #[must_use]
    pub fn new(name: &str, description: &str) -> (tool: Self)
        ensures
            tool@ == (McpView {
                name: name@,
                description: description@,
                expose_output: OutputExposure::Full,
            }),
    {
        McpToolDescriptor {
            name: name.to_owned(),
            description: description.to_owned(),
            expose_output: OutputExposure::Full,
        }
    }

    #[must_use]
    pub fn with_output_exposure(self, exposure: OutputExposure) -> (tool: Self)
        ensures
            tool == (McpToolDescriptor { expose_output: exposure, ..self }),
    {
        let mut updated = self;
        updated.expose_output = exposure;
        updated
    }
}

// ---------------------------------------------------------------------------
// Dependencies and security
// ---------------------------------------------------------------------------

/// A typed dependency declared by an operation handler.
#[derive(Debug, PartialEq, Eq)]
pub struct DependencyDescriptor {
    pub rust_name: String,
}

impl View for DependencyDescriptor {
    type V = Seq<char>;

    open spec fn view(&self) -> Seq<char> {
        self.rust_name@
    }
}

impl Clone for DependencyDescriptor {
    fn clone(&self) -> (copy: Self)
        ensures
            copy@ == self@,
    {
        DependencyDescriptor { rust_name: self.rust_name.clone() }
    }
}

impl DependencyDescriptor {
    #[must_use]
    pub fn new(rust_name: &str) -> (dependency: Self)
        ensures
            dependency@ == rust_name@,
    {
        DependencyDescriptor { rust_name: rust_name.to_owned() }
    }
}

/// HTTP location used by an API-key security scheme.
#[derive(Clone, Copy, Debug, PartialEq, Eq, Structural)]
pub enum SecurityLocation {
    Header,
    Query,
    Cookie,
}

/// Transport-independent description of an application security scheme.
#[derive(Clone, Debug, PartialEq, Eq)]
pub enum SecuritySchemeKind {
    ApiKey { location: SecurityLocation, name: String },
    Http { scheme: String, bearer_format: Option<String> },
    OAuth2 { authorization_url: Option<String>, token_url: Option<String>, scopes: Vec<String> },
    OpenIdConnect { discovery_url: String },
    MutualTls,
}

/// Named security scheme registered by an application.
#[derive(Clone, Debug, PartialEq, Eq)]
pub struct SecuritySchemeDescriptor {
    pub name: String,
    pub description: Option<String>,
    pub kind: SecuritySchemeKind,
}

impl SecuritySchemeDescriptor {
    #[must_use]
    pub fn new(name: &str, kind: SecuritySchemeKind) -> (scheme: Self)
        ensures
            scheme.name@ == name@,
            scheme.description is None,
            scheme.kind == kind,
    {
        SecuritySchemeDescriptor { name: name.to_owned(), description: None, kind }
    }

    #[must_use]
    pub fn with_description(self, description: &str) -> (scheme: Self)
        ensures
            scheme == (SecuritySchemeDescriptor { description: scheme.description, ..self }),
            opt_text(scheme.description) == Some(description@),
    {
        let mut updated = self;
        updated.description = Some(description.to_owned());
        updated
    }
}

/// Security scheme and scopes required by one operation.
#[derive(Debug, PartialEq, Eq)]
pub struct SecurityRequirement {
    pub scheme: String,
    pub scopes: Vec<String>,
}

/// What a list of texts says.
pub open spec fn texts(list: Seq<String>) -> Seq<Seq<char>> {
    list.map_values(|text: String| text@)
}

/// What a security requirement says.
#[verifier::ext_equal]
pub struct SecurityView {
    pub scheme: Seq<char>,
    pub scopes: Seq<Seq<char>>,
}

impl View for SecurityRequirement {
    type V = SecurityView;

    open spec fn view(&self) -> SecurityView {
        SecurityView { scheme: self.scheme@, scopes: texts(self.scopes@) }
    }
}

impl Clone for SecurityRequirement {
    fn clone(&self) -> (copy: Self)
        ensures
            copy@ == self@,
    {
        let copy = SecurityRequirement { scheme: self.scheme.clone(), scopes: self.scopes.clone() };
        assert(copy@.scopes =~= self@.scopes);
        copy
    }
}

impl SecurityRequirement {
    #[must_use]
    pub fn new(scheme: &str) -> (requirement: Self)
        ensures
            requirement@ == (SecurityView { scheme: scheme@, scopes: Seq::empty() }),
    {
        let requirement = SecurityRequirement { scheme: scheme.to_owned(), scopes: Vec::new() };
        assert(requirement@.scopes =~= Seq::empty());
        requirement
    }

    #[must_use]
    pub fn with_scopes(self, scopes: Vec<String>) -> (requirement: Self)
        ensures
            requirement@ == (SecurityView { scopes: texts(scopes@), ..self@ }),
    {
        let mut updated = self;
        updated.scopes = scopes;
        updated
    }
}

// ---------------------------------------------------------------------------
// The operation contract
// ---------------------------------------------------------------------------

/// The protocol-neutral semantic contract for one operation.
#[derive(Debug, PartialEq, Eq)]
pub struct OperationContract {
    pub format_version: ContractFormatVersion,
    pub id: OperationId,
    pub summary: String,
    /// Deprecated single-body view retained for serialized snapshot migration.
    ///
    /// Canonical encoding uses `inputs`, which is the source of truth.
    pub input: Option<TypeDescriptor>,
    pub inputs: Vec<InputDescriptor>,
    pub dependencies: Vec<DependencyDescriptor>,
    pub security: Vec<SecurityRequirement>,
    pub responses: Vec<ResponseDescriptor>,
    pub agent: AgentPolicy,
    pub mcp: Option<McpToolDescriptor>,
}

/// What an operation contract says.
#[verifier::ext_equal]
pub struct ContractView {
    pub format_version: ContractFormatVersion,
    pub id: Seq<char>,
    pub summary: Seq<char>,
    pub input: Option<TypeView>,
    pub inputs: Seq<InputView>,
    pub dependencies: Seq<Seq<char>>,
    pub security: Seq<SecurityView>,
    pub responses: Seq<ResponseView>,
    pub agent: AgentPolicy,
    pub mcp: Option<McpView>,
}

/// What a list of inputs says.
pub open spec fn inputs_view(inputs: Seq<InputDescriptor>) -> Seq<InputView> {
    inputs.map_values(|input: InputDescriptor| input@)
}

/// What a list of dependencies says.
pub open spec fn dependencies_view(list: Seq<DependencyDescriptor>) -> Seq<Seq<char>> {
    list.map_values(|dependency: DependencyDescriptor| dependency@)
}

/// What a list of security requirements says.
pub open spec fn security_view(list: Seq<SecurityRequirement>) -> Seq<SecurityView> {
    list.map_values(|requirement: SecurityRequirement| requirement@)
}

/// What a list of responses says.
pub open spec fn responses_view(list: Seq<ResponseDescriptor>) -> Seq<ResponseView> {
    list.map_values(|response: ResponseDescriptor| response@)
}

impl View for OperationContract {
    type V = ContractView;

    open spec fn view(&self) -> ContractView {
        ContractView {
            format_version: self.format_version,
            id: self.id@,
            summary: self.summary@,
            input: opt_type(self.input),
            inputs: inputs_view(self.inputs@),
            dependencies: dependencies_view(self.dependencies@),
            security: security_view(self.security@),
            responses: responses_view(self.responses@),
            agent: self.agent,
            mcp: opt_mcp(self.mcp),
        }
    }
}

/// The type of the first JSON input, which the deprecated single-body view
/// mirrors.
pub open spec fn json_body(inputs: Seq<InputView>) -> Option<TypeView>
    decreases inputs.len(),
{
    if inputs.len() == 0 {
        None
    } else if inputs[0].source == InputSource::Json {
        Some(inputs[0].ty)
    } else {
        json_body(inputs.drop_first())
    }
}

/// The inputs of an operation that takes one JSON body, or none.
pub open spec fn body_inputs(input: Option<TypeView>) -> Seq<InputView> {
    match input {
        Some(ty) => seq![
            InputView { name: "body"@, source: InputSource::Json, required: true, ty },
        ],
        None => Seq::empty(),
    }
}

/// A contract that declares nothing beyond its identity, body and responses.
pub open spec fn fresh_contract(
    id: Seq<char>,
    summary: Seq<char>,
    input: Option<TypeView>,
    responses: Seq<ResponseView>,
) -> ContractView {
    ContractView {
        format_version: ContractFormatVersion {
            major: CURRENT_FORMAT_MAJOR,
            minor: CURRENT_FORMAT_MINOR,
        },
        id,
        summary,
        input,
        inputs: body_inputs(input),
        dependencies: Seq::empty(),
        security: Seq::empty(),
        responses,
        agent: default_policy(),
        mcp: None,
    }
}

impl Clone for OperationContract {
    fn clone(&self) -> (copy: Self)
        ensures
            copy@ == self@,
    {
        let copy = OperationContract {
            format_version: self.format_version,
            id: self.id.clone(),
            summary: self.summary.clone(),
            input: self.input.clone(),
            inputs: self.inputs.clone(),
            dependencies: self.dependencies.clone(),
            security: self.security.clone(),
            responses: self.responses.clone(),
            agent: self.agent,
            mcp: self.mcp.clone(),
        };
        assert(copy@ =~= self@);
        copy
    }
}

impl OperationContract {
    /// Creates a protocol-neutral operation contract.
    pub fn new(
        id: &str,
        summary: &str,
        input: Option<TypeDescriptor>,
        responses: Vec<ResponseDescriptor>,
    ) -> (result: Result<Self, InvalidOperationId>)
        ensures
            result is Ok <==> is_identity(id@),
            result matches Err(error) ==> error@ == id@,
            result matches Ok(contract) ==> contract@ == fresh_contract(
                id@,
                summary@,
                opt_type(input),
                responses_view(responses@),
            ),
    {
        let mut inputs: Vec<InputDescriptor> = Vec::new();
        match &input {
            Some(body) => {
                inputs.push(InputDescriptor::new("body", InputSource::Json, true, body.clone()));
            },
            None => {},
        }
        assert(inputs_view(inputs@) =~= body_inputs(opt_type(input)));
        let id = match OperationId::new(id) {
            Ok(id) => id,
            Err(error) => {
                return Err(error);
            },
        };
        let contract = OperationContract {
            format_version: ContractFormatVersion::default(),
            id,
            summary: summary.to_owned(),
            input,
            inputs,
            dependencies: Vec::new(),
            security: Vec::new(),
            responses,
            agent: AgentPolicy::default(),
            mcp: None,
        };
        assert(contract@.dependencies =~= Seq::empty());
        assert(contract@.security =~= Seq::empty());
        Ok(contract)
    }

    #[must_use]
    pub fn with_agent_policy(self, policy: AgentPolicy) -> (contract: Self)
        ensures
            contract@ == (ContractView { agent: policy, ..self@ }),
    {
        let mut updated = self;
        updated.agent = policy;
        updated
    }

    /// Replaces the inputs; the single-body view follows the first JSON input.
    #[must_use]
    pub fn with_inputs(self, inputs: Vec<InputDescriptor>) -> (contract: Self)
        ensures
            contract@ == (ContractView {
                inputs: inputs_view(inputs@),
                input: json_body(inputs_view(inputs@)),
                ..self@
            }),
    {
        let mut updated = self;
        let mut body: Option<TypeDescriptor> = None;
        let mut index: usize = 0;
        let ghost views = inputs_view(inputs@);
        proof {
            assert(views.skip(0) =~= views);
        }
        while index < inputs.len()
            invariant_except_break
                index <= inputs@.len(),
                views == inputs_view(inputs@),
                body is None,
                json_body(views.skip(index as int)) == json_body(views),
            ensures
                opt_type(body) == json_body(views),
            decreases inputs@.len() - index,
        {
            if inputs[index].source == InputSource::Json {
                body = Some(inputs[index].ty.clone());
                break;
            }
            proof {
                assert(views.skip(index as int).drop_first() =~= views.skip(index + 1));
            }
            index += 1;
        }
        updated.input = body;
        updated.inputs = inputs;
        updated
    }

    #[must_use]
    pub fn with_dependencies(self, dependencies: Vec<DependencyDescriptor>) -> (contract: Self)
        ensures
            contract@ == (ContractView {
                dependencies: dependencies_view(dependencies@),
                ..self@
            }),
    {
        let mut updated = self;
        updated.dependencies = dependencies;
        updated
    }

    #[must_use]
    pub fn with_security(self, security: Vec<SecurityRequirement>) -> (contract: Self)
        ensures
            contract@ == (ContractView { security: security_view(security@), ..self@ }),
    {
        let mut updated = self;
        updated.security = security;
        updated
    }

    #[must_use]
    pub fn with_mcp_tool(self, tool: McpToolDescriptor) -> (contract: Self)
        ensures
            contract@ == (ContractView { mcp: Some(tool@), ..self@ }),
    {
        let mut updated = self;
        updated.mcp = Some(tool);
        updated
    }
}

/// A text with something before its first `@` reads as an e-mail address if and
/// only if there is a dot behind the `@` and no white space anywhere.
pub proof fn law_emails_have_two_sides(local: Seq<char>, domain: Seq<char>)
    requires
        !local.contains('@'),
    ensures
        email_shaped(local.push('@') + domain) <==> local.len() > 0 && domain.contains('.')
            && forall|i: int|
            0 <= i < (local + domain).len() ==> !white_spec(#[trigger] (local + domain)[i]),
        !email_shaped(local),
{
    let value = local.push('@') + domain;
    let bare = local + domain;
    assert(value[local.len() as int] == '@');
    assert forall|i: int| 0 <= i < local.len() implies #[trigger] value[i] != '@' by {
        assert(value[i] == local[i]);
        assert(local.contains(local[i]));
    }
    if email_shaped(value) {
        let at = choose|at: int|
            {
                &&& 0 < at < value.len() - 1
                &&& #[trigger] value[at] == '@'
                &&& forall|i: int| 0 <= i < at ==> value[i] != '@'
                &&& exists|dot: int| at < dot < value.len() && #[trigger] value[dot] == '.'
            };
        assert(at == local.len()) by {
            if at > local.len() {
                assert(value[local.len() as int] != '@');
            }
        }
        let dot = choose|dot: int| at < dot < value.len() && #[trigger] value[dot] == '.';
        assert(domain[dot - at - 1] == '.');
        assert forall|i: int| 0 <= i < bare.len() implies !white_spec(#[trigger] bare[i]) by {
            if i < local.len() {
                assert(bare[i] == value[i]);
            } else {
                assert(bare[i] == value[i + 1]);
            }
        }
    }
    if local.len() > 0 && domain.contains('.') && forall|i: int|
        0 <= i < bare.len() ==> !white_spec(#[trigger] bare[i]) {
        let at = local.len() as int;
        let k = choose|k: int| 0 <= k < domain.len() && domain[k] == '.';
        assert(value[at + 1 + k] == '.');
        assert(value[at] == '@');
        assert forall|i: int| 0 <= i < value.len() implies !white_spec(#[trigger] value[i]) by {
            if i < at {
                assert(value[i] == bare[i]);
            } else if i > at {
                assert(value[i] == bare[i - 1]);
            }
        }
    }
    if email_shaped(local) {
        let at = choose|at: int|
            {
                &&& 0 < at < local.len() - 1
                &&& #[trigger] local[at] == '@'
                &&& forall|i: int| 0 <= i < at ==> local[i] != '@'
                &&& exists|dot: int| at < dot < local.len() && #[trigger] local[dot] == '.'
            };
        assert(local.contains(local[at]));
    }
}

/// Rust types describe themselves by what they are on the wire: whole numbers are
/// integers, flags are booleans, texts are strings, and lists are arrays of what
/// their items are. None of them is a model.
pub proof fn law_types_describe_themselves<T: ApiSchema>()
    ensures
        <u8 as ApiSchema>::described().schema == SchemaKind::Integer,
        <u16 as ApiSchema>::described().schema == SchemaKind::Integer,
        <u32 as ApiSchema>::described().schema == SchemaKind::Integer,
        <u64 as ApiSchema>::described().schema == SchemaKind::Integer,
        <u128 as ApiSchema>::described().schema == SchemaKind::Integer,
        <usize as ApiSchema>::described().schema == SchemaKind::Integer,
        <i8 as ApiSchema>::described().schema == SchemaKind::Integer,
        <i16 as ApiSchema>::described().schema == SchemaKind::Integer,
        <i32 as ApiSchema>::described().schema == SchemaKind::Integer,
        <i64 as ApiSchema>::described().schema == SchemaKind::Integer,
        <i128 as ApiSchema>::described().schema == SchemaKind::Integer,
        <isize as ApiSchema>::described().schema == SchemaKind::Integer,
        <bool as ApiSchema>::described().schema == SchemaKind::Boolean,
        <String as ApiSchema>::described().schema == SchemaKind::String,
        <u64 as ApiSchema>::described().model is None,
        <String as ApiSchema>::described().model is None,
        <bool as ApiSchema>::described().model is None,
        <Vec<T> as ApiSchema>::described().schema == SchemaKind::Array(
            Box::new(T::described().schema),
        ),
        <Vec<T> as ApiSchema>::described().items == Some(Box::new(T::described())),
        <Vec<T> as ApiSchema>::described().model is None,
{
}

/// The single-body view of a contract is the type of its first JSON input, and
/// there is one if and only if the contract has a JSON input.
pub proof fn law_the_body_is_the_first_json_input(inputs: Seq<InputView>)
    ensures
        match json_body(inputs) {
            Some(ty) => exists|i: int|
                0 <= i < inputs.len() && (#[trigger] inputs[i]).source == InputSource::Json
                    && inputs[i].ty == ty && forall|j: int|
                    0 <= j < i ==> (#[trigger] inputs[j]).source != InputSource::Json,
            None => forall|j: int|
                0 <= j < inputs.len() ==> (#[trigger] inputs[j]).source != InputSource::Json,
        },
    decreases inputs.len(),
{
    if inputs.len() > 0 {
        if inputs[0].source == InputSource::Json {
            assert(inputs[0].source == InputSource::Json);
        } else {
            let rest = inputs.drop_first();
            law_the_body_is_the_first_json_input(rest);
            assert forall|j: int| 0 < j < inputs.len() implies #[trigger] inputs[j] == rest[j
                - 1] by {}
            match json_body(rest) {
                Some(ty) => {
                    let i = choose|i: int|
                        0 <= i < rest.len() && (#[trigger] rest[i]).source == InputSource::Json
                            && rest[i].ty == ty && forall|j: int|
                            0 <= j < i ==> (#[trigger] rest[j]).source != InputSource::Json;
                    assert(inputs[i + 1].ty == ty);
                    assert forall|j: int| 0 <= j < i + 1 implies (#[trigger] inputs[j]).source
                        != InputSource::Json by {
                        if j > 0 {
                            assert(rest[j - 1].source != InputSource::Json);
                        }
                    }
                },
                None => {},
            }
        }
    }
}

/// A new contract asks for nothing beyond its body: the body, where there is one,
/// is a required JSON input, and an agent may run the operation as one that reads,
/// without confirmation, and not twice for once.
pub proof fn law_new_contracts_ask_for_their_body_only(
    id: Seq<char>,
    summary: Seq<char>,
    input: Option<TypeView>,
    responses: Seq<ResponseView>,
)
    ensures
        ({
            let contract = fresh_contract(id, summary, input, responses);
            &&& contract.id == id && contract.summary == summary && contract.responses == responses
            &&& contract.input == input
            &&& contract.inputs.len() == if input is Some {
                1nat
            } else {
                0nat
            }
            &&& input matches Some(ty) ==> contract.inputs[0].source == InputSource::Json
                && contract.inputs[0].required && contract.inputs[0].ty == ty
                && contract.inputs[0].name == "body"@
            &&& contract.dependencies.len() == 0 && contract.security.len() == 0
            &&& contract.mcp is None
            &&& contract.agent.risk is Read && contract.agent.confirmation is Never
            &&& !contract.agent.idempotent
        }),
{
}

} // verus!
