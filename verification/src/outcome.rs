//! What the execution of an operation comes to.
use crate::blocking::{blocking_message, BlockingError};
use crate::body::{Background, BackgroundTask, HttpUpgrade, StreamingBody};
use crate::json::{compact_json, compact_text, JsonValue, JsonView};
use crate::metadata::opt_json;
use crate::operation::{
    headers_view, ApiError, HeaderView, OperationFailure, ResponseBuildError, ResponseHeader,
};
use crate::outputs::{
    hint_of, hint_slot, record_response_size, Accepted, Created, Json, NoContent, PreparedJson,
    ResponseHints, Status, WithHeaders,
};
use crate::text::chars_of;
use vstd::prelude::*;
use vstd::string::*;
use vstd::utf8::encode_utf8;

verus! {

/// The protocol-neutral result of executing one operation. Bodies stream from
/// an `S`, upgrades are handled by an `H`, and work left for later is an `F`.
#[derive(Debug)]
#[allow(inconsistent_fields)]
pub enum ExecutionOutcome<S, H, F> {
    Success {
        status: u16,
        headers: Vec<ResponseHeader>,
        body: Option<Vec<u8>>,
        background: Vec<BackgroundTask<F>>,
    },
    StreamingSuccess {
        status: u16,
        headers: Vec<ResponseHeader>,
        body: StreamingBody<S>,
        background: Vec<BackgroundTask<F>>,
    },
    Upgrade { upgrade: HttpUpgrade<H>, background: Vec<BackgroundTask<F>> },
    Rejected { status: u16, code: String, message: String, details: Option<JsonValue> },
    DomainError(OperationFailure),
    InternalError { code: String, message: String },
}

/// An outcome that reports a failure.
pub open spec fn is_failure<S, H, F>(outcome: ExecutionOutcome<S, H, F>) -> bool {
    match outcome {
        ExecutionOutcome::Success { .. } => false,
        ExecutionOutcome::StreamingSuccess { .. } => false,
        ExecutionOutcome::Upgrade { .. } => false,
        _ => true,
    }
}

/// An outcome that reports an internal failure with a code and a message.
pub open spec fn is_internal<S, H, F>(
    outcome: ExecutionOutcome<S, H, F>,
    code: Seq<char>,
    message: Seq<char>,
) -> bool {
    outcome matches ExecutionOutcome::InternalError { code: own, message: said } && own@ == code
        && said@ == message
}

impl<S, H, F> ExecutionOutcome<S, H, F> {
    #[must_use]
    pub fn is_error(&self) -> (error: bool)
        ensures
            error == is_failure(*self),
    {
        match self {
            ExecutionOutcome::Success { .. } => false,
            ExecutionOutcome::StreamingSuccess { .. } => false,
            ExecutionOutcome::Upgrade { .. } => false,
            _ => true,
        }
    }

    fn internal(code: &str, message: &str) -> (outcome: Self)
        ensures
            is_internal(outcome, code@, message@),
    {
        ExecutionOutcome::InternalError { code: code.to_owned(), message: message.to_owned() }
    }
}

// ---------------------------------------------------------------------------
// Summaries for hooks
// ---------------------------------------------------------------------------

/// Stable result classes visible to plugin response hooks.
#[derive(Clone, Copy, Debug, PartialEq, Eq)]
pub enum HookOutcomeKind {
    Success,
    Rejected,
    DomainError,
    InternalError,
}

/// A body-free result summary passed to response hooks.
#[derive(Clone, Copy, Debug, PartialEq, Eq)]
pub struct HookOutcome {
    pub status: u16,
    pub kind: HookOutcomeKind,
}

/// The summary of an outcome.
pub open spec fn summary<S, H, F>(outcome: ExecutionOutcome<S, H, F>) -> HookOutcome {
    match outcome {
        ExecutionOutcome::Success { status, .. } => HookOutcome {
            status,
            kind: HookOutcomeKind::Success,
        },
        ExecutionOutcome::StreamingSuccess { status, .. } => HookOutcome {
            status,
            kind: HookOutcomeKind::Success,
        },
        ExecutionOutcome::Upgrade { .. } => HookOutcome {
            status: 101,
            kind: HookOutcomeKind::Success,
        },
        ExecutionOutcome::Rejected { status, .. } => HookOutcome {
            status,
            kind: HookOutcomeKind::Rejected,
        },
        ExecutionOutcome::DomainError(failure) => HookOutcome {
            status: failure.status,
            kind: HookOutcomeKind::DomainError,
        },
        ExecutionOutcome::InternalError { .. } => HookOutcome {
            status: 500,
            kind: HookOutcomeKind::InternalError,
        },
    }
}

impl HookOutcome {
    /// The summary of an outcome.
    #[must_use]
    pub fn of<S, H, F>(outcome: &ExecutionOutcome<S, H, F>) -> (hook: Self)
        ensures
            hook == summary(*outcome),
    {
        match outcome {
            ExecutionOutcome::Success { status, .. } => HookOutcome {
                status: *status,
                kind: HookOutcomeKind::Success,
            },
            ExecutionOutcome::StreamingSuccess { status, .. } => HookOutcome {
                status: *status,
                kind: HookOutcomeKind::Success,
            },
            ExecutionOutcome::Upgrade { .. } => HookOutcome {
                status: 101,
                kind: HookOutcomeKind::Success,
            },
            ExecutionOutcome::Rejected { status, .. } => HookOutcome {
                status: *status,
                kind: HookOutcomeKind::Rejected,
            },
            ExecutionOutcome::DomainError(failure) => HookOutcome {
                status: failure.status,
                kind: HookOutcomeKind::DomainError,
            },
            ExecutionOutcome::InternalError { .. } => HookOutcome {
                status: 500,
                kind: HookOutcomeKind::InternalError,
            },
        }
    }
}

// ---------------------------------------------------------------------------
// Rejections
// ---------------------------------------------------------------------------

/// A stable client-visible failure produced while extracting an argument.
#[derive(Debug, PartialEq, Eq)]
pub struct InputRejection {
    pub status: u16,
    pub code: String,
    pub message: String,
    pub details: Option<JsonValue>,
}

/// What a rejection says.
#[verifier::ext_equal]
pub struct RejectionView {
    pub status: u16,
    pub code: Seq<char>,
    pub message: Seq<char>,
    pub details: Option<JsonView>,
}

impl View for InputRejection {
    type V = RejectionView;

    open spec fn view(&self) -> RejectionView {
        RejectionView {
            status: self.status,
            code: self.code@,
            message: self.message@,
            details: opt_json(self.details),
        }
    }
}

impl InputRejection {
    #[must_use]
    pub fn new(status: u16, code: &str, message: &str) -> (rejection: Self)
        ensures
            rejection.status == status,
            rejection.code@ == code@,
            rejection.message@ == message@,
            rejection.details is None,
    {
        InputRejection { status, code: code.to_owned(), message: message.to_owned(), details: None }
    }

    #[must_use]
    pub fn with_details(self, details: JsonValue) -> (rejection: Self)
        ensures
            rejection == (InputRejection { details: Some(details), ..self }),
    {
        let mut updated = self;
        updated.details = Some(details);
        updated
    }

    #[must_use]
    pub fn into_execution_outcome<S, H, F>(self) -> (outcome: ExecutionOutcome<S, H, F>)
        ensures
            outcome == (ExecutionOutcome::<S, H, F>::Rejected {
                status: self.status,
                code: self.code,
                message: self.message,
                details: self.details,
            }),
    {
        ExecutionOutcome::Rejected {
            status: self.status,
            code: self.code,
            message: self.message,
            details: self.details,
        }
    }
}

/// What a failure of blocking work comes to: a full pool is a rejection that
/// may be retried, everything else is internal.
#[must_use]
pub fn blocking_error_outcome<S, H, F>(error: BlockingError) -> (outcome: ExecutionOutcome<S, H, F>)
    ensures
        match error {
            BlockingError::Saturated => outcome matches ExecutionOutcome::Rejected {
                status,
                code,
                message,
                details,
            } && status == 503 && code@ == "blocking_pool_saturated"@ && message@
                == blocking_message(error) && details is None,
            _ => is_internal(outcome, "blocking_handler_failed"@, blocking_message(error)),
        },
{
    let message = error.to_string();
    match error {
        BlockingError::Saturated => ExecutionOutcome::Rejected {
            status: 503,
            code: "blocking_pool_saturated".to_owned(),
            message,
            details: None,
        },
        _ => ExecutionOutcome::InternalError {
            code: "blocking_handler_failed".to_owned(),
            message,
        },
    }
}

// ---------------------------------------------------------------------------
// Typed responses
// ---------------------------------------------------------------------------

/// A character that may stand in a header name.
pub open spec fn header_name_char(character: char) -> bool {
    ||| 'a' <= character <= 'z'
    ||| 'A' <= character <= 'Z'
    ||| '0' <= character <= '9'
    ||| character == '!'
    ||| character == '#'
    ||| character == '$'
    ||| character == '%'
    ||| character == '&'
    ||| character == '\''
    ||| character == '*'
    ||| character == '+'
    ||| character == '-'
    ||| character == '.'
    ||| character == '^'
    ||| character == '_'
    ||| character == '`'
    ||| character == '|'
    ||| character == '~'
}

/// A character that may stand in a header value.
pub open spec fn header_value_char(character: char) -> bool {
    character == '\t' || (character >= ' ' && character != '\x7f')
}

/// A header that can be sent: a token for a name, and a value without control
/// characters.
pub open spec fn sendable(header: HeaderView) -> bool {
    &&& header.name.len() > 0
    &&& forall|i: int| 0 <= i < header.name.len() ==> header_name_char(#[trigger] header.name[i])
    &&& forall|i: int|
        0 <= i < header.value.len() ==> header_value_char(#[trigger] header.value[i])
}

/// Headers that can all be sent.
pub open spec fn all_sendable(headers: Seq<HeaderView>) -> bool {
    forall|i: int| 0 <= i < headers.len() ==> sendable(#[trigger] headers[i])
}

fn is_header_name_char(character: char) -> (allowed: bool)
    ensures
        allowed == header_name_char(character),
{
    ('a' <= character && character <= 'z') || ('A' <= character && character <= 'Z') || ('0'
        <= character && character <= '9') || character == '!' || character == '#' || character
        == '$' || character == '%' || character == '&' || character == '\'' || character == '*'
        || character == '+' || character == '-' || character == '.' || character == '^' || character
        == '_' || character == '`' || character == '|' || character == '~'
}

/// Whether a header can be sent.
pub fn valid_response_header(header: &ResponseHeader) -> (valid: bool)
    ensures
        valid == sendable(header@),
{
    let name = chars_of(header.name.as_str());
    let value = chars_of(header.value.as_str());
    if name.len() == 0 {
        return false;
    }
    let mut index: usize = 0;
    while index < name.len()
        invariant
            index <= name@.len(),
            name@ == header@.name,
            forall|i: int| 0 <= i < index ==> header_name_char(#[trigger] header@.name[i]),
        decreases name@.len() - index,
    {
        if !is_header_name_char(name[index]) {
            assert(!header_name_char(header@.name[index as int]));
            return false;
        }
        index += 1;
    }
    let mut index: usize = 0;
    while index < value.len()
        invariant
            index <= value@.len(),
            value@ == header@.value,
            forall|i: int| 0 <= i < index ==> header_value_char(#[trigger] header@.value[i]),
        decreases value@.len() - index,
    {
        let character = value[index];
        if !(character == '\t' || (character >= ' ' && character != '\x7f')) {
            assert(!header_value_char(header@.value[index as int]));
            return false;
        }
        index += 1;
    }
    true
}

fn valid_response_headers(headers: &Vec<ResponseHeader>) -> (valid: bool)
    ensures
        valid == all_sendable(headers_view(headers@)),
{
    let mut index: usize = 0;
    while index < headers.len()
        invariant
            index <= headers@.len(),
            forall|i: int| 0 <= i < index ==> sendable(#[trigger] headers_view(headers@)[i]),
        decreases headers@.len() - index,
    {
        assert(headers_view(headers@)[index as int] == headers@[index as int]@);
        if !valid_response_header(&headers[index]) {
            return false;
        }
        index += 1;
    }
    true
}

/// A typed handler result that can become a shared operation outcome.
pub trait OperationOutput<S, H, F>: Sized {
    /// Whether the result may become an outcome.
    spec fn becomes(self, outcome: ExecutionOutcome<S, H, F>) -> bool;

    fn into_execution_outcome(self) -> (outcome: ExecutionOutcome<S, H, F>)
        ensures
            self.becomes(outcome),
    ;
}

/// A success without headers and work, as the JSON of a value.
pub open spec fn is_json_success<S, H, F>(
    outcome: ExecutionOutcome<S, H, F>,
    status: u16,
    value: JsonValue,
) -> bool {
    match compact_json(value@) {
        Some(text) => outcome matches ExecutionOutcome::Success {
            status: own,
            headers,
            body,
            background,
        } && own == status && headers@.len() == 0 && background@.len() == 0 && (body matches Some(
            body,
        ) && body@ == encode_utf8(text)),
        None => is_internal(
            outcome,
            "serialization_failed"@,
            "operation response could not be serialized"@,
        ),
    }
}

/// Encodes a success body, and records its size for the next one of the shape.
pub fn serialize_success<S, H, F>(
    hints: &mut ResponseHints,
    shape: usize,
    status: u16,
    value: &JsonValue,
) -> (outcome: ExecutionOutcome<S, H, F>)
    ensures
        is_json_success(outcome, status, *value),
        final(hints)@ == match compact_json(value@) {
            Some(text) => old(hints)@.update(
                hint_slot(shape),
                (shape, hint_of(encode_utf8(text).len()) as usize),
            ),
            None => old(hints)@,
        },
{
    let outcome = json_success(status, value);
    if let ExecutionOutcome::Success { body: Some(body), .. } = &outcome {
        record_response_size(hints, shape, body.len());
    }
    outcome
}

/// Encodes a success body.
fn json_success<S, H, F>(status: u16, value: &JsonValue) -> (outcome: ExecutionOutcome<
    S,
    H,
    F,
>)
    ensures
        is_json_success(outcome, status, *value),
{
    match compact_text(value) {
        Some(text) => ExecutionOutcome::Success {
            status,
            headers: Vec::new(),
            body: Some(vstd::slice::slice_to_vec(text.as_str().as_bytes())),
            background: Vec::new(),
        },
        None => ExecutionOutcome::internal(
            "serialization_failed",
            "operation response could not be serialized",
        ),
    }
}

impl<S, H, F> OperationOutput<S, H, F> for Json<JsonValue> {
    open spec fn becomes(self, outcome: ExecutionOutcome<S, H, F>) -> bool {
        is_json_success(outcome, 200, self.0)
    }

    fn into_execution_outcome(self) -> (outcome: ExecutionOutcome<S, H, F>) {
        json_success(200, &self.0)
    }
}

impl<S, H, F> OperationOutput<S, H, F> for Created<JsonValue> {
    open spec fn becomes(self, outcome: ExecutionOutcome<S, H, F>) -> bool {
        is_json_success(outcome, 201, self.0)
    }

    fn into_execution_outcome(self) -> (outcome: ExecutionOutcome<S, H, F>) {
        json_success(201, &self.0)
    }
}

impl<S, H, F> OperationOutput<S, H, F> for Accepted<JsonValue> {
    open spec fn becomes(self, outcome: ExecutionOutcome<S, H, F>) -> bool {
        is_json_success(outcome, 202, self.0)
    }

    fn into_execution_outcome(self) -> (outcome: ExecutionOutcome<S, H, F>) {
        json_success(202, &self.0)
    }
}

/// A success without headers and work.
pub open spec fn is_plain_success<S, H, F>(
    outcome: ExecutionOutcome<S, H, F>,
    status: u16,
    bytes: Option<Seq<u8>>,
) -> bool {
    outcome matches ExecutionOutcome::Success { status: own, headers, body, background } && own
        == status && headers@.len() == 0 && background@.len() == 0 && match (body, bytes) {
        (Some(body), Some(bytes)) => body@ == bytes,
        (None, None) => true,
        _ => false,
    }
}

impl<S, H, F, T> OperationOutput<S, H, F> for PreparedJson<T> {
    open spec fn becomes(self, outcome: ExecutionOutcome<S, H, F>) -> bool {
        is_plain_success(outcome, 200, Some(self.bytes()))
    }

    fn into_execution_outcome(self) -> (outcome: ExecutionOutcome<S, H, F>) {
        ExecutionOutcome::Success {
            status: 200,
            headers: Vec::new(),
            body: Some(self.into_bytes()),
            background: Vec::new(),
        }
    }
}

impl<S, H, F> OperationOutput<S, H, F> for NoContent {
    open spec fn becomes(self, outcome: ExecutionOutcome<S, H, F>) -> bool {
        is_plain_success(outcome, 204, None)
    }

    fn into_execution_outcome(self) -> (outcome: ExecutionOutcome<S, H, F>) {
        ExecutionOutcome::Success {
            status: 204,
            headers: Vec::new(),
            body: None,
            background: Vec::new(),
        }
    }
}

impl<S, H, F> OperationOutput<S, H, F> for StreamingBody<S> {
    open spec fn becomes(self, outcome: ExecutionOutcome<S, H, F>) -> bool {
        outcome matches ExecutionOutcome::StreamingSuccess { status, headers, body, background }
            && status == 200 && headers_view(headers@) == seq![
            HeaderView { name: "content-type"@, value: "application/octet-stream"@ },
        ] && body == self && background@.len() == 0
    }

    fn into_execution_outcome(self) -> (outcome: ExecutionOutcome<S, H, F>) {
        let mut headers: Vec<ResponseHeader> = Vec::new();
        headers.push(ResponseHeader::new("content-type", "application/octet-stream"));
        assert(headers_view(headers@) =~= seq![
            HeaderView { name: "content-type"@, value: "application/octet-stream"@ },
        ]);
        ExecutionOutcome::StreamingSuccess {
            status: 200,
            headers,
            body: self,
            background: Vec::new(),
        }
    }
}

impl<S, H, F> OperationOutput<S, H, F> for HttpUpgrade<H> {
    open spec fn becomes(self, outcome: ExecutionOutcome<S, H, F>) -> bool {
        outcome matches ExecutionOutcome::Upgrade { upgrade, background } && upgrade == self
            && background@.len() == 0
    }

    fn into_execution_outcome(self) -> (outcome: ExecutionOutcome<S, H, F>) {
        ExecutionOutcome::Upgrade { upgrade: self, background: Vec::new() }
    }
}

/// An outcome with work added behind its own; a failure carries none.
pub open spec fn is_with_tasks<S, H, F>(
    outcome: ExecutionOutcome<S, H, F>,
    inner: ExecutionOutcome<S, H, F>,
    tasks: Seq<BackgroundTask<F>>,
) -> bool {
    match inner {
        ExecutionOutcome::Success { status, headers, body, background } => outcome matches
            ExecutionOutcome::Success {
            status: own,
            headers: own_headers,
            body: own_body,
            background: own_background,
        } && own == status && own_headers == headers && own_body == body && own_background@
            == background@ + tasks,
        ExecutionOutcome::StreamingSuccess { status, headers, body, background } => outcome matches
            ExecutionOutcome::StreamingSuccess {
            status: own,
            headers: own_headers,
            body: own_body,
            background: own_background,
        } && own == status && own_headers == headers && own_body == body && own_background@
            == background@ + tasks,
        ExecutionOutcome::Upgrade { upgrade, background } => outcome matches
            ExecutionOutcome::Upgrade { upgrade: own, background: own_background } && own
            == upgrade && own_background@ == background@ + tasks,
        _ => outcome == inner,
    }
}

impl<S, H, F, T: OperationOutput<S, H, F>> OperationOutput<S, H, F> for Background<T, F> {
    open spec fn becomes(self, outcome: ExecutionOutcome<S, H, F>) -> bool {
        exists|inner: ExecutionOutcome<S, H, F>|
            #[trigger] self.response.becomes(inner) && is_with_tasks(
                outcome,
                inner,
                self.tasks@,
            )
    }

    fn into_execution_outcome(self) -> (outcome: ExecutionOutcome<S, H, F>) {
        let (response, tasks) = self.into_parts();
        let ghost added = tasks@;
        let inner = response.into_execution_outcome();
        let ghost first = inner;
        let mut tasks = tasks;
        let outcome = match inner {
            ExecutionOutcome::Success { status, headers, body, background } => {
                let mut background = background;
                background.append(&mut tasks);
                ExecutionOutcome::Success { status, headers, body, background }
            },
            ExecutionOutcome::StreamingSuccess { status, headers, body, background } => {
                let mut background = background;
                background.append(&mut tasks);
                ExecutionOutcome::StreamingSuccess { status, headers, body, background }
            },
            ExecutionOutcome::Upgrade { upgrade, background } => {
                let mut background = background;
                background.append(&mut tasks);
                ExecutionOutcome::Upgrade { upgrade, background }
            },
            other => other,
        };
        assert(self.response.becomes(first));
        assert(is_with_tasks(outcome, first, added));
        outcome
    }
}

/// An outcome with another successful status.
pub open spec fn with_status<S, H, F>(
    outcome: ExecutionOutcome<S, H, F>,
    status: u16,
) -> ExecutionOutcome<S, H, F> {
    match outcome {
        ExecutionOutcome::Success { headers, body, background, .. } => ExecutionOutcome::Success {
            status,
            headers,
            body,
            background,
        },
        ExecutionOutcome::StreamingSuccess { headers, body, background, .. } =>
            ExecutionOutcome::StreamingSuccess { status, headers, body, background },
        other => other,
    }
}

impl<
    S,
    H,
    F,
    const STATUS: u16,
    T: OperationOutput<S, H, F>,
> OperationOutput<S, H, F> for Status<STATUS, T> {
    open spec fn becomes(self, outcome: ExecutionOutcome<S, H, F>) -> bool {
        if STATUS < 200 || STATUS > 399 {
            is_internal(
                outcome,
                "invalid_response_status"@,
                "typed success status must be between 200 and 399"@,
            )
        } else {
            exists|inner: ExecutionOutcome<S, H, F>|
                #[trigger] self.0.becomes(inner) && outcome == with_status(inner, STATUS)
        }
    }

    fn into_execution_outcome(self) -> (outcome: ExecutionOutcome<S, H, F>) {
        if STATUS < 200 || STATUS > 399 {
            return ExecutionOutcome::internal(
                "invalid_response_status",
                "typed success status must be between 200 and 399",
            );
        }
        let inner = self.0.into_execution_outcome();
        let ghost first = inner;
        let outcome = match inner {
            ExecutionOutcome::Success { headers, body, background, .. } =>
                ExecutionOutcome::Success { status: STATUS, headers, body, background },
            ExecutionOutcome::StreamingSuccess { headers, body, background, .. } =>
                ExecutionOutcome::StreamingSuccess { status: STATUS, headers, body, background },
            other => other,
        };
        assert(self.0.becomes(first));
        outcome
    }
}

/// An outcome with headers added behind its own; a rejection and an internal
/// failure carry none.
pub open spec fn is_with_headers<S, H, F>(
    outcome: ExecutionOutcome<S, H, F>,
    inner: ExecutionOutcome<S, H, F>,
    added: Seq<ResponseHeader>,
) -> bool {
    match inner {
        ExecutionOutcome::Success { status, headers, body, background } => outcome matches
            ExecutionOutcome::Success {
            status: own,
            headers: own_headers,
            body: own_body,
            background: own_background,
        } && own == status && own_headers@ == headers@ + added && own_body == body
            && own_background == background,
        ExecutionOutcome::StreamingSuccess { status, headers, body, background } => outcome matches
            ExecutionOutcome::StreamingSuccess {
            status: own,
            headers: own_headers,
            body: own_body,
            background: own_background,
        } && own == status && own_headers@ == headers@ + added && own_body == body
            && own_background == background,
        ExecutionOutcome::Upgrade { upgrade, background } => outcome matches
            ExecutionOutcome::Upgrade { upgrade: own, background: own_background }
            && own.protocol == upgrade.protocol && own.handler == upgrade.handler && own.headers@
            == upgrade.headers@ + added && own_background == background,
        ExecutionOutcome::DomainError(failure) => outcome matches ExecutionOutcome::DomainError(own)
            && own.status == failure.status && own.code == failure.code && own.message
            == failure.message && own.details == failure.details && own.headers@
            == failure.headers@ + added,
        _ => outcome == inner,
    }
}

fn with_headers<S, H, F>(
    inner: ExecutionOutcome<S, H, F>,
    headers: Vec<ResponseHeader>,
) -> (outcome: ExecutionOutcome<S, H, F>)
    ensures
        is_with_headers(outcome, inner, headers@),
{
    let mut added = headers;
    match inner {
        ExecutionOutcome::Success { status, headers, body, background } => {
            let mut headers = headers;
            headers.append(&mut added);
            ExecutionOutcome::Success { status, headers, body, background }
        },
        ExecutionOutcome::StreamingSuccess { status, headers, body, background } => {
            let mut headers = headers;
            headers.append(&mut added);
            ExecutionOutcome::StreamingSuccess { status, headers, body, background }
        },
        ExecutionOutcome::Upgrade { upgrade, background } => {
            let mut upgrade = upgrade;
            upgrade.extend_headers(added);
            ExecutionOutcome::Upgrade { upgrade, background }
        },
        ExecutionOutcome::DomainError(failure) => {
            let mut failure = failure;
            failure.headers.append(&mut added);
            ExecutionOutcome::DomainError(failure)
        },
        other => other,
    }
}

impl<S, H, F, T: OperationOutput<S, H, F>> OperationOutput<S, H, F> for WithHeaders<T> {
    open spec fn becomes(self, outcome: ExecutionOutcome<S, H, F>) -> bool {
        if !all_sendable(headers_view(self.headers@)) {
            is_internal(
                outcome,
                "invalid_response_header"@,
                "operation produced an invalid response header"@,
            )
        } else {
            exists|inner: ExecutionOutcome<S, H, F>|
                #[trigger] self.response.becomes(inner) && is_with_headers(
                    outcome,
                    inner,
                    self.headers@,
                )
        }
    }

    fn into_execution_outcome(self) -> (outcome: ExecutionOutcome<S, H, F>) {
        let (response, headers) = self.into_parts();
        if !valid_response_headers(&headers) {
            return ExecutionOutcome::internal(
                "invalid_response_header",
                "operation produced an invalid response header",
            );
        }
        let inner = response.into_execution_outcome();
        let ghost first = inner;
        let outcome = with_headers(inner, headers);
        assert(self.response.becomes(first));
        outcome
    }
}

/// What a declared failure comes to: itself, if its headers can be sent.
pub open spec fn is_declared_failure<S, H, F>(
    outcome: ExecutionOutcome<S, H, F>,
    failure: Result<OperationFailure, ResponseBuildError>,
) -> bool {
    match failure {
        Ok(failure) => if all_sendable(headers_view(failure.headers@)) {
            outcome == ExecutionOutcome::<S, H, F>::DomainError(failure)
        } else {
            is_internal(
                outcome,
                "invalid_response_header"@,
                "operation produced an invalid response header"@,
            )
        },
        Err(error) => is_internal(outcome, error.code@, error.message@),
    }
}

/// What a declared failure comes to.
pub fn declared_failure<S, H, F>(failure: Result<OperationFailure, ResponseBuildError>) -> (outcome:
    ExecutionOutcome<S, H, F>)
    ensures
        is_declared_failure(outcome, failure),
{
    match failure {
        Ok(failure) => {
            if valid_response_headers(&failure.headers) {
                ExecutionOutcome::DomainError(failure)
            } else {
                ExecutionOutcome::internal(
                    "invalid_response_header",
                    "operation produced an invalid response header",
                )
            }
        },
        Err(error) => ExecutionOutcome::InternalError { code: error.code, message: error.message },
    }
}

impl<
    S,
    H,
    F,
    T: OperationOutput<S, H, F>,
    E: ApiError,
> OperationOutput<S, H, F> for Result<T, E> {
    open spec fn becomes(self, outcome: ExecutionOutcome<S, H, F>) -> bool {
        match self {
            Ok(success) => success.becomes(outcome),
            Err(error) => exists|failure: Result<OperationFailure, ResponseBuildError>|
                #[trigger] error.fails_as(failure) && is_declared_failure(outcome, failure),
        }
    }

    fn into_execution_outcome(self) -> (outcome: ExecutionOutcome<S, H, F>) {
        match self {
            Ok(success) => success.into_execution_outcome(),
            Err(error) => {
                let failure = error.into_failure();
                let ghost declared = failure;
                let outcome = declared_failure(failure);
                assert(error.fails_as(declared));
                outcome
            },
        }
    }
}

/// A success is never turned into a failure by adding a status in range,
/// headers that can be sent, or work; and no decoration turns a failure into a
/// success.
pub proof fn law_decorations_keep_the_kind<S, H, F>(
    outcome: ExecutionOutcome<S, H, F>,
    inner: ExecutionOutcome<S, H, F>,
    status: u16,
    headers: Seq<ResponseHeader>,
    tasks: Seq<BackgroundTask<F>>,
)
    requires
        outcome == with_status(inner, status) || is_with_headers(outcome, inner, headers)
            || is_with_tasks(outcome, inner, tasks),
    ensures
        is_failure(outcome) == is_failure(inner),
        summary(outcome).kind == summary(inner).kind,
{
}

/// Every typed success has the status that its type stands for and the value as
/// its body: 200 for a plain value, 201 for a created one, 202 for an accepted
/// one, and 204 without a body where there is no content.
pub proof fn law_typed_successes_have_their_status<S, H, F>(
    value: JsonValue,
    text: Seq<char>,
    plain: ExecutionOutcome<S, H, F>,
    created: ExecutionOutcome<S, H, F>,
    accepted: ExecutionOutcome<S, H, F>,
    empty: ExecutionOutcome<S, H, F>,
)
    requires
        compact_json(value@) == Some(text),
        Json(value).becomes(plain),
        Created(value).becomes(created),
        Accepted(value).becomes(accepted),
        NoContent.becomes(empty),
    ensures
        sends(plain, 200, Some(encode_utf8(text))),
        sends(created, 201, Some(encode_utf8(text))),
        sends(accepted, 202, Some(encode_utf8(text))),
        sends(empty, 204, None),
{
}

/// A success that is sent with a status and, where it has one, a body.
pub open spec fn sends<S, H, F>(
    outcome: ExecutionOutcome<S, H, F>,
    status: u16,
    bytes: Option<Seq<u8>>,
) -> bool {
    &&& outcome is Success
    &&& outcome->Success_status == status
    &&& match bytes {
        Some(bytes) => outcome->Success_body matches Some(body) && body@ == bytes,
        None => outcome->Success_body is None,
    }
}

/// A status that a type declares replaces the one of a success and changes nothing
/// else; it must be one of success or redirection, and anything else is a fault of
/// the operation. What is no success keeps its own status.
pub proof fn law_declared_statuses_replace_the_own<
    S,
    H,
    F,
    const STATUS: u16,
    T: OperationOutput<S, H, F>,
>(response: Status<STATUS, T>, outcome: ExecutionOutcome<S, H, F>)
    requires
        response.becomes(outcome),
    ensures
        200 <= STATUS <= 399 ==> exists|inner: ExecutionOutcome<S, H, F>|
            {
                &&& #[trigger] response.0.becomes(inner)
                &&& is_failure(inner) == is_failure(outcome)
                &&& is_failure(inner) || inner is Upgrade ==> outcome == inner
                &&& inner is Success ==> {
                    &&& outcome is Success
                    &&& outcome->Success_status == STATUS
                    &&& outcome->Success_body == inner->Success_body
                    &&& outcome->Success_headers == inner->Success_headers
                    &&& outcome->Success_background == inner->Success_background
                }
                &&& inner is StreamingSuccess ==> {
                    &&& outcome is StreamingSuccess
                    &&& outcome->StreamingSuccess_status == STATUS
                    &&& outcome->StreamingSuccess_body == inner->StreamingSuccess_body
                }
            },
        !(200 <= STATUS <= 399) ==> outcome is InternalError,
{
    if 200 <= STATUS <= 399 {
        let inner = choose|inner: ExecutionOutcome<S, H, F>|
            #[trigger] response.0.becomes(inner) && outcome == with_status(inner, STATUS);
        assert(response.0.becomes(inner));
    }
}

/// A header can be sent only with a name and without line ends or other control
/// characters in its value: its name is made of letters, digits and a few marks,
/// and never holds a blank, a colon or a line end. A tab is the only control
/// character that a value may hold.
pub proof fn law_sendable_headers_cannot_be_split(header: HeaderView)
    requires
        sendable(header),
    ensures
        header.name.len() > 0,
        !header.name.contains(' ') && !header.name.contains(':') && !header.name.contains('\r')
            && !header.name.contains('\n'),
        !header.value.contains('\r') && !header.value.contains('\n') && !header.value.contains(
            '\0',
        ),
{
    assert forall|i: int| 0 <= i < header.name.len() implies #[trigger] header.name[i] != ' '
        && header.name[i] != ':' && header.name[i] != '\r' && header.name[i] != '\n' by {
        assert(header_name_char(header.name[i]));
    }
    assert forall|i: int| 0 <= i < header.value.len() implies #[trigger] header.value[i] != '\r'
        && header.value[i] != '\n' && header.value[i] != '\0' by {
        assert(header_value_char(header.value[i]));
    }
}

/// Ordinary headers can be sent: a name of letters, digits and hyphens, with a
/// value of visible characters and blanks.
pub proof fn law_ordinary_headers_are_sendable(header: HeaderView)
    requires
        header.name.len() > 0,
        forall|i: int|
            0 <= i < header.name.len() ==> ('a' <= #[trigger] header.name[i] <= 'z' || 'A'
                <= header.name[i] <= 'Z' || '0' <= header.name[i] <= '9' || header.name[i] == '-'),
        forall|i: int| 0 <= i < header.value.len() ==> ' ' <= #[trigger] header.value[i] <= '~',
    ensures
        sendable(header),
{
    assert forall|i: int| 0 <= i < header.name.len() implies header_name_char(
        #[trigger] header.name[i],
    ) by {}
    assert forall|i: int| 0 <= i < header.value.len() implies header_value_char(
        #[trigger] header.value[i],
    ) by {}
}

/// A value is answered as a success if and only if it can be written as JSON, with
/// the given status and that text as its body; otherwise the answer is an internal
/// error.
pub proof fn law_json_successes_carry_their_value<S, H, F>(
    outcome: ExecutionOutcome<S, H, F>,
    status: u16,
    value: JsonValue,
)
    requires
        is_json_success(outcome, status, value),
    ensures
        outcome is Success <==> compact_json(value@) is Some,
        outcome matches ExecutionOutcome::Success { status: own, headers, body, .. } ==> own
            == status && headers@.len() == 0 && (body matches Some(bytes) && Some(bytes@)
            == (match compact_json(value@) {
            Some(text) => Some(encode_utf8(text)),
            None => None,
        })),
        !(outcome is Success) ==> is_internal(
            outcome,
            "serialization_failed"@,
            "operation response could not be serialized"@,
        ),
{
}

/// A plain success has the given status, the given bytes and nothing else.
pub proof fn law_plain_successes_carry_their_bytes<S, H, F>(
    outcome: ExecutionOutcome<S, H, F>,
    status: u16,
    bytes: Option<Seq<u8>>,
)
    requires
        is_plain_success(outcome, status, bytes),
    ensures
        outcome matches ExecutionOutcome::Success { status: own, headers, body, background } && own
            == status && headers@.len() == 0 && background@.len() == 0 && (body is Some
            <==> bytes is Some) && (body matches Some(own_bytes) ==> bytes == Some(own_bytes@)),
{
}

/// A declared failure is answered as it is if and only if its headers can be sent;
/// one that could not be built, or not sent, is an internal error.
pub proof fn law_declared_failures_are_answered_as_they_are<S, H, F>(
    outcome: ExecutionOutcome<S, H, F>,
    failure: Result<OperationFailure, ResponseBuildError>,
)
    requires
        is_declared_failure(outcome, failure),
    ensures
        outcome matches ExecutionOutcome::DomainError(told) ==> failure == Ok::<
            OperationFailure,
            ResponseBuildError,
        >(told),
        outcome is DomainError <==> (failure matches Ok(own) && forall|i: int|
            0 <= i < own.headers@.len() ==> sendable(#[trigger] headers_view(own.headers@)[i])),
        failure matches Err(error) ==> is_internal(outcome, error.code@, error.message@),
{
}

} // verus!
