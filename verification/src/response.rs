//! HTTP responses, and the failures they report.
use crate::application::{method_name, HttpMethod};
use crate::body::{BackgroundTask, BodyStreamError, HttpUpgrade, StreamingBody};
use crate::headers::{
    header_got, header_removed, header_set, inline_at, law_cookies_are_added,
    law_other_headers_are_kept, law_set_headers_are_read_back, listed, listed_at, no_headers,
    one_header, HeaderSlots, ResponseHeaders,
};
use crate::json::{
    compact_json, compact_text, members, parse_json, parsed_json, JsonValue, JsonView, NumberView,
};
use crate::metadata::opt_json;
use crate::operation::{headers_view, HeaderView, InputSource, OperationFailure, ResponseHeader};
use crate::outcome::ExecutionOutcome;
use crate::router::RouteError;
use crate::schema::put;
use crate::text::{
    chars_of, decimal, decimal_text, eq_ignore_ascii_case, lower_all, lower_text, split_chars,
    split_spec, string_from, trim_spec, trimmed, char_lists,
};
use crate::url::{text_from_bytes, text_of};
use vstd::prelude::*;
use vstd::string::*;
use vstd::utf8::encode_utf8;

verus! {

// ---------------------------------------------------------------------------
// Responses
// ---------------------------------------------------------------------------

/// A runtime-neutral HTTP response. Its body may stream from an `S`, it may
/// hand the connection to an `H`, and an `F` is work to run once it was sent.
#[derive(Debug)]
pub struct Response<S, H, F> {
    pub status: u16,
    pub headers: ResponseHeaders,
    pub body: Vec<u8>,
    pub stream: Option<StreamingBody<S>>,
    pub upgrade: Option<HttpUpgrade<H>>,
    pub background: Vec<BackgroundTask<F>>,
}

/// A buffered response without streams, upgrades and work.
pub open spec fn is_buffered<S, H, F>(
    response: Response<S, H, F>,
    status: u16,
    headers: HeaderSlots,
    body: Seq<u8>,
) -> bool {
    &&& response.status == status
    &&& response.headers@ == headers
    &&& response.body@ == body
    &&& response.stream is None
    &&& response.upgrade is None
    &&& response.background@.len() == 0
}

impl<S, H, F> Response<S, H, F> {
    /// Creates a buffered response with no headers.
    #[must_use]
    pub fn from_bytes(status: u16, body: Vec<u8>) -> (response: Self)
        ensures
            is_buffered(response, status, no_headers(), body@),
    {
        Response {
            status,
            headers: ResponseHeaders::empty(),
            body,
            stream: None,
            upgrade: None,
            background: Vec::new(),
        }
    }

    /// Creates an empty buffered response.
    #[must_use]
    pub fn empty(status: u16) -> (response: Self)
        ensures
            is_buffered(response, status, no_headers(), Seq::empty()),
    {
        Response::from_bytes(status, Vec::new())
    }

    /// Creates the canonical response used when an adapter rejects an
    /// oversized body before dispatch.
    #[must_use]
    pub fn payload_too_large(max_body_bytes: usize) -> (response: Self)
        ensures
            reports(
                response,
                body_failure(BodyRejection::PayloadTooLarge { max_body_bytes }),
            ),
    {
        BodyRejection::PayloadTooLarge { max_body_bytes }.into_failure().into_response()
    }

    #[must_use]
    pub fn status(&self) -> (status: u16)
        ensures
            status == self.status,
    {
        self.status
    }

    /// Replaces the response status.
    pub fn set_status(&mut self, status: u16)
        ensures
            *final(self) == (Response { status, ..*old(self) }),
    {
        self.status = status;
    }

    #[must_use]
    pub fn get_header(&self, name: &str) -> (value: Option<&str>)
        ensures
            match value {
                Some(value) => header_got(self.headers@, name@) == Some(value@),
                None => header_got(self.headers@, name@) is None,
            },
    {
        self.headers.get(name)
    }

    /// The headers in the order in which they are sent.
    #[must_use]
    pub fn headers(&self) -> (headers: Vec<ResponseHeader>)
        ensures
            headers_view(headers@) == listed(self.headers@),
    {
        self.headers.list()
    }

    /// Inserts or replaces a response header. `Set-Cookie` is appended so
    /// independent cookie mutations are preserved.
    pub fn set_header(&mut self, name: &str, value: &str)
        ensures
            final(self).headers@ == header_set(old(self).headers@, lower_all(name@), value@),
            *final(self) == (Response { headers: final(self).headers, ..*old(self) }),
    {
        let lowered = lower_text(name);
        self.headers.insert(lowered.as_str(), value);
    }

    /// The response with a header inserted or replaced.
    #[must_use]
    pub fn with_header(self, name: &str, value: &str) -> (response: Self)
        ensures
            response.headers@ == header_set(self.headers@, lower_all(name@), value@),
            response == (Response { headers: response.headers, ..self }),
    {
        let mut updated = self;
        updated.set_header(name, value);
        updated
    }

    /// Removes every response header with the supplied name.
    pub fn remove_header(&mut self, name: &str)
        ensures
            final(self).headers@ == header_removed(old(self).headers@, name@),
            *final(self) == (Response { headers: final(self).headers, ..*old(self) }),
    {
        self.headers.remove(name);
    }

    #[must_use]
    pub fn body(&self) -> (body: &[u8])
        ensures
            body@ == self.body@,
    {
        self.body.as_slice()
    }

    /// Replaces a buffered response body. Streaming responses are left
    /// untouched and return `false`.
    pub fn replace_body(&mut self, body: Vec<u8>) -> (replaced: bool)
        ensures
            replaced == (old(self).stream is None),
            *final(self) == if replaced {
                Response { body, ..*old(self) }
            } else {
                *old(self)
            },
    {
        if self.stream.is_some() {
            return false;
        }
        self.body = body;
        true
    }

    /// Returns whether this response owns a pull-based streaming body.
    #[must_use]
    pub fn is_streaming(&self) -> (streaming: bool)
        ensures
            streaming == (self.stream is Some),
    {
        self.stream.is_some()
    }

    /// Takes the pull-based streaming body, leaving the response buffered.
    #[must_use]
    pub fn take_body_stream(&mut self) -> (stream: Option<StreamingBody<S>>)
        ensures
            stream == old(self).stream,
            *final(self) == (Response { stream: None, ..*old(self) }),
    {
        self.stream.take()
    }

    /// Installs a pull-based streaming body, discarding any buffered bytes.
    pub fn set_body_stream(&mut self, stream: StreamingBody<S>)
        ensures
            final(self).body@.len() == 0,
            *final(self) == (Response {
                body: final(self).body,
                stream: Some(stream),
                ..*old(self)
            }),
    {
        self.body = Vec::new();
        self.stream = Some(stream);
    }

    #[must_use]
    pub fn is_upgrade(&self) -> (upgrade: bool)
        ensures
            upgrade == (self.upgrade is Some),
    {
        self.upgrade.is_some()
    }

    /// Takes ownership of a validated one-shot protocol upgrade.
    pub fn take_upgrade(&mut self) -> (upgrade: Option<HttpUpgrade<H>>)
        ensures
            upgrade == old(self).upgrade,
            *final(self) == (Response { upgrade: None, ..*old(self) }),
    {
        self.upgrade.take()
    }

    /// Takes the after-response tasks so a network adapter can schedule them
    /// after the body has been written.
    pub fn take_background_tasks(&mut self) -> (tasks: Vec<BackgroundTask<F>>)
        ensures
            tasks == old(self).background,
            final(self).background@.len() == 0,
            *final(self) == (Response { background: final(self).background, ..*old(self) }),
    {
        let mut tasks: Vec<BackgroundTask<F>> = Vec::new();
        std::mem::swap(&mut tasks, &mut self.background);
        tasks
    }

    /// Adds after-response tasks behind those already there.
    pub fn add_background_tasks(&mut self, tasks: Vec<BackgroundTask<F>>)
        ensures
            final(self).background@ == old(self).background@ + tasks@,
            *final(self) == (Response { background: final(self).background, ..*old(self) }),
    {
        let mut added = tasks;
        self.background.append(&mut added);
    }

    /// Returns the wire body length when it is known before streaming starts.
    #[must_use]
    pub fn exact_body_length(&self) -> (length: Option<u64>)
        ensures
            length == match self.stream {
                Some(stream) => stream.exact_length,
                None => Some(self.body@.len() as u64),
            },
    {
        match &self.stream {
            Some(stream) => stream.exact_length(),
            None => Some(self.body.len() as u64),
        }
    }

    /// Decodes the buffered body as UTF-8.
    #[must_use]
    pub fn text(&self) -> (text: Option<String>)
        ensures
            match text {
                Some(text) => text_of(self.body@) == Some(text@),
                None => text_of(self.body@) is None,
            },
    {
        text_from_bytes(vstd::slice::slice_to_vec(self.body.as_slice()))
    }

    /// Reads the buffered body as JSON.
    #[must_use]
    pub fn json(&self) -> (value: Option<JsonValue>)
        ensures
            opt_json(value) == json_of(self.body@),
    {
        read_json(self.body.as_slice())
    }
}

/// The JSON value that bytes spell out.
pub open spec fn json_of(bytes: Seq<u8>) -> Option<JsonView> {
    match text_of(bytes) {
        Some(text) => parsed_json(text),
        None => None,
    }
}

/// Reads bytes as JSON.
pub(crate) fn read_json(bytes: &[u8]) -> (value: Option<JsonValue>)
    ensures
        opt_json(value) == json_of(bytes@),
{
    match text_from_bytes(vstd::slice::slice_to_vec(bytes)) {
        Some(text) => parse_json(text.as_str()),
        None => None,
    }
}

// ---------------------------------------------------------------------------
// Collecting bodies
// ---------------------------------------------------------------------------

/// Failure while deliberately buffering an HTTP response stream.
#[derive(Clone, Debug, PartialEq, Eq)]
pub enum CollectBodyError {
    Stream(BodyStreamError),
    LimitExceeded { limit: usize },
}

impl CollectBodyError {
    /// The failure as shown to people.
    #[must_use]
    pub fn to_string(&self) -> (text: String)
        ensures
            text@ == match self {
                CollectBodyError::Stream(error) => error.message@,
                CollectBodyError::LimitExceeded { limit } => "response body exceeds the "@
                    + decimal(*limit as nat) + "-byte collection limit"@,
            },
    {
        match self {
            CollectBodyError::Stream(error) => error.to_string(),
            CollectBodyError::LimitExceeded { limit } => {
                let mut text = "response body exceeds the ".to_owned();
                text.append(decimal_text(*limit as u64).as_str());
                text.append("-byte collection limit");
                text
            },
        }
    }
}

/// Takes one more chunk of a body into a buffer with an explicit bound.
pub fn collect_chunk(
    body: &mut Vec<u8>,
    chunk: Result<Vec<u8>, BodyStreamError>,
    limit: usize,
) -> (collected: Result<(), CollectBodyError>)
    ensures
        match chunk {
            Err(error) => collected == Err::<(), CollectBodyError>(CollectBodyError::Stream(error))
                && final(body)@ == old(body)@,
            Ok(chunk) => if old(body)@.len() + chunk@.len() > limit {
                collected == Err::<(), CollectBodyError>(
                    CollectBodyError::LimitExceeded { limit },
                ) && final(body)@ == old(body)@
            } else {
                collected is Ok && final(body)@ == old(body)@ + chunk@
            },
        },
{
    match chunk {
        Err(error) => Err(CollectBodyError::Stream(error)),
        Ok(chunk) => {
            let held: usize = body.len();
            if held > limit || chunk.len() > limit - held {
                return Err(CollectBodyError::LimitExceeded { limit });
            }
            body.extend_from_slice(chunk.as_slice());
            assert(body@ =~= old(body)@ + chunk@);
            Ok(())
        },
    }
}

/// The bytes of a buffered response, with an explicit bound.
pub fn collect_buffered<S, H, F>(response: Response<S, H, F>, limit: usize) -> (body: Result<
    Vec<u8>,
    CollectBodyError,
>)
    ensures
        body == if response.body@.len() > limit {
            Err::<Vec<u8>, CollectBodyError>(CollectBodyError::LimitExceeded { limit })
        } else {
            Ok::<Vec<u8>, CollectBodyError>(response.body)
        },
{
    if response.body.len() > limit {
        return Err(CollectBodyError::LimitExceeded { limit });
    }
    Ok(response.body)
}

// ---------------------------------------------------------------------------
// Failures
// ---------------------------------------------------------------------------

/// Where a failure response produced by dispatch came from.
#[derive(Clone, Copy, Debug, PartialEq, Eq)]
pub enum HttpErrorSource {
    /// No route matched the request method and path.
    Routing,
    /// Dispatch rejected the request before the operation ran.
    Request,
    /// Argument extraction or model validation rejected the request.
    Rejection,
    /// A typed error declared by the operation contract.
    Domain,
    /// A server-side failure, including a security scheme no registered layer
    /// can verify.
    Internal,
}

/// The failure an application error handler is asked to rewrite.
#[derive(Clone, Debug, PartialEq, Eq)]
pub struct HttpError {
    pub source: HttpErrorSource,
    pub status: u16,
    pub code: String,
    pub message: String,
    pub method: HttpMethod,
    pub path: String,
    pub operation: Option<usize>,
}

impl HttpError {
    /// Origin of this failure.
    #[must_use]
    pub fn source(&self) -> (source: HttpErrorSource)
        ensures
            source == self.source,
    {
        self.source
    }

    /// Status of the response dispatch built before any handler ran.
    #[must_use]
    pub fn status(&self) -> (status: u16)
        ensures
            status == self.status,
    {
        self.status
    }

    /// Stable error code of the response dispatch built.
    #[must_use]
    pub fn code(&self) -> (code: &str)
        ensures
            code@ == self.code@,
    {
        self.code.as_str()
    }

    /// Message of the response dispatch built.
    #[must_use]
    pub fn message(&self) -> (message: &str)
        ensures
            message@ == self.message@,
    {
        self.message.as_str()
    }

    /// Request method.
    #[must_use]
    pub fn method(&self) -> (method: HttpMethod)
        ensures
            method == self.method,
    {
        self.method
    }

    /// Request path without its query string.
    #[must_use]
    pub fn path(&self) -> (path: &str)
        ensures
            path@ == self.path@,
    {
        self.path.as_str()
    }

    /// Position of the operation the router selected, when the failure
    /// happened after routing.
    #[must_use]
    pub fn operation(&self) -> (operation: Option<usize>)
        ensures
            operation == self.operation,
    {
        self.operation
    }
}

/// A failure before it reaches the application error handlers.
#[derive(Debug, PartialEq, Eq)]
pub struct Failure {
    pub source: HttpErrorSource,
    pub status: u16,
    pub code: String,
    pub message: String,
    pub details: Option<JsonValue>,
    pub headers: Vec<ResponseHeader>,
}

/// What a failure says.
#[verifier::ext_equal]
pub struct FailureView {
    pub source: HttpErrorSource,
    pub status: u16,
    pub code: Seq<char>,
    pub message: Seq<char>,
    pub details: Option<JsonView>,
    pub headers: Seq<HeaderView>,
}

impl View for Failure {
    type V = FailureView;

    open spec fn view(&self) -> FailureView {
        FailureView {
            source: self.source,
            status: self.status,
            code: self.code@,
            message: self.message@,
            details: opt_json(self.details),
            headers: headers_view(self.headers@),
        }
    }
}

/// A failure without details and headers.
pub open spec fn plain_failure(
    source: HttpErrorSource,
    status: u16,
    code: Seq<char>,
    message: Seq<char>,
) -> FailureView {
    FailureView { source, status, code, message, details: None, headers: Seq::empty() }
}

/// The failure whose cause is not told.
pub open spec fn internal() -> FailureView {
    plain_failure(
        HttpErrorSource::Internal,
        500,
        "internal_error"@,
        "the operation could not be completed"@,
    )
}

/// The JSON document that a failure is reported as.
pub open spec fn error_document(
    code: Seq<char>,
    message: Seq<char>,
    details: Option<JsonView>,
) -> JsonView {
    let error = JsonView::Object(
        map!["code"@ => JsonView::Text(code), "message"@ => JsonView::Text(message)],
    );
    JsonView::Object(
        map![
            "error"@ => match details {
                Some(details) => put(error, "details"@, details),
                None => error,
            },
        ],
    )
}

/// The headers of a JSON response.
pub open spec fn json_headers() -> HeaderSlots {
    one_header("content-type"@, "application/json"@)
}

/// The body of a response whose document cannot be written.
pub const INTERNAL_BODY: &'static str =
    "{\"error\":{\"code\":\"internal_error\",\"message\":\"the operation could not be completed\"}}";

/// A response that is the JSON of a document, with headers.
pub open spec fn is_json_response<S, H, F>(
    response: Response<S, H, F>,
    status: u16,
    document: JsonView,
    headers: HeaderSlots,
) -> bool {
    match compact_json(document) {
        Some(text) => is_buffered(response, status, headers, encode_utf8(text)),
        None => is_buffered(response, 500, headers, encode_utf8(INTERNAL_BODY@)),
    }
}

/// Headers with others set one after another.
pub open spec fn headers_set(headers: HeaderSlots, added: Seq<HeaderView>) -> HeaderSlots
    decreases added.len(),
{
    if added.len() == 0 {
        headers
    } else {
        header_set(
            headers_set(headers, added.drop_last()),
            lower_all(added.last().name),
            added.last().value,
        )
    }
}

/// A response reports a failure.
pub open spec fn reports<S, H, F>(response: Response<S, H, F>, failure: FailureView) -> bool {
    is_json_response(
        response,
        failure.status,
        error_document(failure.code, failure.message, failure.details),
        headers_set(json_headers(), failure.headers),
    )
}

/// Writes a document as a response.
fn json_response<S, H, F>(status: u16, document: &JsonValue) -> (response: Response<S, H, F>)
    ensures
        is_json_response(response, status, document@, json_headers()),
{
    match compact_text(document) {
        Some(text) => Response {
            status,
            headers: ResponseHeaders::one("content-type", "application/json"),
            body: vstd::slice::slice_to_vec(text.as_str().as_bytes()),
            stream: None,
            upgrade: None,
            background: Vec::new(),
        },
        None => Response {
            status: 500,
            headers: ResponseHeaders::one("content-type", "application/json"),
            body: vstd::slice::slice_to_vec(INTERNAL_BODY.as_bytes()),
            stream: None,
            upgrade: None,
            background: Vec::new(),
        },
    }
}

fn error_response<S, H, F>(
    status: u16,
    code: &str,
    message: &str,
    details: Option<JsonValue>,
) -> (response: Response<S, H, F>)
    ensures
        is_json_response(
            response,
            status,
            error_document(code@, message@, opt_json(details)),
            json_headers(),
        ),
{
    let ghost given = opt_json(details);
    let mut error = JsonValue::object().with("code", JsonValue::text(code)).with(
        "message",
        JsonValue::text(message),
    );
    proof {
        let plain = JsonView::Object(
            map!["code"@ => JsonView::Text(code@), "message"@ => JsonView::Text(message@)],
        );
        assert(members(error@) =~= members(plain));
    }
    if let Some(details) = details {
        error.set("details", details);
    }
    let document = JsonValue::object().with("error", error);
    assert(members(document@) =~= members(error_document(code@, message@, given)));
    json_response(status, &document)
}

/// Sets the headers that an outcome carries.
fn with_outcome_headers<S, H, F>(
    response: Response<S, H, F>,
    headers: &Vec<ResponseHeader>,
) -> (updated: Response<S, H, F>)
    ensures
        updated.headers@ == headers_set(response.headers@, headers_view(headers@)),
        updated == (Response { headers: updated.headers, ..response }),
{
    let ghost added = headers_view(headers@);
    let ghost start = response.headers@;
    let mut updated = response;
    let mut index: usize = 0;
    assert(added.take(0) =~= Seq::empty());
    while index < headers.len()
        invariant
            index <= headers@.len(),
            added == headers_view(headers@),
            updated.headers@ == headers_set(start, added.take(index as int)),
            updated == (Response { headers: updated.headers, ..response }),
        decreases headers@.len() - index,
    {
        proof {
            assert(added.take(index + 1).drop_last() =~= added.take(index as int));
            assert(added.take(index + 1).last() == headers@[index as int]@);
        }
        updated.set_header(headers[index].name.as_str(), headers[index].value.as_str());
        index += 1;
    }
    assert(added.take(index as int) =~= added);
    updated
}

impl Failure {
    #[must_use]
    pub fn new(source: HttpErrorSource, status: u16, code: &str, message: &str) -> (failure: Self)
        ensures
            failure@ == plain_failure(source, status, code@, message@),
    {
        let failure = Failure {
            source,
            status,
            code: code.to_owned(),
            message: message.to_owned(),
            details: None,
            headers: Vec::new(),
        };
        assert(failure@.headers =~= Seq::empty());
        failure
    }

    #[must_use]
    pub fn with_details(self, details: JsonValue) -> (failure: Self)
        ensures
            failure@ == (FailureView { details: Some(details@), ..self@ }),
    {
        let mut updated = self;
        updated.details = Some(details);
        updated
    }

    #[must_use]
    pub fn with_headers(self, headers: Vec<ResponseHeader>) -> (failure: Self)
        ensures
            failure@ == (FailureView { headers: headers_view(headers@), ..self@ }),
    {
        let mut updated = self;
        updated.headers = headers;
        updated
    }

    /// The response that reports the failure.
    #[must_use]
    pub fn into_response<S, H, F>(self) -> (response: Response<S, H, F>)
        ensures
            reports(response, self@),
    {
        let response = error_response(
            self.status,
            self.code.as_str(),
            self.message.as_str(),
            self.details,
        );
        with_outcome_headers(response, &self.headers)
    }
}

/// The failure whose cause is not told.
pub fn internal_failure() -> (failure: Failure)
    ensures
        failure@ == internal(),
{
    Failure::new(
        HttpErrorSource::Internal,
        500,
        "internal_error",
        "the operation could not be completed",
    )
}

/// The failure of a target that does not decode.
pub open spec fn undecodable() -> FailureView {
    plain_failure(
        HttpErrorSource::Request,
        400,
        "invalid_url_encoding"@,
        "request target contains invalid percent encoding"@,
    )
}

/// The failure of a target that does not decode.
pub fn invalid_url_encoding_failure() -> (failure: Failure)
    ensures
        failure@ == undecodable(),
{
    Failure::new(
        HttpErrorSource::Request,
        400,
        "invalid_url_encoding",
        "request target contains invalid percent encoding",
    )
}

/// The names of methods, parted by a comma and a space.
pub open spec fn method_list(methods: Seq<HttpMethod>) -> Seq<char>
    decreases methods.len(),
{
    if methods.len() == 0 {
        Seq::empty()
    } else if methods.len() == 1 {
        method_name(methods[0])
    } else {
        method_list(methods.drop_last()) + ", "@ + method_name(methods.last())
    }
}

/// The failure of a request whose path answers to other methods.
pub open spec fn wrong_method(allowed: Seq<HttpMethod>) -> FailureView {
    FailureView {
        headers: seq![HeaderView { name: "allow"@, value: method_list(allowed) }],
        ..plain_failure(
            HttpErrorSource::Routing,
            405,
            "method_not_allowed"@,
            "HTTP method not allowed"@,
        )
    }
}

/// The failure of a request whose path is unknown.
pub open spec fn unknown_path() -> FailureView {
    plain_failure(HttpErrorSource::Routing, 404, "not_found"@, "HTTP route not found"@)
}

/// The failure of a request that no route answers. `allowed` holds the methods
/// that the path answers to.
pub open spec fn unrouted(allowed: Seq<HttpMethod>) -> FailureView {
    if allowed.len() > 0 {
        wrong_method(allowed)
    } else {
        unknown_path()
    }
}

fn join_methods(methods: &Vec<HttpMethod>) -> (text: String)
    ensures
        text@ == method_list(methods@),
{
    let mut text = "".to_owned();
    let mut index: usize = 0;
    proof {
        reveal_strlit("");
        assert(methods@.take(0) =~= Seq::empty());
        assert(text@ =~= Seq::empty());
    }
    while index < methods.len()
        invariant
            index <= methods@.len(),
            text@ == method_list(methods@.take(index as int)),
        decreases methods@.len() - index,
    {
        proof {
            assert(methods@.take(index + 1).drop_last() =~= methods@.take(index as int));
            assert(methods@.take(index + 1).last() == methods@[index as int]);
        }
        if index > 0 {
            text.append(", ");
        }
        text.append(methods[index].as_str());
        proof {
            if index == 0 {
                assert(text@ =~= method_name(methods@[0]));
            }
        }
        index += 1;
    }
    assert(methods@.take(index as int) =~= methods@);
    text
}

/// The failure of a request that no route answers.
pub fn route_miss_failure(error: &RouteError) -> (failure: Failure)
    ensures
        failure@ == match error {
            RouteError::MethodNotAllowed { allowed } => wrong_method(allowed@),
            RouteError::NotFound => unknown_path(),
        },
{
    match error {
        RouteError::MethodNotAllowed { allowed } => {
            let allow = join_methods(allowed);
            let mut headers: Vec<ResponseHeader> = Vec::new();
            headers.push(ResponseHeader::new("allow", allow.as_str()));
            assert(headers_view(headers@) =~= seq![
                HeaderView { name: "allow"@, value: method_list(allowed@) },
            ]);
            Failure::new(
                HttpErrorSource::Routing,
                405,
                "method_not_allowed",
                "HTTP method not allowed",
            ).with_headers(headers)
        },
        RouteError::NotFound => Failure::new(
            HttpErrorSource::Routing,
            404,
            "not_found",
            "HTTP route not found",
        ),
    }
}

// ---------------------------------------------------------------------------
// Request bodies
// ---------------------------------------------------------------------------

/// Why a request body is refused before the operation runs.
#[derive(Clone, Copy, Debug, PartialEq, Eq)]
pub enum BodyRejection {
    PayloadTooLarge { max_body_bytes: usize },
    UnsupportedMediaType,
}

/// The failure that refuses a body.
pub open spec fn body_failure(rejection: BodyRejection) -> FailureView {
    match rejection {
        BodyRejection::PayloadTooLarge { max_body_bytes } => FailureView {
            details: Some(
                JsonView::Object(
                    map![
                        "maxBytes"@ => JsonView::Number(
                            NumberView::Unsigned(max_body_bytes as u64),
                        ),
                    ],
                ),
            ),
            ..plain_failure(
                HttpErrorSource::Request,
                413,
                "payload_too_large"@,
                "request body exceeds the configured limit"@,
            )
        },
        BodyRejection::UnsupportedMediaType => plain_failure(
            HttpErrorSource::Request,
            415,
            "unsupported_media_type"@,
            "request body media type does not match the operation input"@,
        ),
    }
}

impl BodyRejection {
    #[must_use]
    pub fn into_failure(self) -> (failure: Failure)
        ensures
            failure@ == body_failure(self),
    {
        match self {
            BodyRejection::PayloadTooLarge { max_body_bytes } => {
                let details = JsonValue::object().with(
                    "maxBytes",
                    JsonValue::unsigned(max_body_bytes as u64),
                );
                assert(members(details@) =~= map![
                    "maxBytes"@ => JsonView::Number(NumberView::Unsigned(max_body_bytes as u64)),
                ]);
                Failure::new(
                    HttpErrorSource::Request,
                    413,
                    "payload_too_large",
                    "request body exceeds the configured limit",
                ).with_details(details)
            },
            BodyRejection::UnsupportedMediaType => Failure::new(
                HttpErrorSource::Request,
                415,
                "unsupported_media_type",
                "request body media type does not match the operation input",
            ),
        }
    }
}

/// A content type names a media type, whatever its parameters.
pub open spec fn names_media_type(content_type: Seq<char>, expected: Seq<char>) -> bool {
    lower_all(trim_spec(split_spec(content_type, ';')[0])) == lower_all(expected)
}

/// A content type suits an input source.
pub open spec fn suits(content_type: Seq<char>, source: InputSource) -> bool {
    match source {
        InputSource::Json => names_media_type(content_type, "application/json"@),
        InputSource::Form => names_media_type(
            content_type,
            "application/x-www-form-urlencoded"@,
        ),
        InputSource::Multipart => names_media_type(content_type, "multipart/form-data"@),
        InputSource::File => names_media_type(content_type, "multipart/form-data"@),
        _ => true,
    }
}

/// Why a body is refused, if it is: it is too long, or its media type does not
/// suit its source. A streamed body needs no media type.
pub open spec fn body_refused(
    length: nat,
    content_type: Option<Seq<char>>,
    max_body_bytes: usize,
    source: InputSource,
) -> Option<BodyRejection> {
    if length > max_body_bytes {
        Some(BodyRejection::PayloadTooLarge { max_body_bytes })
    } else if source == InputSource::Stream {
        None
    } else {
        match content_type {
            Some(content_type) => if suits(content_type, source) {
                None
            } else {
                Some(BodyRejection::UnsupportedMediaType)
            },
            None => Some(BodyRejection::UnsupportedMediaType),
        }
    }
}

/// Whether a content type names a media type, whatever its parameters.
pub fn media_type_is(value: &str, expected: &str) -> (same: bool)
    ensures
        same == names_media_type(value@, expected@),
{
    let characters = chars_of(value);
    let pieces = split_chars(characters.as_slice(), ';');
    assert(char_lists(pieces@)[0] == pieces@[0]@);
    let kept = trimmed(pieces[0].as_slice());
    eq_ignore_ascii_case(string_from(kept.as_slice()).as_str(), expected)
}

/// Checks a request body before the operation runs.
pub fn validate_body(
    length: usize,
    content_type: Option<&str>,
    max_body_bytes: usize,
    source: InputSource,
) -> (checked: Result<(), BodyRejection>)
    ensures
        match checked {
            Ok(_) => body_refused(
                length as nat,
                match content_type {
                    Some(content_type) => Some(content_type@),
                    None => None,
                },
                max_body_bytes,
                source,
            ) is None,
            Err(rejection) => body_refused(
                length as nat,
                match content_type {
                    Some(content_type) => Some(content_type@),
                    None => None,
                },
                max_body_bytes,
                source,
            ) == Some(rejection),
        },
{
    if length > max_body_bytes {
        return Err(BodyRejection::PayloadTooLarge { max_body_bytes });
    }
    if let InputSource::Stream = source {
        return Ok(());
    }
    let suitable = match content_type {
        None => false,
        Some(content_type) => match source {
            InputSource::Json => media_type_is(content_type, "application/json"),
            InputSource::Form => media_type_is(content_type, "application/x-www-form-urlencoded"),
            InputSource::Multipart => media_type_is(content_type, "multipart/form-data"),
            InputSource::File => media_type_is(content_type, "multipart/form-data"),
            _ => true,
        },
    };
    if !suitable {
        return Err(BodyRejection::UnsupportedMediaType);
    }
    Ok(())
}

// ---------------------------------------------------------------------------
// Outcomes
// ---------------------------------------------------------------------------

/// The failure that reports a declared error, where `read` is what its details
/// are as JSON.
pub open spec fn domain_reported(error: OperationFailure, read: Option<JsonView>) -> FailureView {
    let plain = FailureView {
        source: HttpErrorSource::Domain,
        status: error.status,
        code: error.code@,
        message: error.message@,
        details: None,
        headers: headers_view(error.headers@),
    };
    match (error.details, read) {
        (Some(_), Some(details)) => FailureView { details: Some(details), ..plain },
        (Some(_), None) => internal(),
        (None, _) => plain,
    }
}

/// The failure that reports a declared error, where `read` is what its details
/// are as JSON.
pub fn domain_failure(error: OperationFailure, read: Option<JsonValue>) -> (failure: Failure)
    ensures
        failure@ == domain_reported(error, opt_json(read)),
{
    let details = match (&error.details, read) {
        (Some(_), Some(details)) => Some(details),
        (Some(_), None) => {
            return internal_failure();
        },
        (None, _) => None,
    };
    Failure {
        source: HttpErrorSource::Domain,
        status: error.status,
        code: error.code,
        message: error.message,
        details,
        headers: error.headers,
    }
}

/// What an outcome is answered with: a response, or a failure to report.
pub open spec fn answers<S, H, F>(
    answer: Result<Response<S, H, F>, Failure>,
    outcome: ExecutionOutcome<S, H, F>,
) -> bool {
    match outcome {
        ExecutionOutcome::Success { status, headers, body, background } => {
            let start = match body {
                Some(_) => json_headers(),
                None => no_headers(),
            };
            let bytes = match body {
                Some(body) => body@,
                None => Seq::empty(),
            };
            answer matches Ok(response) && response.status == status && response.headers@
                == headers_set(start, headers_view(headers@)) && response.body@ == bytes
                && response.stream is None && response.upgrade is None && response.background
                == background
        },
        ExecutionOutcome::StreamingSuccess { status, headers, body, background } => answer matches
            Ok(response) && response.status == status && response.headers@ == headers_set(
            no_headers(),
            headers_view(headers@),
        ) && response.body@.len() == 0 && response.stream == Some(body) && response.upgrade is None
            && response.background == background,
        ExecutionOutcome::Upgrade { upgrade, background } => answer matches Ok(response)
            && response.status == 101 && response.headers@ == headers_set(
            no_headers(),
            headers_view(upgrade.headers@),
        ) && response.body@.len() == 0 && response.stream is None && response.upgrade == Some(
            upgrade,
        ) && response.background == background,
        ExecutionOutcome::Rejected { status, code, message, details } => answer matches Err(failure)
            && failure@ == (FailureView {
            details: opt_json(details),
            ..plain_failure(HttpErrorSource::Rejection, status, code@, message@)
        }),
        ExecutionOutcome::DomainError(error) => answer matches Err(failure) && failure@
            == domain_reported(
            error,
            match error.details {
                Some(details) => json_of(details@),
                None => None,
            },
        ),
        ExecutionOutcome::InternalError { .. } => answer matches Err(failure) && failure@
            == internal(),
    }
}

/// Turns an outcome into a response, or into the failure to report.
pub fn outcome_result<S, H, F>(outcome: ExecutionOutcome<S, H, F>) -> (answer: Result<
    Response<S, H, F>,
    Failure,
>)
    ensures
        answers(answer, outcome),
{
    match outcome {
        ExecutionOutcome::Success { status, headers, body, background } => {
            let response = match body {
                Some(body) => Response {
                    status,
                    headers: ResponseHeaders::one("content-type", "application/json"),
                    body,
                    stream: None,
                    upgrade: None,
                    background,
                },
                None => Response {
                    status,
                    headers: ResponseHeaders::empty(),
                    body: Vec::new(),
                    stream: None,
                    upgrade: None,
                    background,
                },
            };
            Ok(with_outcome_headers(response, &headers))
        },
        ExecutionOutcome::StreamingSuccess { status, headers, body, background } => {
            let response = Response {
                status,
                headers: ResponseHeaders::empty(),
                body: Vec::new(),
                stream: Some(body),
                upgrade: None,
                background,
            };
            Ok(with_outcome_headers(response, &headers))
        },
        ExecutionOutcome::Upgrade { upgrade, background } => {
            let headers = copied_headers(&upgrade.headers);
            let response = Response {
                status: 101,
                headers: ResponseHeaders::empty(),
                body: Vec::new(),
                stream: None,
                upgrade: Some(upgrade),
                background,
            };
            Ok(with_outcome_headers(response, &headers))
        },
        ExecutionOutcome::Rejected { status, code, message, details } => {
            let failure = Failure {
                source: HttpErrorSource::Rejection,
                status,
                code,
                message,
                details,
                headers: Vec::new(),
            };
            assert(failure@.headers =~= Seq::empty());
            Err(failure)
        },
        ExecutionOutcome::DomainError(error) => {
            let read = match &error.details {
                Some(details) => read_json(details.as_slice()),
                None => None,
            };
            Err(domain_failure(error, read))
        },
        ExecutionOutcome::InternalError { .. } => Err(internal_failure()),
    }
}

/// Internal faults are redacted: whatever an internal failure says, it is
/// answered with the same generic failure.
pub proof fn law_internal_faults_are_redacted<S, H, F>(
    answer: Result<Response<S, H, F>, Failure>,
    code: String,
    message: String,
)
    requires
        answers(answer, ExecutionOutcome::InternalError { code, message }),
    ensures
        answer matches Err(failure) && failure@ == internal(),
{
}

fn copied_headers(headers: &Vec<ResponseHeader>) -> (copies: Vec<ResponseHeader>)
    ensures
        headers_view(copies@) == headers_view(headers@),
{
    let mut copies: Vec<ResponseHeader> = Vec::new();
    let mut index: usize = 0;
    while index < headers.len()
        invariant
            index <= headers@.len(),
            copies@.len() == index,
            forall|i: int| 0 <= i < index ==> (#[trigger] copies@[i])@ == headers@[i]@,
        decreases headers@.len() - index,
    {
        copies.push(
            ResponseHeader::new(headers[index].name.as_str(), headers[index].value.as_str()),
        );
        index += 1;
    }
    assert(headers_view(copies@) =~= headers_view(headers@));
    copies
}

/// Where the media type of a content type ends: at its first `;`, or at the end
/// of the text.
pub open spec fn media_type_ends(content_type: Seq<char>, end: int) -> bool {
    &&& 0 <= end <= content_type.len()
    &&& forall|i: int| 0 <= i < end ==> (#[trigger] content_type[i]) != ';'
    &&& end < content_type.len() ==> content_type[end] == ';'
}

proof fn lemma_first_piece(text: Seq<char>, end: int)
    requires
        media_type_ends(text, end),
    ensures
        split_spec(text, ';').len() >= 1,
        split_spec(text, ';')[0] == text.take(end),
    decreases text.len(),
{
    if text.len() == 0 {
        assert(text.take(end) =~= Seq::<char>::empty());
    } else {
        let shorter = text.drop_last();
        let pieces = split_spec(shorter, ';');
        if end == text.len() {
            assert(text[end - 1] != ';');
            assert forall|i: int| 0 <= i < end - 1 implies (#[trigger] shorter[i]) != ';' by {
                assert(text[i] != ';');
            }
            lemma_first_piece(shorter, end - 1);
            lemma_one_piece(shorter);
            assert(pieces.len() == 1);
            assert(text.take(end) =~= shorter.take(end - 1).push(text.last()));
        } else {
            assert forall|i: int| 0 <= i < end implies (#[trigger] shorter[i]) != ';' by {
                assert(text[i] != ';');
            }
            if end == shorter.len() {
                lemma_first_piece(shorter, end);
            } else {
                assert(shorter[end] == text[end]);
                lemma_first_piece(shorter, end);
                lemma_more_pieces(shorter, end);
            }
            assert(shorter.take(end) =~= text.take(end));
        }
    }
}

proof fn lemma_one_piece(text: Seq<char>)
    requires
        forall|i: int| 0 <= i < text.len() ==> (#[trigger] text[i]) != ';',
    ensures
        split_spec(text, ';').len() == 1,
    decreases text.len(),
{
    if text.len() > 0 {
        assert(text[text.len() - 1] != ';');
        assert forall|i: int| 0 <= i < text.len() - 1 implies (#[trigger] text.drop_last()[i])
            != ';' by {
            assert(text[i] != ';');
        }
        lemma_one_piece(text.drop_last());
    }
}

proof fn lemma_more_pieces(text: Seq<char>, at: int)
    requires
        0 <= at < text.len(),
        text[at] == ';',
    ensures
        split_spec(text, ';').len() >= 2,
    decreases text.len(),
{
    let shorter = text.drop_last();
    lemma_pieces(shorter);
    if at < text.len() - 1 {
        assert(shorter[at] == ';');
        lemma_more_pieces(shorter, at);
    }
}

proof fn lemma_pieces(text: Seq<char>)
    ensures
        split_spec(text, ';').len() >= 1,
    decreases text.len(),
{
    if text.len() > 0 {
        lemma_pieces(text.drop_last());
    }
}

/// A body is admitted if and only if it is within the size limit and has the
/// media type of its source, up to parameters, surrounding white space and
/// ASCII case: JSON is `application/json`, a form is
/// `application/x-www-form-urlencoded`, and multipart bodies and files are
/// `multipart/form-data`. A body without a content type is admitted for none of
/// these, and a streamed body needs none.
pub proof fn law_bodies_are_admitted_by_media_type(
    length: nat,
    content_type: Seq<char>,
    end: int,
    max_body_bytes: usize,
)
    requires
        media_type_ends(content_type, end),
    ensures
        ({
            let given = lower_all(trim_spec(content_type.take(end)));
            let admitted = |source: InputSource|
                body_refused(length, Some(content_type), max_body_bytes, source) is None;
            let bare = |source: InputSource|
                body_refused(length, None, max_body_bytes, source) is None;
            let fits = length <= max_body_bytes;
            &&& admitted(InputSource::Json) <==> fits && given == "application/json"@
            &&& admitted(InputSource::Form) <==> fits && given
                == "application/x-www-form-urlencoded"@
            &&& admitted(InputSource::Multipart) <==> fits && given == "multipart/form-data"@
            &&& admitted(InputSource::File) <==> fits && given == "multipart/form-data"@
            &&& admitted(InputSource::Stream) <==> fits
            &&& bare(InputSource::Stream) <==> fits
            &&& !bare(InputSource::Json) && !bare(InputSource::Form) && !bare(
                InputSource::Multipart,
            ) && !bare(InputSource::File)
        }),
{
    lemma_first_piece(content_type, end);
    lemma_media_types();
}

/// A body that is admitted for one kind of source is refused, as a media type
/// that is not supported, for a source of another kind.
pub proof fn law_media_types_tell_sources_apart(
    length: nat,
    content_type: Seq<char>,
    max_body_bytes: usize,
)
    requires
        length <= max_body_bytes,
    ensures
        ({
            let refused = |source: InputSource|
                body_refused(length, Some(content_type), max_body_bytes, source);
            let json = refused(InputSource::Json);
            let form = refused(InputSource::Form);
            let parts = refused(InputSource::Multipart);
            let unsupported = Some(BodyRejection::UnsupportedMediaType);
            &&& refused(InputSource::File) == parts
            &&& json is None ==> form == unsupported && parts == unsupported
            &&& form is None ==> json == unsupported && parts == unsupported
            &&& parts is None ==> json == unsupported && form == unsupported
        }),
{
    lemma_media_types();
}

/// A body over the limit is refused as too large, with the limit, whatever its
/// media type and source; a body within the limit never is.
pub proof fn law_only_large_bodies_are_too_large(
    length: nat,
    content_type: Option<Seq<char>>,
    max_body_bytes: usize,
    source: InputSource,
)
    ensures
        body_refused(length, content_type, max_body_bytes, source) == Some(
            BodyRejection::PayloadTooLarge { max_body_bytes },
        ) <==> length > max_body_bytes,
        (exists|limit: usize|
            body_refused(length, content_type, max_body_bytes, source) == Some(
                #[trigger] too_large(limit),
            )) ==> length > max_body_bytes,
{
}

/// The refusal of a body over a limit.
pub open spec fn too_large(max_body_bytes: usize) -> BodyRejection {
    BodyRejection::PayloadTooLarge { max_body_bytes }
}

proof fn lemma_media_types()
    ensures
        lower_all("application/json"@) == "application/json"@,
        lower_all("application/x-www-form-urlencoded"@) == "application/x-www-form-urlencoded"@,
        lower_all("multipart/form-data"@) == "multipart/form-data"@,
        "application/json"@ != "application/x-www-form-urlencoded"@,
        "application/json"@ != "multipart/form-data"@,
        "application/x-www-form-urlencoded"@ != "multipart/form-data"@,
{
    reveal_strlit("application/json");
    reveal_strlit("application/x-www-form-urlencoded");
    reveal_strlit("multipart/form-data");
    assert("application/json"@.len() == 16);
    assert("application/x-www-form-urlencoded"@.len() == 33);
    assert("multipart/form-data"@.len() == 19);
    assert(lower_all("application/json"@) =~= "application/json"@);
    assert(lower_all("application/x-www-form-urlencoded"@)
        =~= "application/x-www-form-urlencoded"@);
    assert(lower_all("multipart/form-data"@) =~= "multipart/form-data"@);
}

/// The status of an outcome is the status of its answer, for successes and
/// failures alike; a declared error whose details cannot be read is answered as an
/// internal one. Successes are answered with a response, and nothing else is.
pub proof fn law_outcomes_are_answered_with_their_status<S, H, F>(
    answer: Result<Response<S, H, F>, Failure>,
    outcome: ExecutionOutcome<S, H, F>,
)
    requires
        answers(answer, outcome),
    ensures
        answer is Ok <==> !crate::outcome::is_failure(outcome),
        answer matches Ok(response) ==> response.status == crate::outcome::summary(outcome).status,
        answer matches Err(failure) ==> failure.status == crate::outcome::summary(outcome).status
            || outcome is DomainError && failure@ == internal(),
        outcome matches ExecutionOutcome::DomainError(error) ==> (error.details is None || (
        error.details matches Some(details) && json_of(details@) is Some)) ==> (answer matches Err(
            failure,
        ) && failure.status == error.status && failure.code@ == error.code@ && failure.message@
            == error.message@ && failure.source == HttpErrorSource::Domain),
        outcome matches ExecutionOutcome::Rejected { status, code, message, details } ==> (
        answer matches Err(failure) && failure.status == status && failure.code@ == code@
            && failure.message@ == message@ && failure@.details == opt_json(details)
            && failure.source == HttpErrorSource::Rejection),
        outcome matches ExecutionOutcome::Success { body: Some(bytes), .. } ==> (answer matches Ok(
            response,
        ) && response.body@ == bytes@),
        outcome is InternalError ==> (answer matches Err(failure) && failure.status == 500),
        outcome is Upgrade ==> (answer matches Ok(response) && response.status == 101),
{
}

/// A body that is sent as JSON says so, unless a header says otherwise; a response
/// without a body names no media type.
pub proof fn law_json_bodies_are_labelled<S, H, F>(
    answer: Result<Response<S, H, F>, Failure>,
    outcome: ExecutionOutcome<S, H, F>,
)
    requires
        answers(answer, outcome),
        outcome is Success,
        outcome->Success_headers@.len() == 0,
    ensures
        answer matches Ok(response) && header_got(response.headers@, "content-type"@) == (if
            outcome->Success_body is Some {
            Some("application/json"@)
        } else {
            None
        }),
{
    let headers = headers_view(outcome->Success_headers@);
    assert(headers.len() == 0);
    lemma_labels();
}

proof fn lemma_labels()
    ensures
        header_got(json_headers(), "content-type"@) == Some("application/json"@),
        header_got(no_headers(), "content-type"@) is None,
{
    let name = "content-type"@;
    reveal_with_fuel(crate::headers::inline_at, 5);
    reveal_with_fuel(crate::headers::listed_at, 2);
    let a = json_headers().inline;
    let b = no_headers().inline;
    assert(a.len() == 4 && b.len() == 4);
    assert(a.drop_last().drop_last().drop_last().last() == a[0]);
}

/// The document of an error holds its code, its message and, where there are any,
/// its details, under `error` and nowhere else.
pub proof fn law_errors_are_documented(
    code: Seq<char>,
    message: Seq<char>,
    details: Option<JsonView>,
)
    ensures
        ({
            let document = members(error_document(code, message, details));
            let error = members(document["error"@]);
            &&& document.dom() == set!["error"@]
            &&& error["code"@] == JsonView::Text(code)
            &&& error["message"@] == JsonView::Text(message)
            &&& error.contains_key("code"@) && error.contains_key("message"@)
            &&& match details {
                Some(details) => error.contains_key("details"@) && error["details"@] == details,
                None => !error.contains_key("details"@),
            }
        }),
{
    reveal_strlit("code");
    reveal_strlit("message");
    reveal_strlit("details");
    assert("code"@.len() == 4);
    assert("message"@[0] == 'm');
    assert("details"@[0] == 'd');
    assert(members(error_document(code, message, details)).dom() =~= set!["error"@]);
}

/// The refusals of bodies have the statuses that HTTP reserves for them, and one
/// over the limit tells the limit.
pub proof fn law_refused_bodies_have_their_status(max_body_bytes: usize)
    ensures
        ({
            let large = body_failure(BodyRejection::PayloadTooLarge { max_body_bytes });
            let wrong = body_failure(BodyRejection::UnsupportedMediaType);
            &&& large.status == 413
            &&& large.details matches Some(details) && members(details).contains_key("maxBytes"@)
                && members(details)["maxBytes"@] == JsonView::Number(
                NumberView::Unsigned(max_body_bytes as u64),
            )
            &&& wrong.status == 415
            &&& wrong.details is None
        }),
{
}

/// The methods that a path allows are listed one after the other, with a comma and
/// a blank between two of them.
pub proof fn law_allowed_methods_are_listed(methods: Seq<HttpMethod>, method: HttpMethod)
    ensures
        method_list(Seq::<HttpMethod>::empty()) == Seq::<char>::empty(),
        method_list(seq![method]) == method_name(method),
        methods.len() > 0 ==> method_list(methods.push(method)) == method_list(methods) + ", "@
            + method_name(method),
        wrong_method(methods).status == 405,
        wrong_method(methods).headers == seq![
            HeaderView { name: "allow"@, value: method_list(methods) },
        ],
{
    assert(methods.push(method).drop_last() =~= methods);
}

/// A request that no route answers is refused with status 405 and the methods that
/// are allowed at its path, and with status 404 if and only if there are none.
pub proof fn law_unrouted_requests_are_told_what_is_allowed(allowed: Seq<HttpMethod>)
    ensures
        unrouted(allowed).status == 404 <==> allowed.len() == 0,
        unrouted(allowed).status == 405 <==> allowed.len() > 0,
        allowed.len() > 0 ==> unrouted(allowed).code == "method_not_allowed"@ && unrouted(
            allowed,
        ).headers == seq![HeaderView { name: "allow"@, value: method_list(allowed) }],
        allowed.len() == 0 ==> unrouted(allowed).code == "not_found"@ && unrouted(
            allowed,
        ).headers.len() == 0,
        unrouted(allowed).source is Routing,
{
}

/// A declared failure is reported with the status, the code, the message and the
/// headers that were declared, and with its details where it has some. Details that
/// cannot be read are an internal failure.
pub proof fn law_domain_failures_are_reported_as_declared(
    error: OperationFailure,
    read: Option<JsonView>,
)
    ensures
        ({
            let told = domain_reported(error, read);
            let readable = error.details is None || read is Some;
            &&& readable ==> told.source is Domain && told.status == error.status && told.code
                == error.code@ && told.message == error.message@ && told.headers == headers_view(
                error.headers@,
            )
            &&& readable ==> told.details == if error.details is Some {
                read
            } else {
                None
            }
            &&& !readable ==> told.source is Internal && told.status == 500 && told.details is None
        }),
{
}

/// The headers of an outcome are set in order, with small letters: the last of a
/// name is the one that is sent, but for cookies, which are all sent.
pub proof fn law_outcome_headers_are_set(
    headers: HeaderSlots,
    added: Seq<HeaderView>,
    header: HeaderView,
    other: Seq<char>,
)
    ensures
        lower_all(header.name) != lower_all("set-cookie"@) ==> header_got(
            headers_set(headers, added.push(header)),
            header.name,
        ) == Some(header.value),
        lower_all(header.name) != lower_all(other) ==> header_got(
            headers_set(headers, added.push(header)),
            other,
        ) == header_got(headers_set(headers, added), other),
        lower_all(header.name) == lower_all("set-cookie"@) ==> listed(
            headers_set(headers, added.push(header)),
        ).to_multiset() == listed(headers_set(headers, added)).to_multiset().insert(
            HeaderView { name: lower_all(header.name), value: header.value },
        ),
{
    let more = added.push(header);
    let before = headers_set(headers, added);
    let name = lower_all(header.name);
    assert(more.drop_last() =~= added);
    assert(more.last() == header);
    lemma_lowered_twice(header.name);
    if name != lower_all("set-cookie"@) {
        law_set_headers_are_read_back(before, name, header.value);
        let after = header_set(before, name, header.value);
        lemma_got_alike(after, name, header.name);
    } else {
        law_cookies_are_added(before, name, header.value);
    }
    if name != lower_all(other) {
        law_other_headers_are_kept(before, name, header.value, other);
    }
}

proof fn lemma_lowered_twice(text: Seq<char>)
    ensures
        lower_all(lower_all(text)) == lower_all(text),
{
    assert(lower_all(lower_all(text)) =~= lower_all(text));
}

proof fn lemma_got_alike(headers: HeaderSlots, one: Seq<char>, other: Seq<char>)
    requires
        lower_all(one) == lower_all(other),
    ensures
        header_got(headers, one) == header_got(headers, other),
{
    lemma_inline_alike(headers.inline, one, other);
    lemma_listed_alike(headers.overflow, one, other);
}

proof fn lemma_inline_alike(inline: Seq<Option<HeaderView>>, one: Seq<char>, other: Seq<char>)
    requires
        lower_all(one) == lower_all(other),
    ensures
        inline_at(inline, one) == inline_at(inline, other),
    decreases inline.len(),
{
    if inline.len() > 0 {
        lemma_inline_alike(inline.drop_last(), one, other);
    }
}

proof fn lemma_listed_alike(list: Seq<HeaderView>, one: Seq<char>, other: Seq<char>)
    requires
        lower_all(one) == lower_all(other),
    ensures
        listed_at(list, one) == listed_at(list, other),
    decreases list.len(),
{
    if list.len() > 0 {
        lemma_listed_alike(list.drop_last(), one, other);
    }
}

} // verus!
