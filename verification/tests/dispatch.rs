use blazingly::application::{HttpMethod, OperationDescriptor};
use blazingly::assembly::ExecutableApp;
use blazingly::body::{BackgroundTask, Chunks};
use blazingly::contract::{TypeDescriptor, TypeView};
use blazingly::dispatch::{
    DispatchAction, DispatchEvent, DispatchState, HttpApp, RequestHead,
};
use blazingly::executable::ExecutableOperation;
use blazingly::introspection::routes_table_text;
use blazingly::json::JsonValue;
use blazingly::middleware::{MiddlewareScope, NoFilter};
use blazingly::operation::{
    ApiSchema, InputDescriptor, InputSource, OperationFailure, ResponseDescriptor,
    SecurityLocation, SecurityRequirement, SecuritySchemeDescriptor, SecuritySchemeKind,
};
use blazingly::outcome::{ExecutionOutcome, OperationOutput};
use blazingly::outputs::{PreparedJson, ResponseHints};
use blazingly::pipeline::{InvocationAbort, InvocationAction, InvocationEvent};
use blazingly::request::{HttpRequestContext, Request};
use blazingly::response::{outcome_result, HttpError, HttpErrorSource, Response};
use std::cell::RefCell;
use std::rc::Rc;

type Address = [u8; 4];
type Context = HttpRequestContext<Address, u64>;
type Work = Box<dyn FnOnce()>;
type Answer = Response<Chunks, (), Work>;
type Outcome = ExecutionOutcome<Chunks, (), Work>;
type Tasks = Vec<BackgroundTask<Work>>;
type Scope = MiddlewareScope<NoFilter>;
type EventLog = Rc<RefCell<Vec<String>>>;

/// One layer of a test application.
trait TestLayer {
    fn on_request(&self, _context: &mut Context) -> Option<Answer> {
        None
    }

    fn on_operation(
        &self,
        _context: &mut Context,
        _operation: &OperationDescriptor,
    ) -> Option<Answer> {
        None
    }

    fn on_response(&self, _response: &mut Answer) {}

    fn verifies_security(&self) -> bool {
        true
    }
}

/// What a handler sees and leaves behind.
struct Handling<'request> {
    context: &'request Context,
    host: Option<&'request str>,
    tasks: Tasks,
    abort: Option<InvocationAbort>,
    log: EventLog,
}

impl Handling<'_> {
    /// Leaves work behind that notes that it ran.
    fn schedule(&mut self) {
        let log = Rc::clone(&self.log);
        self.tasks.push(BackgroundTask::new(Box::new(move || {
            log.borrow_mut().push("task".to_string());
        })));
    }
}

type TestHandler = fn(&mut Handling<'_>) -> Outcome;

/// Performs what dispatch asks for.
struct TestApp {
    executable: ExecutableApp,
    app: HttpApp<NoFilter>,
    layers: Vec<Box<dyn TestLayer>>,
    error_handlers: Vec<fn(&HttpError, &mut Answer)>,
    handlers: Vec<TestHandler>,
    log: EventLog,
}

impl TestApp {
    fn new(
        operations: Vec<ExecutableOperation>,
        schemes: Vec<SecuritySchemeDescriptor>,
        handlers: Vec<TestHandler>,
    ) -> TestApp {
        let executable = ExecutableApp::with_security_schemes(operations, schemes)
            .ok()
            .expect("operation graph should compile");
        let positions: Vec<usize> = executable
            .definition()
            .operations()
            .iter()
            .map(|operation| {
                executable
                    .operation_index(&operation.contract.id)
                    .expect("a defined operation")
            })
            .collect();
        let mut graph = Vec::new();
        while let Some(operation) = executable.operation_at(graph.len()) {
            graph.push(operation.descriptor().clone());
        }
        let app = HttpApp::new(executable.definition(), &positions, &graph);
        TestApp {
            executable,
            app,
            layers: Vec::new(),
            error_handlers: Vec::new(),
            handlers,
            log: Rc::new(RefCell::new(Vec::new())),
        }
    }

    fn with_scoped_middleware(mut self, scope: Scope, layer: impl TestLayer + 'static) -> TestApp {
        self.app = self
            .app
            .with_scoped_middleware(scope, layer.verifies_security());
        self.layers.push(Box::new(layer));
        self
    }

    fn with_middleware(self, layer: impl TestLayer + 'static) -> TestApp {
        self.with_scoped_middleware(Scope::all(), layer)
    }

    fn with_error_handler(mut self, handler: fn(&HttpError, &mut Answer)) -> TestApp {
        self.app = self.app.with_error_handler();
        self.error_handlers.push(handler);
        self
    }

    /// Runs an operation by performing what its invocation asks for.
    fn invoke(&self, index: usize, handling: &mut Handling<'_>) -> Outcome {
        let operation = self.executable.operation_at(index).expect("an operation");
        let mut invocation = operation.begin(true);
        let mut answer = None;
        loop {
            let event = match operation.action(&invocation) {
                InvocationAction::Check => match handling.abort {
                    Some(abort) => InvocationEvent::Aborted(abort),
                    None => InvocationEvent::Went,
                },
                InvocationAction::Prepare { handler } => {
                    answer = Some(self.handlers[handler](handling));
                    InvocationEvent::Went
                }
                InvocationAction::Handle => {
                    InvocationEvent::Answered(answer.take().expect("a prepared handler"))
                }
                InvocationAction::Done => return invocation.into_outcome(),
                other => panic!("nothing asks for {other:?} here"),
            };
            invocation = operation.advance(invocation, event);
        }
    }

    fn call(&self, request: Request<Address>) -> Answer {
        let head = RequestHead {
            method: request.method(),
            target: request.target().to_string(),
            body_length: request.body_bytes().len(),
            content_type: request.get_header("content-type").map(str::to_string),
        };
        let mut context = Context::new(request.peer_addr, &request.scheme);
        let host = request.get_header("host");
        let (mut state, mut action) = self.app.begin(&head);
        loop {
            let event = match action {
                DispatchAction::AskLayer { layer } => {
                    match self.layers[layer].on_request(&mut context) {
                        Some(response) => DispatchEvent::Answered { response },
                        None => DispatchEvent::Declined,
                    }
                }
                DispatchAction::AskDocuments => DispatchEvent::Declined,
                DispatchAction::AskLayerForOperation { layer, operation } => {
                    let operation = self.executable.operation_at(operation).unwrap();
                    match self.layers[layer].on_operation(&mut context, operation.descriptor()) {
                        Some(response) => DispatchEvent::Answered { response },
                        None => DispatchEvent::Declined,
                    }
                }
                DispatchAction::Invoke { operation } => {
                    let mut handling = Handling {
                        context: &context,
                        host,
                        tasks: Vec::new(),
                        abort: None,
                        log: Rc::clone(&self.log),
                    };
                    let outcome = self.invoke(operation, &mut handling);
                    DispatchEvent::Executed {
                        outcome,
                        tasks: handling.tasks,
                    }
                }
                DispatchAction::Handle {
                    handler,
                    mut response,
                } => {
                    if let DispatchState::Failing { error, .. } = &state {
                        self.error_handlers[handler](error, &mut response);
                    }
                    DispatchEvent::Returned { response }
                }
                DispatchAction::Observe {
                    layer,
                    mut response,
                } => {
                    self.layers[layer].on_response(&mut response);
                    DispatchEvent::Returned { response }
                }
                DispatchAction::Send { response } => return response,
            };
            let (next, asked) = self.app.advance(&head, state, event);
            state = next;
            action = asked;
        }
    }
}

struct PassthroughLayer;

impl TestLayer for PassthroughLayer {}

struct AuditLayer;

impl TestLayer for AuditLayer {
    fn verifies_security(&self) -> bool {
        false
    }
}

struct NormalizingProxy;

impl TestLayer for NormalizingProxy {
    fn on_request(&self, context: &mut Context) -> Option<Answer> {
        context.set_client_ip([198, 51, 100, 7]);
        context.set_scheme("https");
        context.set_host("api.example");
        None
    }
}

struct RecordingLayer {
    name: &'static str,
    events: EventLog,
}

impl TestLayer for RecordingLayer {
    fn on_request(&self, _context: &mut Context) -> Option<Answer> {
        self.events
            .borrow_mut()
            .push(format!("{}:request", self.name));
        None
    }

    fn on_operation(
        &self,
        _context: &mut Context,
        operation: &OperationDescriptor,
    ) -> Option<Answer> {
        self.events.borrow_mut().push(format!(
            "{}:operation:{}",
            self.name,
            operation.contract.id.as_str()
        ));
        None
    }

    fn on_response(&self, _response: &mut Answer) {
        self.events
            .borrow_mut()
            .push(format!("{}:response", self.name));
    }
}

struct StatusStamp;

impl TestLayer for StatusStamp {
    fn on_response(&self, response: &mut Answer) {
        let status = response.status().to_string();
        response.set_header("x-final-status", &status);
    }

    fn verifies_security(&self) -> bool {
        false
    }
}

/// A layer that answers for itself.
struct ShortCircuit;

impl TestLayer for ShortCircuit {
    fn on_request(&self, _context: &mut Context) -> Option<Answer> {
        Some(Answer::from_bytes(429, b"slow down".to_vec()))
    }
}

fn house_style(error: &HttpError, response: &mut Answer) {
    response.set_header("x-error-source", &format!("{:?}", error.source()));
    match error.source() {
        HttpErrorSource::Internal => {
            response.set_status(503);
            response.replace_body(br#"{"error":{"code":"unavailable"}}"#.to_vec());
        }
        // Deliberately illegal: a typed status is contract, not style.
        HttpErrorSource::Domain => response.set_status(500),
        HttpErrorSource::Routing | HttpErrorSource::Request | HttpErrorSource::Rejection => {}
    }
}

fn descriptor(path: &str, id: &str, security: Vec<SecurityRequirement>) -> OperationDescriptor {
    OperationDescriptor::new(
        HttpMethod::Get,
        path,
        id,
        "Reports the normalized connection",
        None,
        vec![ResponseDescriptor::success(
            200,
            Some(TypeDescriptor::new("Connection")),
        )],
    )
    .expect("test operation id should be valid")
    .with_security(security)
}

fn success(body: Option<JsonValue>) -> Outcome {
    let body = body.map(|body| {
        PreparedJson::<TitlesSchema>::encode(&mut ResponseHints::new(), 0x10, &body)
            .expect("the body encodes")
            .into_bytes()
    });
    ExecutionOutcome::Success {
        status: 200,
        headers: Vec::new(),
        body,
        background: Vec::new(),
    }
}

fn connection(handling: &mut Handling<'_>) -> Outcome {
    let info = handling.context.connection_info(handling.host);
    let address = info
        .client_ip()
        .map(|ip| format!("{}.{}.{}.{}", ip[0], ip[1], ip[2], ip[3]));
    success(Some(
        JsonValue::object()
            .with("scheme", JsonValue::text(info.scheme()))
            .with("host", JsonValue::text(info.host().unwrap_or("")))
            .with(
                "clientIp",
                JsonValue::text(address.as_deref().unwrap_or("")),
            ),
    ))
}

fn accepted(_handling: &mut Handling<'_>) -> Outcome {
    success(None)
}

fn conflict(_handling: &mut Handling<'_>) -> Outcome {
    ExecutionOutcome::DomainError(OperationFailure::new(
        409,
        "conflict",
        "the event was already ingested",
    ))
}

fn executable() -> TestApp {
    TestApp::new(
        vec![
            ExecutableOperation::typed(
                descriptor(
                    "/secure",
                    "http.secure",
                    vec![SecurityRequirement::new("api_key")],
                ),
                0,
            ),
            ExecutableOperation::typed(descriptor("/plain", "http.plain", Vec::new()), 0),
        ],
        vec![SecuritySchemeDescriptor::new(
            "api_key",
            SecuritySchemeKind::ApiKey {
                location: SecurityLocation::Header,
                name: "x-api-key".to_string(),
            },
        )],
        vec![connection],
    )
}

fn scoped_executable() -> TestApp {
    TestApp::new(
        vec![
            ExecutableOperation::typed(
                descriptor("/ingest/events", "ingest.events", Vec::new()),
                0,
            ),
            ExecutableOperation::typed(descriptor("/status", "status.read", Vec::new()), 0),
        ],
        Vec::new(),
        vec![connection],
    )
}

fn single(path: &str, id: &str, handler: TestHandler) -> TestApp {
    TestApp::new(
        vec![ExecutableOperation::typed(
            descriptor(path, id, Vec::new()),
            0,
        )],
        Vec::new(),
        vec![handler],
    )
}

fn error_code(response: &Answer) -> String {
    let body = response.json().expect("json error body");
    body.get("error")
        .and_then(|error| error.get("code"))
        .and_then(|code| code.as_str())
        .expect("stable error code")
        .to_string()
}

/// Runs the work that a response leaves behind.
fn run_background(response: &mut Answer) {
    for mut task in response.take_background_tasks() {
        let work = task.take().expect("work that did not run yet");
        work();
        assert!(task.take().is_err());
    }
}

struct TitlesSchema;

impl ApiSchema for TitlesSchema {
    fn described() -> TypeView {
        unreachable!()
    }

    fn type_descriptor() -> TypeDescriptor {
        TypeDescriptor::new("Titles")
    }
}

#[test]
fn a_prepared_body_reaches_the_wire_verbatim_as_json() {
    let app = single("/prepared", "http.prepared", |_| {
        let titles = JsonValue::list(vec![JsonValue::text("first"), JsonValue::text("second")]);
        PreparedJson::<TitlesSchema>::encode(&mut ResponseHints::new(), 0x20, &titles)
            .expect("the borrowed view encodes")
            .into_execution_outcome()
    });
    let response = app.call(Request::get("/prepared"));

    assert_eq!(response.status(), 200);
    assert_eq!(
        response.get_header("content-type"),
        Some("application/json")
    );
    assert_eq!(response.body(), br#"["first","second"]"#);
}

#[test]
fn unlayered_dispatch_fails_closed_for_a_declared_scheme() {
    let response = executable().call(Request::get("/secure"));

    assert_eq!(response.status(), 500);
    assert_eq!(error_code(&response), "security_verifier_missing");
}

#[test]
fn owned_adapter_fails_closed_for_a_declared_scheme() {
    let app = executable();
    let response = app.call(Request::get("/secure"));

    assert_eq!(response.status(), 500);
    assert_eq!(error_code(&response), "security_verifier_missing");
}

#[test]
fn unverified_scheme_opt_out_executes_the_operation() {
    let mut app = executable();
    app.app = app.app.with_unverified_security_schemes(true);
    let response = app.call(Request::get("/secure"));
    assert_eq!(response.status(), 200);
}

#[test]
fn routes_emission_lists_every_operation() {
    let app = executable();
    let table = routes_table_text(app.executable.definition());
    assert!(table.starts_with("METHOD\tPATH\tOPERATION\tSUMMARY\n"));
    assert!(table.contains("GET\t/secure\thttp.secure\tReports the normalized connection\n"));
    assert!(table.contains("GET\t/plain\thttp.plain\tReports the normalized connection\n"));
    assert_eq!(table.lines().count(), 3);
}

#[test]
fn unsecured_operations_are_untouched_by_the_guard() {
    let response = executable().call(Request::get("/plain"));
    assert_eq!(response.status(), 200);
}

#[test]
fn layered_dispatch_runs_the_same_guard() {
    let audited = executable()
        .with_middleware(AuditLayer)
        .call(Request::get("/secure"));
    assert_eq!(audited.status(), 500);
    assert_eq!(error_code(&audited), "security_verifier_missing");

    let verified = executable()
        .with_middleware(PassthroughLayer)
        .call(Request::get("/secure"));
    assert_eq!(verified.status(), 200);
}

#[test]
fn a_prefix_scoped_layer_observes_only_its_subtree() {
    let events: EventLog = Rc::new(RefCell::new(Vec::new()));
    let app = scoped_executable().with_scoped_middleware(
        Scope::prefix("/ingest"),
        RecordingLayer {
            name: "ingest",
            events: Rc::clone(&events),
        },
    );

    app.call(Request::get("/ingest/events"));
    assert_eq!(
        *events.borrow(),
        [
            "ingest:request",
            "ingest:operation:ingest.events",
            "ingest:response"
        ]
    );

    events.borrow_mut().clear();
    app.call(Request::get("/status"));
    assert!(events.borrow().is_empty());
}

#[test]
fn an_operation_scoped_layer_starts_after_routing() {
    let events: EventLog = Rc::new(RefCell::new(Vec::new()));
    let app = scoped_executable().with_scoped_middleware(
        Scope::operation("ingest.events"),
        RecordingLayer {
            name: "op",
            events: Rc::clone(&events),
        },
    );

    app.call(Request::get("/ingest/events"));
    assert_eq!(
        *events.borrow(),
        ["op:operation:ingest.events", "op:response"]
    );

    events.borrow_mut().clear();
    app.call(Request::get("/status"));
    assert!(events.borrow().is_empty());
}

#[test]
fn a_scoped_verifier_does_not_cover_operations_outside_its_scope() {
    let outside = executable()
        .with_scoped_middleware(Scope::prefix("/other"), PassthroughLayer)
        .call(Request::get("/secure"));
    assert_eq!(outside.status(), 500);
    assert_eq!(error_code(&outside), "security_verifier_missing");

    let inside = executable()
        .with_scoped_middleware(Scope::prefix("/secure"), PassthroughLayer)
        .call(Request::get("/secure"));
    assert_eq!(inside.status(), 200);
}

#[test]
fn an_injected_handle_schedules_work_from_the_handler_body() {
    let app = single("/ingest", "tasks.ok", |handling| {
        handling.schedule();
        accepted(handling)
    });
    let mut response = app.call(Request::get("/ingest"));
    assert_eq!(response.status(), 200);
    assert!(app.log.borrow().is_empty());

    run_background(&mut response);
    assert_eq!(app.log.borrow().clone(), ["task"]);
}

#[test]
fn scheduled_work_survives_a_failed_outcome() {
    let app = single("/ingest", "tasks.conflict", |handling| {
        handling.schedule();
        conflict(handling)
    });
    let mut response = app.call(Request::get("/ingest"));
    assert_eq!(response.status(), 409);
    assert_eq!(error_code(&response), "conflict");

    run_background(&mut response);
    assert_eq!(app.log.borrow().clone(), ["task"]);
}

#[test]
fn scheduled_work_survives_an_aborted_invocation() {
    // The handler schedules its work, and the time limit fires before the
    // response is serialized.
    let app = single("/ingest", "tasks.aborted", |handling| {
        handling.schedule();
        handling.abort = Some(InvocationAbort::TimedOut);
        accepted(handling)
    });
    let mut response = app.call(Request::get("/ingest"));
    assert_eq!(response.status(), 504);
    assert_eq!(error_code(&response), "invocation_timeout");

    run_background(&mut response);
    assert_eq!(app.log.borrow().clone(), ["task"]);
}

#[test]
fn an_unused_handle_leaves_the_response_untouched() {
    let mut response = scoped_executable().call(Request::get("/status"));

    assert_eq!(response.status(), 200);
    assert!(response.take_background_tasks().is_empty());
}

#[test]
fn an_error_handler_restyles_every_dispatch_failure() {
    let app = executable().with_error_handler(house_style);

    let missing = app.call(Request::get("/nope"));
    assert_eq!(missing.status(), 404);
    assert_eq!(missing.get_header("x-error-source"), Some("Routing"));

    let unverified = app.call(Request::get("/secure"));
    assert_eq!(unverified.status(), 503);
    assert_eq!(unverified.get_header("x-error-source"), Some("Internal"));
    assert_eq!(error_code(&unverified), "unavailable");

    let allowed = app.call(Request::post("/plain"));
    assert_eq!(allowed.status(), 405);
    assert_eq!(allowed.get_header("allow"), Some("GET"));
    assert_eq!(allowed.get_header("x-error-source"), Some("Routing"));
}

#[test]
fn the_owned_adapter_registers_the_same_seams() {
    let app = executable()
        .with_scoped_middleware(Scope::prefix("/other"), PassthroughLayer)
        .with_error_handler(house_style);
    let response = app.call(Request::get("/secure"));

    assert_eq!(response.status(), 503);
    assert_eq!(response.get_header("x-error-source"), Some("Internal"));
}

#[test]
fn a_typed_domain_status_survives_the_error_handler() {
    let app = TestApp::new(
        vec![
            ExecutableOperation::typed(descriptor("/conflict", "errors.conflict", Vec::new()), 0),
            ExecutableOperation::typed(descriptor("/broken", "errors.broken", Vec::new()), 1),
        ],
        Vec::new(),
        vec![conflict, |_| ExecutionOutcome::InternalError {
            code: "boom".to_string(),
            message: "boom".to_string(),
        }],
    )
    .with_error_handler(house_style);

    let domain = app.call(Request::get("/conflict"));
    assert_eq!(domain.status(), 409);
    assert_eq!(error_code(&domain), "conflict");
    assert_eq!(domain.get_header("x-error-source"), Some("Domain"));

    let internal = app.call(Request::get("/broken"));
    assert_eq!(internal.status(), 503);
    assert_eq!(error_code(&internal), "unavailable");
}

#[test]
fn an_internal_fault_says_nothing_of_its_cause() {
    let outcome: Outcome = ExecutionOutcome::InternalError {
        code: "pool_exhausted".to_string(),
        message: "no connection to the ledger".to_string(),
    };
    let failure = match outcome_result(outcome) {
        Ok(_) => panic!("an internal fault is a failure"),
        Err(failure) => failure,
    };
    assert_eq!(failure.status, 500);
    assert_eq!(failure.code, "internal_error");
    assert_eq!(failure.message, "the operation could not be completed");
    assert_eq!(failure.details, None);
    assert!(failure.headers.is_empty());
}

#[test]
fn error_handlers_run_before_middleware_sees_the_response() {
    let response = executable()
        .with_error_handler(house_style)
        .with_middleware(StatusStamp)
        .call(Request::get("/secure"));

    assert_eq!(response.status(), 503);
    assert_eq!(response.get_header("x-final-status"), Some("503"));
}

#[test]
fn normalized_connection_reaches_the_operation_context() {
    let request = || {
        Request::get("/plain")
            .peer_addr([127, 0, 0, 1])
            .header("host", "internal:8080")
    };
    let said = |response: &Answer, key: &str| {
        response
            .json()
            .expect("connection body")
            .get(key)
            .and_then(|value| value.as_str())
            .expect("a text")
            .to_string()
    };

    let unlayered = executable().call(request());
    assert_eq!(said(&unlayered, "scheme"), "http");
    assert_eq!(said(&unlayered, "host"), "internal:8080");
    assert_eq!(said(&unlayered, "clientIp"), "127.0.0.1");

    let layered = executable()
        .with_middleware(NormalizingProxy)
        .call(request());
    assert_eq!(said(&layered, "scheme"), "https");
    assert_eq!(said(&layered, "host"), "api.example");
    assert_eq!(said(&layered, "clientIp"), "198.51.100.7");
}

#[test]
fn layers_see_requests_in_order_and_responses_in_reverse() {
    let events: EventLog = Rc::new(RefCell::new(Vec::new()));
    let app = scoped_executable()
        .with_middleware(RecordingLayer {
            name: "outer",
            events: Rc::clone(&events),
        })
        .with_middleware(RecordingLayer {
            name: "inner",
            events: Rc::clone(&events),
        });
    app.call(Request::get("/status"));
    assert_eq!(
        *events.borrow(),
        [
            "outer:request",
            "inner:request",
            "outer:operation:status.read",
            "inner:operation:status.read",
            "inner:response",
            "outer:response",
        ]
    );
}

#[test]
fn an_answering_layer_bypasses_the_error_handlers() {
    let response = executable()
        .with_error_handler(house_style)
        .with_middleware(ShortCircuit)
        .call(Request::get("/secure"));
    assert_eq!(response.status(), 429);
    assert_eq!(response.get_header("x-error-source"), None);
    assert_eq!(response.body(), b"slow down");
}

#[test]
fn bodies_are_checked_before_an_operation_runs() {
    let json = descriptor("/items", "items.create", Vec::new()).with_inputs(vec![
        InputDescriptor::new("body", InputSource::Json, true, TypeDescriptor::new("Item")),
    ]);
    let mut app = TestApp::new(
        vec![ExecutableOperation::typed(json, 0)],
        Vec::new(),
        vec![accepted],
    );
    app.app = app.app.with_max_body_bytes(4);

    let untyped = app.call(Request::get("/items").body(b"{}".to_vec()));
    assert_eq!(untyped.status(), 415);
    assert_eq!(error_code(&untyped), "unsupported_media_type");

    let oversized = app.call(
        Request::get("/items")
            .header("content-type", "application/json")
            .body(b"[1,2,3]".to_vec()),
    );
    assert_eq!(oversized.status(), 413);

    let accepted = app.call(
        Request::get("/items")
            .header("content-type", "application/json; charset=utf-8")
            .body(b"{}".to_vec()),
    );
    assert_eq!(accepted.status(), 200);
}

#[test]
fn a_target_that_does_not_decode_is_refused() {
    let response = executable().call(Request::get("/plain?x=%4"));
    assert_eq!(response.status(), 400);
    assert_eq!(error_code(&response), "invalid_url_encoding");
}
