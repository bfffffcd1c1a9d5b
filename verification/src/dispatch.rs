//! How a request becomes a response.
//!
//! Dispatch alternates between decisions and work that belongs to the
//! application: its middleware layers, its error handlers, and the operation
//! itself. The decisions are made here. Each tells the adapter what to do next,
//! and is told what came of it.
use crate::application::{AppDefinition, HttpMethod, OperationDescriptor};
use crate::body::BackgroundTask;
use crate::middleware::{observes, MiddlewareScope, OperationFilter};
use crate::operation::{HeaderView, InputSource};
use crate::outcome::ExecutionOutcome;
use crate::request::target_path;
use crate::response::{
    answers, body_failure, body_refused, internal, internal_failure, invalid_url_encoding_failure,
    method_list, outcome_result, plain_failure, reports, route_miss_failure, undecodable, unrouted,
    validate_body, Failure, FailureView, HttpError, HttpErrorSource, Response,
};
use crate::router::{
    all_methods, allowed_methods, match_of, resolved, MatchView, RouteMatch, Router,
};
use crate::url::{path_of, target_decodes, validate_url_encoding};
use vstd::prelude::*;
use vstd::string::*;

verus! {

/// The body size accepted where an application names none.
pub const DEFAULT_MAX_BODY_BYTES: usize = 1048576;

/// One registered middleware layer.
#[derive(Clone, Debug)]
pub struct Layer<G> {
    pub scope: MiddlewareScope<G>,
    /// Whether the layer can verify contract security requirements.
    pub verifies_security: bool,
}

/// What dispatch needs to know of an operation.
#[derive(Clone, Debug, PartialEq, Eq)]
pub struct OperationSite {
    pub id: String,
    /// Whether the contract declares a security requirement.
    pub secured: bool,
}

/// The compiled inputs of dispatch. Operations stand in the order of the
/// executable graph.
pub struct HttpApp<G> {
    pub router: Router,
    pub operations: Vec<OperationSite>,
    pub layers: Vec<Layer<G>>,
    pub error_handlers: usize,
    pub max_body_bytes: usize,
    pub allow_unverified_security_schemes: bool,
}

/// What dispatch reads of a request.
#[derive(Clone, Debug, PartialEq, Eq)]
pub struct RequestHead {
    pub method: HttpMethod,
    pub target: String,
    pub body_length: usize,
    pub content_type: Option<String>,
}

/// The path of a request.
pub open spec fn path_asked(request: RequestHead) -> Seq<char> {
    path_of(request.target@)
}

// ---------------------------------------------------------------------------
// What comes next
// ---------------------------------------------------------------------------

/// What dispatch does next.
pub enum Next {
    /// Asks a layer about the request.
    AskLayer(int),
    /// Asks the service that publishes the application's documents.
    AskDocuments,
    /// Asks a layer about the selected operation.
    AskLayerForOperation(MatchView, int),
    /// Runs the selected operation.
    Invoke(MatchView),
    /// Reports a failure.
    Report(FailureView, Option<usize>),
}

/// The first layer from one on that observes a request.
pub open spec fn observer_from<G: OperationFilter>(
    layers: Seq<Layer<G>>,
    path: Seq<char>,
    id: Option<Seq<char>>,
    from: int,
) -> Option<int>
    decreases layers.len() - from,
{
    if from >= layers.len() {
        None
    } else if observes(layers[from].scope, path, id) {
        Some(from)
    } else {
        observer_from(layers, path, id, from + 1)
    }
}

/// The last layer before one that observes a request.
pub open spec fn observer_before<G: OperationFilter>(
    layers: Seq<Layer<G>>,
    path: Seq<char>,
    id: Option<Seq<char>>,
    before: int,
) -> Option<int>
    decreases before,
{
    if before <= 0 {
        None
    } else if observes(layers[before - 1].scope, path, id) {
        Some(before - 1)
    } else {
        observer_before(layers, path, id, before - 1)
    }
}

/// The id of an operation, where one is selected.
pub open spec fn id_of<G>(app: HttpApp<G>, operation: Option<usize>) -> Option<Seq<char>> {
    match operation {
        Some(index) => Some(app.operations@[index as int].id@),
        None => None,
    }
}

/// Asks the layers about the request from one on, and then the documents.
pub open spec fn next_request<G: OperationFilter>(
    app: HttpApp<G>,
    request: RequestHead,
    from: int,
) -> Next {
    match observer_from(app.layers@, path_asked(request), None, from) {
        Some(layer) => Next::AskLayer(layer),
        None => if target_decodes(request.target@) {
            Next::AskDocuments
        } else {
            Next::Report(undecodable(), None)
        },
    }
}

/// Routes the request.
pub open spec fn next_route<G: OperationFilter>(app: HttpApp<G>, request: RequestHead) -> Next {
    match resolved(app.router@, path_asked(request), request.method) {
        Some((slot, captures)) => {
            let found = match_of(app.router@[slot as int], captures);
            if found.operation_index < app.operations@.len() {
                next_operation(app, request, found, 0)
            } else {
                Next::Report(internal(), None)
            }
        },
        None => Next::Report(unrouted(allowed_methods(app.router@, path_asked(request))), None),
    }
}

/// Asks the layers about the selected operation from one on, and then admits
/// it.
pub open spec fn next_operation<G: OperationFilter>(
    app: HttpApp<G>,
    request: RequestHead,
    found: MatchView,
    from: int,
) -> Next {
    match observer_from(
        app.layers@,
        path_asked(request),
        id_of(app, Some(found.operation_index)),
        from,
    ) {
        Some(layer) => Next::AskLayerForOperation(found, layer),
        None => next_admission(app, request, found),
    }
}

/// A layer that can verify security observes an operation.
pub open spec fn verified<G: OperationFilter>(
    app: HttpApp<G>,
    path: Seq<char>,
    operation: usize,
) -> bool {
    exists|i: int|
        0 <= i < app.layers@.len() && (#[trigger] app.layers@[i]).verifies_security && observes(
            app.layers@[i].scope,
            path,
            id_of(app, Some(operation)),
        )
}

/// An operation may run as far as security goes.
pub open spec fn secure<G: OperationFilter>(
    app: HttpApp<G>,
    path: Seq<char>,
    operation: usize,
) -> bool {
    ||| app.allow_unverified_security_schemes
    ||| !app.operations@[operation as int].secured
    ||| verified(app, path, operation)
}

/// The failure of an operation whose security nothing verifies.
pub open spec fn unverifiable() -> FailureView {
    plain_failure(
        HttpErrorSource::Internal,
        500,
        "security_verifier_missing"@,
        "the operation declares a security scheme with no registered verifier"@,
    )
}

/// Why the body of a request is refused, if it is.
pub open spec fn refusal<G>(
    app: HttpApp<G>,
    request: RequestHead,
    source: InputSource,
) -> Option<crate::response::BodyRejection> {
    body_refused(
        request.body_length as nat,
        crate::operation::opt_text(request.content_type),
        app.max_body_bytes,
        source,
    )
}

/// Runs the selected operation, if its security is verified and the body of
/// the request suits it.
pub open spec fn next_admission<G: OperationFilter>(
    app: HttpApp<G>,
    request: RequestHead,
    found: MatchView,
) -> Next {
    if !secure(app, path_asked(request), found.operation_index) {
        Next::Report(unverifiable(), Some(found.operation_index))
    } else {
        match found.body_source {
            Some(source) => match refusal(app, request, source) {
                Some(rejection) => Next::Report(
                    body_failure(rejection),
                    Some(found.operation_index),
                ),
                None => Next::Invoke(found),
            },
            None => Next::Invoke(found),
        }
    }
}

// ---------------------------------------------------------------------------
// Steps
// ---------------------------------------------------------------------------

/// Where dispatch stands: what it asked for last.
pub enum DispatchState<'app, F> {
    Requesting { layer: usize },
    Documents,
    Operating { route: RouteMatch<'app>, layer: usize },
    Invoking { route: RouteMatch<'app> },
    Failing { error: HttpError, handler: usize, tasks: Vec<BackgroundTask<F>> },
    Completing { operation: Option<usize>, layer: usize },
    Finished,
}

/// What the adapter is to do.
pub enum DispatchAction<S, H, F> {
    /// Call a layer's request hook.
    AskLayer { layer: usize },
    /// Ask the service that publishes the application's documents.
    AskDocuments,
    /// Call a layer's operation hook.
    AskLayerForOperation { layer: usize, operation: usize },
    /// Run an operation.
    Invoke { operation: usize },
    /// Let an error handler rewrite a failure response.
    Handle { handler: usize, response: Response<S, H, F> },
    /// Call a layer's response hook.
    Observe { layer: usize, response: Response<S, H, F> },
    /// Send the response.
    Send { response: Response<S, H, F> },
}

/// What came of it.
pub enum DispatchEvent<S, H, F> {
    /// A layer or the document service did not answer.
    Declined,
    /// A layer or the document service answered.
    Answered { response: Response<S, H, F> },
    /// The operation ran and left work for later.
    Executed { outcome: ExecutionOutcome<S, H, F>, tasks: Vec<BackgroundTask<F>> },
    /// A handler or layer handed the response back.
    Returned { response: Response<S, H, F> },
}

/// An event answers what dispatch asked for.
pub open spec fn expected<S, H, F>(state: DispatchState<'_, F>, event: DispatchEvent<S, H, F>) -> bool {
    match state {
        DispatchState::Requesting { .. } => event is Declined || event is Answered,
        DispatchState::Documents => event is Declined || event is Answered,
        DispatchState::Operating { .. } => event is Declined || event is Answered,
        DispatchState::Invoking { .. } => event is Executed,
        DispatchState::Failing { .. } => event is Returned,
        DispatchState::Completing { .. } => event is Returned,
        DispatchState::Finished => false,
    }
}

/// A state that dispatch of an application can be in.
pub open spec fn reachable<G, F>(app: HttpApp<G>, state: DispatchState<'_, F>) -> bool {
    match state {
        DispatchState::Requesting { layer } => layer < app.layers@.len(),
        DispatchState::Documents => true,
        DispatchState::Operating { route, layer } => layer < app.layers@.len()
            && route@.operation_index < app.operations@.len(),
        DispatchState::Invoking { route } => route@.operation_index < app.operations@.len(),
        DispatchState::Failing { error, handler, .. } => handler < app.error_handlers && (
        error.operation matches Some(index) ==> index < app.operations@.len()),
        DispatchState::Completing { operation, layer } => layer < app.layers@.len() && (
        operation matches Some(index) ==> index < app.operations@.len()),
        DispatchState::Finished => true,
    }
}

/// The response is handed to the layers that observe it, the last first, and
/// then sent.
pub open spec fn completes<G: OperationFilter, S, H, F>(
    app: HttpApp<G>,
    request: RequestHead,
    operation: Option<usize>,
    before: int,
    response: Response<S, H, F>,
    state: DispatchState<'_, F>,
    action: DispatchAction<S, H, F>,
) -> bool {
    match observer_before(app.layers@, path_asked(request), id_of(app, operation), before) {
        Some(layer) => {
            &&& state matches DispatchState::Completing { operation: own, layer: at } && own
                == operation && at == layer
            &&& action matches DispatchAction::Observe { layer: at, response: shown } && at == layer
                && shown == response
        },
        None => {
            &&& state is Finished
            &&& action matches DispatchAction::Send { response: sent } && sent == response
        },
    }
}

/// The error that handlers are told of.
pub open spec fn tells(
    error: HttpError,
    failure: FailureView,
    request: RequestHead,
    operation: Option<usize>,
) -> bool {
    &&& error.source == failure.source
    &&& error.status == failure.status
    &&& error.code@ == failure.code
    &&& error.message@ == failure.message
    &&& error.method == request.method
    &&& error.path@ == path_asked(request)
    &&& error.operation == operation
}

/// A response with work added behind its own.
pub open spec fn with_tasks<S, H, F>(
    response: Response<S, H, F>,
    before: Response<S, H, F>,
    tasks: Seq<BackgroundTask<F>>,
) -> bool {
    &&& response == (Response { background: response.background, ..before })
    &&& response.background@ == before.background@ + tasks
}

/// The failure is reported: offered to the error handlers, the first first,
/// with the work that was left for later kept aside.
pub open spec fn begins_report<G: OperationFilter, S, H, F>(
    app: HttpApp<G>,
    request: RequestHead,
    failure: FailureView,
    operation: Option<usize>,
    tasks: Seq<BackgroundTask<F>>,
    state: DispatchState<'_, F>,
    action: DispatchAction<S, H, F>,
) -> bool {
    if app.error_handlers == 0 {
        exists|plain: Response<S, H, F>, response: Response<S, H, F>|
            #![trigger reports(plain, failure), with_tasks(response, plain, tasks)]
            {
                &&& reports(plain, failure)
                &&& with_tasks(response, plain, tasks)
                &&& completes(
                    app,
                    request,
                    operation,
                    app.layers@.len() as int,
                    response,
                    state,
                    action,
                )
            }
    } else {
        &&& state matches DispatchState::Failing { error, handler, tasks: kept } && tells(
            error,
            failure,
            request,
            operation,
        ) && handler == 0 && kept@ == tasks
        &&& action matches DispatchAction::Handle { handler, response } && handler == 0 && reports(
            response,
            failure,
        )
    }
}

/// What comes next is under way.
pub open spec fn begins<G: OperationFilter, S, H, F>(
    app: HttpApp<G>,
    request: RequestHead,
    next: Next,
    state: DispatchState<'_, F>,
    action: DispatchAction<S, H, F>,
) -> bool {
    match next {
        Next::AskLayer(layer) => {
            &&& state matches DispatchState::Requesting { layer: at } && at == layer
            &&& action matches DispatchAction::AskLayer { layer: at } && at == layer
        },
        Next::AskDocuments => state is Documents && action is AskDocuments,
        Next::AskLayerForOperation(found, layer) => {
            &&& state matches DispatchState::Operating { route, layer: at } && route@ == found && at
                == layer
            &&& action matches DispatchAction::AskLayerForOperation { layer: at, operation } && at
                == layer && operation == found.operation_index
        },
        Next::Invoke(found) => {
            &&& state matches DispatchState::Invoking { route } && route@ == found
            &&& action matches DispatchAction::Invoke { operation } && operation
                == found.operation_index
        },
        Next::Report(failure, operation) => begins_report(
            app,
            request,
            failure,
            operation,
            Seq::empty(),
            state,
            action,
        ),
    }
}

/// The response of a failure once all handlers rewrote it: a declared error
/// keeps the status that its contract publishes, and the work that was left
/// for later is added.
pub open spec fn settled<S, H, F>(
    response: Response<S, H, F>,
    handled: Response<S, H, F>,
    error: HttpError,
    tasks: Seq<BackgroundTask<F>>,
) -> bool {
    with_tasks(
        response,
        if error.source == HttpErrorSource::Domain {
            Response { status: error.status, ..handled }
        } else {
            handled
        },
        tasks,
    )
}

/// One step of dispatch follows from what came of the step before.
pub open spec fn follows<G: OperationFilter, S, H, F>(
    app: HttpApp<G>,
    request: RequestHead,
    before: DispatchState<'_, F>,
    event: DispatchEvent<S, H, F>,
    state: DispatchState<'_, F>,
    action: DispatchAction<S, H, F>,
) -> bool {
    let all = app.layers@.len() as int;
    match (before, event) {
        (DispatchState::Requesting { layer }, DispatchEvent::Declined) => begins(
            app,
            request,
            next_request(app, request, layer + 1),
            state,
            action,
        ),
        (DispatchState::Requesting { .. }, DispatchEvent::Answered { response }) => completes(
            app,
            request,
            None,
            all,
            response,
            state,
            action,
        ),
        (DispatchState::Documents, DispatchEvent::Declined) => begins(
            app,
            request,
            next_route(app, request),
            state,
            action,
        ),
        (DispatchState::Documents, DispatchEvent::Answered { response }) => completes(
            app,
            request,
            None,
            all,
            response,
            state,
            action,
        ),
        (DispatchState::Operating { route, layer }, DispatchEvent::Declined) => begins(
            app,
            request,
            next_operation(app, request, route@, layer + 1),
            state,
            action,
        ),
        (DispatchState::Operating { route, .. }, DispatchEvent::Answered { response }) => completes(
            app,
            request,
            Some(route@.operation_index),
            all,
            response,
            state,
            action,
        ),
        (DispatchState::Invoking { route }, DispatchEvent::Executed { outcome, tasks }) => {
            let operation = Some(route@.operation_index);
            exists|answer: Result<Response<S, H, F>, Failure>|
                #[trigger] answers(answer, outcome) && match answer {
                    Ok(plain) => exists|response: Response<S, H, F>|
                        #[trigger] with_tasks(response, plain, tasks@) && completes(
                            app,
                            request,
                            operation,
                            all,
                            response,
                            state,
                            action,
                        ),
                    Err(failure) => begins_report(
                        app,
                        request,
                        failure@,
                        operation,
                        tasks@,
                        state,
                        action,
                    ),
                }
        },
        (
            DispatchState::Failing { error, handler, tasks },
            DispatchEvent::Returned { response },
        ) => if handler + 1 < app.error_handlers {
            &&& state matches DispatchState::Failing { error: told, handler: at, tasks: kept }
                && told == error && at == handler + 1 && kept == tasks
            &&& action matches DispatchAction::Handle { handler: at, response: shown } && at
                == handler + 1 && shown == response
        } else {
            exists|done: Response<S, H, F>|
                #[trigger] settled(done, response, error, tasks@) && completes(
                    app,
                    request,
                    error.operation,
                    all,
                    done,
                    state,
                    action,
                )
        },
        (
            DispatchState::Completing { operation, layer },
            DispatchEvent::Returned { response },
        ) => completes(app, request, operation, layer as int, response, state, action),
        _ => false,
    }
}

// ---------------------------------------------------------------------------
// Deciding
// ---------------------------------------------------------------------------

proof fn lemma_no_observer_from<G: OperationFilter>(
    layers: Seq<Layer<G>>,
    path: Seq<char>,
    id: Option<Seq<char>>,
    from: int,
    until: int,
)
    requires
        0 <= from <= until <= layers.len(),
        forall|i: int| from <= i < until ==> !observes((#[trigger] layers[i]).scope, path, id),
    ensures
        observer_from(layers, path, id, from) == observer_from(layers, path, id, until),
    decreases until - from,
{
    if from < until {
        assert(!observes(layers[from].scope, path, id));
        lemma_no_observer_from(layers, path, id, from + 1, until);
    }
}

proof fn lemma_observer_bounds_from<G: OperationFilter>(
    layers: Seq<Layer<G>>,
    path: Seq<char>,
    id: Option<Seq<char>>,
    at: int,
)
    ensures
        observer_from(layers, path, id, at) matches Some(layer) ==> at <= layer < layers.len()
            && observes(layers[layer].scope, path, id),
    decreases layers.len() - at,
{
    if at < layers.len() && !observes(layers[at].scope, path, id) {
        lemma_observer_bounds_from(layers, path, id, at + 1);
    }
}

proof fn lemma_observer_bounds_before<G: OperationFilter>(
    layers: Seq<Layer<G>>,
    path: Seq<char>,
    id: Option<Seq<char>>,
    at: int,
)
    ensures
        observer_before(layers, path, id, at) matches Some(layer) ==> 0 <= layer < at && observes(
            layers[layer].scope,
            path,
            id,
        ),
    decreases at,
{
    if at > 0 && !observes(layers[at - 1].scope, path, id) {
        lemma_observer_bounds_before(layers, path, id, at - 1);
    }
}

impl<G: OperationFilter> HttpApp<G> {
    /// Compiles the inputs of dispatch for an application. `positions` says
    /// where each operation of the definition sits in the executable graph,
    /// and `graph` holds the operations in that order.
    #[must_use]
    pub fn new(
        definition: &AppDefinition,
        positions: &[usize],
        graph: &Vec<OperationDescriptor>,
    ) -> (app: Self)
        requires
            positions@.len() == definition.spec_operations().len(),
        ensures
            app.router@ == crate::router::routes_of(definition.spec_operations(), positions@),
            app.operations@.len() == graph@.len(),
            forall|i: int|
                0 <= i < graph@.len() ==> (#[trigger] app.operations@[i]).id@
                    == graph@[i].contract@.id && app.operations@[i].secured == (
                graph@[i].contract@.security.len() > 0),
            app.layers@.len() == 0,
            app.error_handlers == 0,
            app.max_body_bytes == DEFAULT_MAX_BODY_BYTES,
            !app.allow_unverified_security_schemes,
    {
        let mut operations: Vec<OperationSite> = Vec::new();
        let mut index: usize = 0;
        while index < graph.len()
            invariant
                index <= graph@.len(),
                operations@.len() == index,
                forall|i: int|
                    0 <= i < index ==> (#[trigger] operations@[i]).id@ == graph@[i].contract@.id
                        && operations@[i].secured == (graph@[i].contract@.security.len() > 0),
            decreases graph@.len() - index,
        {
            let contract = &graph[index].contract;
            operations.push(
                OperationSite {
                    id: contract.id.as_str().to_owned(),
                    secured: contract.security.len() > 0,
                },
            );
            index += 1;
        }
        HttpApp {
            router: Router::new(definition, positions),
            operations,
            layers: Vec::new(),
            error_handlers: 0,
            max_body_bytes: DEFAULT_MAX_BODY_BYTES,
            allow_unverified_security_schemes: false,
        }
    }

    #[must_use]
    pub fn with_max_body_bytes(self, max_body_bytes: usize) -> (app: Self)
        ensures
            app == (HttpApp { max_body_bytes, ..self }),
    {
        let mut updated = self;
        updated.max_body_bytes = max_body_bytes;
        updated
    }

    /// Allows operations that declare a security scheme to run without a
    /// registered verifier.
    #[must_use]
    pub fn with_unverified_security_schemes(self, allow: bool) -> (app: Self)
        ensures
            app == (HttpApp { allow_unverified_security_schemes: allow, ..self }),
    {
        let mut updated = self;
        updated.allow_unverified_security_schemes = allow;
        updated
    }

    /// Registers a middleware layer that observes every request.
    #[must_use]
    pub fn with_middleware(self, verifies_security: bool) -> (app: Self)
        ensures
            app == (HttpApp { layers: app.layers, ..self }),
            app.layers@.len() == self.layers@.len() + 1,
            app.layers@.drop_last() == self.layers@,
            app.layers@.last().verifies_security == verifies_security,
            crate::middleware::unconstrained(app.layers@.last().scope),
    {
        self.with_scoped_middleware(MiddlewareScope::all(), verifies_security)
    }

    /// Registers a middleware layer that observes the requests of a scope.
    #[must_use]
    pub fn with_scoped_middleware(self, scope: MiddlewareScope<G>, verifies_security: bool) -> (app:
        Self)
        ensures
            app == (HttpApp { layers: app.layers, ..self }),
            app.layers@ == self.layers@.push(Layer { scope, verifies_security }),
            app.layers@.drop_last() == self.layers@,
    {
        let mut updated = self;
        updated.layers.push(Layer { scope, verifies_security });
        assert(updated.layers@.drop_last() =~= self.layers@);
        updated
    }

    /// Registers an application-level handler for failure responses.
    #[must_use]
    pub fn with_error_handler(self) -> (app: Self)
        requires
            self.error_handlers < usize::MAX,
        ensures
            app == (HttpApp { error_handlers: (self.error_handlers + 1) as usize, ..self }),
    {
        let mut updated = self;
        updated.error_handlers = updated.error_handlers + 1;
        updated
    }

    /// Returns the compiled body source for a recognized request.
    #[must_use]
    pub fn request_body_source(&self, method: HttpMethod, target: &str) -> (source: Option<
        InputSource,
    >)
        ensures
            source == match resolved(self.router@, path_of(target@), method) {
                Some((slot, _)) => self.router@[slot as int].body_source,
                None => None,
            },
    {
        let path = target_path(target);
        match self.router.recognize(method, path.as_str()) {
            Ok(route) => route.body_source(),
            Err(_) => None,
        }
    }

    fn observer_from(&self, path: &str, operation: Option<usize>, from: usize) -> (layer: Option<
        usize,
    >)
        requires
            operation matches Some(index) ==> index < self.operations@.len(),
            from <= self.layers@.len(),
        ensures
            match layer {
                Some(layer) => observer_from(
                    self.layers@,
                    path@,
                    id_of(*self, operation),
                    from as int,
                ) == Some(layer as int) && layer < self.layers@.len(),
                None => observer_from(
                    self.layers@,
                    path@,
                    id_of(*self, operation),
                    from as int,
                ) is None,
            },
    {
        let ghost id = id_of(*self, operation);
        let mut index: usize = from;
        while index < self.layers.len()
            invariant
                operation matches Some(at) ==> at < self.operations@.len(),
                id == id_of(*self, operation),
                from <= index <= self.layers@.len(),
                forall|i: int|
                    from <= i < index ==> !observes(
                        (#[trigger] self.layers@[i]).scope,
                        path@,
                        id,
                    ),
            decreases self.layers@.len() - index,
        {
            let name = match operation {
                Some(at) => Some(self.operations[at].id.as_str()),
                None => None,
            };
            if self.layers[index].scope.matches(path, name) {
                proof {
                    lemma_no_observer_from(self.layers@, path@, id, from as int, index as int);
                }
                return Some(index);
            }
            index += 1;
        }
        proof {
            lemma_no_observer_from(self.layers@, path@, id, from as int, index as int);
        }
        None
    }

    fn observer_before(&self, path: &str, operation: Option<usize>, before: usize) -> (layer:
        Option<usize>)
        requires
            operation matches Some(index) ==> index < self.operations@.len(),
            before <= self.layers@.len(),
        ensures
            match layer {
                Some(layer) => observer_before(
                    self.layers@,
                    path@,
                    id_of(*self, operation),
                    before as int,
                ) == Some(layer as int) && layer < before,
                None => observer_before(
                    self.layers@,
                    path@,
                    id_of(*self, operation),
                    before as int,
                ) is None,
            },
    {
        let ghost id = id_of(*self, operation);
        let mut index: usize = before;
        while index > 0
            invariant
                operation matches Some(at) ==> at < self.operations@.len(),
                id == id_of(*self, operation),
                index <= before <= self.layers@.len(),
                observer_before(self.layers@, path@, id, before as int) == observer_before(
                    self.layers@,
                    path@,
                    id,
                    index as int,
                ),
            decreases index,
        {
            let name = match operation {
                Some(at) => Some(self.operations[at].id.as_str()),
                None => None,
            };
            if self.layers[index - 1].scope.matches(path, name) {
                return Some(index - 1);
            }
            index -= 1;
        }
        None
    }

    /// Fails closed when the matched operation declares a security scheme that
    /// no layer on this dispatch path can verify.
    pub fn security_guard(&self, path: &str, operation: usize) -> (failure: Option<Failure>)
        requires
            operation < self.operations@.len(),
        ensures
            match failure {
                Some(failure) => !secure(*self, path@, operation) && failure@ == unverifiable(),
                None => secure(*self, path@, operation),
            },
    {
        if self.allow_unverified_security_schemes || !self.operations[operation].secured {
            return None;
        }
        let mut index: usize = 0;
        while index < self.layers.len()
            invariant
                operation < self.operations@.len(),
                index <= self.layers@.len(),
                forall|i: int|
                    0 <= i < index ==> !((#[trigger] self.layers@[i]).verifies_security && observes(
                        self.layers@[i].scope,
                        path@,
                        id_of(*self, Some(operation)),
                    )),
            decreases self.layers@.len() - index,
        {
            if self.layers[index].verifies_security && self.layers[index].scope.matches(
                path,
                Some(self.operations[operation].id.as_str()),
            ) {
                assert(self.layers@[index as int].verifies_security);
                return None;
            }
            index += 1;
        }
        Some(
            Failure::new(
                HttpErrorSource::Internal,
                500,
                "security_verifier_missing",
                "the operation declares a security scheme with no registered verifier",
            ),
        )
    }

    fn complete<S, H, F>(
        &self,
        request: &RequestHead,
        operation: Option<usize>,
        before: usize,
        response: Response<S, H, F>,
    ) -> (step: (DispatchState<'_, F>, DispatchAction<S, H, F>))
        requires
            operation matches Some(index) ==> index < self.operations@.len(),
            before <= self.layers@.len(),
        ensures
            completes(*self, *request, operation, before as int, response, step.0, step.1),
            reachable(*self, step.0),
    {
        let path = target_path(request.target.as_str());
        match self.observer_before(path.as_str(), operation, before) {
            Some(layer) => (
                DispatchState::Completing { operation, layer },
                DispatchAction::Observe { layer, response },
            ),
            None => (DispatchState::Finished, DispatchAction::Send { response }),
        }
    }

    fn report<S, H, F>(
        &self,
        request: &RequestHead,
        failure: Failure,
        operation: Option<usize>,
        tasks: Vec<BackgroundTask<F>>,
    ) -> (step: (DispatchState<'_, F>, DispatchAction<S, H, F>))
        requires
            operation matches Some(index) ==> index < self.operations@.len(),
        ensures
            begins_report(*self, *request, failure@, operation, tasks@, step.0, step.1),
            reachable(*self, step.0),
    {
        let ghost view = failure@;
        let ghost added = tasks@;
        let error = HttpError {
            source: failure.source,
            status: failure.status,
            code: failure.code.clone(),
            message: failure.message.clone(),
            method: request.method,
            path: target_path(request.target.as_str()),
            operation,
        };
        let response: Response<S, H, F> = failure.into_response();
        if self.error_handlers == 0 {
            let ghost plain = response;
            let mut response = response;
            response.add_background_tasks(tasks);
            assert(reports(plain, view) && with_tasks(response, plain, added));
            return self.complete(request, operation, self.layers.len(), response);
        }
        (
            DispatchState::Failing { error, handler: 0, tasks },
            DispatchAction::Handle { handler: 0, response },
        )
    }

    fn begin_request<S, H, F>(&self, request: &RequestHead, from: usize) -> (step: (
        DispatchState<'_, F>,
        DispatchAction<S, H, F>,
    ))
        requires
            from <= self.layers@.len(),
        ensures
            begins(*self, *request, next_request(*self, *request, from as int), step.0, step.1),
            reachable(*self, step.0),
    {
        let path = target_path(request.target.as_str());
        match self.observer_from(path.as_str(), None, from) {
            Some(layer) => (
                DispatchState::Requesting { layer },
                DispatchAction::AskLayer { layer },
            ),
            None => {
                if validate_url_encoding(request.target.as_str()) {
                    (DispatchState::Documents, DispatchAction::AskDocuments)
                } else {
                    let tasks: Vec<BackgroundTask<F>> = Vec::new();
                    assert(tasks@ =~= Seq::empty());
                    self.report(request, invalid_url_encoding_failure(), None, tasks)
                }
            },
        }
    }

    fn begin_route<S, H, F>(&self, request: &RequestHead) -> (step: (
        DispatchState<'_, F>,
        DispatchAction<S, H, F>,
    ))
        ensures
            begins(*self, *request, next_route(*self, *request), step.0, step.1),
            reachable(*self, step.0),
    {
        let path = target_path(request.target.as_str());
        let tasks: Vec<BackgroundTask<F>> = Vec::new();
        assert(tasks@ =~= Seq::empty());
        match self.router.recognize(request.method, path.as_str()) {
            Ok(route) => {
                if route.operation_index() < self.operations.len() {
                    self.begin_operation(request, route, 0)
                } else {
                    self.report(request, internal_failure(), None, tasks)
                }
            },
            Err(error) => {
                proof {
                    if error is NotFound {
                        let test = |method: HttpMethod|
                            resolved(self.router@, path@, method) is Some;
                        assert forall|i: int| 0 <= i < all_methods().len() implies !test(
                            #[trigger] all_methods()[i],
                        ) by {}
                        all_methods().lemma_all_neg_filter_empty(test);
                        assert(allowed_methods(self.router@, path@) =~= Seq::empty());
                    }
                    assert(resolved(self.router@, path@, request.method) is None);
                }
                self.report(request, route_miss_failure(&error), None, tasks)
            },
        }
    }

    fn begin_operation<'app, S, H, F>(
        &'app self,
        request: &RequestHead,
        route: RouteMatch<'app>,
        from: usize,
    ) -> (step: (DispatchState<'app, F>, DispatchAction<S, H, F>))
        requires
            from <= self.layers@.len(),
            route@.operation_index < self.operations@.len(),
        ensures
            begins(
                *self,
                *request,
                next_operation(*self, *request, route@, from as int),
                step.0,
                step.1,
            ),
            reachable(*self, step.0),
    {
        let path = target_path(request.target.as_str());
        let operation = route.operation_index();
        if let Some(layer) = self.observer_from(path.as_str(), Some(operation), from) {
            return (
                DispatchState::Operating { route, layer },
                DispatchAction::AskLayerForOperation { layer, operation },
            );
        }
        let tasks: Vec<BackgroundTask<F>> = Vec::new();
        assert(tasks@ =~= Seq::empty());
        if let Some(failure) = self.security_guard(path.as_str(), operation) {
            return self.report(request, failure, Some(operation), tasks);
        }
        if let Some(source) = route.body_source() {
            let content_type = match &request.content_type {
                Some(content_type) => Some(content_type.as_str()),
                None => None,
            };
            if let Err(rejection) = validate_body(
                request.body_length,
                content_type,
                self.max_body_bytes,
                source,
            ) {
                return self.report(request, rejection.into_failure(), Some(operation), tasks);
            }
        }
        (DispatchState::Invoking { route }, DispatchAction::Invoke { operation })
    }

    /// Starts dispatch of a request.
    pub fn begin<S, H, F>(&self, request: &RequestHead) -> (step: (
        DispatchState<'_, F>,
        DispatchAction<S, H, F>,
    ))
        ensures
            begins(*self, *request, next_request(*self, *request, 0), step.0, step.1),
            reachable(*self, step.0),
    {
        self.begin_request(request, 0)
    }

    /// Goes on with dispatch after what was asked for came to something.
    pub fn advance<'app, S, H, F>(
        &'app self,
        request: &RequestHead,
        state: DispatchState<'app, F>,
        event: DispatchEvent<S, H, F>,
    ) -> (step: (DispatchState<'app, F>, DispatchAction<S, H, F>))
        requires
            reachable(*self, state),
            expected(state, event),
        ensures
            follows(*self, *request, state, event, step.0, step.1),
            reachable(*self, step.0),
    {
        let all: usize = self.layers.len();
        let (operation, before, response) = match (state, event) {
            (DispatchState::Requesting { layer }, DispatchEvent::Declined) => {
                return self.begin_request(request, layer + 1);
            },
            (DispatchState::Documents, DispatchEvent::Declined) => {
                return self.begin_route(request);
            },
            (DispatchState::Operating { route, layer }, DispatchEvent::Declined) => {
                return self.begin_operation(request, route, layer + 1);
            },
            (DispatchState::Requesting { .. }, DispatchEvent::Answered { response }) => (
                None,
                all,
                response,
            ),
            (DispatchState::Documents, DispatchEvent::Answered { response }) => (
                None,
                all,
                response,
            ),
            (DispatchState::Operating { route, .. }, DispatchEvent::Answered { response }) => (
                Some(route.operation_index()),
                all,
                response,
            ),
            (DispatchState::Invoking { route }, DispatchEvent::Executed { outcome, tasks }) => {
                let operation = route.operation_index();
                let ghost ended = outcome;
                let ghost added = tasks@;
                let answer = outcome_result(outcome);
                assert(answers(answer, ended));
                match answer {
                    Ok(response) => {
                        let ghost plain = response;
                        let mut response = response;
                        response.add_background_tasks(tasks);
                        assert(with_tasks(response, plain, added));
                        (Some(operation), all, response)
                    },
                    Err(failure) => {
                        return self.report(request, failure, Some(operation), tasks);
                    },
                }
            },
            (
                DispatchState::Failing { error, handler, tasks },
                DispatchEvent::Returned { response },
            ) => {
                if handler + 1 < self.error_handlers {
                    return (
                        DispatchState::Failing { error, handler: handler + 1, tasks },
                        DispatchAction::Handle { handler: handler + 1, response },
                    );
                }
                let ghost handled = response;
                let ghost added = tasks@;
                let mut response = response;
                if let HttpErrorSource::Domain = error.source {
                    response.set_status(error.status);
                }
                response.add_background_tasks(tasks);
                assert(settled(response, handled, error, added));
                (error.operation, all, response)
            },
            (
                DispatchState::Completing { operation, layer },
                DispatchEvent::Returned { response },
            ) => (operation, layer, response),
            _ => {
                return vstd::pervasive::unreached();
            },
        };
        self.complete(request, operation, before, response)
    }
}

// ---------------------------------------------------------------------------
// Laws
// ---------------------------------------------------------------------------

/// Dispatch fails closed: an operation that declares a security scheme runs
/// only where a registered layer that observes it can verify security, or
/// where that was waived; and no body runs into an operation that refuses it.
pub proof fn law_dispatch_fails_closed<G: OperationFilter>(
    app: HttpApp<G>,
    request: RequestHead,
    found: MatchView,
    from: int,
)
    ensures
        next_operation(app, request, found, from) matches Next::Invoke(run) ==> {
            &&& run == found
            &&& app.allow_unverified_security_schemes
                || !app.operations@[found.operation_index as int].secured || verified(
                app,
                path_asked(request),
                found.operation_index,
            )
            &&& found.body_source matches Some(source) ==> refusal(app, request, source) is None
        },
        next_request(app, request, from) !is Invoke,
{
}

/// The layers that a response is handed to below a position, in order.
pub open spec fn observers_below<G: OperationFilter>(
    layers: Seq<Layer<G>>,
    path: Seq<char>,
    id: Option<Seq<char>>,
    before: int,
) -> Seq<int>
    decreases before,
{
    if before <= 0 {
        Seq::empty()
    } else if observes(layers[before - 1].scope, path, id) {
        seq![before - 1] + observers_below(layers, path, id, before - 1)
    } else {
        observers_below(layers, path, id, before - 1)
    }
}

/// Every layer that observes a response is handed it once, in the reverse
/// order of registration: the next layer is always the first of those that are
/// left.
pub proof fn law_responses_are_observed_in_reverse<G: OperationFilter>(
    layers: Seq<Layer<G>>,
    path: Seq<char>,
    id: Option<Seq<char>>,
    before: int,
)
    requires
        0 <= before <= layers.len(),
    ensures
        ({
            let left = observers_below(layers, path, id, before);
            &&& match observer_before(layers, path, id, before) {
                Some(layer) => left == seq![layer] + observers_below(layers, path, id, layer),
                None => left.len() == 0,
            }
            &&& forall|i: int, j: int| 0 <= i < j < left.len() ==> left[i] > left[j]
            &&& forall|layer: int|
                #[trigger] left.contains(layer) <==> (0 <= layer < before && observes(
                    layers[layer].scope,
                    path,
                    id,
                ))
        }),
    decreases before,
{
    let left = observers_below(layers, path, id, before);
    if before > 0 {
        law_responses_are_observed_in_reverse(layers, path, id, before - 1);
        let inner = observers_below(layers, path, id, before - 1);
        if observes(layers[before - 1].scope, path, id) {
            assert forall|i: int, j: int| 0 <= i < j < left.len() implies left[i] > left[j] by {
                assert(left[j] == inner[j - 1]);
                assert(inner.contains(inner[j - 1]));
                if i > 0 {
                    assert(left[i] == inner[i - 1]);
                }
            }
            assert forall|layer: int| #[trigger] left.contains(layer) <==> (0 <= layer < before
                && observes(layers[layer].scope, path, id)) by {
                if left.contains(layer) {
                    let k = left.index_of(layer);
                    if k > 0 {
                        assert(left[k] == inner[k - 1]);
                        assert(inner.contains(layer));
                    }
                }
                if 0 <= layer < before && observes(layers[layer].scope, path, id) {
                    if layer == before - 1 {
                        assert(left[0] == layer);
                    } else {
                        assert(inner.contains(layer));
                        let k = inner.index_of(layer);
                        assert(left[k + 1] == layer);
                    }
                }
            }
        } else {
            assert forall|layer: int| #[trigger] left.contains(layer) <==> (0 <= layer < before
                && observes(layers[layer].scope, path, id)) by {
                assert(left.contains(layer) <==> inner.contains(layer));
            }
        }
    }
}

/// Layers are asked in the order of registration: the next one asked is the
/// first, from a position on, that observes the request.
pub proof fn law_requests_are_observed_in_order<G: OperationFilter>(
    layers: Seq<Layer<G>>,
    path: Seq<char>,
    id: Option<Seq<char>>,
    from: int,
)
    requires
        0 <= from,
    ensures
        match observer_from(layers, path, id, from) {
            Some(layer) => {
                &&& from <= layer < layers.len()
                &&& observes(layers[layer].scope, path, id)
                &&& forall|i: int|
                    from <= i < layer ==> !observes((#[trigger] layers[i]).scope, path, id)
            },
            None => forall|i: int|
                from <= i < layers.len() ==> !observes((#[trigger] layers[i]).scope, path, id),
        },
    decreases layers.len() - from,
{
    if from < layers.len() && !observes(layers[from].scope, path, id) {
        law_requests_are_observed_in_order(layers, path, id, from + 1);
    }
}

/// How much is left to do in a state: first by its kind, then by what is left
/// of that kind.
pub open spec fn left_to_do<G, F>(app: HttpApp<G>, state: DispatchState<'_, F>) -> (int, int) {
    match state {
        DispatchState::Requesting { layer } => (6, app.layers@.len() - layer),
        DispatchState::Documents => (5, 0),
        DispatchState::Operating { layer, .. } => (4, app.layers@.len() - layer),
        DispatchState::Invoking { .. } => (3, 0),
        DispatchState::Failing { handler, .. } => (2, app.error_handlers - handler),
        DispatchState::Completing { layer, .. } => (1, layer as int),
        DispatchState::Finished => (0, 0),
    }
}

/// Dispatch comes to an end: every step leaves less to do.
pub proof fn law_dispatch_ends<G: OperationFilter, S, H, F>(
    app: HttpApp<G>,
    request: RequestHead,
    before: DispatchState<'_, F>,
    event: DispatchEvent<S, H, F>,
    state: DispatchState<'_, F>,
    action: DispatchAction<S, H, F>,
)
    requires
        reachable(app, before),
        follows(app, request, before, event, state, action),
    ensures
        ({
            let (kind, amount) = left_to_do(app, before);
            let (next_kind, next_amount) = left_to_do(app, state);
            next_kind < kind || (next_kind == kind && 0 <= next_amount < amount)
        }),
        state is Finished <==> action is Send,
{
    let path = path_asked(request);
    match before {
        DispatchState::Requesting { layer } => {
            lemma_observer_bounds_from(app.layers@, path, None, layer + 1);
        },
        DispatchState::Operating { route, layer } => {
            lemma_observer_bounds_from(
                app.layers@,
                path,
                id_of(app, Some(route@.operation_index)),
                layer + 1,
            );
        },
        DispatchState::Completing { operation, layer } => {
            lemma_observer_bounds_before(
                app.layers@,
                path,
                id_of(app, operation),
                layer as int,
            );
        },
        _ => {},
    }
}

/// What a layer or the document service answers is its own: it never reaches
/// the error handlers.
pub proof fn law_answers_bypass_error_handlers<G: OperationFilter, S, H, F>(
    app: HttpApp<G>,
    request: RequestHead,
    before: DispatchState<'_, F>,
    event: DispatchEvent<S, H, F>,
    state: DispatchState<'_, F>,
    action: DispatchAction<S, H, F>,
)
    requires
        follows(app, request, before, event, state, action),
        event is Answered,
    ensures
        state is Completing || state is Finished,
        action matches DispatchAction::Observe { response, .. } ==> event
            == (DispatchEvent::Answered { response }),
        action matches DispatchAction::Send { response } ==> event == (DispatchEvent::Answered {
            response,
        }),
{
}

/// The status that a contract publishes for a declared error is what is sent,
/// whatever the error handlers did.
pub proof fn law_declared_statuses_stand<G: OperationFilter, S, H, F>(
    app: HttpApp<G>,
    request: RequestHead,
    before: DispatchState<'_, F>,
    event: DispatchEvent<S, H, F>,
    state: DispatchState<'_, F>,
    action: DispatchAction<S, H, F>,
)
    requires
        follows(app, request, before, event, state, action),
        before matches DispatchState::Failing { error, .. } && error.source
            == HttpErrorSource::Domain,
    ensures
        action matches DispatchAction::Observe { response, .. } ==> response.status
            == before->error.status,
        action matches DispatchAction::Send { response } ==> response.status
            == before->error.status,
{
}

/// What becomes of a request once all layers let it through to an operation: where
/// the operation declares a security scheme that nothing verifies, it is answered
/// with status 500; where its body is over the limit, with 413; where its body has
/// another media type than the operation reads, with 415; and otherwise the
/// operation runs.
pub proof fn law_admitted_requests_run<G: OperationFilter>(
    app: HttpApp<G>,
    request: RequestHead,
    found: MatchView,
)
    ensures
        ({
            let next = next_operation(app, request, found, app.layers@.len() as int);
            let at = found.operation_index;
            let id = app.operations@[at as int].id@;
            let guarded = app.allow_unverified_security_schemes
                || !app.operations@[at as int].secured || exists|i: int|
                0 <= i < app.layers@.len() && (#[trigger] app.layers@[i]).verifies_security
                    && observes(app.layers@[i].scope, path_of(request.target@), Some(id));
            let told = |status: u16, code: Seq<char>|
                next matches Next::Report(failure, operation) && failure.status == status
                    && failure.code == code && operation == Some(at);
            let content_type = crate::operation::opt_text(request.content_type);
            if !guarded {
                told(500, "security_verifier_missing"@)
            } else {
                match found.body_source {
                    None => next == Next::Invoke(found),
                    Some(source) => if request.body_length > app.max_body_bytes {
                        told(413, "payload_too_large"@)
                    } else if body_refused(
                        request.body_length as nat,
                        content_type,
                        app.max_body_bytes,
                        source,
                    ) is Some {
                        told(415, "unsupported_media_type"@)
                    } else {
                        next == Next::Invoke(found)
                    },
                }
            }
        }),
{
}

/// A request that no layer answers is refused with status 400 if and only if the
/// escapes of its target cannot be read. One that is routed nowhere is answered
/// with status 405 and the methods that its path allows, or with status 404 where
/// it allows none.
pub proof fn law_unanswered_requests_are_refused<G: OperationFilter>(
    app: HttpApp<G>,
    request: RequestHead,
)
    ensures
        ({
            let path = path_of(request.target@);
            let first = next_request(app, request, app.layers@.len() as int);
            let routed = next_route(app, request);
            let allowed = allowed_methods(app.router@, path);
            &&& target_decodes(request.target@) ==> first == Next::AskDocuments
            &&& !target_decodes(request.target@) ==> (first matches Next::Report(failure, operation)
                && failure.status == 400 && failure.code == "invalid_url_encoding"@ && operation
                == None::<usize>)
            &&& resolved(app.router@, path, request.method) is None && allowed.len() > 0 ==> (
            routed matches Next::Report(failure, operation) && failure.status == 405 && failure.code
                == "method_not_allowed"@ && operation == None::<usize> && failure.headers == seq![
                HeaderView { name: "allow"@, value: method_list(allowed) },
            ])
            &&& resolved(app.router@, path, request.method) is None && allowed.len() == 0 ==> (
            routed matches Next::Report(failure, operation) && failure.status == 404 && failure.code
                == "not_found"@ && operation == None::<usize> && failure.headers.len() == 0)
            &&& resolved(app.router@, path, request.method) matches Some((slot, captures)) ==> (
            routed matches Next::Invoke(run) ==> run == match_of(
                app.router@[slot as int],
                captures,
            ))
        }),
{
}

} // verus!
