use blazingly::application::{HttpMethod, OperationDescriptor};
use blazingly::assembly::{ExecutableApp, FailedSingleton};
use blazingly::body::Chunks;
use blazingly::contract::OperationId;
use blazingly::dependency::{
    finalizer_value, resolve, DependencyError, DependencyKey, DependencyRequest, DependencySlot,
    DependencyValue, Provider,
};
use blazingly::executable::{ExecutableOperation, Plugin, TestOverrides};
use blazingly::graph::ExecutableBuildError;
use blazingly::operation::{
    AgentPolicy, McpToolDescriptor, OperationFailure, ResponseDescriptor,
};
use blazingly::outcome::{ExecutionOutcome, HookOutcomeKind};
use blazingly::pipeline::{
    operation_not_found, InvocationAbort, InvocationAction, InvocationEvent,
    RequestDependencyValues, ResolvedDependencies,
};

type Outcome = ExecutionOutcome<Chunks, (), &'static str>;
type Event = InvocationEvent<Chunks, (), &'static str>;

const CONFIG: u64 = 1;
const STORE: u64 = 2;
const SESSION: u64 = 3;

fn key(type_id: u64, name: &'static str) -> DependencyKey {
    DependencyKey::of(type_id, name)
}

fn config() -> DependencyKey {
    key(CONFIG, "Config")
}

fn store() -> DependencyKey {
    key(STORE, "Store")
}

fn session() -> DependencyKey {
    key(SESSION, "Session")
}

fn descriptor(id: &str, path: &str) -> OperationDescriptor {
    OperationDescriptor::new(
        HttpMethod::Get,
        path,
        id,
        id,
        None,
        vec![ResponseDescriptor::success(200, None)],
    )
    .expect("a valid identity")
}

fn operation(id: &str, path: &str) -> ExecutableOperation {
    ExecutableOperation::typed(descriptor(id, path), 0)
}

fn session_operation() -> ExecutableOperation {
    ExecutableOperation::typed_with_dependencies(
        descriptor("sessions.read", "/sessions"),
        vec![DependencyRequest::of(SESSION, "Session")],
        0,
    )
}

fn success() -> Outcome {
    ExecutionOutcome::Success {
        status: 200,
        headers: Vec::new(),
        body: None,
        background: Vec::new(),
    }
}

fn fault(result: Result<ExecutableApp, ExecutableBuildError>) -> ExecutableBuildError {
    match result {
        Ok(_) => panic!("the graph should not compile"),
        Err(error) => error,
    }
}

/// Runs an invocation, with a word for every step; `answer` says what happens.
fn run(
    operation: &ExecutableOperation,
    controlled: bool,
    mut answer: impl FnMut(&InvocationAction) -> Event,
) -> (Vec<String>, Outcome) {
    let mut steps = Vec::new();
    let mut invocation = operation.begin(controlled);
    loop {
        let action = operation.action(&invocation);
        let word = match &action {
            InvocationAction::Check => "check".to_string(),
            InvocationAction::RunHook { hook } => format!("hook {hook}"),
            InvocationAction::Provide { index } => format!("provide {index}"),
            InvocationAction::AnswerDirectly { handler } => format!("direct {handler}"),
            InvocationAction::Prepare { handler } => format!("prepare {handler}"),
            InvocationAction::Handle => "handle".to_string(),
            InvocationAction::Finalize { index } => format!("finalize {index}"),
            InvocationAction::Observe { hook, .. } => format!("observe {hook}"),
            InvocationAction::Done => {
                steps.push("done".to_string());
                return (steps, invocation.into_outcome());
            }
        };
        steps.push(word);
        let event = answer(&action);
        invocation = operation.advance(invocation, event);
    }
}

fn goes_well(action: &InvocationAction) -> Event {
    match action {
        InvocationAction::Handle | InvocationAction::AnswerDirectly { .. } => {
            InvocationEvent::Answered(success())
        }
        _ => InvocationEvent::Went,
    }
}

#[test]
fn a_plugin_tree_is_compiled_into_one_application() {
    let inner = Plugin::new("users")
        .provide(Provider::request(session(), vec![store()], 12))
        .operation(session_operation())
        .on_startup(21)
        .on_shutdown(22);
    let outer = Plugin::new("app")
        .provide(Provider::value(config(), 10))
        .provide(Provider::singleton(store(), vec![config()], 11))
        .operation(operation("health", "/health"))
        .plugin(inner)
        .on_startup(31)
        .on_shutdown(32);
    let assembly = ExecutableApp::assemble(outer, TestOverrides::new())
        .ok()
        .expect("a valid graph");
    let factories: Vec<usize> = assembly
        .singletons()
        .iter()
        .map(|step| step.provider.factory)
        .collect();
    assert_eq!(factories, [10, 11]);
    let app = assembly.complete(None).ok().expect("built singletons");
    assert_eq!(app.definition().operations().len(), 2);

    let mut startup = app.startup();
    let mut order = Vec::new();
    while let Some(hook) = startup.next() {
        order.push(hook);
        startup.ran(Ok(()));
    }
    assert_eq!(order, [31, 21]);
    assert_eq!(startup.result().ok(), Some(()));

    let mut shutdown = app.shutdown();
    let mut order = Vec::new();
    while let Some(hook) = shutdown.next() {
        order.push(hook);
        shutdown.ran(Err(DependencyError::internal("late", "too late")));
    }
    assert_eq!(order, [22, 32]);
    assert!(shutdown.result().is_err());
}

#[test]
fn startup_stops_at_the_first_failure() {
    let app = ExecutableApp::from_plugin(Plugin::new("app").on_startup(1).on_startup(2))
        .ok()
        .expect("a valid graph");
    let mut startup = app.startup();
    assert_eq!(startup.next(), Some(1));
    startup.ran(Err(DependencyError::internal("down", "not reachable")));
    assert_eq!(startup.next(), None);
    assert!(startup.result().is_err());
}

#[test]
fn operations_are_found_by_identity_and_by_tool() {
    let tool = ExecutableOperation::typed(
        descriptor("users.read", "/users").with_mcp_tool(
            McpToolDescriptor::new("read_users", "Read users"),
            AgentPolicy::default(),
        ),
        4,
    );
    let app = ExecutableApp::new(vec![operation("health", "/health"), tool])
        .ok()
        .expect("a valid graph");
    let id = OperationId::new("users.read").unwrap();
    assert_eq!(app.operation_index(&id), Some(1));
    assert!(app.operation(&id).is_some());
    assert!(app.operation(&OperationId::new("absent").unwrap()).is_none());
    assert_eq!(
        app.operation_for_mcp_tool("read_users")
            .map(|found| found.descriptor().contract.id.as_str()),
        Some("users.read")
    );
    assert!(app.operation_for_mcp_tool("absent").is_none());
    assert!(app.operation_at(2).is_none());
}

#[test]
fn every_invalid_plugin_is_named() {
    let unnamed = fault(ExecutableApp::from_plugin(Plugin::new("no spaces")));
    assert_eq!(unnamed.to_string(), "invalid plugin name `no spaces`");

    let twice = fault(ExecutableApp::from_plugin(
        Plugin::new("app")
            .provide(Provider::value(config(), 1))
            .provide(Provider::value(config(), 2)),
    ));
    assert_eq!(
        twice.to_string(),
        "plugin `app` registers dependency `Config` more than once"
    );

    let missing = fault(ExecutableApp::from_plugin(
        Plugin::new("app").operation(session_operation()),
    ));
    assert_eq!(
        missing.to_string(),
        "plugin `app` cannot resolve dependency `Session` required by `sessions.read`"
    );

    let cycle = fault(ExecutableApp::from_plugin(
        Plugin::new("app")
            .provide(Provider::singleton(config(), vec![store()], 1))
            .provide(Provider::singleton(store(), vec![config()], 2)),
    ));
    assert_eq!(
        cycle.to_string(),
        "plugin `app` contains a dependency cycle: Config -> Store -> Config"
    );

    let lifetime = fault(ExecutableApp::from_plugin(
        Plugin::new("app")
            .provide(Provider::request(session(), Vec::new(), 1))
            .provide(Provider::singleton(store(), vec![session()], 2)),
    ));
    assert_eq!(
        lifetime.to_string(),
        "singleton `Store` in plugin `app` cannot depend on shorter-lived `Session`"
    );

    let duplicate = fault(ExecutableApp::new(vec![
        operation("health", "/a"),
        operation("health", "/b"),
    ]));
    assert!(matches!(duplicate, ExecutableBuildError::Definition(_)));

    let unused = fault(ExecutableApp::from_plugin_with_overrides(
        Plugin::new("app"),
        TestOverrides::new().replace(Provider::value(config(), 1)),
    ));
    assert_eq!(
        unused.to_string(),
        "test override for `Config` did not match a registered provider"
    );
    let misplaced = fault(ExecutableApp::from_plugin_with_overrides(
        Plugin::new("app").provide(Provider::value(config(), 1)),
        TestOverrides::new().replace_in("other", Provider::value(config(), 2)),
    ));
    assert_eq!(
        misplaced.to_string(),
        "test override for `Config` targets unknown plugin scope `other`"
    );
}

#[test]
fn a_singleton_that_fails_fails_the_application() {
    let assembly = ExecutableApp::assemble(
        Plugin::new("app").provide(Provider::value(config(), 1)),
        TestOverrides::new(),
    )
    .ok()
    .expect("a valid graph");
    let failed = assembly.complete(Some(FailedSingleton {
        step: 0,
        error: DependencyError::internal("unreachable", "no route to the store"),
    }));
    let error = fault(failed);
    assert!(matches!(
        error,
        ExecutableBuildError::SingletonProviderFailed { .. }
    ));
    assert!(error
        .to_string()
        .starts_with("singleton provider `Config` in plugin `app` failed: "));
}

#[test]
fn an_override_replaces_the_provider_of_its_scope() {
    let assembly = ExecutableApp::assemble(
        Plugin::new("app").provide(Provider::value(config(), 1)),
        TestOverrides::new().replace(Provider::value(config(), 99)),
    )
    .ok()
    .expect("a valid graph");
    assert_eq!(assembly.singletons()[0].provider.factory, 99);
}

#[test]
fn a_provider_is_not_seen_beside_or_above_its_plugin() {
    let sibling = fault(ExecutableApp::from_plugin(
        Plugin::new("app")
            .plugin(Plugin::new("users").provide(Provider::request(session(), Vec::new(), 1)))
            .plugin(Plugin::new("orders").operation(session_operation())),
    ));
    assert_eq!(
        sibling.to_string(),
        "plugin `app/orders` cannot resolve dependency `Session` required by `sessions.read`"
    );
    let parent = fault(ExecutableApp::from_plugin(
        Plugin::new("app")
            .operation(session_operation())
            .plugin(Plugin::new("users").provide(Provider::request(session(), Vec::new(), 1))),
    ));
    assert_eq!(
        parent.to_string(),
        "plugin `app` cannot resolve dependency `Session` required by `sessions.read`"
    );
}

#[test]
fn a_plugin_uses_its_own_provider_before_an_inherited_one() {
    let provided = |inner: Plugin| {
        let app = ExecutableApp::from_plugin(
            Plugin::new("app")
                .provide(Provider::request(session(), Vec::new(), 1))
                .plugin(inner),
        )
        .ok()
        .expect("a valid graph");
        let found = app
            .operation(&OperationId::new("sessions.read").unwrap())
            .expect("the operation");
        let factories: Vec<usize> = found
            .dependency_plan
            .as_ref()
            .expect("a compiled plan")
            .request_providers
            .iter()
            .map(|step| step.provider.factory)
            .collect();
        factories
    };
    let bare = Plugin::new("users").operation(session_operation());
    assert_eq!(provided(bare), [1]);
    let own = Plugin::new("users")
        .provide(Provider::request(session(), Vec::new(), 2))
        .operation(session_operation());
    assert_eq!(provided(own), [2]);
}

fn hooked_app() -> ExecutableApp {
    let inner = Plugin::new("users")
        .provide(Provider::request_scoped(session(), vec![store()], 12))
        .operation(session_operation())
        .on_request(2)
        .pre_serialize(5)
        .on_error(7)
        .on_response(9);
    ExecutableApp::from_plugin(
        Plugin::new("app")
            .provide(Provider::request_scoped(store(), Vec::new(), 11))
            .plugin(inner)
            .on_request(1)
            .pre_handler(4)
            .on_error(6)
            .on_response(8),
    )
    .ok()
    .expect("a valid graph")
}

fn hooked() -> (ExecutableApp, usize) {
    let app = hooked_app();
    let index = app
        .operation_index(&OperationId::new("sessions.read").unwrap())
        .expect("the operation");
    (app, index)
}

#[test]
fn an_invocation_runs_its_stages_in_order() {
    let (app, index) = hooked();
    let operation = app.operation_at(index).unwrap();
    let (steps, outcome) = run(operation, false, goes_well);
    assert_eq!(
        steps,
        [
            "hook 1",
            "hook 2",
            "provide 0",
            "provide 1",
            "prepare 0",
            "hook 4",
            "handle",
            "hook 5",
            "finalize 1",
            "finalize 0",
            "observe 9",
            "observe 8",
            "done",
        ]
    );
    assert!(!outcome.is_error());
}

#[test]
fn a_failure_is_cleaned_up_and_shown_to_the_error_hooks() {
    let (app, index) = hooked();
    let operation = app.operation_at(index).unwrap();
    let mut kinds = Vec::new();
    let (steps, outcome) = run(operation, false, |action| match action {
        InvocationAction::Provide { index: 1 } => InvocationEvent::Failed(
            DependencyError::rejected(OperationFailure::new(409, "busy", "try again")),
        ),
        InvocationAction::Observe { outcome, .. } => {
            kinds.push(outcome.kind);
            InvocationEvent::Went
        }
        other => goes_well(other),
    });
    assert_eq!(
        steps,
        [
            "hook 1",
            "hook 2",
            "provide 0",
            "provide 1",
            "finalize 0",
            "observe 7",
            "observe 6",
            "observe 9",
            "observe 8",
            "done",
        ]
    );
    assert!(outcome.is_error());
    assert!(matches!(outcome, ExecutionOutcome::DomainError(_)));
    assert!(kinds.iter().all(|kind| *kind == HookOutcomeKind::DomainError));
}

#[test]
fn an_aborted_invocation_still_finalizes() {
    let (app, index) = hooked();
    let operation = app.operation_at(index).unwrap();
    let mut handled = false;
    let (steps, outcome) = run(operation, true, |action| match action {
        InvocationAction::Handle => {
            handled = true;
            InvocationEvent::Answered(success())
        }
        InvocationAction::Check if handled => InvocationEvent::Aborted(InvocationAbort::TimedOut),
        other => goes_well(other),
    });
    assert!(steps.contains(&"finalize 1".to_string()));
    assert!(steps.contains(&"finalize 0".to_string()));
    assert!(!steps.contains(&"hook 5".to_string()));
    let ExecutionOutcome::Rejected { status, code, .. } = outcome else {
        panic!("expected a rejection");
    };
    assert_eq!(status, 504);
    assert_eq!(code, "invocation_timeout");
}

#[test]
fn a_direct_handler_answers_without_being_awaited() {
    let app = ExecutableApp::new(vec![ExecutableOperation::typed_sync_with_dependencies(
        descriptor("health", "/health"),
        Vec::new(),
        3,
        4,
    )])
    .ok()
    .expect("a valid graph");
    let operation = app.operation_at(0).unwrap();
    let (steps, _) = run(operation, false, goes_well);
    assert_eq!(steps, ["direct 3", "done"]);
}

#[test]
fn an_unknown_operation_is_not_found() {
    let ExecutionOutcome::Rejected { status, code, .. } = operation_not_found::<Chunks, (), ()>()
    else {
        panic!("expected a rejection");
    };
    assert_eq!((status, code.as_str()), (404, "operation_not_found"));
    let cancelled = InvocationAbort::Cancelled.into_execution_outcome::<Chunks, (), ()>();
    assert!(matches!(
        cancelled,
        ExecutionOutcome::Rejected { status: 499, .. }
    ));
}

#[test]
fn request_values_are_kept_by_slot() {
    let session = DependencyValue::of(SESSION, "session");
    let mut values = RequestDependencyValues::new(2);
    assert!(values.set(1, session).is_ok());
    assert!(values.set(2, DependencyValue::of(SESSION, "none")).is_err());
    assert_eq!(values.finalized(1).ok(), Some(&session));
    assert!(values.finalized(0).is_err());
    assert_eq!(values.as_slice(), [None, Some(session)]);

    let singletons = [Some(DependencyValue::of(CONFIG, "config"))];
    let slots = [DependencySlot::Singleton(0), DependencySlot::Request(1), DependencySlot::Request(0)];
    let resolved = ResolvedDependencies {
        singletons: &singletons,
        requests: values.as_slice(),
        slots: &slots,
    };
    assert_eq!(resolved.get(0, CONFIG).ok(), Some(&"config"));
    assert_eq!(resolved.get_cloned(1, SESSION).ok(), Some("session"));
    assert_eq!(
        fault_of(resolved.get(1, CONFIG)),
        (
            "dependency_type_mismatch".to_string(),
            "compiled handler dependency slot contained an unexpected type".to_string()
        )
    );
    assert_eq!(fault_of(resolved.get(2, SESSION)).0, "invalid_dependency_slot");
    assert_eq!(fault_of(resolved.get(3, SESSION)).0, "invalid_dependency_argument");
}

fn fault_of<T>(value: Result<T, DependencyError>) -> (String, String) {
    match value {
        Err(DependencyError::Internal { code, message }) => (code.to_string(), message),
        _ => panic!("expected an internal failure"),
    }
}

#[test]
fn a_slot_is_resolved_in_its_own_table_and_as_its_own_type() {
    let singletons = [Some(DependencyValue::of(CONFIG, "config")), None];
    let requests = [Some(DependencyValue::of(SESSION, "session"))];
    let resolved = |slot, type_id| resolve(slot, &singletons, &requests, type_id);
    assert_eq!(resolved(DependencySlot::Singleton(0), CONFIG).ok(), Some(&"config"));
    assert_eq!(resolved(DependencySlot::Request(0), SESSION).ok(), Some(&"session"));
    assert_eq!(
        fault_of(resolved(DependencySlot::Singleton(0), SESSION)),
        (
            "dependency_type_mismatch".to_string(),
            "compiled dependency slot contained an unexpected type".to_string()
        )
    );
    for empty in [
        DependencySlot::Singleton(1),
        DependencySlot::Singleton(2),
        DependencySlot::Request(1),
    ] {
        assert_eq!(
            fault_of(resolved(empty, CONFIG)),
            (
                "invalid_dependency_slot".to_string(),
                "compiled dependency slot was not initialized".to_string()
            )
        );
    }
}

#[test]
fn a_finalizer_is_given_only_values_of_its_type() {
    let held = DependencyValue::of(SESSION, "session");
    assert_eq!(finalizer_value(&held, SESSION, false).ok(), Some(&"session"));
    assert_eq!(
        fault_of(finalizer_value(&held, STORE, false)),
        (
            "dependency_type_mismatch".to_string(),
            "compiled finalizer received an unexpected dependency type".to_string()
        )
    );
    assert_eq!(
        fault_of(finalizer_value(&held, STORE, true)).1,
        "compiled async finalizer received an unexpected dependency type"
    );
}

#[test]
fn singletons_are_built_in_order_up_to_the_first_failure() {
    let plugin = || {
        Plugin::new("app")
            .provide(Provider::value(config(), 10))
            .provide(Provider::singleton(store(), vec![config()], 11))
    };
    let assemble = || {
        ExecutableApp::assemble(plugin(), TestOverrides::new())
            .ok()
            .expect("a valid graph")
    };
    let assembly = assemble();
    let mut built = Vec::new();
    let mut run = assembly.singleton_run();
    while let Some(step) = run.next() {
        built.push(assembly.singletons()[step].provider.factory);
        run = run.ran(Ok(()));
    }
    assert_eq!(built, [10, 11]);
    let failed = run.failed();
    assert!(failed.is_none());
    assert!(assembly.complete(failed).is_ok());

    let assembly = assemble();
    let run = assembly
        .singleton_run()
        .ran(Err(DependencyError::internal("down", "not reachable")));
    assert_eq!(run.next(), None);
    let failed = run.failed();
    assert_eq!(failed.as_ref().map(|failed| failed.step), Some(0));
    let error = fault(assembly.complete(failed));
    assert_eq!(
        error.to_string(),
        "singleton provider `Config` in plugin `app` failed: not reachable"
    );
}
