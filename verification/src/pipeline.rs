//! One invocation of an operation: hooks, dependencies, handler, and the
//! cleanup that follows whatever happened.
use crate::dependency::{
    dependency_error_outcome, held_in, is_dependency_outcome, is_internal_error, slot_value,
    DependencyError, DependencySlot, DependencyValue,
};
use crate::executable::{no_hooks, ExecutableOperation, Handler, HooksView};
use crate::outcome::{is_failure, is_internal, summary, ExecutionOutcome, HookOutcome};
use vstd::prelude::*;
use vstd::string::*;

verus! {

// ---------------------------------------------------------------------------
// Values of one invocation
// ---------------------------------------------------------------------------

/// Request values in the slots of one invocation.
#[derive(Debug)]
pub struct RequestDependencyValues<V> {
    slots: Vec<Option<V>>,
}

impl<V> View for RequestDependencyValues<V> {
    type V = Seq<Option<V>>;

    closed spec fn view(&self) -> Seq<Option<V>> {
        self.slots@
    }
}

impl<V> RequestDependencyValues<V> {
    /// As many empty slots as an operation has request providers.
    #[must_use]
    pub fn new(len: usize) -> (values: Self)
        ensures
            values@ == Seq::new(len as nat, |i: int| None::<V>),
    {
        let mut slots: Vec<Option<V>> = Vec::new();
        let mut index: usize = 0;
        while index < len
            invariant
                index <= len,
                slots@.len() == index,
                forall|i: int| 0 <= i < index ==> #[trigger] slots@[i] == None::<V>,
            decreases len - index,
        {
            slots.push(None);
            index += 1;
        }
        assert(slots@ =~= Seq::new(len as nat, |i: int| None::<V>));
        RequestDependencyValues { slots }
    }

    #[must_use]
    pub fn as_slice(&self) -> (slots: &[Option<V>])
        ensures
            slots@ == self@,
    {
        self.slots.as_slice()
    }

    /// Fills a slot.
    pub fn set(&mut self, index: usize, value: V) -> (filled: Result<(), DependencyError>)
        ensures
            match filled {
                Ok(()) => index < old(self)@.len() && final(self)@ == old(self)@.update(
                    index as int,
                    Some(value),
                ),
                Err(error) => index >= old(self)@.len() && final(self)@ == old(self)@
                    && is_internal_error(
                    error,
                    "invalid_dependency_slot"@,
                    "compiled request provider produced an unknown slot"@,
                ),
            },
    {
        if index >= self.slots.len() {
            return Err(
                DependencyError::internal(
                    "invalid_dependency_slot",
                    "compiled request provider produced an unknown slot",
                ),
            );
        }
        self.slots.set(index, Some(value));
        Ok(())
    }

    /// The value that a finalizer takes.
    pub fn finalized(&self, index: usize) -> (value: Result<&V, DependencyError>)
        ensures
            match value {
                Ok(value) => index < self@.len() && self@[index as int] == Some(*value),
                Err(error) => (index < self@.len() ==> self@[index as int] is None)
                    && is_internal_error(
                    error,
                    "invalid_dependency_slot"@,
                    "compiled finalizer could not read its dependency slot"@,
                ),
            },
    {
        if index < self.slots.len() {
            if let Some(value) = &self.slots[index] {
                return Ok(value);
            }
        }
        Err(
            DependencyError::internal(
                "invalid_dependency_slot",
                "compiled finalizer could not read its dependency slot",
            ),
        )
    }
}

/// Slot-based dependency values visible to one operation handler.
#[derive(Clone, Copy, Debug)]
pub struct ResolvedDependencies<'values, V> {
    pub singletons: &'values [Option<DependencyValue<V>>],
    pub requests: &'values [Option<DependencyValue<V>>],
    pub slots: &'values [DependencySlot],
}

/// What a handler reads as one of its arguments, or the failure that it meets.
pub open spec fn handler_value<V>(
    dependencies: ResolvedDependencies<V>,
    index: usize,
    type_id: u64,
    value: Result<V, DependencyError>,
) -> bool {
    if index >= dependencies.slots@.len() {
        value matches Err(error) && is_internal_error(
            error,
            "invalid_dependency_argument"@,
            "handler requested an unknown compiled dependency argument"@,
        )
    } else {
        match slot_value(
            dependencies.slots@[index as int],
            dependencies.singletons@,
            dependencies.requests@,
        ) {
            Some(held) => if held.type_id == type_id {
                value == Ok::<V, DependencyError>(held.value)
            } else {
                value matches Err(error) && is_internal_error(
                    error,
                    "dependency_type_mismatch"@,
                    "compiled handler dependency slot contained an unexpected type"@,
                )
            },
            None => value matches Err(error) && is_internal_error(
                error,
                "invalid_dependency_slot"@,
                "compiled handler dependency slot was not initialized"@,
            ),
        }
    }
}

impl<'values, V> ResolvedDependencies<'values, V> {
    /// Reads a dependency of one type from the handler's compiled argument
    /// slot.
    pub fn get(&self, index: usize, type_id: u64) -> (value: Result<&'values V, DependencyError>)
        ensures
            handler_value(
                *self,
                index,
                type_id,
                match value {
                    Ok(value) => Ok(*value),
                    Err(error) => Err(error),
                },
            ),
    {
        if index >= self.slots.len() {
            return Err(
                DependencyError::internal(
                    "invalid_dependency_argument",
                    "handler requested an unknown compiled dependency argument",
                ),
            );
        }
        match held_in(self.slots[index], self.singletons, self.requests) {
            None => Err(
                DependencyError::internal(
                    "invalid_dependency_slot",
                    "compiled handler dependency slot was not initialized",
                ),
            ),
            Some(held) => {
                if held.type_id != type_id {
                    return Err(
                        DependencyError::internal(
                            "dependency_type_mismatch",
                            "compiled handler dependency slot contained an unexpected type",
                        ),
                    );
                }
                Ok(&held.value)
            },
        }
    }
}

impl<'values, V: Clone> ResolvedDependencies<'values, V> {
    /// Clones a dependency into a handler argument.
    pub fn get_cloned(&self, index: usize, type_id: u64) -> (value: Result<V, DependencyError>)
        ensures
            match value {
                Ok(copy) => index < self.slots@.len() && (slot_value(
                    self.slots@[index as int],
                    self.singletons@,
                    self.requests@,
                ) matches Some(held) && held.type_id == type_id && cloned::<V>(held.value, copy)),
                Err(_) => handler_value(*self, index, type_id, value),
            },
    {
        let held = self.get(index, type_id);
        match held {
            Ok(value) => {
                let copy: V = value.clone();
                assert(cloned::<V>(*value, copy));
                Ok(copy)
            },
            Err(error) => Err(error),
        }
    }
}

// ---------------------------------------------------------------------------
// Ends of an invocation
// ---------------------------------------------------------------------------

/// Reason a controlled invocation stopped before completion.
#[derive(Clone, Copy, Debug, PartialEq, Eq, Structural)]
pub enum InvocationAbort {
    Cancelled,
    TimedOut,
}

/// A rejection without details.
pub open spec fn is_rejection<S, H, F>(
    outcome: ExecutionOutcome<S, H, F>,
    status: u16,
    code: Seq<char>,
    message: Seq<char>,
) -> bool {
    outcome matches ExecutionOutcome::Rejected { status: own, code: named, message: said, details }
        && own == status && named@ == code && said@ == message && details is None
}

/// What an aborted invocation comes to.
pub open spec fn is_abort<S, H, F>(
    outcome: ExecutionOutcome<S, H, F>,
    abort: InvocationAbort,
) -> bool {
    match abort {
        InvocationAbort::Cancelled => is_rejection(
            outcome,
            499,
            "invocation_cancelled"@,
            "operation invocation was cancelled"@,
        ),
        InvocationAbort::TimedOut => is_rejection(
            outcome,
            504,
            "invocation_timeout"@,
            "operation invocation exceeded its time limit"@,
        ),
    }
}

impl InvocationAbort {
    /// What the invocation comes to.
    #[must_use]
    pub fn into_execution_outcome<S, H, F>(self) -> (outcome: ExecutionOutcome<S, H, F>)
        ensures
            is_abort(outcome, self),
    {
        match self {
            InvocationAbort::Cancelled => ExecutionOutcome::Rejected {
                status: 499,
                code: "invocation_cancelled".to_owned(),
                message: "operation invocation was cancelled".to_owned(),
                details: None,
            },
            InvocationAbort::TimedOut => ExecutionOutcome::Rejected {
                status: 504,
                code: "invocation_timeout".to_owned(),
                message: "operation invocation exceeded its time limit".to_owned(),
                details: None,
            },
        }
    }
}

/// The answer to an invocation of an operation that does not exist.
#[must_use]
pub fn operation_not_found<S, H, F>() -> (outcome: ExecutionOutcome<S, H, F>)
    ensures
        is_rejection(outcome, 404, "operation_not_found"@, "operation not found"@),
{
    ExecutionOutcome::Rejected {
        status: 404,
        code: "operation_not_found".to_owned(),
        message: "operation not found".to_owned(),
        details: None,
    }
}

/// Why an invocation has the outcome it has.
#[derive(Debug)]
pub enum Settlement<S, H, F> {
    Outcome(ExecutionOutcome<S, H, F>),
    Failed(DependencyError),
    Aborted(InvocationAbort),
    /// The operation was never compiled.
    Uncompiled,
}

/// An outcome is what a settlement comes to.
pub open spec fn settles<S, H, F>(
    outcome: ExecutionOutcome<S, H, F>,
    settlement: Settlement<S, H, F>,
) -> bool {
    match settlement {
        Settlement::Outcome(given) => outcome == given,
        Settlement::Failed(error) => is_dependency_outcome(outcome, error),
        Settlement::Aborted(abort) => is_abort(outcome, abort),
        Settlement::Uncompiled => is_internal(
            outcome,
            "uncompiled_dependency_plan"@,
            "operation dependency plan was not compiled"@,
        ),
    }
}

impl<S, H, F> Settlement<S, H, F> {
    fn into_outcome(self) -> (outcome: ExecutionOutcome<S, H, F>)
        ensures
            settles(outcome, self),
    {
        match self {
            Settlement::Outcome(outcome) => outcome,
            Settlement::Failed(error) => dependency_error_outcome(error),
            Settlement::Aborted(abort) => abort.into_execution_outcome(),
            Settlement::Uncompiled => ExecutionOutcome::InternalError {
                code: "uncompiled_dependency_plan".to_owned(),
                message: "operation dependency plan was not compiled".to_owned(),
            },
        }
    }
}

// ---------------------------------------------------------------------------
// Phases
// ---------------------------------------------------------------------------

/// A point of an invocation at which fallible hooks run.
#[derive(Clone, Copy, Debug, PartialEq, Eq, Structural)]
pub enum Stage {
    OnRequest,
    PreParse,
    PreValidate,
    PreHandler,
    PreSerialize,
}

/// Where an invocation stands. Numbers are those of the hook or the value that
/// is due; where things run in reverse, the number of those that are left.
#[derive(Clone, Copy, Debug, PartialEq, Eq, Structural)]
pub enum InvocationPhase {
    /// A controlled invocation asks its signals before every stage.
    Check(Stage),
    Hook(Stage, usize),
    Provide(usize),
    /// The handler answers at once.
    Direct,
    /// The handler reads its inputs.
    Prepare,
    Handle,
    Finalize(usize),
    OnError(usize),
    OnResponse(usize),
    Done,
}

/// An invocation on its way. Its signals are asked only where it is controlled.
#[derive(Debug)]
pub struct Invocation<S, H, F> {
    pub phase: InvocationPhase,
    pub controlled: bool,
    pub settled: Option<Settlement<S, H, F>>,
}

/// What happened at the phase that was due.
#[derive(Debug)]
pub enum InvocationEvent<S, H, F> {
    Went,
    Answered(ExecutionOutcome<S, H, F>),
    Failed(DependencyError),
    Aborted(InvocationAbort),
}

/// What an invocation depends on: the hooks, how many request values the
/// operation needs where it was compiled, and whether its handler can answer at
/// once.
pub struct PlanView {
    pub hooks: HooksView,
    pub providers: Option<int>,
    pub direct: bool,
}

/// The plan of an operation.
pub open spec fn plan_of(operation: ExecutableOperation) -> PlanView {
    PlanView {
        hooks: operation.hooks.scope@,
        providers: match operation.dependency_plan {
            Some(plan) => Some(plan.request_providers@.len() as int),
            None => None,
        },
        direct: operation.handler is Sync,
    }
}

/// The hooks of a stage, in the order in which they run.
pub open spec fn stage_hooks(hooks: HooksView, stage: Stage) -> Seq<usize> {
    match stage {
        Stage::OnRequest => hooks.on_request,
        Stage::PreParse => hooks.pre_parse,
        Stage::PreValidate => hooks.pre_validate,
        Stage::PreHandler => hooks.pre_handler,
        Stage::PreSerialize => hooks.pre_serialize,
    }
}

/// Where an invocation goes: to a phase, or out of the pipeline.
#[derive(Clone, Copy, Debug, PartialEq, Eq, Structural)]
pub enum Onward {
    At(InvocationPhase),
    Leave,
}

/// How many stages follow one.
pub open spec fn stages_after(stage: Stage) -> int {
    match stage {
        Stage::OnRequest => 4,
        Stage::PreParse => 3,
        Stage::PreValidate => 2,
        Stage::PreHandler => 1,
        Stage::PreSerialize => 0,
    }
}

/// The start of a stage.
pub open spec fn entered(plan: PlanView, controlled: bool, stage: Stage) -> Onward
    decreases stages_after(stage), 2int,
{
    if controlled {
        Onward::At(InvocationPhase::Check(stage))
    } else {
        through(plan, controlled, stage, 0)
    }
}

/// A hook of a stage, or what follows the stage once none is left.
pub open spec fn through(plan: PlanView, controlled: bool, stage: Stage, at: usize) -> Onward
    decreases stages_after(stage), 1int,
{
    if at < stage_hooks(plan.hooks, stage).len() {
        Onward::At(InvocationPhase::Hook(stage, at))
    } else {
        after_stage(plan, controlled, stage)
    }
}

/// What follows a stage.
pub open spec fn after_stage(plan: PlanView, controlled: bool, stage: Stage) -> Onward
    decreases stages_after(stage), 0int,
{
    match stage {
        Stage::OnRequest => match plan.providers {
            None => Onward::Leave,
            Some(_) => providing(plan, controlled, 0),
        },
        Stage::PreParse => entered(plan, controlled, Stage::PreValidate),
        Stage::PreValidate => Onward::At(InvocationPhase::Prepare),
        Stage::PreHandler => Onward::At(InvocationPhase::Handle),
        Stage::PreSerialize => finalizing(value_count(plan) as usize),
    }
}

/// A request value, or what follows once all are there. Without hooks, a
/// handler that can answer at once does, unless the invocation is controlled.
pub open spec fn providing(plan: PlanView, controlled: bool, at: usize) -> Onward
    decreases stages_after(Stage::PreParse), 3int,
{
    if at < value_count(plan) {
        Onward::At(InvocationPhase::Provide(at))
    } else if !controlled && plan.hooks == no_hooks() && plan.direct {
        Onward::At(InvocationPhase::Direct)
    } else {
        entered(plan, controlled, Stage::PreParse)
    }
}

/// The number of request values that an operation needs.
pub open spec fn value_count(plan: PlanView) -> int {
    match plan.providers {
        Some(count) => count,
        None => 0,
    }
}

/// The cleanup of so many values.
pub open spec fn finalizing(left: usize) -> Onward {
    if left == 0 {
        Onward::Leave
    } else {
        Onward::At(InvocationPhase::Finalize(left))
    }
}

/// What follows the pipeline: failures are shown to the error hooks, and every
/// outcome to the response hooks.
pub open spec fn leaving<S, H, F>(
    hooks: HooksView,
    outcome: ExecutionOutcome<S, H, F>,
) -> InvocationPhase {
    if is_failure(outcome) && hooks.on_error.len() > 0 {
        InvocationPhase::OnError(hooks.on_error.len() as usize)
    } else {
        observing(hooks)
    }
}

/// The response hooks, or the end.
pub open spec fn observing(hooks: HooksView) -> InvocationPhase {
    if hooks.on_response.len() > 0 {
        InvocationPhase::OnResponse(hooks.on_response.len() as usize)
    } else {
        InvocationPhase::Done
    }
}

/// The values that stand in their slots at a phase: built, and not finalized
/// yet.
pub open spec fn alive(plan: PlanView, phase: InvocationPhase) -> int {
    match phase {
        InvocationPhase::Check(Stage::OnRequest) => 0,
        InvocationPhase::Hook(Stage::OnRequest, _) => 0,
        InvocationPhase::Provide(at) => at as int,
        InvocationPhase::Finalize(left) => left as int,
        InvocationPhase::OnError(_) => 0,
        InvocationPhase::OnResponse(_) => 0,
        InvocationPhase::Done => 0,
        _ => value_count(plan),
    }
}

/// Whether an event can happen at a phase. What cleans up is shielded: no
/// signal ends it.
pub open spec fn can_happen<S, H, F>(
    invocation: Invocation<S, H, F>,
    event: InvocationEvent<S, H, F>,
) -> bool {
    match invocation.phase {
        InvocationPhase::Check(_) => event is Went || event is Aborted,
        InvocationPhase::Hook(_, _) => event is Went || event is Failed || (event is Aborted
            && invocation.controlled),
        InvocationPhase::Provide(_) => event is Went || event is Failed || (event is Aborted
            && invocation.controlled),
        InvocationPhase::Direct => event is Answered,
        InvocationPhase::Prepare => event is Went || event is Answered,
        InvocationPhase::Handle => event is Answered || (event is Aborted
            && invocation.controlled),
        InvocationPhase::Finalize(_) => event is Went || event is Failed,
        InvocationPhase::OnError(_) => event is Went,
        InvocationPhase::OnResponse(_) => event is Went,
        InvocationPhase::Done => false,
    }
}

/// As many hooks and values as a machine can count.
pub open spec fn fits_machine(plan: PlanView) -> bool {
    &&& 0 <= value_count(plan) <= usize::MAX
    &&& plan.hooks.on_request.len() <= usize::MAX
    &&& plan.hooks.pre_parse.len() <= usize::MAX
    &&& plan.hooks.pre_validate.len() <= usize::MAX
    &&& plan.hooks.pre_handler.len() <= usize::MAX
    &&& plan.hooks.pre_serialize.len() <= usize::MAX
    &&& plan.hooks.on_error.len() <= usize::MAX
    &&& plan.hooks.on_response.len() <= usize::MAX
}

/// A phase that an invocation of a plan can be at.
pub open spec fn well_placed<S, H, F>(plan: PlanView, invocation: Invocation<S, H, F>) -> bool {
    let count = value_count(plan);
    let pending = invocation.settled is None;
    let done = invocation.settled matches Some(Settlement::Outcome(_));
    &&& fits_machine(plan)
    &&& match invocation.phase {
        InvocationPhase::Check(stage) => {
            &&& invocation.controlled
            &&& stage == Stage::OnRequest || plan.providers is Some
            &&& (if stage == Stage::PreSerialize {
                invocation.settled is Some
            } else {
                pending
            })
        },
        InvocationPhase::Hook(stage, at) => {
            &&& at < stage_hooks(plan.hooks, stage).len()
            &&& stage == Stage::OnRequest || plan.providers is Some
            &&& (if stage == Stage::PreSerialize {
                invocation.settled is Some
            } else {
                pending
            })
        },
        InvocationPhase::Provide(at) => plan.providers is Some && at < count && pending,
        InvocationPhase::Direct => plan.providers is Some && pending && !invocation.controlled
            && plan.direct,
        InvocationPhase::Prepare => plan.providers is Some && pending,
        InvocationPhase::Handle => plan.providers is Some && pending,
        InvocationPhase::Finalize(left) => plan.providers is Some && 0 < left <= count
            && invocation.settled is Some,
        InvocationPhase::OnError(left) => 0 < left <= plan.hooks.on_error.len() && done,
        InvocationPhase::OnResponse(left) => 0 < left <= plan.hooks.on_response.len() && done,
        InvocationPhase::Done => done,
    }
}

/// Where an event takes an invocation that is still in the pipeline, and what
/// settles it from then on.
pub open spec fn onward<S, H, F>(
    plan: PlanView,
    invocation: Invocation<S, H, F>,
    event: InvocationEvent<S, H, F>,
) -> (Onward, Option<Settlement<S, H, F>>) {
    let controlled = invocation.controlled;
    let settled = invocation.settled;
    let values = alive(plan, invocation.phase) as usize;
    match (invocation.phase, event) {
        (InvocationPhase::Finalize(_), InvocationEvent::Failed(error)) => (
            Onward::Leave,
            Some(Settlement::Failed(error)),
        ),
        (InvocationPhase::Finalize(left), _) => (finalizing((left - 1) as usize), settled),
        (InvocationPhase::Handle, InvocationEvent::Answered(outcome)) => (
            entered(plan, controlled, Stage::PreSerialize),
            Some(Settlement::Outcome(outcome)),
        ),
        (_, InvocationEvent::Answered(outcome)) => (
            finalizing(values),
            Some(Settlement::Outcome(outcome)),
        ),
        (_, InvocationEvent::Failed(error)) => (
            finalizing(values),
            Some(Settlement::Failed(error)),
        ),
        (_, InvocationEvent::Aborted(abort)) => (
            finalizing(values),
            Some(Settlement::Aborted(abort)),
        ),
        (InvocationPhase::Check(stage), _) => (through(plan, controlled, stage, 0), settled),
        (InvocationPhase::Hook(stage, at), _) => (
            through(plan, controlled, stage, (at + 1) as usize),
            settled,
        ),
        (InvocationPhase::Provide(at), _) => (
            providing(plan, controlled, (at + 1) as usize),
            settled,
        ),
        _ => (entered(plan, controlled, Stage::PreHandler), settled),
    }
}

/// An invocation arrived where it goes. One that leaves the pipeline without
/// anything that settles it was never compiled.
pub open spec fn arrives<S, H, F>(
    plan: PlanView,
    controlled: bool,
    goal: (Onward, Option<Settlement<S, H, F>>),
    after: Invocation<S, H, F>,
) -> bool {
    &&& after.controlled == controlled
    &&& match goal.0 {
        Onward::At(phase) => after.phase == phase && after.settled == goal.1,
        Onward::Leave => after.settled matches Some(Settlement::Outcome(outcome)) && settles(
            outcome,
            match goal.1 {
                Some(settlement) => settlement,
                None => Settlement::Uncompiled,
            },
        ) && after.phase == leaving(plan.hooks, outcome),
    }
}

/// What an event makes of an invocation.
pub open spec fn advances<S, H, F>(
    plan: PlanView,
    before: Invocation<S, H, F>,
    event: InvocationEvent<S, H, F>,
    after: Invocation<S, H, F>,
) -> bool {
    match before.phase {
        InvocationPhase::OnError(left) => after == (Invocation {
            phase: if left > 1 {
                InvocationPhase::OnError((left - 1) as usize)
            } else {
                observing(plan.hooks)
            },
            ..before
        }),
        InvocationPhase::OnResponse(left) => after == (Invocation {
            phase: if left > 1 {
                InvocationPhase::OnResponse((left - 1) as usize)
            } else {
                InvocationPhase::Done
            },
            ..before
        }),
        _ => arrives(plan, before.controlled, onward(plan, before, event), after),
    }
}

/// What to do at a phase.
#[derive(Clone, Copy, Debug, PartialEq, Eq)]
pub enum InvocationAction {
    /// Ask the signals.
    Check,
    RunHook { hook: usize },
    /// Build a request value.
    Provide { index: usize },
    /// Let a handler answer at once.
    AnswerDirectly { handler: usize },
    /// Let a handler read its inputs.
    Prepare { handler: usize },
    /// Await the handler.
    Handle,
    /// Finalize a request value.
    Finalize { index: usize },
    /// Show the outcome to a hook.
    Observe { hook: usize, outcome: HookOutcome },
    /// Hand out the outcome.
    Done,
}

/// The outcome of an invocation that left the pipeline.
pub open spec fn outcome_of<S, H, F>(invocation: Invocation<S, H, F>) -> ExecutionOutcome<S, H, F> {
    invocation.settled->Some_0->Outcome_0
}

/// What is due at a phase. Error and response hooks, like finalizers, run in
/// reverse.
pub open spec fn action_due<S, H, F>(
    operation: ExecutableOperation,
    invocation: Invocation<S, H, F>,
) -> InvocationAction {
    let hooks = operation.hooks.scope@;
    match invocation.phase {
        InvocationPhase::Check(_) => InvocationAction::Check,
        InvocationPhase::Hook(stage, at) => InvocationAction::RunHook {
            hook: stage_hooks(hooks, stage)[at as int],
        },
        InvocationPhase::Provide(index) => InvocationAction::Provide { index },
        InvocationPhase::Direct => InvocationAction::AnswerDirectly {
            handler: operation.handler->direct,
        },
        InvocationPhase::Prepare => InvocationAction::Prepare {
            handler: match operation.handler {
                Handler::Async(handler) => handler,
                Handler::Sync { fallback, .. } => fallback,
            },
        },
        InvocationPhase::Handle => InvocationAction::Handle,
        InvocationPhase::Finalize(left) => InvocationAction::Finalize {
            index: (left - 1) as usize,
        },
        InvocationPhase::OnError(left) => InvocationAction::Observe {
            hook: hooks.on_error[left - 1],
            outcome: summary(outcome_of(invocation)),
        },
        InvocationPhase::OnResponse(left) => InvocationAction::Observe {
            hook: hooks.on_response[left - 1],
            outcome: summary(outcome_of(invocation)),
        },
        InvocationPhase::Done => InvocationAction::Done,
    }
}

// ---------------------------------------------------------------------------
// Running
// ---------------------------------------------------------------------------

impl ExecutableOperation {
    fn hooks_of(&self, stage: Stage) -> (hooks: &Vec<usize>)
        ensures
            hooks@ == stage_hooks(plan_of(*self).hooks, stage),
    {
        match stage {
            Stage::OnRequest => &self.hooks.scope.on_request,
            Stage::PreParse => &self.hooks.scope.pre_parse,
            Stage::PreValidate => &self.hooks.scope.pre_validate,
            Stage::PreHandler => &self.hooks.scope.pre_handler,
            Stage::PreSerialize => &self.hooks.scope.pre_serialize,
        }
    }

    fn provider_count(&self) -> (count: usize)
        ensures
            count == value_count(plan_of(*self)),
    {
        match &self.dependency_plan {
            Some(plan) => plan.request_providers.len(),
            None => 0,
        }
    }

    fn entered_stage(&self, controlled: bool, stage: Stage) -> (goal: Onward)
        ensures
            goal == entered(plan_of(*self), controlled, stage),
        decreases stages_after(stage), 2int,
    {
        if controlled {
            Onward::At(InvocationPhase::Check(stage))
        } else {
            self.through_stage(controlled, stage, 0)
        }
    }

    fn through_stage(&self, controlled: bool, stage: Stage, at: usize) -> (goal: Onward)
        ensures
            goal == through(plan_of(*self), controlled, stage, at),
        decreases stages_after(stage), 1int,
    {
        if at < self.hooks_of(stage).len() {
            return Onward::At(InvocationPhase::Hook(stage, at));
        }
        match stage {
            Stage::OnRequest => match &self.dependency_plan {
                None => Onward::Leave,
                Some(_) => self.providing_values(controlled, 0),
            },
            Stage::PreParse => self.entered_stage(controlled, Stage::PreValidate),
            Stage::PreValidate => Onward::At(InvocationPhase::Prepare),
            Stage::PreHandler => Onward::At(InvocationPhase::Handle),
            Stage::PreSerialize => finalizing_values(self.provider_count()),
        }
    }

    fn providing_values(&self, controlled: bool, at: usize) -> (goal: Onward)
        ensures
            goal == providing(plan_of(*self), controlled, at),
        decreases stages_after(Stage::PreParse), 3int,
    {
        if at < self.provider_count() {
            return Onward::At(InvocationPhase::Provide(at));
        }
        if !controlled && self.hooks.scope.is_empty() {
            if let Handler::Sync { .. } = &self.handler {
                return Onward::At(InvocationPhase::Direct);
            }
        }
        self.entered_stage(controlled, Stage::PreParse)
    }

    fn observing_hooks(&self) -> (phase: InvocationPhase)
        ensures
            phase == observing(plan_of(*self).hooks),
    {
        let count: usize = self.hooks.scope.on_response.len();
        if count > 0 {
            InvocationPhase::OnResponse(count)
        } else {
            InvocationPhase::Done
        }
    }

    fn arrive<S, H, F>(
        &self,
        controlled: bool,
        goal: Onward,
        settled: Option<Settlement<S, H, F>>,
    ) -> (invocation: Invocation<S, H, F>)
        ensures
            arrives(plan_of(*self), controlled, (goal, settled), invocation),
    {
        match goal {
            Onward::At(phase) => Invocation { phase, controlled, settled },
            Onward::Leave => {
                let outcome = match settled {
                    Some(settlement) => settlement.into_outcome(),
                    None => Settlement::Uncompiled.into_outcome(),
                };
                let count: usize = self.hooks.scope.on_error.len();
                let phase = if outcome.is_error() && count > 0 {
                    InvocationPhase::OnError(count)
                } else {
                    self.observing_hooks()
                };
                Invocation { phase, controlled, settled: Some(Settlement::Outcome(outcome)) }
            },
        }
    }

    /// Begins an invocation, with or without signals that can end it early.
    #[must_use]
    pub fn begin<S, H, F>(&self, controlled: bool) -> (invocation: Invocation<S, H, F>)
        ensures
            arrives(
                plan_of(*self),
                controlled,
                (entered(plan_of(*self), controlled, Stage::OnRequest), None),
                invocation,
            ),
            well_placed(plan_of(*self), invocation),
    {
        let invocation = self.arrive(
            controlled,
            self.entered_stage(controlled, Stage::OnRequest),
            None,
        );
        proof {
            self.lemma_fits();
            lemma_begins_well_placed(plan_of(*self), controlled, invocation);
        }
        invocation
    }

    /// Takes an invocation on by what happened.
    #[must_use]
    pub fn advance<S, H, F>(
        &self,
        invocation: Invocation<S, H, F>,
        event: InvocationEvent<S, H, F>,
    ) -> (next: Invocation<S, H, F>)
        requires
            well_placed(plan_of(*self), invocation),
            can_happen(invocation, event),
        ensures
            advances(plan_of(*self), invocation, event, next),
            well_placed(plan_of(*self), next),
    {
        let ghost plan = plan_of(*self);
        let ghost before = invocation;
        let ghost happened = event;
        proof {
            lemma_advances_well_placed(plan, before, happened);
        }
        let Invocation { phase, controlled, settled } = invocation;
        match phase {
            InvocationPhase::OnError(left) => {
                let phase = if left > 1 {
                    InvocationPhase::OnError(left - 1)
                } else {
                    self.observing_hooks()
                };
                return Invocation { phase, controlled, settled };
            },
            InvocationPhase::OnResponse(left) => {
                let phase = if left > 1 {
                    InvocationPhase::OnResponse(left - 1)
                } else {
                    InvocationPhase::Done
                };
                return Invocation { phase, controlled, settled };
            },
            _ => {},
        }
        let values: usize = match phase {
            InvocationPhase::Check(Stage::OnRequest) => 0,
            InvocationPhase::Hook(Stage::OnRequest, _) => 0,
            InvocationPhase::Provide(at) => at,
            InvocationPhase::Finalize(left) => left,
            _ => self.provider_count(),
        };
        let (goal, settled) = match event {
            InvocationEvent::Answered(outcome) => {
                let goal = match phase {
                    InvocationPhase::Handle => self.entered_stage(controlled, Stage::PreSerialize),
                    _ => finalizing_values(values),
                };
                (goal, Some(Settlement::Outcome(outcome)))
            },
            InvocationEvent::Failed(error) => {
                let goal = match phase {
                    InvocationPhase::Finalize(_) => Onward::Leave,
                    _ => finalizing_values(values),
                };
                (goal, Some(Settlement::Failed(error)))
            },
            InvocationEvent::Aborted(abort) => (
                finalizing_values(values),
                Some(Settlement::Aborted(abort)),
            ),
            InvocationEvent::Went => {
                let goal = match phase {
                    InvocationPhase::Check(stage) => self.through_stage(controlled, stage, 0),
                    InvocationPhase::Hook(stage, at) => {
                        let count: usize = self.hooks_of(stage).len();
                        assert(at < count);
                        self.through_stage(controlled, stage, at + 1)
                    },
                    InvocationPhase::Provide(at) => self.providing_values(controlled, at + 1),
                    InvocationPhase::Finalize(left) => finalizing_values(left - 1),
                    _ => self.entered_stage(controlled, Stage::PreHandler),
                };
                (goal, settled)
            },
        };
        assert((goal, settled) == onward(plan, before, happened));
        let next = self.arrive(controlled, goal, settled);
        assert(advances(plan, before, happened, next));
        next
    }

    /// What is to be done next.
    #[must_use]
    pub fn action<S, H, F>(&self, invocation: &Invocation<S, H, F>) -> (action: InvocationAction)
        requires
            well_placed(plan_of(*self), *invocation),
        ensures
            action == action_due(*self, *invocation),
    {
        match invocation.phase {
            InvocationPhase::Check(_) => InvocationAction::Check,
            InvocationPhase::Hook(stage, at) => InvocationAction::RunHook {
                hook: self.hooks_of(stage)[at],
            },
            InvocationPhase::Provide(index) => InvocationAction::Provide { index },
            InvocationPhase::Direct => match self.handler {
                Handler::Sync { direct, .. } => InvocationAction::AnswerDirectly {
                    handler: direct,
                },
                Handler::Async(_) => vstd::pervasive::unreached(),
            },
            InvocationPhase::Prepare => InvocationAction::Prepare {
                handler: match self.handler {
                    Handler::Async(handler) => handler,
                    Handler::Sync { fallback, .. } => fallback,
                },
            },
            InvocationPhase::Handle => InvocationAction::Handle,
            InvocationPhase::Finalize(left) => InvocationAction::Finalize { index: left - 1 },
            InvocationPhase::OnError(left) => InvocationAction::Observe {
                hook: self.hooks.scope.on_error[left - 1],
                outcome: shown(invocation),
            },
            InvocationPhase::OnResponse(left) => InvocationAction::Observe {
                hook: self.hooks.scope.on_response[left - 1],
                outcome: shown(invocation),
            },
            InvocationPhase::Done => InvocationAction::Done,
        }
    }

    proof fn lemma_fits(self)
        ensures
            fits_machine(plan_of(self)),
    {
        let requests: usize = self.hooks.scope.on_request.len();
        let parses: usize = self.hooks.scope.pre_parse.len();
        let validations: usize = self.hooks.scope.pre_validate.len();
        let handlings: usize = self.hooks.scope.pre_handler.len();
        let serializations: usize = self.hooks.scope.pre_serialize.len();
        let errors: usize = self.hooks.scope.on_error.len();
        let responses: usize = self.hooks.scope.on_response.len();
        if let Some(plan) = self.dependency_plan {
            let count: usize = plan.request_providers.len();
        }
    }
}

fn finalizing_values(left: usize) -> (goal: Onward)
    ensures
        goal == finalizing(left),
{
    if left == 0 {
        Onward::Leave
    } else {
        Onward::At(InvocationPhase::Finalize(left))
    }
}

fn shown<S, H, F>(invocation: &Invocation<S, H, F>) -> (outcome: HookOutcome)
    requires
        invocation.settled matches Some(Settlement::Outcome(_)),
    ensures
        outcome == summary(outcome_of(*invocation)),
{
    match &invocation.settled {
        Some(Settlement::Outcome(outcome)) => HookOutcome::of(outcome),
        _ => vstd::pervasive::unreached(),
    }
}

impl<S, H, F> Invocation<S, H, F> {
    /// The outcome of an invocation that is over.
    #[must_use]
    pub fn into_outcome(self) -> (outcome: ExecutionOutcome<S, H, F>)
        requires
            self.settled matches Some(Settlement::Outcome(_)),
        ensures
            outcome == outcome_of(self),
    {
        match self.settled {
            Some(Settlement::Outcome(outcome)) => outcome,
            _ => vstd::pervasive::unreached(),
        }
    }
}

// ---------------------------------------------------------------------------
// What holds of every invocation
// ---------------------------------------------------------------------------

/// Where reading the inputs begins.
proof fn lemma_parse_entry(plan: PlanView, controlled: bool)
    ensures
        match entered(plan, controlled, Stage::PreParse) {
            Onward::At(InvocationPhase::Check(stage)) => controlled && stage == Stage::PreParse,
            Onward::At(InvocationPhase::Hook(stage, at)) => !controlled && at == 0 && (stage
                == Stage::PreParse || stage == Stage::PreValidate) && stage_hooks(
                plan.hooks,
                stage,
            ).len() > 0,
            Onward::At(phase) => !controlled && phase == InvocationPhase::Prepare,
            Onward::Leave => false,
        },
{
    reveal_with_fuel(entered, 12);
    reveal_with_fuel(through, 12);
    reveal_with_fuel(after_stage, 12);
}

proof fn lemma_begins_well_placed<S, H, F>(
    plan: PlanView,
    controlled: bool,
    after: Invocation<S, H, F>,
)
    requires
        fits_machine(plan),
        arrives(plan, controlled, (entered(plan, controlled, Stage::OnRequest), None), after),
    ensures
        well_placed(plan, after),
{
    lemma_parse_entry(plan, controlled);
    reveal_with_fuel(entered, 12);
    reveal_with_fuel(through, 12);
    reveal_with_fuel(after_stage, 12);
    reveal_with_fuel(providing, 12);
}

proof fn lemma_advances_well_placed<S, H, F>(
    plan: PlanView,
    before: Invocation<S, H, F>,
    event: InvocationEvent<S, H, F>,
)
    requires
        well_placed(plan, before),
        can_happen(before, event),
    ensures
        forall|after: Invocation<S, H, F>|
            #[trigger] advances(plan, before, event, after) ==> well_placed(plan, after),
{
    reveal_with_fuel(entered, 12);
    reveal_with_fuel(through, 12);
    reveal_with_fuel(after_stage, 12);
    reveal_with_fuel(providing, 12);
}

/// The most steps that can follow a phase.
pub open spec fn steps_left(plan: PlanView, phase: InvocationPhase) -> int {
    let shown = plan.hooks.on_error.len() + plan.hooks.on_response.len();
    let cleaned = value_count(plan) + shown;
    let serialized = 1 + plan.hooks.pre_serialize.len() + cleaned;
    let handled = 1 + serialized;
    let readied = 1 + plan.hooks.pre_handler.len() + handled;
    let prepared = 1 + readied;
    let validated = 1 + plan.hooks.pre_validate.len() + prepared;
    let parsed = 1 + plan.hooks.pre_parse.len() + validated;
    let requested = value_count(plan) + parsed;
    match phase {
        InvocationPhase::Check(stage) => match stage {
            Stage::OnRequest => 1 + plan.hooks.on_request.len() + requested,
            Stage::PreParse => parsed,
            Stage::PreValidate => validated,
            Stage::PreHandler => readied,
            Stage::PreSerialize => serialized,
        },
        InvocationPhase::Hook(stage, at) => match stage {
            Stage::OnRequest => plan.hooks.on_request.len() - at + requested,
            Stage::PreParse => plan.hooks.pre_parse.len() - at + validated,
            Stage::PreValidate => plan.hooks.pre_validate.len() - at + prepared,
            Stage::PreHandler => plan.hooks.pre_handler.len() - at + handled,
            Stage::PreSerialize => plan.hooks.pre_serialize.len() - at + cleaned,
        },
        InvocationPhase::Provide(at) => value_count(plan) - at + parsed,
        InvocationPhase::Direct => 1 + cleaned,
        InvocationPhase::Prepare => prepared,
        InvocationPhase::Handle => handled,
        InvocationPhase::Finalize(left) => left + shown,
        InvocationPhase::OnError(left) => left + plan.hooks.on_response.len(),
        InvocationPhase::OnResponse(left) => left as int,
        InvocationPhase::Done => 0,
    }
}

/// The most steps that can follow a goal.
spec fn steps_beyond(plan: PlanView, goal: Onward) -> int {
    match goal {
        Onward::At(phase) => steps_left(plan, phase),
        Onward::Leave => plan.hooks.on_error.len() as int + plan.hooks.on_response.len(),
    }
}

proof fn lemma_steps_after(plan: PlanView, controlled: bool, stage: Stage)
    requires
        fits_machine(plan),
    ensures
        0 <= steps_beyond(plan, after_stage(plan, controlled, stage)) <= steps_left(
            plan,
            InvocationPhase::Hook(stage, stage_hooks(plan.hooks, stage).len() as usize),
        ),
{
    reveal_with_fuel(entered, 12);
    reveal_with_fuel(through, 12);
    reveal_with_fuel(after_stage, 12);
    reveal_with_fuel(providing, 12);
}

proof fn lemma_steps_through(plan: PlanView, controlled: bool, stage: Stage, at: usize)
    requires
        fits_machine(plan),
        at <= stage_hooks(plan.hooks, stage).len(),
    ensures
        0 <= steps_beyond(plan, through(plan, controlled, stage, at)) <= steps_left(
            plan,
            InvocationPhase::Hook(stage, at),
        ),
{
    lemma_steps_after(plan, controlled, stage);
}

/// Every invocation ends: each step leaves fewer to come, and only one that is
/// over has none left.
pub proof fn law_invocations_end<S, H, F>(
    plan: PlanView,
    before: Invocation<S, H, F>,
    event: InvocationEvent<S, H, F>,
    after: Invocation<S, H, F>,
)
    requires
        well_placed(plan, before),
        can_happen(before, event),
        advances(plan, before, event, after),
    ensures
        0 <= steps_left(plan, after.phase) < steps_left(plan, before.phase),
        steps_left(plan, before.phase) == 0 <==> before.phase is Done,
{
    let controlled = before.controlled;
    lemma_advances_well_placed(plan, before, event);
    match before.phase {
        InvocationPhase::Check(stage) => {
            lemma_steps_through(plan, controlled, stage, 0);
        },
        InvocationPhase::Hook(stage, at) => {
            lemma_steps_through(plan, controlled, stage, (at + 1) as usize);
        },
        InvocationPhase::Provide(at) => {
            lemma_steps_through(plan, controlled, Stage::PreParse, 0);
        },
        InvocationPhase::Prepare => {
            lemma_steps_through(plan, controlled, Stage::PreHandler, 0);
        },
        InvocationPhase::Handle => {
            lemma_steps_through(plan, controlled, Stage::PreSerialize, 0);
        },
        _ => {},
    }
}

/// Request values are built in order and finalized in reverse. No invocation
/// leaves the pipeline while one is alive, unless a finalizer failed.
pub proof fn law_values_are_finalized_in_reverse<S, H, F>(
    plan: PlanView,
    before: Invocation<S, H, F>,
    event: InvocationEvent<S, H, F>,
    after: Invocation<S, H, F>,
)
    requires
        well_placed(plan, before),
        can_happen(before, event),
        advances(plan, before, event, after),
        !(before.phase is Finalize && event is Failed),
    ensures
        match (before.phase, event) {
            (InvocationPhase::Provide(index), InvocationEvent::Went) => {
                &&& index == alive(plan, before.phase)
                &&& alive(plan, after.phase) == alive(plan, before.phase) + 1
            },
            (InvocationPhase::Finalize(left), _) => {
                &&& left - 1 == alive(plan, before.phase) - 1
                &&& alive(plan, after.phase) == alive(plan, before.phase) - 1
            },
            _ => alive(plan, after.phase) == alive(plan, before.phase),
        },
{
    reveal_with_fuel(entered, 12);
    reveal_with_fuel(through, 12);
    reveal_with_fuel(after_stage, 12);
    reveal_with_fuel(providing, 12);
}

/// Cleanup is shielded: no signal ends a finalizer or an observer.
pub proof fn law_cleanup_is_shielded<S, H, F>(
    invocation: Invocation<S, H, F>,
    abort: InvocationAbort,
)
    requires
        match invocation.phase {
            InvocationPhase::Finalize(_) => true,
            InvocationPhase::OnError(_) => true,
            InvocationPhase::OnResponse(_) => true,
            _ => false,
        },
    ensures
        !can_happen(invocation, InvocationEvent::Aborted(abort)),
{
}

/// Observers cannot change an outcome: once an invocation left the pipeline it
/// keeps what settled it.
pub proof fn law_observers_cannot_change_the_outcome<S, H, F>(
    plan: PlanView,
    before: Invocation<S, H, F>,
    event: InvocationEvent<S, H, F>,
    after: Invocation<S, H, F>,
)
    requires
        well_placed(plan, before),
        before.phase is OnError || before.phase is OnResponse,
        can_happen(before, event),
        advances(plan, before, event, after),
    ensures
        after.settled == before.settled,
        after.phase is OnError || after.phase is OnResponse || after.phase is Done,
{
}

/// A failure or a signal at any stage ends in the cleanup of what was built,
/// and then in the outcome that it stands for.
pub proof fn law_failures_end_in_cleanup<S, H, F>(
    plan: PlanView,
    before: Invocation<S, H, F>,
    event: InvocationEvent<S, H, F>,
    after: Invocation<S, H, F>,
)
    requires
        well_placed(plan, before),
        can_happen(before, event),
        event is Failed || event is Aborted,
        !(before.phase is Finalize),
        advances(plan, before, event, after),
    ensures
        ({
            let settlement = match event {
                InvocationEvent::Failed(error) => Settlement::<S, H, F>::Failed(error),
                InvocationEvent::Aborted(abort) => Settlement::Aborted(abort),
                _ => Settlement::Uncompiled,
            };
            if alive(plan, before.phase) > 0 {
                after.phase == InvocationPhase::Finalize(alive(plan, before.phase) as usize)
                    && after.settled == Some(settlement)
            } else {
                after.settled matches Some(Settlement::Outcome(outcome)) && settles(
                    outcome,
                    settlement,
                ) && after.phase == leaving(plan.hooks, outcome)
            }
        }),
{
}

/// How far an invocation has come: the request hooks, the values of the request,
/// the hooks before parsing and before validation, the preparation of the call, the
/// hooks before the handler, the handler, the hooks before serialization, and what
/// comes after.
pub open spec fn progress(phase: InvocationPhase) -> int {
    match phase {
        InvocationPhase::Check(stage) | InvocationPhase::Hook(stage, _) => stage_progress(stage),
        InvocationPhase::Provide(_) => 1,
        InvocationPhase::Prepare => 4,
        InvocationPhase::Handle | InvocationPhase::Direct => 6,
        InvocationPhase::Finalize(_) => 8,
        InvocationPhase::OnError(_) => 9,
        InvocationPhase::OnResponse(_) => 10,
        InvocationPhase::Done => 11,
    }
}

/// Where a stage stands on that way.
pub open spec fn stage_progress(stage: Stage) -> int {
    match stage {
        Stage::OnRequest => 0,
        Stage::PreParse => 2,
        Stage::PreValidate => 3,
        Stage::PreHandler => 5,
        Stage::PreSerialize => 7,
    }
}

/// The way is the same for every invocation. No step leads back, and a stage is
/// passed over only where it has no hooks and no signal can end the invocation
/// there. The hooks of a stage run one after the other.
pub proof fn law_stages_come_in_order<S, H, F>(
    plan: PlanView,
    before: Invocation<S, H, F>,
    after: Invocation<S, H, F>,
    stage: Stage,
)
    requires
        well_placed(plan, before),
        can_happen(before, InvocationEvent::Went),
        advances(plan, before, InvocationEvent::Went, after),
        plan.providers is Some,
    ensures
        progress(before.phase) <= progress(after.phase),
        progress(before.phase) < stage_progress(stage) < progress(after.phase) ==> stage_hooks(
            plan.hooks,
            stage,
        ).len() == 0 && !before.controlled,
        before.phase matches InvocationPhase::Hook(own, at) ==> (if at + 1 < stage_hooks(
            plan.hooks,
            own,
        ).len() {
            after.phase == InvocationPhase::Hook(own, (at + 1) as usize)
        } else {
            progress(before.phase) < progress(after.phase)
        }),
        before.phase matches InvocationPhase::Check(own) && stage_hooks(plan.hooks, own).len() > 0
            ==> after.phase == InvocationPhase::Hook(before.phase->Check_0, 0),
        before.phase is Prepare ==> 5 <= progress(after.phase) <= 6,
{
    reveal_with_fuel(entered, 12);
    reveal_with_fuel(through, 12);
    reveal_with_fuel(after_stage, 12);
    reveal_with_fuel(providing, 12);
}

/// A handler's answer is its outcome. It passes the hooks before serialization, and
/// then what was built is taken down.
pub proof fn law_answers_are_kept<S, H, F>(
    plan: PlanView,
    before: Invocation<S, H, F>,
    outcome: ExecutionOutcome<S, H, F>,
    after: Invocation<S, H, F>,
)
    requires
        well_placed(plan, before),
        can_happen(before, InvocationEvent::Answered(outcome)),
        advances(plan, before, InvocationEvent::Answered(outcome), after),
    ensures
        after.settled == Some(Settlement::Outcome(outcome)),
        before.phase is Handle && (before.controlled || plan.hooks.pre_serialize.len() > 0)
            ==> progress(after.phase) == 7,
        !(before.phase is Handle) ==> progress(after.phase) >= 8,
{
    reveal_with_fuel(entered, 12);
    reveal_with_fuel(through, 12);
    reveal_with_fuel(after_stage, 12);
}

/// Every stage runs its own hooks, in the order in which they were registered.
/// Observers run in reverse.
pub proof fn law_stages_run_their_own_hooks<S, H, F>(
    operation: ExecutableOperation,
    invocation: Invocation<S, H, F>,
    at: usize,
)
    ensures
        ({
            let hooks = operation.hooks.scope@;
            let due = action_due(operation, invocation);
            &&& invocation.phase == InvocationPhase::Hook(Stage::OnRequest, at) ==> due == (
            InvocationAction::RunHook { hook: hooks.on_request[at as int] })
            &&& invocation.phase == InvocationPhase::Hook(Stage::PreParse, at) ==> due == (
            InvocationAction::RunHook { hook: hooks.pre_parse[at as int] })
            &&& invocation.phase == InvocationPhase::Hook(Stage::PreValidate, at) ==> due == (
            InvocationAction::RunHook { hook: hooks.pre_validate[at as int] })
            &&& invocation.phase == InvocationPhase::Hook(Stage::PreHandler, at) ==> due == (
            InvocationAction::RunHook { hook: hooks.pre_handler[at as int] })
            &&& invocation.phase == InvocationPhase::Hook(Stage::PreSerialize, at) ==> due == (
            InvocationAction::RunHook { hook: hooks.pre_serialize[at as int] })
            &&& invocation.phase == InvocationPhase::OnError(at) ==> (due matches InvocationAction::Observe {
                hook,
                ..
            } && hook == hooks.on_error[at - 1])
            &&& invocation.phase == InvocationPhase::OnResponse(at) ==> (due matches InvocationAction::Observe {
                hook,
                ..
            } && hook == hooks.on_response[at - 1])
        }),
{
}

/// Failures are observed, and failures only are observed as such: an invocation
/// whose outcome is none goes past the error observers, one whose outcome is a
/// failure past none of them. Every outcome is observed as a response.
pub proof fn law_failures_are_observed<S, H, F>(
    plan: PlanView,
    before: Invocation<S, H, F>,
    event: InvocationEvent<S, H, F>,
    after: Invocation<S, H, F>,
)
    requires
        well_placed(plan, before),
        can_happen(before, event),
        advances(plan, before, event, after),
        progress(before.phase) < 9,
        progress(after.phase) >= 9,
    ensures
        after.settled matches Some(Settlement::Outcome(outcome)) && (if is_failure(outcome)
            && plan.hooks.on_error.len() > 0 {
            after.phase == InvocationPhase::OnError(plan.hooks.on_error.len() as usize)
        } else if plan.hooks.on_response.len() > 0 {
            after.phase == InvocationPhase::OnResponse(plan.hooks.on_response.len() as usize)
        } else {
            after.phase is Done
        }),
{
    reveal_with_fuel(entered, 12);
    reveal_with_fuel(through, 12);
    reveal_with_fuel(after_stage, 12);
    reveal_with_fuel(providing, 12);
}

/// A handler answers directly only where nothing stands between: no hook of any
/// kind, no signal to heed, and nothing left to build.
pub proof fn law_direct_answers_pass_over_nothing<S, H, F>(
    plan: PlanView,
    before: Invocation<S, H, F>,
    event: InvocationEvent<S, H, F>,
    after: Invocation<S, H, F>,
)
    requires
        well_placed(plan, before),
        can_happen(before, event),
        advances(plan, before, event, after),
        after.phase is Direct,
    ensures
        plan.direct && !before.controlled,
        plan.hooks.pre_parse.len() == 0 && plan.hooks.pre_validate.len() == 0
            && plan.hooks.pre_handler.len() == 0 && plan.hooks.pre_serialize.len() == 0
            && plan.hooks.on_request.len() == 0,
        before.phase matches InvocationPhase::Provide(at) ==> at + 1 == value_count(plan),
{
    reveal_with_fuel(entered, 12);
    reveal_with_fuel(through, 12);
    reveal_with_fuel(after_stage, 12);
    reveal_with_fuel(providing, 12);
}

/// A cancelled invocation is answered with status 499, one that took too long with
/// status 504.
pub proof fn law_aborts_have_their_status<S, H, F>(
    outcome: ExecutionOutcome<S, H, F>,
    abort: InvocationAbort,
)
    requires
        is_abort(outcome, abort),
    ensures
        outcome matches ExecutionOutcome::Rejected { status, details, .. } && details is None && (
        status == 499 <==> abort is Cancelled) && (status == 504 <==> abort is TimedOut),
{
}

/// A handler is given the value that its slot holds, where it has the asked type.
pub proof fn law_handlers_are_given_their_values<V>(
    dependencies: ResolvedDependencies<V>,
    index: usize,
    type_id: u64,
    value: Result<V, DependencyError>,
)
    requires
        handler_value(dependencies, index, type_id, value),
    ensures
        value is Ok <==> index < dependencies.slots@.len() && (slot_value(
            dependencies.slots@[index as int],
            dependencies.singletons@,
            dependencies.requests@,
        ) matches Some(held) && held.type_id == type_id),
        value matches Ok(given) ==> slot_value(
            dependencies.slots@[index as int],
            dependencies.singletons@,
            dependencies.requests@,
        ) == Some(DependencyValue { type_id, value: given }),
        value matches Err(error) ==> error is Internal,
{
}

} // verus!
