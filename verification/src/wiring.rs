//! Slots for dependencies: which values are built, in which order, and from
//! which others.
use crate::dependency::{CompiledProvider, DependencyLifetime, DependencyRequest, DependencySlot};
use crate::graph::{
    find_provider, graph_fault, is_build_order, law_valid_graphs_can_be_built,
    lemma_need_stands_before, need, needs, place_of, provider_of, registered,
    ExecutableBuildError, ExecutableFault, ProviderRegistration, Visible,
};
use vstd::prelude::*;
use vstd::string::*;

verus! {

// ---------------------------------------------------------------------------
// Singletons
// ---------------------------------------------------------------------------

/// A provider is a singleton.
pub open spec fn is_singleton(regs: Seq<ProviderRegistration>, id: int) -> bool {
    regs[id].provider.lifetime == DependencyLifetime::Singleton
}

/// The number of singletons among the first so many providers.
pub open spec fn singletons_before(regs: Seq<ProviderRegistration>, count: int) -> nat
    decreases count,
{
    if count <= 0 {
        0
    } else {
        singletons_before(regs, count - 1) + if is_singleton(regs, count - 1) {
            1nat
        } else {
            0nat
        }
    }
}

/// The slots of the dependencies of a singleton, which are singletons.
pub open spec fn singleton_needs(regs: Seq<ProviderRegistration>, id: int) -> Seq<DependencySlot> {
    Seq::new(
        needs(regs, id).len(),
        |k: int|
            DependencySlot::Singleton(
                singletons_before(regs, need(regs, id, k)->Some_0 as int) as usize,
            ),
    )
}

/// One value to build: by which provider, and from which slots.
pub struct StepView {
    pub id: int,
    pub slots: Seq<DependencySlot>,
}

/// One value to build.
#[derive(Clone, Debug, PartialEq, Eq)]
pub struct BuildStep {
    pub registration: usize,
    pub provider: CompiledProvider,
}

impl View for BuildStep {
    type V = StepView;

    open spec fn view(&self) -> StepView {
        StepView { id: self.registration as int, slots: self.provider.slots@ }
    }
}

/// What a list of steps says.
pub open spec fn steps_view(steps: Seq<BuildStep>) -> Seq<StepView> {
    steps.map_values(|step: BuildStep| step@)
}

/// Every step runs the factory of its registration.
pub open spec fn runs_factories(regs: Seq<ProviderRegistration>, steps: Seq<BuildStep>) -> bool {
    forall|i: int|
        0 <= i < steps.len() ==> {
            let step = #[trigger] steps[i];
            &&& step.registration < regs.len()
            &&& step.provider.factory == regs[step.registration as int].provider.factory
            &&& step.provider.awaited == regs[step.registration as int].provider.awaited
            &&& step.provider.finalized == regs[step.registration as int].provider.finalized
        }
}

/// The singletons that are built, and in which order.
pub struct BuildView {
    pub built: Seq<bool>,
    pub steps: Seq<StepView>,
}

/// Builds a singleton, its dependencies first, unless it is built.
pub open spec fn build(
    regs: Seq<ProviderRegistration>,
    id: int,
    plan: BuildView,
    fuel: nat,
) -> BuildView
    decreases fuel, 0int, 0int,
{
    if plan.built[id] || fuel == 0 {
        plan
    } else {
        let after = build_needs(regs, id, 0, plan, (fuel - 1) as nat);
        BuildView {
            built: after.built.update(id, true),
            steps: after.steps.push(StepView { id, slots: singleton_needs(regs, id) }),
        }
    }
}

/// Builds the dependencies of a singleton from one on.
pub open spec fn build_needs(
    regs: Seq<ProviderRegistration>,
    id: int,
    k: int,
    plan: BuildView,
    fuel: nat,
) -> BuildView
    decreases fuel, 1int, needs(regs, id).len() - k,
{
    if k >= needs(regs, id).len() {
        plan
    } else {
        build_needs(
            regs,
            id,
            k + 1,
            build(regs, need(regs, id, k)->Some_0 as int, plan, fuel),
            fuel,
        )
    }
}

/// Builds all singletons from a provider on.
pub open spec fn build_all(regs: Seq<ProviderRegistration>, id: int, plan: BuildView) -> BuildView
    decreases regs.len() - id,
{
    if id >= regs.len() {
        plan
    } else if is_singleton(regs, id) {
        build_all(regs, id + 1, build(regs, id, plan, regs.len()))
    } else {
        build_all(regs, id + 1, plan)
    }
}

/// The singletons of a graph in the order in which they are built.
pub open spec fn singleton_steps(regs: Seq<ProviderRegistration>) -> Seq<StepView> {
    build_all(
        regs,
        0,
        BuildView { built: Seq::new(regs.len(), |i: int| false), steps: Seq::empty() },
    ).steps
}

proof fn lemma_slot_bound(regs: Seq<ProviderRegistration>, count: int)
    requires
        0 <= count,
    ensures
        singletons_before(regs, count) <= count,
    decreases count,
{
    if count > 0 {
        lemma_slot_bound(regs, count - 1);
    }
}

/// The slot of every singleton: its place among the singletons.
fn singleton_slots(registrations: &Vec<ProviderRegistration>) -> (slots: Vec<usize>)
    ensures
        slots@.len() == registrations@.len(),
        forall|i: int|
            0 <= i < slots@.len() ==> #[trigger] slots@[i] == singletons_before(registrations@, i),
{
    let mut slots: Vec<usize> = Vec::new();
    let mut count: usize = 0;
    let mut index: usize = 0;
    while index < registrations.len()
        invariant
            index <= registrations@.len(),
            count <= index,
            count == singletons_before(registrations@, index as int),
            slots@.len() == index,
            forall|i: int|
                0 <= i < index ==> #[trigger] slots@[i] == singletons_before(registrations@, i),
        decreases registrations@.len() - index,
    {
        slots.push(count);
        if registrations[index].provider.lifetime == DependencyLifetime::Singleton {
            count += 1;
        }
        index += 1;
    }
    slots
}

/// What the singletons built so far are, as values.
struct BuildPlan {
    built: Vec<bool>,
    steps: Vec<BuildStep>,
}

impl BuildPlan {
    spec fn state(&self) -> BuildView {
        BuildView { built: self.built@, steps: steps_view(self.steps@) }
    }
}

fn bind_singleton(
    id: usize,
    registrations: &Vec<ProviderRegistration>,
    slots: &Vec<usize>,
    order: Ghost<Seq<int>>,
) -> (step: BuildStep)
    requires
        registered(registrations@),
        is_build_order(registrations@, order@),
        id < registrations@.len(),
        slots@.len() == registrations@.len(),
        forall|i: int|
            0 <= i < slots@.len() ==> #[trigger] slots@[i] == singletons_before(registrations@, i),
    ensures
        step@ == (StepView {
            id: id as int,
            slots: singleton_needs(registrations@, id as int),
        }),
        step.provider.factory == registrations@[id as int].provider.factory,
        step.provider.awaited == registrations@[id as int].provider.awaited,
        step.provider.finalized == registrations@[id as int].provider.finalized,
{
    let registration = &registrations[id];
    let ghost expected = singleton_needs(registrations@, id as int);
    let mut bound: Vec<DependencySlot> = Vec::new();
    let mut k: usize = 0;
    while k < registration.provider.dependencies.len()
        invariant
            registered(registrations@),
            is_build_order(registrations@, order@),
            id < registrations@.len(),
            *registration == registrations@[id as int],
            slots@.len() == registrations@.len(),
            forall|i: int|
                0 <= i < slots@.len() ==> #[trigger] slots@[i] == singletons_before(
                    registrations@,
                    i,
                ),
            expected == singleton_needs(registrations@, id as int),
            k <= registration.provider.dependencies@.len(),
            bound@ =~= expected.take(k as int),
        decreases registration.provider.dependencies@.len() - k,
    {
        proof {
            lemma_need_stands_before(registrations@, order@, id as int, k as int);
        }
        let found = match find_provider(
            &registration.visible,
            registration.provider.dependencies[k].type_id,
        ) {
            Some(found) => found,
            None => vstd::pervasive::unreached(),
        };
        bound.push(DependencySlot::Singleton(slots[found]));
        assert(expected.take(k + 1) =~= expected.take(k as int).push(expected[k as int]));
        k += 1;
    }
    assert(expected.take(k as int) =~= expected);
    match registration.provider.compile(bound) {
        Ok(provider) => BuildStep { registration: id, provider },
        Err(_) => vstd::pervasive::unreached(),
    }
}

fn compile_singleton(
    id: usize,
    registrations: &Vec<ProviderRegistration>,
    slots: &Vec<usize>,
    plan: &mut BuildPlan,
    order: Ghost<Seq<int>>,
    fuel: Ghost<nat>,
)
    requires
        registered(registrations@),
        is_build_order(registrations@, order@),
        id < registrations@.len(),
        place_of(order@, id as int) < fuel@,
        slots@.len() == registrations@.len(),
        forall|i: int|
            0 <= i < slots@.len() ==> #[trigger] slots@[i] == singletons_before(registrations@, i),
        old(plan).built@.len() == registrations@.len(),
        runs_factories(registrations@, old(plan).steps@),
    ensures
        final(plan).state() == build(registrations@, id as int, old(plan).state(), fuel@),
        final(plan).built@.len() == registrations@.len(),
        runs_factories(registrations@, final(plan).steps@),
    decreases fuel@, 0int, 0int,
{
    proof {
        assert(order@.contains(id as int));
    }
    if plan.built[id] {
        return;
    }
    compile_singleton_needs(
        id,
        0,
        registrations,
        slots,
        plan,
        order,
        Ghost((fuel@ - 1) as nat),
    );
    let step = bind_singleton(id, registrations, slots, order);
    let ghost before = steps_view(plan.steps@);
    plan.steps.push(step);
    plan.built.set(id, true);
    assert(steps_view(plan.steps@) =~= before.push(step@));
}

fn compile_singleton_needs(
    id: usize,
    k: usize,
    registrations: &Vec<ProviderRegistration>,
    slots: &Vec<usize>,
    plan: &mut BuildPlan,
    order: Ghost<Seq<int>>,
    fuel: Ghost<nat>,
)
    requires
        registered(registrations@),
        is_build_order(registrations@, order@),
        id < registrations@.len(),
        k <= needs(registrations@, id as int).len(),
        place_of(order@, id as int) <= fuel@,
        slots@.len() == registrations@.len(),
        forall|i: int|
            0 <= i < slots@.len() ==> #[trigger] slots@[i] == singletons_before(registrations@, i),
        old(plan).built@.len() == registrations@.len(),
        runs_factories(registrations@, old(plan).steps@),
    ensures
        final(plan).state() == build_needs(
            registrations@,
            id as int,
            k as int,
            old(plan).state(),
            fuel@,
        ),
        final(plan).built@.len() == registrations@.len(),
        runs_factories(registrations@, final(plan).steps@),
    decreases fuel@, 1int, needs(registrations@, id as int).len() - k,
{
    let registration = &registrations[id];
    if k >= registration.provider.dependencies.len() {
        return;
    }
    proof {
        lemma_need_stands_before(registrations@, order@, id as int, k as int);
    }
    let found = match find_provider(
        &registration.visible,
        registration.provider.dependencies[k].type_id,
    ) {
        Some(found) => found,
        None => vstd::pervasive::unreached(),
    };
    compile_singleton(found, registrations, slots, plan, order, fuel);
    compile_singleton_needs(id, k + 1, registrations, slots, plan, order, fuel);
}

/// Lays out the singletons of a valid graph: their slots, and the order in
/// which they are built.
pub fn compile_singletons(registrations: &Vec<ProviderRegistration>) -> (steps: Vec<BuildStep>)
    requires
        registered(registrations@),
        graph_fault(registrations@) is None,
    ensures
        steps_view(steps@) == singleton_steps(registrations@),
        runs_factories(registrations@, steps@),
{
    let ghost mut order: Seq<int> = Seq::empty();
    proof {
        law_valid_graphs_can_be_built(registrations@);
        order = choose|order: Seq<int>| is_build_order(registrations@, order);
    }
    let slots = singleton_slots(registrations);
    let mut built: Vec<bool> = Vec::new();
    let mut index: usize = 0;
    while index < registrations.len()
        invariant
            index <= registrations@.len(),
            built@.len() == index,
            forall|i: int| 0 <= i < index ==> #[trigger] built@[i] == false,
        decreases registrations@.len() - index,
    {
        built.push(false);
        index += 1;
    }
    let mut plan = BuildPlan { built, steps: Vec::new() };
    let ghost start = BuildView {
        built: Seq::new(registrations@.len(), |i: int| false),
        steps: Seq::empty(),
    };
    assert(plan.state().built =~= start.built);
    assert(plan.state().steps =~= start.steps);
    let mut id: usize = 0;
    while id < registrations.len()
        invariant
            registered(registrations@),
            is_build_order(registrations@, order),
            id <= registrations@.len(),
            slots@.len() == registrations@.len(),
            forall|i: int|
                0 <= i < slots@.len() ==> #[trigger] slots@[i] == singletons_before(
                    registrations@,
                    i,
                ),
            plan.built@.len() == registrations@.len(),
            runs_factories(registrations@, plan.steps@),
            build_all(registrations@, 0, start) == build_all(
                registrations@,
                id as int,
                plan.state(),
            ),
        decreases registrations@.len() - id,
    {
        if registrations[id].provider.lifetime == DependencyLifetime::Singleton {
            proof {
                assert(order.contains(id as int));
                crate::graph::lemma_order_fits(registrations@, order);
            }
            compile_singleton(
                id,
                registrations,
                &slots,
                &mut plan,
                Ghost(order),
                Ghost(registrations@.len()),
            );
        }
        id += 1;
    }
    plan.steps
}

// ---------------------------------------------------------------------------
// Values of one invocation
// ---------------------------------------------------------------------------

/// The values of an invocation: the steps that build them, and which
/// request-scoped provider has which slot.
pub struct RequestView {
    pub steps: Seq<StepView>,
    pub slots: Seq<Option<usize>>,
}

/// Compiles the slot of a provider for an invocation: a singleton has its own,
/// a request-scoped value is built once, and a transient value at every use.
pub open spec fn request_slot(
    regs: Seq<ProviderRegistration>,
    id: int,
    plan: RequestView,
    fuel: nat,
) -> (DependencySlot, RequestView)
    decreases fuel, 0int, 0int,
{
    if is_singleton(regs, id) {
        (DependencySlot::Singleton(singletons_before(regs, id) as usize), plan)
    } else if regs[id].provider.lifetime == DependencyLifetime::Request && plan.slots[id] is Some {
        (DependencySlot::Request(plan.slots[id]->Some_0), plan)
    } else if fuel == 0 {
        (DependencySlot::Request(0), plan)
    } else {
        let (slots, after) = request_needs(regs, id, 0, Seq::empty(), plan, (fuel - 1) as nat);
        let slot = after.steps.len() as usize;
        (
            DependencySlot::Request(slot),
            RequestView {
                steps: after.steps.push(StepView { id, slots }),
                slots: if regs[id].provider.lifetime == DependencyLifetime::Request {
                    after.slots.update(id, Some(slot))
                } else {
                    after.slots
                },
            },
        )
    }
}

/// Compiles the slots of a provider's dependencies from one on, behind those
/// that are compiled.
pub open spec fn request_needs(
    regs: Seq<ProviderRegistration>,
    id: int,
    k: int,
    bound: Seq<DependencySlot>,
    plan: RequestView,
    fuel: nat,
) -> (Seq<DependencySlot>, RequestView)
    decreases fuel, 1int, needs(regs, id).len() - k,
{
    if k >= needs(regs, id).len() {
        (bound, plan)
    } else {
        let (slot, after) = request_slot(regs, need(regs, id, k)->Some_0 as int, plan, fuel);
        request_needs(regs, id, k + 1, bound.push(slot), after, fuel)
    }
}

/// The dependencies that an operation asks for, from one on.
pub open spec fn handler_needs(
    regs: Seq<ProviderRegistration>,
    visible: Seq<Visible>,
    plugin: Seq<char>,
    operation: Seq<char>,
    requests: Seq<DependencyRequest>,
    k: int,
    bound: Seq<DependencySlot>,
    plan: RequestView,
) -> Result<(Seq<DependencySlot>, RequestView), ExecutableFault>
    decreases requests.len() - k,
{
    if k >= requests.len() {
        Ok((bound, plan))
    } else {
        match provider_of(visible, requests[k].key.type_id) {
            None => Err(
                ExecutableFault::MissingProvider(plugin, operation, requests[k].key.name@),
            ),
            Some(id) => {
                let (slot, after) = request_slot(regs, id as int, plan, regs.len());
                handler_needs(
                    regs,
                    visible,
                    plugin,
                    operation,
                    requests,
                    k + 1,
                    bound.push(slot),
                    after,
                )
            },
        }
    }
}

/// An invocation for which nothing is built yet.
pub open spec fn nothing_built(regs: Seq<ProviderRegistration>) -> RequestView {
    RequestView { steps: Seq::empty(), slots: Seq::new(regs.len(), |i: int| None) }
}

/// What an invocation builds, as values.
struct RequestPlan {
    steps: Vec<BuildStep>,
    slots: Vec<Option<usize>>,
}

impl RequestPlan {
    spec fn state(&self) -> RequestView {
        RequestView { steps: steps_view(self.steps@), slots: self.slots@ }
    }
}

fn compile_request_provider(
    id: usize,
    registrations: &Vec<ProviderRegistration>,
    singletons: &Vec<usize>,
    plan: &mut RequestPlan,
    order: Ghost<Seq<int>>,
    fuel: Ghost<nat>,
) -> (slot: DependencySlot)
    requires
        registered(registrations@),
        is_build_order(registrations@, order@),
        id < registrations@.len(),
        place_of(order@, id as int) < fuel@,
        singletons@.len() == registrations@.len(),
        forall|i: int|
            0 <= i < singletons@.len() ==> #[trigger] singletons@[i] == singletons_before(
                registrations@,
                i,
            ),
        old(plan).slots@.len() == registrations@.len(),
        runs_factories(registrations@, old(plan).steps@),
    ensures
        (slot, final(plan).state()) == request_slot(
            registrations@,
            id as int,
            old(plan).state(),
            fuel@,
        ),
        final(plan).slots@.len() == registrations@.len(),
        runs_factories(registrations@, final(plan).steps@),
    decreases fuel@, 0int, 0int,
{
    proof {
        assert(order@.contains(id as int));
    }
    let registration = &registrations[id];
    if registration.provider.lifetime == DependencyLifetime::Singleton {
        return DependencySlot::Singleton(singletons[id]);
    }
    if registration.provider.lifetime == DependencyLifetime::Request {
        if let Some(slot) = plan.slots[id] {
            return DependencySlot::Request(slot);
        }
    }
    let ghost none: Seq<DependencySlot> = Seq::empty();
    let mut bound: Vec<DependencySlot> = Vec::new();
    assert(bound@ =~= none);
    compile_request_needs(
        id,
        0,
        registrations,
        singletons,
        &mut bound,
        plan,
        order,
        Ghost((fuel@ - 1) as nat),
    );
    let slot = plan.steps.len();
    let provider = match registration.provider.compile(bound) {
        Ok(provider) => provider,
        Err(_) => vstd::pervasive::unreached(),
    };
    let ghost before = steps_view(plan.steps@);
    let step = BuildStep { registration: id, provider };
    plan.steps.push(step);
    assert(steps_view(plan.steps@) =~= before.push(step@));
    if registration.provider.lifetime == DependencyLifetime::Request {
        plan.slots.set(id, Some(slot));
    }
    DependencySlot::Request(slot)
}

fn compile_request_needs(
    id: usize,
    k: usize,
    registrations: &Vec<ProviderRegistration>,
    singletons: &Vec<usize>,
    bound: &mut Vec<DependencySlot>,
    plan: &mut RequestPlan,
    order: Ghost<Seq<int>>,
    fuel: Ghost<nat>,
)
    requires
        registered(registrations@),
        is_build_order(registrations@, order@),
        id < registrations@.len(),
        k <= needs(registrations@, id as int).len(),
        old(bound)@.len() == k,
        place_of(order@, id as int) <= fuel@,
        singletons@.len() == registrations@.len(),
        forall|i: int|
            0 <= i < singletons@.len() ==> #[trigger] singletons@[i] == singletons_before(
                registrations@,
                i,
            ),
        old(plan).slots@.len() == registrations@.len(),
        runs_factories(registrations@, old(plan).steps@),
    ensures
        (final(bound)@, final(plan).state()) == request_needs(
            registrations@,
            id as int,
            k as int,
            old(bound)@,
            old(plan).state(),
            fuel@,
        ),
        final(bound)@.len() == needs(registrations@, id as int).len(),
        final(plan).slots@.len() == registrations@.len(),
        runs_factories(registrations@, final(plan).steps@),
    decreases fuel@, 1int, needs(registrations@, id as int).len() - k,
{
    let registration = &registrations[id];
    if k >= registration.provider.dependencies.len() {
        return;
    }
    proof {
        lemma_need_stands_before(registrations@, order@, id as int, k as int);
    }
    let found = match find_provider(
        &registration.visible,
        registration.provider.dependencies[k].type_id,
    ) {
        Some(found) => found,
        None => vstd::pervasive::unreached(),
    };
    let slot = compile_request_provider(found, registrations, singletons, plan, order, fuel);
    bound.push(slot);
    compile_request_needs(id, k + 1, registrations, singletons, bound, plan, order, fuel);
}

/// What an operation needs at every invocation: the values to build, in order,
/// and the slots that its handler reads.
#[derive(Clone, Debug, PartialEq, Eq)]
pub struct CompiledOperationDependencies {
    pub request_providers: Vec<BuildStep>,
    pub handler_slots: Vec<DependencySlot>,
}

/// Compiles what an operation of a valid graph needs.
pub fn compile_operation_dependencies(
    registrations: &Vec<ProviderRegistration>,
    visible: &Vec<Visible>,
    plugin: &str,
    operation: &str,
    requests: &Vec<DependencyRequest>,
) -> (compiled: Result<CompiledOperationDependencies, ExecutableBuildError>)
    requires
        registered(registrations@),
        graph_fault(registrations@) is None,
        forall|j: int|
            0 <= j < visible@.len() ==> (#[trigger] visible@[j]).id < registrations@.len(),
    ensures
        match compiled {
            Ok(compiled) => {
                &&& handler_needs(
                    registrations@,
                    visible@,
                    plugin@,
                    operation@,
                    requests@,
                    0,
                    Seq::empty(),
                    nothing_built(registrations@),
                ) matches Ok((slots, plan)) && slots == compiled.handler_slots@ && plan.steps
                    == steps_view(compiled.request_providers@)
                &&& runs_factories(registrations@, compiled.request_providers@)
            },
            Err(error) => handler_needs(
                registrations@,
                visible@,
                plugin@,
                operation@,
                requests@,
                0,
                Seq::empty(),
                nothing_built(registrations@),
            ) == Err::<(Seq<DependencySlot>, RequestView), ExecutableFault>(error@),
        },
{
    let ghost mut order: Seq<int> = Seq::empty();
    proof {
        law_valid_graphs_can_be_built(registrations@);
        order = choose|order: Seq<int>| is_build_order(registrations@, order);
        crate::graph::lemma_order_fits(registrations@, order);
    }
    let singletons = singleton_slots(registrations);
    let mut slots: Vec<Option<usize>> = Vec::new();
    let mut index: usize = 0;
    while index < registrations.len()
        invariant
            index <= registrations@.len(),
            slots@.len() == index,
            forall|i: int| 0 <= i < index ==> #[trigger] slots@[i] == None::<usize>,
        decreases registrations@.len() - index,
    {
        slots.push(None);
        index += 1;
    }
    let mut plan = RequestPlan { steps: Vec::new(), slots };
    let mut bound: Vec<DependencySlot> = Vec::new();
    let ghost start = nothing_built(registrations@);
    let ghost wanted = handler_needs(
        registrations@,
        visible@,
        plugin@,
        operation@,
        requests@,
        0,
        Seq::empty(),
        start,
    );
    assert(plan.state().slots =~= start.slots);
    assert(plan.state().steps =~= start.steps);
    assert(bound@ =~= Seq::empty());
    let mut k: usize = 0;
    while k < requests.len()
        invariant
            registered(registrations@),
            is_build_order(registrations@, order),
            order.len() <= registrations@.len(),
            forall|j: int|
                0 <= j < visible@.len() ==> (#[trigger] visible@[j]).id < registrations@.len(),
            k <= requests@.len(),
            singletons@.len() == registrations@.len(),
            forall|i: int|
                0 <= i < singletons@.len() ==> #[trigger] singletons@[i] == singletons_before(
                    registrations@,
                    i,
                ),
            plan.slots@.len() == registrations@.len(),
            runs_factories(registrations@, plan.steps@),
            wanted == handler_needs(
                registrations@,
                visible@,
                plugin@,
                operation@,
                requests@,
                0,
                Seq::empty(),
                nothing_built(registrations@),
            ),
            wanted == handler_needs(
                registrations@,
                visible@,
                plugin@,
                operation@,
                requests@,
                k as int,
                bound@,
                plan.state(),
            ),
        decreases requests@.len() - k,
    {
        let key = requests[k].key;
        match find_provider(visible, key.type_id) {
            None => {
                return Err(
                    ExecutableBuildError::MissingProvider {
                        plugin: plugin.to_owned(),
                        consumer: operation.to_owned(),
                        dependency: key.name.to_owned(),
                    },
                );
            },
            Some(id) => {
                proof {
                    let j = choose|j: int|
                        0 <= j < visible@.len() && (#[trigger] visible@[j]).id == id;
                    assert(visible@[j].id < registrations@.len());
                    assert(order.contains(id as int));
                }
                let slot = compile_request_provider(
                    id,
                    registrations,
                    &singletons,
                    &mut plan,
                    Ghost(order),
                    Ghost(registrations@.len()),
                );
                bound.push(slot);
            },
        }
        k += 1;
    }
    Ok(CompiledOperationDependencies { request_providers: plan.steps, handler_slots: bound })
}

// ---------------------------------------------------------------------------
// Laws
// ---------------------------------------------------------------------------

proof fn lemma_singletons_grow(regs: Seq<ProviderRegistration>, low: int, high: int)
    requires
        0 <= low <= high,
    ensures
        singletons_before(regs, low) <= singletons_before(regs, high),
    decreases high - low,
{
    if low < high {
        lemma_singletons_grow(regs, low, high - 1);
    }
}

/// A slot holds a value before a step runs.
pub open spec fn filled_before(
    regs: Seq<ProviderRegistration>,
    slot: DependencySlot,
    step: int,
) -> bool {
    match slot {
        DependencySlot::Singleton(index) => index < singletons_before(regs, regs.len() as int),
        DependencySlot::Request(index) => index < step,
    }
}

/// Every value of an invocation is built from values that were built before
/// it, a request-scoped provider builds one value, and no singleton is built
/// again.
pub open spec fn sound_request(regs: Seq<ProviderRegistration>, plan: RequestView) -> bool {
    &&& plan.slots.len() == regs.len()
    &&& forall|i: int|
        0 <= i < plan.steps.len() ==> 0 <= (#[trigger] plan.steps[i]).id < regs.len()
            && !is_singleton(regs, plan.steps[i].id)
    &&& forall|i: int, m: int|
        0 <= i < plan.steps.len() && 0 <= m < plan.steps[i].slots.len() ==> filled_before(
            regs,
            #[trigger] plan.steps[i].slots[m],
            i,
        )
    &&& forall|id: int|
        0 <= id < regs.len() ==> (#[trigger] plan.slots[id] matches Some(slot) ==> slot
            < plan.steps.len() && plan.steps[slot as int].id == id)
    &&& forall|i: int|
        0 <= i < plan.steps.len() && regs[(#[trigger] plan.steps[i]).id].provider.lifetime
            == DependencyLifetime::Request ==> plan.slots[plan.steps[i].id] == Some(i as usize)
}

/// One list of steps starts with another.
pub open spec fn extends(longer: Seq<StepView>, shorter: Seq<StepView>) -> bool {
    &&& shorter.len() <= longer.len()
    &&& forall|i: int| 0 <= i < shorter.len() ==> #[trigger] longer[i] == shorter[i]
}

proof fn lemma_request_slot(
    regs: Seq<ProviderRegistration>,
    order: Seq<int>,
    id: int,
    plan: RequestView,
    fuel: nat,
)
    requires
        registered(regs),
        is_build_order(regs, order),
        regs.len() <= usize::MAX,
        0 <= id < regs.len(),
        place_of(order, id) < fuel,
        sound_request(regs, plan),
    ensures
        extends(request_slot(regs, id, plan, fuel).1.steps, plan.steps),
        request_slot(regs, id, plan, fuel).1.steps.len() <= usize::MAX ==> {
            let (slot, after) = request_slot(regs, id, plan, fuel);
            sound_request(regs, after) && filled_before(regs, slot, after.steps.len() as int)
        },
    decreases fuel, 0int, 0int,
{
    assert(order.contains(id));
    lemma_singletons_grow(regs, id + 1, regs.len() as int);
    lemma_slot_bound(regs, id);
    if is_singleton(regs, id) {
    } else if regs[id].provider.lifetime == DependencyLifetime::Request && plan.slots[id] is Some {
    } else {
        let none = Seq::<DependencySlot>::empty();
        lemma_request_needs(regs, order, id, 0, none, plan, (fuel - 1) as nat);
        let (slots, middle) = request_needs(regs, id, 0, none, plan, (fuel - 1) as nat);
        let (slot, after) = request_slot(regs, id, plan, fuel);
        assert(after.steps == middle.steps.push(StepView { id, slots }));
        if after.steps.len() <= usize::MAX {
            assert(middle.steps.len() < usize::MAX);
            assert forall|i: int, m: int|
                0 <= i < after.steps.len() && 0 <= m < after.steps[i].slots.len() implies filled_before(
            regs, #[trigger] after.steps[i].slots[m], i) by {
                if i < middle.steps.len() {
                    assert(after.steps[i] == middle.steps[i]);
                } else {
                    assert(after.steps[i].slots[m] == slots[m]);
                }
            }
            assert forall|i: int| 0 <= i < after.steps.len() implies 0 <= (
            #[trigger] after.steps[i]).id < regs.len() && !is_singleton(
                regs,
                after.steps[i].id,
            ) by {
                if i < middle.steps.len() {
                    assert(after.steps[i] == middle.steps[i]);
                }
            }
            assert forall|other: int|
                0 <= other < regs.len() implies (#[trigger] after.slots[other] matches Some(at)
                ==> at < after.steps.len() && after.steps[at as int].id == other) by {
                if other != id || regs[id].provider.lifetime != DependencyLifetime::Request {
                    assert(after.slots[other] == middle.slots[other]);
                }
            }
            assert forall|i: int|
                0 <= i < after.steps.len() && regs[(#[trigger] after.steps[i]).id].provider.lifetime
                    == DependencyLifetime::Request implies after.slots[after.steps[i].id] == Some(
                i as usize,
            ) by {
                if i < middle.steps.len() {
                    assert(after.steps[i] == middle.steps[i]);
                    if middle.steps[i].id == id {
                        assert(middle.slots[id] == Some(i as usize));
                        lemma_request_needs_avoid(
                            regs,
                            order,
                            id,
                            id,
                            0,
                            none,
                            plan,
                            (fuel - 1) as nat,
                        );
                    }
                }
            }
        }
    }
}

/// Compiling what stands before a provider does not compile it.
proof fn lemma_request_slot_avoids(
    regs: Seq<ProviderRegistration>,
    order: Seq<int>,
    late: int,
    id: int,
    plan: RequestView,
    fuel: nat,
)
    requires
        registered(regs),
        is_build_order(regs, order),
        0 <= id < regs.len(),
        0 <= late < regs.len(),
        plan.slots.len() == regs.len(),
        place_of(order, id) < fuel,
        place_of(order, id) < place_of(order, late),
    ensures
        request_slot(regs, id, plan, fuel).1.slots.len() == regs.len(),
        request_slot(regs, id, plan, fuel).1.slots[late] == plan.slots[late],
    decreases fuel, 0int, 0int,
{
    assert(order.contains(id));
    if is_singleton(regs, id) {
    } else if regs[id].provider.lifetime == DependencyLifetime::Request && plan.slots[id] is Some {
    } else {
        lemma_request_needs_avoid(
            regs,
            order,
            late,
            id,
            0,
            Seq::empty(),
            plan,
            (fuel - 1) as nat,
        );
    }
}

proof fn lemma_request_needs_avoid(
    regs: Seq<ProviderRegistration>,
    order: Seq<int>,
    late: int,
    id: int,
    k: int,
    bound: Seq<DependencySlot>,
    plan: RequestView,
    fuel: nat,
)
    requires
        registered(regs),
        is_build_order(regs, order),
        0 <= id < regs.len(),
        0 <= late < regs.len(),
        0 <= k,
        plan.slots.len() == regs.len(),
        place_of(order, id) <= fuel,
        place_of(order, id) <= place_of(order, late),
    ensures
        request_needs(regs, id, k, bound, plan, fuel).1.slots.len() == regs.len(),
        request_needs(regs, id, k, bound, plan, fuel).1.slots[late] == plan.slots[late],
    decreases fuel, 1int, needs(regs, id).len() - k,
{
    if k < needs(regs, id).len() {
        lemma_need_stands_before(regs, order, id, k);
        let d = need(regs, id, k)->Some_0 as int;
        lemma_request_slot_avoids(regs, order, late, d, plan, fuel);
        let (slot, after) = request_slot(regs, d, plan, fuel);
        lemma_request_needs_avoid(
            regs,
            order,
            late,
            id,
            k + 1,
            bound.push(slot),
            after,
            fuel,
        );
    }
}

proof fn lemma_request_needs(
    regs: Seq<ProviderRegistration>,
    order: Seq<int>,
    id: int,
    k: int,
    bound: Seq<DependencySlot>,
    plan: RequestView,
    fuel: nat,
)
    requires
        registered(regs),
        is_build_order(regs, order),
        regs.len() <= usize::MAX,
        0 <= id < regs.len(),
        0 <= k,
        place_of(order, id) <= fuel,
        sound_request(regs, plan),
        forall|m: int|
            0 <= m < bound.len() ==> filled_before(
                regs,
                #[trigger] bound[m],
                plan.steps.len() as int,
            ),
    ensures
        extends(request_needs(regs, id, k, bound, plan, fuel).1.steps, plan.steps),
        request_needs(regs, id, k, bound, plan, fuel).1.steps.len() <= usize::MAX ==> {
            let (slots, after) = request_needs(regs, id, k, bound, plan, fuel);
            sound_request(regs, after) && forall|m: int|
                0 <= m < slots.len() ==> filled_before(
                    regs,
                    #[trigger] slots[m],
                    after.steps.len() as int,
                )
        },
    decreases fuel, 1int, needs(regs, id).len() - k,
{
    if k < needs(regs, id).len() {
        lemma_need_stands_before(regs, order, id, k);
        let d = need(regs, id, k)->Some_0 as int;
        lemma_request_slot(regs, order, d, plan, fuel);
        let (slot, middle) = request_slot(regs, d, plan, fuel);
        if middle.steps.len() <= usize::MAX {
            let more = bound.push(slot);
            assert forall|m: int| 0 <= m < more.len() implies filled_before(
                regs,
                #[trigger] more[m],
                middle.steps.len() as int,
            ) by {
                if m < bound.len() {
                    assert(more[m] == bound[m]);
                }
            }
            lemma_request_needs(regs, order, id, k + 1, more, middle, fuel);
            let after = request_needs(regs, id, k + 1, more, middle, fuel).1;
            assert forall|i: int| 0 <= i < plan.steps.len() implies #[trigger] after.steps[i]
                == plan.steps[i] by {
                assert(middle.steps[i] == plan.steps[i]);
            }
        } else {
            lemma_needs_extend(regs, id, k + 1, bound.push(slot), middle, fuel);
            let after = request_needs(regs, id, k + 1, bound.push(slot), middle, fuel).1;
            assert forall|i: int| 0 <= i < plan.steps.len() implies #[trigger] after.steps[i]
                == plan.steps[i] by {
                assert(middle.steps[i] == plan.steps[i]);
            }
        }
    }
}

/// Compiling only adds steps.
proof fn lemma_slot_extends(
    regs: Seq<ProviderRegistration>,
    id: int,
    plan: RequestView,
    fuel: nat,
)
    ensures
        extends(request_slot(regs, id, plan, fuel).1.steps, plan.steps),
    decreases fuel, 0int, 0int,
{
    if is_singleton(regs, id) {
    } else if regs[id].provider.lifetime == DependencyLifetime::Request && plan.slots[id] is Some {
    } else if fuel > 0 {
        lemma_needs_extend(regs, id, 0, Seq::empty(), plan, (fuel - 1) as nat);
    }
}

proof fn lemma_needs_extend(
    regs: Seq<ProviderRegistration>,
    id: int,
    k: int,
    bound: Seq<DependencySlot>,
    plan: RequestView,
    fuel: nat,
)
    ensures
        extends(request_needs(regs, id, k, bound, plan, fuel).1.steps, plan.steps),
    decreases fuel, 1int, needs(regs, id).len() - k,
{
    if k < needs(regs, id).len() {
        let d = need(regs, id, k)->Some_0 as int;
        lemma_slot_extends(regs, d, plan, fuel);
        let (slot, middle) = request_slot(regs, d, plan, fuel);
        lemma_needs_extend(regs, id, k + 1, bound.push(slot), middle, fuel);
        let after = request_needs(regs, id, k + 1, bound.push(slot), middle, fuel).1;
        assert forall|i: int| 0 <= i < plan.steps.len() implies #[trigger] after.steps[i]
            == plan.steps[i] by {
            assert(middle.steps[i] == plan.steps[i]);
        }
    }
}

/// What a valid graph builds for an invocation is sound: running its steps in
/// order finds every value that a step or the handler reads, a request-scoped
/// provider runs once, and no singleton runs again.
pub proof fn law_invocations_are_wired_soundly(
    regs: Seq<ProviderRegistration>,
    visible: Seq<Visible>,
    plugin: Seq<char>,
    operation: Seq<char>,
    requests: Seq<DependencyRequest>,
)
    requires
        registered(regs),
        graph_fault(regs) is None,
        regs.len() <= usize::MAX,
        forall|j: int| 0 <= j < visible.len() ==> (#[trigger] visible[j]).id < regs.len(),
    ensures
        handler_needs(
            regs,
            visible,
            plugin,
            operation,
            requests,
            0,
            Seq::empty(),
            nothing_built(regs),
        ) matches Ok((slots, plan)) ==> plan.steps.len() <= usize::MAX ==> {
            &&& sound_request(regs, plan)
            &&& slots.len() == requests.len()
            &&& forall|m: int|
                0 <= m < slots.len() ==> filled_before(
                    regs,
                    #[trigger] slots[m],
                    plan.steps.len() as int,
                )
        },
{
    law_valid_graphs_can_be_built(regs);
    let order = choose|order: Seq<int>| is_build_order(regs, order);
    crate::graph::lemma_order_fits(regs, order);
    assert(sound_request(regs, nothing_built(regs)));
    lemma_handler_needs(
        regs,
        order,
        visible,
        plugin,
        operation,
        requests,
        0,
        Seq::empty(),
        nothing_built(regs),
    );
}

proof fn lemma_handler_needs(
    regs: Seq<ProviderRegistration>,
    order: Seq<int>,
    visible: Seq<Visible>,
    plugin: Seq<char>,
    operation: Seq<char>,
    requests: Seq<DependencyRequest>,
    k: int,
    bound: Seq<DependencySlot>,
    plan: RequestView,
)
    requires
        registered(regs),
        is_build_order(regs, order),
        order.len() <= regs.len(),
        regs.len() <= usize::MAX,
        forall|j: int| 0 <= j < visible.len() ==> (#[trigger] visible[j]).id < regs.len(),
        0 <= k <= requests.len(),
        bound.len() == k,
        plan.steps.len() <= usize::MAX ==> sound_request(regs, plan) && forall|m: int|
            0 <= m < bound.len() ==> filled_before(
                regs,
                #[trigger] bound[m],
                plan.steps.len() as int,
            ),
    ensures
        handler_needs(
            regs,
            visible,
            plugin,
            operation,
            requests,
            k,
            bound,
            plan,
        ) matches Ok((slots, after)) ==> {
            &&& extends(after.steps, plan.steps)
            &&& slots.len() == requests.len()
            &&& after.steps.len() <= usize::MAX ==> sound_request(regs, after) && forall|m: int|
                0 <= m < slots.len() ==> filled_before(
                    regs,
                    #[trigger] slots[m],
                    after.steps.len() as int,
                )
        },
    decreases requests.len() - k,
{
    if k < requests.len() {
        crate::graph::lemma_found_is_seen(visible, requests[k].key.type_id);
        if let Some(found) = provider_of(visible, requests[k].key.type_id) {
            let id = found as int;
            let j = choose|j: int| 0 <= j < visible.len() && (#[trigger] visible[j]).id == found;
            assert(visible[j].id < regs.len());
            assert(order.contains(id));
            let (slot, middle) = request_slot(regs, id, plan, regs.len());
            lemma_slot_extends(regs, id, plan, regs.len());
            if plan.steps.len() <= usize::MAX {
                lemma_request_slot(regs, order, id, plan, regs.len());
            }
            let more = bound.push(slot);
            if middle.steps.len() <= usize::MAX {
                assert forall|m: int| 0 <= m < more.len() implies filled_before(
                    regs,
                    #[trigger] more[m],
                    middle.steps.len() as int,
                ) by {
                    if m < bound.len() {
                        assert(more[m] == bound[m]);
                    }
                }
            }
            lemma_handler_needs(
                regs,
                order,
                visible,
                plugin,
                operation,
                requests,
                k + 1,
                more,
                middle,
            );
            if let Ok((slots, after)) = handler_needs(
                regs,
                visible,
                plugin,
                operation,
                requests,
                k + 1,
                more,
                middle,
            ) {
                assert forall|i: int| 0 <= i < plan.steps.len() implies #[trigger] after.steps[i]
                    == plan.steps[i] by {
                    assert(middle.steps[i] == plan.steps[i]);
                }
            }
        }
    }
}

/// A provider has a step among the first so many.
pub open spec fn has_step(steps: Seq<StepView>, until: int, id: int) -> bool {
    exists|j: int| 0 <= j < until && (#[trigger] steps[j]).id == id
}

/// Singletons are built once, each behind everything that it depends on.
pub open spec fn sound_build(regs: Seq<ProviderRegistration>, steps: Seq<StepView>) -> bool {
    &&& forall|i: int|
        0 <= i < steps.len() ==> 0 <= (#[trigger] steps[i]).id < regs.len() && is_singleton(
            regs,
            steps[i].id,
        ) && steps[i].slots == singleton_needs(regs, steps[i].id)
    &&& forall|i: int, j: int|
        0 <= i < j < steps.len() ==> (#[trigger] steps[i]).id != (#[trigger] steps[j]).id
    &&& forall|i: int, k: int|
        #![trigger need(regs, steps[i].id, k)]
        0 <= i < steps.len() && 0 <= k < needs(regs, steps[i].id).len() ==> (need(
            regs,
            steps[i].id,
            k,
        ) matches Some(dependency) && has_step(steps, i, dependency as int))
}

/// What is marked as built has a step, and nothing else.
spec fn marks_steps(regs: Seq<ProviderRegistration>, plan: BuildView) -> bool {
    &&& plan.built.len() == regs.len()
    &&& forall|id: int|
        0 <= id < regs.len() ==> (#[trigger] plan.built[id] <==> has_step(
            plan.steps,
            plan.steps.len() as int,
            id,
        ))
}

proof fn lemma_has_step_grows(steps: Seq<StepView>, more: Seq<StepView>, until: int, id: int)
    requires
        extends(more, steps),
        0 <= until <= steps.len(),
        has_step(steps, until, id),
    ensures
        has_step(more, until, id),
        has_step(more, more.len() as int, id),
{
    let j = choose|j: int| 0 <= j < until && (#[trigger] steps[j]).id == id;
    assert(more[j].id == id);
}

proof fn lemma_build(
    regs: Seq<ProviderRegistration>,
    order: Seq<int>,
    id: int,
    plan: BuildView,
    fuel: nat,
)
    requires
        registered(regs),
        is_build_order(regs, order),
        0 <= id < regs.len(),
        is_singleton(regs, id),
        place_of(order, id) < fuel,
        sound_build(regs, plan.steps),
        marks_steps(regs, plan),
    ensures
        sound_build(regs, build(regs, id, plan, fuel).steps),
        marks_steps(regs, build(regs, id, plan, fuel)),
        extends(build(regs, id, plan, fuel).steps, plan.steps),
        build(regs, id, plan, fuel).built[id],
        forall|late: int|
            0 <= late < regs.len() && place_of(order, id) < place_of(order, late)
                ==> #[trigger] build(regs, id, plan, fuel).built[late] == plan.built[late],
    decreases fuel, 0int, 0int,
{
    assert(order.contains(id));
    if !plan.built[id] {
        lemma_build_needs(regs, order, id, 0, plan, (fuel - 1) as nat);
        let middle = build_needs(regs, id, 0, plan, (fuel - 1) as nat);
        let after = build(regs, id, plan, fuel);
        assert(middle.built[id] == plan.built[id]);
        let last = middle.steps.len() as int;
        assert(after.steps[last].id == id);
        assert(extends(after.steps, middle.steps));
        assert forall|other: int| 0 <= other < regs.len() implies (#[trigger] after.built[other]
            <==> has_step(after.steps, after.steps.len() as int, other)) by {
            if other != id {
                assert(after.built[other] == middle.built[other]);
                if middle.built[other] {
                    lemma_has_step_grows(middle.steps, after.steps, last, other);
                }
                if has_step(after.steps, after.steps.len() as int, other) {
                    let j = choose|j: int|
                        0 <= j < after.steps.len() && (#[trigger] after.steps[j]).id == other;
                    assert(middle.steps[j].id == other);
                }
            }
        }
        assert forall|i: int, j: int| 0 <= i < j < after.steps.len() implies (
        #[trigger] after.steps[i]).id != (#[trigger] after.steps[j]).id by {
            assert(after.steps[i] == middle.steps[i]);
            if j < last {
                assert(after.steps[j] == middle.steps[j]);
            } else if after.steps[i].id == id {
                assert(has_step(middle.steps, last, id));
            }
        }
        assert forall|i: int, k: int|
            #![trigger need(regs, after.steps[i].id, k)]
            0 <= i < after.steps.len() && 0 <= k < needs(regs, after.steps[i].id).len() implies (need(
            regs,
            after.steps[i].id,
            k,
        ) matches Some(dependency) && has_step(after.steps, i, dependency as int)) by {
            if i < last {
                assert(after.steps[i] == middle.steps[i]);
                assert(need(regs, middle.steps[i].id, k) is Some);
                let dependency = need(regs, middle.steps[i].id, k)->Some_0 as int;
                lemma_has_step_grows(middle.steps, after.steps, i, dependency);
            } else {
                lemma_need_stands_before(regs, order, id, k);
                let dependency = need(regs, id, k)->Some_0 as int;
                assert(middle.built[dependency]);
                lemma_has_step_grows(middle.steps, after.steps, last, dependency);
            }
        }
        assert forall|i: int| 0 <= i < after.steps.len() implies 0 <= (#[trigger] after.steps[i]).id
            < regs.len() && is_singleton(regs, after.steps[i].id) && after.steps[i].slots
            == singleton_needs(regs, after.steps[i].id) by {
            if i < last {
                assert(after.steps[i] == middle.steps[i]);
            }
        }
        assert forall|i: int| 0 <= i < plan.steps.len() implies #[trigger] after.steps[i]
            == plan.steps[i] by {
            assert(middle.steps[i] == plan.steps[i]);
        }
        assert forall|late: int|
            0 <= late < regs.len() && place_of(order, id) < place_of(
                order,
                late,
            ) implies #[trigger] after.built[late] == plan.built[late] by {
            assert(middle.built[late] == plan.built[late]);
        }
    }
}

proof fn lemma_build_needs(
    regs: Seq<ProviderRegistration>,
    order: Seq<int>,
    id: int,
    k: int,
    plan: BuildView,
    fuel: nat,
)
    requires
        registered(regs),
        is_build_order(regs, order),
        0 <= id < regs.len(),
        is_singleton(regs, id),
        0 <= k,
        place_of(order, id) <= fuel,
        sound_build(regs, plan.steps),
        marks_steps(regs, plan),
        forall|m: int|
            0 <= m < k && m < needs(regs, id).len() ==> plan.built[(#[trigger] need(
                regs,
                id,
                m,
            ))->Some_0 as int],
    ensures
        sound_build(regs, build_needs(regs, id, k, plan, fuel).steps),
        marks_steps(regs, build_needs(regs, id, k, plan, fuel)),
        extends(build_needs(regs, id, k, plan, fuel).steps, plan.steps),
        forall|m: int|
            0 <= m < needs(regs, id).len() ==> build_needs(regs, id, k, plan, fuel).built[(
            #[trigger] need(regs, id, m))->Some_0 as int],
        forall|late: int|
            0 <= late < regs.len() && place_of(order, id) <= place_of(order, late)
                ==> #[trigger] build_needs(regs, id, k, plan, fuel).built[late]
                == plan.built[late],
    decreases fuel, 1int, needs(regs, id).len() - k,
{
    if k < needs(regs, id).len() {
        lemma_need_stands_before(regs, order, id, k);
        let d = need(regs, id, k)->Some_0 as int;
        lemma_build(regs, order, d, plan, fuel);
        let middle = build(regs, d, plan, fuel);
        assert forall|m: int|
            0 <= m < k + 1 && m < needs(regs, id).len() implies middle.built[(#[trigger] need(
            regs,
            id,
            m,
        ))->Some_0 as int] by {
            if m < k {
                lemma_need_stands_before(regs, order, id, m);
                let e = need(regs, id, m)->Some_0 as int;
                assert(plan.built[e]);
                lemma_has_step_grows(
                    plan.steps,
                    middle.steps,
                    plan.steps.len() as int,
                    e,
                );
            }
        }
        lemma_build_needs(regs, order, id, k + 1, middle, fuel);
        let after = build_needs(regs, id, k + 1, middle, fuel);
        assert forall|i: int| 0 <= i < plan.steps.len() implies #[trigger] after.steps[i]
            == plan.steps[i] by {
            assert(middle.steps[i] == plan.steps[i]);
        }
        assert forall|late: int|
            0 <= late < regs.len() && place_of(order, id) <= place_of(
                order,
                late,
            ) implies #[trigger] after.built[late] == plan.built[late] by {
            assert(middle.built[late] == plan.built[late]);
        }
    }
}

proof fn lemma_build_all(
    regs: Seq<ProviderRegistration>,
    order: Seq<int>,
    id: int,
    plan: BuildView,
)
    requires
        registered(regs),
        is_build_order(regs, order),
        order.len() <= regs.len(),
        0 <= id <= regs.len(),
        sound_build(regs, plan.steps),
        marks_steps(regs, plan),
        forall|j: int|
            0 <= j < id && is_singleton(regs, j) ==> has_step(
                plan.steps,
                plan.steps.len() as int,
                j,
            ),
    ensures
        sound_build(regs, build_all(regs, id, plan).steps),
        forall|j: int|
            0 <= j < regs.len() && is_singleton(regs, j) ==> has_step(
                build_all(regs, id, plan).steps,
                build_all(regs, id, plan).steps.len() as int,
                j,
            ),
    decreases regs.len() - id,
{
    if id < regs.len() {
        assert(order.contains(id));
        if is_singleton(regs, id) {
            lemma_build(regs, order, id, plan, regs.len());
            let after = build(regs, id, plan, regs.len());
            assert forall|j: int| 0 <= j < id + 1 && is_singleton(regs, j) implies has_step(
                after.steps,
                after.steps.len() as int,
                j,
            ) by {
                if j < id {
                    lemma_has_step_grows(plan.steps, after.steps, plan.steps.len() as int, j);
                } else {
                    assert(after.built[id]);
                }
            }
            lemma_build_all(regs, order, id + 1, after);
        } else {
            lemma_build_all(regs, order, id + 1, plan);
        }
    }
}

/// The singletons of a valid graph are each built once, behind everything that
/// they depend on.
pub proof fn law_singletons_are_built_once_in_order(regs: Seq<ProviderRegistration>)
    requires
        registered(regs),
        graph_fault(regs) is None,
    ensures
        sound_build(regs, singleton_steps(regs)),
        forall|id: int|
            0 <= id < regs.len() && is_singleton(regs, id) ==> has_step(
                singleton_steps(regs),
                singleton_steps(regs).len() as int,
                id,
            ),
{
    law_valid_graphs_can_be_built(regs);
    let order = choose|order: Seq<int>| is_build_order(regs, order);
    crate::graph::lemma_order_fits(regs, order);
    let start = BuildView { built: Seq::new(regs.len(), |i: int| false), steps: Seq::empty() };
    lemma_build_all(regs, order, 0, start);
}

/// A slot holds the value of a provider: a singleton under its number, anything
/// else in the place of a step that runs it.
pub open spec fn holds_value_of(
    regs: Seq<ProviderRegistration>,
    steps: Seq<StepView>,
    slot: DependencySlot,
    id: int,
) -> bool {
    match slot {
        DependencySlot::Singleton(index) => regs[id].provider.lifetime is Singleton && index
            == singletons_before(regs, id),
        DependencySlot::Request(index) => index < steps.len() && steps[index as int].id == id,
    }
}

/// A slot holds the value of what was found.
pub open spec fn holds_found(
    regs: Seq<ProviderRegistration>,
    steps: Seq<StepView>,
    slot: DependencySlot,
    found: Option<usize>,
) -> bool {
    found matches Some(id) && holds_value_of(regs, steps, slot, id as int)
}

/// A step reads, in order, the values of the providers that its own provider asks
/// for.
pub open spec fn reads_its_needs(
    regs: Seq<ProviderRegistration>,
    steps: Seq<StepView>,
    step: StepView,
) -> bool {
    &&& step.slots.len() == regs[step.id].provider.dependencies@.len()
    &&& forall|m: int|
        0 <= m < step.slots.len() ==> holds_found(
            regs,
            steps,
            #[trigger] step.slots[m],
            provider_of(
                regs[step.id].visible@,
                regs[step.id].provider.dependencies@[m].type_id,
            ),
        )
}

/// Every step reads what its provider asks for.
pub open spec fn wired(regs: Seq<ProviderRegistration>, steps: Seq<StepView>) -> bool {
    forall|i: int| 0 <= i < steps.len() ==> reads_its_needs(regs, steps, #[trigger] steps[i])
}

/// Singletons are numbered in order of registration, each under a number of its
/// own.
pub proof fn law_singletons_have_their_own_number(
    regs: Seq<ProviderRegistration>,
    early: int,
    late: int,
)
    requires
        0 <= early < late < regs.len(),
        regs[early].provider.lifetime is Singleton,
    ensures
        singletons_before(regs, early) < singletons_before(regs, late),
        singletons_before(regs, 0) == 0,
{
    lemma_singletons_grow(regs, early + 1, late);
}

/// In a valid graph an invocation reads what it asks for: every slot of the handler
/// holds the value of the provider that the handler sees under that type, and every
/// step reads the values of the providers that its own provider sees.
pub proof fn law_invocations_read_what_they_ask_for(
    regs: Seq<ProviderRegistration>,
    visible: Seq<Visible>,
    plugin: Seq<char>,
    operation: Seq<char>,
    requests: Seq<DependencyRequest>,
)
    requires
        registered(regs),
        graph_fault(regs) is None,
        regs.len() <= usize::MAX,
        forall|j: int| 0 <= j < visible.len() ==> (#[trigger] visible[j]).id < regs.len(),
    ensures
        handler_needs(
            regs,
            visible,
            plugin,
            operation,
            requests,
            0,
            Seq::empty(),
            nothing_built(regs),
        ) matches Ok((slots, plan)) ==> plan.steps.len() <= usize::MAX ==> {
            &&& wired(regs, plan.steps)
            &&& slots.len() == requests.len()
            &&& forall|m: int|
                0 <= m < slots.len() ==> holds_found(
                    regs,
                    plan.steps,
                    #[trigger] slots[m],
                    provider_of(visible, requests[m].key.type_id),
                )
        },
{
    law_valid_graphs_can_be_built(regs);
    let order = choose|order: Seq<int>| is_build_order(regs, order);
    crate::graph::lemma_order_fits(regs, order);
    lemma_handler_reads(
        regs,
        order,
        visible,
        plugin,
        operation,
        requests,
        0,
        Seq::empty(),
        nothing_built(regs),
    );
}

/// A handler is refused for the first type that it asks for and cannot see.
pub proof fn law_unseen_types_are_refused(
    regs: Seq<ProviderRegistration>,
    visible: Seq<Visible>,
    plugin: Seq<char>,
    operation: Seq<char>,
    requests: Seq<DependencyRequest>,
    k: int,
    bound: Seq<DependencySlot>,
    plan: RequestView,
)
    requires
        0 <= k,
    ensures
        handler_needs(
            regs,
            visible,
            plugin,
            operation,
            requests,
            k,
            bound,
            plan,
        ) matches Err(fault) ==> exists|m: int|
            {
                &&& k <= m < requests.len()
                &&& provider_of(visible, (#[trigger] requests[m]).key.type_id) is None
                &&& fault == ExecutableFault::MissingProvider(
                    plugin,
                    operation,
                    requests[m].key.name@,
                )
            },
    decreases requests.len() - k,
{
    if k < requests.len() {
        if let Some(id) = provider_of(visible, requests[k].key.type_id) {
            let (slot, after) = request_slot(regs, id as int, plan, regs.len());
            law_unseen_types_are_refused(
                regs,
                visible,
                plugin,
                operation,
                requests,
                k + 1,
                bound.push(slot),
                after,
            );
        }
    }
}

proof fn lemma_still_holds(
    regs: Seq<ProviderRegistration>,
    steps: Seq<StepView>,
    more: Seq<StepView>,
)
    requires
        extends(more, steps),
    ensures
        forall|slot: DependencySlot, id: int|
            holds_value_of(regs, steps, slot, id) ==> #[trigger] holds_value_of(
                regs,
                more,
                slot,
                id,
            ),
{
}

proof fn lemma_slot_reads(
    regs: Seq<ProviderRegistration>,
    order: Seq<int>,
    id: int,
    plan: RequestView,
    fuel: nat,
)
    requires
        registered(regs),
        is_build_order(regs, order),
        regs.len() <= usize::MAX,
        0 <= id < regs.len(),
        place_of(order, id) < fuel,
        sound_request(regs, plan),
        wired(regs, plan.steps),
    ensures
        request_slot(regs, id, plan, fuel).1.steps.len() <= usize::MAX ==> {
            let (slot, after) = request_slot(regs, id, plan, fuel);
            wired(regs, after.steps) && holds_value_of(regs, after.steps, slot, id)
        },
    decreases fuel, 0int, 0int,
{
    assert(order.contains(id));
    lemma_slot_bound(regs, id);
    if is_singleton(regs, id) {
    } else if regs[id].provider.lifetime == DependencyLifetime::Request && plan.slots[id] is Some {
    } else {
        let none = Seq::<DependencySlot>::empty();
        let (slots, middle) = request_needs(regs, id, 0, none, plan, (fuel - 1) as nat);
        let (slot, after) = request_slot(regs, id, plan, fuel);
        if after.steps.len() <= usize::MAX {
            lemma_needs_read(regs, order, id, 0, none, plan, (fuel - 1) as nat);
            assert(extends(after.steps, middle.steps));
            lemma_still_holds(regs, middle.steps, after.steps);
            assert forall|i: int| 0 <= i < after.steps.len() implies reads_its_needs(
                regs,
                after.steps,
                #[trigger] after.steps[i],
            ) by {
                if i < middle.steps.len() {
                    assert(after.steps[i] == middle.steps[i]);
                    assert(reads_its_needs(regs, middle.steps, middle.steps[i]));
                } else {
                    assert(after.steps[i] == (StepView { id, slots }));
                    assert forall|m: int| 0 <= m < slots.len() implies holds_found(
                        regs,
                        after.steps,
                        #[trigger] slots[m],
                        need(regs, id, m),
                    ) by {
                        assert(holds_found(regs, middle.steps, slots[m], need(regs, id, m)));
                    }
                }
            }
        }
    }
}

proof fn lemma_needs_read(
    regs: Seq<ProviderRegistration>,
    order: Seq<int>,
    id: int,
    k: int,
    bound: Seq<DependencySlot>,
    plan: RequestView,
    fuel: nat,
)
    requires
        registered(regs),
        is_build_order(regs, order),
        regs.len() <= usize::MAX,
        0 <= id < regs.len(),
        0 <= k <= needs(regs, id).len(),
        bound.len() == k,
        place_of(order, id) <= fuel,
        sound_request(regs, plan),
        wired(regs, plan.steps),
        forall|m: int|
            0 <= m < bound.len() ==> holds_found(
                regs,
                plan.steps,
                #[trigger] bound[m],
                need(regs, id, m),
            ),
    ensures
        request_needs(regs, id, k, bound, plan, fuel).1.steps.len() <= usize::MAX ==> {
            let (slots, after) = request_needs(regs, id, k, bound, plan, fuel);
            &&& wired(regs, after.steps)
            &&& slots.len() == needs(regs, id).len()
            &&& forall|m: int|
                0 <= m < slots.len() ==> holds_found(
                    regs,
                    after.steps,
                    #[trigger] slots[m],
                    need(regs, id, m),
                )
        },
    decreases fuel, 1int, needs(regs, id).len() - k,
{
    if k < needs(regs, id).len() {
        lemma_need_stands_before(regs, order, id, k);
        let d = need(regs, id, k)->Some_0 as int;
        let (slot, middle) = request_slot(regs, d, plan, fuel);
        let more = bound.push(slot);
        lemma_needs_extend(regs, id, k + 1, more, middle, fuel);
        if request_needs(regs, id, k, bound, plan, fuel).1.steps.len() <= usize::MAX {
            lemma_request_slot(regs, order, d, plan, fuel);
            lemma_slot_reads(regs, order, d, plan, fuel);
            lemma_still_holds(regs, plan.steps, middle.steps);
            assert forall|m: int| 0 <= m < more.len() implies holds_found(
                regs,
                middle.steps,
                #[trigger] more[m],
                need(regs, id, m),
            ) by {
                if m < bound.len() {
                    assert(more[m] == bound[m]);
                    assert(holds_found(regs, plan.steps, bound[m], need(regs, id, m)));
                }
            }
            lemma_needs_read(regs, order, id, k + 1, more, middle, fuel);
        }
    }
}

proof fn lemma_handler_reads(
    regs: Seq<ProviderRegistration>,
    order: Seq<int>,
    visible: Seq<Visible>,
    plugin: Seq<char>,
    operation: Seq<char>,
    requests: Seq<DependencyRequest>,
    k: int,
    bound: Seq<DependencySlot>,
    plan: RequestView,
)
    requires
        registered(regs),
        is_build_order(regs, order),
        order.len() <= regs.len(),
        regs.len() <= usize::MAX,
        forall|j: int| 0 <= j < visible.len() ==> (#[trigger] visible[j]).id < regs.len(),
        0 <= k <= requests.len(),
        bound.len() == k,
        sound_request(regs, plan),
        wired(regs, plan.steps),
        forall|m: int|
            0 <= m < bound.len() ==> holds_found(
                regs,
                plan.steps,
                #[trigger] bound[m],
                provider_of(visible, requests[m].key.type_id),
            ),
    ensures
        handler_needs(
            regs,
            visible,
            plugin,
            operation,
            requests,
            k,
            bound,
            plan,
        ) matches Ok((slots, after)) ==> {
            &&& extends(after.steps, plan.steps)
            &&& after.steps.len() <= usize::MAX ==> {
                &&& wired(regs, after.steps)
                &&& slots.len() == requests.len()
                &&& forall|m: int|
                    0 <= m < slots.len() ==> holds_found(
                        regs,
                        after.steps,
                        #[trigger] slots[m],
                        provider_of(visible, requests[m].key.type_id),
                    )
            }
        },
    decreases requests.len() - k,
{
    if k < requests.len() {
        crate::graph::lemma_found_is_seen(visible, requests[k].key.type_id);
        if let Some(found) = provider_of(visible, requests[k].key.type_id) {
            let id = found as int;
            let j = choose|j: int| 0 <= j < visible.len() && (#[trigger] visible[j]).id == found;
            assert(visible[j].id < regs.len());
            assert(order.contains(id));
            let (slot, middle) = request_slot(regs, id, plan, regs.len());
            let more = bound.push(slot);
            lemma_request_slot(regs, order, id, plan, regs.len());
            lemma_slot_reads(regs, order, id, plan, regs.len());
            if middle.steps.len() <= usize::MAX {
                lemma_still_holds(regs, plan.steps, middle.steps);
                assert forall|m: int| 0 <= m < more.len() implies holds_found(
                    regs,
                    middle.steps,
                    #[trigger] more[m],
                    provider_of(visible, requests[m].key.type_id),
                ) by {
                    if m < bound.len() {
                        assert(more[m] == bound[m]);
                        assert(holds_found(
                            regs,
                            plan.steps,
                            bound[m],
                            provider_of(visible, requests[m].key.type_id),
                        ));
                    }
                }
                lemma_handler_reads(
                    regs,
                    order,
                    visible,
                    plugin,
                    operation,
                    requests,
                    k + 1,
                    more,
                    middle,
                );
            } else {
                lemma_handler_extends(
                    regs,
                    visible,
                    plugin,
                    operation,
                    requests,
                    k + 1,
                    more,
                    middle,
                );
            }
        }
    }
}

proof fn lemma_handler_extends(
    regs: Seq<ProviderRegistration>,
    visible: Seq<Visible>,
    plugin: Seq<char>,
    operation: Seq<char>,
    requests: Seq<DependencyRequest>,
    k: int,
    bound: Seq<DependencySlot>,
    plan: RequestView,
)
    ensures
        handler_needs(
            regs,
            visible,
            plugin,
            operation,
            requests,
            k,
            bound,
            plan,
        ) matches Ok((slots, after)) ==> extends(after.steps, plan.steps),
    decreases requests.len() - k,
{
    if k < requests.len() {
        if let Some(found) = provider_of(visible, requests[k].key.type_id) {
            let (slot, middle) = request_slot(regs, found as int, plan, regs.len());
            lemma_slot_extends(regs, found as int, plan, regs.len());
            lemma_handler_extends(
                regs,
                visible,
                plugin,
                operation,
                requests,
                k + 1,
                bound.push(slot),
                middle,
            );
        }
    }
}

} // verus!
