//! The graph of dependency providers: that it can be built, and in which order.
use crate::application::{fault_message, BuildError, BuildFault};
use crate::operation::texts;
use crate::dependency::{DependencyKey, DependencyLifetime, Provider};
use vstd::prelude::*;
use vstd::string::*;

verus! {

// ---------------------------------------------------------------------------
// Registrations
// ---------------------------------------------------------------------------

/// One provider that a scope sees, by the number of its type.
#[derive(Clone, Copy, Debug, PartialEq, Eq)]
pub struct Visible {
    pub type_id: u64,
    pub id: usize,
}

/// A provider with what its scope sees.
#[derive(Clone, Debug, PartialEq, Eq)]
pub struct ProviderRegistration {
    pub provider: Provider,
    pub visible: Vec<Visible>,
    pub plugin: String,
}

/// The provider that a scope sees for a type. A later one shadows an earlier.
pub open spec fn provider_of(visible: Seq<Visible>, type_id: u64) -> Option<usize>
    decreases visible.len(),
{
    if visible.len() == 0 {
        None
    } else if visible.last().type_id == type_id {
        Some(visible.last().id)
    } else {
        provider_of(visible.drop_last(), type_id)
    }
}

/// Everything that the scopes see is registered.
pub open spec fn registered(regs: Seq<ProviderRegistration>) -> bool {
    forall|i: int, j: int|
        0 <= i < regs.len() && 0 <= j < regs[i].visible@.len() ==> (
        #[trigger] regs[i].visible@[j]).id < regs.len()
}

/// The dependencies of a provider.
pub open spec fn needs(regs: Seq<ProviderRegistration>, id: int) -> Seq<DependencyKey> {
    regs[id].provider.dependencies@
}

/// The provider of a dependency, as the scope of the provider that has it sees
/// it.
pub open spec fn need(regs: Seq<ProviderRegistration>, id: int, k: int) -> Option<usize> {
    provider_of(regs[id].visible@, needs(regs, id)[k].type_id)
}

/// The name of what a registration provides.
pub open spec fn provides(regs: Seq<ProviderRegistration>, id: int) -> Seq<char> {
    regs[id].provider.key.name@
}

/// Looks up the provider that a scope sees for a type.
pub fn find_provider(visible: &Vec<Visible>, type_id: u64) -> (found: Option<usize>)
    ensures
        found == provider_of(visible@, type_id),
        found matches Some(id) ==> exists|j: int|
            0 <= j < visible@.len() && (#[trigger] visible@[j]).id == id,
{
    let mut index: usize = visible.len();
    assert(visible@.take(index as int) =~= visible@);
    while index > 0
        invariant
            index <= visible@.len(),
            provider_of(visible@, type_id) == provider_of(visible@.take(index as int), type_id),
        decreases index,
    {
        proof {
            assert(visible@.take(index as int).last() == visible@[index - 1]);
            assert(visible@.take(index as int).drop_last() =~= visible@.take(index - 1));
        }
        if visible[index - 1].type_id == type_id {
            return Some(visible[index - 1].id);
        }
        index -= 1;
    }
    None
}

pub proof fn lemma_found_is_registered(regs: Seq<ProviderRegistration>, id: int, type_id: u64)
    requires
        registered(regs),
        0 <= id < regs.len(),
    ensures
        provider_of(regs[id].visible@, type_id) matches Some(found) ==> found < regs.len(),
{
    lemma_found_is_seen(regs[id].visible@, type_id);
    if let Some(found) = provider_of(regs[id].visible@, type_id) {
        let j = choose|j: int|
            0 <= j < regs[id].visible@.len() && (#[trigger] regs[id].visible@[j]).id == found;
        assert(regs[id].visible@[j].id < regs.len());
    }
}

pub proof fn lemma_found_is_seen(visible: Seq<Visible>, type_id: u64)
    ensures
        provider_of(visible, type_id) matches Some(found) ==> exists|j: int|
            0 <= j < visible.len() && (#[trigger] visible[j]).id == found,
    decreases visible.len(),
{
    if visible.len() > 0 {
        if visible.last().type_id == type_id {
            assert(visible[visible.len() - 1].id == visible.last().id);
        } else {
            lemma_found_is_seen(visible.drop_last(), type_id);
            if let Some(found) = provider_of(visible, type_id) {
                let j = choose|j: int|
                    0 <= j < visible.drop_last().len() && (#[trigger] visible.drop_last()[j]).id
                        == found;
                assert(visible[j].id == found);
            }
        }
    }
}

// ---------------------------------------------------------------------------
// Failures
// ---------------------------------------------------------------------------

/// An application-definition or dependency-compilation failure.
#[derive(Debug)]
#[allow(inconsistent_fields)]
pub enum ExecutableBuildError {
    Definition(BuildError),
    InvalidPluginName { plugin: String },
    DuplicateProvider { plugin: String, dependency: String },
    MissingProvider { plugin: String, consumer: String, dependency: String },
    ProviderCycle { plugin: String, dependencies: Vec<String> },
    InvalidLifetime { plugin: String, singleton: String, shorter_lived_dependency: String },
    ProviderCompilation { plugin: String, dependency: String, message: String },
    SingletonProviderFailed { plugin: String, dependency: String, message: String },
    UnknownProviderOverride { plugin: Option<String>, dependency: String },
}

/// What a failure says.
pub enum ExecutableFault {
    Definition(BuildFault),
    InvalidPluginName(Seq<char>),
    DuplicateProvider(Seq<char>, Seq<char>),
    MissingProvider(Seq<char>, Seq<char>, Seq<char>),
    ProviderCycle(Seq<char>, Seq<Seq<char>>),
    InvalidLifetime(Seq<char>, Seq<char>, Seq<char>),
    ProviderCompilation(Seq<char>, Seq<char>, Seq<char>),
    SingletonProviderFailed(Seq<char>, Seq<char>, Seq<char>),
    UnknownProviderOverride(Option<Seq<char>>, Seq<char>),
}

impl View for ExecutableBuildError {
    type V = ExecutableFault;

    open spec fn view(&self) -> ExecutableFault {
        match self {
            ExecutableBuildError::Definition(error) => ExecutableFault::Definition(error@),
            ExecutableBuildError::InvalidPluginName { plugin } =>
                ExecutableFault::InvalidPluginName(plugin@),
            ExecutableBuildError::DuplicateProvider { plugin, dependency } =>
                ExecutableFault::DuplicateProvider(plugin@, dependency@),
            ExecutableBuildError::MissingProvider { plugin, consumer, dependency } =>
                ExecutableFault::MissingProvider(plugin@, consumer@, dependency@),
            ExecutableBuildError::ProviderCycle { plugin, dependencies } =>
                ExecutableFault::ProviderCycle(
                plugin@,
                texts(dependencies@),
            ),
            ExecutableBuildError::InvalidLifetime {
                plugin,
                singleton,
                shorter_lived_dependency,
            } => ExecutableFault::InvalidLifetime(
                plugin@,
                singleton@,
                shorter_lived_dependency@,
            ),
            ExecutableBuildError::ProviderCompilation { plugin, dependency, message } =>
                ExecutableFault::ProviderCompilation(plugin@, dependency@, message@),
            ExecutableBuildError::SingletonProviderFailed { plugin, dependency, message } =>
                ExecutableFault::SingletonProviderFailed(plugin@, dependency@, message@),
            ExecutableBuildError::UnknownProviderOverride { plugin, dependency } =>
                ExecutableFault::UnknownProviderOverride(
                crate::operation::opt_text(*plugin),
                dependency@,
            ),
        }
    }
}

/// Names joined by arrows.
pub open spec fn arrowed(names: Seq<Seq<char>>) -> Seq<char>
    decreases names.len(),
{
    if names.len() == 0 {
        Seq::empty()
    } else if names.len() == 1 {
        names[0]
    } else {
        arrowed(names.drop_last()) + " -> "@ + names.last()
    }
}

/// A failure as shown to people.
pub open spec fn executable_fault_text(fault: ExecutableFault) -> Seq<char> {
    match fault {
        ExecutableFault::Definition(fault) => fault_message(fault),
        ExecutableFault::InvalidPluginName(plugin) => "invalid plugin name `"@ + plugin + "`"@,
        ExecutableFault::DuplicateProvider(plugin, dependency) => "plugin `"@ + plugin
            + "` registers dependency `"@ + dependency + "` more than once"@,
        ExecutableFault::MissingProvider(plugin, consumer, dependency) => "plugin `"@ + plugin
            + "` cannot resolve dependency `"@ + dependency + "` required by `"@ + consumer + "`"@,
        ExecutableFault::ProviderCycle(plugin, dependencies) => "plugin `"@ + plugin
            + "` contains a dependency cycle: "@ + arrowed(dependencies),
        ExecutableFault::InvalidLifetime(plugin, singleton, shorter) => "singleton `"@ + singleton
            + "` in plugin `"@ + plugin + "` cannot depend on shorter-lived `"@ + shorter + "`"@,
        ExecutableFault::ProviderCompilation(plugin, dependency, message) => "provider `"@
            + dependency + "` in plugin `"@ + plugin + "` could not be compiled: "@ + message,
        ExecutableFault::SingletonProviderFailed(plugin, dependency, message) =>
            "singleton provider `"@ + dependency + "` in plugin `"@ + plugin + "` failed: "@
            + message,
        ExecutableFault::UnknownProviderOverride(plugin, dependency) => match plugin {
            Some(plugin) => "test override for `"@ + dependency
                + "` targets unknown plugin scope `"@ + plugin + "`"@,
            None => "test override for `"@ + dependency
                + "` did not match a registered provider"@,
        },
    }
}

fn join_arrows(names: &Vec<String>) -> (text: String)
    ensures
        text@ == arrowed(texts(names@)),
{
    let ghost all = texts(names@);
    let mut text = "".to_owned();
    let mut index: usize = 0;
    proof {
        reveal_strlit("");
        assert(all.take(0) =~= Seq::empty());
        assert(text@ =~= Seq::empty());
    }
    while index < names.len()
        invariant
            index <= names@.len(),
            all == texts(names@),
            text@ == arrowed(all.take(index as int)),
        decreases names@.len() - index,
    {
        proof {
            assert(all.take(index + 1).drop_last() =~= all.take(index as int));
            assert(all.take(index + 1).last() == names@[index as int]@);
        }
        if index > 0 {
            text.append(" -> ");
        }
        text.append(names[index].as_str());
        proof {
            if index == 0 {
                assert(text@ =~= names@[0]@);
            }
        }
        index += 1;
    }
    assert(all.take(index as int) =~= all);
    text
}

impl ExecutableBuildError {
    /// The failure as shown to people.
    #[must_use]
    pub fn to_string(&self) -> (text: String)
        ensures
            text@ == executable_fault_text(self@),
    {
        let mut text = String::new();
        match self {
            ExecutableBuildError::Definition(error) => {
                return error.to_string();
            },
            ExecutableBuildError::InvalidPluginName { plugin } => {
                text.append("invalid plugin name `");
                text.append(plugin.as_str());
                text.append("`");
            },
            ExecutableBuildError::DuplicateProvider { plugin, dependency } => {
                text.append("plugin `");
                text.append(plugin.as_str());
                text.append("` registers dependency `");
                text.append(dependency.as_str());
                text.append("` more than once");
            },
            ExecutableBuildError::MissingProvider { plugin, consumer, dependency } => {
                text.append("plugin `");
                text.append(plugin.as_str());
                text.append("` cannot resolve dependency `");
                text.append(dependency.as_str());
                text.append("` required by `");
                text.append(consumer.as_str());
                text.append("`");
            },
            ExecutableBuildError::ProviderCycle { plugin, dependencies } => {
                text.append("plugin `");
                text.append(plugin.as_str());
                text.append("` contains a dependency cycle: ");
                text.append(join_arrows(dependencies).as_str());
            },
            ExecutableBuildError::InvalidLifetime {
                plugin,
                singleton,
                shorter_lived_dependency,
            } => {
                text.append("singleton `");
                text.append(singleton.as_str());
                text.append("` in plugin `");
                text.append(plugin.as_str());
                text.append("` cannot depend on shorter-lived `");
                text.append(shorter_lived_dependency.as_str());
                text.append("`");
            },
            ExecutableBuildError::ProviderCompilation { plugin, dependency, message } => {
                text.append("provider `");
                text.append(dependency.as_str());
                text.append("` in plugin `");
                text.append(plugin.as_str());
                text.append("` could not be compiled: ");
                text.append(message.as_str());
            },
            ExecutableBuildError::SingletonProviderFailed { plugin, dependency, message } => {
                text.append("singleton provider `");
                text.append(dependency.as_str());
                text.append("` in plugin `");
                text.append(plugin.as_str());
                text.append("` failed: ");
                text.append(message.as_str());
            },
            ExecutableBuildError::UnknownProviderOverride { plugin, dependency } => {
                text.append("test override for `");
                text.append(dependency.as_str());
                match plugin {
                    Some(plugin) => {
                        text.append("` targets unknown plugin scope `");
                        text.append(plugin.as_str());
                        text.append("`");
                    },
                    None => {
                        text.append("` did not match a registered provider");
                    },
                }
            },
        }
        assert(text@ =~= executable_fault_text(self@));
        text
    }
}

// ---------------------------------------------------------------------------
// Validation
// ---------------------------------------------------------------------------

/// A provider that is not visited, being visited, or visited.
pub const UNSEEN: u8 = 0;

pub const OPEN: u8 = 1;

pub const SETTLED: u8 = 2;

/// The first position of a provider in a list, or the first of all.
pub open spec fn place_in(stack: Seq<int>, id: int) -> int
    decreases stack.len(),
{
    if stack.len() == 0 {
        0
    } else if stack[0] == id {
        0
    } else if stack.contains(id) {
        place_in(stack.drop_first(), id) + 1
    } else {
        0
    }
}

/// The names of providers.
pub open spec fn names_of(regs: Seq<ProviderRegistration>, ids: Seq<int>) -> Seq<Seq<char>> {
    ids.map_values(|id: int| provides(regs, id))
}

/// The fault of a provider that is reached while it is being visited: the
/// providers from its place on, and itself again.
pub open spec fn cycle_fault(
    regs: Seq<ProviderRegistration>,
    id: int,
    stack: Seq<int>,
) -> ExecutableFault {
    ExecutableFault::ProviderCycle(
        regs[id].plugin@,
        names_of(regs, stack.skip(place_in(stack, id)).push(id)),
    )
}

/// A dependency lives long enough for the provider that has it.
pub open spec fn lives_long_enough(
    regs: Seq<ProviderRegistration>,
    id: int,
    dependency: int,
) -> bool {
    regs[id].provider.lifetime == DependencyLifetime::Singleton
        ==> regs[dependency].provider.lifetime == DependencyLifetime::Singleton
}

/// Visits a provider: its dependencies first. What comes of it is which
/// providers are settled, or the first fault that is met.
pub open spec fn visit(
    regs: Seq<ProviderRegistration>,
    id: int,
    states: Seq<u8>,
    stack: Seq<int>,
) -> Result<Seq<u8>, ExecutableFault>
    decreases regs.len() - stack.len(), 0int, 0int,
{
    if states[id] == SETTLED {
        Ok(states)
    } else if states[id] == OPEN || stack.len() >= regs.len() {
        Err(cycle_fault(regs, id, stack))
    } else {
        match visit_needs(regs, id, 0, states.update(id, OPEN), stack.push(id)) {
            Err(fault) => Err(fault),
            Ok(after) => Ok(after.update(id, SETTLED)),
        }
    }
}

/// Visits the dependencies of a provider from one on.
pub open spec fn visit_needs(
    regs: Seq<ProviderRegistration>,
    id: int,
    k: int,
    states: Seq<u8>,
    stack: Seq<int>,
) -> Result<Seq<u8>, ExecutableFault>
    decreases regs.len() - stack.len(), 1int, needs(regs, id).len() - k,
{
    if k >= needs(regs, id).len() {
        Ok(states)
    } else {
        match need(regs, id, k) {
            None => Err(
                ExecutableFault::MissingProvider(
                    regs[id].plugin@,
                    provides(regs, id),
                    needs(regs, id)[k].name@,
                ),
            ),
            Some(dependency) => if !lives_long_enough(regs, id, dependency as int) {
                Err(
                    ExecutableFault::InvalidLifetime(
                        regs[id].plugin@,
                        provides(regs, id),
                        needs(regs, id)[k].name@,
                    ),
                )
            } else {
                match visit(regs, dependency as int, states, stack) {
                    Err(fault) => Err(fault),
                    Ok(after) => visit_needs(regs, id, k + 1, after, stack),
                }
            },
        }
    }
}

/// Visits all providers from one on.
pub open spec fn visit_all(
    regs: Seq<ProviderRegistration>,
    id: int,
    states: Seq<u8>,
) -> Result<Seq<u8>, ExecutableFault>
    decreases regs.len() - id,
{
    if id >= regs.len() {
        Ok(states)
    } else {
        match visit(regs, id, states, Seq::empty()) {
            Err(fault) => Err(fault),
            Ok(after) => visit_all(regs, id + 1, after),
        }
    }
}

/// What validating a graph comes to.
pub open spec fn graph_fault(regs: Seq<ProviderRegistration>) -> Option<ExecutableFault> {
    match visit_all(regs, 0, Seq::new(regs.len(), |i: int| UNSEEN)) {
        Ok(_) => None,
        Err(fault) => Some(fault),
    }
}

/// The providers being visited are open, each once.
pub open spec fn is_stack(regs: Seq<ProviderRegistration>, states: Seq<u8>, stack: Seq<int>) -> bool {
    &&& states.len() == regs.len()
    &&& stack.no_duplicates()
    &&& forall|i: int|
        0 <= i < stack.len() ==> 0 <= #[trigger] stack[i] < regs.len() && states[stack[i]] == OPEN
    &&& forall|j: int| 0 <= j < states.len() && #[trigger] states[j] == OPEN ==> stack.contains(j)
    &&& forall|j: int|
        0 <= j < states.len() ==> #[trigger] states[j] == UNSEEN || states[j] == OPEN || states[j]
            == SETTLED
}

/// What was open stays open, what was settled stays settled, and nothing else
/// becomes open.
pub open spec fn grows(before: Seq<u8>, after: Seq<u8>) -> bool {
    &&& before.len() == after.len()
    &&& forall|j: int|
        0 <= j < before.len() ==> (before[j] == OPEN <==> #[trigger] after[j] == OPEN)
    &&& forall|j: int|
        0 <= j < before.len() && before[j] == SETTLED ==> #[trigger] after[j] == SETTLED
    &&& forall|j: int|
        0 <= j < before.len() && before[j] <= SETTLED ==> #[trigger] after[j] <= SETTLED
}

proof fn lemma_visit_needs_grows(
    regs: Seq<ProviderRegistration>,
    id: int,
    k: int,
    states: Seq<u8>,
    stack: Seq<int>,
)
    requires
        registered(regs),
        0 <= id < regs.len(),
        states.len() == regs.len(),
        0 <= k,
    ensures
        visit_needs(regs, id, k, states, stack) matches Ok(after) ==> grows(states, after),
    decreases regs.len() - stack.len(), 1int, needs(regs, id).len() - k,
{
    if k < needs(regs, id).len() {
        lemma_found_is_registered(regs, id, needs(regs, id)[k].type_id);
        if let Some(dependency) = need(regs, id, k) {
            let d = dependency as int;
            if lives_long_enough(regs, id, d) {
                lemma_visit_grows(regs, d, states, stack);
                if let Ok(middle) = visit(regs, d, states, stack) {
                    lemma_visit_needs_grows(regs, id, k + 1, middle, stack);
                    if let Ok(after) = visit_needs(regs, id, k + 1, middle, stack) {
                        assert forall|j: int| 0 <= j < states.len() implies (states[j] == OPEN
                            <==> #[trigger] after[j] == OPEN) by {
                            assert(states[j] == OPEN <==> middle[j] == OPEN);
                        }
                        assert forall|j: int|
                            0 <= j < states.len() && states[j] == SETTLED implies #[trigger] after[j]
                            == SETTLED by {
                            assert(middle[j] == SETTLED);
                        }
                        assert forall|j: int|
                            0 <= j < states.len() && states[j] <= SETTLED implies #[trigger] after[j]
                            <= SETTLED by {
                            assert(middle[j] <= SETTLED);
                        }
                    }
                }
            }
        }
    }
}

proof fn lemma_visit_grows(
    regs: Seq<ProviderRegistration>,
    id: int,
    states: Seq<u8>,
    stack: Seq<int>,
)
    requires
        registered(regs),
        0 <= id < regs.len(),
        states.len() == regs.len(),
    ensures
        visit(regs, id, states, stack) matches Ok(after) ==> grows(states, after) && after[id]
            == SETTLED,
    decreases regs.len() - stack.len(), 0int, 1int,
{
    if states[id] != SETTLED && states[id] != OPEN && stack.len() < regs.len() {
        lemma_visit_needs_grows(regs, id, 0, states.update(id, OPEN), stack.push(id));
        if let Ok(after) = visit_needs(regs, id, 0, states.update(id, OPEN), stack.push(id)) {
            let done = after.update(id, SETTLED);
            let open = states.update(id, OPEN);
            assert forall|j: int| 0 <= j < states.len() implies (states[j] == OPEN
                <==> #[trigger] done[j] == OPEN) by {
                if j != id {
                    assert(open[j] == OPEN <==> after[j] == OPEN);
                }
            }
            assert forall|j: int|
                0 <= j < states.len() && states[j] == SETTLED implies #[trigger] done[j]
                == SETTLED by {
                if j != id {
                    assert(open[j] == SETTLED);
                    assert(after[j] == SETTLED);
                }
            }
            assert forall|j: int|
                0 <= j < states.len() && states[j] <= SETTLED implies #[trigger] done[j]
                <= SETTLED by {
                if j != id {
                    assert(open[j] <= SETTLED);
                    assert(after[j] <= SETTLED);
                }
            }
        }
    }
}

/// A list of different providers is no longer than there are providers.
proof fn lemma_stack_fits(stack: Seq<int>, count: nat)
    requires
        stack.no_duplicates(),
        forall|i: int| 0 <= i < stack.len() ==> 0 <= #[trigger] stack[i] < count,
    ensures
        stack.len() <= count,
{
    let all = vstd::set_lib::set_int_range(0, count as int);
    vstd::set_lib::lemma_int_range(0, count as int);
    stack.unique_seq_to_set();
    assert forall|x: int| stack.to_set().contains(x) implies all.contains(x) by {
        let i = stack.index_of(x);
        assert(stack[i] == x);
    }
    vstd::set_lib::lemma_len_subset(stack.to_set(), all);
}

/// An unseen provider finds room on the stack.
proof fn lemma_room_for_unseen(
    regs: Seq<ProviderRegistration>,
    states: Seq<u8>,
    stack: Seq<int>,
    id: int,
)
    requires
        is_stack(regs, states, stack),
        0 <= id < regs.len(),
        states[id] == UNSEEN,
    ensures
        stack.len() < regs.len(),
        is_stack(regs, states.update(id, OPEN), stack.push(id)),
{
    let open = states.update(id, OPEN);
    let pushed = stack.push(id);
    assert forall|i: int| 0 <= i < pushed.len() implies 0 <= #[trigger] pushed[i] < regs.len()
        && open[pushed[i]] == OPEN by {
        if i < stack.len() {
            assert(pushed[i] == stack[i]);
        }
    }
    assert forall|i: int, j: int|
        0 <= i < pushed.len() && 0 <= j < pushed.len() && i != j implies pushed[i]
        != pushed[j] by {
        if i < stack.len() {
            assert(states[stack[i]] == OPEN);
        }
        if j < stack.len() {
            assert(states[stack[j]] == OPEN);
        }
    }
    assert forall|j: int| 0 <= j < open.len() && #[trigger] open[j] == OPEN implies pushed.contains(
        j,
    ) by {
        if j == id {
            assert(pushed[stack.len() as int] == id);
        } else {
            assert(states[j] == OPEN);
            let i = stack.index_of(j);
            assert(pushed[i] == j);
        }
    }
    assert forall|j: int| 0 <= j < open.len() implies #[trigger] open[j] == UNSEEN || open[j]
        == OPEN || open[j] == SETTLED by {
        assert(states[j] == UNSEEN || states[j] == OPEN || states[j] == SETTLED);
    }
    lemma_stack_fits(pushed, regs.len());
}

/// Growing keeps the stack a stack.
proof fn lemma_stack_kept(
    regs: Seq<ProviderRegistration>,
    before: Seq<u8>,
    after: Seq<u8>,
    stack: Seq<int>,
)
    requires
        is_stack(regs, before, stack),
        grows(before, after),
    ensures
        is_stack(regs, after, stack),
{
    assert forall|i: int| 0 <= i < stack.len() implies 0 <= #[trigger] stack[i] < regs.len()
        && after[stack[i]] == OPEN by {
        assert(before[stack[i]] == OPEN);
    }
    assert forall|j: int| 0 <= j < after.len() && #[trigger] after[j] == OPEN implies stack.contains(
        j,
    ) by {
        assert(before[j] == OPEN);
    }
    assert forall|j: int| 0 <= j < after.len() implies #[trigger] after[j] == UNSEEN || after[j]
        == OPEN || after[j] == SETTLED by {
        assert(before[j] <= SETTLED);
    }
}

proof fn lemma_place_in(stack: Seq<int>, id: int)
    ensures
        0 <= place_in(stack, id) <= stack.len(),
        stack.contains(id) ==> place_in(stack, id) < stack.len() && stack[place_in(stack, id)]
            == id && forall|i: int| 0 <= i < place_in(stack, id) ==> #[trigger] stack[i] != id,
    decreases stack.len(),
{
    if stack.len() > 0 && stack[0] != id && stack.contains(id) {
        let k = stack.index_of(id);
        assert(stack.drop_first()[k - 1] == id);
        lemma_place_in(stack.drop_first(), id);
        let p = place_in(stack.drop_first(), id);
        assert(stack[p + 1] == stack.drop_first()[p]);
        assert forall|i: int| 0 <= i < p + 1 implies #[trigger] stack[i] != id by {
            if i > 0 {
                assert(stack[i] == stack.drop_first()[i - 1]);
            }
        }
    }
}

/// What a list of positions says.
pub open spec fn positions(list: Seq<usize>) -> Seq<int> {
    list.map_values(|id: usize| id as int)
}

fn cycle_error(registrations: &Vec<ProviderRegistration>, id: usize, stack: &Vec<usize>) -> (error:
    ExecutableBuildError)
    requires
        id < registrations@.len(),
        forall|i: int| 0 <= i < stack@.len() ==> (#[trigger] stack@[i]) < registrations@.len(),
        positions(stack@).contains(id as int),
    ensures
        error@ == cycle_fault(registrations@, id as int, positions(stack@)),
{
    let ghost all = positions(stack@);
    proof {
        lemma_place_in(all, id as int);
    }
    let held: usize = stack.len();
    let mut start: usize = 0;
    while stack[start] != id
        invariant
            held == stack@.len(),
            0 <= start < stack@.len(),
            all == positions(stack@),
            all.len() == stack@.len(),
            start <= place_in(all, id as int) < stack@.len(),
            all[place_in(all, id as int)] == id as int,
            forall|i: int| 0 <= i < start ==> #[trigger] all[i] != id as int,
        decreases stack@.len() - start,
    {
        assert(all[start as int] == stack@[start as int] as int);
        assert(start < held);
        start += 1;
    }
    assert(all[start as int] == stack@[start as int] as int);
    proof {
        if start < place_in(all, id as int) {
            lemma_place_in(all, id as int);
            assert(all[start as int] != id as int);
        }
    }
    let ghost cycle = all.skip(start as int).push(id as int);
    let mut dependencies: Vec<String> = Vec::new();
    let mut index: usize = start;
    while index < stack.len()
        invariant
            start <= index <= stack@.len(),
            all == positions(stack@),
            cycle == all.skip(start as int).push(id as int),
            forall|i: int| 0 <= i < stack@.len() ==> (#[trigger] stack@[i]) < registrations@.len(),
            dependencies@.len() == index - start,
            forall|i: int|
                0 <= i < dependencies@.len() ==> (#[trigger] dependencies@[i])@ == provides(
                    registrations@,
                    cycle[i],
                ),
        decreases stack@.len() - index,
    {
        assert(cycle[index - start] == stack@[index as int] as int);
        dependencies.push(registrations[stack[index]].provider.key.name.to_owned());
        index += 1;
    }
    dependencies.push(registrations[id].provider.key.name.to_owned());
    proof {
        assert(cycle[cycle.len() - 1] == id as int);
        assert(texts(dependencies@) =~= names_of(registrations@, cycle));
    }
    ExecutableBuildError::ProviderCycle {
        plugin: registrations[id].plugin.clone(),
        dependencies,
    }
}

fn validate_provider(
    id: usize,
    registrations: &Vec<ProviderRegistration>,
    states: &mut Vec<u8>,
    stack: &mut Vec<usize>,
) -> (validated: Result<(), ExecutableBuildError>)
    requires
        registered(registrations@),
        id < registrations@.len(),
        is_stack(registrations@, old(states)@, positions(old(stack)@)),
    ensures
        match validated {
            Ok(_) => {
                &&& visit(
                    registrations@,
                    id as int,
                    old(states)@,
                    positions(old(stack)@),
                ) == Ok::<Seq<u8>, ExecutableFault>(final(states)@)
                &&& final(stack)@ == old(stack)@
                &&& is_stack(registrations@, final(states)@, positions(final(stack)@))
            },
            Err(error) => visit(
                registrations@,
                id as int,
                old(states)@,
                positions(old(stack)@),
            ) == Err::<Seq<u8>, ExecutableFault>(error@),
        },
    decreases registrations@.len() - old(stack)@.len(), 0int, 0int,
{
    let ghost before = states@;
    let ghost held = stack@;
    if states[id] == SETTLED {
        return Ok(());
    }
    proof {
        lemma_visit_grows(registrations@, id as int, before, positions(held));
    }
    if states[id] == OPEN {
        proof {
            assert(before[id as int] == OPEN);
            assert forall|i: int| 0 <= i < stack@.len() implies (#[trigger] stack@[i])
                < registrations@.len() by {
                assert(positions(stack@)[i] == stack@[i] as int);
            }
        }
        return Err(cycle_error(registrations, id, stack));
    }
    proof {
        assert(before[id as int] == UNSEEN);
        lemma_room_for_unseen(registrations@, before, positions(held), id as int);
        assert(positions(held.push(id)) =~= positions(held).push(id as int));
    }
    states.set(id, OPEN);
    stack.push(id);
    match validate_needs(id, 0, registrations, states, stack) {
        Err(error) => {
            return Err(error);
        },
        Ok(_) => {},
    }
    let ghost middle = states@;
    let popped = stack.pop();
    states.set(id, SETTLED);
    proof {
        assert(stack@ =~= held);
        lemma_stack_kept(registrations@, before, states@, positions(held));
    }
    Ok(())
}

fn validate_needs(
    id: usize,
    k: usize,
    registrations: &Vec<ProviderRegistration>,
    states: &mut Vec<u8>,
    stack: &mut Vec<usize>,
) -> (validated: Result<(), ExecutableBuildError>)
    requires
        registered(registrations@),
        id < registrations@.len(),
        k <= needs(registrations@, id as int).len(),
        is_stack(registrations@, old(states)@, positions(old(stack)@)),
    ensures
        match validated {
            Ok(_) => {
                &&& visit_needs(
                    registrations@,
                    id as int,
                    k as int,
                    old(states)@,
                    positions(old(stack)@),
                ) == Ok::<Seq<u8>, ExecutableFault>(final(states)@)
                &&& final(stack)@ == old(stack)@
                &&& is_stack(registrations@, final(states)@, positions(final(stack)@))
            },
            Err(error) => visit_needs(
                registrations@,
                id as int,
                k as int,
                old(states)@,
                positions(old(stack)@),
            ) == Err::<Seq<u8>, ExecutableFault>(error@),
        },
    decreases
            registrations@.len() - old(stack)@.len(),
            1int,
            needs(registrations@, id as int).len() - k,
{
    let registration = &registrations[id];
    if k >= registration.provider.dependencies.len() {
        return Ok(());
    }
    let dependency = registration.provider.dependencies[k];
    proof {
        lemma_found_is_registered(registrations@, id as int, dependency.type_id);
    }
    let found = match find_provider(&registration.visible, dependency.type_id) {
        Some(found) => found,
        None => {
            return Err(
                ExecutableBuildError::MissingProvider {
                    plugin: registration.plugin.clone(),
                    consumer: registration.provider.key.name.to_owned(),
                    dependency: dependency.name.to_owned(),
                },
            );
        },
    };
    if registration.provider.lifetime == DependencyLifetime::Singleton
        && registrations[found].provider.lifetime != DependencyLifetime::Singleton {
        return Err(
            ExecutableBuildError::InvalidLifetime {
                plugin: registration.plugin.clone(),
                singleton: registration.provider.key.name.to_owned(),
                shorter_lived_dependency: dependency.name.to_owned(),
            },
        );
    }
    match validate_provider(found, registrations, states, stack) {
        Err(error) => Err(error),
        Ok(_) => validate_needs(id, k + 1, registrations, states, stack),
    }
}

/// Validates that every dependency has a provider that lives long enough, and
/// that no provider depends on itself.
pub fn validate_provider_graph(registrations: &Vec<ProviderRegistration>) -> (validated: Result<
    (),
    ExecutableBuildError,
>)
    requires
        registered(registrations@),
    ensures
        match validated {
            Ok(_) => graph_fault(registrations@) is None,
            Err(error) => graph_fault(registrations@) == Some(error@),
        },
{
    let mut states: Vec<u8> = Vec::new();
    let mut index: usize = 0;
    while index < registrations.len()
        invariant
            index <= registrations@.len(),
            states@.len() == index,
            forall|i: int| 0 <= i < index ==> #[trigger] states@[i] == UNSEEN,
        decreases registrations@.len() - index,
    {
        states.push(UNSEEN);
        index += 1;
    }
    let ghost start = Seq::new(registrations@.len(), |i: int| UNSEEN);
    assert(states@ =~= start);
    let mut stack: Vec<usize> = Vec::new();
    assert(positions(stack@) =~= Seq::empty());
    let mut id: usize = 0;
    while id < registrations.len()
        invariant
            registered(registrations@),
            id <= registrations@.len(),
            positions(stack@) == Seq::<int>::empty(),
            is_stack(registrations@, states@, positions(stack@)),
            visit_all(registrations@, 0, start) == visit_all(registrations@, id as int, states@),
            start == Seq::new(registrations@.len(), |i: int| UNSEEN),
        decreases registrations@.len() - id,
    {
        match validate_provider(id, registrations, &mut states, &mut stack) {
            Err(error) => {
                return Err(error);
            },
            Ok(_) => {},
        }
        id += 1;
    }
    Ok(())
}

// ---------------------------------------------------------------------------
// What validation means
// ---------------------------------------------------------------------------

/// The dependencies of the provider at a place of an order have providers that
/// live long enough and stand before it.
pub open spec fn ready(regs: Seq<ProviderRegistration>, order: Seq<int>, place: int) -> bool {
    forall|k: int|
        0 <= k < needs(regs, order[place]).len() ==> {
            &&& #[trigger] need(regs, order[place], k) matches Some(dependency)
                && lives_long_enough(regs, order[place], dependency as int) && order.take(
                place,
            ).contains(dependency as int)
        }
}

/// An order in which every provider stands once, behind everything that it
/// depends on.
pub open spec fn is_build_order(regs: Seq<ProviderRegistration>, order: Seq<int>) -> bool {
    &&& order.no_duplicates()
    &&& forall|i: int| 0 <= i < order.len() ==> 0 <= #[trigger] order[i] < regs.len()
    &&& forall|id: int| 0 <= id < regs.len() ==> #[trigger] order.contains(id)
    &&& forall|i: int| 0 <= i < order.len() ==> #[trigger] ready(regs, order, i)
}

/// An order of the settled providers.
spec fn settles(regs: Seq<ProviderRegistration>, order: Seq<int>, states: Seq<u8>) -> bool {
    &&& order.no_duplicates()
    &&& forall|i: int|
        0 <= i < order.len() ==> 0 <= #[trigger] order[i] < regs.len() && states[order[i]]
            == SETTLED
    &&& forall|j: int| 0 <= j < states.len() && #[trigger] states[j] == SETTLED ==> order.contains(j)
    &&& forall|i: int| 0 <= i < order.len() ==> #[trigger] ready(regs, order, i)
}

/// A dependency of a provider is settled.
spec fn need_settled(regs: Seq<ProviderRegistration>, id: int, k: int, states: Seq<u8>) -> bool {
    need(regs, id, k) matches Some(dependency) && lives_long_enough(regs, id, dependency as int)
        && states[dependency as int] == SETTLED
}

proof fn lemma_visit_orders(
    regs: Seq<ProviderRegistration>,
    id: int,
    states: Seq<u8>,
    stack: Seq<int>,
    order: Seq<int>,
) -> (after: Seq<int>)
    requires
        registered(regs),
        0 <= id < regs.len(),
        states.len() == regs.len(),
        settles(regs, order, states),
    ensures
        visit(regs, id, states, stack) matches Ok(done) ==> settles(regs, after, done),
    decreases regs.len() - stack.len(), 0int, 0int,
{
    if states[id] == SETTLED || states[id] == OPEN || stack.len() >= regs.len() {
        order
    } else {
        let open = states.update(id, OPEN);
        assert forall|i: int| 0 <= i < order.len() implies 0 <= #[trigger] order[i] < regs.len()
            && open[order[i]] == SETTLED by {
            assert(states[order[i]] == SETTLED);
        }
        assert forall|j: int|
            0 <= j < open.len() && #[trigger] open[j] == SETTLED implies order.contains(j) by {
            assert(states[j] == SETTLED);
        }
        let middle = lemma_needs_order(regs, id, 0, open, stack.push(id), order);
        lemma_visit_needs_grows(regs, id, 0, open, stack.push(id));
        match visit_needs(regs, id, 0, open, stack.push(id)) {
            Err(_) => order,
            Ok(after) => {
                let done = after.update(id, SETTLED);
                let grown = middle.push(id);
                assert(after[id] == OPEN);
                assert forall|i: int|
                    0 <= i < grown.len() implies 0 <= #[trigger] grown[i] < regs.len()
                    && done[grown[i]] == SETTLED by {
                    if i < middle.len() {
                        assert(grown[i] == middle[i]);
                    }
                }
                assert forall|i: int, j: int|
                    0 <= i < grown.len() && 0 <= j < grown.len() && i != j implies grown[i]
                    != grown[j] by {
                    if i < middle.len() {
                        assert(after[middle[i]] == SETTLED);
                    }
                    if j < middle.len() {
                        assert(after[middle[j]] == SETTLED);
                    }
                }
                assert forall|j: int|
                    0 <= j < done.len() && #[trigger] done[j] == SETTLED implies grown.contains(
                    j,
                ) by {
                    if j == id {
                        assert(grown[middle.len() as int] == id);
                    } else {
                        assert(after[j] == SETTLED);
                        let i = middle.index_of(j);
                        assert(grown[i] == j);
                    }
                }
                assert forall|i: int| 0 <= i < grown.len() implies #[trigger] ready(
                    regs,
                    grown,
                    i,
                ) by {
                    if i < middle.len() {
                        assert(ready(regs, middle, i));
                        assert(grown[i] == middle[i]);
                        assert(grown.take(i) =~= middle.take(i));
                    } else {
                        assert(grown.take(i) =~= middle);
                        assert forall|k: int| 0 <= k < needs(regs, grown[i]).len() implies {
                            &&& #[trigger] need(regs, grown[i], k) matches Some(dependency)
                                && lives_long_enough(regs, grown[i], dependency as int)
                                && grown.take(i).contains(dependency as int)
                        } by {
                            assert(need_settled(regs, id, k, after));
                            lemma_found_is_registered(regs, id, needs(regs, id)[k].type_id);
                        }
                    }
                }
                grown
            },
        }
    }
}

proof fn lemma_needs_order(
    regs: Seq<ProviderRegistration>,
    id: int,
    k: int,
    states: Seq<u8>,
    stack: Seq<int>,
    order: Seq<int>,
) -> (after: Seq<int>)
    requires
        registered(regs),
        0 <= id < regs.len(),
        0 <= k,
        states.len() == regs.len(),
        settles(regs, order, states),
        forall|i: int|
            0 <= i < k && i < needs(regs, id).len() ==> #[trigger] need_settled(
                regs,
                id,
                i,
                states,
            ),
    ensures
        visit_needs(regs, id, k, states, stack) matches Ok(done) ==> settles(regs, after, done)
            && forall|i: int|
            0 <= i < needs(regs, id).len() ==> #[trigger] need_settled(regs, id, i, done),
    decreases regs.len() - stack.len(), 1int, needs(regs, id).len() - k,
{
    if k >= needs(regs, id).len() {
        order
    } else {
        lemma_found_is_registered(regs, id, needs(regs, id)[k].type_id);
        match need(regs, id, k) {
            None => order,
            Some(dependency) => {
                let d = dependency as int;
                if lives_long_enough(regs, id, d) {
                    let middle = lemma_visit_orders(regs, d, states, stack, order);
                    lemma_visit_grows(regs, d, states, stack);
                    match visit(regs, d, states, stack) {
                        Err(_) => order,
                        Ok(done) => {
                            assert forall|i: int|
                                0 <= i < k + 1 && i < needs(regs, id).len() implies #[trigger] need_settled(
                            regs, id, i, done) by {
                                if i < k {
                                    assert(need_settled(regs, id, i, states));
                                    lemma_found_is_registered(
                                        regs,
                                        id,
                                        needs(regs, id)[i].type_id,
                                    );
                                }
                            }
                            lemma_needs_order(regs, id, k + 1, done, stack, middle)
                        },
                    }
                } else {
                    order
                }
            },
        }
    }
}

proof fn lemma_all_order(
    regs: Seq<ProviderRegistration>,
    id: int,
    states: Seq<u8>,
    order: Seq<int>,
) -> (after: Seq<int>)
    requires
        registered(regs),
        0 <= id <= regs.len(),
        states.len() == regs.len(),
        settles(regs, order, states),
        forall|j: int| 0 <= j < id ==> #[trigger] states[j] == SETTLED,
    ensures
        visit_all(regs, id, states) is Ok ==> is_build_order(regs, after),
    decreases regs.len() - id,
{
    if id >= regs.len() {
        assert forall|j: int| 0 <= j < regs.len() implies #[trigger] order.contains(j) by {
            assert(states[j] == SETTLED);
        }
        order
    } else {
        let middle = lemma_visit_orders(regs, id, states, Seq::empty(), order);
        lemma_visit_grows(regs, id, states, Seq::empty());
        match visit(regs, id, states, Seq::empty()) {
            Err(_) => order,
            Ok(done) => {
                assert forall|j: int| 0 <= j < id + 1 implies #[trigger] done[j] == SETTLED by {
                    if j < id {
                        assert(states[j] == SETTLED);
                    }
                }
                lemma_all_order(regs, id + 1, done, middle)
            },
        }
    }
}

/// The place of a provider in an order.
pub open spec fn place_of(order: Seq<int>, id: int) -> int {
    order.index_of(id)
}

/// Every provider being visited stands behind another in an order.
spec fn all_behind(order: Seq<int>, stack: Seq<int>, id: int) -> bool {
    forall|i: int| 0 <= i < stack.len() ==> place_of(order, id) < place_of(order, #[trigger] stack[i])
}

pub proof fn lemma_need_stands_before(
    regs: Seq<ProviderRegistration>,
    order: Seq<int>,
    id: int,
    k: int,
)
    requires
        is_build_order(regs, order),
        0 <= id < regs.len(),
        0 <= k < needs(regs, id).len(),
    ensures
        need(regs, id, k) matches Some(dependency) && lives_long_enough(
            regs,
            id,
            dependency as int,
        ) && place_of(order, dependency as int) < place_of(order, id) && dependency < regs.len(),
{
    assert(order.contains(id));
    let place = order.index_of(id);
    assert(order[place] == id);
    assert(ready(regs, order, place));
    assert(need(regs, order[place], k) is Some);
    let dependency = need(regs, id, k)->Some_0 as int;
    let before = order.take(place);
    assert(before.contains(dependency));
    let at = before.index_of(dependency);
    assert(order[at] == dependency);
    let there = order.index_of(dependency);
    assert(order[there] == dependency);
    assert(there == at);
}

proof fn lemma_ordered_visit_succeeds(
    regs: Seq<ProviderRegistration>,
    order: Seq<int>,
    id: int,
    states: Seq<u8>,
    stack: Seq<int>,
)
    requires
        registered(regs),
        is_build_order(regs, order),
        0 <= id < regs.len(),
        is_stack(regs, states, stack),
        all_behind(order, stack, id),
    ensures
        visit(regs, id, states, stack) is Ok,
    decreases regs.len() - stack.len(), 0int, 0int,
{
    assert(states[id] == UNSEEN || states[id] == OPEN || states[id] == SETTLED);
    if states[id] == OPEN {
        assert(stack.contains(id));
        let i = stack.index_of(id);
        assert(stack[i] == id);
    } else if states[id] == UNSEEN {
        lemma_room_for_unseen(regs, states, stack, id);
        let pushed = stack.push(id);
        lemma_ordered_needs_succeed(regs, order, id, 0, states.update(id, OPEN), pushed);
    }
}

proof fn lemma_ordered_needs_succeed(
    regs: Seq<ProviderRegistration>,
    order: Seq<int>,
    id: int,
    k: int,
    states: Seq<u8>,
    stack: Seq<int>,
)
    requires
        registered(regs),
        is_build_order(regs, order),
        0 <= id < regs.len(),
        0 <= k,
        is_stack(regs, states, stack),
        forall|i: int|
            0 <= i < stack.len() ==> place_of(order, id) <= place_of(order, #[trigger] stack[i]),
    ensures
        visit_needs(regs, id, k, states, stack) is Ok,
    decreases regs.len() - stack.len(), 1int, needs(regs, id).len() - k,
{
    if k < needs(regs, id).len() {
        lemma_need_stands_before(regs, order, id, k);
        let d = need(regs, id, k)->Some_0 as int;
        assert(all_behind(order, stack, d));
        lemma_ordered_visit_succeeds(regs, order, d, states, stack);
        lemma_visit_grows(regs, d, states, stack);
        let done = visit(regs, d, states, stack)->Ok_0;
        lemma_stack_kept(regs, states, done, stack);
        lemma_ordered_needs_succeed(regs, order, id, k + 1, done, stack);
    }
}

proof fn lemma_ordered_all_succeed(
    regs: Seq<ProviderRegistration>,
    order: Seq<int>,
    id: int,
    states: Seq<u8>,
)
    requires
        registered(regs),
        is_build_order(regs, order),
        0 <= id <= regs.len(),
        is_stack(regs, states, Seq::empty()),
    ensures
        visit_all(regs, id, states) is Ok,
    decreases regs.len() - id,
{
    if id < regs.len() {
        let none = Seq::<int>::empty();
        lemma_ordered_visit_succeeds(regs, order, id, states, none);
        lemma_visit_grows(regs, id, states, none);
        let done = visit(regs, id, states, none)->Ok_0;
        lemma_stack_kept(regs, states, done, none);
        lemma_ordered_all_succeed(regs, order, id + 1, done);
    }
}

/// A graph is valid exactly where its providers can be built: there is an
/// order in which each stands behind everything that it depends on, with
/// nothing missing, nothing depending on itself, and no singleton depending on
/// what lives shorter.
pub proof fn law_valid_graphs_can_be_built(regs: Seq<ProviderRegistration>)
    requires
        registered(regs),
    ensures
        graph_fault(regs) is None <==> exists|order: Seq<int>| is_build_order(regs, order),
{
    let start = Seq::new(regs.len(), |i: int| UNSEEN);
    let none = Seq::<int>::empty();
    if graph_fault(regs) is None {
        assert(settles(regs, none, start));
        let order = lemma_all_order(regs, 0, start, none);
        assert(is_build_order(regs, order));
    }
    if exists|order: Seq<int>| is_build_order(regs, order) {
        let order = choose|order: Seq<int>| is_build_order(regs, order);
        assert(is_stack(regs, start, none));
        lemma_ordered_all_succeed(regs, order, 0, start);
    }
}

/// A build order has as many places as there are providers.
pub proof fn lemma_order_fits(regs: Seq<ProviderRegistration>, order: Seq<int>)
    requires
        is_build_order(regs, order),
    ensures
        order.len() <= regs.len(),
{
    lemma_stack_fits(order, regs.len());
}

/// What a consumer sees under a type: the provider that was registered last.
pub open spec fn sees(visible: Seq<Visible>, type_id: u64, id: int) -> bool {
    exists|v: int|
        0 <= v < visible.len() && (#[trigger] visible[v]).type_id == type_id && visible[v].id == id
            && forall|w: int| v < w < visible.len() ==> (#[trigger] visible[w]).type_id != type_id
}

/// The nearest provider of a type is found, the one that was registered last; none
/// is found only where no visible provider has the type.
pub proof fn law_nearest_providers_are_found(visible: Seq<Visible>, type_id: u64)
    ensures
        match provider_of(visible, type_id) {
            Some(id) => sees(visible, type_id, id as int),
            None => forall|v: int|
                0 <= v < visible.len() ==> (#[trigger] visible[v]).type_id != type_id,
        },
    decreases visible.len(),
{
    if visible.len() > 0 {
        let last = visible.len() - 1;
        if visible[last].type_id != type_id {
            let before = visible.drop_last();
            law_nearest_providers_are_found(before, type_id);
            assert forall|v: int| 0 <= v < last implies #[trigger] visible[v] == before[v] by {}
            if let Some(id) = provider_of(before, type_id) {
                let v = choose|v: int|
                    0 <= v < before.len() && (#[trigger] before[v]).type_id == type_id
                        && before[v].id == id as int && forall|w: int|
                        v < w < before.len() ==> (#[trigger] before[w]).type_id != type_id;
                assert(visible[v] == before[v]);
            }
        }
    }
}

/// A provider depends on another: that is what it sees under a type that it asks
/// for.
pub open spec fn depends(regs: Seq<ProviderRegistration>, id: int, on: int) -> bool {
    exists|k: int|
        0 <= k < regs[id].provider.dependencies@.len() && sees(
            regs[id].visible@,
            (#[trigger] regs[id].provider.dependencies@[k]).type_id,
            on,
        )
}

/// Each depends on the next.
pub open spec fn is_chain(regs: Seq<ProviderRegistration>, ids: Seq<int>) -> bool {
    &&& forall|i: int| 0 <= i < ids.len() ==> 0 <= #[trigger] ids[i] < regs.len()
    &&& forall|i: int, j: int|
        #![trigger ids[i], ids[j]]
        0 <= i && j == i + 1 && j < ids.len() ==> depends(regs, ids[i], ids[j])
}

/// Whether what is said of a graph is so.
pub open spec fn holds_of(regs: Seq<ProviderRegistration>, fault: ExecutableFault) -> bool {
    match fault {
        ExecutableFault::MissingProvider(plugin, consumer, dependency) => exists|id: int, k: int|
            {
                let asked = #[trigger] regs[id].provider.dependencies@[k];
                &&& 0 <= id < regs.len() && 0 <= k < regs[id].provider.dependencies@.len()
                &&& plugin == regs[id].plugin@ && consumer == regs[id].provider.key.name@
                &&& dependency == asked.name@
                &&& forall|v: int|
                    0 <= v < regs[id].visible@.len() ==> (#[trigger] regs[id].visible@[v]).type_id
                        != asked.type_id
            },
        ExecutableFault::InvalidLifetime(plugin, singleton, shorter) => exists|
            id: int,
            k: int,
            on: int,
        |
            #![trigger sees(regs[id].visible@, regs[id].provider.dependencies@[k].type_id, on)]
            {
                let asked = regs[id].provider.dependencies@[k];
                &&& 0 <= id < regs.len() && 0 <= k < regs[id].provider.dependencies@.len()
                &&& plugin == regs[id].plugin@ && singleton == regs[id].provider.key.name@
                &&& shorter == asked.name@
                &&& sees(regs[id].visible@, asked.type_id, on)
                &&& regs[id].provider.lifetime is Singleton
                &&& !(regs[on].provider.lifetime is Singleton)
            },
        ExecutableFault::ProviderCycle(plugin, names) => exists|ids: Seq<int>|
            {
                &&& #[trigger] is_chain(regs, ids)
                &&& ids.len() > 1 && ids.first() == ids.last()
                &&& plugin == regs[ids.last()].plugin@
                &&& names.len() == ids.len()
                &&& forall|i: int|
                    0 <= i < ids.len() ==> #[trigger] names[i] == regs[ids[i]].provider.key.name@
            },
        _ => false,
    }
}

/// What is reported of a graph is so: a missing provider is one that its consumer
/// asks for and cannot see, a lifetime is invalid where a singleton sees one that
/// lives shorter, and a cycle is a chain of providers, each depending on the next,
/// that ends where it starts.
pub proof fn law_graph_faults_are_what_they_say(regs: Seq<ProviderRegistration>)
    requires
        registered(regs),
    ensures
        graph_fault(regs) matches Some(fault) ==> holds_of(regs, fault),
{
    let start = Seq::new(regs.len(), |i: int| UNSEEN);
    assert(is_stack(regs, start, Seq::empty()));
    lemma_all_faults_hold(regs, 0, start);
}

/// In a valid graph every dependency of a provider is seen, and a singleton depends
/// on singletons only.
pub proof fn law_valid_graphs_lack_nothing(regs: Seq<ProviderRegistration>, id: int, k: int)
    requires
        registered(regs),
        graph_fault(regs) is None,
        0 <= id < regs.len(),
        0 <= k < regs[id].provider.dependencies@.len(),
    ensures
        exists|on: int|
            {
                &&& 0 <= on < regs.len()
                &&& #[trigger] sees(
                    regs[id].visible@,
                    regs[id].provider.dependencies@[k].type_id,
                    on,
                )
                &&& regs[id].provider.lifetime is Singleton ==> regs[on].provider.lifetime
                    is Singleton
            },
{
    law_valid_graphs_can_be_built(regs);
    let order = choose|order: Seq<int>| is_build_order(regs, order);
    assert(order.contains(id));
    let place = order.index_of(id);
    assert(ready(regs, order, place));
    let type_id = regs[id].provider.dependencies@[k].type_id;
    law_nearest_providers_are_found(regs[id].visible@, type_id);
    lemma_found_is_registered(regs, id, type_id);
    assert(need(regs, order[place], k) is Some);
    let on = need(regs, id, k)->Some_0 as int;
    assert(sees(regs[id].visible@, type_id, on));
}

proof fn lemma_all_faults_hold(regs: Seq<ProviderRegistration>, id: int, states: Seq<u8>)
    requires
        registered(regs),
        0 <= id,
        is_stack(regs, states, Seq::empty()),
    ensures
        visit_all(regs, id, states) matches Err(fault) ==> holds_of(regs, fault),
    decreases regs.len() - id,
{
    if id < regs.len() {
        let none = Seq::<int>::empty();
        lemma_visit_faults_hold(regs, id, states, none);
        lemma_visit_grows(regs, id, states, none);
        if let Ok(after) = visit(regs, id, states, none) {
            lemma_stack_kept(regs, states, after, none);
            lemma_all_faults_hold(regs, id + 1, after);
        }
    }
}

proof fn lemma_visit_faults_hold(
    regs: Seq<ProviderRegistration>,
    id: int,
    states: Seq<u8>,
    stack: Seq<int>,
)
    requires
        registered(regs),
        0 <= id < regs.len(),
        is_stack(regs, states, stack),
        is_chain(regs, stack),
        stack.len() > 0 ==> depends(regs, stack.last(), id),
    ensures
        visit(regs, id, states, stack) matches Err(fault) ==> holds_of(regs, fault),
    decreases regs.len() - stack.len(), 0int, 0int,
{
    let pushed = stack.push(id);
    assert(is_chain(regs, pushed)) by {
        assert forall|i: int, j: int|
            #![trigger pushed[i], pushed[j]]
            0 <= i && j == i + 1 && j < pushed.len() implies depends(
            regs,
            pushed[i],
            pushed[j],
        ) by {
            if j < stack.len() {
                assert(pushed[i] == stack[i] && pushed[j] == stack[j]);
            } else {
                assert(pushed[i] == stack.last() && pushed[j] == id);
            }
        }
    }
    if states[id] == SETTLED {
    } else if states[id] == OPEN {
        assert(stack.contains(id));
        lemma_place_in(stack, id);
        let place = place_in(stack, id);
        let ids = stack.skip(place).push(id);
        assert forall|i: int| 0 <= i < ids.len() implies #[trigger] ids[i] == pushed[place + i] by {
        }
        assert forall|i: int, j: int|
            #![trigger ids[i], ids[j]]
            0 <= i && j == i + 1 && j < ids.len() implies depends(regs, ids[i], ids[j]) by {
            assert(depends(regs, pushed[place + i], pushed[place + j]));
        }
        assert(is_chain(regs, ids));
        assert(ids.first() == id && ids.last() == id);
    } else {
        assert(states[id] == UNSEEN);
        lemma_room_for_unseen(regs, states, stack, id);
        lemma_needs_faults_hold(regs, id, 0, states.update(id, OPEN), pushed);
    }
}

proof fn lemma_needs_faults_hold(
    regs: Seq<ProviderRegistration>,
    id: int,
    k: int,
    states: Seq<u8>,
    stack: Seq<int>,
)
    requires
        registered(regs),
        0 <= id < regs.len(),
        0 <= k,
        is_stack(regs, states, stack),
        is_chain(regs, stack),
        stack.len() > 0,
        stack.last() == id,
    ensures
        visit_needs(regs, id, k, states, stack) matches Err(fault) ==> holds_of(regs, fault),
    decreases regs.len() - stack.len(), 1int, needs(regs, id).len() - k,
{
    if k < needs(regs, id).len() {
        let asked = regs[id].provider.dependencies@[k];
        law_nearest_providers_are_found(regs[id].visible@, asked.type_id);
        lemma_found_is_registered(regs, id, asked.type_id);
        if let Some(dependency) = need(regs, id, k) {
            let d = dependency as int;
            assert(sees(regs[id].visible@, asked.type_id, d));
            if lives_long_enough(regs, id, d) {
                assert(depends(regs, id, d));
                lemma_visit_faults_hold(regs, d, states, stack);
                lemma_visit_grows(regs, d, states, stack);
                if let Ok(after) = visit(regs, d, states, stack) {
                    lemma_stack_kept(regs, states, after, stack);
                    lemma_needs_faults_hold(regs, id, k + 1, after, stack);
                }
            }
        }
    }
}

} // verus!
