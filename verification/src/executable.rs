//! Operations with their handlers, the plugins that scope them, and the
//! replacements that a test makes.
use crate::application::OperationDescriptor;
use crate::dependency::{providers_view, DependencyRequest, Provider, ProviderView};
use crate::graph::{ExecutableBuildError, ExecutableFault};
use crate::operation::{opt_text, SecuritySchemeDescriptor};
use crate::text::eq_text;
use crate::wiring::CompiledOperationDependencies;
use vstd::prelude::*;
use vstd::string::*;

verus! {

// ---------------------------------------------------------------------------
// Hooks
// ---------------------------------------------------------------------------

/// The hooks around an operation, outermost plugin first. A hook is known by a
/// number.
#[derive(Debug, PartialEq, Eq)]
pub struct HookScope {
    pub on_request: Vec<usize>,
    pub pre_parse: Vec<usize>,
    pub pre_validate: Vec<usize>,
    pub pre_handler: Vec<usize>,
    pub pre_serialize: Vec<usize>,
    pub on_error: Vec<usize>,
    pub on_response: Vec<usize>,
}

/// The hooks of a scope.
#[verifier::ext_equal]
pub struct HooksView {
    pub on_request: Seq<usize>,
    pub pre_parse: Seq<usize>,
    pub pre_validate: Seq<usize>,
    pub pre_handler: Seq<usize>,
    pub pre_serialize: Seq<usize>,
    pub on_error: Seq<usize>,
    pub on_response: Seq<usize>,
}

impl View for HookScope {
    type V = HooksView;

    open spec fn view(&self) -> HooksView {
        HooksView {
            on_request: self.on_request@,
            pre_parse: self.pre_parse@,
            pre_validate: self.pre_validate@,
            pre_handler: self.pre_handler@,
            pre_serialize: self.pre_serialize@,
            on_error: self.on_error@,
            on_response: self.on_response@,
        }
    }
}

/// The hooks of a plugin inside those that it inherits.
pub open spec fn inherited_hooks(outer: HooksView, plugin: HooksView) -> HooksView {
    HooksView {
        on_request: outer.on_request + plugin.on_request,
        pre_parse: outer.pre_parse + plugin.pre_parse,
        pre_validate: outer.pre_validate + plugin.pre_validate,
        pre_handler: outer.pre_handler + plugin.pre_handler,
        pre_serialize: outer.pre_serialize + plugin.pre_serialize,
        on_error: outer.on_error + plugin.on_error,
        on_response: outer.on_response + plugin.on_response,
    }
}

/// No hooks at all.
pub open spec fn no_hooks() -> HooksView {
    HooksView {
        on_request: Seq::empty(),
        pre_parse: Seq::empty(),
        pre_validate: Seq::empty(),
        pre_handler: Seq::empty(),
        pre_serialize: Seq::empty(),
        on_error: Seq::empty(),
        on_response: Seq::empty(),
    }
}

fn joined(outer: &Vec<usize>, inner: &Vec<usize>) -> (both: Vec<usize>)
    ensures
        both@ == outer@ + inner@,
{
    let mut both: Vec<usize> = Vec::new();
    both.extend_from_slice(outer.as_slice());
    both.extend_from_slice(inner.as_slice());
    assert(both@ =~= outer@ + inner@);
    both
}

impl Default for HookScope {
    fn default() -> (hooks: Self)
        ensures
            hooks@ == no_hooks(),
    {
        let hooks = HookScope {
            on_request: Vec::new(),
            pre_parse: Vec::new(),
            pre_validate: Vec::new(),
            pre_handler: Vec::new(),
            pre_serialize: Vec::new(),
            on_error: Vec::new(),
            on_response: Vec::new(),
        };
        assert(hooks@ =~= no_hooks());
        hooks
    }
}

impl Clone for HookScope {
    fn clone(&self) -> (copy: Self)
        ensures
            copy@ == self@,
    {
        let copy = self.inherited(&HookScope::default());
        assert(copy@ =~= self@);
        copy
    }
}

impl HookScope {
    /// Whether there is no hook.
    #[must_use]
    pub fn is_empty(&self) -> (empty: bool)
        ensures
            empty == (self@ == no_hooks()),
    {
        let empty = self.on_request.len() == 0 && self.pre_parse.len() == 0
            && self.pre_validate.len() == 0 && self.pre_handler.len() == 0
            && self.pre_serialize.len() == 0 && self.on_error.len() == 0
            && self.on_response.len() == 0;
        proof {
            if empty {
                assert(self@ =~= no_hooks());
            }
        }
        empty
    }

    /// The hooks of a plugin inside these.
    #[must_use]
    pub fn inherited(&self, plugin: &HookScope) -> (hooks: Self)
        ensures
            hooks@ == inherited_hooks(self@, plugin@),
    {
        HookScope {
            on_request: joined(&self.on_request, &plugin.on_request),
            pre_parse: joined(&self.pre_parse, &plugin.pre_parse),
            pre_validate: joined(&self.pre_validate, &plugin.pre_validate),
            pre_handler: joined(&self.pre_handler, &plugin.pre_handler),
            pre_serialize: joined(&self.pre_serialize, &plugin.pre_serialize),
            on_error: joined(&self.on_error, &plugin.on_error),
            on_response: joined(&self.on_response, &plugin.on_response),
        }
    }
}

/// Runtime-neutral metadata passed to compiled plugin hooks.
#[derive(Debug, PartialEq, Eq)]
pub struct HookContext {
    pub operation_id: String,
}

impl HookContext {
    #[must_use]
    pub fn operation_id(&self) -> (id: &str)
        ensures
            id@ == self.operation_id@,
    {
        self.operation_id.as_str()
    }
}

impl Clone for HookContext {
    fn clone(&self) -> (copy: Self)
        ensures
            copy.operation_id@ == self.operation_id@,
    {
        HookContext { operation_id: self.operation_id.clone() }
    }
}

/// The hooks of one operation with what they are told of it.
#[derive(Clone, Debug, PartialEq, Eq)]
pub struct CompiledHooks {
    pub context: Option<HookContext>,
    pub scope: HookScope,
}

/// The operation that hooks are told of.
pub open spec fn hooked_operation(context: Option<HookContext>) -> Seq<char> {
    match context {
        Some(context) => context.operation_id@,
        None => "uncompiled"@,
    }
}

impl CompiledHooks {
    /// The hooks of an operation that no plugin holds.
    #[must_use]
    pub fn empty() -> (hooks: Self)
        ensures
            hooks.context is None,
            hooks.scope@ == no_hooks(),
    {
        CompiledHooks { context: None, scope: HookScope::default() }
    }

    /// The hooks of an operation in a scope.
    #[must_use]
    pub fn compile(operation: &OperationDescriptor, scope: HookScope) -> (hooks: Self)
        ensures
            hooks.context is Some,
            hooked_operation(hooks.context) == operation.contract.id@,
            hooks.scope == scope,
    {
        CompiledHooks {
            context: Some(
                HookContext { operation_id: operation.contract.id.as_str().to_owned() },
            ),
            scope,
        }
    }

    /// What a hook is told.
    #[must_use]
    pub fn context(&self) -> (context: HookContext)
        ensures
            context.operation_id@ == hooked_operation(self.context),
    {
        match &self.context {
            Some(context) => context.clone(),
            None => HookContext { operation_id: "uncompiled".to_owned() },
        }
    }
}

// ---------------------------------------------------------------------------
// Operations
// ---------------------------------------------------------------------------

/// How an operation is handled. A handler is known by a number.
#[derive(Clone, Copy, Debug, PartialEq, Eq)]
pub enum Handler {
    Async(usize),
    /// A handler that answers at once, with one that is awaited for where hooks
    /// stand around the operation.
    Sync { direct: usize, fallback: usize },
}

/// A handler plus the operation descriptor shared by HTTP and MCP.
#[derive(Debug, PartialEq, Eq)]
pub struct ExecutableOperation {
    pub descriptor: OperationDescriptor,
    pub dependency_requests: Vec<DependencyRequest>,
    pub dependency_plan: Option<CompiledOperationDependencies>,
    pub hooks: CompiledHooks,
    pub handler: Handler,
}

/// An operation that depends on nothing.
pub open spec fn nothing_needed(plan: CompiledOperationDependencies) -> bool {
    plan.request_providers@.len() == 0 && plan.handler_slots@.len() == 0
}

/// An operation before it is compiled: one without dependencies can be invoked
/// as it is.
pub open spec fn uncompiled(
    operation: ExecutableOperation,
    descriptor: OperationDescriptor,
    requests: Seq<DependencyRequest>,
    handler: Handler,
) -> bool {
    &&& operation.descriptor == descriptor
    &&& operation.dependency_requests@ == requests
    &&& operation.handler == handler
    &&& operation.hooks.context is None
    &&& operation.hooks.scope@ == no_hooks()
    &&& match operation.dependency_plan {
        Some(plan) => requests.len() == 0 && nothing_needed(plan),
        None => requests.len() != 0,
    }
}

impl CompiledOperationDependencies {
    /// The plan of an operation that depends on nothing.
    #[must_use]
    pub fn empty() -> (plan: Self)
        ensures
            nothing_needed(plan),
    {
        CompiledOperationDependencies { request_providers: Vec::new(), handler_slots: Vec::new() }
    }
}

impl ExecutableOperation {
    /// An operation without dependencies.
    #[must_use]
    pub fn typed(descriptor: OperationDescriptor, handler: usize) -> (operation: Self)
        ensures
            uncompiled(operation, descriptor, Seq::empty(), Handler::Async(handler)),
    {
        ExecutableOperation::typed_with_dependencies(descriptor, Vec::new(), handler)
    }

    /// An operation whose handler reads compiled dependency slots.
    #[must_use]
    pub fn typed_with_dependencies(
        descriptor: OperationDescriptor,
        dependency_requests: Vec<DependencyRequest>,
        handler: usize,
    ) -> (operation: Self)
        ensures
            uncompiled(operation, descriptor, dependency_requests@, Handler::Async(handler)),
    {
        ExecutableOperation::handled(descriptor, dependency_requests, Handler::Async(handler))
    }

    /// An operation that can answer without being awaited. The fallback stands
    /// in where plugins add hooks around the operation.
    #[must_use]
    pub fn typed_sync_with_dependencies(
        descriptor: OperationDescriptor,
        dependency_requests: Vec<DependencyRequest>,
        direct: usize,
        fallback: usize,
    ) -> (operation: Self)
        ensures
            uncompiled(
                operation,
                descriptor,
                dependency_requests@,
                Handler::Sync { direct, fallback },
            ),
    {
        ExecutableOperation::handled(
            descriptor,
            dependency_requests,
            Handler::Sync { direct, fallback },
        )
    }

    fn handled(
        descriptor: OperationDescriptor,
        dependency_requests: Vec<DependencyRequest>,
        handler: Handler,
    ) -> (operation: Self)
        ensures
            uncompiled(operation, descriptor, dependency_requests@, handler),
    {
        let dependency_plan = if dependency_requests.len() == 0 {
            Some(CompiledOperationDependencies::empty())
        } else {
            None
        };
        ExecutableOperation {
            descriptor,
            dependency_requests,
            dependency_plan,
            hooks: CompiledHooks::empty(),
            handler,
        }
    }

    #[must_use]
    pub fn descriptor(&self) -> (descriptor: &OperationDescriptor)
        ensures
            *descriptor == self.descriptor,
    {
        &self.descriptor
    }
}

// ---------------------------------------------------------------------------
// Plugins
// ---------------------------------------------------------------------------

/// A lexical provider scope containing operations and nested plugins.
#[derive(Debug)]
pub struct Plugin {
    pub name: String,
    pub providers: Vec<Provider>,
    pub security_schemes: Vec<SecuritySchemeDescriptor>,
    pub operations: Vec<ExecutableOperation>,
    pub plugins: Vec<Plugin>,
    pub hooks: HookScope,
    pub startup_hooks: Vec<usize>,
    pub shutdown_hooks: Vec<usize>,
}

impl Plugin {
    #[must_use]
    pub fn new(name: &str) -> (plugin: Self)
        ensures
            plugin.name@ == name@,
            plugin.providers@.len() == 0,
            plugin.security_schemes@.len() == 0,
            plugin.operations@.len() == 0,
            plugin.plugins@.len() == 0,
            plugin.hooks@ == no_hooks(),
            plugin.startup_hooks@.len() == 0,
            plugin.shutdown_hooks@.len() == 0,
    {
        Plugin {
            name: name.to_owned(),
            providers: Vec::new(),
            security_schemes: Vec::new(),
            operations: Vec::new(),
            plugins: Vec::new(),
            hooks: HookScope::default(),
            startup_hooks: Vec::new(),
            shutdown_hooks: Vec::new(),
        }
    }

    #[must_use]
    pub fn provide(self, provider: Provider) -> (plugin: Self)
        ensures
            plugin.providers@ == self.providers@.push(provider),
            plugin == (Plugin { providers: plugin.providers, ..self }),
    {
        let mut updated = self;
        updated.providers.push(provider);
        updated
    }

    /// Registers an application-wide security scheme.
    #[must_use]
    pub fn security_scheme(self, scheme: SecuritySchemeDescriptor) -> (plugin: Self)
        ensures
            plugin.security_schemes@ == self.security_schemes@.push(scheme),
            plugin == (Plugin { security_schemes: plugin.security_schemes, ..self }),
    {
        let mut updated = self;
        updated.security_schemes.push(scheme);
        updated
    }

    #[must_use]
    pub fn operation(self, operation: ExecutableOperation) -> (plugin: Self)
        ensures
            plugin.operations@ == self.operations@.push(operation),
            plugin == (Plugin { operations: plugin.operations, ..self }),
    {
        let mut updated = self;
        updated.operations.push(operation);
        updated
    }

    #[must_use]
    pub fn routes(self, operations: Vec<ExecutableOperation>) -> (plugin: Self)
        ensures
            plugin.operations@ == self.operations@ + operations@,
            plugin == (Plugin { operations: plugin.operations, ..self }),
    {
        let mut updated = self;
        let mut more = operations;
        updated.operations.append(&mut more);
        updated
    }

    #[must_use]
    pub fn plugin(self, plugin: Plugin) -> (outer: Self)
        ensures
            outer.plugins@ == self.plugins@.push(plugin),
            outer == (Plugin { plugins: outer.plugins, ..self }),
    {
        let mut updated = self;
        updated.plugins.push(plugin);
        updated
    }

    /// Adds a hook that runs before dependency resolution.
    #[must_use]
    pub fn on_request(self, hook: usize) -> (plugin: Self)
        ensures
            plugin.hooks@ == (HooksView {
                on_request: self.hooks@.on_request.push(hook),
                ..self.hooks@
            }),
            plugin == (Plugin { hooks: plugin.hooks, ..self }),
    {
        let mut updated = self;
        updated.hooks.on_request.push(hook);
        updated
    }

    /// Adds a hook that runs before inputs are read.
    #[must_use]
    pub fn pre_parse(self, hook: usize) -> (plugin: Self)
        ensures
            plugin.hooks@ == (HooksView {
                pre_parse: self.hooks@.pre_parse.push(hook),
                ..self.hooks@
            }),
            plugin == (Plugin { hooks: plugin.hooks, ..self }),
    {
        let mut updated = self;
        updated.hooks.pre_parse.push(hook);
        updated
    }

    /// Adds a hook that runs before inputs are validated.
    #[must_use]
    pub fn pre_validate(self, hook: usize) -> (plugin: Self)
        ensures
            plugin.hooks@ == (HooksView {
                pre_validate: self.hooks@.pre_validate.push(hook),
                ..self.hooks@
            }),
            plugin == (Plugin { hooks: plugin.hooks, ..self }),
    {
        let mut updated = self;
        updated.hooks.pre_validate.push(hook);
        updated
    }

    /// Adds a hook that runs once the inputs are validated, right before the
    /// handler.
    #[must_use]
    pub fn pre_handler(self, hook: usize) -> (plugin: Self)
        ensures
            plugin.hooks@ == (HooksView {
                pre_handler: self.hooks@.pre_handler.push(hook),
                ..self.hooks@
            }),
            plugin == (Plugin { hooks: plugin.hooks, ..self }),
    {
        let mut updated = self;
        updated.hooks.pre_handler.push(hook);
        updated
    }

    /// Adds a hook that runs between the handler and the transport.
    #[must_use]
    pub fn pre_serialize(self, hook: usize) -> (plugin: Self)
        ensures
            plugin.hooks@ == (HooksView {
                pre_serialize: self.hooks@.pre_serialize.push(hook),
                ..self.hooks@
            }),
            plugin == (Plugin { hooks: plugin.hooks, ..self }),
    {
        let mut updated = self;
        updated.hooks.pre_serialize.push(hook);
        updated
    }

    /// Adds a hook that sees failed outcomes only.
    #[must_use]
    pub fn on_error(self, hook: usize) -> (plugin: Self)
        ensures
            plugin.hooks@ == (HooksView {
                on_error: self.hooks@.on_error.push(hook),
                ..self.hooks@
            }),
            plugin == (Plugin { hooks: plugin.hooks, ..self }),
    {
        let mut updated = self;
        updated.hooks.on_error.push(hook);
        updated
    }

    /// Adds a hook that sees every outcome, whatever stage it comes from.
    #[must_use]
    pub fn on_response(self, hook: usize) -> (plugin: Self)
        ensures
            plugin.hooks@ == (HooksView {
                on_response: self.hooks@.on_response.push(hook),
                ..self.hooks@
            }),
            plugin == (Plugin { hooks: plugin.hooks, ..self }),
    {
        let mut updated = self;
        updated.hooks.on_response.push(hook);
        updated
    }

    /// Adds an application startup hook. Startup runs parent hooks before child
    /// hooks, and a failure stops it.
    #[must_use]
    pub fn on_startup(self, hook: usize) -> (plugin: Self)
        ensures
            plugin.startup_hooks@ == self.startup_hooks@.push(hook),
            plugin == (Plugin { startup_hooks: plugin.startup_hooks, ..self }),
    {
        let mut updated = self;
        updated.startup_hooks.push(hook);
        updated
    }

    /// Adds an application shutdown hook. Shutdown runs child hooks before
    /// parent hooks, and goes on after a failure.
    #[must_use]
    pub fn on_shutdown(self, hook: usize) -> (plugin: Self)
        ensures
            plugin.shutdown_hooks@ == self.shutdown_hooks@.push(hook),
            plugin == (Plugin { shutdown_hooks: plugin.shutdown_hooks, ..self }),
    {
        let mut updated = self;
        updated.shutdown_hooks.push(hook);
        updated
    }
}

// ---------------------------------------------------------------------------
// Replacements for tests
// ---------------------------------------------------------------------------

/// A provider that replaces others of its type: those of one plugin, or all.
#[derive(Debug)]
pub struct TestOverrideEntry {
    pub plugin: Option<String>,
    pub provider: Provider,
    pub applied: bool,
}

/// What a replacement declares.
pub struct OverrideView {
    pub plugin: Option<Seq<char>>,
    pub provider: ProviderView,
    pub applied: bool,
}

impl View for TestOverrideEntry {
    type V = OverrideView;

    open spec fn view(&self) -> OverrideView {
        OverrideView {
            plugin: opt_text(self.plugin),
            provider: self.provider@,
            applied: self.applied,
        }
    }
}

/// Typed provider replacements applied only while compiling a test app.
///
/// Global replacements substitute every registered provider with the same
/// output type. Scoped replacements use a full plugin path such as
/// `app/users`; they can also shadow an inherited provider inside that scope.
#[derive(Debug)]
pub struct TestOverrides {
    pub entries: Vec<TestOverrideEntry>,
}

impl View for TestOverrides {
    type V = Seq<OverrideView>;

    open spec fn view(&self) -> Seq<OverrideView> {
        self.entries@.map_values(|entry: TestOverrideEntry| entry@)
    }
}

/// The first replacement for a type that is declared for just this scope.
pub open spec fn entry_for(
    entries: Seq<OverrideView>,
    plugin: Option<Seq<char>>,
    type_id: u64,
    at: int,
) -> Option<int>
    decreases entries.len() - at,
{
    if at < 0 || at >= entries.len() {
        None
    } else if entries[at].plugin == plugin && entries[at].provider.key.type_id == type_id {
        Some(at)
    } else {
        entry_for(entries, plugin, type_id, at + 1)
    }
}

/// The replacement for a provider of a plugin: one for that plugin before one
/// for all.
pub open spec fn replacement(entries: Seq<OverrideView>, plugin: Seq<char>, type_id: u64) -> Option<
    int,
> {
    match entry_for(entries, Some(plugin), type_id, 0) {
        Some(at) => Some(at),
        None => entry_for(entries, None, type_id, 0),
    }
}

/// The providers of a plugin, each replaced where there is a replacement.
pub open spec fn replaced(
    entries: Seq<OverrideView>,
    plugin: Seq<char>,
    providers: Seq<ProviderView>,
) -> Seq<ProviderView> {
    Seq::new(
        providers.len(),
        |i: int|
            match replacement(entries, plugin, providers[i].key.type_id) {
                Some(at) => entries[at].provider,
                None => providers[i],
            },
    )
}

/// Whether providers hold one of a type.
pub open spec fn has_type(providers: Seq<ProviderView>, type_id: u64) -> bool {
    exists|i: int| 0 <= i < providers.len() && (#[trigger] providers[i]).key.type_id == type_id
}

/// Whether a replacement comes on top of the providers of its plugin, because
/// none of them has its type.
pub open spec fn comes_on_top(
    entry: OverrideView,
    plugin: Seq<char>,
    providers: Seq<ProviderView>,
) -> bool {
    entry.plugin == Some(plugin) && !has_type(providers, entry.provider.key.type_id)
}

/// The providers with the first so many replacements of their plugin on top.
pub open spec fn shadowed(
    entries: Seq<OverrideView>,
    plugin: Seq<char>,
    providers: Seq<ProviderView>,
    count: int,
) -> Seq<ProviderView>
    decreases count,
{
    if count <= 0 {
        providers
    } else {
        let before = shadowed(entries, plugin, providers, count - 1);
        if comes_on_top(entries[count - 1], plugin, before) {
            before.push(entries[count - 1].provider)
        } else {
            before
        }
    }
}

/// The providers that a plugin ends up with.
pub open spec fn overridden(
    entries: Seq<OverrideView>,
    plugin: Seq<char>,
    providers: Seq<ProviderView>,
) -> Seq<ProviderView> {
    shadowed(entries, plugin, replaced(entries, plugin, providers), entries.len() as int)
}

/// Whether a replacement replaces one of the first so many providers.
pub open spec fn replaces(
    entries: Seq<OverrideView>,
    plugin: Seq<char>,
    providers: Seq<ProviderView>,
    count: int,
    at: int,
) -> bool {
    exists|i: int|
        0 <= i < count && replacement(entries, plugin, (#[trigger] providers[i]).key.type_id)
            == Some(at)
}

/// The replacements once they were applied to a plugin: those in use are
/// marked.
pub open spec fn marked(
    entries: Seq<OverrideView>,
    plugin: Seq<char>,
    providers: Seq<ProviderView>,
) -> Seq<OverrideView> {
    Seq::new(
        entries.len(),
        |at: int|
            OverrideView {
                applied: entries[at].applied || replaces(
                    entries,
                    plugin,
                    providers,
                    providers.len() as int,
                    at,
                ) || comes_on_top(
                    entries[at],
                    plugin,
                    shadowed(entries, plugin, replaced(entries, plugin, providers), at),
                ),
                ..entries[at]
            },
    )
}

/// The replacements after one more was declared. It takes the place of an
/// earlier one for the same type and scope.
pub open spec fn declared_override(
    entries: Seq<OverrideView>,
    plugin: Option<Seq<char>>,
    provider: ProviderView,
) -> Seq<OverrideView> {
    let entry = OverrideView { plugin, provider, applied: false };
    match entry_for(entries, plugin, provider.key.type_id, 0) {
        Some(at) => entries.update(at, entry),
        None => entries.push(entry),
    }
}

/// The first replacement, from one position on, that replaced nothing.
pub open spec fn unused(entries: Seq<OverrideView>, at: int) -> Option<OverrideView>
    decreases entries.len() - at,
{
    if at < 0 || at >= entries.len() {
        None
    } else if !entries[at].applied {
        Some(entries[at])
    } else {
        unused(entries, at + 1)
    }
}

proof fn lemma_entry_found(
    entries: Seq<OverrideView>,
    plugin: Option<Seq<char>>,
    type_id: u64,
    at: int,
)
    requires
        0 <= at,
    ensures
        match entry_for(entries, plugin, type_id, at) {
            Some(found) => at <= found < entries.len() && entries[found].plugin == plugin
                && entries[found].provider.key.type_id == type_id,
            None => true,
        },
    decreases entries.len() - at,
{
    if at < entries.len() {
        lemma_entry_found(entries, plugin, type_id, at + 1);
    }
}

fn same_scope(left: &Option<String>, right: Option<&str>) -> (same: bool)
    ensures
        same == (opt_text(*left) == match right {
            Some(right) => Some(right@),
            None => None,
        }),
{
    match (left, right) {
        (Some(left), Some(right)) => eq_text(left.as_str(), right),
        (None, None) => true,
        _ => false,
    }
}

impl Default for TestOverrides {
    fn default() -> (overrides: Self)
        ensures
            overrides@ == Seq::<OverrideView>::empty(),
    {
        TestOverrides::new()
    }
}

impl TestOverrides {
    #[must_use]
    pub fn new() -> (overrides: Self)
        ensures
            overrides@ == Seq::<OverrideView>::empty(),
    {
        let overrides = TestOverrides { entries: Vec::new() };
        assert(overrides@ =~= Seq::<OverrideView>::empty());
        overrides
    }

    /// Replaces every registered provider with the same output type.
    #[must_use]
    pub fn replace(self, provider: Provider) -> (overrides: Self)
        ensures
            overrides@ == declared_override(self@, None, provider@),
    {
        let mut updated = self;
        updated.insert(None, provider);
        updated
    }

    /// Replaces or shadows a provider inside one exact plugin path.
    #[must_use]
    pub fn replace_in(self, plugin: &str, provider: Provider) -> (overrides: Self)
        ensures
            overrides@ == declared_override(self@, Some(plugin@), provider@),
    {
        let mut updated = self;
        updated.insert(Some(plugin.to_owned()), provider);
        updated
    }

    /// Looks for the replacement of a type that is declared for just one scope.
    fn find(&self, plugin: Option<&str>, type_id: u64) -> (found: Option<usize>)
        ensures
            match found {
                Some(at) => at < self@.len() && entry_for(
                    self@,
                    match plugin {
                        Some(plugin) => Some(plugin@),
                        None => None,
                    },
                    type_id,
                    0,
                ) == Some(at as int),
                None => entry_for(
                    self@,
                    match plugin {
                        Some(plugin) => Some(plugin@),
                        None => None,
                    },
                    type_id,
                    0,
                ) is None,
            },
    {
        let ghost scope = match plugin {
            Some(plugin) => Some(plugin@),
            None => None,
        };
        let mut at: usize = 0;
        while at < self.entries.len()
            invariant
                at <= self.entries@.len(),
                scope == match plugin {
                    Some(plugin) => Some(plugin@),
                    None => None,
                },
                entry_for(self@, scope, type_id, 0) == entry_for(self@, scope, type_id, at as int),
            decreases self.entries@.len() - at,
        {
            assert(self@[at as int] == self.entries@[at as int]@);
            if same_scope(&self.entries[at].plugin, plugin) && self.entries[at].provider.key.type_id
                == type_id {
                return Some(at);
            }
            at += 1;
        }
        None
    }

    fn insert(&mut self, plugin: Option<String>, provider: Provider)
        ensures
            final(self)@ == declared_override(old(self)@, opt_text(plugin), provider@),
    {
        let ghost before = self@;
        let ghost entry = OverrideView {
            plugin: opt_text(plugin),
            provider: provider@,
            applied: false,
        };
        let found = self.find(
            match &plugin {
                Some(plugin) => Some(plugin.as_str()),
                None => None,
            },
            provider.key.type_id,
        );
        match found {
            Some(at) => {
                self.entries.set(at, TestOverrideEntry { plugin, provider, applied: false });
                assert(self@ =~= before.update(at as int, entry));
            },
            None => {
                self.entries.push(TestOverrideEntry { plugin, provider, applied: false });
                assert(self@ =~= before.push(entry));
            },
        }
    }

    /// Marks a replacement as in use.
    fn mark(&mut self, at: usize)
        requires
            at < old(self)@.len(),
        ensures
            final(self)@ == old(self)@.update(
                at as int,
                OverrideView { applied: true, ..old(self)@[at as int] },
            ),
    {
        let ghost before = self@;
        self.entries[at].applied = true;
        assert(self@ =~= before.update(
            at as int,
            OverrideView { applied: true, ..before[at as int] },
        ));
    }

    /// Applies the replacements to the providers of a plugin.
    pub fn apply(&mut self, plugin: &str, providers: Vec<Provider>) -> (applied: Vec<Provider>)
        ensures
            providers_view(applied@) == overridden(
                old(self)@,
                plugin@,
                providers_view(providers@),
            ),
            final(self)@ == marked(old(self)@, plugin@, providers_view(providers@)),
    {
        let ghost entries = self@;
        let ghost path = plugin@;
        let ghost given = providers_view(providers@);
        let mut applied: Vec<Provider> = Vec::new();
        let mut index: usize = 0;
        assert(self@ =~= Seq::new(
            entries.len(),
            |at: int|
                OverrideView {
                    applied: entries[at].applied || replaces(entries, path, given, 0, at),
                    ..entries[at]
                },
        ));
        while index < providers.len()
            invariant
                index <= providers@.len(),
                given == providers_view(providers@),
                path == plugin@,
                applied@.len() == index,
                forall|i: int|
                    0 <= i < index ==> (#[trigger] applied@[i])@ == replaced(
                        entries,
                        path,
                        given,
                    )[i],
                self@ == Seq::new(
                    entries.len(),
                    |at: int|
                        OverrideView {
                            applied: entries[at].applied || replaces(
                                entries,
                                path,
                                given,
                                index as int,
                                at,
                            ),
                            ..entries[at]
                        },
                ),
            decreases providers@.len() - index,
        {
            let type_id: u64 = providers[index].key.type_id;
            assert(given[index as int] == providers@[index as int]@);
            proof {
                lemma_same_entries(self@, entries, Some(path), type_id, 0);
                lemma_same_entries(self@, entries, None, type_id, 0);
            }
            let scoped = self.find(Some(plugin), type_id);
            let found = match scoped {
                Some(at) => Some(at),
                None => self.find(None, type_id),
            };
            let ghost before = self@;
            match found {
                Some(at) => {
                    assert(replacement(entries, path, type_id) == Some(at as int));
                    assert(self@[at as int] == self.entries@[at as int]@);
                    applied.push(self.entries[at].provider.again());
                    assert(applied@[index as int]@ =~= entries[at as int].provider);
                    self.mark(at);
                },
                None => {
                    assert(replacement(entries, path, type_id) is None);
                    applied.push(providers[index].again());
                    assert(applied@[index as int]@ =~= given[index as int]);
                },
            }
            proof {
                assert forall|at: int| 0 <= at < entries.len() implies #[trigger] self@[at]
                    == (OverrideView {
                    applied: entries[at].applied || replaces(entries, path, given, index + 1, at),
                    ..entries[at]
                }) by {
                    assert(before[at].applied == (entries[at].applied || replaces(
                        entries,
                        path,
                        given,
                        index as int,
                        at,
                    )));
                    if replaces(entries, path, given, index + 1, at) {
                        let i = choose|i: int|
                            0 <= i < index + 1 && replacement(
                                entries,
                                path,
                                (#[trigger] given[i]).key.type_id,
                            ) == Some(at);
                        if i < index {
                            assert(replaces(entries, path, given, index as int, at));
                        }
                    }
                    if replaces(entries, path, given, index as int, at) {
                        let i = choose|i: int|
                            0 <= i < index && replacement(
                                entries,
                                path,
                                (#[trigger] given[i]).key.type_id,
                            ) == Some(at);
                        assert(given[i].key.type_id == given[i].key.type_id);
                    }
                    if found matches Some(k) && k == at {
                        assert(replacement(entries, path, given[index as int].key.type_id) == Some(
                            at,
                        ));
                    }
                }
                assert(self@ =~= Seq::new(
                    entries.len(),
                    |at: int|
                        OverrideView {
                            applied: entries[at].applied || replaces(
                                entries,
                                path,
                                given,
                                index + 1,
                                at,
                            ),
                            ..entries[at]
                        },
                ));
            }
            index += 1;
        }
        let ghost substituted = replaced(entries, path, given);
        let ghost middle = self@;
        assert(providers_view(applied@) =~= substituted);
        let mut at: usize = 0;
        while at < self.entries.len()
            invariant
                at <= entries.len(),
                path == plugin@,
                self@.len() == entries.len(),
                self.entries@.len() == entries.len(),
                middle.len() == entries.len(),
                forall|k: int|
                    0 <= k < entries.len() ==> (#[trigger] middle[k]).plugin == entries[k].plugin
                        && middle[k].provider == entries[k].provider,
                providers_view(applied@) == shadowed(entries, path, substituted, at as int),
                forall|k: int|
                    at <= k < entries.len() ==> #[trigger] self@[k] == middle[k],
                forall|k: int|
                    0 <= k < at ==> #[trigger] self@[k] == (OverrideView {
                        applied: middle[k].applied || comes_on_top(
                            entries[k],
                            path,
                            shadowed(entries, path, substituted, k),
                        ),
                        ..entries[k]
                    }),
            decreases entries.len() - at,
        {
            let ghost before = providers_view(applied@);
            assert(self@[at as int] == self.entries@[at as int]@);
            assert(middle[at as int].plugin == entries[at as int].plugin);
            let type_id: u64 = self.entries[at].provider.key.type_id;
            let held = holds_type(&applied, type_id);
            if same_scope(&self.entries[at].plugin, Some(plugin)) && !held {
                applied.push(self.entries[at].provider.again());
                assert(applied@.last()@ =~= entries[at as int].provider);
                assert(providers_view(applied@) =~= before.push(entries[at as int].provider));
                self.mark(at);
                assert(self@.len() == self.entries@.len());
            }
            at += 1;
        }
        assert(self@ =~= marked(entries, path, given));
        applied
    }

    /// Refuses replacements that replaced nothing.
    pub fn validate(&self) -> (validated: Result<(), ExecutableBuildError>)
        ensures
            match (validated, unused(self@, 0)) {
                (Ok(()), None) => true,
                (Err(error), Some(entry)) => error@ == ExecutableFault::UnknownProviderOverride(
                    entry.plugin,
                    entry.provider.key.name@,
                ),
                _ => false,
            },
    {
        let mut at: usize = 0;
        while at < self.entries.len()
            invariant
                at <= self.entries@.len(),
                unused(self@, 0) == unused(self@, at as int),
            decreases self.entries@.len() - at,
        {
            assert(self@[at as int] == self.entries@[at as int]@);
            if !self.entries[at].applied {
                let entry = &self.entries[at];
                return Err(
                    ExecutableBuildError::UnknownProviderOverride {
                        plugin: entry.plugin.clone(),
                        dependency: entry.provider.key.name.to_owned(),
                    },
                );
            }
            at += 1;
        }
        Ok(())
    }
}

proof fn lemma_same_entries(
    left: Seq<OverrideView>,
    right: Seq<OverrideView>,
    plugin: Option<Seq<char>>,
    type_id: u64,
    at: int,
)
    requires
        left.len() == right.len(),
        forall|k: int|
            0 <= k < left.len() ==> (#[trigger] left[k]).plugin == right[k].plugin
                && left[k].provider == right[k].provider,
        0 <= at,
    ensures
        entry_for(left, plugin, type_id, at) == entry_for(right, plugin, type_id, at),
    decreases left.len() - at,
{
    if at < left.len() {
        assert(left[at].plugin == right[at].plugin);
        lemma_same_entries(left, right, plugin, type_id, at + 1);
    }
}

/// Whether providers hold one of a type.
fn holds_type(providers: &Vec<Provider>, type_id: u64) -> (held: bool)
    ensures
        held == has_type(providers_view(providers@), type_id),
{
    let ghost views = providers_view(providers@);
    let mut index: usize = 0;
    while index < providers.len()
        invariant
            index <= providers@.len(),
            views == providers_view(providers@),
            forall|i: int| 0 <= i < index ==> (#[trigger] views[i]).key.type_id != type_id,
        decreases providers@.len() - index,
    {
        assert(views[index as int] == providers@[index as int]@);
        if providers[index].key.type_id == type_id {
            return true;
        }
        index += 1;
    }
    false
}

/// What is inherited runs first: under every hook, those of the outer scope stand
/// before those of the plugin, and none of either is lost. Without an outer scope a
/// plugin has its own hooks alone.
pub proof fn law_outer_hooks_run_first(outer: HooksView, plugin: HooksView)
    ensures
        ({
            let all = inherited_hooks(outer, plugin);
            &&& comes_before(outer.on_request, plugin.on_request, all.on_request)
            &&& comes_before(outer.pre_parse, plugin.pre_parse, all.pre_parse)
            &&& comes_before(outer.pre_validate, plugin.pre_validate, all.pre_validate)
            &&& comes_before(outer.pre_handler, plugin.pre_handler, all.pre_handler)
            &&& comes_before(outer.pre_serialize, plugin.pre_serialize, all.pre_serialize)
            &&& comes_before(outer.on_error, plugin.on_error, all.on_error)
            &&& comes_before(outer.on_response, plugin.on_response, all.on_response)
        }),
        inherited_hooks(no_hooks(), plugin) == plugin,
        inherited_hooks(plugin, no_hooks()) == plugin,
{
    let alone = inherited_hooks(no_hooks(), plugin);
    let above = inherited_hooks(plugin, no_hooks());
    assert(alone.on_request =~= plugin.on_request && above.on_request =~= plugin.on_request);
    assert(alone.pre_parse =~= plugin.pre_parse && above.pre_parse =~= plugin.pre_parse);
    assert(alone.pre_validate =~= plugin.pre_validate && above.pre_validate
        =~= plugin.pre_validate);
    assert(alone.pre_handler =~= plugin.pre_handler && above.pre_handler =~= plugin.pre_handler);
    assert(alone.pre_serialize =~= plugin.pre_serialize && above.pre_serialize
        =~= plugin.pre_serialize);
    assert(alone.on_error =~= plugin.on_error && above.on_error =~= plugin.on_error);
    assert(alone.on_response =~= plugin.on_response && above.on_response =~= plugin.on_response);
}

/// A list that holds one list, then another, and nothing else.
pub open spec fn comes_before<T>(first: Seq<T>, second: Seq<T>, all: Seq<T>) -> bool {
    &&& all.len() == first.len() + second.len()
    &&& forall|i: int| 0 <= i < first.len() ==> #[trigger] all[i] == first[i]
    &&& forall|i: int| 0 <= i < second.len() ==> all[first.len() + i] == #[trigger] second[i]
}

proof fn lemma_entry_for(
    entries: Seq<OverrideView>,
    plugin: Option<Seq<char>>,
    type_id: u64,
    at: int,
)
    requires
        0 <= at,
    ensures
        match entry_for(entries, plugin, type_id, at) {
            Some(found) => at <= found < entries.len() && entries[found].plugin == plugin
                && entries[found].provider.key.type_id == type_id && forall|i: int|
                at <= i < found ==> (#[trigger] entries[i]).plugin != plugin
                    || entries[i].provider.key.type_id != type_id,
            None => forall|i: int|
                at <= i < entries.len() ==> (#[trigger] entries[i]).plugin != plugin
                    || entries[i].provider.key.type_id != type_id,
        },
    decreases entries.len() - at,
{
    if at < entries.len() {
        lemma_entry_for(entries, plugin, type_id, at + 1);
    }
}

/// An override is meant for a provider where it overrides the same type, in that
/// plugin or in every plugin.
pub open spec fn meant_for(entry: OverrideView, plugin: Option<Seq<char>>, type_id: u64) -> bool {
    entry.plugin == plugin && entry.provider.key.type_id == type_id
}

/// Every provider keeps its place. It is replaced by the override that is meant for
/// its plugin, by one that is meant for every plugin where there is none, and left
/// as it is where there is neither.
pub proof fn law_overrides_replace_their_provider(
    entries: Seq<OverrideView>,
    plugin: Seq<char>,
    providers: Seq<ProviderView>,
    i: int,
)
    requires
        0 <= i < providers.len(),
    ensures
        ({
            let own = chosen(entries, Some(plugin), providers[i].key.type_id);
            let any = chosen(entries, None, providers[i].key.type_id);
            let result = overridden(entries, plugin, providers);
            &&& i < result.len()
            &&& own.len() > 0 ==> own.contains(result[i])
            &&& own.len() == 0 && any.len() > 0 ==> any.contains(result[i])
            &&& own.len() == 0 && any.len() == 0 ==> result[i] == providers[i]
            &&& result[i].key.type_id == providers[i].key.type_id
        }),
{
    let type_id = providers[i].key.type_id;
    lemma_entry_for(entries, Some(plugin), type_id, 0);
    lemma_entry_for(entries, None, type_id, 0);
    lemma_chosen(entries, Some(plugin), type_id);
    lemma_chosen(entries, None, type_id);
    lemma_shadowed_keeps(
        entries,
        plugin,
        replaced(entries, plugin, providers),
        entries.len() as int,
    );
}

/// The providers that the overrides for a plugin and a type put in place.
pub open spec fn chosen(
    entries: Seq<OverrideView>,
    plugin: Option<Seq<char>>,
    type_id: u64,
) -> Seq<ProviderView> {
    entries.filter(|entry: OverrideView| meant_for(entry, plugin, type_id)).map_values(
        |entry: OverrideView| entry.provider,
    )
}

proof fn lemma_chosen(entries: Seq<OverrideView>, plugin: Option<Seq<char>>, type_id: u64)
    ensures
        forall|e: int|
            0 <= e < entries.len() && meant_for(#[trigger] entries[e], plugin, type_id) ==> chosen(
                entries,
                plugin,
                type_id,
            ).contains(entries[e].provider),
        chosen(entries, plugin, type_id).len() > 0 ==> exists|e: int|
            0 <= e < entries.len() && meant_for(#[trigger] entries[e], plugin, type_id),
{
    let pred = |entry: OverrideView| meant_for(entry, plugin, type_id);
    let kept = entries.filter(pred);
    let list = chosen(entries, plugin, type_id);
    assert forall|e: int| 0 <= e < entries.len() && meant_for(
        #[trigger] entries[e],
        plugin,
        type_id,
    ) implies list.contains(entries[e].provider) by {
        entries.lemma_filter_contains(pred, e);
        let j = kept.index_of(entries[e]);
        assert(list[j] == entries[e].provider);
    }
    if list.len() > 0 {
        entries.lemma_filter_pred(pred, 0);
        entries.lemma_filter_contains_rev(pred, kept[0]);
        let e = entries.index_of(kept[0]);
        assert(meant_for(entries[e], plugin, type_id));
    }
}

/// A provider comes from one of the first overrides, and that names the plugin.
pub open spec fn put_in_place(
    entries: Seq<OverrideView>,
    plugin: Seq<char>,
    count: int,
    provider: ProviderView,
) -> bool {
    exists|e: int|
        0 <= e < count && (#[trigger] entries[e]).plugin == Some(plugin) && entries[e].provider
            == provider
}

proof fn lemma_shadowed_keeps(
    entries: Seq<OverrideView>,
    plugin: Seq<char>,
    providers: Seq<ProviderView>,
    count: int,
)
    ensures
        shadowed(entries, plugin, providers, count).len() >= providers.len(),
        forall|i: int|
            0 <= i < providers.len() ==> #[trigger] shadowed(entries, plugin, providers, count)[i]
                == providers[i],
        forall|i: int|
            providers.len() <= i < shadowed(entries, plugin, providers, count).len()
                ==> put_in_place(
                entries,
                plugin,
                count,
                #[trigger] shadowed(entries, plugin, providers, count)[i],
            ),
    decreases count,
{
    if count > 0 {
        lemma_shadowed_keeps(entries, plugin, providers, count - 1);
        let before = shadowed(entries, plugin, providers, count - 1);
        let after = shadowed(entries, plugin, providers, count);
        assert forall|i: int| providers.len() <= i < after.len() implies put_in_place(
            entries,
            plugin,
            count,
            #[trigger] after[i],
        ) by {
            if i < before.len() {
                assert(after[i] == before[i]);
                assert(put_in_place(entries, plugin, count - 1, before[i]));
            } else {
                assert(entries[count - 1].provider == after[i]);
            }
        }
    }
}

/// Overrides that name a plugin provide there what the plugin has no provider of;
/// nothing else is added.
pub proof fn law_overrides_add_what_is_missing(
    entries: Seq<OverrideView>,
    plugin: Seq<char>,
    providers: Seq<ProviderView>,
)
    ensures
        forall|e: int|
            0 <= e < entries.len() && (#[trigger] entries[e]).plugin == Some(plugin) ==> has_type(
                overridden(entries, plugin, providers),
                entries[e].provider.key.type_id,
            ),
        forall|i: int|
            providers.len() <= i < overridden(entries, plugin, providers).len() ==> put_in_place(
                entries,
                plugin,
                entries.len() as int,
                #[trigger] overridden(entries, plugin, providers)[i],
            ),
{
    let start = replaced(entries, plugin, providers);
    lemma_shadowed_keeps(entries, plugin, start, entries.len() as int);
    assert forall|e: int|
        0 <= e < entries.len() && (#[trigger] entries[e]).plugin == Some(plugin) implies has_type(
        overridden(entries, plugin, providers),
        entries[e].provider.key.type_id,
    ) by {
        lemma_shadowed_has(entries, plugin, start, entries.len() as int, e);
    }
}

proof fn lemma_shadowed_has(
    entries: Seq<OverrideView>,
    plugin: Seq<char>,
    providers: Seq<ProviderView>,
    count: int,
    e: int,
)
    requires
        0 <= e < count <= entries.len(),
        entries[e].plugin == Some(plugin),
    ensures
        has_type(
            shadowed(entries, plugin, providers, count),
            entries[e].provider.key.type_id,
        ),
    decreases count,
{
    let before = shadowed(entries, plugin, providers, count - 1);
    let after = shadowed(entries, plugin, providers, count);
    let type_id = entries[e].provider.key.type_id;
    if e < count - 1 {
        lemma_shadowed_has(entries, plugin, providers, count - 1, e);
    }
    if has_type(before, type_id) {
        let i = choose|i: int|
            0 <= i < before.len() && (#[trigger] before[i]).key.type_id == type_id;
        assert(after[i] == before[i]);
    } else {
        assert(after[after.len() - 1].key.type_id == type_id);
    }
}

/// A declared override is the one that is found for its plugin and type, not yet
/// applied; what is found for other plugins and types stays the same.
pub proof fn law_declared_overrides_are_found(
    entries: Seq<OverrideView>,
    plugin: Option<Seq<char>>,
    provider: ProviderView,
    other: Option<Seq<char>>,
    type_id: u64,
)
    ensures
        ({
            let after = declared_override(entries, plugin, provider);
            &&& entry_for(after, plugin, provider.key.type_id, 0) matches Some(at) && after[at] == (
            OverrideView { plugin, provider, applied: false })
            &&& other != plugin || type_id != provider.key.type_id ==> (match entry_for(
                entries,
                other,
                type_id,
                0,
            ) {
                Some(at) => entry_for(after, other, type_id, 0) == Some(at) && after[at]
                    == entries[at],
                None => entry_for(after, other, type_id, 0) is None,
            })
        }),
{
    let after = declared_override(entries, plugin, provider);
    let own = provider.key.type_id;
    lemma_entry_for(entries, plugin, own, 0);
    lemma_entry_for(after, plugin, own, 0);
    lemma_entry_for(entries, other, type_id, 0);
    lemma_entry_for(after, other, type_id, 0);
    match entry_for(entries, plugin, own, 0) {
        Some(at) => {
            assert(meant_for(after[at], plugin, own));
            assert forall|i: int| 0 <= i < entries.len() && i != at implies after[i]
                == entries[i] by {}
        },
        None => {
            assert(meant_for(after[entries.len() as int], plugin, own));
            assert forall|i: int| 0 <= i < entries.len() implies after[i] == entries[i] by {}
        },
    }
}

/// The first override that no provider matched is reported; none is where every
/// one was applied.
pub proof fn law_unmatched_overrides_are_reported(entries: Seq<OverrideView>)
    ensures
        unused(entries, 0) is None <==> forall|i: int|
            0 <= i < entries.len() ==> (#[trigger] entries[i]).applied,
        unused(entries, 0) matches Some(entry) ==> !entry.applied && entries.contains(entry),
{
    lemma_unused(entries, 0);
}

proof fn lemma_unused(entries: Seq<OverrideView>, at: int)
    requires
        0 <= at,
    ensures
        unused(entries, at) is None <==> forall|i: int|
            at <= i < entries.len() ==> (#[trigger] entries[i]).applied,
        unused(entries, at) matches Some(entry) ==> !entry.applied && entries.contains(entry),
    decreases entries.len() - at,
{
    if at < entries.len() {
        lemma_unused(entries, at + 1);
        assert(entries.contains(entries[at]));
    }
}

/// An override keeps the mark that it was applied. One for another plugin is not
/// marked here; one that is the first for a type that the plugin provides is.
pub proof fn law_overrides_are_marked_where_they_apply(
    entries: Seq<OverrideView>,
    plugin: Seq<char>,
    providers: Seq<ProviderView>,
    at: int,
)
    requires
        0 <= at < entries.len(),
    ensures
        ({
            let after = marked(entries, plugin, providers);
            &&& after.len() == entries.len()
            &&& after[at].plugin == entries[at].plugin && after[at].provider == entries[at].provider
            &&& entries[at].applied ==> after[at].applied
            &&& (entries[at].plugin matches Some(other) && other != plugin) ==> after[at].applied
                == entries[at].applied
            &&& entries[at].plugin == Some(plugin) && has_type(
                providers,
                entries[at].provider.key.type_id,
            ) && (forall|e: int|
                0 <= e < at ==> !meant_for(
                    #[trigger] entries[e],
                    Some(plugin),
                    entries[at].provider.key.type_id,
                )) ==> after[at].applied
        }),
{
    let type_id = entries[at].provider.key.type_id;
    let count = providers.len() as int;
    lemma_entry_for(entries, Some(plugin), type_id, 0);
    if entries[at].plugin matches Some(other) && other != plugin {
        assert forall|i: int| 0 <= i < count implies replacement(
            entries,
            plugin,
            (#[trigger] providers[i]).key.type_id,
        ) != Some(at) by {
            lemma_entry_for(entries, Some(plugin), providers[i].key.type_id, 0);
            lemma_entry_for(entries, None, providers[i].key.type_id, 0);
        }
        assert(!replaces(entries, plugin, providers, count, at));
    }
    if entries[at].plugin == Some(plugin) && has_type(providers, type_id) && (forall|e: int|
        0 <= e < at ==> !meant_for(#[trigger] entries[e], Some(plugin), type_id)) {
        let i = choose|i: int|
            0 <= i < providers.len() && (#[trigger] providers[i]).key.type_id == type_id;
        let found = entry_for(entries, Some(plugin), type_id, 0);
        assert(found is Some);
        if found->Some_0 < at {
            assert(!meant_for(entries[found->Some_0], Some(plugin), type_id));
        }
        assert(replacement(entries, plugin, providers[i].key.type_id) == Some(at));
        assert(replaces(entries, plugin, providers, count, at));
    }
}

} // verus!
