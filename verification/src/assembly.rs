//! Assembling an application from plugins: what each scope sees, what the
//! operations need, and the order in which everything starts and stops.
use crate::application::{
    build_fault, defines, descriptors_view, law_validity_depends_on_what_is_said,
    lemma_no_operation_fault, App, AppDefinition, OperationDescriptor,
};
use crate::contract::OperationId;
use crate::dependency::{
    dependency_message, providers_view, DependencyError, DependencyLifetime, DependencySlot,
    Provider, ProviderView,
};
use crate::executable::{
    hooked_operation, inherited_hooks, marked, no_hooks, overridden, unused, ExecutableOperation,
    HookScope, HooksView, OverrideView, Plugin, TestOverrides,
};
use crate::executable::CompiledHooks;
use crate::graph::{
    graph_fault, registered, validate_provider_graph, ExecutableBuildError, ExecutableFault,
    ProviderRegistration, Visible,
};
use crate::operation::SecuritySchemeDescriptor;
use crate::text::{chars_of, eq_text};
use crate::wiring::{
    compile_operation_dependencies, compile_singletons, handler_needs, nothing_built,
    runs_factories, singleton_steps, singletons_before, steps_view, BuildStep, RequestView,
};
use vstd::prelude::*;
use vstd::string::*;

verus! {

// ---------------------------------------------------------------------------
// Collecting plugins
// ---------------------------------------------------------------------------

/// What a registration declares.
#[verifier::ext_equal]
pub struct RegistrationView {
    pub provider: ProviderView,
    pub visible: Seq<Visible>,
    pub plugin: Seq<char>,
}

impl View for ProviderRegistration {
    type V = RegistrationView;

    open spec fn view(&self) -> RegistrationView {
        RegistrationView {
            provider: self.provider@,
            visible: self.visible@,
            plugin: self.plugin@,
        }
    }
}

/// What registrations declare.
pub open spec fn registrations_view(regs: Seq<ProviderRegistration>) -> Seq<RegistrationView> {
    regs.map_values(|registration: ProviderRegistration| registration@)
}

/// An operation with what its scope sees and the hooks around it.
#[derive(Debug)]
pub struct ScopedOperation {
    pub operation: ExecutableOperation,
    pub visible: Vec<Visible>,
    pub plugin: String,
    pub hooks: HookScope,
}

/// What is known of an operation in its scope.
#[verifier::ext_equal]
pub struct ScopedView {
    pub operation: ExecutableOperation,
    pub visible: Seq<Visible>,
    pub plugin: Seq<char>,
    pub hooks: HooksView,
}

impl View for ScopedOperation {
    type V = ScopedView;

    open spec fn view(&self) -> ScopedView {
        ScopedView {
            operation: self.operation,
            visible: self.visible@,
            plugin: self.plugin@,
            hooks: self.hooks@,
        }
    }
}

/// What is known of operations in their scopes.
pub open spec fn scoped_view(operations: Seq<ScopedOperation>) -> Seq<ScopedView> {
    operations.map_values(|operation: ScopedOperation| operation@)
}

/// What was collected from plugins so far.
#[derive(Debug)]
pub struct PluginCollector {
    pub registrations: Vec<ProviderRegistration>,
    pub operations: Vec<ScopedOperation>,
    pub security_schemes: Vec<SecuritySchemeDescriptor>,
    pub startup_hooks: Vec<usize>,
    pub shutdown_hooks: Vec<usize>,
    pub overrides: TestOverrides,
}

/// What plugins declare together.
#[verifier::ext_equal]
pub struct CollectorView {
    pub registrations: Seq<RegistrationView>,
    pub operations: Seq<ScopedView>,
    pub security_schemes: Seq<SecuritySchemeDescriptor>,
    pub startup_hooks: Seq<usize>,
    pub shutdown_hooks: Seq<usize>,
    pub overrides: Seq<OverrideView>,
}

impl View for PluginCollector {
    type V = CollectorView;

    open spec fn view(&self) -> CollectorView {
        CollectorView {
            registrations: registrations_view(self.registrations@),
            operations: scoped_view(self.operations@),
            security_schemes: self.security_schemes@,
            startup_hooks: self.startup_hooks@,
            shutdown_hooks: self.shutdown_hooks@,
            overrides: self.overrides@,
        }
    }
}

/// A character that the name of a plugin may hold.
pub open spec fn plugin_char(character: char) -> bool {
    ||| 'a' <= character <= 'z'
    ||| 'A' <= character <= 'Z'
    ||| '0' <= character <= '9'
    ||| character == '-'
    ||| character == '_'
}

/// A name that a plugin can have.
pub open spec fn is_plugin_name(name: Seq<char>) -> bool {
    name.len() > 0 && forall|i: int| 0 <= i < name.len() ==> plugin_char(#[trigger] name[i])
}

/// Where a plugin stands below its parents.
pub open spec fn plugin_path(parent: Seq<char>, name: Seq<char>) -> Seq<char> {
    if parent.len() == 0 {
        name
    } else {
        parent + "/"@ + name
    }
}

/// The first provider, from one position on, whose type an earlier one has.
pub open spec fn repeated_type(providers: Seq<ProviderView>, at: int) -> Option<int>
    decreases providers.len() - at,
{
    if at < 0 || at >= providers.len() {
        None
    } else if exists|i: int| 0 <= i < at && (#[trigger] providers[i]).key.type_id
        == providers[at].key.type_id {
        Some(at)
    } else {
        repeated_type(providers, at + 1)
    }
}

/// What a plugin sees: what it inherits, and its own providers over that.
pub open spec fn sees(visible: Seq<Visible>, base: int, providers: Seq<ProviderView>) -> Seq<
    Visible,
> {
    visible + Seq::new(
        providers.len(),
        |i: int| Visible { type_id: providers[i].key.type_id, id: (base + i) as usize },
    )
}

/// What is collected once a plugin itself was read, before its children.
pub open spec fn with_plugin(
    plugin: Plugin,
    visible: Seq<Visible>,
    hooks: HooksView,
    path: Seq<char>,
    providers: Seq<ProviderView>,
    so_far: CollectorView,
) -> CollectorView {
    CollectorView {
        registrations: so_far.registrations + Seq::new(
            providers.len(),
            |i: int| RegistrationView { provider: providers[i], visible, plugin: path },
        ),
        operations: so_far.operations + Seq::new(
            plugin.operations@.len(),
            |i: int| ScopedView { operation: plugin.operations@[i], visible, plugin: path, hooks },
        ),
        security_schemes: so_far.security_schemes + plugin.security_schemes@,
        startup_hooks: so_far.startup_hooks + plugin.startup_hooks@,
        shutdown_hooks: so_far.shutdown_hooks + plugin.shutdown_hooks@,
        overrides: marked(so_far.overrides, path, providers_view(plugin.providers@)),
    }
}

/// What a plugin and everything below it adds, or what is wrong with it.
pub open spec fn collected(
    plugin: Plugin,
    visible: Seq<Visible>,
    hooks: HooksView,
    parent: Seq<char>,
    so_far: CollectorView,
) -> Result<CollectorView, ExecutableFault>
    decreases plugin, 0int,
{
    let path = plugin_path(parent, plugin.name@);
    let providers = overridden(so_far.overrides, path, providers_view(plugin.providers@));
    let own = sees(visible, so_far.registrations.len() as int, providers);
    let around = inherited_hooks(hooks, plugin.hooks@);
    if !is_plugin_name(plugin.name@) {
        Err(ExecutableFault::InvalidPluginName(path))
    } else {
        match repeated_type(providers, 0) {
            Some(at) => Err(ExecutableFault::DuplicateProvider(path, providers[at].key.name@)),
            None => collected_children(
                plugin.plugins@,
                0,
                own,
                around,
                path,
                with_plugin(plugin, own, around, path, providers, so_far),
            ),
        }
    }
}

/// What plugins add, from one position on.
pub open spec fn collected_children(
    plugins: Seq<Plugin>,
    at: int,
    visible: Seq<Visible>,
    hooks: HooksView,
    path: Seq<char>,
    so_far: CollectorView,
) -> Result<CollectorView, ExecutableFault>
    decreases plugins, plugins.len() - at,
{
    if at < 0 || at >= plugins.len() {
        Ok(so_far)
    } else {
        match collected(plugins[at], visible, hooks, path, so_far) {
            Err(fault) => Err(fault),
            Ok(more) => collected_children(plugins, at + 1, visible, hooks, path, more),
        }
    }
}

/// Nothing collected yet.
pub open spec fn nothing_collected(overrides: Seq<OverrideView>) -> CollectorView {
    CollectorView {
        registrations: Seq::empty(),
        operations: Seq::empty(),
        security_schemes: Seq::empty(),
        startup_hooks: Seq::empty(),
        shutdown_hooks: Seq::empty(),
        overrides,
    }
}

/// Whether a name can be that of a plugin.
fn valid_plugin_name(name: &str) -> (valid: bool)
    ensures
        valid == is_plugin_name(name@),
{
    let characters = chars_of(name);
    let mut index: usize = 0;
    while index < characters.len()
        invariant
            index <= characters@.len(),
            characters@ == name@,
            forall|i: int| 0 <= i < index ==> plugin_char(#[trigger] name@[i]),
        decreases characters@.len() - index,
    {
        let character = characters[index];
        let fits = ('a' <= character && character <= 'z') || ('A' <= character && character <= 'Z')
            || ('0' <= character && character <= '9') || character == '-' || character == '_';
        if !fits {
            assert(!plugin_char(name@[index as int]));
            return false;
        }
        index += 1;
    }
    characters.len() > 0
}

fn again_visible(visible: &Vec<Visible>) -> (copy: Vec<Visible>)
    ensures
        copy@ == visible@,
{
    let mut copy: Vec<Visible> = Vec::new();
    copy.extend_from_slice(visible.as_slice());
    assert(copy@ =~= visible@);
    copy
}

/// Looks for a provider whose type an earlier one has.
fn find_repeated(providers: &Vec<Provider>) -> (found: Option<usize>)
    ensures
        match found {
            Some(at) => at < providers@.len() && repeated_type(providers_view(providers@), 0)
                == Some(at as int),
            None => repeated_type(providers_view(providers@), 0) is None,
        },
{
    let ghost views = providers_view(providers@);
    let mut at: usize = 0;
    while at < providers.len()
        invariant
            at <= providers@.len(),
            views == providers_view(providers@),
            repeated_type(views, 0) == repeated_type(views, at as int),
        decreases providers@.len() - at,
    {
        assert(views[at as int] == providers@[at as int]@);
        let type_id: u64 = providers[at].key.type_id;
        let mut i: usize = 0;
        while i < at
            invariant
                i <= at < providers@.len(),
                views == providers_view(providers@),
                views[at as int].key.type_id == type_id,
                repeated_type(views, 0) == repeated_type(views, at as int),
                forall|k: int| 0 <= k < i ==> (#[trigger] views[k]).key.type_id != type_id,
            decreases at - i,
        {
            assert(views[i as int] == providers@[i as int]@);
            if providers[i].key.type_id == type_id {
                return Some(at);
            }
            i += 1;
        }
        at += 1;
    }
    None
}

impl PluginCollector {
    /// Registers the providers of a plugin, each with all that the plugin sees.
    fn register(&mut self, providers: Vec<Provider>, inherited: &Vec<Visible>, path: &str) -> (own:
        Vec<Visible>)
        ensures
            own@ == sees(
                inherited@,
                old(self)@.registrations.len() as int,
                providers_view(providers@),
            ),
            final(self)@ == (CollectorView {
                registrations: old(self)@.registrations + Seq::new(
                    providers@.len(),
                    |i: int|
                        RegistrationView {
                            provider: providers@[i]@,
                            visible: own@,
                            plugin: path@,
                        },
                ),
                ..old(self)@
            }),
    {
        let ghost views = providers_view(providers@);
        let ghost before = self@;
        let base: usize = self.registrations.len();
        let count: usize = providers.len();
        let mut own = again_visible(inherited);
        let mut rest = providers;
        let ghost given = providers@;
        let mut index: usize = 0;
        assert(own@ =~= sees(inherited@, base as int, views.take(0)));
        assert(self@.registrations =~= before.registrations + Seq::new(
            0nat,
            |i: int|
                RegistrationView {
                    provider: given[i]@,
                    visible: Seq::<Visible>::empty(),
                    plugin: path@,
                },
        ));
        while index < count
            invariant
                index <= count,
                count == given.len(),
                views == providers_view(given),
                rest@ == given.skip(index as int),
                base == before.registrations.len(),
                self.registrations@.len() == base + index,
                own@ == sees(inherited@, base as int, views.take(index as int)),
                self@ == (CollectorView {
                    registrations: before.registrations + Seq::new(
                        index as nat,
                        |i: int|
                            RegistrationView {
                                provider: given[i]@,
                                visible: Seq::<Visible>::empty(),
                                plugin: path@,
                            },
                    ),
                    ..before
                }),
            decreases count - index,
        {
            let ghost middle = self@;
            let provider = rest.remove(0);
            assert(provider == given[index as int]);
            assert(rest@ =~= given.skip(index + 1));
            let length: usize = self.registrations.len();
            let ghost seen = own@;
            own.push(Visible { type_id: provider.key.type_id, id: length });
            assert(views[index as int] == provider@);
            assert(own@ =~= sees(inherited@, base as int, views.take(index + 1)));
            self.registrations.push(
                ProviderRegistration { provider, visible: Vec::new(), plugin: path.to_owned() },
            );
            proof {
                let last = self.registrations@.last();
                assert(last@ =~= RegistrationView {
                    provider: given[index as int]@,
                    visible: Seq::<Visible>::empty(),
                    plugin: path@,
                });
                assert(self@.registrations =~= middle.registrations.push(last@));
                assert(self@.registrations =~= before.registrations + Seq::new(
                    (index + 1) as nat,
                    |i: int|
                        RegistrationView {
                            provider: given[i]@,
                            visible: Seq::<Visible>::empty(),
                            plugin: path@,
                        },
                ));
            }
            index += 1;
        }
        assert(views.take(count as int) =~= views);
        let mut at: usize = 0;
        while at < count
            invariant
                at <= count,
                count == given.len(),
                base == before.registrations.len(),
                self.registrations@.len() == base + count,
                self@.registrations.len() == base + count,
                forall|k: int|
                    0 <= k < base ==> #[trigger] self@.registrations[k] == before.registrations[k],
                forall|k: int|
                    base <= k < base + at ==> #[trigger] self@.registrations[k] == (
                    RegistrationView {
                        provider: given[k - base]@,
                        visible: own@,
                        plugin: path@,
                    }),
                forall|k: int|
                    base + at <= k < base + count ==> #[trigger] self@.registrations[k] == (
                    RegistrationView {
                        provider: given[k - base]@,
                        visible: Seq::<Visible>::empty(),
                        plugin: path@,
                    }),
                self@ == (CollectorView { registrations: self@.registrations, ..before }),
            decreases count - at,
        {
            let ghost middle = self@;
            let ghost changed = self.registrations@[base + at];
            assert(middle.registrations[base + at] == changed@);
            let total: usize = self.registrations.len();
            assert(base + at < total);
            self.registrations[base + at].visible = again_visible(&own);
            proof {
                let place = base + at;
                assert(self.registrations@[place]@ =~= RegistrationView {
                    visible: own@,
                    ..changed@
                });
                assert(self@.registrations =~= middle.registrations.update(
                    place,
                    RegistrationView { visible: own@, ..changed@ },
                ));
            }
            at += 1;
        }
        assert(self@.registrations =~= before.registrations + Seq::new(
            given.len(),
            |i: int|
                RegistrationView { provider: given[i]@, visible: own@, plugin: path@ },
        ));
        own
    }

    /// Takes over the operations of a plugin.
    fn scope(
        &mut self,
        operations: Vec<ExecutableOperation>,
        visible: &Vec<Visible>,
        hooks: &HookScope,
        path: &str,
    )
        ensures
            final(self)@ == (CollectorView {
                operations: old(self)@.operations + Seq::new(
                    operations@.len(),
                    |i: int|
                        ScopedView {
                            operation: operations@[i],
                            visible: visible@,
                            plugin: path@,
                            hooks: hooks@,
                        },
                ),
                ..old(self)@
            }),
    {
        let ghost before = self@;
        let ghost given = operations@;
        let count: usize = operations.len();
        let mut rest = operations;
        let mut index: usize = 0;
        assert(self@.operations =~= before.operations + Seq::new(
            0nat,
            |i: int|
                ScopedView {
                    operation: given[i],
                    visible: visible@,
                    plugin: path@,
                    hooks: hooks@,
                },
        ));
        while index < count
            invariant
                index <= count,
                count == given.len(),
                rest@ == given.skip(index as int),
                self@ == (CollectorView {
                    operations: before.operations + Seq::new(
                        index as nat,
                        |i: int|
                            ScopedView {
                                operation: given[i],
                                visible: visible@,
                                plugin: path@,
                                hooks: hooks@,
                            },
                    ),
                    ..before
                }),
            decreases count - index,
        {
            let ghost middle = self@;
            let operation = rest.remove(0);
            assert(operation == given[index as int]);
            assert(rest@ =~= given.skip(index + 1));
            self.operations.push(
                ScopedOperation {
                    operation,
                    visible: again_visible(visible),
                    plugin: path.to_owned(),
                    hooks: hooks.clone(),
                },
            );
            proof {
                let last = self.operations@.last();
                assert(last@ =~= ScopedView {
                    operation: given[index as int],
                    visible: visible@,
                    plugin: path@,
                    hooks: hooks@,
                });
                assert(self@.operations =~= middle.operations.push(last@));
                assert(self@.operations =~= before.operations + Seq::new(
                    (index + 1) as nat,
                    |i: int|
                        ScopedView {
                            operation: given[i],
                            visible: visible@,
                            plugin: path@,
                            hooks: hooks@,
                        },
                ));
            }
            index += 1;
        }
    }
}

/// Collects a plugin and everything below it.
fn collect_plugin(
    plugin: Plugin,
    inherited: &Vec<Visible>,
    outer: &HookScope,
    parent: &str,
    collector: &mut PluginCollector,
) -> (result: Result<(), ExecutableBuildError>)
    ensures
        match result {
            Ok(()) => collected(plugin, inherited@, outer@, parent@, old(collector)@) == Ok::<
                CollectorView,
                ExecutableFault,
            >(final(collector)@),
            Err(error) => collected(plugin, inherited@, outer@, parent@, old(collector)@) == Err::<
                CollectorView,
                ExecutableFault,
            >(error@),
        },
    decreases plugin, 0int,
{
    let ghost whole = plugin;
    let ghost before = collector@;
    let Plugin {
        name,
        providers,
        security_schemes,
        operations,
        plugins,
        hooks,
        startup_hooks,
        shutdown_hooks,
    } = plugin;
    let mut path = String::new();
    if parent.unicode_len() > 0 {
        path.append(parent);
        path.append("/");
    }
    path.append(name.as_str());
    assert(path@ =~= plugin_path(parent@, name@));
    if !valid_plugin_name(name.as_str()) {
        return Err(ExecutableBuildError::InvalidPluginName { plugin: path });
    }
    let mut schemes = security_schemes;
    collector.security_schemes.append(&mut schemes);
    let mut startup = startup_hooks;
    collector.startup_hooks.append(&mut startup);
    let mut shutdown = shutdown_hooks;
    collector.shutdown_hooks.append(&mut shutdown);
    let around = outer.inherited(&hooks);
    let ghost given = providers_view(providers@);
    let providers = collector.overrides.apply(path.as_str(), providers);
    let ghost used = providers_view(providers@);
    assert(used == overridden(before.overrides, path@, given));
    if let Some(at) = find_repeated(&providers) {
        assert(used[at as int] == providers@[at as int]@);
        return Err(
            ExecutableBuildError::DuplicateProvider {
                plugin: path,
                dependency: providers[at].key.name.to_owned(),
            },
        );
    }
    let own = collector.register(providers, inherited, path.as_str());
    collector.scope(operations, &own, &around, path.as_str());
    let ghost here = with_plugin(whole, own@, around@, path@, used, before);
    assert(collector@ =~= here);
    collect_children(plugins, &own, &around, path.as_str(), collector)
}

/// Collects plugins one after the other.
fn collect_children(
    plugins: Vec<Plugin>,
    visible: &Vec<Visible>,
    hooks: &HookScope,
    path: &str,
    collector: &mut PluginCollector,
) -> (result: Result<(), ExecutableBuildError>)
    ensures
        match result {
            Ok(()) => collected_children(
                plugins@,
                0,
                visible@,
                hooks@,
                path@,
                old(collector)@,
            ) == Ok::<CollectorView, ExecutableFault>(final(collector)@),
            Err(error) => collected_children(
                plugins@,
                0,
                visible@,
                hooks@,
                path@,
                old(collector)@,
            ) == Err::<CollectorView, ExecutableFault>(error@),
        },
    decreases plugins, 0int,
{
    let ghost given = plugins@;
    let ghost start = collector@;
    let count: usize = plugins.len();
    let ghost whole = plugins;
    let mut rest = plugins;
    let mut at: usize = 0;
    while at < count
        invariant
            at <= count,
            count == given.len(),
            given == whole@,
            whole == plugins,
            rest@ == given.skip(at as int),
            collected_children(given, 0, visible@, hooks@, path@, start) == collected_children(
                given,
                at as int,
                visible@,
                hooks@,
                path@,
                collector@,
            ),
            start == old(collector)@,
        decreases count - at,
    {
        let child = rest.remove(0);
        assert(child == given[at as int]);
        assert(rest@ =~= given.skip(at + 1));
        proof {
            assert(decreases_to!(whole => whole@[at as int]));
        }
        match collect_plugin(child, visible, hooks, path, collector) {
            Ok(()) => {},
            Err(error) => {
                return Err(error);
            },
        }
        at += 1;
    }
    Ok(())
}

// ---------------------------------------------------------------------------
// What holds of everything that is collected
// ---------------------------------------------------------------------------

/// Every scope sees registered providers only.
pub open spec fn sees_registered(visible: Seq<Visible>, count: int) -> bool {
    forall|j: int| 0 <= j < visible.len() ==> (#[trigger] visible[j]).id < count
}

/// Providers and operations see registered providers only.
pub open spec fn sound_scopes(collector: CollectorView) -> bool {
    &&& collector.registrations.len() <= usize::MAX
    &&& forall|i: int|
        0 <= i < collector.registrations.len() ==> sees_registered(
            (#[trigger] collector.registrations[i]).visible,
            collector.registrations.len() as int,
        )
    &&& forall|i: int|
        0 <= i < collector.operations.len() ==> sees_registered(
            (#[trigger] collector.operations[i]).visible,
            collector.registrations.len() as int,
        )
}

/// One sequence begins with another.
pub open spec fn begins_with<T>(longer: Seq<T>, shorter: Seq<T>) -> bool {
    shorter.len() <= longer.len() && longer.take(shorter.len() as int) == shorter
}

/// The hooks around an operation begin with the hooks of a scope.
pub open spec fn hooks_begin_with(inner: HooksView, outer: HooksView) -> bool {
    &&& begins_with(inner.on_request, outer.on_request)
    &&& begins_with(inner.pre_parse, outer.pre_parse)
    &&& begins_with(inner.pre_validate, outer.pre_validate)
    &&& begins_with(inner.pre_handler, outer.pre_handler)
    &&& begins_with(inner.pre_serialize, outer.pre_serialize)
    &&& begins_with(inner.on_error, outer.on_error)
    &&& begins_with(inner.on_response, outer.on_response)
}

/// What was collected before stays as it was, and everything that came on top
/// stands inside some hooks.
pub open spec fn adds_within(before: CollectorView, after: CollectorView, hooks: HooksView) -> bool {
    &&& begins_with(after.registrations, before.registrations)
    &&& begins_with(after.operations, before.operations)
    &&& begins_with(after.security_schemes, before.security_schemes)
    &&& begins_with(after.startup_hooks, before.startup_hooks)
    &&& begins_with(after.shutdown_hooks, before.shutdown_hooks)
    &&& forall|i: int|
        before.operations.len() <= i < after.operations.len() ==> hooks_begin_with(
            (#[trigger] after.operations[i]).hooks,
            hooks,
        )
}

proof fn lemma_begins<T>(first: Seq<T>, second: Seq<T>, third: Seq<T>)
    requires
        begins_with(second, first),
        begins_with(third, second),
    ensures
        begins_with(third, first),
        forall|i: int| 0 <= i < first.len() ==> #[trigger] third[i] == first[i],
{
    assert forall|i: int| 0 <= i < first.len() implies #[trigger] third[i] == first[i] by {
        assert(second.take(first.len() as int)[i] == first[i]);
        assert(third.take(second.len() as int)[i] == second[i]);
    }
    assert(third.take(first.len() as int) =~= first);
}

proof fn lemma_begins_sum<T>(first: Seq<T>, second: Seq<T>)
    ensures
        begins_with(first + second, first),
{
    assert((first + second).take(first.len() as int) =~= first);
}

proof fn lemma_hooks_begin(inner: HooksView, middle: HooksView, outer: HooksView)
    requires
        hooks_begin_with(inner, middle),
        hooks_begin_with(middle, outer),
    ensures
        hooks_begin_with(inner, outer),
{
    lemma_begins(outer.on_request, middle.on_request, inner.on_request);
    lemma_begins(outer.pre_parse, middle.pre_parse, inner.pre_parse);
    lemma_begins(outer.pre_validate, middle.pre_validate, inner.pre_validate);
    lemma_begins(outer.pre_handler, middle.pre_handler, inner.pre_handler);
    lemma_begins(outer.pre_serialize, middle.pre_serialize, inner.pre_serialize);
    lemma_begins(outer.on_error, middle.on_error, inner.on_error);
    lemma_begins(outer.on_response, middle.on_response, inner.on_response);
}

proof fn lemma_inherited_begin(outer: HooksView, plugin: HooksView)
    ensures
        hooks_begin_with(inherited_hooks(outer, plugin), outer),
{
    lemma_begins_sum(outer.on_request, plugin.on_request);
    lemma_begins_sum(outer.pre_parse, plugin.pre_parse);
    lemma_begins_sum(outer.pre_validate, plugin.pre_validate);
    lemma_begins_sum(outer.pre_handler, plugin.pre_handler);
    lemma_begins_sum(outer.pre_serialize, plugin.pre_serialize);
    lemma_begins_sum(outer.on_error, plugin.on_error);
    lemma_begins_sum(outer.on_response, plugin.on_response);
}

proof fn lemma_adds(
    first: CollectorView,
    second: CollectorView,
    third: CollectorView,
    outer: HooksView,
    inner: HooksView,
)
    requires
        adds_within(first, second, outer),
        adds_within(second, third, inner),
        hooks_begin_with(inner, outer),
    ensures
        adds_within(first, third, outer),
{
    lemma_begins(first.registrations, second.registrations, third.registrations);
    lemma_begins(first.operations, second.operations, third.operations);
    lemma_begins(first.security_schemes, second.security_schemes, third.security_schemes);
    lemma_begins(first.startup_hooks, second.startup_hooks, third.startup_hooks);
    lemma_begins(first.shutdown_hooks, second.shutdown_hooks, third.shutdown_hooks);
    assert forall|i: int|
        first.operations.len() <= i < third.operations.len() implies hooks_begin_with(
        (#[trigger] third.operations[i]).hooks,
        outer,
    ) by {
        if i < second.operations.len() {
            assert(third.operations.take(second.operations.len() as int)[i]
                == second.operations[i]);
            assert(hooks_begin_with(second.operations[i].hooks, outer));
        } else {
            lemma_hooks_begin(third.operations[i].hooks, inner, outer);
        }
    }
}

proof fn lemma_collected(
    plugin: Plugin,
    visible: Seq<Visible>,
    hooks: HooksView,
    parent: Seq<char>,
    so_far: CollectorView,
)
    ensures
        collected(plugin, visible, hooks, parent, so_far) matches Ok(after) ==> {
            &&& adds_within(so_far, after, inherited_hooks(hooks, plugin.hooks@))
            &&& begins_with(after.startup_hooks, so_far.startup_hooks + plugin.startup_hooks@)
            &&& begins_with(after.shutdown_hooks, so_far.shutdown_hooks + plugin.shutdown_hooks@)
        },
    decreases plugin, 0int,
{
    let path = plugin_path(parent, plugin.name@);
    let providers = overridden(so_far.overrides, path, providers_view(plugin.providers@));
    let own = sees(visible, so_far.registrations.len() as int, providers);
    let around = inherited_hooks(hooks, plugin.hooks@);
    let here = with_plugin(plugin, own, around, path, providers, so_far);
    if let Ok(after) = collected(plugin, visible, hooks, parent, so_far) {
        lemma_begins_sum(
            so_far.registrations,
            Seq::new(
                providers.len(),
                |i: int|
                    RegistrationView { provider: providers[i], visible: own, plugin: path },
            ),
        );
        lemma_begins_sum(
            so_far.operations,
            Seq::new(
                plugin.operations@.len(),
                |i: int|
                    ScopedView {
                        operation: plugin.operations@[i],
                        visible: own,
                        plugin: path,
                        hooks: around,
                    },
            ),
        );
        lemma_begins_sum(so_far.security_schemes, plugin.security_schemes@);
        lemma_begins_sum(so_far.startup_hooks, plugin.startup_hooks@);
        lemma_begins_sum(so_far.shutdown_hooks, plugin.shutdown_hooks@);
        lemma_inherited_begin(around, no_hooks());
        assert(inherited_hooks(around, no_hooks()) =~= around);
        assert(adds_within(so_far, here, around));
        lemma_collected_children(plugin.plugins@, 0, own, around, path, here);
        lemma_adds(so_far, here, after, around, around);
    }
}

proof fn lemma_collected_children(
    plugins: Seq<Plugin>,
    at: int,
    visible: Seq<Visible>,
    hooks: HooksView,
    path: Seq<char>,
    so_far: CollectorView,
)
    ensures
        collected_children(plugins, at, visible, hooks, path, so_far) matches Ok(after)
            ==> adds_within(so_far, after, hooks),
    decreases plugins, plugins.len() - at,
{
    lemma_inherited_begin(hooks, no_hooks());
    assert(inherited_hooks(hooks, no_hooks()) =~= hooks);
    if at < 0 || at >= plugins.len() {
        lemma_begins_sum(so_far.registrations, Seq::empty());
        assert(so_far.registrations + Seq::<RegistrationView>::empty() =~= so_far.registrations);
        lemma_begins_sum(so_far.operations, Seq::empty());
        assert(so_far.operations + Seq::<ScopedView>::empty() =~= so_far.operations);
        lemma_begins_sum(so_far.security_schemes, Seq::empty());
        assert(so_far.security_schemes + Seq::<SecuritySchemeDescriptor>::empty()
            =~= so_far.security_schemes);
        lemma_begins_sum(so_far.startup_hooks, Seq::empty());
        assert(so_far.startup_hooks + Seq::<usize>::empty() =~= so_far.startup_hooks);
        lemma_begins_sum(so_far.shutdown_hooks, Seq::empty());
        assert(so_far.shutdown_hooks + Seq::<usize>::empty() =~= so_far.shutdown_hooks);
    } else {
        lemma_collected(plugins[at], visible, hooks, path, so_far);
        if let Ok(more) = collected(plugins[at], visible, hooks, path, so_far) {
            lemma_collected_children(plugins, at + 1, visible, hooks, path, more);
            if let Ok(after) = collected_children(plugins, at, visible, hooks, path, so_far) {
                let around = inherited_hooks(hooks, plugins[at].hooks@);
                lemma_inherited_begin(hooks, plugins[at].hooks@);
                assert forall|i: int|
                    so_far.operations.len() <= i < more.operations.len() implies hooks_begin_with(
                    (#[trigger] more.operations[i]).hooks,
                    hooks,
                ) by {
                    lemma_hooks_begin(more.operations[i].hooks, around, hooks);
                }
                lemma_adds(so_far, more, after, hooks, hooks);
            }
        }
    }
}

/// Everything below a plugin stands inside its hooks: the hooks around each
/// operation begin with those that the plugin inherits and its own.
pub proof fn law_hooks_are_inherited(
    plugin: Plugin,
    visible: Seq<Visible>,
    hooks: HooksView,
    parent: Seq<char>,
    so_far: CollectorView,
)
    requires
        collected(plugin, visible, hooks, parent, so_far) is Ok,
    ensures
        ({
            let after = collected(plugin, visible, hooks, parent, so_far)->Ok_0;
            forall|i: int|
                so_far.operations.len() <= i < after.operations.len() ==> hooks_begin_with(
                    (#[trigger] after.operations[i]).hooks,
                    inherited_hooks(hooks, plugin.hooks@),
                )
        }),
{
    lemma_collected(plugin, visible, hooks, parent, so_far);
}

/// A scope extends another one: it begins with what that one sees, and adds
/// nothing that was registered before a position.
pub open spec fn scope_within(visible: Seq<Visible>, outer: Seq<Visible>, base: int) -> bool {
    &&& begins_with(visible, outer)
    &&& forall|j: int| outer.len() <= j < visible.len() ==> (#[trigger] visible[j]).id >= base
}

/// Everything that was added extends a scope.
pub open spec fn scopes_within(
    before: CollectorView,
    after: CollectorView,
    outer: Seq<Visible>,
    base: int,
) -> bool {
    &&& forall|i: int|
        before.registrations.len() <= i < after.registrations.len() ==> scope_within(
            (#[trigger] after.registrations[i]).visible,
            outer,
            base,
        )
    &&& forall|i: int|
        before.operations.len() <= i < after.operations.len() ==> scope_within(
            (#[trigger] after.operations[i]).visible,
            outer,
            base,
        )
}

proof fn lemma_scope(
    inner: Seq<Visible>,
    middle: Seq<Visible>,
    outer: Seq<Visible>,
    later: int,
    base: int,
)
    requires
        scope_within(inner, middle, later),
        scope_within(middle, outer, base),
        base <= later,
    ensures
        scope_within(inner, outer, base),
{
    lemma_begins(outer, middle, inner);
    assert forall|j: int| outer.len() <= j < inner.len() implies (#[trigger] inner[j]).id
        >= base by {
        if j < middle.len() {
            assert(inner.take(middle.len() as int)[j] == middle[j]);
            assert(middle[j].id >= base);
        }
    }
}

proof fn lemma_scopes(
    plugin: Plugin,
    visible: Seq<Visible>,
    hooks: HooksView,
    parent: Seq<char>,
    so_far: CollectorView,
)
    requires
        collected(plugin, visible, hooks, parent, so_far) matches Ok(after)
            && after.registrations.len() <= usize::MAX,
    ensures
        ({
            let path = plugin_path(parent, plugin.name@);
            let providers = overridden(so_far.overrides, path, providers_view(plugin.providers@));
            let base = so_far.registrations.len() as int;
            let own = sees(visible, base, providers);
            let after = collected(plugin, visible, hooks, parent, so_far)->Ok_0;
            &&& scope_within(own, visible, base)
            &&& scopes_within(so_far, after, own, base)
        }),
    decreases plugin, 0int,
{
    let path = plugin_path(parent, plugin.name@);
    let providers = overridden(so_far.overrides, path, providers_view(plugin.providers@));
    let base = so_far.registrations.len() as int;
    let own = sees(visible, base, providers);
    let around = inherited_hooks(hooks, plugin.hooks@);
    let here = with_plugin(plugin, own, around, path, providers, so_far);
    let after = collected(plugin, visible, hooks, parent, so_far)->Ok_0;
    lemma_collected_children(plugin.plugins@, 0, own, around, path, here);
    assert(here.registrations.len() <= after.registrations.len());
    lemma_begins_sum(
        visible,
        Seq::new(
            providers.len(),
            |i: int| Visible { type_id: providers[i].key.type_id, id: (base + i) as usize },
        ),
    );
    assert(scope_within(own, visible, base));
    lemma_begins_sum(own, Seq::empty());
    assert(own + Seq::<Visible>::empty() =~= own);
    lemma_scopes_children(plugin.plugins@, 0, own, around, path, here);
    let later = here.registrations.len() as int;
    assert forall|i: int|
        so_far.registrations.len() <= i < after.registrations.len() implies scope_within(
        (#[trigger] after.registrations[i]).visible,
        own,
        base,
    ) by {
        if i < later {
            assert(after.registrations.take(later)[i] == here.registrations[i]);
        } else {
            lemma_scope(after.registrations[i].visible, own, own, later, base);
        }
    }
    assert forall|i: int|
        so_far.operations.len() <= i < after.operations.len() implies scope_within(
        (#[trigger] after.operations[i]).visible,
        own,
        base,
    ) by {
        if i < here.operations.len() {
            assert(after.operations.take(here.operations.len() as int)[i] == here.operations[i]);
        } else {
            lemma_scope(after.operations[i].visible, own, own, later, base);
        }
    }
}

proof fn lemma_scopes_children(
    plugins: Seq<Plugin>,
    at: int,
    visible: Seq<Visible>,
    hooks: HooksView,
    path: Seq<char>,
    so_far: CollectorView,
)
    requires
        collected_children(plugins, at, visible, hooks, path, so_far) matches Ok(after)
            && after.registrations.len() <= usize::MAX,
    ensures
        scopes_within(
            so_far,
            collected_children(plugins, at, visible, hooks, path, so_far)->Ok_0,
            visible,
            so_far.registrations.len() as int,
        ),
    decreases plugins, plugins.len() - at,
{
    if 0 <= at < plugins.len() {
        let base = so_far.registrations.len() as int;
        let more = collected(plugins[at], visible, hooks, path, so_far)->Ok_0;
        let after = collected_children(plugins, at + 1, visible, hooks, path, more)->Ok_0;
        lemma_collected(plugins[at], visible, hooks, path, so_far);
        lemma_collected_children(plugins, at + 1, visible, hooks, path, more);
        lemma_scopes(plugins[at], visible, hooks, path, so_far);
        lemma_scopes_children(plugins, at + 1, visible, hooks, path, more);
        let name = plugin_path(path, plugins[at].name@);
        let providers = overridden(so_far.overrides, name, providers_view(plugins[at].providers@));
        let own = sees(visible, base, providers);
        lemma_begins_sum(visible, Seq::empty());
        assert(visible + Seq::<Visible>::empty() =~= visible);
        assert forall|i: int| base <= i < after.registrations.len() implies scope_within(
            (#[trigger] after.registrations[i]).visible,
            visible,
            base,
        ) by {
            if i < more.registrations.len() {
                assert(after.registrations.take(more.registrations.len() as int)[i]
                    == more.registrations[i]);
                lemma_scope(more.registrations[i].visible, own, visible, base, base);
            }
        }
        assert forall|i: int|
            so_far.operations.len() <= i < after.operations.len() implies scope_within(
            (#[trigger] after.operations[i]).visible,
            visible,
            base,
        ) by {
            if i < more.operations.len() {
                assert(after.operations.take(more.operations.len() as int)[i]
                    == more.operations[i]);
                lemma_scope(more.operations[i].visible, own, visible, base, base);
            }
        }
    }
}

/// Providers are inherited downward only. Whatever a plugin and the plugins
/// below it register sees what the plugin inherits and its own providers, and
/// beyond that nothing registered before the plugin; and nothing that was there
/// before comes to see any of it.
pub proof fn law_providers_are_inherited_downward(
    plugin: Plugin,
    visible: Seq<Visible>,
    hooks: HooksView,
    parent: Seq<char>,
    so_far: CollectorView,
)
    requires
        collected(plugin, visible, hooks, parent, so_far) matches Ok(after)
            && after.registrations.len() <= usize::MAX,
    ensures
        ({
            let path = plugin_path(parent, plugin.name@);
            let providers = overridden(so_far.overrides, path, providers_view(plugin.providers@));
            let base = so_far.registrations.len() as int;
            let own = sees(visible, base, providers);
            let after = collected(plugin, visible, hooks, parent, so_far)->Ok_0;
            &&& begins_with(after.registrations, so_far.registrations)
            &&& begins_with(after.operations, so_far.operations)
            &&& scope_within(own, visible, base)
            &&& scopes_within(so_far, after, own, base)
        }),
{
    lemma_collected(plugin, visible, hooks, parent, so_far);
    lemma_scopes(plugin, visible, hooks, parent, so_far);
}

proof fn lemma_no_repeated(providers: Seq<ProviderView>, at: int)
    requires
        repeated_type(providers, at) is None,
        0 <= at,
    ensures
        forall|i: int, j: int|
            0 <= i < j < providers.len() && at <= j ==> (#[trigger] providers[i]).key.type_id != (
            #[trigger] providers[j]).key.type_id,
    decreases providers.len() - at,
{
    if at < providers.len() {
        lemma_no_repeated(providers, at + 1);
    }
}

proof fn lemma_provider_among(
    visible: Seq<Visible>,
    base: int,
    providers: Seq<ProviderView>,
    count: int,
    type_id: u64,
)
    requires
        0 <= count <= providers.len(),
        0 <= base,
        base + providers.len() <= usize::MAX,
        repeated_type(providers, 0) is None,
    ensures
        ({
            let found = crate::graph::provider_of(
                sees(visible, base, providers.take(count)),
                type_id,
            );
            &&& forall|i: int|
                0 <= i < count && (#[trigger] providers[i]).key.type_id == type_id ==> found
                    == Some((base + i) as usize)
            &&& (forall|i: int|
                0 <= i < count ==> (#[trigger] providers[i]).key.type_id != type_id) ==> found
                == crate::graph::provider_of(visible, type_id)
        }),
    decreases count,
{
    lemma_no_repeated(providers, 0);
    let seen = sees(visible, base, providers.take(count));
    if count == 0 {
        assert(seen =~= visible);
    } else {
        lemma_provider_among(visible, base, providers, count - 1, type_id);
        assert(seen.drop_last() =~= sees(visible, base, providers.take(count - 1)));
        assert(seen.last().type_id == providers[count - 1].key.type_id);
    }
}

/// A provider of its own stands in place of an inherited one: a plugin finds
/// its own provider of a type where it has one, and otherwise what it inherits.
pub proof fn law_own_providers_win(
    visible: Seq<Visible>,
    base: int,
    providers: Seq<ProviderView>,
    type_id: u64,
)
    requires
        0 <= base,
        base + providers.len() <= usize::MAX,
        repeated_type(providers, 0) is None,
    ensures
        forall|i: int|
            0 <= i < providers.len() && (#[trigger] providers[i]).key.type_id == type_id
                ==> crate::graph::provider_of(sees(visible, base, providers), type_id) == Some(
                (base + i) as usize,
            ),
        (forall|i: int|
            0 <= i < providers.len() ==> (#[trigger] providers[i]).key.type_id != type_id)
            ==> crate::graph::provider_of(sees(visible, base, providers), type_id)
            == crate::graph::provider_of(visible, type_id),
{
    lemma_provider_among(visible, base, providers, providers.len() as int, type_id);
    assert(providers.take(providers.len() as int) =~= providers);
}

/// The startup and shutdown hooks of a plugin are listed before those of the
/// plugins below it.
pub proof fn law_parents_are_listed_before_children(
    plugin: Plugin,
    visible: Seq<Visible>,
    hooks: HooksView,
    parent: Seq<char>,
    so_far: CollectorView,
)
    requires
        collected(plugin, visible, hooks, parent, so_far) is Ok,
    ensures
        ({
            let after = collected(plugin, visible, hooks, parent, so_far)->Ok_0;
            &&& begins_with(after.startup_hooks, so_far.startup_hooks + plugin.startup_hooks@)
            &&& begins_with(after.shutdown_hooks, so_far.shutdown_hooks + plugin.shutdown_hooks@)
        }),
{
    lemma_collected(plugin, visible, hooks, parent, so_far);
}

proof fn lemma_sound(
    plugin: Plugin,
    visible: Seq<Visible>,
    hooks: HooksView,
    parent: Seq<char>,
    so_far: CollectorView,
)
    requires
        sound_scopes(so_far),
        sees_registered(visible, so_far.registrations.len() as int),
        collected(plugin, visible, hooks, parent, so_far) matches Ok(after)
            && after.registrations.len() <= usize::MAX,
    ensures
        sound_scopes(collected(plugin, visible, hooks, parent, so_far)->Ok_0),
    decreases plugin, 0int,
{
    let path = plugin_path(parent, plugin.name@);
    let providers = overridden(so_far.overrides, path, providers_view(plugin.providers@));
    let base = so_far.registrations.len() as int;
    let own = sees(visible, base, providers);
    let around = inherited_hooks(hooks, plugin.hooks@);
    let here = with_plugin(plugin, own, around, path, providers, so_far);
    let after = collected(plugin, visible, hooks, parent, so_far)->Ok_0;
    lemma_collected_children(plugin.plugins@, 0, own, around, path, here);
    assert(here.registrations.len() <= after.registrations.len());
    assert forall|j: int| 0 <= j < own.len() implies (#[trigger] own[j]).id
        < here.registrations.len() by {
        if j < visible.len() {
            assert(own[j] == visible[j]);
        }
    }
    assert forall|i: int| 0 <= i < here.registrations.len() implies sees_registered(
        (#[trigger] here.registrations[i]).visible,
        here.registrations.len() as int,
    ) by {
        if i < base {
            assert(here.registrations[i] == so_far.registrations[i]);
        }
    }
    assert forall|i: int| 0 <= i < here.operations.len() implies sees_registered(
        (#[trigger] here.operations[i]).visible,
        here.registrations.len() as int,
    ) by {
        if i < so_far.operations.len() {
            assert(here.operations[i] == so_far.operations[i]);
        }
    }
    lemma_sound_children(plugin.plugins@, 0, own, around, path, here);
}

proof fn lemma_sound_children(
    plugins: Seq<Plugin>,
    at: int,
    visible: Seq<Visible>,
    hooks: HooksView,
    path: Seq<char>,
    so_far: CollectorView,
)
    requires
        sound_scopes(so_far),
        sees_registered(visible, so_far.registrations.len() as int),
        collected_children(plugins, at, visible, hooks, path, so_far) matches Ok(after)
            && after.registrations.len() <= usize::MAX,
    ensures
        sound_scopes(collected_children(plugins, at, visible, hooks, path, so_far)->Ok_0),
    decreases plugins, plugins.len() - at,
{
    if 0 <= at < plugins.len() {
        let more = collected(plugins[at], visible, hooks, path, so_far)->Ok_0;
        lemma_collected(plugins[at], visible, hooks, path, so_far);
        lemma_collected_children(plugins, at + 1, visible, hooks, path, more);
        lemma_sound(plugins[at], visible, hooks, path, so_far);
        lemma_sound_children(plugins, at + 1, visible, hooks, path, more);
    }
}

// ---------------------------------------------------------------------------
// Applications
// ---------------------------------------------------------------------------

/// What the plugins of an application declare together.
pub open spec fn application_of(plugin: Plugin, overrides: Seq<OverrideView>) -> Result<
    CollectorView,
    ExecutableFault,
> {
    match collected(
        plugin,
        Seq::empty(),
        no_hooks(),
        Seq::empty(),
        nothing_collected(overrides),
    ) {
        Err(fault) => Err(fault),
        Ok(application) => match unused(application.overrides, 0) {
            Some(entry) => Err(
                ExecutableFault::UnknownProviderOverride(entry.plugin, entry.provider.key.name@),
            ),
            None => Ok(application),
        },
    }
}

/// What is wrong with the dependencies of the operations, from one on.
pub open spec fn first_unwired(
    regs: Seq<ProviderRegistration>,
    operations: Seq<ScopedView>,
    at: int,
) -> Option<ExecutableFault>
    decreases operations.len() - at,
{
    if at < 0 || at >= operations.len() {
        None
    } else {
        match wired(regs, operations[at]) {
            Err(fault) => Some(fault),
            Ok(_) => first_unwired(regs, operations, at + 1),
        }
    }
}

/// What an operation needs at every invocation.
pub open spec fn wired(regs: Seq<ProviderRegistration>, scoped: ScopedView) -> Result<
    (Seq<DependencySlot>, RequestView),
    ExecutableFault,
> {
    handler_needs(
        regs,
        scoped.visible,
        scoped.plugin,
        scoped.operation.descriptor.contract.id@,
        scoped.operation.dependency_requests@,
        0,
        Seq::empty(),
        nothing_built(regs),
    )
}

/// An operation was compiled in its scope.
pub open spec fn compiled_in(
    regs: Seq<ProviderRegistration>,
    scoped: ScopedView,
    operation: ExecutableOperation,
) -> bool {
    &&& operation.descriptor == scoped.operation.descriptor
    &&& operation.dependency_requests == scoped.operation.dependency_requests
    &&& operation.handler == scoped.operation.handler
    &&& operation.hooks.context is Some
    &&& hooked_operation(operation.hooks.context) == operation.descriptor.contract.id@
    &&& operation.hooks.scope@ == scoped.hooks
    &&& operation.dependency_plan matches Some(plan) && {
        &&& wired(regs, scoped) matches Ok((slots, steps)) && slots == plan.handler_slots@
            && steps.steps == steps_view(plan.request_providers@)
        &&& runs_factories(regs, plan.request_providers@)
    }
}

/// The descriptors of operations.
pub open spec fn descriptors_of(operations: Seq<ScopedView>) -> Seq<OperationDescriptor> {
    operations.map_values(|scoped: ScopedView| scoped.operation.descriptor)
}

/// A definition describes operations: it was built from descriptors that say
/// the same.
pub open spec fn describes(
    definition: AppDefinition,
    operations: Seq<OperationDescriptor>,
    schemes: Seq<SecuritySchemeDescriptor>,
) -> bool {
    exists|copies: Seq<OperationDescriptor>|
        descriptors_view(copies) == descriptors_view(operations) && #[trigger] defines(
            copies,
            schemes,
            definition,
        )
}

/// Compiles operations in their scopes. What describes them is copied, for the
/// definition of the application.
fn compile_operations(
    registrations: &Vec<ProviderRegistration>,
    scoped_operations: Vec<ScopedOperation>,
) -> (compiled: Result<
    (Vec<ExecutableOperation>, Vec<OperationDescriptor>),
    ExecutableBuildError,
>)
    requires
        registered(registrations@),
        graph_fault(registrations@) is None,
        forall|i: int|
            0 <= i < scoped_operations@.len() ==> sees_registered(
                (#[trigger] scoped_operations@[i])@.visible,
                registrations@.len() as int,
            ),
    ensures
        match compiled {
            Ok((operations, descriptors)) => {
                let views = scoped_view(scoped_operations@);
                &&& first_unwired(registrations@, views, 0) is None
                &&& operations@.len() == views.len()
                &&& descriptors@.len() == views.len()
                &&& forall|i: int|
                    0 <= i < views.len() ==> compiled_in(
                        registrations@,
                        views[i],
                        #[trigger] operations@[i],
                    )
                &&& forall|i: int|
                    0 <= i < views.len() ==> (#[trigger] descriptors@[i])@
                        == views[i].operation.descriptor@
            },
            Err(error) => first_unwired(registrations@, scoped_view(scoped_operations@), 0)
                == Some(error@),
        },
{
    let ghost regs = registrations@;
    let ghost given = scoped_operations@;
    let ghost views = scoped_view(given);
    let count: usize = scoped_operations.len();
    let mut rest = scoped_operations;
    let mut operations: Vec<ExecutableOperation> = Vec::new();
    let mut descriptors: Vec<OperationDescriptor> = Vec::new();
    let mut at: usize = 0;
    while at < count
        invariant
            at <= count,
            count == given.len(),
            views == scoped_view(given),
            given == scoped_operations@,
            regs == registrations@,
            registered(regs),
            graph_fault(regs) is None,
            forall|i: int|
                0 <= i < given.len() ==> sees_registered(
                    (#[trigger] given[i])@.visible,
                    regs.len() as int,
                ),
            rest@ == given.skip(at as int),
            operations@.len() == at,
            descriptors@.len() == at,
            forall|i: int| 0 <= i < at ==> compiled_in(regs, views[i], #[trigger] operations@[i]),
            forall|i: int|
                0 <= i < at ==> (#[trigger] descriptors@[i])@ == views[i].operation.descriptor@,
            first_unwired(regs, views, 0) == first_unwired(regs, views, at as int),
        decreases count - at,
    {
        let scoped = rest.remove(0);
        assert(scoped == given[at as int]);
        assert(views[at as int] == scoped@);
        assert(rest@ =~= given.skip(at + 1));
        assert(sees_registered(scoped@.visible, regs.len() as int));
        let ScopedOperation { operation, visible, plugin, hooks } = scoped;
        let plan = match compile_operation_dependencies(
            registrations,
            &visible,
            plugin.as_str(),
            operation.descriptor.contract.id.as_str(),
            &operation.dependency_requests,
        ) {
            Ok(plan) => plan,
            Err(error) => {
                return Err(error);
            },
        };
        let compiled_hooks = CompiledHooks::compile(&operation.descriptor, hooks);
        descriptors.push(operation.descriptor.clone());
        let compiled = ExecutableOperation {
            descriptor: operation.descriptor,
            dependency_requests: operation.dependency_requests,
            dependency_plan: Some(plan),
            hooks: compiled_hooks,
            handler: operation.handler,
        };
        assert(compiled_in(regs, views[at as int], compiled));
        operations.push(compiled);
        at += 1;
    }
    Ok((operations, descriptors))
}

/// Defines an application by its schemes and its operations.
fn define(security_schemes: Vec<SecuritySchemeDescriptor>, descriptors: Vec<OperationDescriptor>)
    -> (defined: Result<AppDefinition, crate::application::BuildError>)
    ensures
        match defined {
            Ok(definition) => defines(descriptors@, security_schemes@, definition),
            Err(error) => build_fault(descriptors@, security_schemes@) == Some(error@),
        },
{
    let ghost schemes = security_schemes@;
    let mut app = App::new();
    let mut left = security_schemes;
    let total: usize = left.len();
    let mut index: usize = 0;
    while index < total
        invariant
            index <= total,
            total == schemes.len(),
            left@ == schemes.skip(index as int),
            app.spec_operations() == Seq::<OperationDescriptor>::empty(),
            app.spec_schemes() == schemes.take(index as int),
        decreases total - index,
    {
        let scheme = left.remove(0);
        assert(left@ =~= schemes.skip(index + 1));
        app = app.security_scheme(scheme);
        assert(app.spec_schemes() =~= schemes.take(index + 1));
        index += 1;
    }
    assert(schemes.take(total as int) =~= schemes);
    let app = app.routes(descriptors);
    assert(app.spec_operations() =~= descriptors@);
    app.build()
}

/// Operations of a valid application have different identities.
proof fn lemma_identities_differ(
    regs: Seq<ProviderRegistration>,
    views: Seq<ScopedView>,
    operations: Seq<ExecutableOperation>,
    copies: Seq<OperationDescriptor>,
    schemes: Seq<SecuritySchemeDescriptor>,
)
    requires
        operations.len() == views.len(),
        copies.len() == views.len(),
        build_fault(copies, schemes) is None,
        forall|i: int| 0 <= i < views.len() ==> compiled_in(regs, views[i], #[trigger] operations[i]),
        forall|i: int|
            0 <= i < views.len() ==> (#[trigger] copies[i])@ == views[i].operation.descriptor@,
    ensures
        forall|i: int, j: int|
            0 <= i < j < operations.len() ==> (#[trigger] operations[i]).descriptor.contract.id@ != (
            #[trigger] operations[j]).descriptor.contract.id@,
{
    assert forall|i: int, j: int| 0 <= i < j < operations.len() implies (
    #[trigger] operations[i]).descriptor.contract.id@ != (
    #[trigger] operations[j]).descriptor.contract.id@ by {
        assert(compiled_in(regs, views[i], operations[i]));
        assert(compiled_in(regs, views[j], operations[j]));
        lemma_no_operation_fault(copies, schemes, 0);
        assert(crate::application::operation_fault(copies, schemes, j) is None);
        assert(copies[i]@ == views[i].operation.descriptor@);
        assert(copies[j]@ == views[j].operation.descriptor@);
        assert(copies[i].contract.id@ == copies[i]@.contract.id);
        assert(copies[j].contract.id@ == copies[j]@.contract.id);
        let left = views[i].operation.descriptor;
        let right = views[j].operation.descriptor;
        assert(left.contract.id@ == left@.contract.id);
        assert(right.contract.id@ == right@.contract.id);
    }
}

/// A singleton factory that failed: the step it belongs to, and its failure.
#[derive(Debug)]
pub struct FailedSingleton {
    pub step: usize,
    pub error: DependencyError,
}

/// The singletons of an application on their way: the caller builds each step
/// that is due and reports back before the next one is.
#[derive(Debug)]
pub struct SingletonRun {
    count: usize,
    next: usize,
    failed: Option<FailedSingleton>,
}

/// How far the singletons of an application are.
pub struct SingletonRunView {
    /// The number of steps.
    pub count: nat,
    /// The steps that were built.
    pub next: nat,
    pub failed: Option<FailedSingleton>,
}

impl View for SingletonRun {
    type V = SingletonRunView;

    closed spec fn view(&self) -> SingletonRunView {
        SingletonRunView {
            count: self.count as nat,
            next: self.next as nat,
            failed: self.failed,
        }
    }
}

/// No singleton is built yet.
pub open spec fn unbuilt(count: nat) -> SingletonRunView {
    SingletonRunView { count, next: 0, failed: None }
}

/// The step that is due: none after a failure, and none once all are built.
pub open spec fn step_due(run: SingletonRunView) -> Option<nat> {
    if run.failed is Some || run.next >= run.count {
        None
    } else {
        Some(run.next)
    }
}

/// The singletons after the due step was built, or failed.
pub open spec fn step_ran(
    run: SingletonRunView,
    result: Result<(), DependencyError>,
) -> SingletonRunView {
    match result {
        Ok(_) => SingletonRunView { next: run.next + 1, ..run },
        Err(error) => SingletonRunView {
            failed: Some(FailedSingleton { step: run.next as usize, error }),
            ..run
        },
    }
}

impl SingletonRun {
    #[verifier::type_invariant]
    spec fn well_formed(self) -> bool {
        &&& self.next <= self.count
        &&& self.failed matches Some(failed) ==> failed.step < self.count
    }

    /// The step to build next, if one is due.
    #[must_use]
    pub fn next(&self) -> (step: Option<usize>)
        ensures
            match step {
                Some(step) => step_due(self@) == Some(step as nat),
                None => step_due(self@) is None,
            },
    {
        if self.failed.is_some() || self.next >= self.count {
            None
        } else {
            Some(self.next)
        }
    }

    /// Takes note of how the due step went.
    #[must_use]
    pub fn ran(self, result: Result<(), DependencyError>) -> (run: Self)
        requires
            step_due(self@) is Some,
        ensures
            run@ == step_ran(self@, result),
    {
        match result {
            Ok(()) => SingletonRun {
                count: self.count,
                next: self.next + 1,
                failed: self.failed,
            },
            Err(error) => SingletonRun {
                count: self.count,
                next: self.next,
                failed: Some(FailedSingleton { step: self.next, error }),
            },
        }
    }

    /// The step that failed, if one did.
    #[must_use]
    pub fn failed(self) -> (failed: Option<FailedSingleton>)
        ensures
            failed == self@.failed,
            failed matches Some(failed) ==> failed.step < self@.count,
    {
        proof {
            use_type_invariant(&self);
        }
        self.failed
    }
}

/// The singletons after so many steps went as they did.
pub open spec fn after_steps(
    run: SingletonRunView,
    results: Seq<Result<(), DependencyError>>,
) -> SingletonRunView
    decreases results.len(),
{
    if results.len() == 0 {
        run
    } else {
        step_ran(after_steps(run, results.drop_last()), results.last())
    }
}

/// Singletons are built one step after the other, each once, up to the first
/// that fails: nothing is due after it, and it is the one reported.
pub proof fn law_singletons_stop_at_the_first_failure(
    count: nat,
    results: Seq<Result<(), DependencyError>>,
)
    requires
        results.len() <= count <= usize::MAX,
        forall|i: int| 0 <= i < results.len() - 1 ==> (#[trigger] results[i]) is Ok,
    ensures
        ({
            let after = after_steps(unbuilt(count), results);
            if results.len() > 0 && results.last() is Err {
                &&& step_due(after) is None
                &&& after.failed == Some(
                    FailedSingleton {
                        step: (results.len() - 1) as usize,
                        error: results.last()->Err_0,
                    },
                )
            } else {
                &&& after.failed is None
                &&& step_due(after) == if results.len() < count {
                    Some(results.len())
                } else {
                    None
                }
            }
        }),
{
    lemma_steps_count(count, results);
}

proof fn lemma_steps_count(count: nat, results: Seq<Result<(), DependencyError>>)
    requires
        forall|i: int| 0 <= i < results.len() - 1 ==> (#[trigger] results[i]) is Ok,
    ensures
        ({
            let after = after_steps(unbuilt(count), results);
            &&& after.count == count
            &&& results.len() > 0 && results.last() is Err ==> after.next == results.len() - 1
            &&& results.len() == 0 || results.last() is Ok ==> after == (SingletonRunView {
                count,
                next: results.len(),
                failed: None,
            })
        }),
    decreases results.len(),
{
    if results.len() > 0 {
        let before = results.drop_last();
        assert forall|i: int| 0 <= i < before.len() - 1 implies (#[trigger] before[i]) is Ok by {
            assert(results[i] is Ok);
        }
        lemma_steps_count(count, before);
        if before.len() > 0 {
            assert(results[before.len() - 1] is Ok);
        }
    }
}

fn count_singletons(registrations: &Vec<ProviderRegistration>, until: usize) -> (count: usize)
    requires
        until <= registrations@.len(),
    ensures
        count == singletons_before(registrations@, until as int),
{
    let mut count: usize = 0;
    let mut id: usize = 0;
    while id < until
        invariant
            id <= until <= registrations@.len(),
            count <= id,
            count == singletons_before(registrations@, id as int),
        decreases until - id,
    {
        if registrations[id].provider.lifetime == DependencyLifetime::Singleton {
            count += 1;
        }
        id += 1;
    }
    count
}

/// An application whose plugins were collected and whose provider graph is
/// valid, before its singletons are built.
#[derive(Debug)]
pub struct AppAssembly {
    registrations: Vec<ProviderRegistration>,
    operations: Vec<ScopedOperation>,
    security_schemes: Vec<SecuritySchemeDescriptor>,
    startup_hooks: Vec<usize>,
    shutdown_hooks: Vec<usize>,
    singletons: Vec<BuildStep>,
}

impl AppAssembly {
    pub closed spec fn spec_registrations(self) -> Seq<ProviderRegistration> {
        self.registrations@
    }

    pub closed spec fn spec_operations(self) -> Seq<ScopedView> {
        scoped_view(self.operations@)
    }

    pub closed spec fn spec_schemes(self) -> Seq<SecuritySchemeDescriptor> {
        self.security_schemes@
    }

    pub closed spec fn spec_startup(self) -> Seq<usize> {
        self.startup_hooks@
    }

    pub closed spec fn spec_shutdown(self) -> Seq<usize> {
        self.shutdown_hooks@
    }

    pub closed spec fn spec_singletons(self) -> Seq<BuildStep> {
        self.singletons@
    }

    /// The graph is valid, and its singletons are laid out.
    pub open spec fn wf(self) -> bool {
        &&& registered(self.spec_registrations())
        &&& graph_fault(self.spec_registrations()) is None
        &&& forall|i: int|
            0 <= i < self.spec_operations().len() ==> sees_registered(
                (#[trigger] self.spec_operations()[i]).visible,
                self.spec_registrations().len() as int,
            )
        &&& steps_view(self.spec_singletons()) == singleton_steps(self.spec_registrations())
        &&& runs_factories(self.spec_registrations(), self.spec_singletons())
    }

    /// The singletons to build, in order.
    #[must_use]
    pub fn singletons(&self) -> (steps: &[BuildStep])
        ensures
            steps@ == self.spec_singletons(),
    {
        self.singletons.as_slice()
    }

    /// The number of slots that singletons take.
    #[must_use]
    pub fn singleton_count(&self) -> (count: usize)
        ensures
            count == singletons_before(
                self.spec_registrations(),
                self.spec_registrations().len() as int,
            ),
    {
        count_singletons(&self.registrations, self.registrations.len())
    }

    /// The slot that the value of a step goes to.
    #[must_use]
    pub fn singleton_slot(&self, step: usize) -> (slot: usize)
        requires
            self.wf(),
            step < self.spec_singletons().len(),
        ensures
            slot == singletons_before(
                self.spec_registrations(),
                self.spec_singletons()[step as int].registration as int,
            ),
    {
        let count: usize = self.singletons.len();
        assert(step < count);
        count_singletons(&self.registrations, self.singletons[step].registration)
    }

    /// Starts building the singletons.
    #[must_use]
    pub fn singleton_run(&self) -> (run: SingletonRun)
        ensures
            run@ == unbuilt(self.spec_singletons().len()),
    {
        SingletonRun { count: self.singletons.len(), next: 0, failed: None }
    }

    /// Completes the application once its singletons were built, or one of
    /// them failed.
    pub fn complete(self, failed: Option<FailedSingleton>) -> (completed: Result<
        ExecutableApp,
        ExecutableBuildError,
    >)
        requires
            self.wf(),
            failed matches Some(failed) ==> failed.step < self.spec_singletons().len(),
        ensures
            match failed {
                Some(failed) => {
                    let id = self.spec_singletons()[failed.step as int].registration as int;
                    let registration = self.spec_registrations()[id];
                    completed matches Err(error) && error@
                        == ExecutableFault::SingletonProviderFailed(
                        registration.plugin@,
                        registration.provider.key.name@,
                        dependency_message(failed.error),
                    )
                },
                None => match completed {
                    Ok(app) => app.wf() && app.assembled_from(self),
                    Err(error) => match first_unwired(
                        self.spec_registrations(),
                        self.spec_operations(),
                        0,
                    ) {
                        Some(fault) => error@ == fault,
                        None => build_fault(
                            descriptors_of(self.spec_operations()),
                            self.spec_schemes(),
                        ) matches Some(fault) && error@ == ExecutableFault::Definition(fault),
                    },
                },
            },
    {
        let ghost whole = self;
        let AppAssembly {
            registrations,
            operations: scoped_operations,
            security_schemes,
            startup_hooks,
            shutdown_hooks,
            singletons,
        } = self;
        if let Some(failed) = failed {
            let step = &singletons[failed.step];
            let registration = &registrations[step.registration];
            return Err(
                ExecutableBuildError::SingletonProviderFailed {
                    plugin: registration.plugin.clone(),
                    dependency: registration.provider.key.name.to_owned(),
                    message: failed.error.to_string(),
                },
            );
        }
        let ghost regs = registrations@;
        let ghost views = scoped_view(scoped_operations@);
        assert forall|i: int| 0 <= i < scoped_operations@.len() implies sees_registered(
            (#[trigger] scoped_operations@[i])@.visible,
            regs.len() as int,
        ) by {
            assert(whole.spec_operations()[i] == scoped_operations@[i]@);
        }
        let (operations, descriptors) = match compile_operations(
            &registrations,
            scoped_operations,
        ) {
            Ok(compiled) => compiled,
            Err(error) => {
                return Err(error);
            },
        };
        let ghost originals = descriptors_of(views);
        let ghost copies = descriptors@;
        let ghost schemes = security_schemes@;
        proof {
            assert(descriptors_view(copies) =~= descriptors_view(originals));
            law_validity_depends_on_what_is_said(copies, originals, schemes);
        }
        match define(security_schemes, descriptors) {
            Err(error) => Err(ExecutableBuildError::Definition(error)),
            Ok(definition) => {
                proof {
                    lemma_identities_differ(regs, views, operations@, copies, schemes);
                    assert(defines(copies, schemes, definition));
                }
                Ok(ExecutableApp { definition, operations, startup_hooks, shutdown_hooks })
            },
        }
    }
}

/// A validated executable operation graph.
#[derive(Debug)]
pub struct ExecutableApp {
    definition: AppDefinition,
    operations: Vec<ExecutableOperation>,
    startup_hooks: Vec<usize>,
    shutdown_hooks: Vec<usize>,
}

impl ExecutableApp {
    pub closed spec fn spec_definition(self) -> AppDefinition {
        self.definition
    }

    pub closed spec fn spec_operations(self) -> Seq<ExecutableOperation> {
        self.operations@
    }

    pub closed spec fn spec_startup(self) -> Seq<usize> {
        self.startup_hooks@
    }

    pub closed spec fn spec_shutdown(self) -> Seq<usize> {
        self.shutdown_hooks@
    }

    /// No two operations have the same identity.
    pub open spec fn wf(self) -> bool {
        forall|i: int, j: int|
            0 <= i < j < self.spec_operations().len() ==> (
            #[trigger] self.spec_operations()[i]).descriptor.contract.id@ != (
            #[trigger] self.spec_operations()[j]).descriptor.contract.id@
    }

    /// The application holds every operation of an assembly, compiled in its
    /// scope.
    pub open spec fn assembled_from(self, assembly: AppAssembly) -> bool {
        &&& first_unwired(assembly.spec_registrations(), assembly.spec_operations(), 0) is None
        &&& build_fault(
            descriptors_of(assembly.spec_operations()),
            assembly.spec_schemes(),
        ) is None
        &&& self.spec_operations().len() == assembly.spec_operations().len()
        &&& forall|i: int|
            0 <= i < self.spec_operations().len() ==> compiled_in(
                assembly.spec_registrations(),
                assembly.spec_operations()[i],
                #[trigger] self.spec_operations()[i],
            )
        &&& describes(
            self.spec_definition(),
            descriptors_of(assembly.spec_operations()),
            assembly.spec_schemes(),
        )
        &&& self.spec_startup() == assembly.spec_startup()
        &&& self.spec_shutdown() == assembly.spec_shutdown()
    }

    /// Collects the plugins of an application after typed replacements, and
    /// validates its provider graph. Replacements come before validation, so
    /// they cannot bypass it.
    pub fn assemble(plugin: Plugin, overrides: TestOverrides) -> (assembled: Result<
        AppAssembly,
        ExecutableBuildError,
    >)
        ensures
            match assembled {
                Ok(assembly) => {
                    &&& assembly.wf()
                    &&& assembles(assembly, plugin, overrides@)
                },
                Err(error) => match application_of(plugin, overrides@) {
                    Err(fault) => error@ == fault,
                    Ok(application) => exists|regs: Seq<ProviderRegistration>|
                        registrations_view(regs) == application.registrations
                            && #[trigger] graph_fault(regs) == Some(error@),
                },
            },
    {
        let mut collector = PluginCollector {
            registrations: Vec::new(),
            operations: Vec::new(),
            security_schemes: Vec::new(),
            startup_hooks: Vec::new(),
            shutdown_hooks: Vec::new(),
            overrides,
        };
        let ghost start = nothing_collected(overrides@);
        assert(collector@ =~= start);
        proof {
            reveal_strlit("");
            assert(""@ =~= Seq::<char>::empty());
        }
        let visible: Vec<Visible> = Vec::new();
        let hooks = HookScope::default();
        assert(visible@ =~= Seq::<Visible>::empty());
        match collect_plugin(plugin, &visible, &hooks, "", &mut collector) {
            Ok(()) => {},
            Err(error) => {
                return Err(error);
            },
        }
        match collector.overrides.validate() {
            Ok(()) => {},
            Err(error) => {
                return Err(error);
            },
        }
        let ghost application = collector@;
        proof {
            let count: usize = collector.registrations.len();
            assert(application.registrations.len() <= usize::MAX);
            lemma_sound(plugin, visible@, hooks@, ""@, start);
        }
        let PluginCollector {
            registrations,
            operations,
            security_schemes,
            startup_hooks,
            shutdown_hooks,
            overrides,
        } = collector;
        let ghost regs = registrations@;
        proof {
            assert forall|i: int, j: int|
                0 <= i < regs.len() && 0 <= j < regs[i].visible@.len() implies (
            #[trigger] regs[i].visible@[j]).id < regs.len() by {
                assert(application.registrations[i] == regs[i]@);
                assert(sees_registered(
                    application.registrations[i].visible,
                    application.registrations.len() as int,
                ));
                assert(application.registrations[i].visible[j].id < regs.len());
            }
        }
        match validate_provider_graph(&registrations) {
            Ok(()) => {},
            Err(error) => {
                assert(registrations_view(regs) == application.registrations);
                return Err(error);
            },
        }
        let singletons = compile_singletons(&registrations);
        Ok(
            AppAssembly {
                registrations,
                operations,
                security_schemes,
                startup_hooks,
                shutdown_hooks,
                singletons,
            },
        )
    }

    /// Compiles a plugin graph after typed replacements, whose singleton
    /// factories all succeed. Where one may fail, the graph is assembled, its
    /// singletons are built, and what came of them completes it.
    pub fn from_plugin_with_overrides(plugin: Plugin, overrides: TestOverrides) -> (built: Result<
        ExecutableApp,
        ExecutableBuildError,
    >)
        ensures
            built_from(built, plugin, overrides@),
    {
        match ExecutableApp::assemble(plugin, overrides) {
            Err(error) => Err(error),
            Ok(assembly) => {
                let ghost regs = assembly.spec_registrations();
                assert(graph_fault(regs) is None);
                assembly.complete(None)
            },
        }
    }

    /// Compiles a plugin graph whose singleton factories all succeed.
    pub fn from_plugin(plugin: Plugin) -> (built: Result<ExecutableApp, ExecutableBuildError>)
        ensures
            built_from(built, plugin, Seq::empty()),
    {
        ExecutableApp::from_plugin_with_overrides(plugin, TestOverrides::new())
    }

    /// Compiles operations that no plugin scopes.
    pub fn new(operations: Vec<ExecutableOperation>) -> (built: Result<
        ExecutableApp,
        ExecutableBuildError,
    >)
        ensures
            exists|plugin: Plugin|
                only_holds(plugin, operations@, Seq::empty()) && #[trigger] built_from(
                    built,
                    plugin,
                    Seq::empty(),
                ),
    {
        ExecutableApp::with_security_schemes(operations, Vec::new())
    }

    /// Compiles operations with the security schemes of their application.
    pub fn with_security_schemes(
        operations: Vec<ExecutableOperation>,
        schemes: Vec<SecuritySchemeDescriptor>,
    ) -> (built: Result<ExecutableApp, ExecutableBuildError>)
        ensures
            exists|plugin: Plugin|
                only_holds(plugin, operations@, schemes@) && #[trigger] built_from(
                    built,
                    plugin,
                    Seq::empty(),
                ),
    {
        let mut plugin = Plugin::new("app");
        let ghost given = schemes@;
        let total: usize = schemes.len();
        let mut left = schemes;
        let mut index: usize = 0;
        assert(plugin.security_schemes@ =~= given.take(0));
        while index < total
            invariant
                index <= total,
                total == given.len(),
                left@ == given.skip(index as int),
                plugin.security_schemes@ == given.take(index as int),
                plugin.name@ == "app"@,
                plugin.providers@.len() == 0,
                plugin.operations@.len() == 0,
                plugin.plugins@.len() == 0,
                plugin.hooks@ == no_hooks(),
                plugin.startup_hooks@.len() == 0,
                plugin.shutdown_hooks@.len() == 0,
            decreases total - index,
        {
            let scheme = left.remove(0);
            assert(left@ =~= given.skip(index + 1));
            plugin = plugin.security_scheme(scheme);
            assert(plugin.security_schemes@ =~= given.take(index + 1));
            index += 1;
        }
        let plugin = plugin.routes(operations);
        assert(given.take(total as int) =~= given);
        assert(plugin.operations@ =~= operations@);
        let built = ExecutableApp::from_plugin(plugin);
        assert(only_holds(plugin, operations@, given));
        built
    }

    #[must_use]
    pub fn definition(&self) -> (definition: &AppDefinition)
        ensures
            *definition == self.spec_definition(),
    {
        &self.definition
    }

    /// Where the operation with an identity stands.
    #[must_use]
    pub fn operation_index(&self, id: &OperationId) -> (found: Option<usize>)
        ensures
            found matches Some(index) ==> index < self.spec_operations().len()
                && self.spec_operations()[index as int].descriptor.contract.id@ == id@,
            found is None ==> forall|i: int|
                0 <= i < self.spec_operations().len() ==> (
                #[trigger] self.spec_operations()[i]).descriptor.contract.id@ != id@,
    {
        let mut index: usize = 0;
        while index < self.operations.len()
            invariant
                index <= self.operations@.len(),
                forall|i: int|
                    0 <= i < index ==> (#[trigger] self.operations@[i]).descriptor.contract.id@
                        != id@,
            decreases self.operations@.len() - index,
        {
            if eq_text(self.operations[index].descriptor.contract.id.as_str(), id.as_str()) {
                return Some(index);
            }
            index += 1;
        }
        None
    }

    #[must_use]
    pub fn operation_at(&self, index: usize) -> (operation: Option<&ExecutableOperation>)
        ensures
            operation == if index < self.spec_operations().len() {
                Some(&self.spec_operations()[index as int])
            } else {
                None
            },
    {
        if index < self.operations.len() {
            Some(&self.operations[index])
        } else {
            None
        }
    }

    /// The operation with an identity.
    #[must_use]
    pub fn operation(&self, id: &OperationId) -> (found: Option<&ExecutableOperation>)
        ensures
            found matches Some(operation) ==> self.spec_operations().contains(*operation)
                && operation.descriptor.contract.id@ == id@,
            found is None ==> forall|i: int|
                0 <= i < self.spec_operations().len() ==> (
                #[trigger] self.spec_operations()[i]).descriptor.contract.id@ != id@,
    {
        match self.operation_index(id) {
            Some(index) => {
                assert(self.spec_operations()[index as int] == self.operations@[index as int]);
                Some(&self.operations[index])
            },
            None => None,
        }
    }

    /// The first operation that is exposed under the name of a tool.
    #[must_use]
    pub fn operation_for_mcp_tool(&self, name: &str) -> (found: Option<&ExecutableOperation>)
        ensures
            found matches Some(operation) ==> exists|i: int|
                {
                    &&& 0 <= i < self.spec_operations().len()
                    &&& *operation == #[trigger] self.spec_operations()[i]
                    &&& exposed_as(*operation, name@)
                    &&& forall|k: int|
                        0 <= k < i ==> !exposed_as(#[trigger] self.spec_operations()[k], name@)
                },
            found is None ==> forall|i: int|
                0 <= i < self.spec_operations().len() ==> !exposed_as(
                    #[trigger] self.spec_operations()[i],
                    name@,
                ),
    {
        let mut index: usize = 0;
        while index < self.operations.len()
            invariant
                index <= self.operations@.len(),
                self.operations@ == self.spec_operations(),
                forall|i: int|
                    0 <= i < index ==> !exposed_as(#[trigger] self.spec_operations()[i], name@),
            decreases self.operations@.len() - index,
        {
            if let Some(tool) = &self.operations[index].descriptor.contract.mcp {
                if eq_text(tool.name.as_str(), name) {
                    assert(exposed_as(self.spec_operations()[index as int], name@));
                    return Some(&self.operations[index]);
                }
            }
            assert(!exposed_as(self.spec_operations()[index as int], name@));
            index += 1;
        }
        None
    }

    /// The startup hooks, parent before child. The first failure ends them.
    #[must_use]
    pub fn startup(&self) -> (run: LifecycleRun)
        ensures
            run@ == (LifecycleView {
                hooks: self.spec_startup(),
                next: 0,
                stops: true,
                error: None,
            }),
    {
        let mut hooks: Vec<usize> = Vec::new();
        hooks.extend_from_slice(self.startup_hooks.as_slice());
        assert(hooks@ =~= self.startup_hooks@);
        LifecycleRun { hooks, next: 0, stops: true, error: None }
    }

    /// The shutdown hooks, child before parent. They all run.
    #[must_use]
    pub fn shutdown(&self) -> (run: LifecycleRun)
        ensures
            run@ == (LifecycleView {
                hooks: self.spec_shutdown().reverse(),
                next: 0,
                stops: false,
                error: None,
            }),
    {
        let mut hooks: Vec<usize> = Vec::new();
        let count: usize = self.shutdown_hooks.len();
        let mut left: usize = count;
        while left > 0
            invariant
                left <= count,
                count == self.shutdown_hooks@.len(),
                hooks@.len() == count - left,
                forall|i: int|
                    0 <= i < hooks@.len() ==> #[trigger] hooks@[i] == self.shutdown_hooks@[count - 1
                        - i],
            decreases left,
        {
            left -= 1;
            hooks.push(self.shutdown_hooks[left]);
        }
        assert(hooks@ =~= self.shutdown_hooks@.reverse());
        LifecycleRun { hooks, next: 0, stops: false, error: None }
    }
}

/// An operation that is exposed under the name of a tool.
pub open spec fn exposed_as(operation: ExecutableOperation, name: Seq<char>) -> bool {
    operation.descriptor.contract.mcp matches Some(tool) && tool.name@ == name
}

/// A plugin named `app` that holds operations and security schemes, and nothing
/// else.
pub open spec fn only_holds(
    plugin: Plugin,
    operations: Seq<ExecutableOperation>,
    schemes: Seq<SecuritySchemeDescriptor>,
) -> bool {
    &&& plugin.name@ == "app"@
    &&& plugin.operations@ == operations
    &&& plugin.security_schemes@ == schemes
    &&& plugin.providers@.len() == 0
    &&& plugin.plugins@.len() == 0
    &&& plugin.hooks@ == no_hooks()
    &&& plugin.startup_hooks@.len() == 0
    &&& plugin.shutdown_hooks@.len() == 0
}

/// What compiling a plugin graph comes to, where the singleton factories all
/// succeed.
pub open spec fn built_from(
    built: Result<ExecutableApp, ExecutableBuildError>,
    plugin: Plugin,
    overrides: Seq<OverrideView>,
) -> bool {
    match application_of(plugin, overrides) {
        Err(fault) => built matches Err(error) && error@ == fault,
        Ok(application) => exists|regs: Seq<ProviderRegistration>|
            registrations_view(regs) == application.registrations && match #[trigger] graph_fault(
                regs,
            ) {
                Some(fault) => built matches Err(error) && error@ == fault,
                None => match first_unwired(regs, application.operations, 0) {
                    Some(fault) => built matches Err(error) && error@ == fault,
                    None => match build_fault(
                        descriptors_of(application.operations),
                        application.security_schemes,
                    ) {
                        Some(fault) => built matches Err(error) && error@
                            == ExecutableFault::Definition(fault),
                        None => built matches Ok(app) && app.wf() && holds_application(
                            app,
                            regs,
                            application,
                        ),
                    },
                },
            },
    }
}

/// An application holds what its plugins declare, every operation compiled in
/// its scope.
pub open spec fn holds_application(
    app: ExecutableApp,
    regs: Seq<ProviderRegistration>,
    application: CollectorView,
) -> bool {
    &&& app.spec_operations().len() == application.operations.len()
    &&& forall|i: int|
        0 <= i < app.spec_operations().len() ==> compiled_in(
            regs,
            application.operations[i],
            #[trigger] app.spec_operations()[i],
        )
    &&& describes(
        app.spec_definition(),
        descriptors_of(application.operations),
        application.security_schemes,
    )
    &&& app.spec_startup() == application.startup_hooks
    &&& app.spec_shutdown() == application.shutdown_hooks
}

// ---------------------------------------------------------------------------
// Starting and stopping
// ---------------------------------------------------------------------------

/// The hooks of a startup or a shutdown on their way.
#[derive(Debug)]
pub struct LifecycleRun {
    hooks: Vec<usize>,
    next: usize,
    stops: bool,
    error: Option<DependencyError>,
}

/// How far a startup or a shutdown is.
#[verifier::ext_equal]
pub struct LifecycleView {
    pub hooks: Seq<usize>,
    pub next: int,
    /// Whether a failure ends it.
    pub stops: bool,
    pub error: Option<DependencyError>,
}

impl View for LifecycleRun {
    type V = LifecycleView;

    closed spec fn view(&self) -> LifecycleView {
        LifecycleView {
            hooks: self.hooks@,
            next: self.next as int,
            stops: self.stops,
            error: self.error,
        }
    }
}

/// A startup or a shutdown after its next hook ran.
pub open spec fn hook_ran(run: LifecycleView, result: Result<(), DependencyError>) -> LifecycleView {
    LifecycleView {
        next: run.next + 1,
        error: match (run.error, result) {
            (None, Err(error)) => Some(error),
            (error, _) => error,
        },
        ..run
    }
}

/// The hook that is due.
pub open spec fn due(run: LifecycleView) -> Option<usize> {
    if run.next >= run.hooks.len() || (run.stops && run.error is Some) {
        None
    } else {
        Some(run.hooks[run.next])
    }
}

impl LifecycleRun {
    /// The hook to run next, if any is due.
    #[must_use]
    pub fn next(&self) -> (hook: Option<usize>)
        ensures
            hook == due(self@),
    {
        if self.next >= self.hooks.len() || (self.stops && self.error.is_some()) {
            None
        } else {
            Some(self.hooks[self.next])
        }
    }

    /// Takes note of how the due hook went.
    pub fn ran(&mut self, result: Result<(), DependencyError>)
        requires
            due(old(self)@) is Some,
        ensures
            final(self)@ == hook_ran(old(self)@, result),
    {
        let count: usize = self.hooks.len();
        assert(self.next < count);
        self.next += 1;
        if self.error.is_none() {
            if let Err(error) = result {
                self.error = Some(error);
            }
        }
    }

    /// The first failure, if there was one.
    pub fn result(self) -> (result: Result<(), DependencyError>)
        ensures
            result == match self@.error {
                Some(error) => Err(error),
                None => Ok::<(), DependencyError>(()),
            },
    {
        match self.error {
            Some(error) => Err(error),
            None => Ok(()),
        }
    }
}

/// A startup or a shutdown after so many hooks went as they did.
pub open spec fn after_hooks(
    run: LifecycleView,
    results: Seq<Result<(), DependencyError>>,
) -> LifecycleView
    decreases results.len(),
{
    if results.len() == 0 {
        run
    } else {
        hook_ran(after_hooks(run, results.drop_last()), results.last())
    }
}

proof fn lemma_after_hooks(run: LifecycleView, results: Seq<Result<(), DependencyError>>)
    requires
        run.error is None,
    ensures
        ({
            let after = after_hooks(run, results);
            &&& after.hooks == run.hooks
            &&& after.stops == run.stops
            &&& after.next == run.next + results.len()
            &&& after.error is None <==> forall|i: int|
                0 <= i < results.len() ==> (#[trigger] results[i]) is Ok
            &&& after.error matches Some(error) ==> first_failed(results, error)
        }),
    decreases results.len(),
{
    if results.len() > 0 {
        let before = results.drop_last();
        lemma_after_hooks(run, before);
        let earlier = after_hooks(run, before);
        if earlier.error is None {
            assert forall|i: int| 0 <= i < results.len() - 1 implies (#[trigger] results[i]) is Ok
                by {
                assert(before[i] is Ok);
            }
            if let Err(error) = results.last() {
                assert(results[results.len() - 1] == Err::<(), DependencyError>(error));
                assert(first_failed(results, error));
            }
        } else {
            let error = earlier.error->Some_0;
            let i = choose|i: int|
                {
                    &&& 0 <= i < before.len()
                    &&& #[trigger] before[i] == Err::<(), DependencyError>(error)
                    &&& forall|k: int| 0 <= k < i ==> (#[trigger] before[k]) is Ok
                };
            assert(results[i] == Err::<(), DependencyError>(error));
            assert forall|k: int| 0 <= k < i implies (#[trigger] results[k]) is Ok by {
                assert(before[k] is Ok);
            }
        }
    }
}

/// The first failure among results.
pub open spec fn first_failed(
    results: Seq<Result<(), DependencyError>>,
    error: DependencyError,
) -> bool {
    exists|i: int|
        {
            &&& 0 <= i < results.len()
            &&& #[trigger] results[i] == Err::<(), DependencyError>(error)
            &&& forall|k: int| 0 <= k < i ==> (#[trigger] results[k]) is Ok
        }
}

/// A shutdown runs every hook, whatever fails, and reports its first failure.
pub proof fn law_shutdown_runs_every_hook(
    hooks: Seq<usize>,
    results: Seq<Result<(), DependencyError>>,
)
    requires
        results.len() <= hooks.len(),
    ensures
        ({
            let after = after_hooks(
                LifecycleView { hooks, next: 0, stops: false, error: None },
                results,
            );
            &&& due(after) == if results.len() < hooks.len() {
                Some(hooks[results.len() as int])
            } else {
                None
            }
            &&& after.error matches Some(error) ==> first_failed(results, error)
            &&& after.error is None ==> forall|i: int|
                0 <= i < results.len() ==> (#[trigger] results[i]) is Ok
        }),
{
    lemma_after_hooks(LifecycleView { hooks, next: 0, stops: false, error: None }, results);
}

/// A startup runs its hooks in order up to the first that fails, and reports
/// that failure.
pub proof fn law_startup_stops_at_the_first_failure(
    hooks: Seq<usize>,
    results: Seq<Result<(), DependencyError>>,
)
    requires
        results.len() <= hooks.len(),
    ensures
        ({
            let after = after_hooks(
                LifecycleView { hooks, next: 0, stops: true, error: None },
                results,
            );
            &&& (forall|i: int| 0 <= i < results.len() ==> (#[trigger] results[i]) is Ok) ==> {
                &&& after.error is None
                &&& due(after) == if results.len() < hooks.len() {
                    Some(hooks[results.len() as int])
                } else {
                    None
                }
            }
            &&& after.error matches Some(error) ==> due(after) is None && first_failed(
                results,
                error,
            )
        }),
{
    lemma_after_hooks(LifecycleView { hooks, next: 0, stops: true, error: None }, results);
}

/// An assembly holds what the plugins of an application declare.
pub open spec fn assembles(
    assembly: AppAssembly,
    plugin: Plugin,
    overrides: Seq<OverrideView>,
) -> bool {
    application_of(plugin, overrides) matches Ok(application) && {
        &&& registrations_view(assembly.spec_registrations()) == application.registrations
        &&& assembly.spec_operations() == application.operations
        &&& assembly.spec_schemes() == application.security_schemes
        &&& assembly.spec_startup() == application.startup_hooks
        &&& assembly.spec_shutdown() == application.shutdown_hooks
    }
}

/// A plugin brings what it declares: its operations, its security schemes and its
/// providers, each under the path of the plugin, behind what was there before. A
/// provider that no override is meant for is the declared one, and an overridden
/// one still provides the declared type.
pub proof fn law_plugins_bring_what_they_declare(
    plugin: Plugin,
    visible: Seq<Visible>,
    hooks: HooksView,
    parent: Seq<char>,
    so_far: CollectorView,
)
    requires
        collected(plugin, visible, hooks, parent, so_far) is Ok,
    ensures
        ({
            let after = collected(plugin, visible, hooks, parent, so_far)->Ok_0;
            let path = if parent.len() == 0 {
                plugin.name@
            } else {
                parent.push('/') + plugin.name@
            };
            let listed = so_far.operations.len();
            let registered = so_far.registrations.len();
            &&& after.operations.len() >= listed + plugin.operations@.len()
            &&& forall|i: int|
                0 <= i < plugin.operations@.len() ==> after.operations[listed + i].operation
                    == #[trigger] plugin.operations@[i] && after.operations[listed + i].plugin
                    == path
            &&& begins_with(
                after.security_schemes,
                so_far.security_schemes + plugin.security_schemes@,
            )
            &&& after.registrations.len() >= registered + plugin.providers@.len()
            &&& forall|i: int|
                0 <= i < plugin.providers@.len() ==> {
                    let own = #[trigger] plugin.providers@[i];
                    let kept = after.registrations[registered + i];
                    &&& kept.plugin == path
                    &&& kept.provider.key.type_id == own.key.type_id
                    &&& so_far.overrides.len() == 0 ==> kept.provider == own@
                }
        }),
{
    let after = collected(plugin, visible, hooks, parent, so_far)->Ok_0;
    let path = plugin_path(parent, plugin.name@);
    reveal_strlit("/");
    assert(parent + "/"@ =~= parent.push('/'));
    let declared = providers_view(plugin.providers@);
    let providers = overridden(so_far.overrides, path, declared);
    let own = sees(visible, so_far.registrations.len() as int, providers);
    let around = inherited_hooks(hooks, plugin.hooks@);
    let here = with_plugin(plugin, own, around, path, providers, so_far);
    let listed = so_far.operations.len();
    let registered = so_far.registrations.len();
    lemma_collected_children(plugin.plugins@, 0, own, around, path, here);
    assert forall|i: int| 0 <= i < plugin.operations@.len() implies after.operations[listed
        + i].operation == #[trigger] plugin.operations@[i] && after.operations[listed + i].plugin
        == path by {
        assert(after.operations.take(here.operations.len() as int)[listed + i]
            == here.operations[listed + i]);
    }
    if plugin.providers@.len() > 0 {
        crate::executable::law_overrides_replace_their_provider(
            so_far.overrides,
            path,
            declared,
            declared.len() - 1,
        );
    }
    assert forall|i: int| 0 <= i < plugin.providers@.len() implies {
        let given = #[trigger] plugin.providers@[i];
        let kept = after.registrations[registered + i];
        &&& kept.plugin == path
        &&& kept.provider.key.type_id == given.key.type_id
        &&& so_far.overrides.len() == 0 ==> kept.provider == given@
    } by {
        crate::executable::law_overrides_replace_their_provider(
            so_far.overrides,
            path,
            declared,
            i,
        );
        assert(declared[i] == plugin.providers@[i]@);
        assert(here.registrations[registered + i].provider == providers[i]);
        assert(after.registrations.take(here.registrations.len() as int)[registered + i]
            == here.registrations[registered + i]);
    }
}

/// A plugin on its own is accepted if and only if its name is made of letters,
/// digits, dashes and underscores and no two of its providers, as overridden,
/// provide the same type. Otherwise the name, or the second provider of a type, is
/// reported.
pub proof fn law_plugins_have_a_name_and_distinct_types(
    plugin: Plugin,
    visible: Seq<Visible>,
    hooks: HooksView,
    parent: Seq<char>,
    so_far: CollectorView,
)
    requires
        plugin.plugins@.len() == 0,
    ensures
        ({
            let named = plugin.name@.len() > 0 && forall|i: int|
                0 <= i < plugin.name@.len() ==> 'a' <= #[trigger] plugin.name@[i] <= 'z' || 'A'
                    <= plugin.name@[i] <= 'Z' || '0' <= plugin.name@[i] <= '9' || plugin.name@[i]
                    == '-' || plugin.name@[i] == '_';
            let path = plugin_path(parent, plugin.name@);
            let providers = overridden(so_far.overrides, path, providers_view(plugin.providers@));
            match collected(plugin, visible, hooks, parent, so_far) {
                Ok(_) => named && forall|i: int, j: int|
                    0 <= i < j < providers.len() ==> (#[trigger] providers[i]).key.type_id != (
                    #[trigger] providers[j]).key.type_id,
                Err(ExecutableFault::InvalidPluginName(said)) => !named && said == path,
                Err(ExecutableFault::DuplicateProvider(said, dependency)) => named && said == path
                    && exists|i: int, j: int|
                    0 <= i < j < providers.len() && (#[trigger] providers[i]).key.type_id == (
                    #[trigger] providers[j]).key.type_id && providers[j].key.name@ == dependency,
                Err(_) => false,
            }
        }),
{
    let path = plugin_path(parent, plugin.name@);
    let providers = overridden(so_far.overrides, path, providers_view(plugin.providers@));
    let name = plugin.name@;
    assert forall|i: int| 0 <= i < name.len() implies (plugin_char(#[trigger] name[i]) <==> 'a'
        <= name[i] <= 'z' || 'A' <= name[i] <= 'Z' || '0' <= name[i] <= '9' || name[i] == '-'
        || name[i] == '_') by {}
    lemma_repeated(providers, 0);
}

proof fn lemma_repeated(providers: Seq<ProviderView>, at: int)
    requires
        0 <= at,
    ensures
        match repeated_type(providers, at) {
            Some(j) => at <= j < providers.len() && exists|i: int|
                0 <= i < j && (#[trigger] providers[i]).key.type_id == providers[j].key.type_id,
            None => forall|i: int, j: int|
                0 <= i < j && at <= j < providers.len() ==> (#[trigger] providers[i]).key.type_id
                    != (#[trigger] providers[j]).key.type_id,
        },
    decreases providers.len() - at,
{
    if at < providers.len() {
        lemma_repeated(providers, at + 1);
    }
}

/// An application is collected only where every override was applied; one that was
/// not is reported under its plugin and the type that it provides.
pub proof fn law_applications_use_their_overrides(plugin: Plugin, overrides: Seq<OverrideView>)
    ensures
        ({
            let found = collected(
                plugin,
                Seq::empty(),
                no_hooks(),
                Seq::empty(),
                nothing_collected(overrides),
            );
            &&& found matches Err(fault) ==> application_of(plugin, overrides) == Err::<
                CollectorView,
                ExecutableFault,
            >(fault)
            &&& found matches Ok(application) ==> (match application_of(plugin, overrides) {
                Ok(same) => same == application && forall|i: int|
                    0 <= i < application.overrides.len() ==> (
                    #[trigger] application.overrides[i]).applied,
                Err(fault) => exists|i: int|
                    0 <= i < application.overrides.len() && !(
                    #[trigger] application.overrides[i]).applied && fault
                        == ExecutableFault::UnknownProviderOverride(
                        application.overrides[i].plugin,
                        application.overrides[i].provider.key.name@,
                    ),
            })
        }),
{
    if let Ok(application) = collected(
        plugin,
        Seq::empty(),
        no_hooks(),
        Seq::empty(),
        nothing_collected(overrides),
    ) {
        crate::executable::law_unmatched_overrides_are_reported(application.overrides);
        if let Some(entry) = unused(application.overrides, 0) {
            let i = application.overrides.index_of(entry);
            assert(application.overrides[i] == entry);
        }
    }
}

/// Operations are accepted if and only if each of them sees everything that it asks
/// for; the fault of one that does not is reported.
pub proof fn law_every_operation_is_wired(
    regs: Seq<ProviderRegistration>,
    operations: Seq<ScopedView>,
    at: int,
)
    requires
        0 <= at,
    ensures
        match first_unwired(regs, operations, at) {
            None => forall|i: int|
                at <= i < operations.len() ==> wired(regs, #[trigger] operations[i]) is Ok,
            Some(fault) => exists|i: int|
                at <= i < operations.len() && wired(regs, #[trigger] operations[i]) == Err::<
                    (Seq<DependencySlot>, RequestView),
                    ExecutableFault,
                >(fault),
        },
    decreases operations.len() - at,
{
    if at < operations.len() {
        law_every_operation_is_wired(regs, operations, at + 1);
    }
}

/// A compiled operation does what the collected one was declared to do: it keeps
/// its descriptor, its requests and its handler, runs the hooks of its scope under
/// its own identifier, and its handler has one slot for every request.
pub proof fn law_compiled_operations_do_what_was_declared(
    regs: Seq<ProviderRegistration>,
    scoped: ScopedView,
    operation: ExecutableOperation,
)
    requires
        registered(regs),
        graph_fault(regs) is None,
        regs.len() <= usize::MAX,
        forall|j: int|
            0 <= j < scoped.visible.len() ==> (#[trigger] scoped.visible[j]).id < regs.len(),
        compiled_in(regs, scoped, operation),
    ensures
        operation.descriptor == scoped.operation.descriptor,
        operation.handler == scoped.operation.handler,
        operation.dependency_requests == scoped.operation.dependency_requests,
        operation.hooks.scope@ == scoped.hooks,
        operation.hooks.context matches Some(context) && context.operation_id@
            == operation.descriptor.contract.id@,
        operation.dependency_plan matches Some(plan) && (plan.request_providers@.len()
            <= usize::MAX ==> plan.handler_slots@.len() == operation.dependency_requests@.len()),
{
    crate::wiring::law_invocations_read_what_they_ask_for(
        regs,
        scoped.visible,
        scoped.plugin,
        scoped.operation.descriptor.contract.id@,
        scoped.operation.dependency_requests@,
    );
}

} // verus!
