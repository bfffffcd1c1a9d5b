//! Dependencies: their identities, their providers, and their slots.
use crate::operation::OperationFailure;
use crate::outcome::ExecutionOutcome;
use crate::text::{decimal, decimal_text};
use std::rc::Rc;
use vstd::prelude::*;
use vstd::string::*;

verus! {

/// A resolved typed dependency passed to a handler or provider.
#[derive(Clone, Debug)]
pub struct Depends<T> {
    pub value: Rc<T>,
}

impl<T> Depends<T> {
    #[must_use]
    pub fn from_rc(value: Rc<T>) -> (dependency: Self)
        ensures
            dependency.value == value,
    {
        Depends { value }
    }

    #[must_use]
    pub fn into_inner(self) -> (value: Rc<T>)
        ensures
            value == self.value,
    {
        self.value
    }
}

/// The lifetime of a dependency provider.
#[derive(Clone, Copy, Debug, PartialEq, Eq, Structural)]
pub enum DependencyLifetime {
    /// Created once while the executable application is compiled.
    Singleton,
    /// Created once for each operation invocation that needs it.
    Request,
    /// Created independently for every injection edge.
    Transient,
}

/// Identity of a typed dependency: a number that tells types apart, and the
/// type's name.
#[derive(Clone, Copy, Debug, PartialEq, Eq, Hash)]
pub struct DependencyKey {
    pub type_id: u64,
    pub name: &'static str,
}

impl DependencyKey {
    #[must_use]
    pub fn of(type_id: u64, name: &'static str) -> (key: Self)
        ensures
            key == (DependencyKey { type_id, name }),
    {
        DependencyKey { type_id, name }
    }

    #[must_use]
    pub fn type_id(self) -> (type_id: u64)
        ensures
            type_id == self.type_id,
    {
        self.type_id
    }

    #[must_use]
    pub fn name(self) -> (name: &'static str)
        ensures
            name == self.name,
    {
        self.name
    }
}

/// A dependency required by one operation handler.
#[derive(Clone, Copy, Debug, PartialEq, Eq, Hash)]
pub struct DependencyRequest {
    pub key: DependencyKey,
}

impl DependencyRequest {
    #[must_use]
    pub fn of(type_id: u64, name: &'static str) -> (request: Self)
        ensures
            request.key == (DependencyKey { type_id, name }),
    {
        DependencyRequest { key: DependencyKey::of(type_id, name) }
    }

    #[must_use]
    pub fn key(self) -> (key: DependencyKey)
        ensures
            key == self.key,
    {
        self.key
    }
}

/// A stable request rejection or an internal dependency failure.
#[derive(Clone, Debug, PartialEq, Eq)]
pub enum DependencyError {
    Rejected(OperationFailure),
    Internal { code: &'static str, message: String },
}

/// A failure as shown to people.
pub open spec fn dependency_message(error: DependencyError) -> Seq<char> {
    match error {
        DependencyError::Rejected(failure) => failure.message@,
        DependencyError::Internal { message, .. } => message@,
    }
}

/// An internal failure with a code and a message.
pub open spec fn is_internal_error(
    error: DependencyError,
    code: Seq<char>,
    message: Seq<char>,
) -> bool {
    error matches DependencyError::Internal { code: own, message: said } && own@ == code && said@
        == message
}

impl DependencyError {
    #[must_use]
    pub fn rejected(failure: OperationFailure) -> (error: Self)
        ensures
            error == DependencyError::Rejected(failure),
    {
        DependencyError::Rejected(failure)
    }

    #[must_use]
    pub fn internal(code: &'static str, message: &str) -> (error: Self)
        ensures
            is_internal_error(error, code@, message@),
    {
        DependencyError::Internal { code, message: message.to_owned() }
    }

    /// The failure as shown to people.
    #[must_use]
    pub fn to_string(&self) -> (text: String)
        ensures
            text@ == dependency_message(*self),
    {
        match self {
            DependencyError::Rejected(failure) => failure.message.clone(),
            DependencyError::Internal { message, .. } => message.clone(),
        }
    }
}

/// What a dependency failure comes to: a rejection is the declared failure it
/// carries, everything else is internal.
pub open spec fn is_dependency_outcome<S, H, F>(
    outcome: ExecutionOutcome<S, H, F>,
    error: DependencyError,
) -> bool {
    match error {
        DependencyError::Rejected(failure) => outcome == ExecutionOutcome::<S, H, F>::DomainError(
            failure,
        ),
        DependencyError::Internal { code, message } => crate::outcome::is_internal(
            outcome,
            code@,
            message@,
        ),
    }
}

/// What a dependency failure comes to.
#[must_use]
pub fn dependency_error_outcome<S, H, F>(error: DependencyError) -> (outcome: ExecutionOutcome<
    S,
    H,
    F,
>)
    ensures
        is_dependency_outcome(outcome, error),
{
    match error {
        DependencyError::Rejected(failure) => ExecutionOutcome::DomainError(failure),
        DependencyError::Internal { code, message } => ExecutionOutcome::InternalError {
            code: code.to_owned(),
            message,
        },
    }
}

/// A numeric source selected by the dependency compiler.
#[derive(Clone, Copy, Debug, PartialEq, Eq)]
pub enum DependencySlot {
    Singleton(usize),
    Request(usize),
}

/// A provider was given another number of slots than it takes.
#[derive(Clone, Copy, Debug, PartialEq, Eq)]
pub struct ProviderCompileError {
    pub expected: usize,
    pub actual: usize,
}

impl ProviderCompileError {
    /// The failure as shown to people.
    #[must_use]
    pub fn to_string(&self) -> (text: String)
        ensures
            text@ == "provider expected "@ + decimal(self.expected as nat)
                + " dependency slots but received "@ + decimal(self.actual as nat),
    {
        let mut text = "provider expected ".to_owned();
        text.append(decimal_text(self.expected as u64).as_str());
        text.append(" dependency slots but received ");
        text.append(decimal_text(self.actual as u64).as_str());
        text
    }
}

/// A typed dependency provider registered in a plugin scope. The factory
/// itself is known by a number.
#[derive(Clone, Debug, PartialEq, Eq)]
pub struct Provider {
    pub key: DependencyKey,
    pub lifetime: DependencyLifetime,
    pub dependencies: Vec<DependencyKey>,
    /// Whether the factory has to be awaited.
    pub awaited: bool,
    /// Whether a value is finalized once its request ended.
    pub finalized: bool,
    pub factory: usize,
}

/// What a provider declares.
#[verifier::ext_equal]
pub struct ProviderView {
    pub key: DependencyKey,
    pub lifetime: DependencyLifetime,
    pub dependencies: Seq<DependencyKey>,
    pub awaited: bool,
    pub finalized: bool,
    pub factory: usize,
}

impl View for Provider {
    type V = ProviderView;

    open spec fn view(&self) -> ProviderView {
        ProviderView {
            key: self.key,
            lifetime: self.lifetime,
            dependencies: self.dependencies@,
            awaited: self.awaited,
            finalized: self.finalized,
            factory: self.factory,
        }
    }
}

/// What a list of providers declares.
pub open spec fn providers_view(providers: Seq<Provider>) -> Seq<ProviderView> {
    providers.map_values(|provider: Provider| provider@)
}

/// A provider with all of its dependency slots compiled.
#[derive(Clone, Debug, PartialEq, Eq)]
pub struct CompiledProvider {
    pub slots: Vec<DependencySlot>,
    pub awaited: bool,
    pub finalized: bool,
    pub factory: usize,
}

impl CompiledProvider {
    /// The factory to run while the application is compiled, which cannot wait
    /// for one that has to be awaited.
    pub fn run_sync(&self) -> (factory: Result<usize, DependencyError>)
        ensures
            match factory {
                Ok(factory) => !self.awaited && factory == self.factory,
                Err(error) => self.awaited && is_internal_error(
                    error,
                    "async_singleton_provider"@,
                    "async providers cannot use the singleton lifetime"@,
                ),
            },
    {
        if self.awaited {
            return Err(
                DependencyError::internal(
                    "async_singleton_provider",
                    "async providers cannot use the singleton lifetime",
                ),
            );
        }
        Ok(self.factory)
    }
}

/// A provider with these parts.
pub open spec fn provider_with(
    key: DependencyKey,
    lifetime: DependencyLifetime,
    dependencies: Vec<DependencyKey>,
    awaited: bool,
    finalized: bool,
    factory: usize,
) -> Provider {
    Provider { key, lifetime, dependencies, awaited, finalized, factory }
}

fn same_keys(left: &Vec<DependencyKey>) -> (copies: Vec<DependencyKey>)
    ensures
        copies@ == left@,
{
    let mut copies: Vec<DependencyKey> = Vec::new();
    let mut index: usize = 0;
    while index < left.len()
        invariant
            index <= left@.len(),
            copies@ == left@.take(index as int),
        decreases left@.len() - index,
    {
        assert(left@.take(index + 1) =~= left@.take(index as int).push(left@[index as int]));
        copies.push(left[index]);
        index += 1;
    }
    assert(left@.take(index as int) =~= left@);
    copies
}

impl Provider {
    /// Registers an already-created singleton value.
    #[must_use]
    pub fn value(key: DependencyKey, factory: usize) -> (provider: Self)
        ensures
            provider.key == key,
            provider.lifetime == DependencyLifetime::Singleton,
            provider.dependencies@.len() == 0,
            !provider.awaited && !provider.finalized,
            provider.factory == factory,
    {
        Provider::singleton(key, Vec::new(), factory)
    }

    /// Registers an infallible singleton factory.
    #[must_use]
    pub fn singleton(
        key: DependencyKey,
        dependencies: Vec<DependencyKey>,
        factory: usize,
    ) -> (provider: Self)
        ensures
            provider == provider_with(
                key,
                DependencyLifetime::Singleton,
                dependencies,
                false,
                false,
                factory,
            ),
    {
        Provider {
            key,
            lifetime: DependencyLifetime::Singleton,
            dependencies,
            awaited: false,
            finalized: false,
            factory,
        }
    }

    /// Registers an infallible request-scoped factory.
    #[must_use]
    pub fn request(
        key: DependencyKey,
        dependencies: Vec<DependencyKey>,
        factory: usize,
    ) -> (provider: Self)
        ensures
            provider == provider_with(
                key,
                DependencyLifetime::Request,
                dependencies,
                false,
                false,
                factory,
            ),
    {
        Provider {
            key,
            lifetime: DependencyLifetime::Request,
            dependencies,
            awaited: false,
            finalized: false,
            factory,
        }
    }

    /// Registers an infallible transient factory.
    #[must_use]
    pub fn transient(
        key: DependencyKey,
        dependencies: Vec<DependencyKey>,
        factory: usize,
    ) -> (provider: Self)
        ensures
            provider == provider_with(
                key,
                DependencyLifetime::Transient,
                dependencies,
                false,
                false,
                factory,
            ),
    {
        Provider {
            key,
            lifetime: DependencyLifetime::Transient,
            dependencies,
            awaited: false,
            finalized: false,
            factory,
        }
    }

    /// Registers a fallible singleton factory.
    #[must_use]
    pub fn try_singleton(
        key: DependencyKey,
        dependencies: Vec<DependencyKey>,
        factory: usize,
    ) -> (provider: Self)
        ensures
            provider == provider_with(
                key,
                DependencyLifetime::Singleton,
                dependencies,
                false,
                false,
                factory,
            ),
    {
        Provider {
            key,
            lifetime: DependencyLifetime::Singleton,
            dependencies,
            awaited: false,
            finalized: false,
            factory,
        }
    }

    /// Registers a fallible request-scoped factory.
    #[must_use]
    pub fn try_request(
        key: DependencyKey,
        dependencies: Vec<DependencyKey>,
        factory: usize,
    ) -> (provider: Self)
        ensures
            provider == provider_with(
                key,
                DependencyLifetime::Request,
                dependencies,
                false,
                false,
                factory,
            ),
    {
        Provider {
            key,
            lifetime: DependencyLifetime::Request,
            dependencies,
            awaited: false,
            finalized: false,
            factory,
        }
    }

    /// Registers a fallible transient factory.
    #[must_use]
    pub fn try_transient(
        key: DependencyKey,
        dependencies: Vec<DependencyKey>,
        factory: usize,
    ) -> (provider: Self)
        ensures
            provider == provider_with(
                key,
                DependencyLifetime::Transient,
                dependencies,
                false,
                false,
                factory,
            ),
    {
        Provider {
            key,
            lifetime: DependencyLifetime::Transient,
            dependencies,
            awaited: false,
            finalized: false,
            factory,
        }
    }

    /// Registers a request provider with a reverse-order finalizer.
    #[must_use]
    pub fn request_scoped(
        key: DependencyKey,
        dependencies: Vec<DependencyKey>,
        factory: usize,
    ) -> (provider: Self)
        ensures
            provider == provider_with(
                key,
                DependencyLifetime::Request,
                dependencies,
                false,
                true,
                factory,
            ),
    {
        Provider {
            key,
            lifetime: DependencyLifetime::Request,
            dependencies,
            awaited: false,
            finalized: true,
            factory,
        }
    }

    /// Registers a fallible request provider with a reverse-order finalizer.
    #[must_use]
    pub fn try_request_scoped(
        key: DependencyKey,
        dependencies: Vec<DependencyKey>,
        factory: usize,
    ) -> (provider: Self)
        ensures
            provider == provider_with(
                key,
                DependencyLifetime::Request,
                dependencies,
                false,
                true,
                factory,
            ),
    {
        Provider {
            key,
            lifetime: DependencyLifetime::Request,
            dependencies,
            awaited: false,
            finalized: true,
            factory,
        }
    }

    /// Registers an async request-scoped factory.
    #[must_use]
    pub fn request_async(
        key: DependencyKey,
        dependencies: Vec<DependencyKey>,
        factory: usize,
    ) -> (provider: Self)
        ensures
            provider == provider_with(
                key,
                DependencyLifetime::Request,
                dependencies,
                true,
                false,
                factory,
            ),
    {
        Provider {
            key,
            lifetime: DependencyLifetime::Request,
            dependencies,
            awaited: true,
            finalized: false,
            factory,
        }
    }

    /// Registers an async transient factory.
    #[must_use]
    pub fn transient_async(
        key: DependencyKey,
        dependencies: Vec<DependencyKey>,
        factory: usize,
    ) -> (provider: Self)
        ensures
            provider == provider_with(
                key,
                DependencyLifetime::Transient,
                dependencies,
                true,
                false,
                factory,
            ),
    {
        Provider {
            key,
            lifetime: DependencyLifetime::Transient,
            dependencies,
            awaited: true,
            finalized: false,
            factory,
        }
    }

    /// Registers a fallible async request-scoped factory.
    #[must_use]
    pub fn try_request_async(
        key: DependencyKey,
        dependencies: Vec<DependencyKey>,
        factory: usize,
    ) -> (provider: Self)
        ensures
            provider == provider_with(
                key,
                DependencyLifetime::Request,
                dependencies,
                true,
                false,
                factory,
            ),
    {
        Provider {
            key,
            lifetime: DependencyLifetime::Request,
            dependencies,
            awaited: true,
            finalized: false,
            factory,
        }
    }

    /// Registers a fallible async transient factory.
    #[must_use]
    pub fn try_transient_async(
        key: DependencyKey,
        dependencies: Vec<DependencyKey>,
        factory: usize,
    ) -> (provider: Self)
        ensures
            provider == provider_with(
                key,
                DependencyLifetime::Transient,
                dependencies,
                true,
                false,
                factory,
            ),
    {
        Provider {
            key,
            lifetime: DependencyLifetime::Transient,
            dependencies,
            awaited: true,
            finalized: false,
            factory,
        }
    }

    /// Registers an async request provider with a reverse-order finalizer.
    #[must_use]
    pub fn request_async_scoped(
        key: DependencyKey,
        dependencies: Vec<DependencyKey>,
        factory: usize,
    ) -> (provider: Self)
        ensures
            provider == provider_with(
                key,
                DependencyLifetime::Request,
                dependencies,
                true,
                true,
                factory,
            ),
    {
        Provider {
            key,
            lifetime: DependencyLifetime::Request,
            dependencies,
            awaited: true,
            finalized: true,
            factory,
        }
    }

    /// Registers a fallible async request provider with a reverse-order
    /// finalizer.
    #[must_use]
    pub fn try_request_async_scoped(
        key: DependencyKey,
        dependencies: Vec<DependencyKey>,
        factory: usize,
    ) -> (provider: Self)
        ensures
            provider == provider_with(
                key,
                DependencyLifetime::Request,
                dependencies,
                true,
                true,
                factory,
            ),
    {
        Provider {
            key,
            lifetime: DependencyLifetime::Request,
            dependencies,
            awaited: true,
            finalized: true,
            factory,
        }
    }

    #[must_use]
    pub fn key(&self) -> (key: DependencyKey)
        ensures
            key == self.key,
    {
        self.key
    }

    #[must_use]
    pub fn lifetime(&self) -> (lifetime: DependencyLifetime)
        ensures
            lifetime == self.lifetime,
    {
        self.lifetime
    }

    #[must_use]
    pub fn dependencies(&self) -> (dependencies: &[DependencyKey])
        ensures
            dependencies@ == self.dependencies@,
    {
        self.dependencies.as_slice()
    }

    /// Binds the dependencies to slots, one for each.
    pub fn compile(&self, slots: Vec<DependencySlot>) -> (compiled: Result<
        CompiledProvider,
        ProviderCompileError,
    >)
        ensures
            match compiled {
                Ok(compiled) => slots@.len() == self.dependencies@.len() && compiled
                    == (CompiledProvider {
                    slots,
                    awaited: self.awaited,
                    finalized: self.finalized,
                    factory: self.factory,
                }),
                Err(error) => slots@.len() != self.dependencies@.len() && error.expected
                    == self.dependencies@.len() && error.actual == slots@.len(),
            },
    {
        if slots.len() != self.dependencies.len() {
            return Err(
                ProviderCompileError { expected: self.dependencies.len(), actual: slots.len() },
            );
        }
        Ok(
            CompiledProvider {
                slots,
                awaited: self.awaited,
                finalized: self.finalized,
                factory: self.factory,
            },
        )
    }

    /// The same provider again.
    #[must_use]
    pub fn again(&self) -> (provider: Self)
        ensures
            provider == (Provider { dependencies: provider.dependencies, ..*self }),
            provider.dependencies@ == self.dependencies@,
    {
        Provider {
            key: self.key,
            lifetime: self.lifetime,
            dependencies: same_keys(&self.dependencies),
            awaited: self.awaited,
            finalized: self.finalized,
            factory: self.factory,
        }
    }
}

/// A dependency value together with the number of its type.
#[derive(Clone, Copy, Debug, PartialEq, Eq)]
pub struct DependencyValue<V> {
    pub type_id: u64,
    pub value: V,
}

impl<V> DependencyValue<V> {
    #[must_use]
    pub fn of(type_id: u64, value: V) -> (held: Self)
        ensures
            held.type_id == type_id,
            held.value == value,
    {
        DependencyValue { type_id, value }
    }
}

/// The value in a slot, if it was initialized.
pub open spec fn slot_value<V>(
    slot: DependencySlot,
    singletons: Seq<Option<DependencyValue<V>>>,
    requests: Seq<Option<DependencyValue<V>>>,
) -> Option<DependencyValue<V>> {
    match slot {
        DependencySlot::Singleton(index) => if index < singletons.len() {
            singletons[index as int]
        } else {
            None
        },
        DependencySlot::Request(index) => if index < requests.len() {
            requests[index as int]
        } else {
            None
        },
    }
}

/// Looks up a slot, in the table that it belongs to and in no other.
pub fn held_in<'values, V>(
    slot: DependencySlot,
    singletons: &'values [Option<DependencyValue<V>>],
    requests: &'values [Option<DependencyValue<V>>],
) -> (held: Option<&'values DependencyValue<V>>)
    ensures
        match held {
            Some(held) => slot_value(slot, singletons@, requests@) == Some(*held),
            None => slot_value(slot, singletons@, requests@) is None,
        },
{
    match slot {
        DependencySlot::Singleton(index) => {
            if index < singletons.len() {
                if let Some(held) = &singletons[index] {
                    return Some(held);
                }
            }
        },
        DependencySlot::Request(index) => {
            if index < requests.len() {
                if let Some(held) = &requests[index] {
                    return Some(held);
                }
            }
        },
    }
    None
}

/// What a provider is given from a slot as a value of one type: the value that
/// is shared there, or the failure of a slot that is empty or holds another
/// type.
pub open spec fn resolved<V>(
    held: Option<DependencyValue<V>>,
    type_id: u64,
    value: Result<V, DependencyError>,
) -> bool {
    match held {
        None => value matches Err(error) && is_internal_error(
            error,
            "invalid_dependency_slot"@,
            "compiled dependency slot was not initialized"@,
        ),
        Some(held) => if held.type_id != type_id {
            value matches Err(error) && is_internal_error(
                error,
                "dependency_type_mismatch"@,
                "compiled dependency slot contained an unexpected type"@,
            )
        } else {
            value == Ok::<V, DependencyError>(held.value)
        },
    }
}

/// The value in a slot, as a value of one type.
pub fn resolve<'values, V>(
    slot: DependencySlot,
    singletons: &'values [Option<DependencyValue<V>>],
    requests: &'values [Option<DependencyValue<V>>],
    type_id: u64,
) -> (value: Result<&'values V, DependencyError>)
    ensures
        resolved(
            slot_value(slot, singletons@, requests@),
            type_id,
            match value {
                Ok(value) => Ok(*value),
                Err(error) => Err(error),
            },
        ),
{
    match held_in(slot, singletons, requests) {
        None => Err(
            DependencyError::internal(
                "invalid_dependency_slot",
                "compiled dependency slot was not initialized",
            ),
        ),
        Some(held) => {
            if held.type_id != type_id {
                return Err(
                    DependencyError::internal(
                        "dependency_type_mismatch",
                        "compiled dependency slot contained an unexpected type",
                    ),
                );
            }
            Ok(&held.value)
        },
    }
}

/// The value that a finalizer of one type is given.
pub fn finalizer_value<'values, V>(
    held: &'values DependencyValue<V>,
    type_id: u64,
    awaited: bool,
) -> (value: Result<&'values V, DependencyError>)
    ensures
        match value {
            Ok(value) => held.type_id == type_id && *value == held.value,
            Err(error) => held.type_id != type_id && is_internal_error(
                error,
                "dependency_type_mismatch"@,
                if awaited {
                    "compiled async finalizer received an unexpected dependency type"@
                } else {
                    "compiled finalizer received an unexpected dependency type"@
                },
            ),
        },
{
    if held.type_id == type_id {
        return Ok(&held.value);
    }
    Err(
        DependencyError::internal(
            "dependency_type_mismatch",
            if awaited {
                "compiled async finalizer received an unexpected dependency type"
            } else {
                "compiled finalizer received an unexpected dependency type"
            },
        ),
    )
}

/// A value is handed out where its slot holds one of the asked type, and it is the
/// one that was put there; nothing of another type ever is.
pub proof fn law_slots_give_back_their_value<V>(
    held: Option<DependencyValue<V>>,
    type_id: u64,
    value: Result<V, DependencyError>,
)
    requires
        resolved(held, type_id, value),
    ensures
        value is Ok <==> (held matches Some(kept) && kept.type_id == type_id),
        value matches Ok(given) ==> held == Some(DependencyValue { type_id, value: given }),
        value matches Err(error) ==> error is Internal,
{
}

/// Singletons and the values of a request are kept apart, each under its own index.
pub proof fn law_slots_are_kept_apart<V>(
    singletons: Seq<Option<DependencyValue<V>>>,
    requests: Seq<Option<DependencyValue<V>>>,
    index: usize,
    value: Option<DependencyValue<V>>,
    other: usize,
)
    requires
        index < requests.len(),
    ensures
        ({
            let after = requests.update(index as int, value);
            &&& slot_value(DependencySlot::Request(index), singletons, after) == value
            &&& other != index ==> slot_value(DependencySlot::Request(other), singletons, after)
                == slot_value(DependencySlot::Request(other), singletons, requests)
            &&& slot_value(DependencySlot::Singleton(other), singletons, after) == slot_value(
                DependencySlot::Singleton(other),
                singletons,
                requests,
            )
            &&& other < singletons.len() ==> slot_value(
                DependencySlot::Singleton(other),
                singletons,
                requests,
            ) == singletons[other as int]
        }),
{
}

/// A failing dependency ends its operation with that failure: a rejection as the
/// domain error it is, anything else as an internal error with its code and
/// message.
pub proof fn law_failed_dependencies_end_the_operation<S, H, F>(
    outcome: ExecutionOutcome<S, H, F>,
    error: DependencyError,
)
    requires
        is_dependency_outcome(outcome, error),
    ensures
        outcome is DomainError <==> error is Rejected,
        outcome matches ExecutionOutcome::DomainError(failure) ==> error
            == DependencyError::Rejected(failure) && dependency_message(error) == failure.message@,
        error matches DependencyError::Internal { code, message } ==> crate::outcome::is_internal(
            outcome,
            code@,
            dependency_message(error),
        ),
{
}

} // verus!
