//! Extension instances as the engine holds them.
//!
//! An extension has a local variant, a shared variant, or both. A variant provides
//! capabilities; an active one also has a lifecycle of its own.

use std::rc::Rc;
use std::sync::Arc;
use vstd::prelude::*;
use vstd::string::*;

use crate::capability::registry::CapabilityRegistry;
use crate::config::extension::ExtensionUserConfig;
use crate::handles;
use crate::providers;
use crate::providers::CapabilityRegistration;
use crate::text;

verus! {

/// An extension with a lifecycle.
#[derive(Debug)]
pub struct Active<E>(pub E);

/// An extension that only provides capabilities.
#[derive(Debug)]
pub struct Passive<E>(pub E);

/// A shared variant: the instance that provides capabilities, and the one that runs.
#[derive(Debug)]
pub struct SharedDecomposed<S> {
    pub any: S,
    pub extension: Option<S>,
    pub type_id: u64,
}

/// A local variant: the instance that provides capabilities and, if it is active, runs.
#[derive(Debug)]
pub struct LocalDecomposed<L> {
    pub any: Rc<L>,
    pub extension: Option<Rc<L>>,
    pub type_id: u64,
}

/// What gives a shared variant. The number tells its concrete type from others.
pub trait SharedProvider<S>: Sized {
    /// The parts that the provider gives.
    spec fn gives(self, type_id: u64, d: SharedDecomposed<S>) -> bool;

    fn decompose(self, type_id: u64) -> (d: SharedDecomposed<S>)
        ensures
            self.gives(type_id, d),
    ;
}

/// What gives a local variant. The number tells its concrete type from others.
pub trait LocalProvider<L>: Sized {
    /// The parts that the provider gives.
    spec fn gives(self, type_id: u64) -> LocalDecomposed<L>;

    fn decompose(self, type_id: u64) -> (d: LocalDecomposed<L>)
        ensures
            d == self.gives(type_id),
    ;
}

impl<S: Clone> SharedProvider<S> for Active<S> {
    /// The value runs, and a clone of it provides capabilities.
    open spec fn gives(self, type_id: u64, d: SharedDecomposed<S>) -> bool {
        &&& cloned(self.0, d.any)
        &&& d.extension == Some(self.0)
        &&& d.type_id == type_id
    }

    fn decompose(self, type_id: u64) -> (d: SharedDecomposed<S>) {
        let any: S = self.0.clone();
        SharedDecomposed { any, extension: Some(self.0), type_id }
    }
}

impl<S> SharedProvider<S> for Passive<S> {
    /// The value provides capabilities and nothing runs.
    open spec fn gives(self, type_id: u64, d: SharedDecomposed<S>) -> bool {
        d == (SharedDecomposed { any: self.0, extension: None, type_id })
    }

    fn decompose(self, type_id: u64) -> (d: SharedDecomposed<S>) {
        SharedDecomposed { any: self.0, extension: None, type_id }
    }
}

impl<L> LocalProvider<L> for Active<Rc<L>> {
    /// One value runs and provides capabilities.
    open spec fn gives(self, type_id: u64) -> LocalDecomposed<L> {
        LocalDecomposed { any: self.0, extension: Some(self.0), type_id }
    }

    fn decompose(self, type_id: u64) -> (d: LocalDecomposed<L>) {
        let any: Rc<L> = handles::share_rc(&self.0);
        LocalDecomposed { any, extension: Some(self.0), type_id }
    }
}

impl<L> LocalProvider<L> for Passive<Rc<L>> {
    /// The value provides capabilities and nothing runs.
    open spec fn gives(self, type_id: u64) -> LocalDecomposed<L> {
        LocalDecomposed { any: self.0, extension: None, type_id }
    }

    fn decompose(self, type_id: u64) -> (d: LocalDecomposed<L>) {
        LocalDecomposed { any: self.0, extension: None, type_id }
    }
}

/// What makes the registrations of an extension's variants.
pub trait DescribeCapabilities<L, S>: Sized {
    fn register_shared(&self, shared: &S) -> Vec<CapabilityRegistration<Arc<S>>>;

    fn register_local(&self, local: &Rc<L>) -> Vec<CapabilityRegistration<Rc<L>>>;
}

/// The control channels of an extension.
#[derive(Debug, Clone, Copy, PartialEq, Eq, Structural)]
pub enum ControlTarget {
    /// The channel of the only lifecycle, or of the local one where there are two.
    First,
    /// The channel of the shared lifecycle where there are two.
    Shared,
}

/// Which lifecycles are started.
#[derive(Debug, Clone, Copy, PartialEq, Eq, Structural)]
pub enum StartPlan {
    /// The shared one as a task of its own, the local one here.
    Both,
    Local,
    Shared,
}

/// Builds an extension from its variants.
#[derive(Debug)]
pub struct ExtensionWrapperBuilder<L, S> {
    pub node_id: String,
    pub user_config: Arc<ExtensionUserConfig>,
    /// How many control messages a channel holds.
    pub control_capacity: usize,
    pub shared: Option<SharedDecomposed<S>>,
    pub local: Option<LocalDecomposed<L>>,
}

impl<L, S> ExtensionWrapperBuilder<L, S> {
    /// Adds a local variant.
    pub fn with_local<P: LocalProvider<L>>(self, provider: P, type_id: u64) -> (r: Self)
        ensures
            r == (ExtensionWrapperBuilder { local: Some(provider.gives(type_id)), ..self }),
    {
        let local: LocalDecomposed<L> = provider.decompose(type_id);
        ExtensionWrapperBuilder {
            node_id: self.node_id,
            user_config: self.user_config,
            control_capacity: self.control_capacity,
            shared: self.shared,
            local: Some(local),
        }
    }

    /// Adds a shared variant.
    pub fn with_shared<P: SharedProvider<S>>(self, provider: P, type_id: u64) -> (r: Self)
        ensures
            r.shared matches Some(d) && provider.gives(type_id, d),
            r == (ExtensionWrapperBuilder { shared: r.shared, ..self }),
    {
        let shared: SharedDecomposed<S> = provider.decompose(type_id);
        ExtensionWrapperBuilder {
            node_id: self.node_id,
            user_config: self.user_config,
            control_capacity: self.control_capacity,
            shared: Some(shared),
            local: self.local,
        }
    }

    /// There is a variant, and where there are two they are of different types.
    pub open spec fn buildable(&self) -> bool {
        &&& self.shared is Some || self.local is Some
        &&& self.shared is Some && self.local is Some ==> self.shared->0.type_id
            != self.local->0.type_id
    }

    /// Builds the extension. There is a control channel for each lifecycle.
    pub fn build<C>(self) -> (r: ExtensionWrapper<L, S, C>)
        requires
            self.buildable(),
        ensures
            r.node_id == self.node_id,
            r.user_config == self.user_config,
            r.control_capacity == self.control_capacity,
            r.capabilities is None,
            match self.shared {
                Some(d) => r.shared_any == Some(d.any) && r.shared_extension == d.extension,
                None => r.shared_any is None && r.shared_extension is None,
            },
            match self.local {
                Some(d) => r.local_any == Some(d.any) && r.local_extension == d.extension,
                None => r.local_any is None && r.local_extension is None,
            },
            r.has_control == (r.local_extension is Some || r.shared_extension is Some),
            r.has_shared_control == (r.local_extension is Some && r.shared_extension is Some),
            r.wf(),
    {
        let (shared_any, shared_extension): (Option<S>, Option<S>) = match self.shared {
            Some(d) => (Some(d.any), d.extension),
            None => (None, None),
        };
        let (local_any, local_extension): (Option<Rc<L>>, Option<Rc<L>>) = match self.local {
            Some(d) => (Some(d.any), d.extension),
            None => (None, None),
        };
        let has_local: bool = local_extension.is_some();
        let has_shared: bool = shared_extension.is_some();
        ExtensionWrapper {
            node_id: self.node_id,
            user_config: self.user_config,
            control_capacity: self.control_capacity,
            shared_extension,
            local_extension,
            shared_any,
            local_any,
            capabilities: None,
            has_control: has_local || has_shared,
            has_shared_control: has_local && has_shared,
        }
    }
}

/// An extension instance.
#[derive(Debug)]
pub struct ExtensionWrapper<L, S, C> {
    pub node_id: String,
    pub user_config: Arc<ExtensionUserConfig>,
    pub control_capacity: usize,
    /// The shared lifecycle.
    pub shared_extension: Option<S>,
    /// The local lifecycle.
    pub local_extension: Option<Rc<L>>,
    /// The shared instance that provides capabilities.
    pub shared_any: Option<S>,
    /// The local instance that provides capabilities.
    pub local_any: Option<Rc<L>>,
    /// What makes the registrations, once it is set.
    pub capabilities: Option<C>,
    /// Whether there is a control channel.
    pub has_control: bool,
    /// Whether the shared lifecycle has a control channel of its own.
    pub has_shared_control: bool,
}

impl<L, S, C> ExtensionWrapper<L, S, C> {
    /// There is an instance for each lifecycle and a control channel for each lifecycle.
    pub open spec fn wf(&self) -> bool {
        &&& self.shared_extension is Some ==> self.shared_any is Some
        &&& self.local_extension is Some ==> self.local_any is Some
        &&& self.shared_extension is Some || self.local_extension is Some ==> self.has_control
        &&& self.shared_extension is Some && self.local_extension is Some
            ==> self.has_shared_control
        &&& self.has_shared_control ==> self.has_control
    }

    /// Starts to build an extension.
    pub fn builder(
        node_id: String,
        user_config: Arc<ExtensionUserConfig>,
        control_capacity: usize,
    ) -> (r: ExtensionWrapperBuilder<L, S>)
        ensures
            r == (ExtensionWrapperBuilder::<L, S> {
                node_id,
                user_config,
                control_capacity,
                shared: None,
                local: None,
            }),
    {
        ExtensionWrapperBuilder { node_id, user_config, control_capacity, shared: None, local: None }
    }

    /// Sets what makes the registrations.
    pub fn set_capabilities(&mut self, capabilities: C)
        ensures
            *final(self) == (ExtensionWrapper { capabilities: Some(capabilities), ..*old(self) }),
    {
        self.capabilities = Some(capabilities);
    }

    /// The identifier of the extension.
    pub fn node_id(&self) -> (r: String)
        ensures
            r == self.node_id,
    {
        self.node_id.clone()
    }

    /// The user configuration.
    pub fn user_config(&self) -> (r: Arc<ExtensionUserConfig>)
        ensures
            r == self.user_config,
    {
        handles::share_arc(&self.user_config)
    }

    /// Whether there is a local lifecycle.
    pub fn is_local(&self) -> (r: bool)
        ensures
            r == (self.local_extension is Some),
    {
        self.local_extension.is_some()
    }

    /// Whether there is a shared lifecycle.
    pub fn is_shared(&self) -> (r: bool)
        ensures
            r == (self.shared_extension is Some),
    {
        self.shared_extension.is_some()
    }

    /// Whether there is no lifecycle at all.
    pub fn is_passive(&self) -> (r: bool)
        ensures
            r == (self.local_extension is None && self.shared_extension is None),
    {
        self.local_extension.is_none() && self.shared_extension.is_none()
    }

    /// Drops the local variant if there is one, with or without a lifecycle.
    pub fn drop_local(&mut self)
        ensures
            old(self).wf() ==> final(self).wf(),
            *final(self) == (ExtensionWrapper {
                local_extension: None,
                local_any: None,
                ..*old(self)
            }),
    {
        self.local_extension = None;
        self.local_any = None;
    }

    /// Drops the shared variant if there is one, with or without a lifecycle.
    pub fn drop_shared(&mut self)
        ensures
            old(self).wf() ==> final(self).wf(),
            *final(self) == (ExtensionWrapper {
                shared_extension: None,
                shared_any: None,
                ..*old(self)
            }),
    {
        self.shared_extension = None;
        self.shared_any = None;
    }

    /// The control channels: none for a passive extension, one for one lifecycle, two for two.
    pub fn extension_control_senders(&self) -> (r: Vec<ControlTarget>)
        ensures
            r@ == (if self.has_control {
                seq![ControlTarget::First]
            } else {
                Seq::empty()
            }) + (if self.has_shared_control {
                seq![ControlTarget::Shared]
            } else {
                Seq::empty()
            }),
    {
        let mut r: Vec<ControlTarget> = Vec::new();
        if self.has_control {
            r.push(ControlTarget::First);
        }
        if self.has_shared_control {
            r.push(ControlTarget::Shared);
        }
        assert(r@ =~= (if self.has_control {
            seq![ControlTarget::First]
        } else {
            Seq::empty()
        }) + (if self.has_shared_control {
            seq![ControlTarget::Shared]
        } else {
            Seq::empty()
        }));
        r
    }

    /// Which lifecycles to start.
    pub fn start(&self) -> (r: StartPlan)
        requires
            self.wf(),
            self.local_extension is Some || self.shared_extension is Some,
        ensures
            r is Both == (self.local_extension is Some && self.shared_extension is Some),
            r is Local == (self.local_extension is Some && self.shared_extension is None),
            r is Shared == (self.local_extension is None && self.shared_extension is Some),
            self.has_control,
            r is Both ==> self.has_shared_control,
    {
        if self.local_extension.is_some() {
            if self.shared_extension.is_some() {
                StartPlan::Both
            } else {
                StartPlan::Local
            }
        } else {
            StartPlan::Shared
        }
    }

    /// Makes the registrations of the variants and enters them in the registry.
    pub fn register_traits(&self, registry: &mut CapabilityRegistry<L, S>, name: &str) where
        C: DescribeCapabilities<L, S>,

        requires
            old(registry).wf(),
            self.capabilities matches Some(c) ==> {
                &&& self.shared_any matches Some(s) ==> call_requires(
                    C::register_shared,
                    (&c, &s),
                )
                &&& self.local_any matches Some(l) ==> call_requires(C::register_local, (&c, &l))
            },
        ensures
            final(registry).wf(),
            match (self.capabilities, self.shared_any) {
                (Some(c), Some(s)) => exists|v: Vec<CapabilityRegistration<Arc<S>>>|
                    {
                        &&& #[trigger] call_ensures(C::register_shared, (&c, &s), v)
                        &&& final(registry).inner().shared_entries() == providers::with_all(
                            old(registry).inner().shared_entries(),
                            name@,
                            v@,
                        )
                    },
                _ => final(registry).inner().shared_entries()
                    == old(registry).inner().shared_entries(),
            },
            match (self.capabilities, self.local_any) {
                (Some(c), Some(l)) => exists|v: Vec<CapabilityRegistration<Rc<L>>>|
                    {
                        &&& #[trigger] call_ensures(C::register_local, (&c, &l), v)
                        &&& final(registry).inner().local_entries() == providers::with_all(
                            old(registry).inner().local_entries(),
                            name@,
                            v@,
                        )
                    },
                _ => final(registry).inner().local_entries()
                    == old(registry).inner().local_entries(),
            },
    {
        match &self.capabilities {
            Some(c) => {
                match &self.shared_any {
                    Some(s) => {
                        let v: Vec<CapabilityRegistration<Arc<S>>> = c.register_shared(s);
                        registry.register_all_shared(name, v);
                    },
                    None => {},
                }
                match &self.local_any {
                    Some(l) => {
                        let v: Vec<CapabilityRegistration<Rc<L>>> = c.register_local(l);
                        registry.register_all_local(name, v);
                    },
                    None => {},
                }
            },
            None => {},
        }
    }
}

/// Why an extension with two lifecycles failed.
#[derive(Debug)]
pub enum LifecycleError<E> {
    /// A lifecycle ended with that error.
    Failed(E),
    InternalError { message: String },
}

/// What two lifecycles ended with: both results, or the first error. The local one counts
/// before the shared one, and a shared task that panicked before both.
pub fn join_lifecycles<T, E>(
    local: Result<T, E>,
    shared: Result<Result<T, E>, String>,
) -> (r: Result<(T, T), LifecycleError<E>>)
    ensures
        match (local, shared) {
            (_, Err(panic)) => r matches Err(LifecycleError::InternalError { message })
                && message@ == "shared extension task panicked: "@ + panic@,
            (Err(e), Ok(_)) => r == Err::<(T, T), LifecycleError<E>>(LifecycleError::Failed(e)),
            (Ok(_), Ok(Err(e))) => r == Err::<(T, T), LifecycleError<E>>(
                LifecycleError::Failed(e),
            ),
            (Ok(a), Ok(Ok(b))) => r == Ok::<(T, T), LifecycleError<E>>((a, b)),
        },
{
    let shared_result: Result<T, E> = match shared {
        Ok(result) => result,
        Err(panic) => {
            return Err(
                LifecycleError::InternalError {
                    message: text::joined2("shared extension task panicked: ", panic.as_str()),
                },
            );
        },
    };
    match (local, shared_result) {
        (Err(e), _) => Err(LifecycleError::Failed(e)),
        (Ok(_), Err(e)) => Err(LifecycleError::Failed(e)),
        (Ok(a), Ok(b)) => Ok((a, b)),
    }
}

/// An active extension runs the value itself and provides capabilities with a clone of it; a
/// passive one provides capabilities with the value, and nothing of it runs.
pub proof fn only_active_shared_extensions_run<S: Clone>(
    value: S,
    type_id: u64,
    active: SharedDecomposed<S>,
    passive: SharedDecomposed<S>,
)
    requires
        SharedProvider::<S>::gives(Active(value), type_id, active),
        SharedProvider::<S>::gives(Passive(value), type_id, passive),
    ensures
        active.extension == Some(value),
        cloned(value, active.any),
        passive.extension is None,
        passive.any == value,
        active.type_id == type_id && passive.type_id == type_id,
{
}

/// An active local extension runs the instance that provides its capabilities; of a passive one
/// nothing runs.
pub proof fn only_active_local_extensions_run<L>(value: Rc<L>, type_id: u64)
    ensures
        LocalProvider::<L>::gives(Active(value), type_id).extension == Some(value),
        LocalProvider::<L>::gives(Active(value), type_id).any == value,
        LocalProvider::<L>::gives(Active(value), type_id).type_id == type_id,
        LocalProvider::<L>::gives(Passive(value), type_id).extension is None,
        LocalProvider::<L>::gives(Passive(value), type_id).any == value,
        LocalProvider::<L>::gives(Passive(value), type_id).type_id == type_id,
{
}

/// An extension can be built from one variant, and from two of different types; without any, or
/// with two of one type, it cannot.
pub proof fn variants_have_to_differ<L, S>(builder: ExtensionWrapperBuilder<L, S>)
    ensures
        builder.shared is None && builder.local is None ==> !builder.buildable(),
        builder.shared is Some != builder.local is Some ==> builder.buildable(),
        builder.shared is Some && builder.local is Some ==> (builder.buildable()
            <==> builder.shared->0.type_id != builder.local->0.type_id),
{
}

} // verus!
