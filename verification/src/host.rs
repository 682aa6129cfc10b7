//! Host-provided services, and the carriers that hand them to a plugin.
//!
//! A plugin borrows a service per call. What it is handed says whether the
//! service is there, was never installed, or is withheld: the fixes differ, and
//! so do the people who can make them.
use crate::extensions::container::Extensions;
use crate::plugin::Handle;
use vstd::prelude::*;

verus! {

/// Service name used in [`ServiceError`] messages.
pub const HTTP_SERVICE: &'static str = "http";

/// Capability that gates the HTTP service.
pub const HTTP_CAPABILITY: &'static str = "perform_http";

/// Why a host service was not available to a plugin.
#[derive(Debug, Clone, PartialEq, Eq)]
pub enum ServiceError {
    /// The host never installed this service.
    NotInstalled {
        /// Service name.
        service: &'static str,
    },
    /// The service exists but this plugin does not hold the capability that
    /// gates it.
    NotPermitted {
        /// Service name.
        service: &'static str,
        /// The capability that would grant it.
        capability: &'static str,
    },
}

/// What an operator or the author of a host reads of `e`.
pub open spec fn service_message(e: ServiceError) -> Seq<char> {
    match e {
        ServiceError::NotInstalled { service } => "needs the '"@ + service@
            + "' host service, but none is installed; the embedding host must install one before initializing the engine"@,
        ServiceError::NotPermitted { service, capability } => "needs the '"@ + service@
            + "' host service but does not declare '"@ + capability@
            + "'; add it to the plugin's `capabilities` in config"@,
    }
}

impl ServiceError {
    /// The error in words.
    pub fn message(&self) -> (r: String)
        ensures
            r@ == service_message(*self),
    {
        let mut m = "needs the '".to_owned();
        match self {
            ServiceError::NotInstalled { service } => {
                m.append(*service);
                m.append(
                    "' host service, but none is installed; the embedding host must install one before initializing the engine",
                );
            },
            ServiceError::NotPermitted { service, capability } => {
                m.append(*service);
                m.append("' host service but does not declare '");
                m.append(*capability);
                m.append("'; add it to the plugin's `capabilities` in config");
            },
        }
        m
    }
}

/// One host service as seen by a plugin: present, absent, or withheld.
#[derive(Debug, Clone, Copy, PartialEq, Eq, Structural)]
pub enum ServiceSlot<T> {
    /// Installed and permitted.
    Available(T),
    /// The host installed nothing.
    NotInstalled,
    /// Installed, but the plugin lacks the gating capability.
    NotPermitted,
}

impl<T> ServiceSlot<T> {
    /// Resolve to the service, or to the error that says why not.
    pub fn get(&self, service: &'static str, capability: &'static str) -> (r: Result<
        &T,
        ServiceError,
    >)
        ensures
            match *self {
                ServiceSlot::Available(v) => r == Ok::<&T, ServiceError>(&v),
                ServiceSlot::NotInstalled => r == Err::<&T, _>(
                    ServiceError::NotInstalled { service },
                ),
                ServiceSlot::NotPermitted => r == Err::<&T, _>(
                    ServiceError::NotPermitted { service, capability },
                ),
            },
    {
        match self {
            ServiceSlot::Available(v) => Ok(v),
            ServiceSlot::NotInstalled => Err(ServiceError::NotInstalled { service }),
            ServiceSlot::NotPermitted => Err(ServiceError::NotPermitted { service, capability }),
        }
    }

    /// Whether the service is available.
    pub fn is_available(&self) -> (r: bool)
        ensures
            r == (self is Available),
    {
        match self {
            ServiceSlot::Available(_) => true,
            _ => false,
        }
    }
}

impl<T> Default for ServiceSlot<T> {
    fn default() -> (r: Self)
        ensures
            r is NotInstalled,
    {
        ServiceSlot::NotInstalled
    }
}

/// The HTTP transport that a carrier with the slot `slot` hands out.
pub open spec fn http_of(slot: ServiceSlot<Handle>) -> Result<Handle, ServiceError> {
    match slot {
        ServiceSlot::Available(t) => Ok(t),
        ServiceSlot::NotInstalled => Err(ServiceError::NotInstalled { service: HTTP_SERVICE }),
        ServiceSlot::NotPermitted => Err(
            ServiceError::NotPermitted { service: HTTP_SERVICE, capability: HTTP_CAPABILITY },
        ),
    }
}

/// The host services a plugin may borrow. Implemented by the carriers.
pub trait HostServices {
    /// The slot that the carrier keeps for the HTTP transport.
    spec fn http_slot(&self) -> ServiceSlot<Handle>;

    /// The host's HTTP transport, or why the plugin cannot have it.
    fn http(&self) -> (r: Result<Handle, ServiceError>)
        ensures
            r == http_of(self.http_slot()),
    ;
}

/// Host services while a plugin is initialized, before any request.
#[derive(Debug, Clone, Copy, PartialEq, Eq, Structural)]
pub struct InitExtensions {
    http: ServiceSlot<Handle>,
}

impl InitExtensions {
    /// The slot that is kept for the HTTP transport.
    pub closed spec fn slot(&self) -> ServiceSlot<Handle> {
        self.http
    }

    /// An empty set of services, as a host that installed nothing would
    /// produce.
    pub fn new() -> (r: Self)
        ensures
            r.slot() is NotInstalled,
    {
        InitExtensions { http: ServiceSlot::NotInstalled }
    }

    /// Attach the HTTP transport, it having been decided that the plugin may
    /// have it.
    #[must_use]
    pub fn with_http(self, http: Handle) -> (r: Self)
        ensures
            r.slot() == ServiceSlot::Available(http),
    {
        InitExtensions { http: ServiceSlot::Available(http) }
    }

    /// Record that a transport exists but this plugin may not use it.
    #[must_use]
    pub fn with_http_withheld(self) -> (r: Self)
        ensures
            r.slot() is NotPermitted,
    {
        InitExtensions { http: ServiceSlot::NotPermitted }
    }
}

impl Default for InitExtensions {
    fn default() -> (r: Self)
        ensures
            r.slot() is NotInstalled,
    {
        InitExtensions::new()
    }
}

/// What `slot` hands out, as [`http_of`] says.
fn http_from(slot: &ServiceSlot<Handle>) -> (r: Result<Handle, ServiceError>)
    ensures
        r == http_of(*slot),
{
    match slot.get(HTTP_SERVICE, HTTP_CAPABILITY) {
        Ok(t) => Ok(*t),
        Err(e) => Err(e),
    }
}

impl HostServices for InitExtensions {
    open spec fn http_slot(&self) -> ServiceSlot<Handle> {
        self.slot()
    }

    fn http(&self) -> (r: Result<Handle, ServiceError>) {
        http_from(&self.http)
    }
}

impl HostServices for Extensions {
    open spec fn http_slot(&self) -> ServiceSlot<Handle> {
        self.http_transport
    }

    fn http(&self) -> (r: Result<Handle, ServiceError>) {
        http_from(&self.http_transport)
    }
}

/// A service that was never installed and one that is withheld are told apart:
/// the error differs, so the message can name the right fix.
pub proof fn law_withheld_and_uninstalled_are_told_apart(a: ServiceSlot<Handle>, b: ServiceSlot<Handle>)
    requires
        a is NotInstalled,
        b is NotPermitted,
    ensures
        http_of(a) is Err,
        http_of(b) is Err,
        http_of(a) != http_of(b),
{
}

/// A plugin that asks for the transport gets the one that is there; one that was never
/// installed or is withheld is an error that names the service, and the capability where
/// that is what is missing.
pub proof fn law_what_a_slot_hands_out(t: Handle)
    ensures
        http_of(ServiceSlot::Available(t)) == Ok::<Handle, ServiceError>(t),
        http_of(ServiceSlot::NotInstalled) matches Err(ServiceError::NotInstalled { service })
            && service@ == "http"@,
        http_of(ServiceSlot::NotPermitted) matches Err(
            ServiceError::NotPermitted { service, capability },
        ) && service@ == "http"@ && capability@ == "perform_http"@,
{
}

/// What is said of a service that is missing says who can mend it: the host, or who writes
/// the configuration.
pub proof fn law_what_is_said_of_a_missing_service(service: &'static str, capability: &'static str)
    ensures
        service_message(ServiceError::NotInstalled { service }) == "needs the '"@ + service@
            + "' host service, but none is installed; the embedding host must install one before initializing the engine"@,
        service_message(ServiceError::NotPermitted { service, capability }) == "needs the '"@
            + service@ + "' host service but does not declare '"@ + capability@
            + "'; add it to the plugin's `capabilities` in config"@,
{
}

} // verus!
