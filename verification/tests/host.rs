//! Host services and factories.
use ppe_core::error::PluginError;
use ppe_core::extensions::container::Extensions;
use ppe_core::factory::{PluginFactory, PluginFactoryRegistry, PluginInstance};
use ppe_core::host::{HostServices, InitExtensions, ServiceError, ServiceSlot, HTTP_CAPABILITY, HTTP_SERVICE};
use ppe_core::plugin::{Handle, PluginConfig};

#[test]
fn an_uninstalled_service_names_the_host_not_the_operator() {
    let ext = InitExtensions::new();
    let err = ext.http().expect_err("nothing was installed");
    assert!(matches!(err, ServiceError::NotInstalled { .. }));
    let msg = err.message();
    assert!(msg.contains("embedding host"), "{msg}");
    assert_eq!(
        msg,
        "needs the 'http' host service, but none is installed; the embedding host must install one before initializing the engine"
    );
}

#[test]
fn a_withheld_service_names_the_capability_to_add() {
    let ext = InitExtensions::new().with_http_withheld();
    let err = ext.http().expect_err("the capability was not granted");
    assert!(matches!(err, ServiceError::NotPermitted { .. }));
    let msg = err.message();
    assert!(msg.contains("perform_http"), "{msg}");
    assert!(msg.contains("capabilities"), "{msg}");
}

#[test]
fn withheld_and_uninstalled_are_distinguishable() {
    let uninstalled = InitExtensions::new();
    let withheld = InitExtensions::new().with_http_withheld();
    assert_ne!(
        uninstalled.http().unwrap_err(),
        withheld.http().unwrap_err()
    );
    let absent: ServiceSlot<Handle> = ServiceSlot::NotInstalled;
    let held: ServiceSlot<Handle> = ServiceSlot::NotPermitted;
    assert!(!absent.is_available());
    assert!(!held.is_available());
    assert_eq!(
        held.get(HTTP_SERVICE, HTTP_CAPABILITY),
        Err(ServiceError::NotPermitted { service: "http", capability: "perform_http" })
    );
}

#[test]
fn an_available_service_is_handed_out_by_either_carrier() {
    let transport = Handle { id: 7 };
    let ext = InitExtensions::new().with_http(transport);
    assert_eq!(ext.http(), Ok(transport));
    let request = Extensions { http_transport: ServiceSlot::Available(transport), ..Extensions::default() };
    assert_eq!(request.http(), Ok(transport));
    assert!(request.http_transport.is_available());
    assert!(Extensions::default().http().is_err());
    assert_eq!(InitExtensions::default(), InitExtensions::new());
}

#[derive(Debug)]
struct StubFactory(&'static str);

impl PluginFactory for StubFactory {
    fn create(&self, _config: &PluginConfig) -> Result<PluginInstance, PluginError> {
        Err(PluginError::Config {
            message: format!("stub {}", self.0),
        })
    }
}

#[test]
fn a_registered_kind_is_found_and_an_unregistered_one_is_not() {
    let mut reg = PluginFactoryRegistry::default();
    assert!(!reg.has("a/b"), "an empty registry knows nothing");
    assert!(reg.get("a/b").is_none());

    reg.register("a/b", StubFactory("first"));
    assert!(reg.has("a/b"));
    assert!(reg.get("a/b").is_some());
    assert!(
        !reg.has("c/d"),
        "registering one kind must not answer for another"
    );
}

#[test]
fn re_registering_a_kind_replaces_the_previous_factory() {
    let mut reg = PluginFactoryRegistry::default();
    assert!(!reg.register("a/b", StubFactory("first")));
    assert!(reg.register("a/b", StubFactory("second")));
    let factory = reg.get("a/b").expect("kind is registered");
    let Err(e) = factory.create(&PluginConfig::default()) else {
        panic!("the stub always errors")
    };
    assert!(
        e.message().contains("second"),
        "the later registration must win: {}",
        e.message()
    );
    assert_eq!(reg.kinds().len(), 1, "an override is not a second entry");
}

#[test]
fn kinds_lists_every_registered_name() {
    let mut reg = PluginFactoryRegistry::default();
    reg.register("a/b", StubFactory("x"));
    reg.register("c/d", StubFactory("y"));
    let mut kinds = reg.kinds();
    kinds.sort_unstable();
    assert_eq!(kinds, vec!["a/b", "c/d"]);
}

#[test]
fn get_returns_an_owned_handle_that_outlives_the_registry() {
    let factory = {
        let mut reg = PluginFactoryRegistry::default();
        reg.register("a/b", StubFactory("kept"));
        reg.get("a/b").expect("kind is registered")
    };
    let Err(e) = factory.create(&PluginConfig::default()) else {
        panic!("the stub always errors")
    };
    assert!(e.message().contains("kept"));
}
