//! The engine: plugins, routes, reloads.
use ppe_core::config::{
    deserialize_error, parse_error, warn_on_inactive_settings, ExecutorConfig, PluginSettings,
    PolicyConfig, ResolvedPlugin,
};
use ppe_core::documents::{json_of, parse_document, yaml_of, yaml_to_json};
use ppe_core::engine::{
    choose_entries, entry_named, instantiate_plugins_into, keep_passing, owed_override,
    Dispatch, InitRun, PolicyEngine,
    PolicyEngineConfig, RouteStep, DEFAULT_ROUTE_CACHE_MAX_ENTRIES,
};
use ppe_core::error::PluginError;
use ppe_core::extensions::container::{Extensions, MetaExtension};
use ppe_core::factory::{PluginFactory, PluginFactoryRegistry, PluginInstance};
use ppe_core::hooks::trait_def::{HookTypeDef, PluginResult};
use ppe_core::host::{HostServices, ServiceError, ServiceSlot};
use ppe_core::identity::hook::HOOK_IDENTITY_RESOLVE;
use ppe_core::overrides::{
    finish_override, finish_override_entries, prepare_override_entries, OverrideStep,
};
use ppe_core::plugin::{Handle, OnError, PluginConfig, PluginMode};
use ppe_core::registry::{id_behind, HookEntry};
use ppe_core::route_table::RouteCacheKey;
use ppe_core::value::{Json, Number, TextMap, TextSet};
use ppe_core::visitor::{check_route_keys, walk_visitors, ConfigVisitor, VisitRun, VisitStep};
use ppe_core::yaml::Yaml;
use std::cell::RefCell;
use std::sync::Arc;

struct TestHook;

impl HookTypeDef for TestHook {
    type Payload = String;
    type Result = PluginResult<String>;
    const NAME: &'static str = "test_hook";
}

/// Makes plugins numbered from the priority of their configuration, with a
/// handler for each hook they declare.
struct Maker {
    refuses: bool,
    seen: RefCell<Vec<Option<Json>>>,
}

impl PluginFactory for Maker {
    fn create(&self, config: &PluginConfig) -> Result<PluginInstance, PluginError> {
        self.seen.borrow_mut().push(config.config.clone());
        if self.refuses {
            return Err(PluginError::Config { message: "refused".into() });
        }
        let id = config.priority as u64;
        let handlers = config
            .hooks
            .iter()
            .map(|h| (h.clone(), Handle { id: 1000 + id }))
            .collect();
        Ok(PluginInstance { plugin: Handle { id }, handlers })
    }
}

fn maker() -> Maker {
    Maker { refuses: false, seen: RefCell::new(Vec::new()) }
}

struct Silent;

impl ConfigVisitor for Silent {
    type Engine = ();
    type Route = String;
    fn name(&self) -> &str {
        "silent"
    }
}

type Engine = PolicyEngine<Maker, Silent>;

fn config(name: &str, priority: i32) -> PluginConfig {
    PluginConfig {
        name: name.to_owned(),
        kind: "test/allow".to_owned(),
        hooks: vec!["test_hook".to_owned()],
        mode: PluginMode::Sequential,
        priority,
        ..PluginConfig::default()
    }
}

fn settings() -> PluginSettings {
    PluginSettings {
        plugin_timeout: 60,
        short_circuit_on_deny: false,
        route_cache_max_entries: 2,
        routing_enabled: true,
        parallel_execution_within_band: false,
        fail_on_plugin_error: false,
    }
}

fn policy(plugins: Vec<PluginConfig>) -> PolicyConfig {
    PolicyConfig { plugin_dirs: Vec::new(), plugin_settings: settings(), plugins }
}

fn about(entity: &str, scope: Option<&str>) -> Extensions {
    Extensions {
        meta: Some(Arc::new(MetaExtension {
            entity_type: Some("tool".into()),
            entity_name: Some(entity.into()),
            scope: scope.map(str::to_owned),
            ..Default::default()
        })),
        ..Extensions::default()
    }
}

fn resolved(name: &str) -> ResolvedPlugin {
    ResolvedPlugin { name: name.into(), config_overrides: None }
}

/// Finds the entries for a request, resolving a route to `plugins` where it has
/// to be. Also says whether the cache was said to be full.
fn route(engine: &mut Engine, ext: &Extensions, plugins: &[&str]) -> (Vec<String>, bool, bool) {
    let all = engine.invoke_by_name("test_hook").expect("something can run");
    match engine.filter_entries_by_route(&all, ext, "test_hook") {
        RouteStep::Done(list) => (names(&list), true, false),
        RouteStep::CheckConditions => panic!("routing is on"),
        RouteStep::Resolve { key, identity } => {
            assert!(!identity);
            let r: Vec<ResolvedPlugin> = plugins.iter().map(|n| resolved(n)).collect();
            let made = plugins.iter().map(|_| None).collect();
            let before = engine.routing_cache_size();
            let outcome = engine.finish_route(key, &all, &r, &made);
            assert_eq!(engine.routing_cache_size() > before, outcome.kept);
            (names(&outcome.entries), false, outcome.warn)
        }
    }
}

fn names(list: &[HookEntry]) -> Vec<String> {
    list.iter().map(|e| e.plugin_ref.name().to_owned()).collect()
}

fn loaded(plugins: Vec<PluginConfig>) -> Engine {
    let mut factories = PluginFactoryRegistry::new();
    factories.register("test/allow", maker());
    match PolicyEngine::from_config(policy(plugins), &factories) {
        Ok(engine) => engine,
        Err(e) => panic!("must load: {}", e.message()),
    }
}

#[test]
fn the_route_cache_key_distinguishes_every_field() {
    let base = RouteCacheKey {
        entity_type: "tool".into(),
        entity_name: "get_x".into(),
        hook_name: "cmf.tool_pre_invoke".into(),
        scope: None,
    };
    assert_eq!(base, base.clone(), "a key equals itself");

    let variants = [
        RouteCacheKey {
            entity_type: "prompt".into(),
            ..base.clone()
        },
        RouteCacheKey {
            entity_name: "other".into(),
            ..base.clone()
        },
        RouteCacheKey {
            hook_name: "cmf.tool_post_invoke".into(),
            ..base.clone()
        },
        RouteCacheKey {
            scope: Some("read".into()),
            ..base.clone()
        },
    ];
    for v in variants {
        assert_ne!(
            base, v,
            "a key differing in one field must not compare equal, or two \
             routes would share a cache entry"
        );
    }
}

#[test]
fn test_manager_lifecycle() {
    let mut mgr = Engine::default();
    assert!(!mgr.is_initialized());
    assert_eq!(mgr.plugin_count(), 0);

    let run = mgr.begin_initialize().expect("not initialized yet");
    assert!(run.current().is_none());
    assert!(mgr.finish_initialize(&run));
    assert!(mgr.is_initialized());

    assert!(mgr.begin_initialize().is_none());

    assert_eq!(mgr.begin_shutdown(), Some(Vec::new()));
    mgr.finish_shutdown();
    assert!(!mgr.is_initialized());
    assert_eq!(mgr.begin_shutdown(), None);
}

#[test]
fn a_new_engine_has_the_defaults() {
    let d = PolicyEngineConfig::default();
    assert_eq!(d.route_cache_max_entries, DEFAULT_ROUTE_CACHE_MAX_ENTRIES);
    assert_eq!(DEFAULT_ROUTE_CACHE_MAX_ENTRIES, 10_000);
    assert_eq!(d.executor, ExecutorConfig::default());
    let mgr = Engine::new(d);
    assert_eq!(mgr.config_generation(), 0);
    assert_eq!(mgr.routing_cache_size(), 0);
}

#[test]
fn nothing_runs_where_nothing_is_registered() {
    let mgr = Engine::default();
    assert!(mgr.invoke_by_name("test_hook").is_none());
    assert!(mgr.invoke::<TestHook>().is_none());
    assert!(mgr.invoke_named::<TestHook>("other").is_none());
    let none: Arc<Vec<HookEntry>> = Arc::new(Vec::new());
    assert!(matches!(
        mgr.invoke_entries(none, Extensions::default()),
        Dispatch::PassThrough(_)
    ));
}

#[test]
fn test_has_hooks_for() {
    let mut mgr = Engine::default();
    assert!(!mgr.has_hooks_for("test_hook"));
    mgr.register_handler::<TestHook>(Handle { id: 1 }, config("p1", 10), Handle { id: 2 })
        .unwrap();
    assert!(mgr.has_hooks_for("test_hook"));
    assert!(!mgr.has_hooks_for("other_hook"));
    assert_eq!(mgr.invoke::<TestHook>().unwrap().len(), 1);
}

#[test]
fn test_unregister() {
    let mut mgr = Engine::default();
    mgr.register_handler::<TestHook>(Handle { id: 1 }, config("removable", 10), Handle { id: 2 })
        .unwrap();
    assert_eq!(mgr.plugin_count(), 1);
    let before = mgr.config_generation();
    assert_eq!(mgr.unregister("removable").unwrap().plugin(), Handle { id: 1 });
    assert_eq!(mgr.plugin_count(), 0);
    assert!(!mgr.has_hooks_for("test_hook"));
    assert_eq!(mgr.config_generation(), before + 1);
    assert!(mgr.unregister("removable").is_none());
    assert_eq!(mgr.config_generation(), before + 2);
}

#[test]
fn a_name_is_registered_once() {
    let mut mgr = Engine::default();
    mgr.register_handler::<TestHook>(Handle { id: 1 }, config("p", 10), Handle { id: 2 })
        .unwrap();
    let generation = mgr.config_generation();
    let err = mgr
        .register_raw::<TestHook>(Handle { id: 3 }, config("p", 20), Handle { id: 4 })
        .unwrap_err();
    assert_eq!(err.message(), "plugin 'p' is already registered");
    assert_eq!(mgr.config_generation(), generation);
    assert_eq!(mgr.get_plugin("p").unwrap().plugin(), Handle { id: 1 });
    assert!(mgr.get_plugin("q").is_none());
}

#[test]
fn handlers_run_in_the_order_of_their_priorities() {
    let mut mgr = Engine::default();
    for (id, name, priority) in [(1, "late", 20), (2, "early", 5), (3, "beside", 20)] {
        mgr.register_handler_for_names(
            Handle { id },
            config(name, priority),
            Handle { id: 100 + id },
            &vec!["a".to_owned(), "b".to_owned()],
        )
        .unwrap();
    }
    assert_eq!(names(&mgr.invoke_by_name("a").unwrap()), ["early", "late", "beside"]);
    assert_eq!(mgr.plugin_names(), ["late", "early", "beside"]);
    let entries = mgr.find_plugin_entries("late");
    let hooks: Vec<&str> = entries.iter().map(|(h, _)| h.as_str()).collect();
    assert_eq!(hooks, ["a", "b"]);
    assert_eq!(entries[0].1.handler, Handle { id: 101 });
    assert!(mgr.find_plugin_entries("nobody").is_empty());
}

fn started(names: &[&str]) -> (Engine, InitRun) {
    let mut mgr = Engine::default();
    for (i, name) in names.iter().enumerate() {
        let id = i as u64 + 1;
        mgr.register_handler::<TestHook>(Handle { id }, config(name, 10), Handle { id: 100 + id })
            .unwrap();
    }
    let run = mgr.begin_initialize().unwrap();
    (mgr, run)
}

#[test]
fn test_initialize_rollback_on_failure() {
    let mut mgr = Engine::default();
    for (id, name, priority) in [(1, "a", 10), (2, "b", 20), (3, "c", 30)] {
        mgr.register_handler::<TestHook>(Handle { id }, config(name, priority), Handle { id: 100 })
            .unwrap();
    }
    let mut inits = [0, 0, 0];
    let mut shutdowns = [0, 0, 0];
    let mut run = mgr.begin_initialize().unwrap();
    let mut result = Ok(());
    while let Some((name, plugin)) = run.current().map(|i| (i.name.clone(), i.plugin)) {
        inits[plugin.id as usize - 1] += 1;
        let outcome = if name == "b" { Err("intentional init failure".to_owned()) } else { Ok(()) };
        if let Some(failure) = run.record(outcome) {
            for started in failure.rollback {
                shutdowns[started.id as usize - 1] += 1;
            }
            result = Err(failure.error);
            break;
        }
    }
    assert_eq!(
        result,
        Err(PluginError::Execution {
            plugin_name: "b".into(),
            message: "initialization failed: intentional init failure".into(),
        }),
        "initialize() must propagate the init failure"
    );
    for (i, tag) in [(0, "A"), (2, "C")] {
        assert!(
            (inits[i] == 0 && shutdowns[i] == 0) || (inits[i] == 1 && shutdowns[i] == 1),
            "{tag}: init/shutdown should be paired (both 0 or both 1)"
        );
    }
    assert_eq!(inits[1], 1, "B's initialize was called");
    assert_eq!(shutdowns[1], 0, "B failed to initialize; shutdown should not run for it");
    assert!(!mgr.finish_initialize(&run));
    assert!(!mgr.is_initialized());
}

#[test]
fn a_failed_initialization_is_rolled_back_the_last_first() {
    let (mut mgr, mut run) = started(&["a", "b", "c", "d"]);
    assert_eq!(run.current().unwrap().name, "a");
    assert!(run.record(Ok(())).is_none());
    assert_eq!(run.current().unwrap().plugin, Handle { id: 2 });
    assert!(run.record(Ok(())).is_none());
    let failure = run.record(Err("intentional init failure".into())).unwrap();
    assert_eq!(failure.rollback, vec![Handle { id: 2 }, Handle { id: 1 }]);
    assert_eq!(
        failure.error,
        PluginError::Execution {
            plugin_name: "c".into(),
            message: "initialization failed: intentional init failure".into(),
        }
    );
    assert!(!mgr.finish_initialize(&run));
    assert!(!mgr.is_initialized());
}

#[test]
fn plugins_are_initialized_in_order_and_shut_down_in_reverse() {
    let (mut mgr, mut run) = started(&["a", "b"]);
    let mut order = Vec::new();
    while let Some(item) = run.current() {
        order.push(item.name.clone());
        assert!(run.record(Ok(())).is_none());
    }
    assert_eq!(order, ["a", "b"]);
    assert!(run.record(Err("too late".into())).is_none());
    assert!(mgr.finish_initialize(&run));
    assert_eq!(mgr.begin_shutdown(), Some(vec![Handle { id: 2 }, Handle { id: 1 }]));
}

fn probe_init(caps: &[&str], install_transport: bool) -> Result<Handle, ServiceError> {
    let mut mgr = Engine::default();
    if install_transport {
        assert!(mgr.set_http_transport(Handle { id: 99 }));
    }
    let mut cfg = config("probe", 10);
    for c in caps {
        cfg.capabilities.insert((*c).to_owned());
    }
    mgr.register_handler::<TestHook>(Handle { id: 1 }, cfg, Handle { id: 2 })
        .unwrap();
    let run = mgr.begin_initialize().unwrap();
    run.current().unwrap().services.http()
}

#[test]
fn a_plugin_with_perform_http_receives_the_transport_at_init() {
    assert_eq!(probe_init(&["perform_http"], true), Ok(Handle { id: 99 }));
}

#[test]
fn a_plugin_without_perform_http_is_told_it_lacks_the_capability() {
    assert!(matches!(
        probe_init(&["read_headers"], true),
        Err(ServiceError::NotPermitted { .. })
    ));
}

#[test]
fn with_no_transport_installed_even_a_capable_plugin_is_told_so() {
    assert!(matches!(
        probe_init(&["perform_http"], false),
        Err(ServiceError::NotInstalled { .. })
    ));
}

#[test]
fn installing_a_transport_twice_keeps_the_first() {
    let mut mgr = Engine::default();
    assert!(mgr.set_http_transport(Handle { id: 1 }));
    assert!(
        !mgr.set_http_transport(Handle { id: 2 }),
        "the second install must be refused, not silently applied"
    );
    let ext = mgr.with_host_services(Extensions::default());
    assert_eq!(ext.http(), Ok(Handle { id: 1 }));
    let bare = Engine::default().with_host_services(Extensions::default());
    assert_eq!(bare.http_transport, ServiceSlot::NotInstalled);
}

#[test]
fn test_from_config_creates_manager() {
    let mgr = loaded(vec![config("allow_plugin", 10)]);
    assert_eq!(mgr.plugin_count(), 1);
    assert!(mgr.has_hooks_for("test_hook"));
    assert_eq!(mgr.config_generation(), 0);
    let entries = Arc::new(mgr.invoke_by_name("test_hook").unwrap());
    match mgr.invoke_entries(entries, Extensions::default()) {
        Dispatch::Run { entries, executor, .. } => {
            assert_eq!(entries.len(), 1);
            assert_eq!(entries[0].handler, Handle { id: 1010 });
            assert_eq!(
                executor,
                ExecutorConfig { timeout_seconds: 60, short_circuit_on_deny: false }
            );
        }
        Dispatch::PassThrough(_) => panic!("there is an entry to run"),
    }
}

#[test]
fn test_from_config_unknown_kind_rejected() {
    let mut mystery = config("mystery", 10);
    mystery.kind = "unknown/type".into();
    let factories: PluginFactoryRegistry<Maker> = PluginFactoryRegistry::new();
    let result: Result<Engine, PluginError> =
        PolicyEngine::from_config(policy(vec![mystery]), &factories);
    match result {
        Err(e) => assert_eq!(
            e.message(),
            "no factory registered for plugin kind 'unknown/type' (plugin 'mystery')"
        ),
        Ok(_) => panic!("expected error for unknown kind"),
    }
}

#[test]
fn test_from_config_multiple_plugins() {
    let mgr = loaded(vec![config("allow", 10), config("deny", 5)]);
    assert_eq!(mgr.plugin_count(), 2);
    assert_eq!(names(&mgr.invoke_by_name("test_hook").unwrap()), ["deny", "allow"]);
}

#[test]
fn test_register_factory_then_load_config() {
    let mut mgr = Engine::default();
    assert!(!mgr.register_factory("test/allow", maker()));
    mgr.load_config(policy(vec![config("a", 1)])).unwrap();
    assert_eq!(mgr.config_generation(), 1);
    assert_eq!(mgr.plugin_names(), ["a"]);
    assert!(mgr.register_factory("test/allow", maker()));
}

#[test]
fn a_failed_load_changes_nothing() {
    let mut mgr = Engine::default();
    mgr.register_factory("test/allow", maker());
    mgr.load_config(policy(vec![config("a", 1)])).unwrap();
    let err = mgr
        .load_config(policy(vec![config("b", 2), config("a", 3)]))
        .unwrap_err();
    assert_eq!(err.message(), "plugin 'a' is already registered");
    assert_eq!(mgr.plugin_names(), ["a"]);
    assert_eq!(mgr.config_generation(), 1);

    mgr.register_factory("test/allow", Maker { refuses: true, seen: RefCell::new(Vec::new()) });
    let err = mgr.load_config(policy(vec![config("c", 1)])).unwrap_err();
    assert_eq!(err.message(), "refused");
    assert_eq!(mgr.plugin_names(), ["a"]);
}

#[test]
fn test_routing_cache_populated_on_first_invoke() {
    let mut mgr = loaded(vec![config("allow_plugin", 10)]);
    assert_eq!(mgr.routing_cache_size(), 0);
    let ext = about("get_compensation", None);
    let first = route(&mut mgr, &ext, &["allow_plugin"]);
    assert_eq!(first, (vec!["allow_plugin".to_owned()], false, false));
    assert_eq!(mgr.routing_cache_size(), 1);
    let second = route(&mut mgr, &ext, &["nobody"]);
    assert_eq!(second, (vec!["allow_plugin".to_owned()], true, false));
    assert_eq!(mgr.routing_cache_size(), 1);
}

#[test]
fn test_routing_cache_different_entities_separate() {
    let mut mgr = loaded(vec![config("allow_plugin", 10)]);
    route(&mut mgr, &about("get_compensation", None), &["allow_plugin"]);
    route(&mut mgr, &about("send_email", None), &["allow_plugin"]);
    assert_eq!(mgr.routing_cache_size(), 2);
}

#[test]
fn test_routing_cache_cleared() {
    let mut mgr = loaded(vec![config("allow_plugin", 10)]);
    route(&mut mgr, &about("get_compensation", None), &["allow_plugin"]);
    assert_eq!(mgr.routing_cache_size(), 1);
    mgr.clear_routing_cache();
    assert_eq!(mgr.routing_cache_size(), 0);
}

#[test]
fn test_unregister_invalidates_routing_cache() {
    let mut mgr = loaded(vec![config("allow_plugin", 10)]);
    route(&mut mgr, &about("get_compensation", None), &["allow_plugin"]);
    assert_eq!(mgr.routing_cache_size(), 1);
    mgr.unregister("nobody");
    assert_eq!(mgr.routing_cache_size(), 1);
    mgr.unregister("allow_plugin");
    assert_eq!(mgr.routing_cache_size(), 0);
}

#[test]
fn test_routing_cache_rejects_inserts_at_capacity() {
    let mut mgr = loaded(vec![config("allow_plugin", 10)]);
    let one = vec!["allow_plugin".to_owned()];
    assert_eq!(route(&mut mgr, &about("a", None), &["allow_plugin"]), (one.clone(), false, false));
    assert_eq!(mgr.routing_cache_size(), 1);
    assert_eq!(route(&mut mgr, &about("b", None), &["allow_plugin"]), (one.clone(), false, false));
    assert_eq!(mgr.routing_cache_size(), 2);
    assert_eq!(
        route(&mut mgr, &about("c", None), &["allow_plugin"]),
        (one.clone(), false, true),
        "a route is resolved when the cache is full, and that it is full is said"
    );
    assert_eq!(mgr.routing_cache_size(), 2, "cache must not exceed cap");
    assert_eq!(
        route(&mut mgr, &about("c", None), &["allow_plugin"]),
        (one.clone(), false, false),
        "it is said once"
    );
    assert_eq!(mgr.routing_cache_size(), 2);
    mgr.clear_routing_cache();
    route(&mut mgr, &about("c", None), &["allow_plugin"]);
    assert_eq!(mgr.routing_cache_size(), 1);
}

#[test]
fn test_register_handler_invalidates_routing_cache() {
    let mut mgr = loaded(vec![config("allow_plugin", 10)]);
    route(&mut mgr, &about("get_compensation", None), &["allow_plugin"]);
    assert_eq!(mgr.routing_cache_size(), 1);
    mgr.register_handler::<TestHook>(Handle { id: 9 }, config("late_plugin", 20), Handle { id: 8 })
        .unwrap();
    assert_eq!(mgr.routing_cache_size(), 0);
}

#[test]
fn test_routing_cache_scope_creates_separate_entries() {
    let mut mgr = loaded(vec![config("allow_plugin", 10)]);
    route(&mut mgr, &about("get_compensation", Some("hr-server")), &["allow_plugin"]);
    route(&mut mgr, &about("get_compensation", Some("billing-server")), &["allow_plugin"]);
    assert_eq!(mgr.routing_cache_size(), 2);
}

fn unrouted(plugins: Vec<PluginConfig>) -> PolicyConfig {
    let plugin_settings = PluginSettings { routing_enabled: false, ..settings() };
    PolicyConfig { plugin_settings, ..policy(plugins) }
}

#[test]
fn test_routing_disabled_fires_all_plugins() {
    let mut mgr = Engine::default();
    mgr.register_factory("test/allow", maker());
    mgr.register_factory("test/deny", maker());
    let denier = PluginConfig { kind: "test/deny".into(), ..config("denier", 10) };
    mgr.load_config(unrouted(vec![denier, config("allower", 20)])).unwrap();
    let all = mgr.invoke_by_name("test_hook").unwrap();
    assert!(matches!(
        mgr.filter_entries_by_route(&all, &about("anything", None), "test_hook"),
        RouteStep::CheckConditions
    ));
    for passes in [vec![true, true], vec![false, false]] {
        let kept = keep_passing(&all, &passes);
        assert_eq!(names(&kept), ["denier", "allower"], "neither has a condition");
    }
}

#[test]
fn a_plugin_with_conditions_runs_where_they_hold() {
    let mut mgr = Engine::default();
    mgr.register_factory("test/allow", maker());
    let mut picky = config("picky", 1);
    let tools = Json::Array(vec![Json::String("wanted_tool".into())]);
    picky.conditions.push(object(vec![("tools", tools.clone())]));
    mgr.load_config(unrouted(vec![picky, config("any", 2)])).unwrap();
    let all = mgr.invoke_by_name("test_hook").unwrap();
    assert_eq!(
        all[0].plugin_ref.trusted_config().conditions,
        vec![object(vec![("tools", tools)])],
        "who judges them sees them"
    );
    assert_eq!(names(&keep_passing(&all, &vec![true, false])), ["picky", "any"]);
    assert_eq!(names(&keep_passing(&all, &vec![false, false])), ["any"]);
}

#[test]
fn test_routing_no_meta_fires_all_plugins() {
    let mgr = loaded(vec![config("a", 1), config("b", 2)]);
    let all = mgr.invoke_by_name("test_hook").unwrap();
    match mgr.filter_entries_by_route(&all, &Extensions::default(), "test_hook") {
        RouteStep::Done(list) => assert_eq!(names(&list), ["a", "b"]),
        _ => panic!("a request about nothing gets all entries"),
    }
    let half = Extensions {
        meta: Some(Arc::new(MetaExtension { entity_type: Some("tool".into()), ..Default::default() })),
        ..Extensions::default()
    };
    assert!(matches!(
        mgr.filter_entries_by_route(&all, &half, "test_hook"),
        RouteStep::Done(_)
    ));
}

#[test]
fn the_identity_hook_asks_for_the_routes_identity_plugins() {
    let mgr = loaded(vec![config("a", 1)]);
    match mgr.filter_entries_by_route(&Vec::new(), &about("x", None), HOOK_IDENTITY_RESOLVE) {
        RouteStep::Resolve { key, identity } => {
            assert!(identity);
            assert_eq!(key.entity_name, "x");
            assert_eq!(key.hook_name, HOOK_IDENTITY_RESOLVE);
        }
        _ => panic!("the route is to be resolved"),
    }
    assert!(mgr.route_has_identity_resolution(&vec![resolved("jwt")]));
    assert!(!mgr.route_has_identity_resolution(&Vec::new()));
    assert!(!Engine::default().route_has_identity_resolution(&vec![resolved("jwt")]));
}

#[test]
fn a_route_keeps_the_order_of_resolution_and_skips_the_unregistered() {
    let mgr = loaded(vec![config("a", 1), config("b", 2), config("c", 3)]);
    let all = mgr.invoke_by_name("test_hook").unwrap();
    let r = vec![resolved("c"), resolved("nobody"), resolved("a")];
    let chosen = choose_entries(&all, &r, &vec![None, None, None]);
    assert_eq!(names(&chosen), ["c", "a"]);
    assert_eq!(entry_named(&all, "b").unwrap().handler, Handle { id: 1002 });
    assert!(entry_named(&all, "nobody").is_none());
}

fn key(entity: &str, scope: Option<&str>) -> RouteCacheKey {
    RouteCacheKey {
        entity_type: "tool".into(),
        entity_name: entity.into(),
        hook_name: "test_hook".into(),
        scope: scope.map(str::to_owned),
    }
}

#[test]
fn an_annotation_is_in_charge_and_the_scoped_one_first() {
    let mut mgr = loaded(vec![config("a", 1)]);
    let generation = mgr.config_generation();
    mgr.annotate_route(key("x", None), Handle { id: 50 }, Handle { id: 51 }, config("apl", 0));
    mgr.annotate_route(key("x", Some("s")), Handle { id: 60 }, Handle { id: 61 }, config("apl-s", 0));
    assert_eq!(mgr.config_generation(), generation + 2);
    assert_eq!(route(&mut mgr, &about("x", Some("s")), &["a"]).0, ["apl-s"]);
    assert_eq!(route(&mut mgr, &about("x", Some("t")), &["a"]).0, ["apl"]);
    assert_eq!(route(&mut mgr, &about("x", None), &["a"]).0, ["apl"]);
    assert_eq!(route(&mut mgr, &about("y", None), &["a"]).0, ["a"]);
    mgr.remove_route_annotation(key("x", None));
    assert_eq!(route(&mut mgr, &about("x", None), &["a"]).0, ["a"]);
    assert_eq!(route(&mut mgr, &about("x", Some("s")), &["a"]).0, ["apl-s"]);
}

#[test]
fn an_annotation_counts_as_a_hook() {
    let mut mgr = Engine::default();
    mgr.annotate_route(key("x", None), Handle { id: 1 }, Handle { id: 2 }, config("apl", 0));
    assert!(mgr.has_hooks_for("test_hook"));
    assert!(!mgr.has_hooks_for("other_hook"));
    assert_eq!(mgr.invoke_by_name("other_hook").unwrap().len(), 0);
    assert_eq!(mgr.plugin_count(), 0);
}

#[test]
fn a_load_drops_annotations_and_resolved_routes() {
    let mut mgr = Engine::default();
    mgr.register_factory("test/allow", maker());
    mgr.load_config(policy(vec![config("a", 1)])).unwrap();
    mgr.annotate_route(key("x", None), Handle { id: 1 }, Handle { id: 2 }, config("apl", 0));
    route(&mut mgr, &about("y", None), &["a"]);
    mgr.load_config(policy(vec![config("b", 2)])).unwrap();
    assert_eq!(mgr.routing_cache_size(), 0);
    assert_eq!(route(&mut mgr, &about("x", None), &["b"]).0, ["b"]);
    assert_eq!(mgr.plugin_names(), ["a", "b"]);
}

#[test]
fn removing_an_absent_route_annotation_is_a_no_op() {
    let mut mgr = Engine::default();
    mgr.remove_route_annotation(RouteCacheKey {
        entity_type: "tool".into(),
        entity_name: "never-annotated".into(),
        hook_name: "cmf.tool_pre_invoke".into(),
        scope: None,
    });
    mgr.remove_route_annotation(RouteCacheKey {
        entity_type: "tool".into(),
        entity_name: "never-annotated".into(),
        hook_name: "cmf.tool_pre_invoke".into(),
        scope: Some("scope".into()),
    });
    assert!(!mgr.has_hooks_for("cmf.tool_pre_invoke"));
}

fn object(entries: Vec<(&str, Json)>) -> Json {
    let mut m = TextMap::new();
    for (k, v) in entries {
        m.insert(k.to_owned(), v);
    }
    Json::Object(m)
}

fn num(n: u64) -> Json {
    Json::Number(Number::Unsigned(n))
}

fn overriding_engine(name: &str, settings: Option<Json>, caps: &[&str]) -> Engine {
    let mut mgr = Engine::default();
    mgr.register_factory("test/allow", maker());
    mgr.set_http_transport(Handle { id: 99 });
    let mut cfg = config(name, 10);
    cfg.config = settings;
    for c in caps {
        cfg.capabilities.insert((*c).to_owned());
    }
    mgr.load_config(policy(vec![cfg])).unwrap();
    mgr
}

fn raw(text: &str) -> serde_yaml::Value {
    serde_yaml::from_str(text).unwrap()
}

#[test]
fn test_route_override_creates_new_instance() {
    let mut mgr =
        overriding_engine("rate_limiter", Some(object(vec![("max_requests", num(100))])), &[]);
    let ext = about("get_compensation", None);
    let all = mgr.invoke_by_name("test_hook").unwrap();
    let RouteStep::Resolve { key, identity } =
        mgr.filter_entries_by_route(&all, &ext, "test_hook")
    else {
        panic!("nothing is resolved yet");
    };
    assert!(!identity);
    let overrides = object(vec![("config", object(vec![("max_requests", num(10))]))]);
    let pending = mgr
        .create_override_instance(&all[0], "test_hook", &overrides)
        .expect("a factory makes it");
    assert_eq!(pending.config.config, Some(object(vec![("max_requests", num(10))])));
    let made = vec![finish_override(pending, true)];
    let r = vec![ResolvedPlugin { name: "rate_limiter".into(), config_overrides: Some(overrides) }];
    let outcome = mgr.finish_route(key, &all, &r, &made);
    assert_eq!(names(&outcome.entries), ["rate_limiter"]);
    assert_eq!(
        outcome.entries[0].plugin_ref.trusted_config().config,
        Some(object(vec![("max_requests", num(10))]))
    );
    assert!(matches!(mgr.invoke_entries(outcome.entries, ext), Dispatch::Run { .. }));
    assert_eq!(mgr.routing_cache_size(), 1);
}

#[test]
fn an_override_merges_into_the_base_key_by_key() {
    let mut mgr = overriding_engine(
        "limiter",
        Some(object(vec![("rate", num(10)), ("burst", num(2))])),
        &["perform_http"],
    );
    let all = mgr.invoke_by_name("test_hook").unwrap();
    let overrides = object(vec![("config", object(vec![("rate", num(99))]))]);
    let pending = mgr
        .create_override_instance(&all[0], "test_hook", &overrides)
        .expect("a factory makes it");
    assert_eq!(
        pending.config.config,
        Some(object(vec![("rate", num(99)), ("burst", num(2))]))
    );
    assert_eq!(pending.services.http(), Ok(Handle { id: 99 }));
    let entry = finish_override(pending, true).unwrap();
    assert_eq!(entry.plugin_ref.name(), "limiter");
    assert_eq!(entry.handler, Handle { id: 1010 });

    let r = vec![ResolvedPlugin { name: "limiter".into(), config_overrides: Some(overrides) }];
    let chosen = choose_entries(&all, &r, &vec![Some(entry)]);
    assert_eq!(
        chosen[0].plugin_ref.trusted_config().config,
        Some(object(vec![("rate", num(99)), ("burst", num(2))]))
    );
    let fallback = choose_entries(&all, &r, &vec![None]);
    assert_eq!(
        fallback[0].plugin_ref.trusted_config().config,
        Some(object(vec![("rate", num(10)), ("burst", num(2))]))
    );
}

#[test]
fn an_override_falls_back_to_the_base_where_it_cannot_be_made() {
    let mut mgr = overriding_engine("limiter", None, &[]);
    let all = mgr.invoke_by_name("test_hook").unwrap();
    let overrides = object(vec![("config", num(1))]);
    assert!(mgr.create_override_instance(&all[0], "other_hook", &overrides).is_none());
    let pending = mgr.create_override_instance(&all[0], "test_hook", &overrides).unwrap();
    assert_eq!(pending.config.config, Some(num(1)));
    assert!(matches!(pending.services.http(), Err(ServiceError::NotPermitted { .. })));
    assert!(finish_override(pending, false).is_none());
    mgr.register_factory("test/allow", Maker { refuses: true, seen: RefCell::new(Vec::new()) });
    assert!(mgr.create_override_instance(&all[0], "test_hook", &overrides).is_none());
    let mut bare = Engine::default();
    assert!(bare.create_override_instance(&all[0], "test_hook", &overrides).is_none());
}

#[test]
fn settings_of_another_shape_are_kept_by_an_override() {
    let mut mgr = overriding_engine("limiter", Some(Json::Bool(true)), &[]);
    let all = mgr.invoke_by_name("test_hook").unwrap();
    let overrides = object(vec![("config", object(vec![("rate", num(1))]))]);
    let pending = mgr.create_override_instance(&all[0], "test_hook", &overrides).unwrap();
    assert_eq!(pending.config.config, Some(Json::Bool(true)));
    let pending = mgr.create_override_instance(&all[0], "test_hook", &Json::Null).unwrap();
    assert_eq!(pending.config.config, Some(Json::Bool(true)));
}

fn probed() -> Engine {
    let settings = object(vec![("max_requests", num(100))]);
    overriding_engine("prober", Some(settings), &["perform_http"])
}

#[test]
fn a_route_override_instance_receives_host_services() {
    let mut mgr = probed();
    let run = mgr.begin_initialize().unwrap();
    assert_eq!(
        run.current().unwrap().services.http(),
        Ok(Handle { id: 99 }),
        "the base instance reaches the transport"
    );
    let all = mgr.invoke_by_name("test_hook").unwrap();
    let overrides = object(vec![("config", object(vec![("max_requests", num(10))]))]);
    let pending = mgr.create_override_instance(&all[0], "test_hook", &overrides).unwrap();
    assert_eq!(
        pending.services.http(),
        Ok(Handle { id: 99 }),
        "the override instance must reach the transport too"
    );
}

#[test]
fn build_override_entries_hands_the_new_instance_host_services() {
    let mut mgr = probed();
    let cfg_override = raw("max_requests: 10");
    match mgr.build_override_entries("prober", Some(&cfg_override), None, None) {
        OverrideStep::Initialize(p) => {
            assert_eq!(p.services.http(), Ok(Handle { id: 99 }));
            assert_eq!(p.config.config, Some(object(vec![("max_requests", num(10))])));
            let entries = finish_override_entries(p, true);
            assert!(!entries.is_empty(), "the override instance was built");
            assert_eq!(entries.len(), 1);
            assert_eq!(entries[0].0, "test_hook");
        }
        OverrideStep::Ready(_) => panic!("a new instance is to be initialized"),
    }
}

#[test]
fn an_override_that_drops_perform_http_withholds_the_transport() {
    let mut mgr = probed();
    let cfg_override = raw("max_requests: 10");
    let mut narrowed = TextSet::new();
    narrowed.insert("read_headers".to_owned());
    match mgr.build_override_entries("prober", Some(&cfg_override), Some(&narrowed), None) {
        OverrideStep::Initialize(p) => {
            assert!(matches!(p.services.http(), Err(ServiceError::NotPermitted { .. })));
            assert!(!finish_override_entries(p, true).is_empty());
        }
        OverrideStep::Ready(_) => panic!("a new instance is to be initialized"),
    }
    match mgr.build_override_entries("prober", Some(&cfg_override), Some(&narrowed), None) {
        OverrideStep::Initialize(p) => assert!(finish_override_entries(p, false).is_empty()),
        OverrideStep::Ready(_) => panic!("a new instance is to be initialized"),
    }
}

#[test]
fn override_settings_replace_the_settings_whole() {
    let mut mgr = overriding_engine("limiter", Some(object(vec![("rate", num(10))])), &[]);
    let settings = raw("burst: 3\nlevels: [low, {high: -2}]\nstrict: true\nnote: ~");
    let expected = object(vec![
        ("burst", num(3)),
        (
            "levels",
            Json::Array(vec![
                Json::String("low".into()),
                object(vec![("high", Json::Number(Number::Negative(-2)))]),
            ]),
        ),
        ("strict", Json::Bool(true)),
        ("note", Json::Null),
    ]);
    match mgr.build_override_entries("limiter", Some(&settings), None, None) {
        OverrideStep::Initialize(p) => assert_eq!(p.config.config, Some(expected)),
        OverrideStep::Ready(_) => panic!("a new instance is to be initialized"),
    }
    let base = mgr.find_plugin_entries("limiter");
    let step = prepare_override_entries(
        &mgr.factories(),
        mgr.http_transport(),
        41,
        base,
        Some(&num(7)),
        None,
        None,
    );
    match step {
        OverrideStep::Initialize(p) => {
            assert_eq!(p.config.config, Some(num(7)));
            assert_eq!(p.id, 41);
        }
        OverrideStep::Ready(_) => panic!("a new instance is to be initialized"),
    }
}

#[test]
fn override_settings_that_are_no_json_give_no_entries() {
    let mut mgr = overriding_engine("limiter", None, &[]);
    let settings = raw("? [a, b]\n: 1");
    match mgr.build_override_entries("limiter", Some(&settings), None, None) {
        OverrideStep::Ready(entries) => assert!(entries.is_empty()),
        OverrideStep::Initialize(_) => panic!("no object has such a key"),
    }
}

#[test]
fn capabilities_and_error_policy_are_overridden_without_a_factory() {
    let mut mgr = overriding_engine("limiter", None, &["perform_http"]);
    mgr.register_factory("test/allow", Maker { refuses: true, seen: RefCell::new(Vec::new()) });
    let none = TextSet::new();
    match mgr.build_override_entries("limiter", None, Some(&none), Some(OnError::Ignore)) {
        OverrideStep::Ready(entries) => {
            let cfg = entries[0].1.plugin_ref.trusted_config();
            assert!(cfg.capabilities.is_empty());
            assert_eq!(cfg.on_error, OnError::Ignore);
            assert_eq!(entries[0].1.plugin_ref.plugin(), Handle { id: 10 });
        }
        OverrideStep::Initialize(_) => panic!("no instance is made"),
    }
    match mgr.build_override_entries("limiter", None, None, None) {
        OverrideStep::Ready(entries) => {
            assert!(entries[0].1.plugin_ref.trusted_config().capabilities.contains("perform_http"));
        }
        OverrideStep::Initialize(_) => panic!("no instance is made"),
    }
    let settings = raw("1");
    for name in ["nobody", "limiter"] {
        match mgr.build_override_entries(name, Some(&settings), None, None) {
            OverrideStep::Ready(entries) => assert!(entries.is_empty()),
            OverrideStep::Initialize(_) => panic!("nothing can be made"),
        }
    }
}

fn yaml(text: &str) -> Yaml {
    match parse_document(text) {
        Ok(d) => d.tree,
        Err(e) => panic!("must be YAML: {}", e.message()),
    }
}

#[test]
fn a_document_is_read_as_it_is_written() {
    let text = "a: [1, -2, 1.5, 18446744073709551615]\n? {b: ~}\n: !Thing x\ntrue: 'true'";
    let document = parse_document(text).ok().unwrap();
    assert_eq!(document.raw, raw(text));
    let Yaml::Mapping(entries) = &document.tree else {
        panic!("a mapping");
    };
    assert_eq!(entries.len(), 3);
    let Some(Yaml::Sequence(numbers)) = document.tree.get("a") else {
        panic!("a sequence");
    };
    assert!(matches!(numbers[0], Yaml::Number(Number::Unsigned(1))));
    assert!(matches!(numbers[1], Yaml::Number(Number::Negative(-2))));
    assert!(matches!(&numbers[2], Yaml::Number(Number::Other(t)) if t == "1.5"));
    assert!(matches!(numbers[3], Yaml::Number(Number::Unsigned(u64::MAX))));
    assert!(matches!(&entries[1].0, Yaml::Mapping(m) if matches!(m[0].1, Yaml::Null)));
    assert!(matches!(&entries[1].1, Yaml::Tagged(t, v) if t == "!Thing" && v.as_str() == Some("x")));
    assert!(matches!(entries[2].0, Yaml::Bool(true)));
    assert_eq!(entries[2].1.as_str(), Some("true"));
    assert!(matches!(yaml_of(&serde_yaml::Value::Null), Yaml::Null));
}

#[test]
fn text_that_is_no_document_is_refused() {
    for text in ["a: [1", "a: 1\na: 2", "\tx: 1"] {
        let reason = serde_yaml::from_str::<serde_yaml::Value>(text).unwrap_err().to_string();
        let error = parse_document(text).err().unwrap();
        assert_eq!(
            error,
            PluginError::Config { message: format!("YAML parse error: {reason}") },
            "{text}"
        );
    }
}

#[test]
fn yaml_comes_to_the_json_that_says_the_same() {
    let json = |text: &str| yaml_to_json(&raw(text));
    assert_eq!(json("~"), Ok(Json::Null));
    assert_eq!(json("-5"), Ok(Json::Number(Number::Negative(-5))));
    assert_eq!(json("2.5"), Ok(Json::Number(Number::Other("2.5".into()))));
    assert_eq!(json(".nan"), Ok(Json::Null));
    assert_eq!(
        json("[yes, {k: v}]"),
        Ok(Json::Array(vec![
            Json::String("yes".into()),
            object(vec![("k", Json::String("v".into()))]),
        ]))
    );
    assert_eq!(json("!Tag 1"), Ok(object(vec![("!Tag", num(1))])));
    assert_eq!(json("1: a"), Ok(object(vec![("1", Json::String("a".into()))])));
    assert_eq!(json("{1: a, '1': b}"), Ok(object(vec![("1", Json::String("b".into()))])));
    assert_eq!(json("? [a]\n: 1"), Err("key must be a string".to_owned()));
    assert_eq!(json("{a: {~: 1}}"), Err("key must be a string".to_owned()));
}

#[test]
fn a_json_value_is_taken_over_as_it_is() {
    let text = r#"{"a": [null, true, 7, -7, 0.5], "b": {"c": "d"}}"#;
    let v: serde_json::Value = serde_json::from_str(text).unwrap();
    assert_eq!(
        json_of(&v),
        object(vec![
            (
                "a",
                Json::Array(vec![
                    Json::Null,
                    Json::Bool(true),
                    num(7),
                    Json::Number(Number::Negative(-7)),
                    Json::Number(Number::Other("0.5".into())),
                ]),
            ),
            ("b", object(vec![("c", Json::String("d".into()))])),
        ])
    );
}

fn known() -> Vec<String> {
    ["tool", "resource", "prompt", "llm", "http", "meta", "plugins", "groups", "authorization"]
        .iter()
        .map(|k| (*k).to_owned())
        .collect()
}

/// Loads a document and shows it to the visitors.
fn load<V: ConfigVisitor<Engine = (), Route = String>>(
    mgr: &mut PolicyEngine<Maker, V>,
    text: &str,
    routes: &[&str],
) -> Result<(), PluginError> {
    let raw = yaml(text);
    let parsed: Vec<String> = routes.iter().map(|r| (*r).to_owned()).collect();
    let plan = mgr.load_config_yaml(policy(Vec::new()), &raw, parsed.len(), &known())?;
    walk_visitors(&mgr.visitors(), &(), &Vec::new(), &parsed, &plan)
}

#[derive(Default)]
struct Recorder {
    seen: RefCell<Vec<String>>,
}

impl ConfigVisitor for Recorder {
    type Engine = ();
    type Route = String;
    fn name(&self) -> &str {
        "recording"
    }
    fn visit_plugins(&self, _: &(), plugins: &Vec<PluginConfig>) -> Result<(), String> {
        self.seen.borrow_mut().push(format!("plugins {}", plugins.len()));
        Ok(())
    }
    fn visit_global(&self, _: &(), yaml: &Yaml) -> Result<(), String> {
        let word = if matches!(yaml, Yaml::Null) { "absent" } else { "present" };
        self.seen.borrow_mut().push(format!("global {word}"));
        Ok(())
    }
    fn visit_default(&self, _: &(), entity_type: &str, _: &Yaml) -> Result<(), String> {
        self.seen.borrow_mut().push(format!("default {entity_type}"));
        Ok(())
    }
    fn visit_policy_bundle(&self, _: &(), tag: &str, yaml: &Yaml) -> Result<(), String> {
        self.seen.borrow_mut().push(format!("bundle {tag} {:?}", yaml.as_str()));
        Ok(())
    }
    fn visit_route(&self, _: &(), yaml: &Yaml, parsed: &String) -> Result<(), String> {
        let tool = yaml.get("tool").and_then(Yaml::as_str).map(str::to_owned);
        self.seen.borrow_mut().push(format!("route {parsed} {tool:?}"));
        Ok(())
    }
}

#[test]
fn load_config_yaml_compiles_top_level_group_via_visitor() {
    let text = r#"
plugin_settings:
  routing_enabled: true
groups:
  hr-tools:
    authorization:
      pre_invocation:
        - "require(role.hr)"
routes:
  - tool: get_compensation
    groups: hr-tools
"#;
    let mut mgr: PolicyEngine<Maker, Recorder> = PolicyEngine::default();
    let recorder = Arc::new(Recorder::default());
    mgr.register_visitor(recorder.clone());
    load(&mut mgr, text, &["get_compensation"]).expect("config must load");
    let seen = recorder.seen.borrow();
    assert!(
        seen.iter().any(|b| b.starts_with("bundle hr-tools ")),
        "top-level groups: bundle must be visited for compilation; saw: {seen:?}",
    );
}

#[test]
fn top_level_groups_and_global_policies_are_merged() {
    let text = r#"
plugin_settings:
  routing_enabled: true
groups:
  from-groups:
    authorization:
      pre_invocation:
        - "require(authenticated)"
global:
  policies:
    from-global:
      authorization:
        pre_invocation:
          - "require(authenticated)"
"#;
    let mut mgr: PolicyEngine<Maker, Recorder> = PolicyEngine::default();
    let recorder = Arc::new(Recorder::default());
    mgr.register_visitor(recorder.clone());
    load(&mut mgr, text, &[]).expect("config must load");
    let seen = recorder.seen.borrow();
    assert!(
        seen.iter().any(|t| t.starts_with("bundle from-groups ")),
        "the top-level groups bundle must survive the merge; saw {seen:?}"
    );
    assert!(
        seen.iter().any(|t| t.starts_with("bundle from-global ")),
        "and so must the global.policies one; saw {seen:?}"
    );
}

#[test]
fn sections_are_shown_in_order_and_groups_win() {
    let text = r#"
global:
  defaults:
    tool: 1
    7: skipped
    llm: 2
  policies:
    a: old
    b: kept
groups:
  c: new
  a: newer
routes:
  - tool: x
"#;
    let mut mgr: PolicyEngine<Maker, Recorder> = PolicyEngine::default();
    let recorder = Arc::new(Recorder::default());
    mgr.register_visitor(recorder.clone());
    mgr.register_visitor(recorder.clone());
    load(&mut mgr, text, &["x", "unwritten"]).expect("config must load");
    let once = [
        "plugins 0",
        "global present",
        "default tool",
        "default llm",
        "bundle a Some(\"newer\")",
        "bundle b Some(\"kept\")",
        "bundle c Some(\"new\")",
        "route x Some(\"x\")",
        "route unwritten None",
    ];
    let seen = recorder.seen.borrow();
    assert_eq!(seen[..9], once);
    assert_eq!(seen[9..], once);
}

#[test]
fn a_document_without_sections_shows_the_plugins_and_an_absent_global() {
    let mut mgr: PolicyEngine<Maker, Recorder> = PolicyEngine::default();
    let recorder = Arc::new(Recorder::default());
    mgr.register_visitor(recorder.clone());
    load(&mut mgr, "{}", &[]).unwrap();
    assert_eq!(*recorder.seen.borrow(), ["plugins 0", "global absent"]);
}

#[test]
fn tags_are_looked_through_and_tell_keys_apart() {
    let raw = yaml("global: !x\n  policies: !y\n    a: 1\n    !t a: 2\ngroups:\n  !t a: 3\n");
    let mut mgr: PolicyEngine<Maker, Recorder> = PolicyEngine::default();
    let recorder = Arc::new(Recorder::default());
    mgr.register_visitor(recorder.clone());
    let plan = mgr.load_config_yaml(policy(Vec::new()), &raw, 0, &known()).unwrap();
    let bundles: Vec<(&str, u64)> = plan
        .iter()
        .filter_map(|s| match s {
            VisitStep::Bundle(t, Yaml::Number(Number::Unsigned(n))) => Some((*t, *n)),
            _ => None,
        })
        .collect();
    assert_eq!(bundles, [("a", 1), ("a", 3)]);
}

struct Refuser(&'static str);

impl Refuser {
    fn answer(&self, section: &str) -> Result<(), String> {
        if self.0 == section {
            Err("no".into())
        } else {
            Ok(())
        }
    }
}

impl ConfigVisitor for Refuser {
    type Engine = ();
    type Route = String;
    fn name(&self) -> &str {
        "refuser"
    }
    fn visit_plugins(&self, _: &(), _: &Vec<PluginConfig>) -> Result<(), String> {
        self.answer("plugins")
    }
    fn visit_global(&self, _: &(), _: &Yaml) -> Result<(), String> {
        self.answer("global")
    }
    fn visit_default(&self, _: &(), _: &str, _: &Yaml) -> Result<(), String> {
        self.answer("default")
    }
    fn visit_policy_bundle(&self, _: &(), _: &str, _: &Yaml) -> Result<(), String> {
        self.answer("bundle")
    }
    fn visit_route(&self, _: &(), _: &Yaml, _: &String) -> Result<(), String> {
        self.answer("route")
    }
}

#[test]
fn a_visitor_refusal_aborts_the_load_and_is_attributed() {
    let text = r#"
global:
  defaults:
    tool:
      authorization:
        pre_invocation:
          - "require(authenticated)"
  policies:
    a-tag:
      authorization:
        pre_invocation:
          - "require(authenticated)"
"#;
    for (section, expect) in [
        ("plugins", "visit_plugins"),
        ("global", "visit_global"),
        ("default", "visit_default"),
        ("bundle", "visit_policy_bundle"),
    ] {
        let mut mgr: PolicyEngine<Maker, Refuser> = PolicyEngine::default();
        mgr.register_visitor(Arc::new(Refuser(section)));
        let err = load(&mut mgr, text, &[]).expect_err("a refusing visitor must abort the load");
        let msg = err.message();
        assert!(
            msg.contains("refuser"),
            "the error must name the visitor: {msg}"
        );
        assert!(
            msg.contains(expect),
            "and the section it refused; expected {expect} in: {msg}"
        );
        assert_eq!(mgr.config_generation(), 1, "the load itself is not undone");
    }
}

#[test]
fn refusals_are_worded_exactly() {
    let text = "global:\n  defaults:\n    tool: 1\n  policies:\n    t: 1\n";
    for (section, expect) in [
        ("plugins", "visitor 'refuser' visit_plugins: no"),
        ("global", "visitor 'refuser' visit_global: no"),
        ("default", "visitor 'refuser' visit_default('tool'): no"),
        ("bundle", "visitor 'refuser' visit_policy_bundle('t'): no"),
        ("route", "visitor 'refuser' visit_route[0]: no"),
    ] {
        let mut mgr: PolicyEngine<Maker, Refuser> = PolicyEngine::default();
        mgr.register_visitor(Arc::new(Refuser(section)));
        assert_eq!(load(&mut mgr, text, &["r"]).unwrap_err().message(), expect);
    }
}

#[test]
fn a_visitor_that_overrides_nothing_does_not_block_a_config_load() {
    let text = r#"
plugin_settings:
  routing_enabled: true
global:
  defaults:
    tool:
      authorization:
        pre_invocation:
          - "require(authenticated)"
  policies:
    all:
      authorization:
        pre_invocation:
          - "require(authenticated)"
routes:
  - tool: get_compensation
"#;
    let mut mgr = Engine::default();
    mgr.register_visitor(Arc::new(Silent));
    load(&mut mgr, text, &["get_compensation"])
        .expect("a visitor that overrides nothing must not fail the load");
}

#[test]
fn the_visitor_name_is_what_diagnostics_report() {
    assert_eq!(Silent.name(), "silent");
}

struct Rego;

impl ConfigVisitor for Rego {
    type Engine = ();
    type Route = String;
    fn name(&self) -> &str {
        "rego"
    }
    fn extra_route_keys(&self) -> Vec<String> {
        vec!["rego".to_owned()]
    }
}

const ROUTE_WITH_A_VISITOR_KEY: &str = "
plugin_settings:
  routing_enabled: true
routes:
  - tool: get_compensation
    rego:
      package: hr.authz
";

#[test]
fn a_route_key_a_visitor_declares_is_accepted() {
    let mut mgr: PolicyEngine<Maker, Rego> = PolicyEngine::default();
    mgr.register_visitor(Arc::new(Rego));
    load(&mut mgr, ROUTE_WITH_A_VISITOR_KEY, &["get_compensation"])
        .expect("a key the registered visitor consumes must load");
}

#[test]
fn the_same_route_key_is_rejected_when_no_visitor_claims_it() {
    let mut mgr: PolicyEngine<Maker, Rego> = PolicyEngine::default();
    let err = load(&mut mgr, ROUTE_WITH_A_VISITOR_KEY, &["get_compensation"])
        .expect_err("an unclaimed route key must fail the load");
    let err = err.message();
    assert!(err.contains("rego"), "the key as written: {err}");
    assert!(err.contains("route 0"), "the route index: {err}");
    assert_eq!(mgr.config_generation(), 0);
    assert!(check_route_keys(&yaml("routes: 3"), &known()).is_ok());
    assert!(check_route_keys(&yaml("routes: [{tool: a}, {7: b}, c]"), &known()).is_ok());
}

#[test]
fn settings_the_runtime_ignores_still_load() {
    let mut cfg = policy(Vec::new());
    assert!(warn_on_inactive_settings(&cfg).is_empty());
    cfg.plugin_dirs = vec!["/opt/plugins".into()];
    cfg.plugin_settings.parallel_execution_within_band = true;
    cfg.plugin_settings.fail_on_plugin_error = true;
    let warnings = warn_on_inactive_settings(&cfg);
    assert_eq!(warnings.len(), 3);
    assert!(warnings[0].contains("`plugin_dirs` (count=1)"));
    assert!(warnings[1].contains("parallel_execution_within_band"));
    assert!(warnings[2].contains("fail_on_plugin_error"));
    let mut mgr = Engine::default();
    mgr.load_config(cfg).expect("inactive settings warn, they do not fail the load");
}

#[test]
fn plugin_names_lists_what_was_registered() {
    let mut mgr = Engine::default();
    assert!(
        mgr.plugin_names().is_empty(),
        "an empty engine registers nothing"
    );
    mgr.register_factory("test/allow", maker());
    let raw = yaml("plugins: []");
    let plan = mgr
        .load_config_yaml(policy(vec![config("first", 1), config("second", 2)]), &raw, 0, &known())
        .expect("config must load");
    assert!(plan.is_empty(), "nobody is shown anything");
    let mut names = mgr.plugin_names();
    names.sort();
    assert_eq!(names, vec!["first".to_owned(), "second".to_owned()]);
}

#[test]
fn a_document_that_cannot_be_read_is_reported() {
    assert_eq!(parse_error("x").message(), "YAML parse error: x");
    assert_eq!(deserialize_error("x").message(), "PolicyConfig deserialize error: x");
}

#[test]
fn unregistering_undoes_registering() {
    let mut engine = Engine::default();
    for (name, priority) in [("a", 10), ("c", 30)] {
        engine
            .register_handler::<TestHook>(
                Handle { id: priority as u64 },
                config(name, priority),
                Handle { id: 100 },
            )
            .unwrap();
    }
    let before = engine.invoke::<TestHook>().unwrap();
    engine
        .register_handler::<TestHook>(Handle { id: 20 }, config("b", 20), Handle { id: 100 })
        .unwrap();
    assert_eq!(names(&engine.invoke::<TestHook>().unwrap()), ["a", "b", "c"]);
    assert_eq!(engine.unregister("b").map(|p| p.plugin()), Some(Handle { id: 20 }));
    assert_eq!(names(&engine.invoke::<TestHook>().unwrap()), names(&before));
    assert_eq!(engine.plugin_names(), ["a", "c"]);
}

#[test]
fn a_document_can_be_loaded_in_parts() {
    let mut engine = Engine::default();
    engine.register_factory("test/allow", maker());
    let pending = engine.begin_load(policy(vec![config("a", 1), config("b", 2)]));
    let load = pending.make_plugins().ok().unwrap();
    assert_eq!(engine.plugin_count(), 0);
    engine.finish_load(load);
    assert_eq!(engine.plugin_names(), ["a", "b"]);
    assert_eq!(engine.config_generation(), 1);

    let taken = engine.begin_load(policy(vec![config("a", 3)]));
    let err = taken.make_plugins().err().unwrap();
    assert_eq!(err.message(), "plugin 'a' is already registered");
    assert_eq!(engine.config_generation(), 1);

    let mut kinds = PluginFactoryRegistry::new();
    kinds.register("test/allow", maker());
    assert!(engine.factories().has("test/allow"));
    let mut stock = ppe_core::registry::PluginRegistry::new();
    assert!(instantiate_plugins_into(&mut stock, 8, &vec![config("c", 4)], &kinds).is_ok());
    assert_eq!(stock.get("c").unwrap().id(), 8);
    assert_eq!(stock.plugin_count(), 1);

    assert_eq!(engine.http_transport(), None);
    assert!(engine.set_http_transport(Handle { id: 9 }));
    assert_eq!(engine.http_transport(), Some(Handle { id: 9 }));
}

#[test]
fn a_yaml_document_can_be_loaded_in_parts() {
    let mut mgr: PolicyEngine<Maker, Recorder> = PolicyEngine::default();
    mgr.register_factory("test/allow", maker());
    let tree = yaml("global: {}\nroutes:\n  - tool: x");
    let strange = yaml("routes:\n  - tool: x\n    odd: 1");
    assert!(mgr.begin_load_yaml(policy(Vec::new()), &strange, &known()).is_err());
    let pending = mgr
        .begin_load_yaml(policy(vec![config("a", 1)]), &tree, &known())
        .ok()
        .unwrap();
    let load = pending.make_plugins().ok().unwrap();
    mgr.register_visitor(Arc::new(Recorder::default()));
    let plan = mgr.finish_load_yaml(load, &tree, 1);
    assert_eq!(mgr.plugin_names(), ["a"]);
    assert_eq!(plan.len(), 3);
    assert!(matches!(plan[2], VisitStep::Route(0, Some(_))));
}

#[test]
fn each_route_that_is_resolved_takes_one_place() {
    let mut mgr = loaded(vec![config("a", 1)]);
    for (i, entity) in ["x", "y", "z"].iter().enumerate() {
        assert_eq!(mgr.routing_cache_size(), i.min(2));
        let (ran, cached, _) = route(&mut mgr, &about(entity, None), &["a"]);
        assert_eq!(ran, ["a"]);
        assert!(!cached);
    }
    assert_eq!(mgr.routing_cache_size(), 2);
    assert!(route(&mut mgr, &about("x", None), &["a"]).1, "it is served from the cache");
    assert_eq!(mgr.routing_cache_size(), 2);
}

#[test]
fn a_taken_name_never_loads() {
    let mut engine = loaded(vec![config("a", 1)]);
    engine.register_factory("test/allow", maker());
    let generation = engine.config_generation();
    for plugins in [vec![config("a", 2)], vec![config("b", 1), config("b", 2)]] {
        let err = engine.load_config(policy(plugins)).unwrap_err();
        assert!(err.message().ends_with("is already registered"));
    }
    assert_eq!(engine.plugin_names(), ["a"]);
    assert_eq!(engine.config_generation(), generation);
}

/// The ids of the plugins that are registered.
fn ids(mgr: &Engine) -> Vec<u64> {
    mgr.plugin_names().iter().map(|n| mgr.get_plugin(n).unwrap().id()).collect()
}

#[test]
fn every_plugin_has_an_id_of_its_own() {
    let mut mgr = Engine::default();
    mgr.register_factory("test/allow", maker());
    mgr.register_handler::<TestHook>(Handle { id: 1 }, config("a", 1), Handle { id: 1 }).unwrap();
    mgr.load_config(policy(vec![config("b", 2), config("c", 3)])).unwrap();
    assert!(mgr.load_config(policy(vec![config("d", 4), config("a", 5)])).is_err());
    mgr.load_config(policy(vec![config("d", 4)])).unwrap();
    let mut seen = ids(&mgr);
    assert_eq!(seen.len(), 4);
    seen.sort();
    seen.dedup();
    assert_eq!(seen.len(), 4, "no two share an id");

    mgr.annotate_route(
        RouteCacheKey {
            entity_type: "tool".into(),
            entity_name: "x".into(),
            hook_name: "test_hook".into(),
            scope: None,
        },
        Handle { id: 1 },
        Handle { id: 1 },
        config("boss", 1),
    );
    match mgr.filter_entries_by_route(&Vec::new(), &about("x", None), "test_hook") {
        RouteStep::Done(list) => assert!(!seen.contains(&list[0].plugin_ref.id())),
        _ => panic!("the route is annotated"),
    }
    assert!(!seen.contains(&mgr.draw_id()));
}

#[test]
fn an_override_is_told_from_its_base_and_from_other_overrides() {
    let mut mgr = probed();
    let all = mgr.invoke_by_name("test_hook").unwrap();
    let base = all[0].plugin_ref.id();
    let overrides = object(vec![("config", object(vec![("max_requests", num(10))]))]);
    let mut seen = vec![base];
    for _ in 0..2 {
        let pending = mgr.create_override_instance(&all[0], "test_hook", &overrides).unwrap();
        let entry = finish_override(pending, true).unwrap();
        assert!(!seen.contains(&entry.plugin_ref.id()));
        seen.push(entry.plugin_ref.id());
    }
    let none = TextSet::new();
    match mgr.build_override_entries("prober", None, Some(&none), None) {
        OverrideStep::Ready(entries) => {
            assert_eq!(entries[0].1.plugin_ref.plugin(), all[0].plugin_ref.plugin());
            assert!(
                !seen.contains(&entries[0].1.plugin_ref.id()),
                "the plugin is shared, what disables it is not"
            );
        }
        OverrideStep::Initialize(_) => panic!("no instance is made"),
    }
    assert_eq!(mgr.get_plugin("prober").unwrap().id(), base, "the base keeps its own");
}

#[test]
fn the_handlers_of_one_override_share_its_id() {
    let mut mgr = Engine::default();
    mgr.register_factory("test/allow", maker());
    let hooks = vec!["test_hook".to_owned(), "other_hook".to_owned()];
    mgr.load_config(policy(vec![PluginConfig { hooks, ..config("two", 1) }])).unwrap();
    let settings = raw("1");
    for made in [Some(&settings), None] {
        let entries =
            match mgr.build_override_entries("two", made, None, Some(OnError::Disable)) {
                OverrideStep::Initialize(p) => finish_override_entries(p, true),
                OverrideStep::Ready(entries) => entries,
            };
        assert_eq!(entries.len(), 2);
        assert_eq!(entries[0].1.plugin_ref.id(), entries[1].1.plugin_ref.id());
        assert_ne!(entries[0].1.plugin_ref.id(), mgr.get_plugin("two").unwrap().id());
    }
}

#[test]
fn ids_start_anew_behind_the_last() {
    assert_eq!(id_behind(5, 0), 5);
    assert_eq!(id_behind(5, 3), 8);
    assert_eq!(id_behind(u64::MAX, 1), 0);
    assert_eq!(id_behind(u64::MAX - 1, 3), 1);
}

#[test]
fn an_override_is_owed_where_a_registered_plugin_is_overridden() {
    let mgr = loaded(vec![config("a", 1), config("b", 2)]);
    let all = mgr.invoke_by_name("test_hook").unwrap();
    let overriding = |name: &str| ResolvedPlugin {
        name: name.into(),
        config_overrides: Some(num(1)),
    };
    let owed = overriding("b");
    let (base, overrides) = owed_override(&all, &owed).expect("it is registered and overridden");
    assert_eq!(base.plugin_ref.name(), "b");
    assert_eq!(*overrides, num(1));
    assert!(owed_override(&all, &overriding("nobody")).is_none());
    assert!(owed_override(&all, &resolved("b")).is_none());
}

#[test]
fn each_visitor_is_shown_each_section_once() {
    let mut run = VisitRun::new(2, 3);
    let mut turns = Vec::new();
    while let Some(turn) = run.current() {
        assert_eq!(run.current(), Some(turn), "a turn stands until it is recorded");
        turns.push(turn);
        run.record(true);
    }
    assert_eq!(turns, [(0, 0), (0, 1), (0, 2), (1, 0), (1, 1), (1, 2)]);
    run.record(true);
    assert_eq!(run.current(), None);

    let mut refused = VisitRun::new(2, 3);
    refused.record(true);
    refused.record(false);
    assert_eq!(refused.current(), None, "a refusal ends the walk");
    assert_eq!(VisitRun::new(0, 3).current(), None);
    assert_eq!(VisitRun::new(3, 0).current(), None);

    let mut mgr: PolicyEngine<Maker, Recorder> = PolicyEngine::default();
    let recorders = [Arc::new(Recorder::default()), Arc::new(Recorder::default())];
    for r in &recorders {
        mgr.register_visitor(r.clone());
    }
    load(&mut mgr, "global: {}\nroutes:\n  - tool: x\n  - tool: y", &["x", "y"]).unwrap();
    for r in &recorders {
        assert_eq!(
            *r.seen.borrow(),
            ["plugins 0", "global present", "route x Some(\"x\")", "route y Some(\"y\")"]
        );
    }
}

#[test]
fn a_strange_key_is_found_before_a_plugin_is_made() {
    let mut mgr: PolicyEngine<Maker, Recorder> = PolicyEngine::default();
    let tree = yaml("routes:\n  - tool: x\n    odd: 1");
    let err = mgr
        .load_config_yaml(policy(vec![config("a", 1)]), &tree, 1, &known())
        .unwrap_err();
    assert!(err.message().contains("odd"), "not the missing factory: {}", err.message());
    let fine = yaml("routes:\n  - tool: x");
    let err = mgr
        .load_config_yaml(policy(vec![config("a", 1)]), &fine, 1, &known())
        .unwrap_err();
    assert!(err.message().starts_with("no factory registered"));
}
