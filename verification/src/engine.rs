//! The policy engine: which plugins are registered, which of them answer for a
//! request, and what a reload changes.
//!
//! The engine is a state with transitions. What takes a runtime (running a
//! plugin, reading a file) is done by the host, which hands the outcome back.
use crate::config;
use crate::config::{ExecutorConfig, PolicyConfig, PolicyView, ResolvedPlugin};
use crate::error;
use crate::error::PluginError;
use crate::extensions::container::Extensions;
use crate::factory::{PluginFactory, PluginFactoryRegistry, PluginInstance};
use crate::hooks::trait_def::HookTypeDef;
use crate::host::{InitExtensions, ServiceSlot};
use crate::identity::hook::HOOK_IDENTITY_RESOLVE;
use crate::overrides;
use crate::overrides::{OverrideStep, PendingOverride};
use crate::plugin::{ConfigView, Handle, OnError, PluginConfig};
use crate::registry;
use crate::registry::{EntryView, HookEntry, PluginRef, PluginRegistry, RefView, RegistryView};
use crate::route_table::{RouteCacheKey, RouteId, RouteTable};
use crate::selection;
use crate::text;
use crate::value;
use crate::value::{Json, TextSet};
use crate::visitor;
use crate::visitor::{ConfigVisitor, VisitStep};
use crate::yaml;
use crate::yaml::Yaml;
use std::sync::Arc;
use vstd::prelude::*;

verus! {

/// Default upper bound on the routing cache.
pub const DEFAULT_ROUTE_CACHE_MAX_ENTRIES: usize = 10_000;

/// Configuration for the `PolicyEngine`.
#[derive(Debug, Clone, Copy)]
pub struct PolicyEngineConfig {
    /// How pipelines are run.
    pub executor: ExecutorConfig,
    /// How many resolved routes are kept.
    pub route_cache_max_entries: usize,
}

impl Default for PolicyEngineConfig {
    fn default() -> (r: Self)
        ensures
            r.route_cache_max_entries == DEFAULT_ROUTE_CACHE_MAX_ENTRIES,
            r.executor == (ExecutorConfig { timeout_seconds: 30, short_circuit_on_deny: true }),
    {
        PolicyEngineConfig {
            executor: ExecutorConfig::default(),
            route_cache_max_entries: DEFAULT_ROUTE_CACHE_MAX_ENTRIES,
        }
    }
}

/// The policy engine.
pub struct PolicyEngine<F, V> {
    registry: PluginRegistry,
    executor: ExecutorConfig,
    policy_config: Option<PolicyConfig>,
    route_cache_max_entries: usize,
    route_annotations: RouteTable,
    factories: PluginFactoryRegistry<F>,
    route_cache: RouteTable,
    route_cache_full_warned: bool,
    initialized: bool,
    generation: u64,
    visitors: Vec<Arc<V>>,
    http_transport: Option<Handle>,
    next_id: u64,
}

/// What a [`PolicyEngine`] is.
#[verifier::ext_equal]
#[verifier::reject_recursive_types(F)]
#[verifier::reject_recursive_types(V)]
pub struct EngineView<F, V> {
    /// The plugins and their handlers.
    pub registry: RegistryView,
    /// How pipelines are run.
    pub executor: ExecutorConfig,
    /// The policy document, where one was loaded.
    pub policy: Option<PolicyView>,
    /// How many resolved routes are kept.
    pub max: nat,
    /// The entry that an orchestrator put in charge of a route, alone in a list.
    pub annotations: Map<RouteId, Seq<EntryView>>,
    /// The factories by kind.
    pub factories: Map<Seq<char>, F>,
    /// The routes that are resolved and kept.
    pub cache: Map<RouteId, Seq<EntryView>>,
    /// Whether it was said that the cache is full.
    pub warned: bool,
    /// Whether the plugins are initialized.
    pub initialized: bool,
    /// How often the plugins, the document or the annotations changed.
    pub generation: u64,
    /// The visitors, in the order in which they were registered.
    pub visitors: Seq<Arc<V>>,
    /// The host's outbound HTTP transport.
    pub transport: Option<Handle>,
    /// The id that is given next.
    pub next_id: u64,
}

/// What a policy document is, where there is one.
pub open spec fn opt_policy(o: Option<PolicyConfig>) -> Option<PolicyView> {
    match o {
        Some(c) => Some(c@),
        None => None,
    }
}

impl<F, V> View for PolicyEngine<F, V> {
    type V = EngineView<F, V>;

    closed spec fn view(&self) -> EngineView<F, V> {
        EngineView {
            registry: self.registry@,
            executor: self.executor,
            policy: opt_policy(self.policy_config),
            max: self.route_cache_max_entries as nat,
            annotations: self.route_annotations@,
            factories: self.factories@,
            cache: self.route_cache@,
            warned: self.route_cache_full_warned,
            initialized: self.initialized,
            generation: self.generation,
            visitors: self.visitors@,
            transport: self.http_transport,
            next_id: self.next_id,
        }
    }
}

/// An engine that nothing was done to.
pub open spec fn fresh<F, V>(executor: ExecutorConfig, max: nat) -> EngineView<F, V> {
    EngineView {
        registry: registry::empty_registry(),
        executor,
        policy: None,
        max,
        annotations: Map::empty(),
        factories: Map::empty(),
        cache: Map::empty(),
        warned: false,
        initialized: false,
        generation: 0,
        visitors: Seq::empty(),
        transport: None,
        next_id: 0,
    }
}

/// The generation behind `g`. It starts anew behind the last.
pub open spec fn bumped(g: u64) -> u64 {
    if g == u64::MAX {
        0
    } else {
        (g + 1) as u64
    }
}

/// `v` with its routing cache cleared, so that the next time it is full is said
/// again.
pub open spec fn cleared<F, V>(v: EngineView<F, V>) -> EngineView<F, V> {
    EngineView { cache: Map::empty(), warned: false, ..v }
}

/// `v` once `n` ids are given.
pub open spec fn drawn<F, V>(v: EngineView<F, V>, n: nat) -> EngineView<F, V> {
    EngineView { next_id: registry::nth_id(v.next_id, n), ..v }
}

/// `v` with other plugins.
pub open spec fn restocked<F, V>(v: EngineView<F, V>, registry: RegistryView) -> EngineView<F, V> {
    EngineView { registry, generation: bumped(v.generation), ..v }
}

/// How pipelines are run under a policy document.
pub open spec fn executor_of(policy: PolicyView) -> ExecutorConfig {
    ExecutorConfig {
        timeout_seconds: policy.plugin_settings.plugin_timeout,
        short_circuit_on_deny: policy.plugin_settings.short_circuit_on_deny,
    }
}

/// `v` with a policy document loaded into it, and the plugins it comes to:
/// annotations and resolved routes of the time before are gone.
pub open spec fn loaded<F, V>(
    v: EngineView<F, V>,
    policy: PolicyView,
    registry: RegistryView,
) -> EngineView<F, V> {
    EngineView {
        registry,
        executor: executor_of(policy),
        policy: Some(policy),
        max: policy.plugin_settings.route_cache_max_entries as nat,
        annotations: Map::empty(),
        cache: Map::empty(),
        warned: false,
        generation: bumped(v.generation),
        ..v
    }
}

/// `start` with a plugin for each configuration, made as `made` says. Their ids
/// are given from `first` on.
pub open spec fn stocked(
    start: RegistryView,
    first: u64,
    configs: Seq<PluginConfig>,
    made: Seq<PluginInstance>,
) -> RegistryView
    decreases configs.len(),
{
    if configs.len() == 0 {
        start
    } else {
        registry::registered(
            stocked(start, first, configs.drop_last(), made.drop_last()),
            RefView {
                id: registry::nth_id(first, (configs.len() - 1) as nat),
                plugin: made.last().plugin,
                config: configs.last()@,
            },
            registry::handler_seq(made.last().handlers@),
        )
    }
}

/// Whether the factories may make `made` of `configs`, each under a name that
/// is still free.
pub open spec fn all_made<F: PluginFactory>(
    factories: Map<Seq<char>, F>,
    start: RegistryView,
    first: u64,
    configs: Seq<PluginConfig>,
    made: Seq<PluginInstance>,
) -> bool {
    &&& made.len() == configs.len()
    &&& forall|i: int|
        0 <= i < configs.len() ==> #[trigger] overrides::makes(factories, configs[i], Ok(made[i]))
    &&& forall|i: int|
        0 <= i < configs.len() ==> !(#[trigger] stocked(
            start,
            first,
            configs.take(i),
            made.take(i),
        )).plugins.contains_key(configs[i]@.name)
}

/// What is said of a kind without a factory.
pub open spec fn no_factory_message(kind: Seq<char>, name: Seq<char>) -> Seq<char> {
    "no factory registered for plugin kind '"@ + kind + "' (plugin '"@ + name + "')"@
}

/// Whether `e` is why the configuration behind the first `made.len()` ones did
/// not come to a plugin: no factory for its kind, a factory that refuses it, or
/// a name that is taken.
pub open spec fn fails_behind<F: PluginFactory>(
    factories: Map<Seq<char>, F>,
    start: RegistryView,
    first: u64,
    configs: Seq<PluginConfig>,
    made: Seq<PluginInstance>,
    e: PluginError,
) -> bool {
    let k = made.len() as int;
    &&& k < configs.len()
    &&& all_made(factories, start, first, configs.take(k), made)
    &&& {
        ||| !factories.contains_key(configs[k]@.kind) && error::is_config_error(
            e,
            no_factory_message(configs[k]@.kind, configs[k]@.name),
        )
        ||| overrides::makes(factories, configs[k], Err(e))
        ||| {
            &&& exists|i: PluginInstance| #[trigger]
                overrides::makes(factories, configs[k], Ok(i))
            &&& stocked(start, first, configs.take(k), made).plugins.contains_key(configs[k]@.name)
            &&& error::is_config_error(e, registry::taken_message(configs[k]@.name))
        }
    }
}

/// Whether a policy document may be loaded into `before` with the outcome
/// `after`.
pub open spec fn loads<F: PluginFactory, V>(
    before: EngineView<F, V>,
    policy: PolicyConfig,
    after: EngineView<F, V>,
) -> bool {
    exists|made: Seq<PluginInstance>| #[trigger]
        all_made(before.factories, before.registry, before.next_id, policy.plugins@, made)
            && after == loaded(
            drawn(before, policy.plugins@.len()),
            policy@,
            stocked(before.registry, before.next_id, policy.plugins@, made),
        )
}

/// Whether a policy document may be refused with `e`.
pub open spec fn load_refused<F: PluginFactory, V>(
    before: EngineView<F, V>,
    policy: PolicyConfig,
    e: PluginError,
) -> bool {
    exists|made: Seq<PluginInstance>| #[trigger]
        fails_behind(
            before.factories,
            before.registry,
            before.next_id,
            policy.plugins@,
            made,
            e,
        )
}

/// One more configuration that comes to a plugin.
proof fn lemma_one_more<F: PluginFactory>(
    factories: Map<Seq<char>, F>,
    start: RegistryView,
    first: u64,
    configs: Seq<PluginConfig>,
    made: Seq<PluginInstance>,
    config: PluginConfig,
    instance: PluginInstance,
)
    requires
        all_made(factories, start, first, configs, made),
        overrides::makes(factories, config, Ok(instance)),
        !stocked(start, first, configs, made).plugins.contains_key(config@.name),
    ensures
        all_made(factories, start, first, configs.push(config), made.push(instance)),
        stocked(start, first, configs.push(config), made.push(instance)) == registry::registered(
            stocked(start, first, configs, made),
            RefView {
                id: registry::nth_id(first, configs.len()),
                plugin: instance.plugin,
                config: config@,
            },
            registry::handler_seq(instance.handlers@),
        ),
{
    let cs = configs.push(config);
    let ms = made.push(instance);
    assert(cs.drop_last() =~= configs);
    assert(ms.drop_last() =~= made);
    assert forall|i: int| 0 <= i < cs.len() implies #[trigger] overrides::makes(
        factories,
        cs[i],
        Ok(ms[i]),
    ) by {
        if i < configs.len() {
            assert(overrides::makes(factories, configs[i], Ok(made[i])));
        }
    }
    assert forall|i: int| 0 <= i < cs.len() implies !(#[trigger] stocked(
        start,
        first,
        cs.take(i),
        ms.take(i),
    )).plugins.contains_key(cs[i]@.name) by {
        if i < configs.len() {
            assert(cs.take(i) =~= configs.take(i));
            assert(ms.take(i) =~= made.take(i));
            assert(!stocked(start, first, configs.take(i), made.take(i)).plugins.contains_key(
                configs[i]@.name,
            ));
        } else {
            assert(cs.take(i) =~= configs);
            assert(ms.take(i) =~= made);
        }
    }
}

/// Makes a plugin of each configuration with the factory for its kind, and
/// registers it, with ids from `first_id` on. Ends at the first that does not come
/// to a plugin.
pub fn instantiate_plugins_into<F: PluginFactory>(
    target_registry: &mut PluginRegistry,
    first_id: u64,
    plugin_configs: &Vec<PluginConfig>,
    factories: &PluginFactoryRegistry<F>,
) -> (r: Result<(), PluginError>)
    ensures
        match r {
            Ok(()) => exists|made: Seq<PluginInstance>| #[trigger]
                all_made(factories@, old(target_registry)@, first_id, plugin_configs@, made)
                    && final(target_registry)@ == stocked(
                    old(target_registry)@,
                    first_id,
                    plugin_configs@,
                    made,
                ),
            Err(e) => exists|made: Seq<PluginInstance>| #[trigger]
                fails_behind(factories@, old(target_registry)@, first_id, plugin_configs@, made, e),
        },
{
    let ghost start = target_registry@;
    let ghost mut made: Seq<PluginInstance> = Seq::empty();
    let mut i: usize = 0;
    proof {
        assert(plugin_configs@.take(0) =~= Seq::<PluginConfig>::empty());
        assert(all_made(factories@, start, first_id, plugin_configs@.take(0), made));
    }
    while i < plugin_configs.len()
        invariant
            i <= plugin_configs@.len(),
            start == old(target_registry)@,
            made.len() == i,
            all_made(factories@, start, first_id, plugin_configs@.take(i as int), made),
            target_registry@ == stocked(start, first_id, plugin_configs@.take(i as int), made),
        decreases plugin_configs@.len() - i,
    {
        let config = &plugin_configs[i];
        let factory = match factories.get(config.kind.as_str()) {
            Some(f) => f,
            None => {
                let mut m = "no factory registered for plugin kind '".to_owned();
                m.append(config.kind.as_str());
                m.append("' (plugin '");
                m.append(config.name.as_str());
                m.append("')");
                let e = PluginError::Config { message: m };
                assert(fails_behind(factories@, start, first_id, plugin_configs@, made, e));
                return Err(e);
            },
        };
        let outcome = factory.create(config);
        assert(overrides::makes(factories@, plugin_configs@[i as int], outcome));
        match outcome {
            Err(e) => {
                assert(overrides::makes(factories@, plugin_configs@[i as int], Err(e)));
                assert(fails_behind(factories@, start, first_id, plugin_configs@, made, e));
                return Err(e);
            },
            Ok(instance) => {
                assert(overrides::makes(factories@, plugin_configs@[i as int], Ok(instance)));
                let answer = target_registry.register_multi_handler(
                    registry::id_behind(first_id, i),
                    instance.plugin,
                    config.clone(),
                    &instance.handlers,
                );
                match answer {
                    Ok(_) => {
                        proof {
                            lemma_one_more(
                                factories@,
                                start,
                                first_id,
                                plugin_configs@.take(i as int),
                                made,
                                plugin_configs@[i as int],
                                instance,
                            );
                            made = made.push(instance);
                            assert(plugin_configs@.take(i + 1) =~= plugin_configs@.take(
                                i as int,
                            ).push(plugin_configs@[i as int]));
                        }
                    },
                    Err(message) => {
                        let e = PluginError::Config { message };
                        assert(fails_behind(factories@, start, first_id, plugin_configs@, made, e));
                        return Err(e);
                    },
                }
            },
        }
        i += 1;
    }
    proof {
        assert(plugin_configs@.take(i as int) =~= plugin_configs@);
        assert(all_made(factories@, old(target_registry)@, first_id, plugin_configs@, made));
    }
    Ok(())
}

/// What a request is about: the kind of an entity, and its name.
pub open spec fn entity_of(ext: Extensions) -> Option<(Seq<char>, Seq<char>)> {
    match ext.meta {
        Some(m) => match (m.entity_type, m.entity_name) {
            (Some(t), Some(n)) => Some((t@, n@)),
            _ => None,
        },
        None => None,
    }
}

/// The scope that a request came in by.
pub open spec fn scope_of(ext: Extensions) -> Option<Seq<char>> {
    match ext.meta {
        Some(m) => value::opt_text(m.scope),
        None => None,
    }
}

/// The entry that is in charge of a request at a hook, alone in a list: the one
/// for the request's scope, else the one for no scope in particular.
pub open spec fn annotated(
    annotations: Map<RouteId, Seq<EntryView>>,
    ext: Extensions,
    hook: Seq<char>,
) -> Option<Seq<EntryView>> {
    match entity_of(ext) {
        None => None,
        Some((entity_type, entity_name)) => {
            let scoped = RouteId { entity_type, entity_name, hook_name: hook, scope: scope_of(ext) };
            let unscoped = RouteId { entity_type, entity_name, hook_name: hook, scope: None };
            if annotations.contains_key(scoped) {
                Some(annotations[scoped])
            } else if annotations.contains_key(unscoped) {
                Some(annotations[unscoped])
            } else {
                None
            }
        },
    }
}

/// What is next to be done to find the entries for a request.
pub enum RouteStep {
    /// Nothing: these are the entries.
    Done(Arc<Vec<HookEntry>>),
    /// Each plugin's conditions are to be checked; see [`keep_passing`].
    CheckConditions,
    /// The route is to be resolved; see [`PolicyEngine::finish_route`].
    Resolve {
        /// The route.
        key: RouteCacheKey,
        /// Whether it is the route's identity plugins that are asked for.
        identity: bool,
    },
}

/// What a [`RouteStep`] is.
pub enum RouteStepView {
    /// These are the entries.
    Done(Seq<EntryView>),
    /// The plugins' conditions are to be checked.
    CheckConditions,
    /// The route is to be resolved.
    Resolve(RouteId, bool),
}

impl View for RouteStep {
    type V = RouteStepView;

    open spec fn view(&self) -> RouteStepView {
        match self {
            RouteStep::Done(list) => RouteStepView::Done(registry::entry_seq((**list)@)),
            RouteStep::CheckConditions => RouteStepView::CheckConditions,
            RouteStep::Resolve { key, identity } => RouteStepView::Resolve(key@, *identity),
        }
    }
}

/// Whether requests are routed.
pub open spec fn routes_requests(policy: Option<PolicyView>) -> bool {
    policy matches Some(p) && p.plugin_settings.routing_enabled
}

/// What is next to be done to find the entries for a request, of those that are
/// registered for the hook. An annotation comes before all else. Without
/// routing, conditions decide. A request that names no entity gets all entries.
/// A route that was resolved before is served from the cache.
pub open spec fn next_route_step<F, V>(
    v: EngineView<F, V>,
    entries: Seq<EntryView>,
    ext: Extensions,
    hook: Seq<char>,
) -> RouteStepView {
    match annotated(v.annotations, ext, hook) {
        Some(list) => RouteStepView::Done(list),
        None => if !routes_requests(v.policy) {
            RouteStepView::CheckConditions
        } else {
            match entity_of(ext) {
                None => RouteStepView::Done(entries),
                Some((entity_type, entity_name)) => {
                    let id = RouteId {
                        entity_type,
                        entity_name,
                        hook_name: hook,
                        scope: scope_of(ext),
                    };
                    if v.cache.contains_key(id) {
                        RouteStepView::Done(v.cache[id])
                    } else {
                        RouteStepView::Resolve(id, hook == HOOK_IDENTITY_RESOLVE@)
                    }
                },
            }
        },
    }
}

/// Those of `entries` whose plugins have no conditions, and those whose place in
/// `passes` says that their conditions hold.
pub open spec fn passing(entries: Seq<EntryView>, passes: Seq<bool>) -> Seq<EntryView>
    decreases entries.len(),
{
    if entries.len() == 0 {
        Seq::empty()
    } else {
        let rest = passing(entries.drop_last(), passes);
        if entries.last().plugin_ref.config.conditions.len() == 0 || passes[entries.len() - 1] {
            rest.push(entries.last())
        } else {
            rest
        }
    }
}

/// The entries whose plugins' conditions hold of a request: those without any always
/// stay.
pub fn keep_passing(entries: &Vec<HookEntry>, passes: &Vec<bool>) -> (r: Arc<Vec<HookEntry>>)
    requires
        passes@.len() == entries@.len(),
    ensures
        registry::entry_seq((*r)@) == passing(registry::entry_seq(entries@), passes@),
{
    let ghost views = registry::entry_seq(entries@);
    let mut out: Vec<HookEntry> = Vec::new();
    let mut i: usize = 0;
    assert(registry::entry_seq(out@) =~= passing(views.take(0), passes@));
    while i < entries.len()
        invariant
            i <= entries@.len(),
            passes@.len() == entries@.len(),
            views == registry::entry_seq(entries@),
            registry::entry_seq(out@) == passing(views.take(i as int), passes@),
        decreases entries@.len() - i,
    {
        let ghost sofar = out@;
        proof {
            assert(views.take(i + 1).drop_last() =~= views.take(i as int));
            assert(views.take(i + 1).last() == entries@[i as int]@);
        }
        if entries[i].plugin_ref.config.conditions.len() == 0 || passes[i] {
            out.push(entries[i].clone());
            assert(registry::entry_seq(out@) =~= registry::entry_seq(sofar).push(
                entries@[i as int]@,
            ));
        }
        i += 1;
    }
    assert(views.take(i as int) =~= views);
    Arc::new(out)
}

/// The place of the plugin `name` among `entries`, or their number.
pub open spec fn name_index(entries: Seq<EntryView>, name: Seq<char>) -> int {
    text::first_where(
        |i: int| entries[i].plugin_ref.config.name == name,
        entries.len() as int,
    )
}

/// The entry of the plugin `name`, where there is one: the first.
pub fn entry_named<'a>(entries: &'a Vec<HookEntry>, name: &str) -> (r: Option<&'a HookEntry>)
    ensures
        ({
            let views = registry::entry_seq(entries@);
            let i = name_index(views, name@);
            match r {
                Some(e) => i < views.len() && e@ == views[i],
                None => i == views.len(),
            }
        }),
{
    let ghost views = registry::entry_seq(entries@);
    let ghost p = |i: int| views[i].plugin_ref.config.name == name@;
    let mut i: usize = 0;
    while i < entries.len()
        invariant
            i <= entries@.len(),
            views == registry::entry_seq(entries@),
            p == (|i: int| views[i].plugin_ref.config.name == name@),
            forall|k: int| 0 <= k < i ==> !#[trigger] p(k),
        decreases entries@.len() - i,
    {
        assert(views[i as int] == entries@[i as int]@);
        if text::same(entries[i].plugin_ref.name(), name) {
            proof {
                assert(p(i as int));
                text::lemma_first_from(p, 0, entries@.len() as int, i as int);
            }
            return Some(&entries[i]);
        }
        i += 1;
    }
    proof {
        text::lemma_first_from(p, 0, entries@.len() as int, i as int);
    }
    None
}

/// What an override instance is to be made of for a resolved plugin: its entry among
/// `entries`, and what the route overrides. Nothing where the plugin is not registered
/// for the hook, or the route overrides nothing.
pub fn owed_override<'a>(entries: &'a Vec<HookEntry>, plugin: &'a ResolvedPlugin) -> (r: Option<
    (&'a HookEntry, &'a Json),
>)
    ensures
        ({
            let views = registry::entry_seq(entries@);
            let i = name_index(views, plugin.name@);
            match r {
                Some((e, o)) => i < views.len() && e@ == views[i] && plugin.config_overrides
                    == Some(*o),
                None => i == views.len() || plugin.config_overrides is None,
            }
        }),
{
    match (entry_named(entries, plugin.name.as_str()), &plugin.config_overrides) {
        (Some(base), Some(overrides)) => Some((base, overrides)),
        _ => None,
    }
}

/// What an entry is, where there is one.
pub open spec fn opt_entry(o: Option<HookEntry>) -> Option<EntryView> {
    match o {
        Some(e) => Some(e@),
        None => None,
    }
}

/// The entries of a resolved route, in the order of resolution: for each plugin
/// that is registered for the hook, the instance that was made with the route's
/// overrides, where it has any and one was made, else the base entry.
pub open spec fn chosen(
    entries: Seq<EntryView>,
    resolved: Seq<ResolvedPlugin>,
    made: Seq<Option<HookEntry>>,
) -> Seq<EntryView>
    decreases resolved.len(),
{
    if resolved.len() == 0 {
        Seq::empty()
    } else {
        let rest = chosen(entries, resolved.drop_last(), made);
        let last = resolved.last();
        let i = name_index(entries, last.name@);
        if i < entries.len() {
            match (last.config_overrides, made[resolved.len() - 1]) {
                (Some(_), Some(e)) => rest.push(e@),
                _ => rest.push(entries[i]),
            }
        } else {
            rest
        }
    }
}

/// The entries of a resolved route, as [`chosen`] says.
pub fn choose_entries(
    entries: &Vec<HookEntry>,
    resolved: &Vec<ResolvedPlugin>,
    made: &Vec<Option<HookEntry>>,
) -> (r: Vec<HookEntry>)
    requires
        made@.len() == resolved@.len(),
    ensures
        registry::entry_seq(r@) == chosen(registry::entry_seq(entries@), resolved@, made@),
{
    let ghost views = registry::entry_seq(entries@);
    let mut out: Vec<HookEntry> = Vec::new();
    let mut i: usize = 0;
    assert(registry::entry_seq(out@) =~= chosen(views, resolved@.take(0), made@));
    while i < resolved.len()
        invariant
            i <= resolved@.len(),
            made@.len() == resolved@.len(),
            views == registry::entry_seq(entries@),
            registry::entry_seq(out@) == chosen(views, resolved@.take(i as int), made@),
        decreases resolved@.len() - i,
    {
        let ghost sofar = out@;
        proof {
            assert(resolved@.take(i + 1).drop_last() =~= resolved@.take(i as int));
            assert(resolved@.take(i + 1).last() == resolved@[i as int]);
        }
        match entry_named(entries, resolved[i].name.as_str()) {
            Some(base) => {
                match (&resolved[i].config_overrides, &made[i]) {
                    (Some(_), Some(e)) => {
                        out.push(e.clone());
                        assert(registry::entry_seq(out@) =~= registry::entry_seq(sofar).push(e@));
                    },
                    _ => {
                        out.push(base.clone());
                        assert(registry::entry_seq(out@) =~= registry::entry_seq(sofar).push(base@));
                    },
                }
            },
            None => {},
        }
        i += 1;
    }
    assert(resolved@.take(i as int) =~= resolved@);
    out
}

/// Whether no more routes are kept.
pub open spec fn is_full<F, V>(v: EngineView<F, V>) -> bool {
    v.cache.dom().len() >= v.max
}

/// `v` once a resolved route is kept, where there is room for it.
pub open spec fn remembered<F, V>(
    v: EngineView<F, V>,
    id: RouteId,
    list: Seq<EntryView>,
) -> EngineView<F, V> {
    if is_full(v) {
        EngineView { warned: true, ..v }
    } else {
        EngineView { cache: v.cache.insert(id, list), ..v }
    }
}

/// Where requests are not routed, plugins without conditions all run, in their order,
/// whatever is said of conditions.
pub proof fn law_plugins_without_conditions_all_run(entries: Seq<EntryView>, passes: Seq<bool>)
    requires
        forall|i: int|
            0 <= i < entries.len() ==> (#[trigger] entries[i]).plugin_ref.config.conditions.len()
                == 0,
    ensures
        passing(entries, passes) == entries,
    decreases entries.len(),
{
    if entries.len() > 0 {
        let head = entries.drop_last();
        assert forall|i: int| 0 <= i < head.len() implies (
        #[trigger] head[i]).plugin_ref.config.conditions.len() == 0 by {
            assert(head[i] == entries[i]);
        }
        law_plugins_without_conditions_all_run(head, passes);
        assert(entries[entries.len() - 1].plugin_ref.config.conditions.len() == 0);
        assert(head.push(entries.last()) =~= entries);
    } else {
        assert(passing(entries, passes) =~= entries);
    }
}

/// What came of resolving a route.
#[derive(Debug)]
pub struct RouteOutcome {
    /// The entries, in the order in which they run.
    pub entries: Arc<Vec<HookEntry>>,
    /// Whether the route is kept for the next request like it.
    pub kept: bool,
    /// Whether it is to be said that there is no room for it, which is said
    /// once until the cache is cleared.
    pub warn: bool,
}

/// What to do with a payload.
pub enum Dispatch {
    /// Nothing runs: the payload passes as it is.
    PassThrough(Extensions),
    /// The entries are run.
    Run {
        /// The entries.
        entries: Arc<Vec<HookEntry>>,
        /// How.
        executor: ExecutorConfig,
        /// What the plugins see, once it is filtered for each.
        extensions: Extensions,
    },
}

/// What an engine does with a payload once the entries for it are known.
pub open spec fn dispatched<F, V>(
    v: EngineView<F, V>,
    entries: Arc<Vec<HookEntry>>,
    ext: Extensions,
) -> Dispatch {
    if (*entries)@.len() == 0 {
        Dispatch::PassThrough(ext)
    } else {
        Dispatch::Run { entries, executor: v.executor, extensions: with_services(v.transport, ext) }
    }
}

/// `ext` with the host's transport, where one is installed.
pub open spec fn with_services(transport: Option<Handle>, ext: Extensions) -> Extensions {
    match transport {
        Some(t) => Extensions { http_transport: ServiceSlot::Available(t), ..ext },
        None => ext,
    }
}

/// A plugin that is to be initialized.
#[derive(Debug)]
pub struct InitItem {
    /// Its name.
    pub name: String,
    /// The plugin.
    pub plugin: Handle,
    /// The services to initialize it with.
    pub services: InitExtensions,
}

/// An initialization under way: the plugins, in the order of their
/// registration, and how many of them are initialized.
#[derive(Debug)]
pub struct InitRun {
    items: Vec<InitItem>,
    done: usize,
}

/// Why an initialization ends, and what is to be done about it.
#[derive(Debug)]
pub struct InitFailure {
    /// The plugins to shut down, in this order: those that were initialized,
    /// the last first.
    pub rollback: Vec<Handle>,
    /// The failure.
    pub error: PluginError,
}

/// The plugins of `items`, the last first.
pub open spec fn backwards(items: Seq<InitItem>) -> Seq<Handle> {
    items.map_values(|i: InitItem| i.plugin).reverse()
}

impl InitRun {
    /// The plugins.
    pub closed spec fn plan(&self) -> Seq<InitItem> {
        self.items@
    }

    /// How many of them are initialized.
    pub closed spec fn finished(&self) -> nat {
        self.done as nat
    }

    /// The plugin that is to be initialized next: none once all are.
    pub fn current(&self) -> (r: Option<&InitItem>)
        ensures
            match r {
                Some(i) => self.finished() < self.plan().len() && *i
                    == self.plan()[self.finished() as int],
                None => self.finished() >= self.plan().len(),
            },
    {
        if self.done < self.items.len() {
            Some(&self.items[self.done])
        } else {
            None
        }
    }

    /// Records what came of initializing the current plugin. A failure ends the
    /// run; the plugin that failed is not among those to shut down.
    pub fn record(&mut self, outcome: Result<(), String>) -> (r: Option<InitFailure>)
        ensures
            final(self).plan() == old(self).plan(),
            old(self).finished() >= old(self).plan().len() ==> r is None && final(self).finished()
                == old(self).finished(),
            old(self).finished() < old(self).plan().len() ==> match (outcome, r) {
                (Ok(_), None) => final(self).finished() == old(self).finished() + 1,
                (Err(reason), Some(f)) => {
                    &&& final(self).finished() == old(self).finished()
                    &&& f.rollback@ == backwards(
                        old(self).plan().take(old(self).finished() as int),
                    )
                    &&& f.error matches PluginError::Execution { plugin_name, message }
                        && plugin_name@ == old(self).plan()[old(self).finished() as int].name@
                        && message@ == "initialization failed: "@ + reason@
                },
                _ => false,
            },
    {
        if self.done >= self.items.len() {
            return None;
        }
        match outcome {
            Ok(_) => {
                self.done += 1;
                None
            },
            Err(reason) => {
                let ghost part = self.items@.take(self.done as int);
                let ghost all = part.map_values(|i: InitItem| i.plugin);
                let mut rollback: Vec<Handle> = Vec::new();
                let mut i: usize = self.done;
                while i > 0
                    invariant
                        i <= self.done < self.items@.len(),
                        part == self.items@.take(self.done as int),
                        all == part.map_values(|i: InitItem| i.plugin),
                        rollback@.len() == self.done - i,
                        forall|k: int|
                            0 <= k < rollback@.len() ==> #[trigger] rollback@[k] == all[self.done - 1
                                - k],
                    decreases i,
                {
                    i -= 1;
                    rollback.push(self.items[i].plugin);
                    assert(all[i as int] == self.items@[i as int].plugin);
                }
                assert(rollback@ =~= backwards(part));
                let mut message = "initialization failed: ".to_owned();
                message.append(reason.as_str());
                let plugin_name = self.items[self.done].name.clone();
                Some(InitFailure { rollback, error: PluginError::Execution { plugin_name, message } })
            },
        }
    }
}

/// A load that was begun: the document, and what its plugins are made with and
/// registered beside. A factory is the host's code, and may come back to the
/// engine while it runs.
pub struct PendingLoad<F> {
    registry: PluginRegistry,
    first_id: u64,
    factories: PluginFactoryRegistry<F>,
    policy_config: PolicyConfig,
}

/// A load whose plugins are made.
pub struct ReadyLoad {
    registry: PluginRegistry,
    policy_config: PolicyConfig,
}

impl ReadyLoad {
    /// The plugins that the load comes to.
    pub closed spec fn stock(&self) -> RegistryView {
        self.registry@
    }

    /// The document.
    pub closed spec fn policy(&self) -> PolicyConfig {
        self.policy_config
    }
}

impl<F: PluginFactory> PendingLoad<F> {
    /// The plugins that were there when the load was begun.
    pub closed spec fn start(&self) -> RegistryView {
        self.registry@
    }

    /// The factories that were there when the load was begun.
    pub closed spec fn kinds(&self) -> Map<Seq<char>, F> {
        self.factories@
    }

    /// The document.
    pub closed spec fn policy(&self) -> PolicyConfig {
        self.policy_config
    }

    /// The first of the ids that were given to its plugins.
    pub closed spec fn first(&self) -> u64 {
        self.first_id
    }

    /// Makes the plugins of the document.
    pub fn make_plugins(self) -> (r: Result<ReadyLoad, PluginError>)
        ensures
            match r {
                Ok(load) => load.policy() == self.policy() && exists|made: Seq<PluginInstance>|
                    #[trigger] all_made(
                        self.kinds(),
                        self.start(),
                        self.first(),
                        self.policy().plugins@,
                        made,
                    ) && load.stock() == stocked(
                        self.start(),
                        self.first(),
                        self.policy().plugins@,
                        made,
                    ),
                Err(e) => exists|made: Seq<PluginInstance>| #[trigger]
                    fails_behind(
                        self.kinds(),
                        self.start(),
                        self.first(),
                        self.policy().plugins@,
                        made,
                        e,
                    ),
            },
    {
        let ghost start = self.registry@;
        let mut registry = self.registry;
        let policy_config = self.policy_config;
        let answer = instantiate_plugins_into(
            &mut registry,
            self.first_id,
            &policy_config.plugins,
            &self.factories,
        );
        match answer {
            Err(e) => {
                proof {
                    let made = choose|made: Seq<PluginInstance>| #[trigger]
                        fails_behind(self.factories@, start, self.first_id, policy_config.plugins@, made, e);
                    assert(fails_behind(
                        self.kinds(),
                        self.start(),
                        self.first(),
                        self.policy().plugins@,
                        made,
                        e,
                    ));
                }
                Err(e)
            },
            Ok(_) => {
                proof {
                    let made = choose|made: Seq<PluginInstance>| #[trigger]
                        all_made(self.factories@, start, self.first_id, policy_config.plugins@, made)
                            && registry@ == stocked(start, self.first_id, policy_config.plugins@, made);
                    assert(all_made(
                        self.kinds(),
                        self.start(),
                        self.first(),
                        self.policy().plugins@,
                        made,
                    ));
                }
                Ok(ReadyLoad { registry, policy_config })
            },
        }
    }
}

impl<F: PluginFactory, V> PolicyEngine<F, V> {
    /// Create a new `PolicyEngine` with the given configuration.
    pub fn new(config: PolicyEngineConfig) -> (r: Self)
        ensures
            r@ == fresh::<F, V>(config.executor, config.route_cache_max_entries as nat),
    {
        let r = PolicyEngine {
            registry: PluginRegistry::new(),
            executor: config.executor,
            policy_config: None,
            route_cache_max_entries: config.route_cache_max_entries,
            route_annotations: RouteTable::new(),
            factories: PluginFactoryRegistry::new(),
            route_cache: RouteTable::new(),
            route_cache_full_warned: false,
            initialized: false,
            generation: 0,
            visitors: Vec::new(),
            http_transport: None,
            next_id: 0,
        };
        assert(r@ =~= fresh::<F, V>(config.executor, config.route_cache_max_entries as nat));
        r
    }

    /// The generation behind the present one.
    fn bump(&mut self)
        ensures
            final(self)@ == (EngineView { generation: bumped(old(self)@.generation), ..old(self)@ }),
    {
        if self.generation == u64::MAX {
            self.generation = 0;
        } else {
            self.generation += 1;
        }
        assert(self@ =~= (EngineView { generation: bumped(old(self)@.generation), ..old(self)@ }));
    }

    /// Counts the changes of the plugins, the document and the annotations. Who
    /// keeps what follows from them keeps the generation with it, and starts
    /// over where it has moved.
    pub fn config_generation(&self) -> (r: u64)
        ensures
            r == self@.generation,
    {
        self.generation
    }

    /// Whether any identity plugin is configured for a route, given those that
    /// the document resolves it to.
    pub fn route_has_identity_resolution(&self, resolved: &Vec<ResolvedPlugin>) -> (r: bool)
        ensures
            r == (self@.policy is Some && resolved@.len() > 0),
    {
        self.policy_config.is_some() && resolved.len() > 0
    }

    /// Register a plugin factory for a given `kind` name. Says whether one was
    /// replaced.
    pub fn register_factory(&mut self, kind: &str, factory: F) -> (r: bool)
        ensures
            final(self)@ == (EngineView {
                factories: old(self)@.factories.insert(kind@, factory),
                ..old(self)@
            }),
            r == old(self)@.factories.contains_key(kind@),
    {
        let r = self.factories.register(kind, factory);
        assert(self@ =~= (EngineView {
            factories: old(self)@.factories.insert(kind@, factory),
            ..old(self)@
        }));
        r
    }

    /// The factories, for making plugins apart from the engine. A factory is
    /// the host's code, and may come back to the engine while it runs.
    pub fn factories(&self) -> (r: PluginFactoryRegistry<F>)
        ensures
            r@ == self@.factories,
    {
        self.factories.clone()
    }

    /// The host's outbound HTTP transport, where one is installed.
    pub fn http_transport(&self) -> (r: Option<Handle>)
        ensures
            r == self@.transport,
    {
        self.http_transport
    }

    /// Gives an id that no reference has yet.
    pub fn draw_id(&mut self) -> (r: u64)
        ensures
            r == old(self)@.next_id,
            final(self)@ == drawn(old(self)@, 1),
    {
        let id = self.next_id;
        self.next_id = registry::id_behind(id, 1);
        assert(self@ =~= drawn(old(self)@, 1));
        id
    }

    /// Begins to load a policy document. Each of its plugins is given an id.
    pub fn begin_load(&mut self, policy_config: PolicyConfig) -> (r: PendingLoad<F>)
        ensures
            r.start() == old(self)@.registry,
            r.kinds() == old(self)@.factories,
            r.first() == old(self)@.next_id,
            r.policy() == policy_config,
            final(self)@ == drawn(old(self)@, policy_config.plugins@.len()),
    {
        let first_id = self.next_id;
        self.next_id = registry::id_behind(first_id, policy_config.plugins.len());
        assert(self@ =~= drawn(old(self)@, policy_config.plugins@.len()));
        PendingLoad {
            registry: self.registry.clone(),
            first_id,
            factories: self.factories.clone(),
            policy_config,
        }
    }

    /// Puts a policy document in force, with the plugins that were made.
    pub fn finish_load(&mut self, load: ReadyLoad)
        ensures
            final(self)@ == loaded(old(self)@, load.policy()@, load.stock()),
            final(self)@.executor.timeout_seconds == load.policy().plugin_settings.plugin_timeout,
            final(self)@.executor.short_circuit_on_deny
                == load.policy().plugin_settings.short_circuit_on_deny,
            final(self)@.max == load.policy().plugin_settings.route_cache_max_entries,
            final(self)@.policy == Some(load.policy()@),
            final(self)@.registry == load.stock(),
    {
        let settings = load.policy_config.plugin_settings;
        self.registry = load.registry;
        self.executor = ExecutorConfig {
            timeout_seconds: settings.plugin_timeout,
            short_circuit_on_deny: settings.short_circuit_on_deny,
        };
        self.route_cache_max_entries = settings.route_cache_max_entries;
        self.policy_config = Some(load.policy_config);
        self.route_annotations = RouteTable::new();
        self.bump();
        self.clear_routing_cache();
        assert(self@ =~= loaded(old(self)@, load.policy()@, load.stock()));
    }

    /// Load plugins from a policy document: make each with the factory for its
    /// kind and register it beside those that are there. A load that fails
    /// changes nothing.
    pub fn load_config(&mut self, policy_config: PolicyConfig) -> (r: Result<(), PluginError>)
        ensures
            match r {
                Ok(()) => {
                    &&& loads(old(self)@, policy_config, final(self)@)
                    &&& final(self)@.executor.timeout_seconds
                        == policy_config.plugin_settings.plugin_timeout
                    &&& final(self)@.executor.short_circuit_on_deny
                        == policy_config.plugin_settings.short_circuit_on_deny
                    &&& final(self)@.max == policy_config.plugin_settings.route_cache_max_entries
                },
                Err(e) => final(self)@ == old(self)@ && load_refused(old(self)@, policy_config, e),
            },
    {
        let first_id = self.next_id;
        let pending = self.begin_load(policy_config);
        match pending.make_plugins() {
            Err(e) => {
                self.next_id = first_id;
                assert(self@ =~= old(self)@);
                Err(e)
            },
            Ok(load) => {
                self.finish_load(load);
                Ok(())
            },
        }
    }

    /// Register a config visitor. Visitors are walked in the order in which
    /// they were registered.
    pub fn register_visitor(&mut self, visitor: Arc<V>)
        ensures
            final(self)@ == (EngineView {
                visitors: old(self)@.visitors.push(visitor),
                ..old(self)@
            }),
    {
        self.visitors.push(visitor);
        assert(self@ =~= (EngineView { visitors: old(self)@.visitors.push(visitor), ..old(self)@ }));
    }

    /// The visitors, in the order in which they were registered.
    pub fn visitors(&self) -> (r: Vec<Arc<V>>)
        ensures
            r@ == self@.visitors,
    {
        let mut out: Vec<Arc<V>> = Vec::new();
        let mut i: usize = 0;
        while i < self.visitors.len()
            invariant
                i <= self.visitors@.len(),
                out@ == self.visitors@.take(i as int),
            decreases self.visitors@.len() - i,
        {
            out.push(self.visitors[i].clone());
            assert(self.visitors@.take(i + 1) =~= self.visitors@.take(i as int).push(
                self.visitors@[i as int],
            ));
            i += 1;
        }
        assert(self.visitors@.take(i as int) =~= self.visitors@);
        out
    }

    /// Create a `PolicyEngine` from a policy document. The factories make the
    /// plugins; the engine does not keep them.
    pub fn from_config(
        policy_config: PolicyConfig,
        factories: &PluginFactoryRegistry<F>,
    ) -> (r: Result<Self, PluginError>)
        ensures
            match r {
                Ok(engine) => exists|made: Seq<PluginInstance>| #[trigger]
                    all_made(
                        factories@,
                        registry::empty_registry(),
                        0,
                        policy_config.plugins@,
                        made,
                    ) && engine@ == (EngineView {
                        registry: stocked(
                            registry::empty_registry(),
                            0,
                            policy_config.plugins@,
                            made,
                        ),
                        policy: Some(policy_config@),
                        next_id: registry::nth_id(0, policy_config.plugins@.len()),
                        ..fresh::<F, V>(
                            executor_of(policy_config@),
                            policy_config@.plugin_settings.route_cache_max_entries as nat,
                        )
                    }) && engine@.executor.timeout_seconds
                        == policy_config.plugin_settings.plugin_timeout
                        && engine@.executor.short_circuit_on_deny
                        == policy_config.plugin_settings.short_circuit_on_deny && engine@.max
                        == policy_config.plugin_settings.route_cache_max_entries,
                Err(e) => exists|made: Seq<PluginInstance>| #[trigger]
                    fails_behind(
                        factories@,
                        registry::empty_registry(),
                        0,
                        policy_config.plugins@,
                        made,
                        e,
                    ),
            },
    {
        let settings = policy_config.plugin_settings;
        let mut engine: PolicyEngine<F, V> = PolicyEngine::new(
            PolicyEngineConfig {
                executor: ExecutorConfig {
                    timeout_seconds: settings.plugin_timeout,
                    short_circuit_on_deny: settings.short_circuit_on_deny,
                },
                route_cache_max_entries: settings.route_cache_max_entries,
            },
        );
        let mut new_registry = PluginRegistry::new();
        let answer = instantiate_plugins_into(
            &mut new_registry,
            0,
            &policy_config.plugins,
            factories,
        );
        match answer {
            Err(e) => Err(e),
            Ok(_) => {
                let ghost stock = new_registry@;
                engine.registry = new_registry;
                engine.next_id = registry::id_behind(0, policy_config.plugins.len());
                engine.policy_config = Some(policy_config);
                assert(engine@ =~= (EngineView {
                    registry: stock,
                    policy: Some(policy_config@),
                    next_id: registry::nth_id(0, policy_config.plugins@.len()),
                    ..fresh::<F, V>(
                        executor_of(policy_config@),
                        policy_config@.plugin_settings.route_cache_max_entries as nat,
                    )
                }));
                Ok(engine)
            },
        }
    }

    /// Register a plugin with its handlers, each under its hook.
    fn register_handlers(
        &mut self,
        plugin: Handle,
        config: PluginConfig,
        handlers: &Vec<(String, Handle)>,
    ) -> (r: Result<(), PluginError>)
        ensures
            match r {
                Ok(()) => !old(self)@.registry.plugins.contains_key(config@.name) && final(self)@
                    == cleared(
                    restocked(
                        drawn(old(self)@, 1),
                        registry::registered(
                            old(self)@.registry,
                            RefView { id: old(self)@.next_id, plugin, config: config@ },
                            registry::handler_seq(handlers@),
                        ),
                    ),
                ),
                Err(e) => old(self)@.registry.plugins.contains_key(config@.name) && final(self)@
                    == old(self)@ && error::is_config_error(
                    e,
                    registry::taken_message(config@.name),
                ),
            },
    {
        let ghost want = registry::registered(
            self@.registry,
            RefView { id: self@.next_id, plugin, config: config@ },
            registry::handler_seq(handlers@),
        );
        let answer = self.registry.register_multi_handler(self.next_id, plugin, config, handlers);
        match answer {
            Err(message) => {
                assert(self@ =~= old(self)@);
                Err(PluginError::Config { message })
            },
            Ok(_) => {
                let _ = self.draw_id();
                self.bump();
                self.clear_routing_cache();
                assert(self@ =~= cleared(restocked(drawn(old(self)@, 1), want)));
                Ok(())
            },
        }
    }

    /// Register a plugin's handler for the hook `H`. A name that is taken is
    /// refused, and nothing changes.
    pub fn register_handler<H: HookTypeDef>(
        &mut self,
        plugin: Handle,
        config: PluginConfig,
        handler: Handle,
    ) -> (r: Result<(), PluginError>)
        ensures
            match r {
                Ok(()) => !old(self)@.registry.plugins.contains_key(config@.name) && final(self)@
                    == cleared(
                    restocked(
                        drawn(old(self)@, 1),
                        registry::registered(
                            old(self)@.registry,
                            RefView { id: old(self)@.next_id, plugin, config: config@ },
                            seq![(H::NAME@, handler)],
                        ),
                    ),
                ),
                Err(e) => old(self)@.registry.plugins.contains_key(config@.name) && final(self)@
                    == old(self)@ && error::is_config_error(
                    e,
                    registry::taken_message(config@.name),
                ),
            },
    {
        let mut handlers: Vec<(String, Handle)> = Vec::new();
        handlers.push((H::NAME.to_owned(), handler));
        assert(registry::handler_seq(handlers@) =~= seq![(H::NAME@, handler)]);
        self.register_handlers(plugin, config, &handlers)
    }

    /// Register a plugin's handler for several hooks.
    pub fn register_handler_for_names(
        &mut self,
        plugin: Handle,
        config: PluginConfig,
        handler: Handle,
        names: &Vec<String>,
    ) -> (r: Result<(), PluginError>)
        ensures
            match r {
                Ok(()) => !old(self)@.registry.plugins.contains_key(config@.name) && final(self)@
                    == cleared(
                    restocked(
                        drawn(old(self)@, 1),
                        registry::registered(
                            old(self)@.registry,
                            RefView { id: old(self)@.next_id, plugin, config: config@ },
                            value::text_seq(names@).map_values(|n: Seq<char>| (n, handler)),
                        ),
                    ),
                ),
                Err(e) => old(self)@.registry.plugins.contains_key(config@.name) && final(self)@
                    == old(self)@ && error::is_config_error(
                    e,
                    registry::taken_message(config@.name),
                ),
            },
    {
        let mut handlers: Vec<(String, Handle)> = Vec::new();
        let mut i: usize = 0;
        while i < names.len()
            invariant
                i <= names@.len(),
                handlers@.len() == i,
                forall|k: int|
                    0 <= k < i ==> (#[trigger] handlers@[k]).0@ == names@[k]@ && handlers@[k].1
                        == handler,
            decreases names@.len() - i,
        {
            handlers.push((names[i].clone(), handler));
            i += 1;
        }
        assert(registry::handler_seq(handlers@) =~= value::text_seq(names@).map_values(
            |n: Seq<char>| (n, handler),
        ));
        self.register_handlers(plugin, config, &handlers)
    }

    /// Register with a handler that the host made itself.
    pub fn register_raw<H: HookTypeDef>(
        &mut self,
        plugin: Handle,
        config: PluginConfig,
        handler: Handle,
    ) -> (r: Result<(), PluginError>)
        ensures
            match r {
                Ok(()) => !old(self)@.registry.plugins.contains_key(config@.name) && final(self)@
                    == cleared(
                    restocked(
                        drawn(old(self)@, 1),
                        registry::registered(
                            old(self)@.registry,
                            RefView { id: old(self)@.next_id, plugin, config: config@ },
                            seq![(H::NAME@, handler)],
                        ),
                    ),
                ),
                Err(e) => old(self)@.registry.plugins.contains_key(config@.name) && final(self)@
                    == old(self)@ && error::is_config_error(
                    e,
                    registry::taken_message(config@.name),
                ),
            },
    {
        self.register_handler::<H>(plugin, config, handler)
    }

    /// Install the host's outbound HTTP transport. Set once: a second one is
    /// refused, so that none is swapped out from under plugins that use it.
    pub fn set_http_transport(&mut self, transport: Handle) -> (r: bool)
        ensures
            r == (old(self)@.transport is None),
            final(self)@ == (EngineView {
                transport: if old(self)@.transport is None {
                    Some(transport)
                } else {
                    old(self)@.transport
                },
                ..old(self)@
            }),
    {
        let installed = self.http_transport.is_none();
        if installed {
            self.http_transport = Some(transport);
        }
        assert(self@ =~= (EngineView {
            transport: if old(self)@.transport is None {
                Some(transport)
            } else {
                old(self)@.transport
            },
            ..old(self)@
        }));
        installed
    }

    /// The host services that a plugin with these capabilities may borrow. What
    /// is withheld is said to be, so that the plugin's error names the
    /// capability to add.
    pub fn init_extensions_for(&self, capabilities: &TextSet) -> (r: InitExtensions)
        ensures
            r.slot() == overrides::slot_for(self@.transport, capabilities@),
    {
        overrides::services_for(self.http_transport, capabilities)
    }

    /// A request's extensions with the host services that plugins may reach,
    /// before they are filtered for each plugin.
    pub fn with_host_services(&self, extensions: Extensions) -> (r: Extensions)
        ensures
            r == with_services(self@.transport, extensions),
    {
        match self.http_transport {
            Some(t) => Extensions { http_transport: ServiceSlot::Available(t), ..extensions },
            None => extensions,
        }
    }

    /// Start to initialize every registered plugin, in the order of their
    /// registration. Nothing is to be done where they are initialized.
    pub fn begin_initialize(&self) -> (r: Option<InitRun>)
        ensures
            match r {
                Some(run) => {
                    &&& !self@.initialized
                    &&& run.finished() == 0
                    &&& run.plan().len() == self@.registry.names.len()
                    &&& forall|i: int|
                        0 <= i < run.plan().len() ==> {
                            let plugin_ref = self@.registry.plugins[self@.registry.names[i]];
                            let item = #[trigger] run.plan()[i];
                            &&& item.name@ == self@.registry.names[i]
                            &&& item.plugin == plugin_ref.plugin
                            &&& item.services.slot() == overrides::slot_for(
                                self@.transport,
                                plugin_ref.config.capabilities,
                            )
                        }
                },
                None => self@.initialized,
            },
    {
        if self.initialized {
            return None;
        }
        let names = self.registry.plugin_names();
        let mut items: Vec<InitItem> = Vec::new();
        let mut i: usize = 0;
        while i < names.len()
            invariant
                i <= names@.len(),
                value::text_seq(names@) == self@.registry.names,
                forall|k: int|
                    0 <= k < self@.registry.names.len() ==> self@.registry.plugins.contains_key(
                        #[trigger] self@.registry.names[k],
                    ),
                items@.len() == i,
                forall|k: int|
                    0 <= k < i ==> {
                        let plugin_ref = self@.registry.plugins[self@.registry.names[k]];
                        let item = #[trigger] items@[k];
                        &&& item.name@ == self@.registry.names[k]
                        &&& item.plugin == plugin_ref.plugin
                        &&& item.services.slot() == overrides::slot_for(
                            self@.transport,
                            plugin_ref.config.capabilities,
                        )
                    },
            decreases names@.len() - i,
        {
            proof {
                assert(value::text_seq(names@)[i as int] == names@[i as int]@);
                assert(self@.registry.plugins.contains_key(self@.registry.names[i as int]));
            }
            match self.registry.get(names[i].as_str()) {
                Some(p) => {
                    let services = self.init_extensions_for(&p.trusted_config().capabilities);
                    items.push(InitItem { name: names[i].clone(), plugin: p.plugin(), services });
                },
                None => {},
            }
            i += 1;
        }
        Some(InitRun { items, done: 0 })
    }

    /// The plugins are initialized once a run has come to its end. Says whether
    /// it has.
    pub fn finish_initialize(&mut self, run: &InitRun) -> (r: bool)
        ensures
            r == (run.finished() >= run.plan().len()),
            final(self)@ == (EngineView {
                initialized: r || old(self)@.initialized,
                ..old(self)@
            }),
    {
        let whole = run.done >= run.items.len();
        if whole {
            self.initialized = true;
        }
        assert(self@ =~= (EngineView { initialized: whole || old(self)@.initialized, ..old(self)@ }));
        whole
    }

    /// The plugins to shut down, in the reverse order of their registration.
    /// None where they are not initialized. A failure of one does not keep the
    /// others from their turn.
    pub fn begin_shutdown(&self) -> (r: Option<Vec<Handle>>)
        ensures
            match r {
                Some(list) => {
                    &&& self@.initialized
                    &&& list@.len() == self@.registry.names.len()
                    &&& forall|i: int|
                        0 <= i < list@.len() ==> #[trigger] list@[i]
                            == self@.registry.plugins[self@.registry.names[list@.len() - 1
                            - i]].plugin
                },
                None => !self@.initialized,
            },
    {
        if !self.initialized {
            return None;
        }
        let names = self.registry.plugin_names();
        let mut out: Vec<Handle> = Vec::new();
        let mut i: usize = names.len();
        while i > 0
            invariant
                i <= names@.len(),
                value::text_seq(names@) == self@.registry.names,
                forall|k: int|
                    0 <= k < self@.registry.names.len() ==> self@.registry.plugins.contains_key(
                        #[trigger] self@.registry.names[k],
                    ),
                out@.len() == names@.len() - i,
                forall|k: int|
                    0 <= k < out@.len() ==> #[trigger] out@[k]
                        == self@.registry.plugins[self@.registry.names[names@.len() - 1 - k]].plugin,
            decreases i,
        {
            i -= 1;
            proof {
                assert(value::text_seq(names@)[i as int] == names@[i as int]@);
                assert(self@.registry.plugins.contains_key(self@.registry.names[i as int]));
            }
            match self.registry.get(names[i].as_str()) {
                Some(p) => {
                    out.push(p.plugin());
                },
                None => {},
            }
        }
        Some(out)
    }

    /// The plugins are no longer initialized.
    pub fn finish_shutdown(&mut self)
        ensures
            final(self)@ == (EngineView { initialized: false, ..old(self)@ }),
    {
        self.initialized = false;
        assert(self@ =~= (EngineView { initialized: false, ..old(self)@ }));
    }

    /// The entries that are registered for a hook, to be filtered for a
    /// request. None where nothing can run: no entry is registered, and no route
    /// is annotated.
    pub fn invoke_by_name(&self, hook_name: &str) -> (r: Option<Vec<HookEntry>>)
        ensures
            match r {
                Some(l) => {
                    &&& registry::entry_seq(l@) == registry::entries_of(self@.registry, hook_name@)
                    &&& l@.len() > 0 || self@.annotations.dom().len() > 0
                },
                None => registry::entries_of(self@.registry, hook_name@).len() == 0
                    && self@.annotations.dom().len() == 0,
            },
    {
        let all = self.registry.entries_for_hook(hook_name);
        assert(registry::entry_seq(all@).len() == all@.len());
        if all.len() == 0 && self.route_annotations.len() == 0 {
            None
        } else {
            Some(all)
        }
    }

    /// The entries that are registered for the hook `H`, to be filtered for a
    /// request.
    pub fn invoke<H: HookTypeDef>(&self) -> (r: Option<Vec<HookEntry>>)
        ensures
            match r {
                Some(l) => {
                    &&& registry::entry_seq(l@) == registry::entries_of(self@.registry, H::NAME@)
                    &&& l@.len() > 0 || self@.annotations.dom().len() > 0
                },
                None => registry::entries_of(self@.registry, H::NAME@).len() == 0
                    && self@.annotations.dom().len() == 0,
            },
    {
        self.invoke_by_name(H::NAME)
    }

    /// The entries that are registered under an explicit name for a hook of the
    /// type `H`, to be filtered for a request.
    pub fn invoke_named<H: HookTypeDef>(&self, hook_name: &str) -> (r: Option<Vec<HookEntry>>)
        ensures
            match r {
                Some(l) => {
                    &&& registry::entry_seq(l@) == registry::entries_of(self@.registry, hook_name@)
                    &&& l@.len() > 0 || self@.annotations.dom().len() > 0
                },
                None => registry::entries_of(self@.registry, hook_name@).len() == 0
                    && self@.annotations.dom().len() == 0,
            },
    {
        self.invoke_by_name(hook_name)
    }

    /// Every handler of the plugin `plugin_name`, with its hook. No route is
    /// asked: the caller has decided that the plugin is to run.
    pub fn find_plugin_entries(&self, plugin_name: &str) -> (r: Vec<(String, HookEntry)>)
        ensures
            registry::paired_seq(r@) == registry::plugin_entries(
                self@.registry.hooks,
                self@.registry.hook_names,
                plugin_name@,
            ),
    {
        self.registry.entries_for_plugin(plugin_name)
    }

    /// What to do with a payload once the entries for it are known.
    pub fn invoke_entries(&self, entries: Arc<Vec<HookEntry>>, extensions: Extensions) -> (r:
        Dispatch)
        ensures
            r == (if (*entries)@.len() == 0 {
                Dispatch::PassThrough(extensions)
            } else {
                Dispatch::Run {
                    entries,
                    executor: self@.executor,
                    extensions: with_services(self@.transport, extensions),
                }
            }),
            r == dispatched(self@, entries, extensions),
    {
        if entries.len() == 0 {
            return Dispatch::PassThrough(extensions);
        }
        Dispatch::Run {
            entries,
            executor: self.executor,
            extensions: self.with_host_services(extensions),
        }
    }

    /// Put one handler in charge of a route at a hook. The plugins of the route
    /// stay registered.
    pub fn annotate_route(
        &mut self,
        key: RouteCacheKey,
        plugin: Handle,
        handler: Handle,
        config: PluginConfig,
    )
        ensures
            final(self)@ == (EngineView {
                annotations: old(self)@.annotations.insert(
                    key@,
                    seq![
                        EntryView {
                            plugin_ref: RefView {
                                id: old(self)@.next_id,
                                plugin,
                                config: config@,
                            },
                            handler,
                        },
                    ],
                ),
                generation: bumped(old(self)@.generation),
                ..drawn(old(self)@, 1)
            }),
    {
        let id = self.draw_id();
        let ghost view = EntryView { plugin_ref: RefView { id, plugin, config: config@ }, handler };
        let plugin_ref = Arc::new(PluginRef::new(id, plugin, config));
        let mut list: Vec<HookEntry> = Vec::new();
        list.push(HookEntry { plugin_ref, handler });
        assert(registry::entry_seq(list@) =~= seq![view]);
        self.route_annotations.insert(key, Arc::new(list));
        self.bump();
        assert(self@ =~= (EngineView {
            annotations: old(self)@.annotations.insert(key@, seq![view]),
            generation: bumped(old(self)@.generation),
            ..drawn(old(self)@, 1)
        }));
    }

    /// Take the handler in charge of a route at a hook away. Where there is none
    /// nothing but the generation changes.
    pub fn remove_route_annotation(&mut self, key: RouteCacheKey)
        ensures
            final(self)@ == (EngineView {
                annotations: old(self)@.annotations.remove(key@),
                generation: bumped(old(self)@.generation),
                ..old(self)@
            }),
    {
        self.route_annotations.remove(key);
        self.bump();
        assert(self@ =~= (EngineView {
            annotations: old(self)@.annotations.remove(key@),
            generation: bumped(old(self)@.generation),
            ..old(self)@
        }));
    }

    /// The list of the entry in charge of a request at a hook, where there is
    /// one.
    fn find_annotation(&self, extensions: &Extensions, hook_name: &str) -> (r: Option<
        Arc<Vec<HookEntry>>,
    >)
        ensures
            match r {
                Some(l) => annotated(self@.annotations, *extensions, hook_name@) == Some(
                    registry::entry_seq((*l)@),
                ),
                None => annotated(self@.annotations, *extensions, hook_name@) is None,
            },
    {
        let scoped = match route_key(extensions, hook_name) {
            Some(k) => k,
            None => {
                return None;
            },
        };
        let unscoped = RouteCacheKey {
            entity_type: scoped.entity_type.clone(),
            entity_name: scoped.entity_name.clone(),
            hook_name: scoped.hook_name.clone(),
            scope: None,
        };
        match self.route_annotations.get(scoped) {
            Some(l) => Some(l),
            None => self.route_annotations.get(unscoped),
        }
    }

    /// What is next to be done to find the entries for a request, of those that
    /// are registered for the hook.
    pub fn filter_entries_by_route(
        &self,
        entries: &Vec<HookEntry>,
        extensions: &Extensions,
        hook_name: &str,
    ) -> (r: RouteStep)
        ensures
            r@ == next_route_step(
                self@,
                registry::entry_seq(entries@),
                *extensions,
                hook_name@,
            ),
    {
        match self.find_annotation(extensions, hook_name) {
            Some(l) => {
                return RouteStep::Done(l);
            },
            None => {},
        }
        let routed = match &self.policy_config {
            Some(c) => c.routing_enabled(),
            None => false,
        };
        if !routed {
            return RouteStep::CheckConditions;
        }
        let key = match route_key(extensions, hook_name) {
            Some(k) => k,
            None => {
                return RouteStep::Done(Arc::new(registry::copy_entries(entries)));
            },
        };
        let wanted = RouteCacheKey {
            entity_type: key.entity_type.clone(),
            entity_name: key.entity_name.clone(),
            hook_name: key.hook_name.clone(),
            scope: key.scope.clone(),
        };
        match self.route_cache.get(wanted) {
            Some(l) => RouteStep::Done(l),
            None => {
                let identity = text::same(hook_name, HOOK_IDENTITY_RESOLVE);
                RouteStep::Resolve { key, identity }
            },
        }
    }

    /// The entries of a route, once the document resolved it and the instances
    /// for its overrides were made. The route is kept where there is room for
    /// it.
    pub fn finish_route(
        &mut self,
        key: RouteCacheKey,
        entries: &Vec<HookEntry>,
        resolved: &Vec<ResolvedPlugin>,
        made: &Vec<Option<HookEntry>>,
    ) -> (r: RouteOutcome)
        requires
            made@.len() == resolved@.len(),
        ensures
            registry::entry_seq((*r.entries)@) == chosen(
                registry::entry_seq(entries@),
                resolved@,
                made@,
            ),
            final(self)@ == remembered(old(self)@, key@, registry::entry_seq((*r.entries)@)),
            r.kept == !is_full(old(self)@),
            r.warn == (is_full(old(self)@) && !old(self)@.warned),
    {
        let list = Arc::new(choose_entries(entries, resolved, made));
        let ghost views = registry::entry_seq((*list)@);
        let kept = self.route_cache.len() < self.route_cache_max_entries;
        let mut warn = false;
        if kept {
            self.route_cache.insert(key, list.clone());
        } else {
            warn = !self.route_cache_full_warned;
            self.route_cache_full_warned = true;
        }
        assert(self@ =~= remembered(old(self)@, key@, views));
        RouteOutcome { entries: list, kept, warn }
    }

    /// Makes an instance with a route's overrides for a hook, out of the base
    /// entry; still to be initialized. It has an id of its own. See
    /// [`overrides::prepare_override`].
    pub fn create_override_instance(
        &mut self,
        base_entry: &HookEntry,
        target_hook: &str,
        overrides: &Json,
    ) -> (r: Option<PendingOverride>)
        ensures
            final(self)@ == drawn(old(self)@, 1),
            match r {
                Some(p) => exists|c: PluginConfig, i: PluginInstance|
                    c@ == overrides::merged_config(base_entry@.plugin_ref.config, overrides.tree())
                        && #[trigger] overrides::makes(old(self)@.factories, c, Ok(i))
                        && overrides::is_pending(
                        p,
                        old(self)@.next_id,
                        i,
                        c@,
                        target_hook@,
                        old(self)@.transport,
                    ),
                None => overrides::falls_back(
                    old(self)@.factories,
                    overrides::merged_config(base_entry@.plugin_ref.config, overrides.tree()),
                    target_hook@,
                ),
            },
    {
        let id = self.draw_id();
        let r = overrides::prepare_override(
            &self.factories,
            self.http_transport,
            id,
            base_entry,
            target_hook,
            overrides,
        );
        proof {
            assert(self.factories@ == old(self)@.factories);
            assert(self.http_transport == old(self)@.transport);
            if r is Some {
                let p = r->Some_0;
                let (c, i) = choose|c: PluginConfig, i: PluginInstance|
                    c@ == overrides::merged_config(base_entry@.plugin_ref.config, overrides.tree())
                        && #[trigger] overrides::makes(self.factories@, c, Ok(i))
                        && overrides::is_pending(p, id, i, c@, target_hook@, self.http_transport);
                assert(overrides::makes(old(self)@.factories, c, Ok(i)));
            }
        }
        r
    }

    /// Overrides a plugin for an orchestrator, under an id of its own. See
    /// [`overrides::prepare_yaml_override`].
    pub fn build_override_entries(
        &mut self,
        plugin_name: &str,
        config_override: Option<&serde_yaml::Value>,
        capabilities_override: Option<&TextSet>,
        on_error_override: Option<OnError>,
    ) -> (r: OverrideStep)
        ensures
            final(self)@ == drawn(old(self)@, 1),
            overrides::overriding_in_yaml(
                old(self)@.factories,
                old(self)@.transport,
                old(self)@.next_id,
                registry::plugin_entries(
                    old(self)@.registry.hooks,
                    old(self)@.registry.hook_names,
                    plugin_name@,
                ),
                overrides::opt_yaml(config_override),
                overrides::opt_set(capabilities_override),
                on_error_override,
                r,
            ),
    {
        let id = self.draw_id();
        let base = self.find_plugin_entries(plugin_name);
        assert(self.factories@ == old(self)@.factories);
        assert(self.http_transport == old(self)@.transport);
        overrides::prepare_yaml_override(
            &self.factories,
            self.http_transport,
            id,
            base,
            config_override,
            capabilities_override,
            on_error_override,
        )
    }

    /// Clear the routing cache, and forget that it was said to be full.
    pub fn clear_routing_cache(&mut self)
        ensures
            final(self)@ == cleared(old(self)@),
    {
        self.route_cache.clear();
        self.route_cache_full_warned = false;
        assert(self@ =~= cleared(old(self)@));
    }

    /// Number of entries in the routing cache.
    pub fn routing_cache_size(&self) -> (r: usize)
        ensures
            r == self@.cache.dom().len(),
            self@.cache.dom().finite(),
    {
        self.route_cache.len()
    }

    /// Whether anything would run for the given hook name: a registered
    /// handler, or an annotation of a route at that hook.
    pub fn has_hooks_for(&self, hook_name: &str) -> (r: bool)
        ensures
            r == (registry::entries_of(self@.registry, hook_name@).len() > 0 || exists|id: RouteId|
                #[trigger] self@.annotations.contains_key(id) && id.hook_name == hook_name@),
    {
        let annotated_at = self.route_annotations.has_hook(hook_name);
        proof {
            if annotated_at {
                let id = choose|id: RouteId| #[trigger]
                    self.route_annotations@.contains_key(id) && id.hook_name == hook_name@;
                assert(self@.annotations.contains_key(id));
            }
        }
        self.registry.has_hooks_for(hook_name) || annotated_at
    }

    /// Look up a plugin by name.
    pub fn get_plugin(&self, name: &str) -> (r: Option<Arc<PluginRef>>)
        ensures
            match r {
                Some(p) => self@.registry.plugins.contains_key(name@) && (*p)@
                    == self@.registry.plugins[name@],
                None => !self@.registry.plugins.contains_key(name@),
            },
    {
        self.registry.get(name)
    }

    /// Total number of registered plugins.
    pub fn plugin_count(&self) -> (r: usize)
        ensures
            r == self@.registry.names.len(),
    {
        self.registry.plugin_count()
    }

    /// All registered plugin names, in the order of their registration.
    pub fn plugin_names(&self) -> (r: Vec<String>)
        ensures
            value::text_seq(r@) == self@.registry.names,
    {
        self.registry.plugin_names()
    }

    /// Whether the engine has been initialized.
    pub fn is_initialized(&self) -> (r: bool)
        ensures
            r == self@.initialized,
    {
        self.initialized
    }

    /// Unregister a plugin by name. Resolved routes are forgotten where there
    /// was one.
    pub fn unregister(&mut self, name: &str) -> (r: Option<Arc<PluginRef>>)
        ensures
            match r {
                Some(p) => {
                    &&& old(self)@.registry.plugins.contains_key(name@)
                    &&& (*p)@ == old(self)@.registry.plugins[name@]
                    &&& final(self)@ == cleared(
                        restocked(
                            old(self)@,
                            registry::unregistered(old(self)@.registry, name@),
                        ),
                    )
                },
                None => {
                    &&& !old(self)@.registry.plugins.contains_key(name@)
                    &&& final(self)@ == restocked(old(self)@, old(self)@.registry)
                },
            },
    {
        let removed = self.registry.unregister(name);
        self.bump();
        if removed.is_some() {
            self.clear_routing_cache();
        }
        assert(self@.registry == registry::unregistered(old(self)@.registry, name@));
        removed
    }
}

/// What the route of a request at a hook is known by: none where the request
/// names no entity.
fn route_key(extensions: &Extensions, hook_name: &str) -> (r: Option<RouteCacheKey>)
    ensures
        match r {
            Some(k) => entity_of(*extensions) matches Some((entity_type, entity_name)) && k@ == (
            RouteId { entity_type, entity_name, hook_name: hook_name@, scope: scope_of(*extensions) }),
            None => entity_of(*extensions) is None,
        },
{
    match &extensions.meta {
        Some(m) => match (&m.entity_type, &m.entity_name) {
            (Some(t), Some(n)) => Some(
                RouteCacheKey {
                    entity_type: t.clone(),
                    entity_name: n.clone(),
                    hook_name: hook_name.to_owned(),
                    scope: m.scope.clone(),
                },
            ),
            _ => None,
        },
        None => None,
    }
}

/// Whether `extra` is what the visitors may declare to read of a route.
pub open spec fn declared<V: ConfigVisitor>(visitors: Seq<Arc<V>>, extra: Seq<Vec<String>>) -> bool {
    &&& extra.len() == visitors.len()
    &&& forall|i: int|
        0 <= i < visitors.len() ==> call_ensures(
            V::extra_route_keys,
            (&*#[trigger] visitors[i],),
            extra[i],
        )
}

/// The keys that are known, and those that visitors declare.
pub open spec fn gathered(known: Seq<Seq<char>>, extra: Seq<Vec<String>>) -> Seq<Seq<char>>
    decreases extra.len(),
{
    if extra.len() == 0 {
        known
    } else {
        gathered(known, extra.drop_last()) + value::text_seq(extra.last()@)
    }
}

/// The keys that are known, and those that the visitors declare.
fn gather_route_keys<V: ConfigVisitor>(visitors: &Vec<Arc<V>>, known: &Vec<String>) -> (r: Vec<
    String,
>)
    ensures
        exists|extra: Seq<Vec<String>>| #[trigger]
            declared(visitors@, extra) && value::text_seq(r@) == gathered(
                value::text_seq(known@),
                extra,
            ),
{
    let mut out = value::copy_texts(known);
    let ghost texts = value::text_seq(known@);
    let ghost mut extra: Seq<Vec<String>> = Seq::empty();
    let mut i: usize = 0;
    while i < visitors.len()
        invariant
            i <= visitors@.len(),
            texts == value::text_seq(known@),
            extra.len() == i,
            forall|k: int|
                0 <= k < i ==> call_ensures(
                    V::extra_route_keys,
                    (&*#[trigger] visitors@[k],),
                    extra[k],
                ),
            value::text_seq(out@) == gathered(texts, extra),
        decreases visitors@.len() - i,
    {
        let keys = visitors[i].extra_route_keys();
        let ghost before = value::text_seq(out@);
        let mut j: usize = 0;
        assert(value::text_seq(keys@).take(0) =~= Seq::<Seq<char>>::empty());
        assert(before + Seq::<Seq<char>>::empty() =~= before);
        while j < keys.len()
            invariant
                j <= keys@.len(),
                value::text_seq(out@) == before + value::text_seq(keys@).take(j as int),
            decreases keys@.len() - j,
        {
            let ghost sofar = out@;
            out.push(keys[j].clone());
            proof {
                let t = value::text_seq(keys@);
                assert(t.take(j + 1) =~= t.take(j as int).push(keys@[j as int]@));
                assert(value::text_seq(out@) =~= value::text_seq(sofar).push(keys@[j as int]@));
                assert(value::text_seq(out@) =~= before + t.take(j + 1));
            }
            j += 1;
        }
        proof {
            assert(value::text_seq(keys@).take(j as int) =~= value::text_seq(keys@));
            let next = extra.push(keys);
            assert(next.drop_last() =~= extra);
            assert(call_ensures(V::extra_route_keys, (&*visitors@[i as int],), keys));
            extra = next;
        }
        i += 1;
    }
    assert(declared(visitors@, extra));
    out
}

/// Whether every key of every route is known, or declared by a visitor.
pub open spec fn keys_recognized<V: ConfigVisitor>(
    visitors: Seq<Arc<V>>,
    known: Seq<Seq<char>>,
    raw: Yaml,
) -> bool {
    exists|extra: Seq<Vec<String>>| #[trigger]
        declared(visitors, extra) && visitor::routes_known_up_to(
            gathered(known, extra),
            visitor::routes_of(raw),
            visitor::routes_of(raw).len() as int,
        )
}

/// Whether `e` is about the first key of a route that is neither known nor
/// declared by a visitor.
pub open spec fn key_refused<V: ConfigVisitor>(
    visitors: Seq<Arc<V>>,
    known: Seq<Seq<char>>,
    raw: Yaml,
    e: PluginError,
) -> bool {
    exists|extra: Seq<Vec<String>>, i: int, j: int|
        #![trigger visitor::unknown_at(gathered(known, extra), visitor::routes_of(raw), e, i, j)]
        declared(visitors, extra) && visitor::unknown_at(
            gathered(known, extra),
            visitor::routes_of(raw),
            e,
            i,
            j,
        )
}

impl<F: PluginFactory, V: ConfigVisitor> PolicyEngine<F, V> {
    /// Refuses a document with a route key that nothing recognizes: neither
    /// the reader of the document nor a visitor.
    fn check_document(&self, raw: &Yaml, known_route_keys: &Vec<String>) -> (r: Result<
        (),
        PluginError,
    >)
        ensures
            match r {
                Ok(()) => keys_recognized(
                    self@.visitors,
                    value::text_seq(known_route_keys@),
                    *raw,
                ),
                Err(e) => key_refused(
                    self@.visitors,
                    value::text_seq(known_route_keys@),
                    *raw,
                    e,
                ),
            },
    {
        let keys = gather_route_keys(&self.visitors, known_route_keys);
        let ghost known = value::text_seq(known_route_keys@);
        let ghost extra = choose|extra: Seq<Vec<String>>| #[trigger]
            declared(self.visitors@, extra) && value::text_seq(keys@) == gathered(known, extra);
        assert(declared(self@.visitors, extra));
        match visitor::check_route_keys(raw, &keys) {
            Err(e) => {
                proof {
                    let (i, j) = choose|i: int, j: int| #[trigger]
                        visitor::unknown_at(
                            value::text_seq(keys@),
                            visitor::routes_of(*raw),
                            e,
                            i,
                            j,
                        );
                    assert(visitor::unknown_at(
                        gathered(known, extra),
                        visitor::routes_of(*raw),
                        e,
                        i,
                        j,
                    ));
                }
                Err(e)
            },
            Ok(_) => Ok(()),
        }
    }

    /// What the visitors are shown of a document: nothing where there are none.
    fn plan_visit<'a>(&self, raw: &'a Yaml, routes: usize) -> (r: Vec<VisitStep<'a>>)
        ensures
            visitor::step_seq(r@) == (if self@.visitors.len() == 0 {
                Seq::empty()
            } else {
                visitor::plan_of(*raw, routes as nat)
            }),
    {
        if self.visitors.len() == 0 {
            let none: Vec<VisitStep<'a>> = Vec::new();
            assert(visitor::step_seq(none@) =~= Seq::<visitor::StepView>::empty());
            return none;
        }
        visitor::visit_plan(raw, routes)
    }

    /// Begins to load a policy document with its raw YAML. A document with a route
    /// key that nothing recognizes is refused.
    pub fn begin_load_yaml(
        &mut self,
        policy_config: PolicyConfig,
        raw: &Yaml,
        known_route_keys: &Vec<String>,
    ) -> (r: Result<PendingLoad<F>, PluginError>)
        ensures
            match r {
                Ok(pending) => {
                    &&& keys_recognized(
                        old(self)@.visitors,
                        value::text_seq(known_route_keys@),
                        *raw,
                    )
                    &&& pending.start() == old(self)@.registry
                    &&& pending.kinds() == old(self)@.factories
                    &&& pending.first() == old(self)@.next_id
                    &&& pending.policy() == policy_config
                    &&& final(self)@ == drawn(old(self)@, policy_config.plugins@.len())
                },
                Err(e) => final(self)@ == old(self)@ && key_refused(
                    old(self)@.visitors,
                    value::text_seq(known_route_keys@),
                    *raw,
                    e,
                ),
            },
    {
        match self.check_document(raw, known_route_keys) {
            Err(e) => Err(e),
            Ok(_) => Ok(self.begin_load(policy_config)),
        }
    }

    /// Puts a policy document in force, and plans what the visitors are shown of
    /// it.
    pub fn finish_load_yaml<'a>(&mut self, load: ReadyLoad, raw: &'a Yaml, routes: usize) -> (r:
        Vec<VisitStep<'a>>)
        ensures
            final(self)@ == loaded(old(self)@, load.policy()@, load.stock()),
            final(self)@.executor.timeout_seconds == load.policy().plugin_settings.plugin_timeout,
            final(self)@.executor.short_circuit_on_deny
                == load.policy().plugin_settings.short_circuit_on_deny,
            visitor::step_seq(r@) == (if old(self)@.visitors.len() == 0 {
                Seq::empty()
            } else {
                visitor::plan_of(*raw, routes as nat)
            }),
    {
        self.finish_load(load);
        self.plan_visit(raw, routes)
    }

    /// Load a policy document with its raw YAML, and plan what the visitors are
    /// shown of it: nothing where there are none. A document with a route key
    /// that nothing recognizes is refused. A document that is refused changes
    /// nothing; what a visitor refuses later on is not undone.
    pub fn load_config_yaml<'a>(
        &mut self,
        policy_config: PolicyConfig,
        raw: &'a Yaml,
        routes: usize,
        known_route_keys: &Vec<String>,
    ) -> (r: Result<Vec<VisitStep<'a>>, PluginError>)
        ensures
            match r {
                Ok(plan) => {
                    &&& keys_recognized(
                        old(self)@.visitors,
                        value::text_seq(known_route_keys@),
                        *raw,
                    )
                    &&& loads(old(self)@, policy_config, final(self)@)
                    &&& final(self)@.executor.timeout_seconds
                        == policy_config.plugin_settings.plugin_timeout
                    &&& final(self)@.executor.short_circuit_on_deny
                        == policy_config.plugin_settings.short_circuit_on_deny
                    &&& visitor::step_seq(plan@) == (if old(self)@.visitors.len() == 0 {
                        Seq::empty()
                    } else {
                        visitor::plan_of(*raw, routes as nat)
                    })
                },
                Err(e) => {
                    &&& final(self)@ == old(self)@
                    &&& key_refused(
                        old(self)@.visitors,
                        value::text_seq(known_route_keys@),
                        *raw,
                        e,
                    ) || (keys_recognized(
                        old(self)@.visitors,
                        value::text_seq(known_route_keys@),
                        *raw,
                    ) && load_refused(old(self)@, policy_config, e))
                },
            },
    {
        let first_id = self.next_id;
        let pending = match self.begin_load_yaml(policy_config, raw, known_route_keys) {
            Ok(pending) => pending,
            Err(e) => {
                return Err(e);
            },
        };
        match pending.make_plugins() {
            Err(e) => {
                self.next_id = first_id;
                assert(self@ =~= old(self)@);
                Err(e)
            },
            Ok(load) => Ok(self.finish_load_yaml(load, raw, routes)),
        }
    }
}

impl<F: PluginFactory, V> Default for PolicyEngine<F, V> {
    fn default() -> (r: Self)
        ensures
            r@ == fresh::<F, V>(
                ExecutorConfig { timeout_seconds: 30, short_circuit_on_deny: true },
                DEFAULT_ROUTE_CACHE_MAX_ENTRIES as nat,
            ),
    {
        PolicyEngine::new(PolicyEngineConfig::default())
    }
}

/// A change is seen: the generation behind it is another than the one before,
/// and, short of the last, the next.
pub proof fn law_a_change_moves_the_generation(g: u64)
    ensures
        bumped(g) != g,
        g < u64::MAX ==> bumped(g) == g + 1,
{
}

/// Whether the routing cache is within its bound.
pub open spec fn is_bounded<F, V>(v: EngineView<F, V>) -> bool {
    v.cache.dom().finite() && v.cache.dom().len() <= v.max
}

/// The routing cache never outgrows its bound, whatever requests come in: it is
/// within it in a new engine, and whatever is kept, cleared or loaded leaves it
/// there.
pub proof fn law_the_cache_stays_within_its_bound<F, V>(
    v: EngineView<F, V>,
    id: RouteId,
    list: Seq<EntryView>,
    policy: PolicyView,
    registry: RegistryView,
    executor: ExecutorConfig,
    max: nat,
)
    requires
        is_bounded(v),
    ensures
        is_bounded(fresh::<F, V>(executor, max)),
        is_bounded(remembered(v, id, list)),
        is_bounded(cleared(v)),
        is_bounded(restocked(v, registry)),
        is_bounded(loaded(v, policy, registry)),
{
    if !is_full(v) {
        let next = v.cache.insert(id, list);
        assert(next.dom() =~= v.cache.dom().insert(id));
    }
}

/// What a request at a hook is routed by.
pub open spec fn route_of(ext: Extensions, hook: Seq<char>) -> RouteId {
    let (entity_type, entity_name) = entity_of(ext)->Some_0;
    RouteId { entity_type, entity_name, hook_name: hook, scope: scope_of(ext) }
}

/// A route that was kept is served to the next request like it, without being
/// resolved again.
pub proof fn law_a_kept_route_is_served<F, V>(
    v: EngineView<F, V>,
    entries: Seq<EntryView>,
    ext: Extensions,
    hook: Seq<char>,
    list: Seq<EntryView>,
)
    requires
        !is_full(v),
        routes_requests(v.policy),
        entity_of(ext) is Some,
        annotated(v.annotations, ext, hook) is None,
    ensures
        next_route_step(remembered(v, route_of(ext, hook), list), entries, ext, hook)
            == RouteStepView::Done(list),
{
}

/// A route that was not kept takes one place in the cache below its bound, and
/// none at it, so that the cache never grows past it. Either way the route runs what
/// it resolves to, which does not depend on the cache; and to ask again gives the
/// same entries in the same order, out of the cache where the route was kept, and
/// takes no further place.
pub proof fn law_a_resolved_route_takes_one_place<F, V>(
    v: EngineView<F, V>,
    entries: Seq<EntryView>,
    ext: Extensions,
    hook: Seq<char>,
    resolved: Seq<ResolvedPlugin>,
    made: Seq<Option<HookEntry>>,
)
    requires
        v.cache.dom().finite(),
        routes_requests(v.policy),
        entity_of(ext) is Some,
        annotated(v.annotations, ext, hook) is None,
        !v.cache.contains_key(route_of(ext, hook)),
    ensures
        ({
            let id = route_of(ext, hook);
            let step = RouteStepView::Resolve(id, hook == HOOK_IDENTITY_RESOLVE@);
            let list = chosen(entries, resolved, made);
            let after = remembered(v, id, list);
            let again = remembered(after, id, list);
            &&& next_route_step(v, entries, ext, hook) == step
            &&& after.cache.dom().finite()
            &&& after.cache.dom().len() == (if v.cache.dom().len() < v.max {
                v.cache.dom().len() + 1
            } else {
                v.cache.dom().len()
            })
            &&& next_route_step(after, entries, ext, hook) == (if v.cache.dom().len() < v.max {
                RouteStepView::Done(list)
            } else {
                step
            })
            &&& again.cache == after.cache
        }),
{
    let id = route_of(ext, hook);
    let list = chosen(entries, resolved, made);
    let after = remembered(v, id, list);
    if !is_full(v) {
        assert(after.cache.dom() =~= v.cache.dom().insert(id));
        assert(after.cache.insert(id, list) =~= after.cache);
    }
}

/// A full cache keeps what it has: a route that comes too late is resolved each
/// time, and displaces none.
pub proof fn law_a_full_cache_keeps_what_it_has<F, V>(
    v: EngineView<F, V>,
    id: RouteId,
    list: Seq<EntryView>,
)
    requires
        is_full(v),
    ensures
        remembered(v, id, list).cache == v.cache,
        remembered(v, id, list).warned,
{
}

/// An annotation for a request's scope comes before the one for no scope in
/// particular, and that one serves where there is no other.
pub proof fn law_the_scoped_annotation_wins(
    annotations: Map<RouteId, Seq<EntryView>>,
    ext: Extensions,
    hook: Seq<char>,
)
    requires
        entity_of(ext) is Some,
    ensures
        ({
            let own = route_of(ext, hook);
            let common = RouteId { scope: None, ..own };
            &&& annotations.contains_key(own) ==> annotated(annotations, ext, hook) == Some(
                annotations[own],
            )
            &&& !annotations.contains_key(own) && annotations.contains_key(common) ==> annotated(
                annotations,
                ext,
                hook,
            ) == Some(annotations[common])
            &&& !annotations.contains_key(own) && !annotations.contains_key(common) ==> annotated(
                annotations,
                ext,
                hook,
            ) is None
        }),
{
}

/// A request without a scope is not served by an annotation for one.
pub proof fn law_an_unscoped_request_meets_no_scoped_annotation(
    annotations: Map<RouteId, Seq<EntryView>>,
    ext: Extensions,
    hook: Seq<char>,
    id: RouteId,
    list: Seq<EntryView>,
)
    requires
        scope_of(ext) is None,
        id.scope is Some,
    ensures
        annotated(annotations.insert(id, list), ext, hook) == annotated(annotations, ext, hook),
{
}

/// An annotated route is answered by the handler in charge alone, whatever the
/// document says and whatever is cached.
pub proof fn law_an_annotation_comes_before_all_else<F, V>(
    v: EngineView<F, V>,
    entries: Seq<EntryView>,
    ext: Extensions,
    hook: Seq<char>,
    entry: EntryView,
)
    requires
        entity_of(ext) is Some,
    ensures
        next_route_step(
            EngineView {
                annotations: v.annotations.insert(route_of(ext, hook), seq![entry]),
                ..v
            },
            entries,
            ext,
            hook,
        ) == RouteStepView::Done(seq![entry]),
{
}

/// Taking an annotation away undoes putting it there.
pub proof fn law_removing_an_annotation_undoes_it(
    annotations: Map<RouteId, Seq<EntryView>>,
    id: RouteId,
    list: Seq<EntryView>,
)
    requires
        !annotations.contains_key(id),
    ensures
        annotations.insert(id, list).remove(id) == annotations,
{
    assert(annotations.insert(id, list).remove(id) =~= annotations);
}

/// Nothing that was resolved or annotated before a document was loaded is
/// served after it.
pub proof fn law_a_load_forgets_the_routes_before_it<F, V>(
    v: EngineView<F, V>,
    policy: PolicyView,
    registry: RegistryView,
    entries: Seq<EntryView>,
    ext: Extensions,
    hook: Seq<char>,
)
    ensures
        annotated(loaded(v, policy, registry).annotations, ext, hook) is None,
        policy.plugin_settings.routing_enabled && entity_of(ext) is Some ==> next_route_step(
            loaded(v, policy, registry),
            entries,
            ext,
            hook,
        ) == RouteStepView::Resolve(route_of(ext, hook), hook == HOOK_IDENTITY_RESOLVE@),
{
}

/// Whether the entry `e` stands for the resolved plugin `i`.
pub open spec fn stands_for(
    entries: Seq<EntryView>,
    resolved: Seq<ResolvedPlugin>,
    made: Seq<Option<HookEntry>>,
    e: EntryView,
    i: int,
) -> bool {
    &&& 0 <= i < resolved.len()
    &&& {
        ||| entries.contains(e) && e.plugin_ref.config.name == resolved[i].name@
        ||| resolved[i].config_overrides is Some && opt_entry(made[i]) == Some(e)
    }
}

/// Whether the entry `e` stands for a resolved plugin.
pub open spec fn is_resolved(
    entries: Seq<EntryView>,
    resolved: Seq<ResolvedPlugin>,
    made: Seq<Option<HookEntry>>,
    e: EntryView,
) -> bool {
    exists|i: int| #[trigger] stands_for(entries, resolved, made, e, i)
}

/// A route runs the plugins that it resolves to, and no other: each entry is
/// the base entry of one, or the instance that was made for its overrides.
pub proof fn law_a_route_runs_what_it_resolves_to(
    entries: Seq<EntryView>,
    resolved: Seq<ResolvedPlugin>,
    made: Seq<Option<HookEntry>>,
)
    ensures
        chosen(entries, resolved, made).len() <= resolved.len(),
        forall|k: int|
            0 <= k < chosen(entries, resolved, made).len() ==> is_resolved(
                entries,
                resolved,
                made,
                #[trigger] chosen(entries, resolved, made)[k],
            ),
    decreases resolved.len(),
{
    if resolved.len() > 0 {
        let head = resolved.drop_last();
        law_a_route_runs_what_it_resolves_to(entries, head, made);
        let rest = chosen(entries, head, made);
        let all = chosen(entries, resolved, made);
        let last = resolved.last();
        let n = resolved.len() - 1;
        let p = |i: int| entries[i].plugin_ref.config.name == last.name@;
        text::lemma_first_from_is(p, 0, entries.len() as int);
        let at = name_index(entries, last.name@);
        if at < entries.len() {
            assert(p(at));
            assert(entries.contains(entries[at]));
            assert(stands_for(entries, resolved, made, all[rest.len() as int], n));
        }
        assert forall|k: int| 0 <= k < all.len() implies is_resolved(
            entries,
            resolved,
            made,
            #[trigger] all[k],
        ) by {
            if k < rest.len() {
                assert(all[k] == rest[k]);
                assert(is_resolved(entries, head, made, rest[k]));
                let i = choose|i: int| #[trigger] stands_for(entries, head, made, rest[k], i);
                assert(head[i] == resolved[i]);
                assert(stands_for(entries, resolved, made, all[k], i));
            }
        }
    }
}

/// What is made of a document is made of all its plugins but the last, and the last
/// has a name that is free behind them.
proof fn lemma_all_made_but_one<F: PluginFactory>(
    factories: Map<Seq<char>, F>,
    start: RegistryView,
    first: u64,
    configs: Seq<PluginConfig>,
    made: Seq<PluginInstance>,
)
    requires
        configs.len() > 0,
        all_made(factories, start, first, configs, made),
    ensures
        all_made(factories, start, first, configs.drop_last(), made.drop_last()),
        !stocked(start, first, configs.drop_last(), made.drop_last()).plugins.contains_key(
            configs.last()@.name,
        ),
{
    let cs = configs.drop_last();
    let ms = made.drop_last();
    let n = configs.len() - 1;
    assert(configs.take(n) =~= cs);
    assert(made.take(n) =~= ms);
    assert forall|i: int| 0 <= i < cs.len() implies #[trigger] overrides::makes(
        factories,
        cs[i],
        Ok(ms[i]),
    ) by {
        assert(overrides::makes(factories, configs[i], Ok(made[i])));
    }
    assert forall|i: int| 0 <= i < cs.len() implies !(#[trigger] stocked(
        start,
        first,
        cs.take(i),
        ms.take(i),
    )).plugins.contains_key(cs[i]@.name) by {
        assert(cs.take(i) =~= configs.take(i));
        assert(ms.take(i) =~= made.take(i));
        assert(!stocked(start, first, configs.take(i), made.take(i)).plugins.contains_key(
            configs[i]@.name,
        ));
    }
    assert(!stocked(start, first, configs.take(n), made.take(n)).plugins.contains_key(
        configs[n]@.name,
    ));
}

/// However many plugins a document declares, a registry that was sound before
/// them is sound with them.
pub proof fn law_loading_keeps_the_registry_sound<F: PluginFactory>(
    factories: Map<Seq<char>, F>,
    start: RegistryView,
    first: u64,
    configs: Seq<PluginConfig>,
    made: Seq<PluginInstance>,
)
    requires
        registry::sound(start),
        all_made(factories, start, first, configs, made),
    ensures
        registry::sound(stocked(start, first, configs, made)),
    decreases configs.len(),
{
    if configs.len() > 0 {
        let cs = configs.drop_last();
        let ms = made.drop_last();
        let n = configs.len() - 1;
        lemma_all_made_but_one(factories, start, first, configs, made);
        law_loading_keeps_the_registry_sound(factories, start, first, cs, ms);
        registry::law_registering_keeps_a_registry_sound(
            stocked(start, first, cs, ms),
            RefView {
                id: registry::nth_id(first, n as nat),
                plugin: made.last().plugin,
                config: configs.last()@,
            },
            registry::handler_seq(made.last().handlers@),
        );
    }
}

/// Every plugin that a document declared is registered under its name, and so is
/// every one that was registered before.
proof fn lemma_stocked(
    start: RegistryView,
    first: u64,
    configs: Seq<PluginConfig>,
    made: Seq<PluginInstance>,
)
    requires
        made.len() == configs.len(),
    ensures
        forall|i: int|
            0 <= i < configs.len() ==> stocked(start, first, configs, made).plugins.contains_key(
                (#[trigger] configs[i])@.name,
            ),
        forall|name: Seq<char>| #[trigger]
            start.plugins.contains_key(name) ==> stocked(start, first, configs, made).plugins.contains_key(
                name,
            ),
    decreases configs.len(),
{
    if configs.len() > 0 {
        let head = configs.drop_last();
        let before = stocked(start, first, head, made.drop_last());
        let plugin_ref = RefView {
            id: registry::nth_id(first, head.len()),
            plugin: made.last().plugin,
            config: configs.last()@,
        };
        let handlers = registry::handler_seq(made.last().handlers@);
        registry::lemma_registered_plugins(before, plugin_ref, handlers);
        lemma_stocked(start, first, head, made.drop_last());
        assert forall|i: int| 0 <= i < configs.len() implies stocked(
            start,
            first,
            configs,
            made,
        ).plugins.contains_key((#[trigger] configs[i])@.name) by {
            if i < head.len() {
                assert(head[i] == configs[i]);
            }
        }
    }
}

/// A document that declares a plugin of a kind without a factory never loads:
/// what is not registered is found out at startup.
pub proof fn law_an_unrecognized_kind_never_loads<F: PluginFactory, V>(
    before: EngineView<F, V>,
    policy: PolicyConfig,
    after: EngineView<F, V>,
    i: int,
)
    requires
        0 <= i < policy.plugins@.len(),
        !before.factories.contains_key(policy.plugins@[i]@.kind),
    ensures
        !loads(before, policy, after),
{
    if loads(before, policy, after) {
        let made = choose|made: Seq<PluginInstance>| #[trigger]
            all_made(before.factories, before.registry, before.next_id, policy.plugins@, made)
                && after == loaded(
                drawn(before, policy.plugins@.len()),
                policy@,
                stocked(before.registry, before.next_id, policy.plugins@, made),
            );
        assert(overrides::makes(before.factories, policy.plugins@[i], Ok(made[i])));
    }
}

/// A document never loads that declares a name that is taken: by a plugin that is
/// registered, or by one that the document declares before it.
pub proof fn law_a_taken_name_never_loads<F: PluginFactory, V>(
    before: EngineView<F, V>,
    policy: PolicyConfig,
    after: EngineView<F, V>,
    i: int,
    j: int,
)
    requires
        0 <= j < policy.plugins@.len(),
        before.registry.plugins.contains_key(policy.plugins@[j]@.name) || (0 <= i < j
            && policy.plugins@[i]@.name == policy.plugins@[j]@.name),
    ensures
        !loads(before, policy, after),
{
    if loads(before, policy, after) {
        let configs = policy.plugins@;
        let made = choose|made: Seq<PluginInstance>| #[trigger]
            all_made(before.factories, before.registry, before.next_id, configs, made) && after
                == loaded(
                drawn(before, configs.len()),
                policy@,
                stocked(before.registry, before.next_id, configs, made),
            );
        lemma_stocked(before.registry, before.next_id, configs.take(j), made.take(j));
        if 0 <= i < j {
            assert(configs.take(j)[i] == configs[i]);
        }
        assert(!stocked(
            before.registry,
            before.next_id,
            configs.take(j),
            made.take(j),
        ).plugins.contains_key(configs[j]@.name));
    }
}

/// Whether every id in `list` was given before `next`.
pub open spec fn given(list: Seq<EntryView>, next: u64) -> bool {
    forall|i: int| 0 <= i < list.len() ==> (#[trigger] list[i]).plugin_ref.id < next
}

/// Whether every id in the lists of `routes` was given before `next`.
pub open spec fn routes_given(routes: Map<RouteId, Seq<EntryView>>, next: u64) -> bool {
    forall|r: RouteId| #[trigger] routes.contains_key(r) ==> given(routes[r], next)
}

/// Whether every plugin of a sound registry has an id that was given before `next`,
/// and no two of them the same.
pub open spec fn plugins_given(reg: RegistryView, next: u64) -> bool {
    &&& registry::sound(reg)
    &&& forall|a: Seq<char>| #[trigger] reg.plugins.contains_key(a) ==> reg.plugins[a].id < next
    &&& forall|a: Seq<char>, b: Seq<char>| #[trigger]
        reg.plugins.contains_key(a) && #[trigger] reg.plugins.contains_key(b) && a != b
            ==> reg.plugins[a].id != reg.plugins[b].id
}

/// What holds of the ids in every engine, up to the last id there is: each was given
/// by it, and no two plugins that are registered share one.
pub open spec fn ids_are_given<F, V>(v: EngineView<F, V>) -> bool {
    &&& plugins_given(v.registry, v.next_id)
    &&& routes_given(v.annotations, v.next_id)
    &&& routes_given(v.cache, v.next_id)
}

/// Whether something that the engine holds goes by the id `id`: a plugin that is
/// registered, a handler of one, an annotation or an entry of a route that is kept.
pub open spec fn is_taken<F, V>(v: EngineView<F, V>, id: u64) -> bool {
    ||| exists|a: Seq<char>| #[trigger]
        v.registry.plugins.contains_key(a) && v.registry.plugins[a].id == id
    ||| exists|hook: Seq<char>, i: int|
        0 <= i < registry::entries_of(v.registry, hook).len() && (
        #[trigger] registry::entries_of(v.registry, hook)[i]).plugin_ref.id == id
    ||| exists|r: RouteId, i: int|
        v.annotations.contains_key(r) && 0 <= i < v.annotations[r].len() && (
        #[trigger] v.annotations[r][i]).plugin_ref.id == id
    ||| exists|r: RouteId, i: int|
        v.cache.contains_key(r) && 0 <= i < v.cache[r].len() && (
        #[trigger] v.cache[r][i]).plugin_ref.id == id
}

/// Ids that were given early were given.
proof fn lemma_given_later(list: Seq<EntryView>, a: u64, b: u64)
    requires
        given(list, a),
        a <= b,
    ensures
        given(list, b),
{
    assert forall|i: int| 0 <= i < list.len() implies (#[trigger] list[i]).plugin_ref.id < b by {
        assert(list[i].plugin_ref.id < a);
    }
}

/// An id that is given is new: nothing goes by it, and the next one is another. So an
/// override, which has such an id, is disabled for itself alone, though it may run the
/// plugin of its base; and the ids stay given however many are drawn.
pub proof fn law_an_id_is_given_once<F, V>(v: EngineView<F, V>, n: nat)
    requires
        ids_are_given(v),
        v.next_id + n <= u64::MAX,
    ensures
        !is_taken(v, v.next_id),
        drawn(v, n).next_id == v.next_id + n,
        ids_are_given(drawn(v, n)),
{
    let next = drawn(v, n);
    assert(next.next_id == v.next_id + n);
    assert forall|r: RouteId| #[trigger] v.annotations.contains_key(r) implies given(
        v.annotations[r],
        next.next_id,
    ) by {
        lemma_given_later(v.annotations[r], v.next_id, next.next_id);
    }
    assert forall|r: RouteId| #[trigger] v.cache.contains_key(r) implies given(
        v.cache[r],
        next.next_id,
    ) by {
        lemma_given_later(v.cache[r], v.next_id, next.next_id);
    }
    assert forall|hook: Seq<char>, i: int|
        0 <= i < registry::entries_of(v.registry, hook).len() implies (
    #[trigger] registry::entries_of(v.registry, hook)[i]).plugin_ref.id < v.next_id by {
        assert(registry::all_belong(v.registry, v.registry.hooks[hook]));
        assert(registry::belongs(v.registry, registry::entries_of(v.registry, hook)[i]));
    }
    assert forall|r: RouteId, i: int|
        v.annotations.contains_key(r) && 0 <= i < v.annotations[r].len() implies (
    #[trigger] v.annotations[r][i]).plugin_ref.id < v.next_id by {
        assert(given(v.annotations[r], v.next_id));
    }
    assert forall|r: RouteId, i: int|
        v.cache.contains_key(r) && 0 <= i < v.cache[r].len() implies (
    #[trigger] v.cache[r][i]).plugin_ref.id < v.next_id by {
        assert(given(v.cache[r], v.next_id));
    }
}

/// A registry with one more plugin, under the id that is next.
proof fn lemma_one_more_given(
    reg: RegistryView,
    plugin_ref: RefView,
    handlers: Seq<(Seq<char>, Handle)>,
)
    requires
        plugins_given(reg, plugin_ref.id),
        plugin_ref.id < u64::MAX,
        !reg.plugins.contains_key(plugin_ref.config.name),
    ensures
        plugins_given(
            registry::registered(reg, plugin_ref, handlers),
            (plugin_ref.id + 1) as u64,
        ),
{
    registry::law_registering_keeps_a_registry_sound(reg, plugin_ref, handlers);
    registry::lemma_registered_plugins(reg, plugin_ref, handlers);
}

/// A new engine has given no id, and registering, loading, annotating, resolving and
/// taking away leave every id a given one, up to the last there is.
pub proof fn law_every_id_was_given<F: PluginFactory, V>(
    v: EngineView<F, V>,
    plugin_ref: RefView,
    handlers: Seq<(Seq<char>, Handle)>,
    handler: Handle,
    name: Seq<char>,
    route: RouteId,
    list: Seq<EntryView>,
    executor: ExecutorConfig,
    max: nat,
)
    requires
        ids_are_given(v),
        v.next_id < u64::MAX,
        plugin_ref.id == v.next_id,
        given(list, v.next_id),
    ensures
        ids_are_given(fresh::<F, V>(executor, max)),
        !v.registry.plugins.contains_key(plugin_ref.config.name) ==> ids_are_given(
            cleared(
                restocked(
                    drawn(v, 1),
                    registry::registered(v.registry, plugin_ref, handlers),
                ),
            ),
        ),
        ids_are_given(cleared(restocked(v, registry::unregistered(v.registry, name)))),
        ids_are_given(
            EngineView {
                annotations: v.annotations.insert(
                    route,
                    seq![EntryView { plugin_ref, handler }],
                ),
                generation: bumped(v.generation),
                ..drawn(v, 1)
            },
        ),
        ids_are_given(
            EngineView {
                annotations: v.annotations.remove(route),
                generation: bumped(v.generation),
                ..v
            },
        ),
        ids_are_given(remembered(v, route, list)),
        ids_are_given(cleared(v)),
{
    law_an_id_is_given_once(v, 1);
    registry::law_an_empty_registry_is_sound();
    if !v.registry.plugins.contains_key(plugin_ref.config.name) {
        lemma_one_more_given(v.registry, plugin_ref, handlers);
    }
    registry::law_unregistering_leaves_nothing_behind(v.registry, name);
    let put = v.annotations.insert(route, seq![EntryView { plugin_ref, handler }]);
    assert forall|r: RouteId| #[trigger] put.contains_key(r) implies given(
        put[r],
        (v.next_id + 1) as u64,
    ) by {
        if r != route {
            assert(v.annotations.contains_key(r));
            lemma_given_later(v.annotations[r], v.next_id, (v.next_id + 1) as u64);
        }
    }
    let less = v.annotations.remove(route);
    assert forall|r: RouteId| #[trigger] less.contains_key(r) implies given(
        less[r],
        v.next_id,
    ) by {
        assert(v.annotations.contains_key(r));
    }
    let more = v.cache.insert(route, list);
    assert forall|r: RouteId| #[trigger] more.contains_key(r) implies given(
        more[r],
        v.next_id,
    ) by {
        if r != route {
            assert(v.cache.contains_key(r));
        }
    }
}

/// An engine into which a document is loaded has given every id that its plugins go
/// by.
pub proof fn law_a_load_gives_each_plugin_an_id<F: PluginFactory, V>(
    v: EngineView<F, V>,
    policy: PolicyConfig,
    made: Seq<PluginInstance>,
)
    requires
        ids_are_given(v),
        v.next_id + policy.plugins@.len() <= u64::MAX,
        all_made(v.factories, v.registry, v.next_id, policy.plugins@, made),
    ensures
        ids_are_given(
            loaded(
                drawn(v, policy.plugins@.len()),
                policy@,
                stocked(v.registry, v.next_id, policy.plugins@, made),
            ),
        ),
{
    law_the_plugins_of_a_document_are_told_apart(v.factories, v.registry, v.next_id, policy.plugins@, made);
}

/// However many plugins a document declares, each is registered under an id that none
/// before it has, and that no plugin had that was there.
pub proof fn law_the_plugins_of_a_document_are_told_apart<F: PluginFactory>(
    factories: Map<Seq<char>, F>,
    start: RegistryView,
    first: u64,
    configs: Seq<PluginConfig>,
    made: Seq<PluginInstance>,
)
    requires
        plugins_given(start, first),
        first + configs.len() <= u64::MAX,
        all_made(factories, start, first, configs, made),
    ensures
        plugins_given(
            stocked(start, first, configs, made),
            registry::nth_id(first, configs.len()),
        ),
    decreases configs.len(),
{
    if configs.len() > 0 {
        let cs = configs.drop_last();
        let ms = made.drop_last();
        lemma_all_made_but_one(factories, start, first, configs, made);
        law_the_plugins_of_a_document_are_told_apart(factories, start, first, cs, ms);
        lemma_one_more_given(
            stocked(start, first, cs, ms),
            RefView {
                id: registry::nth_id(first, cs.len()),
                plugin: made.last().plugin,
                config: configs.last()@,
            },
            registry::handler_seq(made.last().handlers@),
        );
    }
}

/// What comes of a route was given where its entries were, and what was made for it.
pub proof fn law_a_route_runs_given_ids(
    entries: Seq<EntryView>,
    resolved: Seq<ResolvedPlugin>,
    made: Seq<Option<HookEntry>>,
    next: u64,
)
    requires
        given(entries, next),
        made.len() == resolved.len(),
        forall|i: int|
            0 <= i < made.len() ==> ((#[trigger] made[i]) matches Some(e) ==> e@.plugin_ref.id
                < next),
    ensures
        given(chosen(entries, resolved, made), next),
{
    let all = chosen(entries, resolved, made);
    law_a_route_runs_what_it_resolves_to(entries, resolved, made);
    assert forall|k: int| 0 <= k < all.len() implies (#[trigger] all[k]).plugin_ref.id < next by {
        assert(is_resolved(entries, resolved, made, all[k]));
        let i = choose|i: int| #[trigger] stands_for(entries, resolved, made, all[k], i);
        if opt_entry(made[i]) == Some(all[k]) {
            assert(made[i] matches Some(e) && e@ == all[k]);
        } else {
            let j = choose|j: int| 0 <= j < entries.len() && entries[j] == all[k];
            assert(entries[j].plugin_ref.id < next);
        }
    }
}

/// The entries of an override share its id, whether it runs an instance of its own or
/// the plugin of its base: what disables one disables all of them. Nothing that the
/// engine held when the id was given goes by it.
pub proof fn law_an_override_is_disabled_as_one<F, V>(
    v: EngineView<F, V>,
    base: Seq<(Seq<char>, EntryView)>,
    handlers: Seq<(Seq<char>, Handle)>,
    plugin_ref: RefView,
    k: int,
)
    requires
        ids_are_given(v),
        v.next_id < u64::MAX,
        plugin_ref.id == v.next_id,
    ensures
        !is_taken(v, plugin_ref.id),
        0 <= k < base.len() ==> overrides::reconfigured(base, plugin_ref)[k].1.plugin_ref.id
            == plugin_ref.id,
        0 <= k < handlers.len() ==> overrides::instance_entries(
            plugin_ref,
            handlers,
        )[k].1.plugin_ref.id == plugin_ref.id,
{
    law_an_id_is_given_once(v, 1);
}

/// A load that succeeds puts the document in force, whatever the engine ran with
/// before: pipelines run with the document's timeout and stop at a denial where the
/// document says so, as many routes are kept as it says, and requests are routed where
/// it says so. What was annotated or kept before is gone, and what the document does
/// not speak of stays: factories, visitors, the transport, and whether the plugins are
/// initialized.
pub proof fn law_a_load_puts_the_document_in_force<F: PluginFactory, V>(
    before: EngineView<F, V>,
    policy: PolicyConfig,
    after: EngineView<F, V>,
    entries: Arc<Vec<HookEntry>>,
    ext: Extensions,
)
    requires
        loads(before, policy, after),
    ensures
        after.executor.timeout_seconds == policy.plugin_settings.plugin_timeout,
        after.executor.short_circuit_on_deny == policy.plugin_settings.short_circuit_on_deny,
        (*entries)@.len() == 0 ==> dispatched(after, entries, ext) == Dispatch::PassThrough(ext),
        (*entries)@.len() > 0 ==> (dispatched(after, entries, ext) matches Dispatch::Run {
            entries: run,
            executor,
            extensions,
        } && run == entries && executor.timeout_seconds == policy.plugin_settings.plugin_timeout
            && executor.short_circuit_on_deny == policy.plugin_settings.short_circuit_on_deny
            && extensions.meta == ext.meta && extensions.http == ext.http && extensions.security
            == ext.security),
        after.max == policy.plugin_settings.route_cache_max_entries,
        after.policy == Some(policy@),
        routes_requests(after.policy) == policy.plugin_settings.routing_enabled,
        forall|id: RouteId| !(#[trigger] after.annotations.contains_key(id)),
        forall|id: RouteId| !(#[trigger] after.cache.contains_key(id)),
        !after.warned,
        after.factories == before.factories,
        after.visitors == before.visitors,
        after.transport == before.transport,
        after.initialized == before.initialized,
        after.generation != before.generation,
        before.generation < u64::MAX ==> after.generation == before.generation + 1,
        before.next_id + policy.plugins@.len() <= u64::MAX ==> after.next_id == before.next_id
            + policy.plugins@.len(),
{
}

/// Whether a plugin of the name `name` has an entry among `entries`.
pub open spec fn is_among(entries: Seq<EntryView>, name: Seq<char>) -> bool {
    exists|j: int| 0 <= j < entries.len() && (#[trigger] entries[j]).plugin_ref.config.name == name
}

/// Whether `e` stands at `j` among `entries`, under the name `name`, with no entry
/// of that name before it.
pub open spec fn is_first_of(
    entries: Seq<EntryView>,
    name: Seq<char>,
    e: EntryView,
    j: int,
) -> bool {
    &&& 0 <= j < entries.len()
    &&& entries[j] == e
    &&& e.plugin_ref.config.name == name
    &&& forall|i: int| 0 <= i < j ==> (#[trigger] entries[i]).plugin_ref.config.name != name
}

/// Whether a resolved plugin runs as `e`: as the instance that was made with what the
/// route overrides, where it overrides anything and one was made; else as the base
/// entry, which is the first of its name.
pub open spec fn runs_as(
    entries: Seq<EntryView>,
    plugin: ResolvedPlugin,
    made: Option<HookEntry>,
    e: EntryView,
) -> bool {
    if plugin.config_overrides is Some && made is Some {
        e == made->Some_0@
    } else {
        exists|j: int| #[trigger] is_first_of(entries, plugin.name@, e, j)
    }
}

/// The place of a name is the first place at which it stands.
proof fn lemma_name_index(entries: Seq<EntryView>, name: Seq<char>)
    ensures
        0 <= name_index(entries, name) <= entries.len(),
        name_index(entries, name) < entries.len() <==> is_among(entries, name),
        is_among(entries, name) ==> is_first_of(
            entries,
            name,
            entries[name_index(entries, name)],
            name_index(entries, name),
        ),
{
    let p = |i: int| entries[i].plugin_ref.config.name == name;
    let n = entries.len() as int;
    text::lemma_first_from_is(p, 0, n);
    let at = name_index(entries, name);
    assert forall|i: int| 0 <= i < at implies (#[trigger] entries[i]).plugin_ref.config.name
        != name by {
        assert(!p(i));
    }
    if at < n {
        assert(p(at));
        assert(entries[at].plugin_ref.config.name == name);
    }
}

/// Which of the resolved plugins have an entry.
pub open spec fn among_at(entries: Seq<EntryView>, resolved: Seq<ResolvedPlugin>) -> spec_fn(
    int,
) -> bool {
    |i: int| is_among(entries, resolved[i].name@)
}

/// Which of the entries belong to plugins that have no conditions or whose conditions
/// hold.
pub open spec fn passes_at(entries: Seq<EntryView>, passes: Seq<bool>) -> spec_fn(int) -> bool {
    |i: int| entries[i].plugin_ref.config.conditions.len() == 0 || passes[i]
}

/// Which of the resolved plugins a route runs, and as what.
proof fn lemma_chosen(
    entries: Seq<EntryView>,
    resolved: Seq<ResolvedPlugin>,
    made: Seq<Option<HookEntry>>,
) -> (at: Seq<int>)
    ensures
        selection::selects(
            at,
            resolved.len() as int,
            among_at(entries, resolved),
        ),
        chosen(entries, resolved, made).len() == at.len(),
        forall|k: int|
            0 <= k < at.len() ==> runs_as(
                entries,
                resolved[at[k]],
                made[at[k]],
                #[trigger] chosen(entries, resolved, made)[k],
            ),
        at.len() == resolved.filter(|p: ResolvedPlugin| is_among(entries, p.name@)).len(),
    decreases resolved.len(),
{
    let keep = among_at(entries, resolved);
    let is_in = |p: ResolvedPlugin| is_among(entries, p.name@);
    reveal(Seq::filter);
    if resolved.len() == 0 {
        selection::lemma_selects_none(keep);
        Seq::empty()
    } else {
        let head = resolved.drop_last();
        let n = head.len() as int;
        let before = lemma_chosen(entries, head, made);
        let rest = chosen(entries, head, made);
        let all = chosen(entries, resolved, made);
        selection::lemma_selects_alike(
            before,
            n,
            among_at(entries, head),
            keep,
        );
        selection::lemma_selects_next(before, n, keep);
        let last = resolved.last();
        lemma_name_index(entries, last.name@);
        assert(resolved[n] == last);
        assert forall|k: int| 0 <= k < before.len() implies runs_as(
            entries,
            resolved[before[k]],
            made[before[k]],
            #[trigger] rest[k],
        ) by {
            assert(head[before[k]] == resolved[before[k]]);
        }
        if is_among(entries, last.name@) {
            assert(keep(n));
            assert(is_in(last));
            assert(runs_as(entries, last, made[n], all[rest.len() as int]));
            let at = before.push(n);
            assert forall|k: int| 0 <= k < at.len() implies runs_as(
                entries,
                resolved[at[k]],
                made[at[k]],
                #[trigger] all[k],
            ) by {
                if k < before.len() {
                    assert(all[k] == rest[k]);
                }
            }
            at
        } else {
            assert(!keep(n));
            assert(!is_in(last));
            before
        }
    }
}

/// Every resolved plugin that is registered for the hook has one entry in what a
/// route runs, and the entries stand in the order of resolution: the k-th stands for
/// the k-th such plugin, and there are as many as there are such plugins.
pub proof fn law_each_resolved_plugin_runs_once_in_order(
    entries: Seq<EntryView>,
    resolved: Seq<ResolvedPlugin>,
    made: Seq<Option<HookEntry>>,
)
    ensures
        chosen(entries, resolved, made).len() == resolved.filter(
            |p: ResolvedPlugin| is_among(entries, p.name@),
        ).len(),
        exists|at: Seq<int>| #[trigger]
            selection::selects(
                at,
                resolved.len() as int,
                among_at(entries, resolved),
            ) && chosen(entries, resolved, made).len() == at.len() && (forall|k: int|
                0 <= k < at.len() ==> runs_as(
                    entries,
                    resolved[at[k]],
                    made[at[k]],
                    #[trigger] chosen(entries, resolved, made)[k],
                )),
{
    let at = lemma_chosen(entries, resolved, made);
}

/// Which of the entries pass.
proof fn lemma_passing(entries: Seq<EntryView>, passes: Seq<bool>) -> (at: Seq<int>)
    ensures
        selection::selects(
            at,
            entries.len() as int,
            passes_at(entries, passes),
        ),
        passing(entries, passes) == at.map_values(|i: int| entries[i]),
    decreases entries.len(),
{
    let keep = passes_at(entries, passes);
    if entries.len() == 0 {
        selection::lemma_selects_none(keep);
        assert(passing(entries, passes) =~= Seq::<int>::empty().map_values(|i: int| entries[i]));
        Seq::empty()
    } else {
        let head = entries.drop_last();
        let n = head.len() as int;
        let before = lemma_passing(head, passes);
        let head_keep = passes_at(head, passes);
        assert forall|i: int| 0 <= i < n implies #[trigger] head_keep(i) == keep(i) by {
            assert(head[i] == entries[i]);
        }
        selection::lemma_selects_alike(before, n, head_keep, keep);
        selection::lemma_selects_next(before, n, keep);
        assert(before.map_values(|i: int| head[i]) =~= before.map_values(|i: int| entries[i]));
        if keep(n) {
            let at = before.push(n);
            assert(at.map_values(|i: int| entries[i]) =~= before.map_values(
                |i: int| entries[i],
            ).push(entries[n]));
            at
        } else {
            before
        }
    }
}

/// Where requests are not routed, the entries that run are those whose plugins have no
/// conditions and those whose conditions hold, each once, in the order in which they
/// stand, and no other.
pub proof fn law_the_entries_that_pass_run_in_order(entries: Seq<EntryView>, passes: Seq<bool>)
    ensures
        exists|at: Seq<int>| #[trigger]
            selection::selects(
                at,
                entries.len() as int,
                passes_at(entries, passes),
            ) && passing(entries, passes) == at.map_values(|i: int| entries[i]),
{
    let at = lemma_passing(entries, passes);
}

/// A request is about an entity where it names both the kind and the name of one, and
/// it has a scope where it names one.
pub proof fn law_what_a_request_is_about(ext: Extensions)
    ensures
        ext.meta is None ==> entity_of(ext) is None && scope_of(ext) is None,
        ext.meta matches Some(m) ==> (entity_of(ext) is Some <==> (m.entity_type is Some
            && m.entity_name is Some)),
        ext.meta matches Some(m) ==> (m.entity_type matches Some(t) ==> (m.entity_name matches Some(
            n,
        ) ==> entity_of(ext) == Some((t@, n@)))),
        ext.meta matches Some(m) ==> (m.scope is None ==> scope_of(ext) is None),
        ext.meta matches Some(m) ==> (m.scope matches Some(s) ==> scope_of(ext) == Some(s@)),
{
}

/// How a request is answered that no annotation is in charge of. Without a document, or
/// with one that does not route, conditions decide. A routed request that is about no
/// entity gets all the entries of the hook. Any other is served what was kept for its
/// kind, name, hook and scope, and where nothing was, that route is to be resolved.
pub proof fn law_how_a_request_is_answered<F, V>(
    v: EngineView<F, V>,
    entries: Seq<EntryView>,
    ext: Extensions,
    hook: Seq<char>,
)
    requires
        annotated(v.annotations, ext, hook) is None,
    ensures
        v.policy is None ==> next_route_step(v, entries, ext, hook)
            == RouteStepView::CheckConditions,
        v.policy matches Some(p) ==> {
            let step = next_route_step(v, entries, ext, hook);
            &&& !p.plugin_settings.routing_enabled ==> step == RouteStepView::CheckConditions
            &&& p.plugin_settings.routing_enabled && entity_of(ext) is None ==> step
                == RouteStepView::Done(entries)
            &&& p.plugin_settings.routing_enabled ==> (entity_of(ext) matches Some((t, n)) ==> {
                let id = RouteId {
                    entity_type: t,
                    entity_name: n,
                    hook_name: hook,
                    scope: scope_of(ext),
                };
                &&& v.cache.contains_key(id) ==> step == RouteStepView::Done(v.cache[id])
                &&& !v.cache.contains_key(id) ==> step == RouteStepView::Resolve(
                    id,
                    hook == HOOK_IDENTITY_RESOLVE@,
                )
            })
        },
{
}

/// No annotation is in charge of a request that is about no entity.
pub proof fn law_a_request_about_nothing_meets_no_annotation(
    annotations: Map<RouteId, Seq<EntryView>>,
    ext: Extensions,
    hook: Seq<char>,
)
    requires
        entity_of(ext) is None,
    ensures
        annotated(annotations, ext, hook) is None,
{
}

/// An annotation for another entity, another hook or another scope changes nothing for
/// a request.
pub proof fn law_an_annotation_elsewhere_changes_nothing(
    annotations: Map<RouteId, Seq<EntryView>>,
    ext: Extensions,
    hook: Seq<char>,
    id: RouteId,
    list: Seq<EntryView>,
)
    requires
        entity_of(ext) matches Some((t, n)) ==> id.entity_type != t || id.entity_name != n
            || id.hook_name != hook || (id.scope is Some && id.scope != scope_of(ext)),
    ensures
        annotated(annotations.insert(id, list), ext, hook) == annotated(annotations, ext, hook),
        annotated(annotations.remove(id), ext, hook) == annotated(annotations, ext, hook),
{
}

/// Keeping a route leaves every other route as it was kept, and leaves all of the engine
/// but the cache and its mark as it is. The mark that the cache is full is set exactly
/// where it is.
pub proof fn law_keeping_a_route_changes_nothing_else<F, V>(
    v: EngineView<F, V>,
    id: RouteId,
    list: Seq<EntryView>,
    other: RouteId,
)
    requires
        other != id,
    ensures
        ({
            let after = remembered(v, id, list);
            &&& v.cache.dom().len() < v.max ==> after.cache.contains_key(id) && after.cache[id]
                == list && after.warned == v.warned
            &&& v.cache.dom().len() >= v.max ==> after.cache == v.cache && after.warned
            &&& after.cache.contains_key(other) <==> v.cache.contains_key(other)
            &&& v.cache.contains_key(other) ==> after.cache[other] == v.cache[other]
            &&& after.registry == v.registry
            &&& after.executor == v.executor
            &&& after.policy == v.policy
            &&& after.max == v.max
            &&& after.annotations == v.annotations
            &&& after.factories == v.factories
            &&& after.initialized == v.initialized
            &&& after.generation == v.generation
            &&& after.visitors == v.visitors
            &&& after.transport == v.transport
            &&& after.next_id == v.next_id
        }),
{
}

/// Clearing the cache forgets every route that was kept and that it was full, and
/// nothing else.
pub proof fn law_clearing_forgets_the_routes_alone<F, V>(v: EngineView<F, V>)
    ensures
        forall|id: RouteId| !(#[trigger] cleared(v).cache.contains_key(id)),
        cleared(v).cache.dom().len() == 0,
        !cleared(v).warned,
        cleared(v).registry == v.registry,
        cleared(v).executor == v.executor,
        cleared(v).policy == v.policy,
        cleared(v).max == v.max,
        cleared(v).annotations == v.annotations,
        cleared(v).factories == v.factories,
        cleared(v).initialized == v.initialized,
        cleared(v).generation == v.generation,
        cleared(v).visitors == v.visitors,
        cleared(v).transport == v.transport,
        cleared(v).next_id == v.next_id,
{
}

/// A change of the plugins moves the generation, and gives or keeps nothing else; ids
/// that are given change the next id alone.
pub proof fn law_a_change_of_the_plugins_moves_the_generation<F, V>(
    v: EngineView<F, V>,
    stock: RegistryView,
    n: nat,
)
    ensures
        ({
            let after = restocked(v, stock);
            &&& after.registry == stock
            &&& after.generation != v.generation
            &&& v.generation < u64::MAX ==> after.generation == v.generation + 1
            &&& after == (EngineView { registry: stock, generation: after.generation, ..v })
        }),
        ({
            let after = drawn(v, n);
            &&& v.next_id + n <= u64::MAX ==> after.next_id == v.next_id + n
            &&& after == (EngineView { next_id: after.next_id, ..v })
        }),
{
}

/// A new engine has no plugin, no document, no annotation, no route, no factory, no
/// visitor and no transport, and is not initialized; it runs pipelines and keeps routes
/// as it was told.
pub proof fn law_a_new_engine_holds_nothing<F, V>(
    executor: ExecutorConfig,
    max: nat,
    name: Seq<char>,
    id: RouteId,
)
    ensures
        ({
            let v = fresh::<F, V>(executor, max);
            &&& v.registry.names.len() == 0
            &&& !v.registry.plugins.contains_key(name)
            &&& registry::entries_of(v.registry, name).len() == 0
            &&& v.executor.timeout_seconds == executor.timeout_seconds
            &&& v.executor.short_circuit_on_deny == executor.short_circuit_on_deny
            &&& v.policy is None
            &&& v.max == max
            &&& !v.annotations.contains_key(id)
            &&& !v.factories.contains_key(name)
            &&& !v.cache.contains_key(id)
            &&& !v.warned
            &&& !v.initialized
            &&& v.generation == 0
            &&& v.visitors.len() == 0
            &&& v.transport is None
        }),
{
}

/// The host's transport is offered to plugins where one is installed; where none is, the
/// slot stays as the request had it. Nothing else of a request changes.
pub proof fn law_the_transport_is_offered_where_there_is_one(
    transport: Option<Handle>,
    ext: Extensions,
)
    ensures
        transport matches Some(t) ==> (with_services(
            transport,
            ext,
        ).http_transport matches ServiceSlot::Available(u) && u == t),
        transport is None ==> with_services(transport, ext).http_transport == ext.http_transport,
        with_services(transport, ext).meta == ext.meta,
        with_services(transport, ext).security == ext.security,
        with_services(transport, ext).raw_credentials == ext.raw_credentials,
        with_services(transport, ext).delegation == ext.delegation,
        with_services(transport, ext).http == ext.http,
{
}

/// What was initialized is shut down the last first, each plugin once.
pub proof fn law_what_was_initialized_is_shut_down_backwards(items: Seq<InitItem>, k: int)
    requires
        0 <= k < items.len(),
    ensures
        backwards(items).len() == items.len(),
        backwards(items)[k] == items[items.len() - 1 - k].plugin,
{
}

/// A key is gathered exactly where it is known or a visitor declares it.
pub proof fn law_a_key_is_gathered_where_it_is_known_or_declared(
    known: Seq<Seq<char>>,
    extra: Seq<Vec<String>>,
    key: Seq<char>,
)
    ensures
        gathered(known, extra).contains(key) <==> (known.contains(key) || exists|i: int|
            0 <= i < extra.len() && value::text_seq((#[trigger] extra[i])@).contains(key)),
    decreases extra.len(),
{
    if extra.len() > 0 {
        let head = extra.drop_last();
        law_a_key_is_gathered_where_it_is_known_or_declared(known, head, key);
        let a = gathered(known, head);
        let b = value::text_seq(extra.last()@);
        let all = gathered(known, extra);
        if all.contains(key) {
            let i = choose|i: int| 0 <= i < all.len() && all[i] == key;
            if i < a.len() {
                assert(a[i] == key);
                if !known.contains(key) {
                    let j = choose|j: int|
                        0 <= j < head.len() && value::text_seq((#[trigger] head[j])@).contains(key);
                    assert(value::text_seq(extra[j]@).contains(key));
                }
            } else {
                assert(b[i - a.len()] == key);
                assert(value::text_seq(extra[extra.len() - 1]@).contains(key));
            }
        }
        if a.contains(key) {
            let i = choose|i: int| 0 <= i < a.len() && a[i] == key;
            assert(all[i] == key);
        }
        if b.contains(key) {
            let i = choose|i: int| 0 <= i < b.len() && b[i] == key;
            assert(all[a.len() + i] == key);
        }
        if exists|i: int|
            0 <= i < extra.len() && value::text_seq((#[trigger] extra[i])@).contains(key) {
            let j = choose|j: int|
                0 <= j < extra.len() && value::text_seq((#[trigger] extra[j])@).contains(key);
            if j < head.len() {
                assert(value::text_seq(head[j]@).contains(key));
            }
        }
    }
}

/// One more plugin of a document is registered behind the others, with the id behind
/// theirs, the configuration that the document gives it and every handler that its
/// factory made.
pub proof fn law_one_more_declared_plugin_is_registered(
    start: RegistryView,
    first: u64,
    configs: Seq<PluginConfig>,
    made: Seq<PluginInstance>,
    config: PluginConfig,
    instance: PluginInstance,
)
    requires
        made.len() == configs.len(),
    ensures
        stocked(start, first, Seq::empty(), Seq::empty()) == start,
        stocked(start, first, configs.push(config), made.push(instance)) == registry::registered(
            stocked(start, first, configs, made),
            RefView {
                id: registry::nth_id(first, configs.len()),
                plugin: instance.plugin,
                config: config@,
            },
            instance.handlers@.map_values(|h: (String, Handle)| (h.0@, h.1)),
        ),
{
    assert(configs.push(config).drop_last() =~= configs);
    assert(made.push(instance).drop_last() =~= made);
}

/// What the plugins of a document come to: the names behind those that were there, each
/// under what was made of it.
proof fn lemma_stocked_plugins(
    start: RegistryView,
    first: u64,
    configs: Seq<PluginConfig>,
    made: Seq<PluginInstance>,
)
    requires
        made.len() == configs.len(),
    ensures
        stocked(start, first, configs, made).names == start.names + config::config_seq(
            configs,
        ).map_values(|c: ConfigView| c.name),
        forall|name: Seq<char>| #[trigger]
            stocked(start, first, configs, made).plugins.contains_key(name) <==> (
            start.plugins.contains_key(name) || exists|i: int|
                0 <= i < configs.len() && (#[trigger] configs[i])@.name == name),
        forall|name: Seq<char>|
            #![trigger stocked(start, first, configs, made).plugins[name]]
            (forall|i: int| 0 <= i < configs.len() ==> (#[trigger] configs[i])@.name != name)
                ==> stocked(start, first, configs, made).plugins[name] == start.plugins[name],
    decreases configs.len(),
{
    let after = stocked(start, first, configs, made);
    let names = config::config_seq(configs).map_values(|c: ConfigView| c.name);
    if configs.len() == 0 {
        assert(after.names =~= start.names + names);
    } else {
        let head = configs.drop_last();
        let last = configs.last();
        let before = stocked(start, first, head, made.drop_last());
        let plugin_ref = RefView {
            id: registry::nth_id(first, head.len()),
            plugin: made.last().plugin,
            config: last@,
        };
        let handlers = registry::handler_seq(made.last().handlers@);
        registry::lemma_registered_plugins(before, plugin_ref, handlers);
        lemma_stocked_plugins(start, first, head, made.drop_last());
        let short = config::config_seq(head).map_values(|c: ConfigView| c.name);
        assert(names =~= short.push(last@.name));
        assert(after.names =~= start.names + names);
        assert forall|name: Seq<char>| #[trigger] after.plugins.contains_key(name) <==> (
        start.plugins.contains_key(name) || exists|i: int|
            0 <= i < configs.len() && (#[trigger] configs[i])@.name == name) by {
            if name == last@.name {
                assert(configs[configs.len() - 1]@.name == name);
            } else {
                assert(after.plugins.contains_key(name) == before.plugins.contains_key(name));
                if exists|i: int| 0 <= i < configs.len() && (#[trigger] configs[i])@.name == name {
                    let i = choose|i: int|
                        0 <= i < configs.len() && (#[trigger] configs[i])@.name == name;
                    assert(head[i]@.name == name);
                }
                if exists|i: int| 0 <= i < head.len() && (#[trigger] head[i])@.name == name {
                    let i = choose|i: int|
                        0 <= i < head.len() && (#[trigger] head[i])@.name == name;
                    assert(configs[i]@.name == name);
                }
            }
        }
        assert forall|name: Seq<char>|
            #![trigger after.plugins[name]]
            (forall|i: int| 0 <= i < configs.len() ==> (#[trigger] configs[i])@.name
                != name) implies after.plugins[name] == start.plugins[name] by {
            assert(configs[configs.len() - 1]@.name != name);
            assert forall|i: int| 0 <= i < head.len() implies (#[trigger] head[i])@.name
                != name by {
                assert(configs[i]@.name != name);
            }
        }
    }
}

/// The plugin that a document declares at `i` is registered as it was made.
proof fn lemma_stocked_at(
    start: RegistryView,
    first: u64,
    configs: Seq<PluginConfig>,
    made: Seq<PluginInstance>,
    i: int,
)
    requires
        made.len() == configs.len(),
        0 <= i < configs.len(),
        forall|j: int| i < j < configs.len() ==> (#[trigger] configs[j])@.name != configs[i]@.name,
    ensures
        stocked(start, first, configs, made).plugins[configs[i]@.name] == (RefView {
            id: registry::nth_id(first, i as nat),
            plugin: made[i].plugin,
            config: configs[i]@,
        }),
    decreases configs.len(),
{
    let head = configs.drop_last();
    let before = stocked(start, first, head, made.drop_last());
    let plugin_ref = RefView {
        id: registry::nth_id(first, head.len()),
        plugin: made.last().plugin,
        config: configs.last()@,
    };
    registry::lemma_registered_plugins(
        before,
        plugin_ref,
        registry::handler_seq(made.last().handlers@),
    );
    if i < head.len() {
        assert(configs[configs.len() - 1]@.name != configs[i]@.name);
        assert forall|j: int| i < j < head.len() implies (#[trigger] head[j])@.name
            != head[i]@.name by {
            assert(configs[j]@.name != configs[i]@.name);
        }
        lemma_stocked_at(start, first, head, made.drop_last(), i);
    }
}

/// A load that succeeds registers the plugins that the document declares, in the order
/// in which it does, behind those that were there: each under its name, with its own
/// configuration, as what the factory for its kind made of it. Those that were there
/// stay as they were.
pub proof fn law_a_load_registers_what_is_declared<F: PluginFactory, V>(
    before: EngineView<F, V>,
    policy: PolicyConfig,
    after: EngineView<F, V>,
    i: int,
    name: Seq<char>,
)
    requires
        loads(before, policy, after),
        0 <= i < policy.plugins@.len(),
    ensures
        after.registry.names.len() == before.registry.names.len() + policy.plugins@.len(),
        after.registry.names[before.registry.names.len() + i] == policy.plugins@[i]@.name,
        after.registry.names.take(before.registry.names.len() as int) == before.registry.names,
        !before.registry.plugins.contains_key(policy.plugins@[i]@.name),
        after.registry.plugins.contains_key(policy.plugins@[i]@.name),
        after.registry.plugins[policy.plugins@[i]@.name].config == policy.plugins@[i]@,
        exists|made: PluginInstance| #[trigger]
            overrides::makes(before.factories, policy.plugins@[i], Ok(made))
                && after.registry.plugins[policy.plugins@[i]@.name].plugin == made.plugin,
        before.registry.plugins.contains_key(name) ==> after.registry.plugins.contains_key(name)
            && after.registry.plugins[name] == before.registry.plugins[name],
        after.registry.plugins.contains_key(name) ==> before.registry.plugins.contains_key(name)
            || exists|j: int|
            0 <= j < policy.plugins@.len() && (#[trigger] policy.plugins@[j])@.name == name,
{
    let configs = policy.plugins@;
    let start = before.registry;
    let first = before.next_id;
    let made = choose|made: Seq<PluginInstance>| #[trigger]
        all_made(before.factories, start, first, configs, made) && after == loaded(
            drawn(before, configs.len()),
            policy@,
            stocked(start, first, configs, made),
        );
    lemma_stocked_plugins(start, first, configs, made);
    assert(after.registry.names.take(start.names.len() as int) =~= start.names);
    assert forall|j: int, k: int| 0 <= j < k < configs.len() implies (
    #[trigger] configs[k])@.name != (#[trigger] configs[j])@.name by {
        lemma_stocked(start, first, configs.take(k), made.take(k));
        assert(configs.take(k)[j] == configs[j]);
        assert(!stocked(start, first, configs.take(k), made.take(k)).plugins.contains_key(
            configs[k]@.name,
        ));
    }
    assert forall|k: int| 0 <= k < configs.len() implies !start.plugins.contains_key(
        (#[trigger] configs[k])@.name,
    ) by {
        lemma_stocked(start, first, configs.take(k), made.take(k));
        assert(!stocked(start, first, configs.take(k), made.take(k)).plugins.contains_key(
            configs[k]@.name,
        ));
    }
    lemma_stocked_at(start, first, configs, made, i);
    assert(overrides::makes(before.factories, configs[i], Ok(made[i])));
    if start.plugins.contains_key(name) {
        assert forall|k: int| 0 <= k < configs.len() implies (#[trigger] configs[k])@.name
            != name by {
            assert(!start.plugins.contains_key(configs[k]@.name));
        }
        assert(after.registry.plugins[name] == start.plugins[name]);
    }
}

/// Whether the plugin that a document declares at `k` is why it is refused with `e`:
/// those before it have a factory, and it has none, or its factory refuses it, or its
/// name is taken by a plugin that was there or by one that the document declares before
/// it.
pub open spec fn is_at_fault<F: PluginFactory, V>(
    before: EngineView<F, V>,
    policy: PolicyConfig,
    e: PluginError,
    k: int,
) -> bool {
    let configs = policy.plugins@;
    &&& 0 <= k < configs.len()
    &&& forall|j: int|
        0 <= j < k ==> before.factories.contains_key((#[trigger] configs[j])@.kind)
            && !before.registry.plugins.contains_key(configs[j]@.name)
    &&& forall|i: int, j: int|
        0 <= i < j < k ==> (#[trigger] configs[i])@.name != (#[trigger] configs[j])@.name
    &&& {
        ||| !before.factories.contains_key(configs[k]@.kind) && error::is_config_error(
            e,
            "no factory registered for plugin kind '"@ + configs[k]@.kind + "' (plugin '"@
                + configs[k]@.name + "')"@,
        )
        ||| overrides::makes(before.factories, configs[k], Err(e))
        ||| before.factories.contains_key(configs[k]@.kind) && (
        before.registry.plugins.contains_key(configs[k]@.name) || exists|j: int|
            0 <= j < k && (#[trigger] configs[j])@.name == configs[k]@.name)
            && error::is_config_error(
            e,
            "plugin '"@ + configs[k]@.name + "' is already registered"@,
        )
    }
}

/// A document is refused for the first of its plugins that does not come to one.
pub proof fn law_a_refused_load_is_refused_for_a_plugin<F: PluginFactory, V>(
    before: EngineView<F, V>,
    policy: PolicyConfig,
    e: PluginError,
)
    requires
        load_refused(before, policy, e),
    ensures
        exists|k: int| is_at_fault(before, policy, e, k),
{
    let configs = policy.plugins@;
    let start = before.registry;
    let first = before.next_id;
    let made = choose|made: Seq<PluginInstance>| #[trigger]
        fails_behind(before.factories, start, first, configs, made, e);
    let k = made.len() as int;
    let cs = configs.take(k);
    lemma_stocked_plugins(start, first, cs, made);
    assert forall|j: int| 0 <= j < k implies before.factories.contains_key(
        (#[trigger] configs[j])@.kind,
    ) && !start.plugins.contains_key(configs[j]@.name) by {
        assert(overrides::makes(before.factories, cs[j], Ok(made[j])));
        assert(cs[j] == configs[j]);
        lemma_stocked(start, first, cs.take(j), made.take(j));
        assert(!stocked(start, first, cs.take(j), made.take(j)).plugins.contains_key(
            cs[j]@.name,
        ));
    }
    assert forall|i: int, j: int| 0 <= i < j < k implies (#[trigger] configs[i])@.name != (
    #[trigger] configs[j])@.name by {
        lemma_stocked(start, first, cs.take(j), made.take(j));
        assert(cs.take(j)[i] == configs[i]);
        assert(!stocked(start, first, cs.take(j), made.take(j)).plugins.contains_key(
            cs[j]@.name,
        ));
    }
    if exists|j: int| 0 <= j < cs.len() && (#[trigger] cs[j])@.name == configs[k]@.name {
        let j = choose|j: int| 0 <= j < cs.len() && (#[trigger] cs[j])@.name == configs[k]@.name;
        assert(configs[j]@.name == configs[k]@.name);
    }
    assert(is_at_fault(before, policy, e, k));
}

/// Whether one of `extra` holds the key `key`.
pub open spec fn is_declared(extra: Seq<Vec<String>>, key: Seq<char>) -> bool {
    exists|v: int| 0 <= v < extra.len() && value::text_seq((#[trigger] extra[v])@).contains(key)
}

/// What the visitors declare is what each of them says when it is asked, from the first to
/// the last.
pub proof fn law_every_visitor_is_asked_for_its_keys<V: ConfigVisitor>(
    visitors: Seq<Arc<V>>,
    extra: Seq<Vec<String>>,
    v: int,
)
    requires
        declared(visitors, extra),
    ensures
        extra.len() == visitors.len(),
        0 <= v < visitors.len() ==> call_ensures(
            V::extra_route_keys,
            (&*visitors[v],),
            extra[v],
        ),
{
    if 0 <= v < visitors.len() {
        assert(call_ensures(V::extra_route_keys, (&*visitors[v],), extra[v]));
    }
}

/// Whether `extra` is what the visitors say, and every key of every route that is text is
/// known or among it.
pub open spec fn covers<V: ConfigVisitor>(
    visitors: Seq<Arc<V>>,
    known: Seq<Seq<char>>,
    routes: Seq<Yaml>,
    extra: Seq<Vec<String>>,
) -> bool {
    &&& declared(visitors, extra)
    &&& forall|i: int, j: int|
        #![trigger visitor::keys_of(routes[i])[j]]
        0 <= i < routes.len() && 0 <= j < visitor::keys_of(routes[i]).len() ==> (yaml::text_of(
            visitor::keys_of(routes[i])[j].0,
        ) matches Some(t) ==> known.contains(t) || is_declared(extra, t))
}

/// Whether `extra` is what the visitors say, and the key `j` of the route `i` is text that
/// is neither known nor among it.
pub open spec fn leaves_out<V: ConfigVisitor>(
    visitors: Seq<Arc<V>>,
    known: Seq<Seq<char>>,
    routes: Seq<Yaml>,
    extra: Seq<Vec<String>>,
    i: int,
    j: int,
) -> bool {
    &&& declared(visitors, extra)
    &&& 0 <= i < routes.len()
    &&& 0 <= j < visitor::keys_of(routes[i]).len()
    &&& yaml::text_of(visitor::keys_of(routes[i])[j].0) matches Some(t) && !known.contains(t)
        && !is_declared(extra, t)
}

/// A document is read exactly where each key of its routes that is text is known or is
/// declared by a visitor; it is refused for a key that is neither.
pub proof fn law_a_document_is_read_where_its_keys_are_known<V: ConfigVisitor>(
    visitors: Seq<Arc<V>>,
    known: Seq<Seq<char>>,
    raw: Yaml,
    e: PluginError,
)
    ensures
        keys_recognized(visitors, known, raw) <==> exists|extra: Seq<Vec<String>>| #[trigger]
            covers(visitors, known, visitor::routes_of(raw), extra),
        key_refused(visitors, known, raw, e) ==> exists|extra: Seq<Vec<String>>, i: int, j: int|
            #[trigger] leaves_out(visitors, known, visitor::routes_of(raw), extra, i, j),
{
    let routes = visitor::routes_of(raw);
    let n = routes.len() as int;
    assert forall|extra: Seq<Vec<String>>, key: Seq<char>| #[trigger]
        gathered(known, extra).contains(key) <==> (known.contains(key) || is_declared(
        extra,
        key,
    )) by {
        law_a_key_is_gathered_where_it_is_known_or_declared(known, extra, key);
    }
    if keys_recognized(visitors, known, raw) {
        let extra = choose|extra: Seq<Vec<String>>| #[trigger]
            declared(visitors, extra) && visitor::routes_known_up_to(
                gathered(known, extra),
                routes,
                n,
            );
        visitor::law_keys_are_known_by_their_text(gathered(known, extra), routes);
        assert(covers(visitors, known, routes, extra));
    }
    if exists|extra: Seq<Vec<String>>| #[trigger] covers(visitors, known, routes, extra) {
        let extra = choose|extra: Seq<Vec<String>>| #[trigger]
            covers(visitors, known, routes, extra);
        visitor::law_keys_are_known_by_their_text(gathered(known, extra), routes);
        assert(declared(visitors, extra));
    }
    if key_refused(visitors, known, raw, e) {
        let (extra, i, j) = choose|extra: Seq<Vec<String>>, i: int, j: int|
            #![trigger visitor::unknown_at(gathered(known, extra), routes, e, i, j)]
            declared(visitors, extra) && visitor::unknown_at(
                gathered(known, extra),
                routes,
                e,
                i,
                j,
            );
        assert(leaves_out(visitors, known, routes, extra, i, j));
    }
}

} // verus!
