//! What a route overrides in the configuration of a plugin.
use crate::documents;
use crate::factory::{PluginFactory, PluginFactoryRegistry, PluginInstance};
use crate::error::PluginError;
use crate::host::{InitExtensions, ServiceSlot, HTTP_CAPABILITY};
use crate::plugin;
use crate::plugin::{ConfigView, Handle, OnError, PluginConfig};
use crate::registry;
use crate::registry::{EntryView, HookEntry, PluginRef, RefView};
use crate::text;
use crate::value;
use crate::value::{Json, TextMap, TextSet, Tree};
use crate::yaml::YamlTree;
use std::sync::Arc;
use vstd::prelude::*;

verus! {

/// A plugin's settings once a route's overrides are merged into them. Where
/// both are objects, the keys of the overrides win; settings of another shape
/// are kept; where there were none, the overrides stand.
pub open spec fn merged_settings(base: Option<Tree>, overrides: Tree) -> Option<Tree> {
    match overrides {
        Tree::Object(top) => if top.contains_key("config"@) {
            match base {
                Some(b) => match (b, top["config"@]) {
                    (Tree::Object(under), Tree::Object(over)) => Some(
                        Tree::Object(under.union_prefer_right(over)),
                    ),
                    _ => base,
                },
                None => Some(top["config"@]),
            }
        } else {
            base
        },
        _ => base,
    }
}

/// A plugin's configuration once a route's overrides are merged into it.
pub open spec fn merged_config(base: ConfigView, overrides: Tree) -> ConfigView {
    ConfigView { config: merged_settings(base.config, overrides), ..base }
}

/// Merges a route's overrides into a plugin's settings.
fn merge_settings(base: &Option<Json>, overrides: &Json) -> (r: Option<Json>)
    ensures
        plugin::opt_tree(r) == merged_settings(plugin::opt_tree(*base), overrides.tree()),
{
    proof {
        value::lemma_tree(*overrides);
    }
    let top = match overrides {
        Json::Object(top) => top,
        _ => {
            return copy_settings(base);
        },
    };
    let over = match top.get("config") {
        Some(over) => over,
        None => {
            return copy_settings(base);
        },
    };
    assert(top.trees()["config"@] == over.tree());
    let under = match base {
        Some(under) => under,
        None => {
            return Some(over.clone());
        },
    };
    proof {
        value::lemma_tree(*over);
        value::lemma_tree(*under);
    }
    match (under, over) {
        (Json::Object(u), Json::Object(o)) => {
            let mut m: TextMap<Json> = u.clone();
            assert(m.trees() =~= u.trees());
            value::overlay(&mut m, o);
            let r = Json::Object(m);
            proof {
                value::lemma_tree(r);
            }
            Some(r)
        },
        _ => copy_settings(base),
    }
}

/// A copy of a plugin's settings.
fn copy_settings(base: &Option<Json>) -> (r: Option<Json>)
    ensures
        plugin::opt_tree(r) == plugin::opt_tree(*base),
{
    match base {
        Some(v) => Some(v.clone()),
        None => None,
    }
}

/// A plugin's configuration with a route's overrides merged into it.
pub fn merge_config(base: &PluginConfig, overrides: &Json) -> (r: PluginConfig)
    ensures
        r@ == merged_config(base@, overrides.tree()),
{
    let mut merged = base.clone();
    merged.config = merge_settings(&base.config, overrides);
    merged
}

/// A plugin's configuration with parts of it replaced whole.
pub open spec fn replaced_config(
    base: ConfigView,
    settings: Option<Tree>,
    capabilities: Option<Set<Seq<char>>>,
    on_error: Option<OnError>,
) -> ConfigView {
    ConfigView {
        config: if settings is Some {
            settings
        } else {
            base.config
        },
        capabilities: match capabilities {
            Some(c) => c,
            None => base.capabilities,
        },
        on_error: match on_error {
            Some(e) => e,
            None => base.on_error,
        },
        ..base
    }
}

/// What a set of capabilities is, where there is one.
pub open spec fn opt_set(o: Option<&TextSet>) -> Option<Set<Seq<char>>> {
    match o {
        Some(s) => Some(s@),
        None => None,
    }
}

/// The shape of settings, where there are any.
pub open spec fn opt_settings(o: Option<&Json>) -> Option<Tree> {
    match o {
        Some(v) => Some(v.tree()),
        None => None,
    }
}

/// A plugin's configuration with parts of it replaced.
pub fn replace_config(
    base: &PluginConfig,
    settings: Option<&Json>,
    capabilities: Option<&TextSet>,
    on_error: Option<OnError>,
) -> (r: PluginConfig)
    ensures
        r@ == replaced_config(base@, opt_settings(settings), opt_set(capabilities), on_error),
{
    let mut merged = base.clone();
    match capabilities {
        Some(c) => {
            merged.capabilities = c.clone();
        },
        None => {},
    }
    match on_error {
        Some(e) => {
            merged.on_error = e;
        },
        None => {},
    }
    match settings {
        Some(v) => {
            merged.config = Some(v.clone());
        },
        None => {},
    }
    merged
}

/// How the host's HTTP transport looks to a plugin with these capabilities.
pub open spec fn slot_for(transport: Option<Handle>, capabilities: Set<Seq<char>>) -> ServiceSlot<
    Handle,
> {
    match transport {
        None => ServiceSlot::NotInstalled,
        Some(t) => if capabilities.contains(HTTP_CAPABILITY@) {
            ServiceSlot::Available(t)
        } else {
            ServiceSlot::NotPermitted
        },
    }
}

/// The services that a plugin with these capabilities is handed.
pub fn services_for(transport: Option<Handle>, capabilities: &TextSet) -> (r: InitExtensions)
    ensures
        r.slot() == slot_for(transport, capabilities@),
{
    let ext = InitExtensions::new();
    match transport {
        None => ext,
        Some(t) => if capabilities.contains(HTTP_CAPABILITY) {
            ext.with_http(t)
        } else {
            ext.with_http_withheld()
        },
    }
}

/// Which of the handlers stand under `hook`.
pub open spec fn handled_at(handlers: Seq<(Seq<char>, Handle)>, hook: Seq<char>) -> spec_fn(
    int,
) -> bool {
    |i: int| handlers[i].0 == hook
}

/// The handler for `hook`, where there is one: the first.
pub open spec fn handler_for(handlers: Seq<(Seq<char>, Handle)>, hook: Seq<char>) -> Option<Handle> {
    let i = text::first_where(handled_at(handlers, hook), handlers.len() as int);
    if i < handlers.len() {
        Some(handlers[i].1)
    } else {
        None
    }
}

/// The handler for `hook`, where there is one.
pub fn find_handler(handlers: &Vec<(String, Handle)>, hook: &str) -> (r: Option<Handle>)
    ensures
        r == handler_for(registry::handler_seq(handlers@), hook@),
{
    let ghost views = registry::handler_seq(handlers@);
    let ghost p = handled_at(views, hook@);
    let mut i: usize = 0;
    while i < handlers.len()
        invariant
            i <= handlers@.len(),
            views == registry::handler_seq(handlers@),
            p == handled_at(views, hook@),
            forall|k: int| 0 <= k < i ==> !#[trigger] p(k),
        decreases handlers@.len() - i,
    {
        if text::same(handlers[i].0.as_str(), hook) {
            proof {
                assert(p(i as int));
                text::lemma_first_from(p, 0, handlers@.len() as int, i as int);
            }
            return Some(handlers[i].1);
        }
        i += 1;
    }
    proof {
        text::lemma_first_from(p, 0, handlers@.len() as int, i as int);
    }
    None
}

/// Whether `r` is what the factory for a configuration's kind may make of it.
pub open spec fn makes<F: PluginFactory>(
    factories: Map<Seq<char>, F>,
    config: PluginConfig,
    r: Result<PluginInstance, PluginError>,
) -> bool {
    &&& factories.contains_key(config@.kind)
    &&& call_ensures(F::create, (&factories[config@.kind], &config), r)
}

/// An instance that was made for a route and is still to be initialized.
#[derive(Debug)]
pub struct PendingOverride {
    /// The id of its reference.
    pub id: u64,
    /// The plugin.
    pub plugin: Handle,
    /// Its handler for the hook.
    pub handler: Handle,
    /// The configuration it was made with.
    pub config: PluginConfig,
    /// The services to initialize it with.
    pub services: InitExtensions,
}

/// Whether `pending` is made of an instance for `hook`.
pub open spec fn is_pending(
    pending: PendingOverride,
    id: u64,
    instance: PluginInstance,
    config: ConfigView,
    hook: Seq<char>,
    transport: Option<Handle>,
) -> bool {
    &&& pending.id == id
    &&& pending.plugin == instance.plugin
    &&& Some(pending.handler) == handler_for(registry::handler_seq(instance.handlers@), hook)
    &&& pending.config@ == config
    &&& pending.services.slot() == slot_for(transport, config.capabilities)
}

/// Whether there is nothing to run in the place of the base instance: no
/// factory for its kind, or one that refuses the configuration, or an instance
/// without a handler for the hook.
pub open spec fn falls_back<F: PluginFactory>(
    factories: Map<Seq<char>, F>,
    config: ConfigView,
    hook: Seq<char>,
) -> bool {
    ||| !factories.contains_key(config.kind)
    ||| exists|c: PluginConfig, e: PluginError|
        c@ == config && #[trigger] makes(factories, c, Err(e))
    ||| exists|c: PluginConfig, i: PluginInstance|
        c@ == config && #[trigger] makes(factories, c, Ok(i)) && handler_for(
            registry::handler_seq(i.handlers@),
            hook,
        ) is None
}

/// Makes an instance with a route's overrides for the hook `hook`, out of the
/// base entry. What comes back is still to be initialized with the services it
/// carries. `id` is a new one. `None` where the base entry has to serve.
pub fn prepare_override<F: PluginFactory>(
    factories: &PluginFactoryRegistry<F>,
    transport: Option<Handle>,
    id: u64,
    base: &HookEntry,
    hook: &str,
    overrides: &Json,
) -> (r: Option<PendingOverride>)
    ensures
        match r {
            Some(p) => exists|c: PluginConfig, i: PluginInstance|
                c@ == merged_config(base@.plugin_ref.config, overrides.tree()) && #[trigger] makes(
                    factories@,
                    c,
                    Ok(i),
                ) && is_pending(p, id, i, c@, hook@, transport),
            None => falls_back(
                factories@,
                merged_config(base@.plugin_ref.config, overrides.tree()),
                hook@,
            ),
        },
{
    let config = merge_config(base.plugin_ref.trusted_config(), overrides);
    let factory = match factories.get(config.kind.as_str()) {
        Some(f) => f,
        None => {
            return None;
        },
    };
    let made = factory.create(&config);
    assert(makes(factories@, config, made));
    match made {
        Err(e) => {
            assert(makes(factories@, config, Err(e)));
            None
        },
        Ok(instance) => {
            assert(makes(factories@, config, Ok(instance)));
            match find_handler(&instance.handlers, hook) {
                None => None,
                Some(handler) => {
                    let services = services_for(transport, &config.capabilities);
                    let ghost given = config;
                    let p = PendingOverride {
                        id,
                        plugin: instance.plugin,
                        handler,
                        config,
                        services,
                    };
                    assert(is_pending(p, id, instance, given@, hook@, transport));
                    Some(p)
                },
            }
        },
    }
}

/// The entry that a pending instance becomes once the host has tried to
/// initialize it: none where that failed, so that the base entry serves. It has
/// a reference of its own, under the id of the instance: a failure on one route
/// does not disable the plugin on another.
pub fn finish_override(pending: PendingOverride, initialized: bool) -> (r: Option<HookEntry>)
    ensures
        match r {
            Some(e) => initialized && e@ == (EntryView {
                plugin_ref: RefView {
                    id: pending.id,
                    plugin: pending.plugin,
                    config: pending.config@,
                },
                handler: pending.handler,
            }),
            None => !initialized,
        },
{
    if !initialized {
        return None;
    }
    let handler = pending.handler;
    let plugin_ref = Arc::new(PluginRef::new(pending.id, pending.plugin, pending.config));
    Some(HookEntry { plugin_ref, handler })
}

/// An instance that was made for an orchestrator and is still to be
/// initialized.
#[derive(Debug)]
pub struct PendingInstance {
    /// The id of its reference.
    pub id: u64,
    /// The plugin.
    pub plugin: Handle,
    /// Its handlers, with their hooks.
    pub handlers: Vec<(String, Handle)>,
    /// The configuration it was made with.
    pub config: PluginConfig,
    /// The services to initialize it with.
    pub services: InitExtensions,
}

/// What comes of overriding a plugin for an orchestrator.
#[derive(Debug)]
pub enum OverrideStep {
    /// The entries, which may be none.
    Ready(Vec<(String, HookEntry)>),
    /// An instance to initialize first.
    Initialize(PendingInstance),
}

/// `entries` with the plugin that they share given another configuration.
pub open spec fn reconfigured(
    entries: Seq<(Seq<char>, EntryView)>,
    plugin_ref: RefView,
) -> Seq<(Seq<char>, EntryView)> {
    entries.map_values(
        |p: (Seq<char>, EntryView)| (p.0, EntryView { plugin_ref, handler: p.1.handler }),
    )
}

/// The entries of an instance, one for each of its handlers.
pub open spec fn instance_entries(
    plugin_ref: RefView,
    handlers: Seq<(Seq<char>, Handle)>,
) -> Seq<(Seq<char>, EntryView)> {
    handlers.map_values(
        |h: (Seq<char>, Handle)| (h.0, EntryView { plugin_ref, handler: h.1 }),
    )
}

/// Gives every entry of `entries` the plugin reference `plugin_ref`.
fn reconfigure(entries: &Vec<(String, HookEntry)>, plugin_ref: &Arc<PluginRef>) -> (r: Vec<
    (String, HookEntry),
>)
    ensures
        registry::paired_seq(r@) == reconfigured(registry::paired_seq(entries@), (**plugin_ref)@),
{
    let mut out: Vec<(String, HookEntry)> = Vec::new();
    let mut i: usize = 0;
    while i < entries.len()
        invariant
            i <= entries@.len(),
            out@.len() == i,
            forall|k: int|
                0 <= k < i ==> (#[trigger] out@[k]).0@ == entries@[k].0@ && out@[k].1@
                    == (EntryView {
                    plugin_ref: (**plugin_ref)@,
                    handler: entries@[k].1.handler,
                }),
        decreases entries@.len() - i,
    {
        out.push(
            (
                entries[i].0.clone(),
                HookEntry { plugin_ref: plugin_ref.clone(), handler: entries[i].1.handler },
            ),
        );
        i += 1;
    }
    assert(registry::paired_seq(out@) =~= reconfigured(
        registry::paired_seq(entries@),
        (**plugin_ref)@,
    ));
    out
}

/// Whether `step` is what overriding the plugin of `base` comes to.
pub open spec fn overriding<F: PluginFactory>(
    factories: Map<Seq<char>, F>,
    transport: Option<Handle>,
    id: u64,
    base: Seq<(Seq<char>, EntryView)>,
    settings: Option<Tree>,
    capabilities: Option<Set<Seq<char>>>,
    on_error: Option<OnError>,
    step: OverrideStep,
) -> bool {
    if base.len() == 0 || (settings is None && capabilities is None && on_error is None) {
        step matches OverrideStep::Ready(l) && registry::paired_seq(l@) == base
    } else {
        let of_base = base[0].1.plugin_ref;
        let config = replaced_config(of_base.config, settings, capabilities, on_error);
        if settings is None {
            step matches OverrideStep::Ready(l) && registry::paired_seq(l@) == reconfigured(
                base,
                RefView { id, plugin: of_base.plugin, config },
            )
        } else {
            match step {
                OverrideStep::Ready(l) => l@.len() == 0 && (!factories.contains_key(config.kind)
                    || exists|c: PluginConfig, e: PluginError|
                    c@ == config && #[trigger] makes(factories, c, Err(e))),
                OverrideStep::Initialize(p) => p.id == id && p.config@ == config && p.services.slot() == slot_for(
                    transport,
                    config.capabilities,
                ) && exists|c: PluginConfig, i: PluginInstance|
                    c@ == config && #[trigger] makes(factories, c, Ok(i)) && p.plugin == i.plugin
                        && p.handlers == i.handlers,
            }
        }
    }
}

/// Overrides a plugin for an orchestrator, out of its base entries.
///
/// Without an override the base entries stand. Capabilities and error policy
/// alone give the same plugin another configuration, under a reference of its
/// own, which all entries share. Settings, which replace the base's whole, take a new instance: the one
/// that comes back is still to be initialized. No entries where there is no
/// plugin, no factory for its kind, or the factory refuses. `id` is a new one.
pub fn prepare_override_entries<F: PluginFactory>(
    factories: &PluginFactoryRegistry<F>,
    transport: Option<Handle>,
    id: u64,
    base: Vec<(String, HookEntry)>,
    config_override: Option<&Json>,
    capabilities_override: Option<&TextSet>,
    on_error_override: Option<OnError>,
) -> (r: OverrideStep)
    ensures
        overriding(
            factories@,
            transport,
            id,
            registry::paired_seq(base@),
            opt_settings(config_override),
            opt_set(capabilities_override),
            on_error_override,
            r,
        ),
{
    if base.len() == 0 {
        return OverrideStep::Ready(base);
    }
    if config_override.is_none() && capabilities_override.is_none() && on_error_override.is_none() {
        return OverrideStep::Ready(base);
    }
    let base_ref = base[0].1.plugin_ref.clone();
    assert(registry::paired_seq(base@)[0] == (base@[0].0@, base@[0].1@));
    let merged = replace_config(
        base_ref.trusted_config(),
        config_override,
        capabilities_override,
        on_error_override,
    );
    if config_override.is_none() {
        let new_ref = Arc::new(PluginRef::new(id, base_ref.plugin(), merged));
        return OverrideStep::Ready(reconfigure(&base, &new_ref));
    }
    let none: Vec<(String, HookEntry)> = Vec::new();
    let factory = match factories.get(merged.kind.as_str()) {
        Some(f) => f,
        None => {
            return OverrideStep::Ready(none);
        },
    };
    let made = factory.create(&merged);
    assert(makes(factories@, merged, made));
    match made {
        Err(e) => {
            assert(makes(factories@, merged, Err(e)));
            OverrideStep::Ready(none)
        },
        Ok(instance) => {
            assert(makes(factories@, merged, Ok(instance)));
            let services = services_for(transport, &merged.capabilities);
            OverrideStep::Initialize(
                PendingInstance {
                    id,
                    plugin: instance.plugin,
                    handlers: instance.handlers,
                    config: merged,
                    services,
                },
            )
        },
    }
}

/// What settings given in YAML are, where there are any.
pub open spec fn opt_yaml(o: Option<&serde_yaml::Value>) -> Option<YamlTree> {
    match o {
        Some(v) => Some(documents::yaml_in(v)),
        None => None,
    }
}

/// Whether `step` is what overriding the plugin of `base` comes to, with settings
/// given in YAML. Where they come to no JSON, there are no entries.
pub open spec fn overriding_in_yaml<F: PluginFactory>(
    factories: Map<Seq<char>, F>,
    transport: Option<Handle>,
    id: u64,
    base: Seq<(Seq<char>, EntryView)>,
    settings: Option<YamlTree>,
    capabilities: Option<Set<Seq<char>>>,
    on_error: Option<OnError>,
    step: OverrideStep,
) -> bool {
    match settings {
        Some(y) => match documents::json_for(y) {
            Ok(t) => overriding(
                factories,
                transport,
                id,
                base,
                Some(t),
                capabilities,
                on_error,
                step,
            ),
            Err(_) => step matches OverrideStep::Ready(l) && l@.len() == 0,
        },
        None => overriding(factories, transport, id, base, None, capabilities, on_error, step),
    }
}

/// Overrides a plugin for an orchestrator that gives the settings in YAML. See
/// [`prepare_override_entries`].
pub fn prepare_yaml_override<F: PluginFactory>(
    factories: &PluginFactoryRegistry<F>,
    transport: Option<Handle>,
    id: u64,
    base: Vec<(String, HookEntry)>,
    config_override: Option<&serde_yaml::Value>,
    capabilities_override: Option<&TextSet>,
    on_error_override: Option<OnError>,
) -> (r: OverrideStep)
    ensures
        overriding_in_yaml(
            factories@,
            transport,
            id,
            registry::paired_seq(base@),
            opt_yaml(config_override),
            opt_set(capabilities_override),
            on_error_override,
            r,
        ),
{
    let settings: Option<Json> = match config_override {
        Some(v) => match documents::yaml_to_json(v) {
            Ok(j) => Some(j),
            Err(_) => {
                return OverrideStep::Ready(Vec::new());
            },
        },
        None => None,
    };
    prepare_override_entries(
        factories,
        transport,
        id,
        base,
        settings.as_ref(),
        capabilities_override,
        on_error_override,
    )
}

/// The entries of a pending instance once the host has tried to initialize it:
/// none where that failed. All of them share one reference, under the id of the
/// instance.
pub fn finish_override_entries(pending: PendingInstance, initialized: bool) -> (r: Vec<
    (String, HookEntry),
>)
    ensures
        registry::paired_seq(r@) == (if initialized {
            instance_entries(
                RefView { id: pending.id, plugin: pending.plugin, config: pending.config@ },
                registry::handler_seq(pending.handlers@),
            )
        } else {
            Seq::empty()
        }),
{
    let mut out: Vec<(String, HookEntry)> = Vec::new();
    assert(registry::paired_seq(out@) =~= Seq::<(Seq<char>, EntryView)>::empty());
    if !initialized {
        return out;
    }
    let ghost view = RefView {
        id: pending.id,
        plugin: pending.plugin,
        config: pending.config@,
    };
    let handlers = pending.handlers;
    let new_ref = Arc::new(PluginRef::new(pending.id, pending.plugin, pending.config));
    let mut i: usize = 0;
    while i < handlers.len()
        invariant
            i <= handlers@.len(),
            (*new_ref)@ == view,
            out@.len() == i,
            forall|k: int|
                0 <= k < i ==> (#[trigger] out@[k]).0@ == handlers@[k].0@ && out@[k].1@
                    == (EntryView { plugin_ref: view, handler: handlers@[k].1 }),
        decreases handlers@.len() - i,
    {
        out.push(
            (
                handlers[i].0.clone(),
                HookEntry { plugin_ref: new_ref.clone(), handler: handlers[i].1 },
            ),
        );
        i += 1;
    }
    assert(registry::paired_seq(out@) =~= instance_entries(
        view,
        registry::handler_seq(handlers@),
    ));
    out
}

/// Merging settings is key by key: a key that is overridden has the
/// override's value, and every other key keeps its own.
pub proof fn law_an_override_touches_its_own_keys_alone(
    under: Map<Seq<char>, Tree>,
    top: Map<Seq<char>, Tree>,
    over: Map<Seq<char>, Tree>,
    key: Seq<char>,
)
    requires
        top.contains_key("config"@),
        top["config"@] == Tree::Object(over),
    ensures
        ({
            let merged = merged_settings(Some(Tree::Object(under)), Tree::Object(top));
            &&& merged matches Some(Tree::Object(m)) && m.contains_key(key) == (under.contains_key(
                key,
            ) || over.contains_key(key)) && (over.contains_key(key) ==> m[key] == over[key]) && (
            under.contains_key(key) && !over.contains_key(key) ==> m[key] == under[key])
        }),
{
}

/// Overrides without settings change nothing of a configuration.
pub proof fn law_overrides_without_settings_change_nothing(
    base: ConfigView,
    top: Map<Seq<char>, Tree>,
)
    requires
        !top.contains_key("config"@),
    ensures
        merged_config(base, Tree::Object(top)) == base,
{
}

/// A route can narrow what an instance may reach: without the capability, an
/// installed transport is withheld, and no capability conjures one that was
/// never installed.
pub proof fn law_a_capability_gates_the_transport(
    transport: Option<Handle>,
    capabilities: Set<Seq<char>>,
)
    ensures
        slot_for(transport, capabilities) is Available <==> transport is Some
            && capabilities.contains(HTTP_CAPABILITY@),
        slot_for(transport, capabilities) is NotInstalled <==> transport is None,
{
}

/// What becomes of settings in every other shape. Overrides that are no object, or hold
/// no settings, change nothing; settings that are no object, or are overridden by none,
/// stay; and where there were none, those of the overrides stand.
pub proof fn law_settings_of_another_shape_stay(base: Option<Tree>, overrides: Tree)
    ensures
        overrides !is Object ==> merged_settings(base, overrides) == base,
        overrides matches Tree::Object(top) ==> {
            &&& !top.contains_key("config"@) ==> merged_settings(base, overrides) == base
            &&& top.contains_key("config"@) && base is None ==> merged_settings(base, overrides)
                == Some(top["config"@])
            &&& top.contains_key("config"@) && (base matches Some(b) && b !is Object)
                ==> merged_settings(base, overrides) == base
            &&& top.contains_key("config"@) && base is Some && top["config"@] !is Object
                ==> merged_settings(base, overrides) == base
        },
{
}

/// Overrides change the settings of a configuration and nothing else of it.
pub proof fn law_overrides_change_the_settings_alone(base: ConfigView, overrides: Tree)
    ensures
        ({
            let merged = merged_config(base, overrides);
            &&& merged.config == merged_settings(base.config, overrides)
            &&& merged.name == base.name
            &&& merged.kind == base.kind
            &&& merged.description == base.description
            &&& merged.author == base.author
            &&& merged.version == base.version
            &&& merged.hooks == base.hooks
            &&& merged.mode == base.mode
            &&& merged.priority == base.priority
            &&& merged.on_error == base.on_error
            &&& merged.capabilities == base.capabilities
            &&& merged.tags == base.tags
            &&& merged.conditions == base.conditions
        }),
{
}

/// Settings, capabilities and the error policy are each replaced whole where they are
/// given and kept where they are not; nothing else of a configuration changes.
pub proof fn law_what_is_given_replaces_its_own_part(
    base: ConfigView,
    settings: Option<Tree>,
    capabilities: Option<Set<Seq<char>>>,
    on_error: Option<OnError>,
)
    ensures
        ({
            let after = replaced_config(base, settings, capabilities, on_error);
            &&& settings is Some ==> after.config == settings
            &&& settings is None ==> after.config == base.config
            &&& capabilities matches Some(c) ==> after.capabilities == c
            &&& capabilities is None ==> after.capabilities == base.capabilities
            &&& on_error matches Some(e) ==> after.on_error == e
            &&& on_error is None ==> after.on_error == base.on_error
            &&& after.name == base.name
            &&& after.kind == base.kind
            &&& after.description == base.description
            &&& after.author == base.author
            &&& after.version == base.version
            &&& after.hooks == base.hooks
            &&& after.mode == base.mode
            &&& after.priority == base.priority
            &&& after.tags == base.tags
            &&& after.conditions == base.conditions
        }),
{
}

/// A plugin that holds the capability is offered the transport that is installed; one
/// that does not is told that it is withheld.
pub proof fn law_the_installed_transport_is_offered_or_withheld(
    t: Handle,
    capabilities: Set<Seq<char>>,
)
    ensures
        capabilities.contains(HTTP_CAPABILITY@) ==> (slot_for(
            Some(t),
            capabilities,
        ) matches ServiceSlot::Available(u) && u == t),
        !capabilities.contains(HTTP_CAPABILITY@) ==> slot_for(
            Some(t),
            capabilities,
        ) is NotPermitted,
        slot_for(None, capabilities) is NotInstalled,
{
}

/// The handler for a hook is the first that stands under it, and there is none exactly
/// where none does.
pub proof fn law_the_first_handler_of_a_hook_answers(
    handlers: Seq<(Seq<char>, Handle)>,
    hook: Seq<char>,
)
    ensures
        handler_for(handlers, hook) is None <==> forall|i: int|
            0 <= i < handlers.len() ==> (#[trigger] handlers[i]).0 != hook,
        handler_for(handlers, hook) matches Some(h) ==> exists|i: int|
            0 <= i < handlers.len() && (#[trigger] handlers[i]).0 == hook && handlers[i].1 == h
                && forall|j: int| 0 <= j < i ==> (#[trigger] handlers[j]).0 != hook,
{
    let n = handlers.len() as int;
    let p = handled_at(handlers, hook);
    text::lemma_first_from_is(p, 0, n);
    let at = text::first_where(p, n);
    assert forall|j: int| 0 <= j < at implies (#[trigger] handlers[j]).0 != hook by {
        assert(!p(j));
    }
    if at < n {
        assert(p(at));
        assert(handlers[at].0 == hook);
    }
}

/// Every entry of an overridden plugin keeps its hook and its handler and goes by the new
/// reference; an instance has an entry for each of its handlers, under its hook.
pub proof fn law_an_override_keeps_hooks_and_handlers(
    entries: Seq<(Seq<char>, EntryView)>,
    handlers: Seq<(Seq<char>, Handle)>,
    plugin_ref: RefView,
    k: int,
)
    ensures
        reconfigured(entries, plugin_ref).len() == entries.len(),
        0 <= k < entries.len() ==> reconfigured(entries, plugin_ref)[k].0 == entries[k].0
            && reconfigured(entries, plugin_ref)[k].1.handler == entries[k].1.handler
            && reconfigured(entries, plugin_ref)[k].1.plugin_ref == plugin_ref,
        instance_entries(plugin_ref, handlers).len() == handlers.len(),
        0 <= k < handlers.len() ==> instance_entries(plugin_ref, handlers)[k].0 == handlers[k].0
            && instance_entries(plugin_ref, handlers)[k].1.handler == handlers[k].1
            && instance_entries(plugin_ref, handlers)[k].1.plugin_ref == plugin_ref,
{
}

/// What overriding a plugin comes to. A plugin without entries has none, and one of which
/// nothing is overridden keeps its own. Where the settings stay, its entries keep their
/// hooks, handlers and plugin, under the new id and with what is replaced. Where the
/// settings are replaced there is an instance to initialize, of the plugin's kind, or
/// nothing.
pub proof fn law_what_an_override_comes_to<F: PluginFactory>(
    factories: Map<Seq<char>, F>,
    transport: Option<Handle>,
    id: u64,
    base: Seq<(Seq<char>, EntryView)>,
    settings: Option<Tree>,
    capabilities: Option<Set<Seq<char>>>,
    on_error: Option<OnError>,
    step: OverrideStep,
    k: int,
)
    requires
        overriding(factories, transport, id, base, settings, capabilities, on_error, step),
    ensures
        base.len() == 0 ==> (step matches OverrideStep::Ready(l) && l@.len() == 0),
        settings is None && capabilities is None && on_error is None ==> (
        step matches OverrideStep::Ready(l) && registry::paired_seq(l@) == base),
        settings is None ==> step is Ready,
        settings is None && (capabilities is Some || on_error is Some) && 0 <= k < base.len() ==> (
        step matches OverrideStep::Ready(l) && l@.len() == base.len() && l@[k].0@ == base[k].0
            && l@[k].1.handler == base[k].1.handler && l@[k].1.plugin_ref.id == id
            && l@[k].1.plugin_ref.plugin == base[0].1.plugin_ref.plugin
            && l@[k].1.plugin_ref.config@.config == base[0].1.plugin_ref.config.config
            && l@[k].1.plugin_ref.config@.kind == base[0].1.plugin_ref.config.kind
            && l@[k].1.plugin_ref.config@.name == base[0].1.plugin_ref.config.name
            && (capabilities matches Some(c) ==> l@[k].1.plugin_ref.config@.capabilities == c) && (
        on_error matches Some(e) ==> l@[k].1.plugin_ref.config@.on_error == e)),
        settings is Some && base.len() > 0 ==> (step matches OverrideStep::Ready(l) ==> l@.len()
            == 0),
        settings is Some && base.len() > 0 ==> (step matches OverrideStep::Initialize(p) ==> p.id
            == id && p.config@.config == settings && p.config@.kind
            == base[0].1.plugin_ref.config.kind && p.config@.name
            == base[0].1.plugin_ref.config.name && factories.contains_key(p.config@.kind) && (
        capabilities is None ==> p.config@.capabilities
            == base[0].1.plugin_ref.config.capabilities) && (capabilities matches Some(c)
            ==> p.config@.capabilities == c) && p.services.slot() == slot_for(
            transport,
            p.config@.capabilities,
        )),
        settings is Some && base.len() > 0 && !factories.contains_key(
            base[0].1.plugin_ref.config.kind,
        ) ==> step is Ready,
{
    if settings is None && base.len() > 0 && 0 <= k < base.len() {
        let l = step->Ready_0;
        let views = registry::paired_seq(l@);
        assert(views.len() == l@.len());
        assert(views[k] == (l@[k].0@, l@[k].1@));
    }
    if base.len() == 0 {
        let l = step->Ready_0;
        assert(registry::paired_seq(l@).len() == l@.len());
    }
}

/// The base entry serves only where there is a reason for it: where the kind has a
/// factory that never refuses the merged configuration, and every instance that it makes
/// of it has a handler for the hook, an override is made.
pub proof fn law_an_override_is_made_where_nothing_stands_against_it<F: PluginFactory>(
    factories: Map<Seq<char>, F>,
    config: ConfigView,
    hook: Seq<char>,
)
    requires
        factories.contains_key(config.kind),
        forall|c: PluginConfig, r: Result<PluginInstance, PluginError>|
            c@ == config && #[trigger] makes(factories, c, r) ==> (r matches Ok(i) && exists|k: int|
                0 <= k < i.handlers@.len() && (#[trigger] i.handlers@[k]).0@ == hook),
    ensures
        !falls_back(factories, config, hook),
{
    if falls_back(factories, config, hook) {
        if exists|c: PluginConfig, e: PluginError|
            c@ == config && #[trigger] makes(factories, c, Err(e)) {
            let (c, e) = choose|c: PluginConfig, e: PluginError|
                c@ == config && #[trigger] makes(factories, c, Err(e));
            assert(makes(factories, c, Err(e)));
        } else {
            let (c, i) = choose|c: PluginConfig, i: PluginInstance|
                c@ == config && #[trigger] makes(factories, c, Ok(i)) && handler_for(
                    registry::handler_seq(i.handlers@),
                    hook,
                ) is None;
            assert(makes(factories, c, Ok(i)));
            let views = registry::handler_seq(i.handlers@);
            law_the_first_handler_of_a_hook_answers(views, hook);
            let k = choose|k: int|
                0 <= k < i.handlers@.len() && (#[trigger] i.handlers@[k]).0@ == hook;
            assert(views[k].0 == hook);
        }
    }
}

/// What is pending for a route is of the instance that was made for it: its plugin, the
/// first of its handlers for the hook, the configuration it was made with, and the
/// services that its own capabilities allow.
pub proof fn law_what_is_pending_for_a_route(
    pending: PendingOverride,
    id: u64,
    instance: PluginInstance,
    config: ConfigView,
    hook: Seq<char>,
    transport: Option<Handle>,
)
    requires
        is_pending(pending, id, instance, config, hook, transport),
    ensures
        pending.id == id,
        pending.plugin == instance.plugin,
        pending.config@ == config,
        exists|i: int|
            0 <= i < instance.handlers@.len() && (#[trigger] instance.handlers@[i]).0@ == hook
                && instance.handlers@[i].1 == pending.handler && forall|j: int|
                0 <= j < i ==> (#[trigger] instance.handlers@[j]).0@ != hook,
        pending.services.slot() is Available <==> transport is Some
            && config.capabilities.contains(HTTP_CAPABILITY@),
        transport is None ==> pending.services.slot() is NotInstalled,
{
    let views = registry::handler_seq(instance.handlers@);
    law_the_first_handler_of_a_hook_answers(views, hook);
    let i = choose|i: int|
        0 <= i < views.len() && (#[trigger] views[i]).0 == hook && views[i].1 == pending.handler
            && forall|j: int| 0 <= j < i ==> (#[trigger] views[j]).0 != hook;
    assert(instance.handlers@[i].0@ == hook);
    assert forall|j: int| 0 <= j < i implies (#[trigger] instance.handlers@[j]).0@ != hook by {
        assert(views[j].0 == instance.handlers@[j].0@);
    }
}

/// Settings that are given in YAML override as the JSON that they come to; where they come
/// to none, there are no entries; and where none are given, none are overridden.
pub proof fn law_settings_in_yaml_override_as_their_json<F: PluginFactory>(
    factories: Map<Seq<char>, F>,
    transport: Option<Handle>,
    id: u64,
    base: Seq<(Seq<char>, EntryView)>,
    y: YamlTree,
    capabilities: Option<Set<Seq<char>>>,
    on_error: Option<OnError>,
    step: OverrideStep,
)
    ensures
        overriding_in_yaml(factories, transport, id, base, None, capabilities, on_error, step)
            <==> overriding(factories, transport, id, base, None, capabilities, on_error, step),
        documents::json_for(y) matches Ok(t) ==> (overriding_in_yaml(
            factories,
            transport,
            id,
            base,
            Some(y),
            capabilities,
            on_error,
            step,
        ) <==> overriding(
            factories,
            transport,
            id,
            base,
            Some(t),
            capabilities,
            on_error,
            step,
        )),
        documents::json_for(y) is Err ==> (overriding_in_yaml(
            factories,
            transport,
            id,
            base,
            Some(y),
            capabilities,
            on_error,
            step,
        ) <==> (step matches OverrideStep::Ready(l) && l@.len() == 0)),
{
}

} // verus!
