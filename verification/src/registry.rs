//! Which plugins are registered, and which handlers answer for a hook.
use crate::plugin::{ConfigView, Handle, PluginConfig};
use crate::selection;
use crate::text;
use crate::value;
use crate::value::TextMap;
use std::sync::Arc;
use vstd::prelude::*;

verus! {

/// A plugin with the configuration that the engine goes by. Every one that is
/// made stands for an instance of its own, with its own failures: what disables
/// one does not disable another, though they share the plugin.
#[derive(Debug)]
pub struct PluginRef {
    /// What tells it from every other reference.
    pub id: u64,
    /// The plugin.
    pub plugin: Handle,
    /// The authoritative configuration.
    pub config: PluginConfig,
}

/// What a [`PluginRef`] is.
#[verifier::ext_equal]
pub struct RefView {
    /// What tells it from every other.
    pub id: u64,
    /// The plugin.
    pub plugin: Handle,
    /// Its configuration.
    pub config: ConfigView,
}

impl View for PluginRef {
    type V = RefView;

    open spec fn view(&self) -> RefView {
        RefView { id: self.id, plugin: self.plugin, config: self.config@ }
    }
}

impl PluginRef {
    /// A plugin with its configuration, under an id of its own.
    pub fn new(id: u64, plugin: Handle, config: PluginConfig) -> (r: Self)
        ensures
            r.id == id,
            r.plugin == plugin,
            r.config == config,
    {
        PluginRef { id, plugin, config }
    }

    /// What tells it from every other reference. Failures are counted by it.
    pub fn id(&self) -> (r: u64)
        ensures
            r == self@.id,
    {
        self.id
    }

    /// The plugin's name.
    pub fn name(&self) -> (r: &str)
        ensures
            r@ == self@.config.name,
    {
        self.config.name.as_str()
    }

    /// The plugin.
    pub fn plugin(&self) -> (r: Handle)
        ensures
            r == self@.plugin,
    {
        self.plugin
    }

    /// The configuration that the engine goes by.
    pub fn trusted_config(&self) -> (r: &PluginConfig)
        ensures
            *r == self.config,
    {
        &self.config
    }
}

/// The id that is given `n` ids behind `first`. Behind the last they start anew.
pub open spec fn nth_id(first: u64, n: nat) -> u64 {
    ((first + n) % 0x1_0000_0000_0000_0000) as u64
}

/// The id that is given `n` ids behind `first`.
pub fn id_behind(first: u64, n: usize) -> (r: u64)
    ensures
        r == nth_id(first, n as nat),
{
    ((first as u128 + n as u128) % 0x1_0000_0000_0000_0000) as u64
}

/// A handler that answers for a hook, and the plugin it belongs to.
#[derive(Debug)]
pub struct HookEntry {
    /// The plugin.
    pub plugin_ref: Arc<PluginRef>,
    /// The handler.
    pub handler: Handle,
}

/// What a [`HookEntry`] is.
#[verifier::ext_equal]
pub struct EntryView {
    /// The plugin.
    pub plugin_ref: RefView,
    /// The handler.
    pub handler: Handle,
}

impl View for HookEntry {
    type V = EntryView;

    open spec fn view(&self) -> EntryView {
        EntryView { plugin_ref: (*self.plugin_ref)@, handler: self.handler }
    }
}

impl Clone for HookEntry {
    /// The plugin is shared, not copied.
    fn clone(&self) -> (r: Self)
        ensures
            r == *self,
    {
        HookEntry { plugin_ref: self.plugin_ref.clone(), handler: self.handler }
    }
}

/// What a list of entries is.
pub open spec fn entry_seq(v: Seq<HookEntry>) -> Seq<EntryView> {
    v.map_values(|e: HookEntry| e@)
}

/// A copy of a list of entries.
pub fn copy_entries(v: &Vec<HookEntry>) -> (r: Vec<HookEntry>)
    ensures
        entry_seq(r@) == entry_seq(v@),
        r@ == v@,
{
    let mut out: Vec<HookEntry> = Vec::new();
    let mut i: usize = 0;
    while i < v.len()
        invariant
            i <= v@.len(),
            out@ == v@.take(i as int),
        decreases v@.len() - i,
    {
        out.push(v[i].clone());
        assert(v@.take(i + 1) =~= v@.take(i as int).push(v@[i as int]));
        i += 1;
    }
    assert(v@.take(i as int) =~= v@);
    out
}

/// The place at which an entry of the priority `priority` stands in `list`:
/// behind every entry that goes before it or beside it.
pub open spec fn place_of(list: Seq<EntryView>, priority: int) -> int {
    text::first_where(|i: int| list[i].plugin_ref.config.priority > priority, list.len() as int)
}

/// `list` with `entry` in its place.
pub open spec fn placed(list: Seq<EntryView>, entry: EntryView) -> Seq<EntryView> {
    list.insert(place_of(list, entry.plugin_ref.config.priority), entry)
}

/// What a [`PluginRegistry`] is.
#[verifier::ext_equal]
pub struct RegistryView {
    /// The plugins' names, in the order in which they were registered.
    pub names: Seq<Seq<char>>,
    /// The plugins by name.
    pub plugins: Map<Seq<char>, RefView>,
    /// The hooks that have ever had a handler, in that order.
    pub hook_names: Seq<Seq<char>>,
    /// The handlers of each hook, in the order in which they run.
    pub hooks: Map<Seq<char>, Seq<EntryView>>,
}

/// A registry that holds nothing.
pub open spec fn empty_registry() -> RegistryView {
    RegistryView {
        names: Seq::empty(),
        plugins: Map::empty(),
        hook_names: Seq::empty(),
        hooks: Map::empty(),
    }
}

/// The handlers of `hook`: none where nothing is registered for it.
pub open spec fn entries_of(reg: RegistryView, hook: Seq<char>) -> Seq<EntryView> {
    if reg.hooks.contains_key(hook) {
        reg.hooks[hook]
    } else {
        Seq::empty()
    }
}

/// `reg` with one more handler.
pub open spec fn with_handler(reg: RegistryView, hook: Seq<char>, entry: EntryView) -> RegistryView {
    RegistryView {
        hook_names: if reg.hooks.contains_key(hook) {
            reg.hook_names
        } else {
            reg.hook_names.push(hook)
        },
        hooks: reg.hooks.insert(hook, placed(entries_of(reg, hook), entry)),
        ..reg
    }
}

/// `reg` with the handlers of a plugin, each under its hook.
pub open spec fn with_handlers(
    reg: RegistryView,
    plugin_ref: RefView,
    handlers: Seq<(Seq<char>, Handle)>,
) -> RegistryView
    decreases handlers.len(),
{
    if handlers.len() == 0 {
        reg
    } else {
        let (hook, handler) = handlers.last();
        with_handler(
            with_handlers(reg, plugin_ref, handlers.drop_last()),
            hook,
            EntryView { plugin_ref, handler },
        )
    }
}

/// `reg` with one more plugin and its handlers.
pub open spec fn registered(
    reg: RegistryView,
    plugin_ref: RefView,
    handlers: Seq<(Seq<char>, Handle)>,
) -> RegistryView {
    with_handlers(
        RegistryView {
            names: reg.names.push(plugin_ref.config.name),
            plugins: reg.plugins.insert(plugin_ref.config.name, plugin_ref),
            ..reg
        },
        plugin_ref,
        handlers,
    )
}

/// The entries of `list` that belong to other plugins than `name`.
pub open spec fn others(list: Seq<EntryView>, name: Seq<char>) -> Seq<EntryView>
    decreases list.len(),
{
    if list.len() == 0 {
        Seq::empty()
    } else {
        let rest = others(list.drop_last(), name);
        if list.last().plugin_ref.config.name == name {
            rest
        } else {
            rest.push(list.last())
        }
    }
}

/// `reg` without the plugin `name` and its handlers.
pub open spec fn unregistered(reg: RegistryView, name: Seq<char>) -> RegistryView {
    if reg.plugins.contains_key(name) {
        RegistryView {
            names: reg.names.remove(reg.names.index_of(name)),
            plugins: reg.plugins.remove(name),
            hook_names: reg.hook_names,
            hooks: reg.hooks.map_values(|list: Seq<EntryView>| others(list, name)),
        }
    } else {
        reg
    }
}

/// Those entries of `list` that belong to the plugin `name`, each with `hook`.
pub open spec fn owned(list: Seq<EntryView>, hook: Seq<char>, name: Seq<char>) -> Seq<
    (Seq<char>, EntryView),
>
    decreases list.len(),
{
    if list.len() == 0 {
        Seq::empty()
    } else {
        let rest = owned(list.drop_last(), hook, name);
        if list.last().plugin_ref.config.name == name {
            rest.push((hook, list.last()))
        } else {
            rest
        }
    }
}

/// The handlers that the plugin `name` has under the hooks `hook_names`, hook
/// by hook.
pub open spec fn plugin_entries(
    hooks: Map<Seq<char>, Seq<EntryView>>,
    hook_names: Seq<Seq<char>>,
    name: Seq<char>,
) -> Seq<(Seq<char>, EntryView)>
    decreases hook_names.len(),
{
    if hook_names.len() == 0 {
        Seq::empty()
    } else {
        plugin_entries(hooks, hook_names.drop_last(), name) + owned(
            hooks[hook_names.last()],
            hook_names.last(),
            name,
        )
    }
}

/// Handlers as `PluginInstance` carries them.
pub open spec fn handler_seq(v: Seq<(String, Handle)>) -> Seq<(Seq<char>, Handle)> {
    v.map_values(|h: (String, Handle)| (h.0@, h.1))
}

/// Entries with the hooks they stand under.
pub open spec fn paired_seq(v: Seq<(String, HookEntry)>) -> Seq<(Seq<char>, EntryView)> {
    v.map_values(|p: (String, HookEntry)| (p.0@, p.1@))
}

/// What is said of a name that is already taken.
pub open spec fn taken_message(name: Seq<char>) -> Seq<char> {
    "plugin '"@ + name + "' is already registered"@
}

/// Which plugins are registered, and which handlers answer for a hook.
#[derive(Debug)]
pub struct PluginRegistry {
    plugins: TextMap<Arc<PluginRef>>,
    hooks: TextMap<Vec<HookEntry>>,
}

impl View for PluginRegistry {
    type V = RegistryView;

    closed spec fn view(&self) -> RegistryView {
        RegistryView {
            names: self.plugins.order(),
            plugins: self.plugins@.map_values(|p: Arc<PluginRef>| (*p)@),
            hook_names: self.hooks.order(),
            hooks: self.hooks@.map_values(|l: Vec<HookEntry>| entry_seq(l@)),
        }
    }
}

/// The place at which an entry of the priority `priority` stands in `list`.
fn find_place(list: &Vec<HookEntry>, priority: i32) -> (r: usize)
    ensures
        r == place_of(entry_seq(list@), priority as int),
        r <= list@.len(),
{
    let ghost views = entry_seq(list@);
    let ghost p = |i: int| views[i].plugin_ref.config.priority > priority;
    let mut i: usize = 0;
    while i < list.len() && list[i].plugin_ref.config.priority <= priority
        invariant
            i <= list@.len(),
            views == entry_seq(list@),
            p == (|i: int| views[i].plugin_ref.config.priority > priority),
            forall|k: int| 0 <= k < i ==> !#[trigger] p(k),
        decreases list@.len() - i,
    {
        assert(views[i as int] == list@[i as int]@);
        i += 1;
    }
    proof {
        if i < list@.len() {
            assert(views[i as int] == list@[i as int]@);
        }
        text::lemma_first_from(p, 0, list@.len() as int, i as int);
    }
    i
}

impl PluginRegistry {
    /// A registry with nothing in it.
    pub fn new() -> (r: Self)
        ensures
            r@ == empty_registry(),
    {
        let r = PluginRegistry { plugins: TextMap::new(), hooks: TextMap::new() };
        assert(r@.plugins =~= Map::<Seq<char>, RefView>::empty());
        assert(r@.hooks =~= Map::<Seq<char>, Seq<EntryView>>::empty());
        r
    }

    /// One more handler.
    fn add_handler(&mut self, hook: &str, entry: HookEntry)
        ensures
            final(self)@ == with_handler(old(self)@, hook@, entry@),
    {
        let mut list: Vec<HookEntry> = match self.hooks.get(hook) {
            Some(l) => copy_entries(l),
            None => Vec::new(),
        };
        proof {
            assert(entry_seq(list@) =~= entries_of(self@, hook@));
        }
        let at = find_place(&list, entry.plugin_ref.config.priority);
        let ghost before = list@;
        list.insert(at, entry);
        assert(entry_seq(list@) =~= entry_seq(before).insert(at as int, entry@));
        self.hooks.insert(hook.to_owned(), list);
        assert(self@ =~= with_handler(old(self)@, hook@, entry@));
    }

    /// Registers a plugin with its handlers, each under its hook. A name that
    /// is taken is refused, and nothing changes.
    pub fn register_multi_handler(
        &mut self,
        id: u64,
        plugin: Handle,
        config: PluginConfig,
        handlers: &Vec<(String, Handle)>,
    ) -> (r: Result<(), String>)
        ensures
            match r {
                Ok(()) => !old(self)@.plugins.contains_key(config@.name) && final(self)@
                    == registered(
                    old(self)@,
                    RefView { id, plugin, config: config@ },
                    handler_seq(handlers@),
                ),
                Err(m) => old(self)@.plugins.contains_key(config@.name) && m@ == taken_message(
                    config@.name,
                ) && final(self)@ == old(self)@,
            },
    {
        if self.plugins.contains_key(config.name.as_str()) {
            let mut m = "plugin '".to_owned();
            m.append(config.name.as_str());
            m.append("' is already registered");
            return Err(m);
        }
        let name = config.name.clone();
        let plugin_ref = Arc::new(PluginRef::new(id, plugin, config));
        let ghost view = RefView { id, plugin, config: config@ };
        self.plugins.insert(name, plugin_ref.clone());
        let ghost start = self@;
        proof {
            assert(start =~= (RegistryView {
                names: old(self)@.names.push(config@.name),
                plugins: old(self)@.plugins.insert(config@.name, view),
                ..old(self)@
            }));
            assert(handler_seq(handlers@.take(0)) =~= Seq::<(Seq<char>, Handle)>::empty());
        }
        let mut i: usize = 0;
        while i < handlers.len()
            invariant
                i <= handlers@.len(),
                (*plugin_ref)@ == view,
                self@ == with_handlers(start, view, handler_seq(handlers@.take(i as int))),
            decreases handlers@.len() - i,
        {
            let entry = HookEntry { plugin_ref: plugin_ref.clone(), handler: handlers[i].1 };
            self.add_handler(handlers[i].0.as_str(), entry);
            proof {
                let next = handler_seq(handlers@.take(i + 1));
                assert(next.drop_last() =~= handler_seq(handlers@.take(i as int)));
                assert(next.last() == (handlers@[i as int].0@, handlers@[i as int].1));
            }
            i += 1;
        }
        assert(handlers@.take(i as int) =~= handlers@);
        Ok(())
    }

    /// The plugin `name`, where there is one.
    pub fn get(&self, name: &str) -> (r: Option<Arc<PluginRef>>)
        ensures
            match r {
                Some(p) => self@.plugins.contains_key(name@) && (*p)@ == self@.plugins[name@],
                None => !self@.plugins.contains_key(name@),
            },
    {
        match self.plugins.get(name) {
            Some(p) => Some(p.clone()),
            None => None,
        }
    }

    /// How many plugins are registered.
    pub fn plugin_count(&self) -> (r: usize)
        ensures
            r == self@.names.len(),
            self@.names.no_duplicates(),
            self@.names.to_set() == self@.plugins.dom(),
    {
        let n = self.plugins.len();
        assert(self@.names.to_set() =~= self@.plugins.dom());
        n
    }

    /// The plugins' names, in the order in which they were registered.
    pub fn plugin_names(&self) -> (r: Vec<String>)
        ensures
            value::text_seq(r@) == self@.names,
            forall|i: int|
                0 <= i < self@.names.len() ==> self@.plugins.contains_key(
                    #[trigger] self@.names[i],
                ),
    {
        let n = self.plugins.len();
        let mut out: Vec<String> = Vec::new();
        let mut i: usize = 0;
        while i < n
            invariant
                i <= n,
                n == self.plugins.order().len(),
                out@.len() == i,
                forall|k: int| 0 <= k < i ==> (#[trigger] out@[k])@ == self.plugins.order()[k],
            decreases n - i,
        {
            let (name, _) = self.plugins.entry(i);
            out.push(name.clone());
            i += 1;
        }
        proof {
            assert(value::text_seq(out@) =~= self@.names);
            assert forall|i: int| 0 <= i < self@.names.len() implies self@.plugins.contains_key(
                #[trigger] self@.names[i],
            ) by {
                assert(self.plugins.order().contains(self@.names[i]));
            }
        }
        out
    }

    /// The handlers of `hook`, in the order in which they run.
    pub fn entries_for_hook(&self, hook: &str) -> (r: Vec<HookEntry>)
        ensures
            entry_seq(r@) == entries_of(self@, hook@),
    {
        match self.hooks.get(hook) {
            Some(l) => copy_entries(l),
            None => {
                let none: Vec<HookEntry> = Vec::new();
                assert(entry_seq(none@) =~= Seq::<EntryView>::empty());
                none
            },
        }
    }

    /// Whether a handler answers for `hook`.
    pub fn has_hooks_for(&self, hook: &str) -> (r: bool)
        ensures
            r == (entries_of(self@, hook@).len() > 0),
    {
        match self.hooks.get(hook) {
            Some(l) => l.len() > 0,
            None => false,
        }
    }

    /// Every handler of the plugin `name`, with its hook.
    pub fn entries_for_plugin(&self, name: &str) -> (r: Vec<(String, HookEntry)>)
        ensures
            paired_seq(r@) == plugin_entries(self@.hooks, self@.hook_names, name@),
    {
        let n = self.hooks.len();
        let mut out: Vec<(String, HookEntry)> = Vec::new();
        let mut i: usize = 0;
        assert(paired_seq(out@) =~= Seq::<(Seq<char>, EntryView)>::empty());
        assert(self.hooks.order().take(0) =~= Seq::<Seq<char>>::empty());
        while i < n
            invariant
                i <= n,
                n == self.hooks.order().len(),
                paired_seq(out@) == plugin_entries(
                    self@.hooks,
                    self.hooks.order().take(i as int),
                    name@,
                ),
            decreases n - i,
        {
            let (hook, list) = self.hooks.entry(i);
            let ghost before = paired_seq(out@);
            let ghost views = entry_seq(list@);
            let mut j: usize = 0;
            assert(owned(views.take(0), hook@, name@) =~= Seq::<(Seq<char>, EntryView)>::empty());
            assert(before + Seq::<(Seq<char>, EntryView)>::empty() =~= before);
            while j < list.len()
                invariant
                    j <= list@.len(),
                    views == entry_seq(list@),
                    paired_seq(out@) == before + owned(views.take(j as int), hook@, name@),
                decreases list@.len() - j,
            {
                let ghost sofar = out@;
                proof {
                    assert(views.take(j + 1).drop_last() =~= views.take(j as int));
                    assert(views.take(j + 1).last() == list@[j as int]@);
                }
                if text::same(list[j].plugin_ref.name(), name) {
                    out.push((hook.clone(), list[j].clone()));
                    assert(paired_seq(out@) =~= paired_seq(sofar).push((hook@, list@[j as int]@)));
                }
                assert(paired_seq(out@) =~= before + owned(views.take(j + 1), hook@, name@));
                j += 1;
            }
            proof {
                assert(views.take(j as int) =~= views);
                let next = self.hooks.order().take(i + 1);
                assert(next.drop_last() =~= self.hooks.order().take(i as int));
                assert(next.last() == hook@);
                assert(self@.hooks[hook@] == views);
            }
            i += 1;
        }
        assert(self.hooks.order().take(i as int) =~= self.hooks.order());
        out
    }

    /// Takes the plugin `name` and its handlers out.
    pub fn unregister(&mut self, name: &str) -> (r: Option<Arc<PluginRef>>)
        ensures
            match r {
                Some(p) => old(self)@.plugins.contains_key(name@) && (*p)@
                    == old(self)@.plugins[name@],
                None => !old(self)@.plugins.contains_key(name@),
            },
            final(self)@ == unregistered(old(self)@, name@),
    {
        let removed = self.plugins.remove(name);
        if removed.is_none() {
            assert(self@ =~= old(self)@);
            return removed;
        }
        proof {
            let order = old(self).plugins.order();
            let i = choose|i: int|
                0 <= i < order.len() && #[trigger] order[i] == name@ && self.plugins.order()
                    == order.remove(i);
            assert(order.index_of(name@) == i);
            assert(self@.plugins =~= old(self)@.plugins.remove(name@));
        }
        let n = self.hooks.len();
        let ghost hooks = self.hooks;
        let mut i: usize = 0;
        while i < n
            invariant
                i <= n,
                n == hooks.order().len(),
                hooks.order().no_duplicates(),
                forall|k: Seq<char>| hooks@.contains_key(k) <==> #[trigger] hooks.order().contains(k),
                self.hooks.order() == hooks.order(),
                self.hooks@.dom() == hooks@.dom(),
                self.plugins.order() == old(self)@.names.remove(old(self)@.names.index_of(name@)),
                self@.plugins == old(self)@.plugins.remove(name@),
                forall|k: int|
                    0 <= k < n ==> entry_seq(self.hooks@[#[trigger] hooks.order()[k]]@) == (if k < i {
                        others(entry_seq(hooks@[hooks.order()[k]]@), name@)
                    } else {
                        entry_seq(hooks@[hooks.order()[k]]@)
                    }),
            decreases n - i,
        {
            let (hook, list) = self.hooks.entry(i);
            let kept = without(list, name);
            let hook = hook.clone();
            let ghost before = self.hooks;
            self.hooks.insert(hook, kept);
            proof {
                assert(hooks.order().contains(hooks.order()[i as int]));
                assert(self.hooks@.dom() =~= hooks@.dom());
                assert forall|k: int| 0 <= k < n implies entry_seq(
                    self.hooks@[#[trigger] hooks.order()[k]]@,
                ) == (if k < i + 1 {
                    others(entry_seq(hooks@[hooks.order()[k]]@), name@)
                } else {
                    entry_seq(hooks@[hooks.order()[k]]@)
                }) by {
                    if k != i {
                        assert(hooks.order()[k] != hooks.order()[i as int]);
                        assert(self.hooks@[hooks.order()[k]] == before@[hooks.order()[k]]);
                    }
                }
            }
            i += 1;
        }
        proof {
            let want = unregistered(old(self)@, name@);
            assert forall|h: Seq<char>| #[trigger] want.hooks.contains_key(h) implies self@.hooks[h]
                == want.hooks[h] by {
                assert(hooks.order().contains(h));
                let k = choose|k: int| 0 <= k < hooks.order().len() && hooks.order()[k] == h;
                assert(hooks.order()[k] == h);
                assert(want.hooks[h] == others(old(self)@.hooks[h], name@));
                assert(old(self)@.hooks[h] == entry_seq(hooks@[h]@));
                assert(self@.hooks[h] == entry_seq(self.hooks@[h]@));
            }
            assert(self@.hooks.dom() =~= want.hooks.dom());
            assert(self@.hooks =~= want.hooks);
            assert(self@ =~= want);
        }
        removed
    }
}

/// The entries of `list` that belong to other plugins than `name`.
fn without(list: &Vec<HookEntry>, name: &str) -> (r: Vec<HookEntry>)
    ensures
        entry_seq(r@) == others(entry_seq(list@), name@),
{
    let ghost views = entry_seq(list@);
    let mut out: Vec<HookEntry> = Vec::new();
    let mut i: usize = 0;
    assert(entry_seq(out@) =~= others(views.take(0), name@));
    while i < list.len()
        invariant
            i <= list@.len(),
            views == entry_seq(list@),
            entry_seq(out@) == others(views.take(i as int), name@),
        decreases list@.len() - i,
    {
        let ghost sofar = out@;
        proof {
            assert(views.take(i + 1).drop_last() =~= views.take(i as int));
            assert(views.take(i + 1).last() == list@[i as int]@);
        }
        if !text::same(list[i].plugin_ref.name(), name) {
            out.push(list[i].clone());
            assert(entry_seq(out@) =~= entry_seq(sofar).push(list@[i as int]@));
        }
        i += 1;
    }
    assert(views.take(i as int) =~= views);
    out
}

impl Clone for PluginRegistry {
    fn clone(&self) -> (r: Self)
        ensures
            r@ == self@,
    {
        let mut hooks: TextMap<Vec<HookEntry>> = TextMap::new();
        let n = self.hooks.len();
        let mut i: usize = 0;
        while i < n
            invariant
                i <= n,
                n == self.hooks.order().len(),
                self.hooks.order().no_duplicates(),
                hooks.order() == self.hooks.order().take(i as int),
                forall|k: Seq<char>| #[trigger]
                    hooks@.contains_key(k) <==> self.hooks.order().take(i as int).contains(k),
                forall|k: int|
                    0 <= k < i ==> hooks@[#[trigger] self.hooks.order()[k]]@
                        == self.hooks@[self.hooks.order()[k]]@,
            decreases n - i,
        {
            let (hook, list) = self.hooks.entry(i);
            let ghost before = hooks;
            proof {
                let done = self.hooks.order().take(i as int);
                if done.contains(hook@) {
                    let k = choose|k: int| 0 <= k < done.len() && done[k] == hook@;
                    assert(self.hooks.order()[k] == self.hooks.order()[i as int]);
                }
            }
            hooks.insert(hook.clone(), copy_entries(list));
            proof {
                let done = self.hooks.order().take(i as int);
                let next = self.hooks.order().take(i + 1);
                assert(next =~= done.push(hook@));
                assert forall|k: Seq<char>| #[trigger] hooks@.contains_key(k) <==> next.contains(k) by {
                    if next.contains(k) {
                        let j = choose|j: int| 0 <= j < next.len() && next[j] == k;
                        if j < i {
                            assert(done[j] == k);
                            assert(before@.contains_key(k));
                        }
                    }
                    if before@.contains_key(k) {
                        let j = choose|j: int| 0 <= j < done.len() && done[j] == k;
                        assert(next[j] == k);
                    }
                    assert(next[i as int] == hook@);
                }
                assert forall|k: int| 0 <= k < i + 1 implies hooks@[#[trigger] self.hooks.order()[k]]@
                    == self.hooks@[self.hooks.order()[k]]@ by {
                    if k < i {
                        assert(self.hooks.order()[k] != self.hooks.order()[i as int]);
                    }
                }
            }
            i += 1;
        }
        let plugins = value::share(&self.plugins);
        let r = PluginRegistry { plugins, hooks };
        proof {
            assert(self.hooks.order().take(i as int) =~= self.hooks.order());
            assert(r@.plugins =~= self@.plugins);
            assert forall|h: Seq<char>| #[trigger] self@.hooks.contains_key(h) implies r@.hooks[h]
                == self@.hooks[h] by {
                assert(self.hooks.order().contains(h));
                let k = choose|k: int| 0 <= k < self.hooks.order().len() && self.hooks.order()[k]
                    == h;
                assert(hooks@[self.hooks.order()[k]]@ == self.hooks@[self.hooks.order()[k]]@);
            }
            assert(r@.hooks =~= self@.hooks);
        }
        r
    }
}

/// Whether the entries of `list` stand in the order of their priorities.
pub open spec fn in_order(list: Seq<EntryView>) -> bool {
    forall|i: int, j: int|
        0 <= i <= j < list.len() ==> (#[trigger] list[i]).plugin_ref.config.priority <= (
        #[trigger] list[j]).plugin_ref.config.priority
}

/// Whether an entry belongs to a plugin that is registered, as it is.
pub open spec fn belongs(reg: RegistryView, entry: EntryView) -> bool {
    let name = entry.plugin_ref.config.name;
    reg.plugins.contains_key(name) && reg.plugins[name] == entry.plugin_ref
}

/// Whether every entry of `list` belongs to a plugin that is registered.
pub open spec fn all_belong(reg: RegistryView, list: Seq<EntryView>) -> bool {
    forall|i: int| 0 <= i < list.len() ==> belongs(reg, #[trigger] list[i])
}

/// What holds of every registry: a plugin is known by one name, every handler
/// belongs to a plugin that is registered, and the handlers of a hook stand in
/// the order of their priorities.
pub open spec fn sound(reg: RegistryView) -> bool {
    &&& reg.names.no_duplicates()
    &&& reg.names.to_set() == reg.plugins.dom()
    &&& forall|name: Seq<char>| #[trigger]
        reg.plugins.contains_key(name) ==> reg.plugins[name].config.name == name
    &&& forall|hook: Seq<char>| #[trigger]
        reg.hooks.contains_key(hook) ==> in_order(reg.hooks[hook]) && all_belong(
            reg,
            reg.hooks[hook],
        )
}

/// An entry that is placed keeps the order.
proof fn lemma_placed(list: Seq<EntryView>, entry: EntryView)
    requires
        in_order(list),
    ensures
        in_order(placed(list, entry)),
        0 <= place_of(list, entry.plugin_ref.config.priority) <= list.len(),
{
    let priority = entry.plugin_ref.config.priority;
    let p = |i: int| list[i].plugin_ref.config.priority > priority;
    let at = place_of(list, priority);
    text::lemma_first_from_is(p, 0, list.len() as int);
    let out = placed(list, entry);
    assert forall|i: int, j: int| 0 <= i <= j < out.len() implies (
    #[trigger] out[i]).plugin_ref.config.priority <= (
    #[trigger] out[j]).plugin_ref.config.priority by {
        if i < at {
            assert(out[i] == list[i]);
            assert(!p(i));
        }
        if j < at {
            assert(out[j] == list[j]);
        }
        if at < i {
            assert(out[i] == list[i - 1]);
        }
        if at < j {
            assert(out[j] == list[j - 1]);
            assert(p(at));
            assert(list[at].plugin_ref.config.priority <= list[j - 1].plugin_ref.config.priority);
        }
    }
}

/// One more handler of a plugin that is registered keeps a registry sound.
proof fn lemma_with_handler(reg: RegistryView, hook: Seq<char>, entry: EntryView)
    requires
        sound(reg),
        belongs(reg, entry),
    ensures
        sound(with_handler(reg, hook, entry)),
{
    let next = with_handler(reg, hook, entry);
    let list = entries_of(reg, hook);
    assert(in_order(list) && all_belong(reg, list));
    lemma_placed(list, entry);
    let out = placed(list, entry);
    let at = place_of(list, entry.plugin_ref.config.priority);
    assert forall|i: int| 0 <= i < out.len() implies belongs(next, #[trigger] out[i]) by {
        if i < at {
            assert(out[i] == list[i]);
        } else if at < i {
            assert(out[i] == list[i - 1]);
        }
    }
    assert forall|h: Seq<char>| #[trigger] next.hooks.contains_key(h) implies in_order(next.hooks[h])
        && all_belong(next, next.hooks[h]) by {
        if h != hook {
            assert(reg.hooks.contains_key(h));
            let l = reg.hooks[h];
            assert forall|i: int| 0 <= i < l.len() implies belongs(next, #[trigger] l[i]) by {
                assert(belongs(reg, l[i]));
            }
        }
    }
}

/// More handlers of a plugin that is registered keep a registry sound.
proof fn lemma_with_handlers(
    reg: RegistryView,
    plugin_ref: RefView,
    handlers: Seq<(Seq<char>, Handle)>,
)
    requires
        sound(reg),
        reg.plugins.contains_key(plugin_ref.config.name),
        reg.plugins[plugin_ref.config.name] == plugin_ref,
    ensures
        sound(with_handlers(reg, plugin_ref, handlers)),
        with_handlers(reg, plugin_ref, handlers).plugins == reg.plugins,
        with_handlers(reg, plugin_ref, handlers).names == reg.names,
    decreases handlers.len(),
{
    if handlers.len() > 0 {
        lemma_with_handlers(reg, plugin_ref, handlers.drop_last());
        let (hook, handler) = handlers.last();
        lemma_with_handler(
            with_handlers(reg, plugin_ref, handlers.drop_last()),
            hook,
            EntryView { plugin_ref, handler },
        );
    }
}

/// Whatever is registered under a new name, a registry stays sound.
pub proof fn law_registering_keeps_a_registry_sound(
    reg: RegistryView,
    plugin_ref: RefView,
    handlers: Seq<(Seq<char>, Handle)>,
)
    requires
        sound(reg),
        !reg.plugins.contains_key(plugin_ref.config.name),
    ensures
        sound(registered(reg, plugin_ref, handlers)),
{
    let name = plugin_ref.config.name;
    let start = RegistryView {
        names: reg.names.push(name),
        plugins: reg.plugins.insert(name, plugin_ref),
        ..reg
    };
    assert(!reg.names.contains(name)) by {
        if reg.names.contains(name) {
            assert(reg.names.to_set().contains(name));
        }
    }
    assert(start.names.no_duplicates()) by {
        assert forall|i: int, j: int|
            0 <= i < start.names.len() && 0 <= j < start.names.len() && i
                != j implies start.names[i] != start.names[j] by {
            if i < reg.names.len() && j == reg.names.len() {
                assert(reg.names.contains(reg.names[i]));
            }
            if j < reg.names.len() && i == reg.names.len() {
                assert(reg.names.contains(reg.names[j]));
            }
        }
    }
    assert(start.names.to_set() =~= start.plugins.dom()) by {
        assert forall|n: Seq<char>| #[trigger] start.names.contains(n) <==> reg.names.contains(n)
            || n == name by {
            if reg.names.contains(n) {
                let i = choose|i: int| 0 <= i < reg.names.len() && reg.names[i] == n;
                assert(start.names[i] == n);
            }
            assert(start.names[reg.names.len() as int] == name);
        }
        assert forall|n: Seq<char>| #[trigger]
            start.names.to_set().contains(n) <==> start.plugins.dom().contains(n) by {
            assert(reg.names.to_set().contains(n) <==> reg.names.contains(n));
            assert(reg.plugins.dom().contains(n) <==> reg.names.to_set().contains(n));
        }
    }
    assert forall|h: Seq<char>| #[trigger] start.hooks.contains_key(h) implies in_order(
        start.hooks[h],
    ) && all_belong(start, start.hooks[h]) by {
        let l = reg.hooks[h];
        assert(all_belong(reg, l));
        assert forall|i: int| 0 <= i < l.len() implies belongs(start, #[trigger] l[i]) by {
            assert(belongs(reg, l[i]));
        }
    }
    lemma_with_handlers(start, plugin_ref, handlers);
}

/// Leaving entries out keeps the order, and leaves in only entries of the list
/// that belong to other plugins.
proof fn lemma_others(list: Seq<EntryView>, name: Seq<char>)
    ensures
        in_order(list) ==> in_order(others(list, name)),
        forall|i: int|
            0 <= i < others(list, name).len() ==> list.contains(#[trigger] others(list, name)[i])
                && others(list, name)[i].plugin_ref.config.name != name,
    decreases list.len(),
{
    if list.len() > 0 {
        let head = list.drop_last();
        let rest = others(head, name);
        lemma_others(head, name);
        let out = others(list, name);
        assert forall|i: int| 0 <= i < out.len() implies list.contains(#[trigger] out[i])
            && out[i].plugin_ref.config.name != name by {
            if i < rest.len() {
                assert(out[i] == rest[i]);
                assert(head.contains(rest[i]));
                let k = choose|k: int| 0 <= k < head.len() && head[k] == rest[i];
                assert(list[k] == out[i]);
            } else {
                assert(list[list.len() - 1] == out[i]);
            }
        }
        if in_order(list) {
            assert(in_order(head)) by {
                assert forall|i: int, j: int| 0 <= i <= j < head.len() implies (
                #[trigger] head[i]).plugin_ref.config.priority <= (
                #[trigger] head[j]).plugin_ref.config.priority by {
                    assert(head[i] == list[i] && head[j] == list[j]);
                }
            }
            assert forall|i: int, j: int| 0 <= i <= j < out.len() implies (
            #[trigger] out[i]).plugin_ref.config.priority <= (
            #[trigger] out[j]).plugin_ref.config.priority by {
                if j < rest.len() {
                    assert(out[i] == rest[i] && out[j] == rest[j]);
                } else if i < rest.len() {
                    assert(head.contains(rest[i]));
                    let k = choose|k: int| 0 <= k < head.len() && head[k] == rest[i];
                    assert(list[k] == out[i]);
                    assert(list[list.len() - 1] == out[j]);
                }
            }
        }
    }
}

/// Whatever is taken out, a registry stays sound, and nothing of the plugin is
/// left: it is not found by name, and no hook has a handler of it.
pub proof fn law_unregistering_leaves_nothing_behind(reg: RegistryView, name: Seq<char>)
    requires
        sound(reg),
    ensures
        sound(unregistered(reg, name)),
        !unregistered(reg, name).plugins.contains_key(name),
        forall|hook: Seq<char>, i: int|
            0 <= i < entries_of(unregistered(reg, name), hook).len() ==> (
            #[trigger] entries_of(unregistered(reg, name), hook)[i]).plugin_ref.config.name != name,
{
    let next = unregistered(reg, name);
    if reg.plugins.contains_key(name) {
        assert(reg.names.to_set().contains(name));
        let at = reg.names.index_of(name);
        assert(0 <= at < reg.names.len() && reg.names[at] == name);
        assert forall|i: int, j: int|
            0 <= i < next.names.len() && 0 <= j < next.names.len() && i
                != j implies next.names[i] != next.names[j] by {
            let a = if i < at { i } else { i + 1 };
            let b = if j < at { j } else { j + 1 };
            assert(next.names[i] == reg.names[a] && next.names[j] == reg.names[b]);
        }
        assert forall|n: Seq<char>| #[trigger]
            next.names.to_set().contains(n) <==> next.plugins.dom().contains(n) by {
            assert(reg.names.to_set().contains(n) <==> reg.plugins.dom().contains(n));
            if next.names.contains(n) {
                let i = choose|i: int| 0 <= i < next.names.len() && next.names[i] == n;
                let a = if i < at { i } else { i + 1 };
                assert(reg.names[a] == n);
            }
            if reg.names.contains(n) && n != name {
                let a = choose|a: int| 0 <= a < reg.names.len() && reg.names[a] == n;
                let i = if a < at { a } else { a - 1 };
                assert(next.names[i] == n);
            }
        }
        assert(next.names.to_set() =~= next.plugins.dom());
        assert forall|h: Seq<char>| #[trigger] next.hooks.contains_key(h) implies in_order(
            next.hooks[h],
        ) && all_belong(next, next.hooks[h]) by {
            let l = reg.hooks[h];
            lemma_others(l, name);
            let out = next.hooks[h];
            assert(out == others(l, name));
            assert forall|i: int| 0 <= i < out.len() implies belongs(next, #[trigger] out[i]) by {
                assert(l.contains(out[i]));
                let k = choose|k: int| 0 <= k < l.len() && l[k] == out[i];
                assert(belongs(reg, l[k]));
            }
        }
        assert forall|hook: Seq<char>, i: int|
            0 <= i < entries_of(next, hook).len() implies (#[trigger] entries_of(
            next,
            hook,
        )[i]).plugin_ref.config.name != name by {
            lemma_others(reg.hooks[hook], name);
        }
    } else {
        assert forall|hook: Seq<char>, i: int|
            0 <= i < entries_of(next, hook).len() implies (#[trigger] entries_of(
            next,
            hook,
        )[i]).plugin_ref.config.name != name by {
            let e = reg.hooks[hook][i];
            assert(belongs(reg, e));
        }
    }
}

/// Without a plugin's entries, a list is as it was before one of them came in.
proof fn lemma_others_insert(list: Seq<EntryView>, at: int, entry: EntryView, name: Seq<char>)
    requires
        0 <= at <= list.len(),
        entry.plugin_ref.config.name == name,
    ensures
        others(list.insert(at, entry), name) == others(list, name),
    decreases list.len(),
{
    let more = list.insert(at, entry);
    if at == list.len() {
        assert(more.drop_last() =~= list);
    } else {
        assert(more.drop_last() =~= list.drop_last().insert(at, entry));
        assert(more.last() == list.last());
        lemma_others_insert(list.drop_last(), at, entry, name);
    }
}

/// A list in which a plugin has no entry is the same without it.
proof fn lemma_others_all(list: Seq<EntryView>, name: Seq<char>)
    requires
        forall|i: int| 0 <= i < list.len() ==> (#[trigger] list[i]).plugin_ref.config.name != name,
    ensures
        others(list, name) == list,
    decreases list.len(),
{
    if list.len() > 0 {
        let head = list.drop_last();
        assert forall|i: int| 0 <= i < head.len() implies (
        #[trigger] head[i]).plugin_ref.config.name != name by {
            assert(head[i] == list[i]);
        }
        lemma_others_all(head, name);
        assert(list[list.len() - 1].plugin_ref.config.name != name);
        assert(others(list, name) =~= list);
    }
}

/// One more plugin is registered under its name, and no other is touched.
pub proof fn lemma_registered_plugins(
    reg: RegistryView,
    plugin_ref: RefView,
    handlers: Seq<(Seq<char>, Handle)>,
)
    ensures
        registered(reg, plugin_ref, handlers).plugins == reg.plugins.insert(
            plugin_ref.config.name,
            plugin_ref,
        ),
        registered(reg, plugin_ref, handlers).names == reg.names.push(plugin_ref.config.name),
{
    lemma_others_with_handlers(
        RegistryView {
            names: reg.names.push(plugin_ref.config.name),
            plugins: reg.plugins.insert(plugin_ref.config.name, plugin_ref),
            ..reg
        },
        plugin_ref,
        handlers,
        Seq::empty(),
    );
}

/// A plugin's handlers change no other plugin's entries.
proof fn lemma_others_with_handlers(
    reg: RegistryView,
    plugin_ref: RefView,
    handlers: Seq<(Seq<char>, Handle)>,
    hook: Seq<char>,
)
    ensures
        others(entries_of(with_handlers(reg, plugin_ref, handlers), hook), plugin_ref.config.name)
            == others(entries_of(reg, hook), plugin_ref.config.name),
        with_handlers(reg, plugin_ref, handlers).names == reg.names,
        with_handlers(reg, plugin_ref, handlers).plugins == reg.plugins,
    decreases handlers.len(),
{
    if handlers.len() > 0 {
        let before = with_handlers(reg, plugin_ref, handlers.drop_last());
        let (h, handler) = handlers.last();
        let entry = EntryView { plugin_ref, handler };
        lemma_others_with_handlers(reg, plugin_ref, handlers.drop_last(), hook);
        if h == hook {
            let list = entries_of(before, hook);
            text::lemma_first_from_is(
                |i: int| list[i].plugin_ref.config.priority > entry.plugin_ref.config.priority,
                0,
                list.len() as int,
            );
            lemma_others_insert(
                list,
                place_of(list, entry.plugin_ref.config.priority),
                entry,
                plugin_ref.config.name,
            );
        }
    }
}

/// Unregistering undoes registering: the same plugins are there as before, in the
/// same order, and every hook runs the same handlers.
pub proof fn law_unregistering_undoes_registering(
    reg: RegistryView,
    plugin_ref: RefView,
    handlers: Seq<(Seq<char>, Handle)>,
)
    requires
        sound(reg),
        !reg.plugins.contains_key(plugin_ref.config.name),
    ensures
        ({
            let after = unregistered(
                registered(reg, plugin_ref, handlers),
                plugin_ref.config.name,
            );
            &&& after.names == reg.names
            &&& after.plugins == reg.plugins
            &&& forall|hook: Seq<char>| #[trigger] entries_of(after, hook) == entries_of(reg, hook)
        }),
{
    let name = plugin_ref.config.name;
    let with_plugin = RegistryView {
        names: reg.names.push(name),
        plugins: reg.plugins.insert(name, plugin_ref),
        ..reg
    };
    let with_all = registered(reg, plugin_ref, handlers);
    let after = unregistered(with_all, name);
    lemma_others_with_handlers(with_plugin, plugin_ref, handlers, Seq::empty());
    assert(reg.names.to_set().contains(name) <==> reg.plugins.dom().contains(name));
    assert(!reg.names.contains(name));
    assert(with_all.names[reg.names.len() as int] == name);
    let at = with_all.names.index_of(name);
    assert(with_all.names[at] == name);
    if at < reg.names.len() {
        assert(reg.names[at] == name);
    }
    assert(after.names =~= reg.names);
    assert(after.plugins =~= reg.plugins);
    assert forall|hook: Seq<char>| #[trigger] entries_of(after, hook) == entries_of(reg, hook) by {
        lemma_others_with_handlers(with_plugin, plugin_ref, handlers, hook);
        let list = entries_of(reg, hook);
        assert forall|i: int| 0 <= i < list.len() implies (
        #[trigger] list[i]).plugin_ref.config.name != name by {
            assert(belongs(reg, list[i]));
        }
        lemma_others_all(list, name);
        assert(entries_of(with_plugin, hook) == list);
    }
}

/// A registry that holds nothing is sound.
pub proof fn law_an_empty_registry_is_sound()
    ensures
        sound(empty_registry()),
{
    assert(empty_registry().names.to_set() =~= empty_registry().plugins.dom());
}

/// Whether `out` is `list` with `entry` at `at`, behind every entry whose priority is
/// not greater and before every one from the first that is.
pub open spec fn is_placed(
    list: Seq<EntryView>,
    entry: EntryView,
    out: Seq<EntryView>,
    at: int,
) -> bool {
    &&& 0 <= at <= list.len()
    &&& out.len() == list.len() + 1
    &&& out[at] == entry
    &&& forall|i: int| 0 <= i < at ==> #[trigger] out[i] == list[i]
    &&& forall|i: int| at < i < out.len() ==> #[trigger] out[i] == list[i - 1]
    &&& forall|i: int|
        0 <= i < at ==> (#[trigger] list[i]).plugin_ref.config.priority
            <= entry.plugin_ref.config.priority
    &&& at < list.len() ==> entry.plugin_ref.config.priority
        < list[at].plugin_ref.config.priority
}

/// A handler comes behind those of its own priority, which were there before it, and
/// before the first of a greater one; the others stay as they stand.
pub proof fn law_a_handler_comes_behind_its_equals(list: Seq<EntryView>, entry: EntryView)
    ensures
        exists|at: int| is_placed(list, entry, placed(list, entry), at),
{
    let priority = entry.plugin_ref.config.priority;
    let p = |i: int| list[i].plugin_ref.config.priority > priority;
    text::lemma_first_from_is(p, 0, list.len() as int);
    let at = place_of(list, priority as int);
    assert forall|i: int| 0 <= i < at implies (#[trigger] list[i]).plugin_ref.config.priority
        <= priority by {
        assert(!p(i));
    }
    if at < list.len() {
        assert(p(at));
    }
    assert(is_placed(list, entry, placed(list, entry), at));
}

/// A plugin without handlers is registered under its name, behind the others, and no
/// hook changes.
pub proof fn law_registering_adds_the_plugin(reg: RegistryView, plugin_ref: RefView, hook: Seq<char>)
    ensures
        ({
            let after = registered(reg, plugin_ref, Seq::empty());
            &&& after.names.len() == reg.names.len() + 1
            &&& after.names.last() == plugin_ref.config.name
            &&& after.names.drop_last() == reg.names
            &&& after.plugins.contains_key(plugin_ref.config.name)
            &&& after.plugins[plugin_ref.config.name] == plugin_ref
            &&& forall|name: Seq<char>|
                name != plugin_ref.config.name ==> (#[trigger] after.plugins.contains_key(name)
                    <==> reg.plugins.contains_key(name)) && after.plugins[name]
                    == reg.plugins[name]
            &&& entries_of(after, hook) == entries_of(reg, hook)
            &&& after.hook_names == reg.hook_names
        }),
{
    let after = registered(reg, plugin_ref, Seq::empty());
    assert(after.names.drop_last() =~= reg.names);
}

/// One more handler of a plugin takes its place under its own hook, and nothing else
/// changes: no other hook, no plugin, no name. A hook that had no handler comes behind
/// the hooks that had.
pub proof fn law_one_more_handler_goes_under_its_hook(
    reg: RegistryView,
    plugin_ref: RefView,
    handlers: Seq<(Seq<char>, Handle)>,
    hook: Seq<char>,
    handler: Handle,
    other: Seq<char>,
)
    requires
        other != hook,
    ensures
        ({
            let before = registered(reg, plugin_ref, handlers);
            let after = registered(reg, plugin_ref, handlers.push((hook, handler)));
            let entry = EntryView { plugin_ref, handler };
            &&& exists|at: int|
                is_placed(entries_of(before, hook), entry, entries_of(after, hook), at)
            &&& entries_of(after, other) == entries_of(before, other)
            &&& after.hooks.contains_key(hook)
            &&& after.hooks.contains_key(other) <==> before.hooks.contains_key(other)
            &&& after.names == before.names
            &&& after.plugins == before.plugins
            &&& before.hooks.contains_key(hook) ==> after.hook_names == before.hook_names
            &&& !before.hooks.contains_key(hook) ==> after.hook_names.drop_last()
                == before.hook_names && after.hook_names.len() == before.hook_names.len() + 1
                && after.hook_names.last() == hook
        }),
{
    let before = registered(reg, plugin_ref, handlers);
    let all = handlers.push((hook, handler));
    let after = registered(reg, plugin_ref, all);
    let entry = EntryView { plugin_ref, handler };
    assert(all.drop_last() =~= handlers);
    assert(after == with_handler(before, hook, entry));
    law_a_handler_comes_behind_its_equals(entries_of(before, hook), entry);
    let at = choose|at: int|
        is_placed(
            entries_of(before, hook),
            entry,
            placed(entries_of(before, hook), entry),
            at,
        );
    assert(is_placed(entries_of(before, hook), entry, entries_of(after, hook), at));
    if !before.hooks.contains_key(hook) {
        assert(after.hook_names.drop_last() =~= before.hook_names);
    }
}

/// Which entries of `list` belong to other plugins than `name`.
pub open spec fn other_at(list: Seq<EntryView>, name: Seq<char>) -> spec_fn(int) -> bool {
    |i: int| list[i].plugin_ref.config.name != name
}

/// Which entries of `list` belong to the plugin `name`.
pub open spec fn own_at(list: Seq<EntryView>, name: Seq<char>) -> spec_fn(int) -> bool {
    |i: int| list[i].plugin_ref.config.name == name
}

/// Which entries are left without a plugin's own.
proof fn lemma_others_at(list: Seq<EntryView>, name: Seq<char>) -> (at: Seq<int>)
    ensures
        selection::selects(at, list.len() as int, other_at(list, name)),
        others(list, name) == at.map_values(|i: int| list[i]),
    decreases list.len(),
{
    let keep = other_at(list, name);
    if list.len() == 0 {
        selection::lemma_selects_none(keep);
        assert(others(list, name) =~= Seq::<int>::empty().map_values(|i: int| list[i]));
        Seq::empty()
    } else {
        let head = list.drop_last();
        let n = head.len() as int;
        let before = lemma_others_at(head, name);
        assert forall|i: int| 0 <= i < n implies #[trigger] other_at(head, name)(i) == keep(i) by {
            assert(head[i] == list[i]);
        }
        selection::lemma_selects_alike(before, n, other_at(head, name), keep);
        selection::lemma_selects_next(before, n, keep);
        assert(before.map_values(|i: int| head[i]) =~= before.map_values(|i: int| list[i]));
        if keep(n) {
            let at = before.push(n);
            assert(at.map_values(|i: int| list[i]) =~= before.map_values(|i: int| list[i]).push(
                list[n],
            ));
            at
        } else {
            before
        }
    }
}

/// Which entries are a plugin's own.
proof fn lemma_owned_at(list: Seq<EntryView>, hook: Seq<char>, name: Seq<char>) -> (at: Seq<int>)
    ensures
        selection::selects(at, list.len() as int, own_at(list, name)),
        owned(list, hook, name) == at.map_values(|i: int| (hook, list[i])),
    decreases list.len(),
{
    let keep = own_at(list, name);
    if list.len() == 0 {
        selection::lemma_selects_none(keep);
        assert(owned(list, hook, name) =~= Seq::<int>::empty().map_values(
            |i: int| (hook, list[i]),
        ));
        Seq::empty()
    } else {
        let head = list.drop_last();
        let n = head.len() as int;
        let before = lemma_owned_at(head, hook, name);
        assert forall|i: int| 0 <= i < n implies #[trigger] own_at(head, name)(i) == keep(i) by {
            assert(head[i] == list[i]);
        }
        selection::lemma_selects_alike(before, n, own_at(head, name), keep);
        selection::lemma_selects_next(before, n, keep);
        assert(before.map_values(|i: int| (hook, head[i])) =~= before.map_values(
            |i: int| (hook, list[i]),
        ));
        if keep(n) {
            let at = before.push(n);
            assert(at.map_values(|i: int| (hook, list[i])) =~= before.map_values(
                |i: int| (hook, list[i]),
            ).push((hook, list[n])));
            at
        } else {
            before
        }
    }
}

/// Unregistering a plugin takes it out of the list of names and takes its handlers out
/// of each hook. Every other plugin and handler stays, in its order. Where there is no
/// such plugin, nothing changes.
pub proof fn law_unregistering_takes_one_plugin_out(
    reg: RegistryView,
    name: Seq<char>,
    hook: Seq<char>,
    other: Seq<char>,
)
    requires
        sound(reg),
        other != name,
    ensures
        !reg.plugins.contains_key(name) ==> unregistered(reg, name) == reg,
        reg.plugins.contains_key(name) ==> exists|at: Seq<int>| #[trigger]
            selection::selects(at, entries_of(reg, hook).len() as int, other_at(
                entries_of(reg, hook),
                name,
            )) && entries_of(unregistered(reg, name), hook) == at.map_values(
                |i: int| entries_of(reg, hook)[i],
            ),
        unregistered(reg, name).plugins.contains_key(other) <==> reg.plugins.contains_key(other),
        reg.plugins.contains_key(other) ==> unregistered(reg, name).plugins[other]
            == reg.plugins[other],
        unregistered(reg, name).hook_names == reg.hook_names,
        unregistered(reg, name).hooks.dom() == reg.hooks.dom(),
        reg.plugins.contains_key(name) ==> exists|k: int|
            0 <= k < reg.names.len() && #[trigger] reg.names[k] == name && unregistered(
                reg,
                name,
            ).names == reg.names.take(k) + reg.names.skip(k + 1),
{
    let next = unregistered(reg, name);
    if reg.plugins.contains_key(name) {
        assert(reg.names.to_set().contains(name));
        let k = reg.names.index_of(name);
        assert(reg.names[k] == name);
        assert(next.names =~= reg.names.take(k) + reg.names.skip(k + 1));
        let list = entries_of(reg, hook);
        let at = lemma_others_at(list, name);
        assert(entries_of(next, hook) =~= others(list, name));
        assert(next.hooks.dom() =~= reg.hooks.dom());
    }
}

/// The handlers of a plugin are found hook by hook in the order of the hooks, and
/// under each hook in the order in which they run: all of its own and no other's.
pub proof fn law_the_handlers_of_a_plugin_are_found(
    hooks: Map<Seq<char>, Seq<EntryView>>,
    first: Seq<Seq<char>>,
    behind: Seq<Seq<char>>,
    hook: Seq<char>,
    name: Seq<char>,
)
    ensures
        plugin_entries(hooks, Seq::empty(), name).len() == 0,
        plugin_entries(hooks, first + behind, name) == plugin_entries(hooks, first, name)
            + plugin_entries(hooks, behind, name),
        exists|at: Seq<int>| #[trigger]
            selection::selects(at, hooks[hook].len() as int, own_at(hooks[hook], name))
                && plugin_entries(hooks, seq![hook], name) == at.map_values(
                |i: int| (hook, hooks[hook][i]),
            ),
    decreases behind.len(),
{
    let at = lemma_owned_at(hooks[hook], hook, name);
    let none = Seq::<(Seq<char>, EntryView)>::empty();
    assert(seq![hook].drop_last() =~= Seq::<Seq<char>>::empty());
    assert(plugin_entries(hooks, Seq::empty(), name) == none);
    assert(plugin_entries(hooks, seq![hook], name) =~= owned(hooks[hook], hook, name));
    if behind.len() == 0 {
        assert(first + behind =~= first);
        assert(plugin_entries(hooks, first, name) + none =~= plugin_entries(hooks, first, name));
    } else {
        let shorter = behind.drop_last();
        law_the_handlers_of_a_plugin_are_found(hooks, first, shorter, hook, name);
        assert((first + behind).drop_last() =~= first + shorter);
        assert((first + behind).last() == behind.last());
        let more = owned(hooks[behind.last()], behind.last(), name);
        assert(plugin_entries(hooks, first, name) + plugin_entries(hooks, shorter, name) + more
            =~= plugin_entries(hooks, first, name) + (plugin_entries(hooks, shorter, name) + more));
    }
}

/// Ids are given one behind the other: none further is the same id, one after another
/// adds up, and short of the last id nothing starts anew.
pub proof fn law_ids_are_given_one_behind_the_other(first: u64, a: nat, b: nat)
    ensures
        nth_id(first, 0) == first,
        nth_id(nth_id(first, a), b) == nth_id(first, a + b),
        first + a <= u64::MAX ==> nth_id(first, a) == first + a,
        nth_id(u64::MAX, 1) == 0,
{
    let m: int = 0x1_0000_0000_0000_0000;
    vstd::arithmetic::div_mod::lemma_add_mod_noop(first + a, b as int, m);
    vstd::arithmetic::div_mod::lemma_mod_twice(first + a, m);
    vstd::arithmetic::div_mod::lemma_add_mod_noop((first + a) % m, b as int, m);
    assert(((first + a) % m + b) % m == (first + a + b) % m);
}

/// A reference and an entry are all that they are made of: what looks alike is alike in
/// the id, in the plugin, in its configuration and in the handler.
pub proof fn law_entries_that_look_alike_are_alike(a: HookEntry, b: HookEntry)
    requires
        a@ == b@,
    ensures
        a.handler == b.handler,
        a.plugin_ref.id == b.plugin_ref.id,
        a.plugin_ref.plugin == b.plugin_ref.plugin,
        a.plugin_ref.config@ == b.plugin_ref.config@,
{
}

/// A registry that holds nothing has no plugin, and no hook of it has a handler.
pub proof fn law_an_empty_registry_holds_nothing(name: Seq<char>)
    ensures
        empty_registry().names.len() == 0,
        empty_registry().hook_names.len() == 0,
        !empty_registry().plugins.contains_key(name),
        entries_of(empty_registry(), name).len() == 0,
{
}

} // verus!
