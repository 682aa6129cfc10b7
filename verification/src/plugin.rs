//! What the engine knows of a plugin: its configuration, and a handle to it.
use crate::value;
use crate::value::{Json, TextSet, Tree};
use vstd::prelude::*;

verus! {

/// A handle to something that the host keeps: a plugin, a handler of one, a
/// transport.
#[derive(Debug, Clone, Copy, PartialEq, Eq, Hash, Structural)]
pub struct Handle {
    /// What tells it from the others of its sort.
    pub id: u64,
}

/// How a plugin is scheduled, and what it may do.
#[derive(Debug, Clone, Copy, PartialEq, Eq, Hash, Structural)]
pub enum PluginMode {
    /// One after another; may block and modify.
    Sequential,
    /// One after another; may modify, not block.
    Transform,
    /// Sees the request; may neither block nor modify.
    Audit,
    /// Side by side; may block, not modify.
    Concurrent,
    /// Started and not waited for.
    FireAndForget,
    /// Not run at all.
    Disabled,
}

/// What happens when a plugin fails.
#[derive(Debug, Clone, Copy, PartialEq, Eq, Hash, Structural)]
pub enum OnError {
    /// The pipeline halts.
    Fail,
    /// The pipeline goes on.
    Ignore,
    /// The pipeline goes on, and the plugin is not run again.
    Disable,
}

/// A plugin's entry in the policy document. The document is the authority on
/// it: a plugin never supplies its own.
#[derive(Debug)]
pub struct PluginConfig {
    /// The plugin's name, which is unique.
    pub name: String,
    /// What kind of plugin it is, by which its factory is found.
    pub kind: String,
    /// What it is for.
    pub description: Option<String>,
    /// Who wrote it.
    pub author: Option<String>,
    /// Its version.
    pub version: Option<String>,
    /// The hooks it is declared for.
    pub hooks: Vec<String>,
    /// How it is scheduled.
    pub mode: PluginMode,
    /// Its place among the plugins of a hook: lower runs first.
    pub priority: i32,
    /// What happens when it fails.
    pub on_error: OnError,
    /// The capabilities it holds.
    pub capabilities: TextSet,
    /// Its tags.
    pub tags: Vec<String>,
    /// When it runs where requests are not routed, as the document has it: always
    /// where there are none.
    pub conditions: Vec<Json>,
    /// Its own settings.
    pub config: Option<Json>,
}

/// What a [`PluginConfig`] is.
#[verifier::ext_equal]
pub struct ConfigView {
    /// Name.
    pub name: Seq<char>,
    /// Kind.
    pub kind: Seq<char>,
    /// Description.
    pub description: Option<Seq<char>>,
    /// Author.
    pub author: Option<Seq<char>>,
    /// Version.
    pub version: Option<Seq<char>>,
    /// Hooks.
    pub hooks: Seq<Seq<char>>,
    /// Mode.
    pub mode: PluginMode,
    /// Priority.
    pub priority: int,
    /// What happens when it fails.
    pub on_error: OnError,
    /// Capabilities.
    pub capabilities: Set<Seq<char>>,
    /// Tags.
    pub tags: Seq<Seq<char>>,
    /// Conditions.
    pub conditions: Seq<Tree>,
    /// Settings.
    pub config: Option<Tree>,
}

/// The shape of `o`, where there is one.
pub open spec fn opt_tree(o: Option<Json>) -> Option<Tree> {
    match o {
        Some(v) => Some(v.tree()),
        None => None,
    }
}

impl View for PluginConfig {
    type V = ConfigView;

    open spec fn view(&self) -> ConfigView {
        ConfigView {
            name: self.name@,
            kind: self.kind@,
            description: value::opt_text(self.description),
            author: value::opt_text(self.author),
            version: value::opt_text(self.version),
            hooks: value::text_seq(self.hooks@),
            mode: self.mode,
            priority: self.priority as int,
            on_error: self.on_error,
            capabilities: self.capabilities@,
            tags: value::text_seq(self.tags@),
            conditions: value::tree_seq(self.conditions@),
            config: opt_tree(self.config),
        }
    }
}

impl Clone for PluginConfig {
    fn clone(&self) -> (r: Self)
        ensures
            r@ == self@,
    {
        PluginConfig {
            name: self.name.clone(),
            kind: self.kind.clone(),
            description: self.description.clone(),
            author: self.author.clone(),
            version: self.version.clone(),
            hooks: value::copy_texts(&self.hooks),
            mode: self.mode,
            priority: self.priority,
            on_error: self.on_error,
            capabilities: self.capabilities.clone(),
            tags: value::copy_texts(&self.tags),
            conditions: value::copy_values(&self.conditions),
            config: match &self.config {
                Some(v) => Some(v.clone()),
                None => None,
            },
        }
    }
}

impl Default for PluginConfig {
    fn default() -> (r: Self)
        ensures
            r.name@ == Seq::<char>::empty(),
            r.kind@ == Seq::<char>::empty(),
            r.description is None,
            r.author is None,
            r.version is None,
            r.hooks@ == Seq::<String>::empty(),
            r.mode == PluginMode::Sequential,
            r.priority == 0,
            r.on_error == OnError::Fail,
            r.capabilities@ == Set::<Seq<char>>::empty(),
            r.tags@ == Seq::<String>::empty(),
            r.conditions@ == Seq::<Json>::empty(),
            r.config is None,
    {
        PluginConfig {
            name: String::new(),
            kind: String::new(),
            description: None,
            author: None,
            version: None,
            hooks: Vec::new(),
            mode: PluginMode::Sequential,
            priority: 0,
            on_error: OnError::Fail,
            capabilities: TextSet::new(),
            tags: Vec::new(),
            conditions: Vec::new(),
            config: None,
        }
    }
}

/// A configuration is all that it is made of: two that look alike are alike in every
/// part.
pub proof fn law_configurations_that_look_alike_are_alike(a: PluginConfig, b: PluginConfig)
    requires
        a@ == b@,
    ensures
        a.name@ == b.name@,
        a.kind@ == b.kind@,
        a.description is Some <==> b.description is Some,
        a.description is Some ==> a.description->Some_0@ == b.description->Some_0@,
        a.author is Some <==> b.author is Some,
        a.author is Some ==> a.author->Some_0@ == b.author->Some_0@,
        a.version is Some <==> b.version is Some,
        a.version is Some ==> a.version->Some_0@ == b.version->Some_0@,
        value::text_seq(a.hooks@) == value::text_seq(b.hooks@),
        a.mode == b.mode,
        a.priority == b.priority,
        a.on_error == b.on_error,
        a.capabilities@ == b.capabilities@,
        value::text_seq(a.tags@) == value::text_seq(b.tags@),
        value::tree_seq(a.conditions@) == value::tree_seq(b.conditions@),
        a.config is Some <==> b.config is Some,
        a.config is Some ==> a.config->Some_0.tree() == b.config->Some_0.tree(),
{
}

} // verus!
