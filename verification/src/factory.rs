//! Factories, by the kind of plugin that each makes.
use crate::error::PluginError;
use crate::plugin::{Handle, PluginConfig};
use crate::value;
use crate::value::TextMap;
use std::sync::Arc;
use vstd::prelude::*;

verus! {

/// Makes plugins of one kind from their configuration. A host supplies them.
pub trait PluginFactory {
    /// Create a plugin instance and its handlers from config, or say what is
    /// wrong with it.
    fn create(&self, config: &PluginConfig) -> Result<PluginInstance, PluginError>;
}

/// A created plugin instance: the plugin and its handlers, each with the hook
/// that it handles.
#[derive(Debug)]
pub struct PluginInstance {
    /// The plugin.
    pub plugin: Handle,
    /// Its handlers, with their hook names.
    pub handlers: Vec<(String, Handle)>,
}

/// Registry of plugin factories keyed by `kind` name.
pub struct PluginFactoryRegistry<F> {
    factories: TextMap<Arc<F>>,
}

impl<F> View for PluginFactoryRegistry<F> {
    type V = Map<Seq<char>, F>;

    closed spec fn view(&self) -> Map<Seq<char>, F> {
        self.factories@.map_values(|f: Arc<F>| *f)
    }
}

impl<F> PluginFactoryRegistry<F> {
    /// The kinds, in the order in which each was first registered.
    pub closed spec fn order(&self) -> Seq<Seq<char>> {
        self.factories.order()
    }

    /// Create an empty factory registry.
    pub fn new() -> (r: Self)
        ensures
            r@ == Map::<Seq<char>, F>::empty(),
    {
        let r = PluginFactoryRegistry { factories: TextMap::new() };
        assert(r@ =~= Map::<Seq<char>, F>::empty());
        r
    }

    /// Register a factory for a given `kind` name. The last writer wins: a host
    /// can swap the factory of a kind. Says whether one was replaced.
    pub fn register(&mut self, kind: &str, factory: F) -> (r: bool)
        ensures
            final(self)@ == old(self)@.insert(kind@, factory),
            r == old(self)@.contains_key(kind@),
    {
        let replaced = self.factories.contains_key(kind);
        self.factories.insert(kind.to_owned(), Arc::new(factory));
        assert(self@ =~= old(self)@.insert(kind@, factory));
        replaced
    }

    /// Look up a factory by `kind` name, returning an owned handle.
    pub fn get(&self, kind: &str) -> (r: Option<Arc<F>>)
        ensures
            match r {
                Some(f) => self@.contains_key(kind@) && *f == self@[kind@],
                None => !self@.contains_key(kind@),
            },
    {
        match self.factories.get(kind) {
            Some(f) => Some(f.clone()),
            None => None,
        }
    }

    /// Whether a factory exists for the given `kind`.
    pub fn has(&self, kind: &str) -> (r: bool)
        ensures
            r == self@.contains_key(kind@),
    {
        self.factories.contains_key(kind)
    }

    /// All registered kind names, each once.
    pub fn kinds(&self) -> (r: Vec<&str>)
        ensures
            r@.len() == self.order().len(),
            forall|i: int| 0 <= i < r@.len() ==> (#[trigger] r@[i])@ == self.order()[i],
            self.order().no_duplicates(),
            self.order().to_set() == self@.dom(),
    {
        let n = self.factories.len();
        let mut out: Vec<&str> = Vec::new();
        let mut i: usize = 0;
        while i < n
            invariant
                i <= n,
                n == self.factories.order().len(),
                out@.len() == i,
                forall|k: int| 0 <= k < i ==> (#[trigger] out@[k])@ == self.factories.order()[k],
            decreases n - i,
        {
            let (k, _) = self.factories.entry(i);
            out.push(k.as_str());
            i += 1;
        }
        assert(self.order().to_set() =~= self@.dom());
        out
    }
}

impl<F> Clone for PluginFactoryRegistry<F> {
    /// The factories are shared, not copied.
    fn clone(&self) -> (r: Self)
        ensures
            r@ == self@,
            r.order() == self.order(),
    {
        let r = PluginFactoryRegistry { factories: value::share(&self.factories) };
        assert(r@ =~= self@);
        r
    }
}

impl<F> Default for PluginFactoryRegistry<F> {
    fn default() -> (r: Self)
        ensures
            r@ == Map::<Seq<char>, F>::empty(),
    {
        PluginFactoryRegistry::new()
    }
}

/// The last registration of a kind is the one that is found, and no other kind
/// is touched by it.
pub proof fn law_the_last_registration_wins<F>(
    registered: Map<Seq<char>, F>,
    kind: Seq<char>,
    first: F,
    second: F,
    other: Seq<char>,
)
    ensures
        registered.insert(kind, first).insert(kind, second)[kind] == second,
        registered.insert(kind, first).insert(kind, second) == registered.insert(kind, second),
        other != kind ==> registered.insert(kind, second).contains_key(other)
            == registered.contains_key(other),
{
    assert(registered.insert(kind, first).insert(kind, second) =~= registered.insert(kind, second));
}

} // verus!
