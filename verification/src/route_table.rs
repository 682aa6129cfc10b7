//! Entries by route: what was resolved for one, or annotated on one.
use crate::registry;
use crate::registry::{EntryView, HookEntry};
use crate::text;
use crate::value;
use std::sync::Arc;
use vstd::prelude::*;

verus! {

/// What a route is known by. The same entity at another hook, or in another
/// scope, is another route.
#[derive(Debug, Clone)]
pub struct RouteCacheKey {
    /// The kind of entity.
    pub entity_type: String,
    /// Its name.
    pub entity_name: String,
    /// The hook.
    pub hook_name: String,
    /// The scope, where there is one.
    pub scope: Option<String>,
}

/// What a [`RouteCacheKey`] is.
#[verifier::ext_equal]
pub struct RouteId {
    /// The kind of entity.
    pub entity_type: Seq<char>,
    /// Its name.
    pub entity_name: Seq<char>,
    /// The hook.
    pub hook_name: Seq<char>,
    /// The scope.
    pub scope: Option<Seq<char>>,
}

impl View for RouteCacheKey {
    type V = RouteId;

    open spec fn view(&self) -> RouteId {
        RouteId {
            entity_type: self.entity_type@,
            entity_name: self.entity_name@,
            hook_name: self.hook_name@,
            scope: value::opt_text(self.scope),
        }
    }
}

impl PartialEq for RouteCacheKey {
    fn eq(&self, other: &Self) -> (r: bool) {
        text::same(self.entity_type.as_str(), other.entity_type.as_str()) && text::same(
            self.entity_name.as_str(),
            other.entity_name.as_str(),
        ) && text::same(self.hook_name.as_str(), other.hook_name.as_str()) && value::same_opt_text(
            &self.scope,
            &other.scope,
        )
    }
}

impl vstd::std_specs::cmp::PartialEqSpecImpl for RouteCacheKey {
    open spec fn obeys_eq_spec() -> bool {
        true
    }

    open spec fn eq_spec(&self, other: &Self) -> bool {
        self@ == other@
    }
}

impl Eq for RouteCacheKey {

}

/// Lists of entries by route, as `hashbrown` keeps them.
#[verifier::external_body]
pub struct RawTable {
    inner: hashbrown::HashMap<(String, String, String, Option<String>), Arc<Vec<HookEntry>>>,
}

/// The lists that a `hashbrown::HashMap` holds, by route.
pub uninterp spec fn routes_in(table: &RawTable) -> Map<RouteId, Seq<EntryView>>;

/// No lists at all.
pub open spec fn no_routes() -> Map<RouteId, Seq<EntryView>> {
    Map::empty()
}

/// `hashbrown::HashMap::new` holds nothing.
#[verifier::external_body]
fn new_table() -> (r: RawTable)
    ensures
        routes_in(&r) == no_routes(),
{
    RawTable { inner: hashbrown::HashMap::new() }
}

/// `hashbrown::HashMap::len` counts the keys.
#[verifier::external_body]
fn table_len(table: &RawTable) -> (r: usize)
    ensures
        r == routes_in(table).dom().len(),
{
    table.inner.len()
}

/// `hashbrown::HashMap::get` finds what is held under an equal key, and nothing
/// where no key is equal.
#[verifier::external_body]
fn table_get(table: &RawTable, key: RouteCacheKey) -> (r: Option<Arc<Vec<HookEntry>>>)
    ensures
        match r {
            Some(list) => routes_in(table).contains_key(key@) && registry::entry_seq((*list)@)
                == routes_in(table)[key@],
            None => !routes_in(table).contains_key(key@),
        },
{
    let key = (key.entity_type, key.entity_name, key.hook_name, key.scope);
    table.inner.get(&key).map(Arc::clone)
}

/// `hashbrown::HashMap::insert` holds the value under the key, in the place of
/// what was under an equal one, and touches no other key.
#[verifier::external_body]
fn table_insert(table: &mut RawTable, key: RouteCacheKey, list: Arc<Vec<HookEntry>>)
    ensures
        routes_in(final(table)) == routes_in(old(table)).insert(
            key@,
            registry::entry_seq((*list)@),
        ),
{
    let key = (key.entity_type, key.entity_name, key.hook_name, key.scope);
    table.inner.insert(key, list);
}

/// `hashbrown::HashMap::remove` takes out what is under an equal key, and
/// touches no other.
#[verifier::external_body]
fn table_remove(table: &mut RawTable, key: RouteCacheKey)
    ensures
        routes_in(final(table)) == routes_in(old(table)).remove(key@),
{
    let key = (key.entity_type, key.entity_name, key.hook_name, key.scope);
    table.inner.remove(&key);
}

/// `hashbrown::HashMap::clear` takes everything out.
#[verifier::external_body]
fn table_clear(table: &mut RawTable)
    ensures
        routes_in(final(table)) == no_routes(),
{
    table.inner.clear();
}

/// Whether `keys` are the keys of `routes`, in whatever order.
pub open spec fn are_keys(routes: Map<RouteId, Seq<EntryView>>, keys: Seq<RouteCacheKey>) -> bool {
    forall|id: RouteId| #[trigger]
        routes.contains_key(id) <==> exists|i: int| 0 <= i < keys.len() && (#[trigger] keys[i])@ == id
}

/// `hashbrown::HashMap::keys` walks every key, in no particular order.
#[verifier::external_body]
fn table_keys(table: &RawTable) -> (r: Vec<RouteCacheKey>)
    ensures
        are_keys(routes_in(table), r@),
{
    let keys = table.inner.keys();
    keys.map(|k| RouteCacheKey {
        entity_type: k.0.clone(),
        entity_name: k.1.clone(),
        hook_name: k.2.clone(),
        scope: k.3.clone(),
    }).collect()
}

/// Lists of entries by route. There are only so many.
pub struct RouteTable {
    inner: RawTable,
}

impl View for RouteTable {
    type V = Map<RouteId, Seq<EntryView>>;

    closed spec fn view(&self) -> Map<RouteId, Seq<EntryView>> {
        routes_in(&self.inner)
    }
}

impl RouteTable {
    #[verifier::type_invariant]
    spec fn wf(self) -> bool {
        routes_in(&self.inner).dom().finite()
    }

    /// A table with nothing in it.
    pub fn new() -> (r: Self)
        ensures
            r@ == Map::<RouteId, Seq<EntryView>>::empty(),
    {
        RouteTable { inner: new_table() }
    }

    /// How many routes have a list.
    pub fn len(&self) -> (r: usize)
        ensures
            r == self@.dom().len(),
            self@.dom().finite(),
    {
        proof {
            use_type_invariant(self);
        }
        table_len(&self.inner)
    }

    /// The list of the route `key`, where it has one.
    pub fn get(&self, key: RouteCacheKey) -> (r: Option<Arc<Vec<HookEntry>>>)
        ensures
            match r {
                Some(list) => self@.contains_key(key@) && registry::entry_seq((*list)@)
                    == self@[key@],
                None => !self@.contains_key(key@),
            },
    {
        table_get(&self.inner, key)
    }

    /// Gives the route `key` the list `list`.
    pub fn insert(&mut self, key: RouteCacheKey, list: Arc<Vec<HookEntry>>)
        ensures
            final(self)@ == old(self)@.insert(key@, registry::entry_seq((*list)@)),
    {
        proof {
            use_type_invariant(&*self);
        }
        let mut table = new_table();
        std::mem::swap(&mut table, &mut self.inner);
        table_insert(&mut table, key, list);
        self.inner = table;
    }

    /// Takes the list of the route `key` away.
    pub fn remove(&mut self, key: RouteCacheKey)
        ensures
            final(self)@ == old(self)@.remove(key@),
    {
        proof {
            use_type_invariant(&*self);
        }
        let mut table = new_table();
        std::mem::swap(&mut table, &mut self.inner);
        table_remove(&mut table, key);
        self.inner = table;
    }

    /// Takes every list away.
    pub fn clear(&mut self)
        ensures
            final(self)@ == Map::<RouteId, Seq<EntryView>>::empty(),
    {
        let mut table = new_table();
        std::mem::swap(&mut table, &mut self.inner);
        table_clear(&mut table);
        self.inner = table;
    }

    /// Whether a route at the hook `hook_name` has a list.
    pub fn has_hook(&self, hook_name: &str) -> (r: bool)
        ensures
            r == (exists|id: RouteId| #[trigger]
                self@.contains_key(id) && id.hook_name == hook_name@),
    {
        let keys = table_keys(&self.inner);
        let mut i: usize = 0;
        while i < keys.len()
            invariant
                i <= keys@.len(),
                are_keys(self@, keys@),
                forall|k: int| 0 <= k < i ==> (#[trigger] keys@[k])@.hook_name != hook_name@,
            decreases keys@.len() - i,
        {
            if text::same(keys[i].hook_name.as_str(), hook_name) {
                assert(self@.contains_key(keys@[i as int]@));
                return true;
            }
            i += 1;
        }
        assert forall|id: RouteId| #[trigger] self@.contains_key(id) implies id.hook_name
            != hook_name@ by {
            let k = choose|k: int| 0 <= k < keys@.len() && (#[trigger] keys@[k])@ == id;
            assert(keys@[k]@.hook_name != hook_name@);
        }
        false
    }
}

/// Two routes that differ in one respect are two routes: neither is served the
/// other's list.
pub proof fn law_a_list_is_served_to_its_own_route_alone(
    routes: Map<RouteId, Seq<EntryView>>,
    id: RouteId,
    list: Seq<EntryView>,
    other: RouteId,
)
    requires
        other.entity_type != id.entity_type || other.entity_name != id.entity_name
            || other.hook_name != id.hook_name || other.scope != id.scope,
    ensures
        routes.insert(id, list).contains_key(other) == routes.contains_key(other),
        routes.contains_key(other) ==> routes.insert(id, list)[other] == routes[other],
{
}

/// Keys that look alike are alike in the kind of entity, its name, the hook and the scope,
/// and no scope is not the same as any.
pub proof fn law_keys_that_look_alike_are_alike(a: RouteCacheKey, b: RouteCacheKey)
    requires
        a@ == b@,
    ensures
        a.entity_type@ == b.entity_type@,
        a.entity_name@ == b.entity_name@,
        a.hook_name@ == b.hook_name@,
        a.scope is Some <==> b.scope is Some,
        a.scope is Some ==> a.scope->Some_0@ == b.scope->Some_0@,
{
}

/// A table that holds nothing has no route.
pub proof fn law_an_empty_table_has_no_route(id: RouteId)
    ensures
        !no_routes().contains_key(id),
        no_routes().dom().len() == 0,
{
}

} // verus!
