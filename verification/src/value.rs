//! Values that policies and credentials carry: maps keyed by text, and the
//! tree of a JSON document.
use crate::text;
use std::sync::Arc;
use vstd::prelude::*;
use vstd::std_specs::cmp::PartialEqSpecImpl;

verus! {

/// A map from text to `V`. No key occurs twice; what came first stays first.
#[derive(Debug)]
pub struct TextMap<V> {
    entries: Vec<(String, V)>,
}

impl<V> TextMap<V> {
    #[verifier::type_invariant]
    spec fn wf(self) -> bool {
        distinct_keys(self.entries@)
    }

    /// The keys, in the order in which they came in.
    pub closed spec fn order(&self) -> Seq<Seq<char>> {
        key_seq(self.entries@)
    }
}

/// The keys of `entries`.
spec fn key_seq<V>(entries: Seq<(String, V)>) -> Seq<Seq<char>> {
    Seq::new(entries.len(), |i: int| entries[i].0@)
}

/// Whether no key of `entries` occurs twice.
spec fn distinct_keys<V>(entries: Seq<(String, V)>) -> bool {
    key_seq(entries).no_duplicates()
}

/// What `entries` map their keys to.
spec fn contents<V>(entries: Seq<(String, V)>) -> Map<Seq<char>, V> {
    Map::new(
        |k: Seq<char>| key_seq(entries).contains(k),
        |k: Seq<char>| entries[key_seq(entries).index_of(k)].1,
    )
}

impl<V> View for TextMap<V> {
    type V = Map<Seq<char>, V>;

    closed spec fn view(&self) -> Map<Seq<char>, V> {
        contents(self.entries@)
    }
}

/// An entry found is what its key is mapped to.
proof fn lemma_found<V>(entries: Seq<(String, V)>, i: int)
    requires
        distinct_keys(entries),
        0 <= i < entries.len(),
    ensures
        contents(entries).contains_key(entries[i].0@),
        contents(entries)[entries[i].0@] == entries[i].1,
{
    let keys = key_seq(entries);
    let k = entries[i].0@;
    assert(keys[i] == k);
    assert(keys[keys.index_of(k)] == k);
}

/// A key that no entry has is not mapped.
proof fn lemma_missing<V>(entries: Seq<(String, V)>, k: Seq<char>)
    requires
        forall|j: int| 0 <= j < entries.len() ==> (#[trigger] entries[j]).0@ != k,
    ensures
        !contents(entries).contains_key(k),
        !key_seq(entries).contains(k),
{
    let keys = key_seq(entries);
    if keys.contains(k) {
        let j = choose|j: int| 0 <= j < keys.len() && keys[j] == k;
        assert(entries[j].0@ == k);
    }
}

/// A key behind the last one adds to the map.
proof fn lemma_added<V>(entries: Seq<(String, V)>, e: (String, V))
    requires
        distinct_keys(entries),
        !key_seq(entries).contains(e.0@),
    ensures
        distinct_keys(entries.push(e)),
        contents(entries.push(e)) == contents(entries).insert(e.0@, e.1),
        key_seq(entries.push(e)) == key_seq(entries).push(e.0@),
{
    let more = entries.push(e);
    let n = entries.len() as int;
    assert(key_seq(more) =~= key_seq(entries).push(e.0@));
    assert forall|i: int, j: int| 0 <= i < j < more.len() implies key_seq(more)[i] != key_seq(more)[j] by {
        if j == n {
            assert(key_seq(entries)[i] != e.0@);
        }
    }
    assert(distinct_keys(more));
    assert forall|k: Seq<char>| #[trigger] contents(more).contains_key(k) <==> contents(entries).insert(e.0@, e.1).contains_key(k) by {
        if key_seq(entries).contains(k) {
            let i = choose|i: int| 0 <= i < n && key_seq(entries)[i] == k;
            assert(key_seq(more)[i] == k);
        }
        if k == e.0@ {
            assert(key_seq(more)[n] == k);
        }
    }
    assert forall|k: Seq<char>| #[trigger] contents(more).contains_key(k) implies contents(more)[k] == contents(entries).insert(e.0@, e.1)[k] by {
        if k == e.0@ {
            assert(more[n] == e);
            lemma_found(more, n);
        } else {
            let i = choose|i: int| 0 <= i < n && key_seq(entries)[i] == k;
            assert(more[i] == entries[i]);
            lemma_found(entries, i);
            lemma_found(more, i);
        }
    }
    assert(contents(more) =~= contents(entries).insert(e.0@, e.1));
}

/// A new value under a key that is there replaces the old one.
proof fn lemma_replaced<V>(entries: Seq<(String, V)>, i: int, e: (String, V))
    requires
        distinct_keys(entries),
        0 <= i < entries.len(),
        e.0@ == entries[i].0@,
    ensures
        distinct_keys(entries.update(i, e)),
        contents(entries.update(i, e)) == contents(entries).insert(e.0@, e.1),
        key_seq(entries.update(i, e)) == key_seq(entries),
{
    let next = entries.update(i, e);
    assert(key_seq(next) =~= key_seq(entries));
    assert forall|k: Seq<char>| #[trigger] contents(next).contains_key(k) implies contents(next)[k] == contents(entries).insert(e.0@, e.1)[k] by {
        let j = choose|j: int| 0 <= j < next.len() && key_seq(next)[j] == k;
        lemma_found(next, j);
        lemma_found(entries, j);
        lemma_found(next, i);
    }
    lemma_found(entries, i);
    assert(contents(next) =~= contents(entries).insert(e.0@, e.1));
}

/// Without an entry its key is not mapped, and the others are as before.
proof fn lemma_removed<V>(entries: Seq<(String, V)>, i: int)
    requires
        distinct_keys(entries),
        0 <= i < entries.len(),
    ensures
        distinct_keys(entries.remove(i)),
        contents(entries.remove(i)) == contents(entries).remove(entries[i].0@),
        key_seq(entries.remove(i)) == key_seq(entries).remove(i),
{
    let next = entries.remove(i);
    let k0 = entries[i].0@;
    assert(key_seq(next) =~= key_seq(entries).remove(i));
    assert forall|a: int, b: int| 0 <= a < b < next.len() implies key_seq(next)[a] != key_seq(next)[b] by {
        let a1 = if a < i { a } else { a + 1 };
        let b1 = if b < i { b } else { b + 1 };
        assert(key_seq(entries)[a1] != key_seq(entries)[b1]);
    }
    assert(distinct_keys(next));
    assert forall|k: Seq<char>| #[trigger] contents(next).contains_key(k) <==> contents(entries).remove(k0).contains_key(k) by {
        if key_seq(next).contains(k) {
            let j = choose|j: int| 0 <= j < next.len() && key_seq(next)[j] == k;
            let j1 = if j < i { j } else { j + 1 };
            assert(key_seq(entries)[j1] == k);
            assert(key_seq(entries)[i] == k0);
        }
        if key_seq(entries).contains(k) && k != k0 {
            let j = choose|j: int| 0 <= j < entries.len() && key_seq(entries)[j] == k;
            let j1 = if j < i { j } else { j - 1 };
            assert(key_seq(next)[j1] == k);
        }
    }
    assert forall|k: Seq<char>| #[trigger] contents(next).contains_key(k) implies contents(next)[k] == contents(entries).remove(k0)[k] by {
        let j = choose|j: int| 0 <= j < next.len() && key_seq(next)[j] == k;
        let j1 = if j < i { j } else { j + 1 };
        lemma_found(next, j);
        lemma_found(entries, j1);
        assert(next[j] == entries[j1]);
    }
    assert(contents(next) =~= contents(entries).remove(k0));
}

impl<V> TextMap<V> {
    /// A map with nothing in it.
    pub fn new() -> (r: Self)
        ensures
            r@ == Map::<Seq<char>, V>::empty(),
            r.order() == Seq::<Seq<char>>::empty(),
    {
        let entries: Vec<(String, V)> = Vec::new();
        assert(key_seq(entries@) =~= Seq::<Seq<char>>::empty());
        assert(contents(entries@) =~= Map::<Seq<char>, V>::empty());
        TextMap { entries }
    }

    /// The place of `key` among the entries, or their number.
    fn find(&self, key: &str) -> (r: usize)
        ensures
            r <= self.entries@.len(),
            r < self.entries@.len() ==> self.entries@[r as int].0@ == key@,
            r == self.entries@.len() ==> !self@.contains_key(key@) && !key_seq(self.entries@).contains(key@),
            r < self.entries@.len() ==> self@.contains_key(key@) && self@[key@] == self.entries@[r as int].1,
    {
        proof {
            use_type_invariant(self);
        }
        let mut i: usize = 0;
        while i < self.entries.len()
            invariant
                i <= self.entries@.len(),
                distinct_keys(self.entries@),
                forall|j: int| 0 <= j < i ==> (#[trigger] self.entries@[j]).0@ != key@,
            decreases self.entries@.len() - i,
        {
            if text::same(self.entries[i].0.as_str(), key) {
                proof {
                    lemma_found(self.entries@, i as int);
                }
                return i;
            }
            i += 1;
        }
        proof {
            lemma_missing(self.entries@, key@);
        }
        i
    }

    /// The value under `key`, where there is one.
    pub fn get(&self, key: &str) -> (r: Option<&V>)
        ensures
            r is Some <==> self@.contains_key(key@),
            r is Some ==> *r->Some_0 == self@[key@],
    {
        let i = self.find(key);
        if i < self.entries.len() {
            Some(&self.entries[i].1)
        } else {
            None
        }
    }

    /// Whether there is a value under `key`.
    pub fn contains_key(&self, key: &str) -> (r: bool)
        ensures
            r == self@.contains_key(key@),
    {
        self.find(key) < self.entries.len()
    }

    /// Puts `value` under `key`, in the place of what was there.
    pub fn insert(&mut self, key: String, value: V)
        ensures
            final(self)@ == old(self)@.insert(key@, value),
            final(self).order() == (if old(self)@.contains_key(key@) {
                old(self).order()
            } else {
                old(self).order().push(key@)
            }),
    {
        proof {
            use_type_invariant(&*self);
        }
        let i = self.find(key.as_str());
        let mut entries: Vec<(String, V)> = Vec::new();
        assert(key_seq(entries@) =~= Seq::<Seq<char>>::empty());
        std::mem::swap(&mut entries, &mut self.entries);
        if i < entries.len() {
            proof {
                lemma_replaced(entries@, i as int, (key, value));
            }
            entries.set(i, (key, value));
        } else {
            proof {
                lemma_added(entries@, (key, value));
            }
            entries.push((key, value));
        }
        self.entries = entries;
    }

    /// Takes away what is under `key`, and hands it out.
    pub fn remove(&mut self, key: &str) -> (r: Option<V>)
        ensures
            r is Some <==> old(self)@.contains_key(key@),
            r is Some ==> r->Some_0 == old(self)@[key@],
            final(self)@ == old(self)@.remove(key@),
            old(self).order().no_duplicates(),
            r is None ==> final(self).order() == old(self).order(),
            r is Some ==> exists|i: int|
                0 <= i < old(self).order().len() && #[trigger] old(self).order()[i] == key@
                    && final(self).order() == old(self).order().remove(i),
    {
        proof {
            use_type_invariant(&*self);
        }
        let i = self.find(key);
        if i < self.entries.len() {
            let mut entries: Vec<(String, V)> = Vec::new();
            assert(key_seq(entries@) =~= Seq::<Seq<char>>::empty());
            std::mem::swap(&mut entries, &mut self.entries);
            proof {
                lemma_removed(entries@, i as int);
                assert(key_seq(entries@)[i as int] == key@);
            }
            let (_, value) = entries.remove(i);
            self.entries = entries;
            assert(old(self).order()[i as int] == key@);
            Some(value)
        } else {
            assert(self@.remove(key@) =~= self@);
            None
        }
    }

    /// How many keys there are.
    pub fn len(&self) -> (r: usize)
        ensures
            r == self@.len(),
            r == self.order().len(),
            self@.dom().finite(),
            self.order().no_duplicates(),
            forall|k: Seq<char>| self@.contains_key(k) <==> #[trigger] self.order().contains(k),
    {
        proof {
            use_type_invariant(self);
            let keys = key_seq(self.entries@);
            keys.unique_seq_to_set();
            assert(self@.dom() =~= keys.to_set());
        }
        self.entries.len()
    }

    /// Whether there is no key.
    pub fn is_empty(&self) -> (r: bool)
        ensures
            r == (self@ =~= Map::<Seq<char>, V>::empty()),
            r == (self.order().len() == 0),
    {
        proof {
            use_type_invariant(self);
            if self.entries@.len() > 0 {
                lemma_found(self.entries@, 0);
            } else {
                assert(self@ =~= Map::<Seq<char>, V>::empty());
            }
        }
        self.entries.len() == 0
    }

    /// The key in place `i` and what is under it.
    pub fn entry(&self, i: usize) -> (r: (&String, &V))
        requires
            i < self.order().len(),
        ensures
            r.0@ == self.order()[i as int],
            self@.contains_key(r.0@),
            *r.1 == self@[r.0@],
    {
        proof {
            use_type_invariant(self);
            lemma_found(self.entries@, i as int);
        }
        (&self.entries[i].0, &self.entries[i].1)
    }
}

impl<V: Clone> Clone for TextMap<V> {
    fn clone(&self) -> (r: Self)
        ensures
            r.order() == self.order(),
            r@.dom() == self@.dom(),
            forall|k: Seq<char>| #[trigger] self@.contains_key(k) ==> cloned::<V>(self@[k], r@[k]),
    {
        proof {
            use_type_invariant(self);
        }
        let mut entries: Vec<(String, V)> = Vec::new();
        let mut i: usize = 0;
        while i < self.entries.len()
            invariant
                i <= self.entries@.len(),
                entries@.len() == i,
                forall|j: int| 0 <= j < i ==> (#[trigger] entries@[j]).0@ == self.entries@[j].0@,
                forall|j: int|
                    0 <= j < i ==> cloned::<V>(self.entries@[j].1, (#[trigger] entries@[j]).1),
            decreases self.entries@.len() - i,
        {
            entries.push((self.entries[i].0.clone(), self.entries[i].1.clone()));
            i += 1;
        }
        proof {
            assert(key_seq(entries@) =~= key_seq(self.entries@));
            assert forall|k: Seq<char>| #[trigger] contents(self.entries@).contains_key(k) implies cloned::<V>(
                contents(self.entries@)[k],
                contents(entries@)[k],
            ) by {
                let j = choose|j: int| 0 <= j < entries@.len() && key_seq(entries@)[j] == k;
                lemma_found(entries@, j);
                lemma_found(self.entries@, j);
            }
            assert(contents(entries@).dom() =~= contents(self.entries@).dom());
        }
        TextMap { entries }
    }
}

/// The number of a JSON document.
///
/// An integer that fits is held as one. Any other number is held by its text.
#[derive(Debug)]
pub enum Number {
    /// An integer from zero up.
    Unsigned(u64),
    /// An integer below zero.
    Negative(i64),
    /// The text of a number that is not an integer of 64 bits.
    Other(String),
}

/// A value of a JSON document.
#[derive(Debug)]
pub enum Json {
    /// `null`.
    Null,
    /// `true` or `false`.
    Bool(bool),
    /// A number.
    Number(Number),
    /// A string.
    String(String),
    /// An array.
    Array(Vec<Json>),
    /// An object.
    Object(TextMap<Json>),
}

/// What a [`Number`] is.
pub enum NumberTree {
    /// An integer.
    Integer(int),
    /// The text of another number.
    Other(Seq<char>),
}

/// What a [`Json`] is, with text and arrays as sequences and an object as a
/// map.
pub enum Tree {
    /// `null`.
    Null,
    /// `true` or `false`.
    Bool(bool),
    /// A number.
    Number(NumberTree),
    /// A string.
    String(Seq<char>),
    /// An array.
    Array(Seq<Tree>),
    /// An object.
    Object(Map<Seq<char>, Tree>),
}

impl View for Number {
    type V = NumberTree;

    open spec fn view(&self) -> NumberTree {
        match self {
            Number::Unsigned(n) => NumberTree::Integer(*n as int),
            Number::Negative(n) => NumberTree::Integer(*n as int),
            Number::Other(s) => NumberTree::Other(s@),
        }
    }
}

impl Json {
    /// The tree of this value.
    pub closed spec fn tree(&self) -> Tree
        decreases self,
    {
        match self {
            Json::Null => Tree::Null,
            Json::Bool(b) => Tree::Bool(*b),
            Json::Number(n) => Tree::Number(n@),
            Json::String(s) => Tree::String(s@),
            Json::Array(items) => Tree::Array(
                Seq::new(
                    items@.len(),
                    |i: int|
                        if 0 <= i < items@.len() {
                            items@[i].tree()
                        } else {
                            Tree::Null
                        },
                ),
            ),
            Json::Object(map) => Tree::Object(
                Map::new(
                    |k: Seq<char>| key_seq(map.entries@).contains(k),
                    |k: Seq<char>|
                        {
                            let i = key_seq(map.entries@).index_of(k);
                            if 0 <= i < map.entries@.len() {
                                map.entries@[i].1.tree()
                            } else {
                                Tree::Null
                            }
                        },
                ),
            ),
        }
    }

    /// Whether this value and `other` are the same, whatever the order of the
    /// keys in their objects.
    fn same(&self, other: &Json) -> (r: bool)
        ensures
            r == (self.tree() == other.tree()),
        decreases self,
    {
        proof {
            lemma_tree(*self);
            lemma_tree(*other);
        }
        match (self, other) {
            (Json::Null, Json::Null) => true,
            (Json::Bool(a), Json::Bool(b)) => *a == *b,
            (Json::Number(a), Json::Number(b)) => a.same(b),
            (Json::String(a), Json::String(b)) => text::same(a.as_str(), b.as_str()),
            (Json::Array(a), Json::Array(b)) => {
                let ghost ta = a@.map_values(|i: Json| i.tree());
                let ghost tb = b@.map_values(|i: Json| i.tree());
                if a.len() != b.len() {
                    assert(ta.len() != tb.len());
                    return false;
                }
                let mut i: usize = 0;
                while i < a.len()
                    invariant
                        i <= a@.len() == b@.len(),
                        self matches Json::Array(inner) && inner == a,
                        self.tree() == Tree::Array(ta),
                        other.tree() == Tree::Array(tb),
                        ta == a@.map_values(|i: Json| i.tree()),
                        tb == b@.map_values(|i: Json| i.tree()),
                        forall|j: int| 0 <= j < i ==> #[trigger] ta[j] == tb[j],
                    decreases a@.len() - i,
                {
                    assert(decreases_to!(*self => a@[i as int]));
                    if !a[i].same(&b[i]) {
                        assert(ta[i as int] != tb[i as int]);
                        return false;
                    }
                    i += 1;
                }
                assert(ta =~= tb);
                true
            },
            (Json::Object(a), Json::Object(b)) => {
                proof {
                    use_type_invariant(a);
                }
                let ghost ta = a.trees();
                let ghost tb = b.trees();
                let mut i: usize = 0;
                while i < a.entries.len()
                    invariant
                        i <= a.entries@.len(),
                        distinct_keys(a.entries@),
                        self matches Json::Object(inner) && inner == a,
                        self.tree() == Tree::Object(ta),
                        other.tree() == Tree::Object(tb),
                        ta == a.trees(),
                        tb == b.trees(),
                        forall|j: int|
                            0 <= j < i ==> tb.contains_key((#[trigger] a.entries@[j]).0@)
                                && tb[a.entries@[j].0@] == a.entries@[j].1.tree(),
                    decreases a.entries@.len() - i,
                {
                    assert(decreases_to!(*self => a.entries@[i as int].1));
                    proof {
                        lemma_found(a.entries@, i as int);
                        assert(ta.contains_key(a.entries@[i as int].0@));
                        assert(ta[a.entries@[i as int].0@] == a.entries@[i as int].1.tree());
                    }
                    let held = match b.get(a.entries[i].0.as_str()) {
                        Some(v) => a.entries[i].1.same(v),
                        None => false,
                    };
                    if !held {
                        assert(ta != tb);
                        return false;
                    }
                    i += 1;
                }
                let n = b.len();
                let mut k: usize = 0;
                while k < n
                    invariant
                        k <= n,
                        n == b.order().len(),
                        self.tree() == Tree::Object(ta),
                        other.tree() == Tree::Object(tb),
                        ta == a.trees(),
                        tb == b.trees(),
                        forall|j: int| 0 <= j < k ==> a@.contains_key(#[trigger] b.order()[j]),
                    decreases n - k,
                {
                    let (key, _) = b.entry(k);
                    if !a.contains_key(key.as_str()) {
                        assert(tb.contains_key(key@) && !ta.contains_key(key@));
                        return false;
                    }
                    k += 1;
                }
                proof {
                    assert forall|x: Seq<char>| tb.contains_key(x) implies ta.contains_key(x) by {
                        assert(b.order().contains(x));
                        let j = choose|j: int| 0 <= j < b.order().len() && b.order()[j] == x;
                        assert(a@.contains_key(b.order()[j]));
                    }
                    assert forall|x: Seq<char>| ta.contains_key(x) implies tb.contains_key(x)
                        && ta[x] == tb[x] by {
                        let keys = key_seq(a.entries@);
                        assert(keys.contains(x));
                        let j = choose|j: int| 0 <= j < keys.len() && keys[j] == x;
                        assert(a.entries@[j].0@ == x);
                        lemma_found(a.entries@, j);
                    }
                    assert(ta =~= tb);
                }
                true
            },
            _ => false,
        }
    }

    /// A copy of this value.
    fn copy(&self) -> (r: Json)
        ensures
            r.tree() == self.tree(),
        decreases self,
    {
        match self {
            Json::Null => Json::Null,
            Json::Bool(b) => Json::Bool(*b),
            Json::Number(n) => Json::Number(n.clone()),
            Json::String(s) => Json::String(s.clone()),
            Json::Array(items) => {
                let mut out: Vec<Json> = Vec::new();
                let mut i: usize = 0;
                while i < items.len()
                    invariant
                        i <= items@.len(),
                        self matches Json::Array(inner) && inner == items,
                        out@.len() == i,
                        forall|j: int| 0 <= j < i ==> (#[trigger] out@[j]).tree() == items@[j].tree(),
                    decreases items@.len() - i,
                {
                    assert(decreases_to!(*self => items@[i as int]));
                    out.push(items[i].copy());
                    i += 1;
                }
                let r = Json::Array(out);
                proof {
                    assert(r.tree()->Array_0 =~= self.tree()->Array_0);
                }
                r
            },
            Json::Object(map) => {
                proof {
                    use_type_invariant(map);
                }
                let mut entries: Vec<(String, Json)> = Vec::new();
                let mut i: usize = 0;
                while i < map.entries.len()
                    invariant
                        i <= map.entries@.len(),
                        self matches Json::Object(inner) && inner == map,
                        entries@.len() == i,
                        forall|j: int| 0 <= j < i ==> (#[trigger] entries@[j]).0@ == map.entries@[j].0@,
                        forall|j: int|
                            0 <= j < i ==> (#[trigger] entries@[j]).1.tree() == map.entries@[j].1.tree(),
                    decreases map.entries@.len() - i,
                {
                    assert(decreases_to!(*self => map.entries@[i as int].1));
                    entries.push((map.entries[i].0.clone(), map.entries[i].1.copy()));
                    i += 1;
                }
                proof {
                    assert(key_seq(entries@) =~= key_seq(map.entries@));
                }
                let r = Json::Object(TextMap { entries });
                proof {
                    lemma_object_tree(*self);
                    lemma_object_tree(r);
                    let a = self.tree()->Object_0;
                    let b = r.tree()->Object_0;
                    assert forall|k: Seq<char>| #[trigger] a.contains_key(k) implies a[k] == b[k] by {
                        let j = choose|j: int| 0 <= j < entries@.len() && key_seq(entries@)[j] == k;
                        lemma_found(entries@, j);
                        lemma_found(map.entries@, j);
                    }
                    assert(a =~= b);
                }
                r
            },
        }
    }
}

/// A set of texts. What came first stays first.
#[derive(Debug)]
pub struct TextSet {
    items: TextMap<()>,
}

impl View for TextSet {
    type V = Set<Seq<char>>;

    closed spec fn view(&self) -> Set<Seq<char>> {
        self.items@.dom()
    }
}

impl TextSet {
    /// The members, in the order in which they came in.
    pub closed spec fn order(&self) -> Seq<Seq<char>> {
        self.items.order()
    }

    /// A set with no members.
    pub fn new() -> (r: Self)
        ensures
            r@ == Set::<Seq<char>>::empty(),
            r.order() == Seq::<Seq<char>>::empty(),
    {
        let r = TextSet { items: TextMap::new() };
        assert(r@ =~= Set::<Seq<char>>::empty());
        r
    }

    /// Whether `value` is a member.
    pub fn contains(&self, value: &str) -> (r: bool)
        ensures
            r == self@.contains(value@),
    {
        self.items.contains_key(value)
    }

    /// Makes `value` a member; whether it was none before.
    pub fn insert(&mut self, value: String) -> (r: bool)
        ensures
            r == !old(self)@.contains(value@),
            final(self)@ == old(self)@.insert(value@),
            final(self).order() == (if r {
                old(self).order().push(value@)
            } else {
                old(self).order()
            }),
    {
        if self.items.contains_key(value.as_str()) {
            assert(self@.insert(value@) =~= self@);
            false
        } else {
            self.items.insert(value, ());
            assert(self@ =~= old(self)@.insert(value@));
            true
        }
    }

    /// Takes `value` out; whether it was a member.
    pub fn remove(&mut self, value: &str) -> (r: bool)
        ensures
            r == old(self)@.contains(value@),
            final(self)@ == old(self)@.remove(value@),
    {
        let removed = self.items.remove(value);
        assert(self@ =~= old(self)@.remove(value@));
        removed.is_some()
    }

    /// How many members there are.
    pub fn len(&self) -> (r: usize)
        ensures
            r == self@.len(),
            r == self.order().len(),
            self@.finite(),
            self.order().no_duplicates(),
            forall|k: Seq<char>| self@.contains(k) <==> #[trigger] self.order().contains(k),
    {
        let n = self.items.len();
        assert forall|k: Seq<char>| self@.contains(k) <==> #[trigger] self.order().contains(k) by {
            assert(self.items@.contains_key(k) <==> self.items.order().contains(k));
        }
        n
    }

    /// Whether there is no member.
    pub fn is_empty(&self) -> (r: bool)
        ensures
            r == (self@ =~= Set::<Seq<char>>::empty()),
    {
        let r = self.items.is_empty();
        proof {
            if r {
                assert(self@ =~= Set::<Seq<char>>::empty());
            } else if self@ =~= Set::<Seq<char>>::empty() {
                assert(self.items@ =~= Map::<Seq<char>, ()>::empty());
            }
        }
        r
    }

    /// The member in place `i`.
    pub fn item(&self, i: usize) -> (r: &String)
        requires
            i < self.order().len(),
        ensures
            r@ == self.order()[i as int],
            self@.contains(r@),
    {
        self.items.entry(i).0
    }

    /// Whether every member of `other` is a member.
    pub fn is_superset(&self, other: &TextSet) -> (r: bool)
        ensures
            r == other@.subset_of(self@),
    {
        let n = other.len();
        let mut i: usize = 0;
        while i < n
            invariant
                i <= n,
                n == other.order().len(),
                forall|k: Seq<char>| other@.contains(k) <==> #[trigger] other.order().contains(k),
                forall|j: int| 0 <= j < i ==> self@.contains(#[trigger] other.order()[j]),
            decreases n - i,
        {
            let item = other.item(i);
            if !self.contains(item.as_str()) {
                assert(other@.contains(item@));
                return false;
            }
            i += 1;
        }
        assert forall|k: Seq<char>| other@.contains(k) implies self@.contains(k) by {
            assert(other.order().contains(k));
            let j = choose|j: int| 0 <= j < other.order().len() && other.order()[j] == k;
            assert(self@.contains(other.order()[j]));
        }
        true
    }
}

impl Clone for TextSet {
    fn clone(&self) -> (r: Self)
        ensures
            r@ == self@,
            r.order() == self.order(),
    {
        let r = TextSet { items: self.items.clone() };
        assert(r@ =~= self@);
        r
    }
}

impl TextMap<String> {
    /// The texts that the keys are mapped to.
    pub open spec fn texts(&self) -> Map<Seq<char>, Seq<char>> {
        self@.map_values(|s: String| s@)
    }
}

impl TextMap<Json> {
    /// The trees that the keys are mapped to.
    pub open spec fn trees(&self) -> Map<Seq<char>, Tree> {
        self@.map_values(|v: Json| v.tree())
    }
}

/// The tree of an object maps its keys to the trees of its values.
proof fn lemma_object_tree(v: Json)
    requires
        v is Object,
    ensures
        v.tree() == Tree::Object(v->Object_0.trees()),
{
    let map = v->Object_0;
    let a = v.tree()->Object_0;
    assert(a.dom() =~= map.trees().dom());
    assert forall|k: Seq<char>| #[trigger] a.contains_key(k) implies a[k] == map.trees()[k] by {
        let keys = key_seq(map.entries@);
        assert(keys.contains(k));
        assert(0 <= keys.index_of(k) < keys.len());
    }
    assert(a =~= map.trees());
}

/// What the tree of a value is, by the value's kind.
pub proof fn lemma_tree(v: Json)
    ensures
        match v {
            Json::Null => v.tree() == Tree::Null,
            Json::Bool(b) => v.tree() == Tree::Bool(b),
            Json::Number(n) => v.tree() == Tree::Number(n@),
            Json::String(s) => v.tree() == Tree::String(s@),
            Json::Array(items) => v.tree() == Tree::Array(items@.map_values(|i: Json| i.tree())),
            Json::Object(map) => v.tree() == Tree::Object(map.trees()),
        },
{
    match v {
        Json::Array(items) => {
            assert(v.tree()->Array_0 =~= items@.map_values(|i: Json| i.tree()));
        },
        Json::Object(map) => {
            lemma_object_tree(v);
        },
        _ => {},
    }
}

impl Number {
    /// Whether this number and `other` are the same.
    fn same(&self, other: &Number) -> (r: bool)
        ensures
            r == (self@ == other@),
    {
        match (self, other) {
            (Number::Unsigned(a), Number::Unsigned(b)) => *a == *b,
            (Number::Negative(a), Number::Negative(b)) => *a == *b,
            (Number::Unsigned(a), Number::Negative(b)) => *b >= 0 && *a == *b as u64,
            (Number::Negative(a), Number::Unsigned(b)) => *a >= 0 && *a as u64 == *b,
            (Number::Other(a), Number::Other(b)) => text::same(a.as_str(), b.as_str()),
            _ => false,
        }
    }
}

impl PartialEq for Json {
    fn eq(&self, other: &Self) -> (r: bool) {
        self.same(other)
    }
}

impl PartialEqSpecImpl for Json {
    open spec fn obeys_eq_spec() -> bool {
        true
    }

    open spec fn eq_spec(&self, other: &Self) -> bool {
        self.tree() == other.tree()
    }
}

impl Clone for Number {
    fn clone(&self) -> (r: Self)
        ensures
            r@ == self@,
    {
        match self {
            Number::Unsigned(n) => Number::Unsigned(*n),
            Number::Negative(n) => Number::Negative(*n),
            Number::Other(s) => Number::Other(s.clone()),
        }
    }
}

impl Clone for Json {
    fn clone(&self) -> (r: Self)
        ensures
            r.tree() == self.tree(),
    {
        self.copy()
    }
}

/// What a list of values is.
pub open spec fn tree_seq(v: Seq<Json>) -> Seq<Tree> {
    v.map_values(|j: Json| j.tree())
}

/// A copy of a list of values.
pub fn copy_values(v: &Vec<Json>) -> (r: Vec<Json>)
    ensures
        tree_seq(r@) == tree_seq(v@),
{
    let mut out: Vec<Json> = Vec::new();
    let mut i: usize = 0;
    while i < v.len()
        invariant
            i <= v@.len(),
            out@.len() == i,
            forall|k: int| 0 <= k < i ==> (#[trigger] out@[k]).tree() == v@[k].tree(),
        decreases v@.len() - i,
    {
        out.push(v[i].clone());
        i += 1;
    }
    assert(tree_seq(out@) =~= tree_seq(v@));
    out
}

/// The texts of `v`.
pub open spec fn text_seq(v: Seq<String>) -> Seq<Seq<char>> {
    Seq::new(v.len(), |i: int| v[i]@)
}

/// The text of `o`, where there is one.
pub open spec fn opt_text(o: Option<String>) -> Option<Seq<char>> {
    match o {
        Some(s) => Some(s@),
        None => None,
    }
}

/// The text of `o`, where there is one.
pub open spec fn opt_str(o: Option<&str>) -> Option<Seq<char>> {
    match o {
        Some(s) => Some(s@),
        None => None,
    }
}

/// The texts of `o`, where there are any.
pub open spec fn opt_text_seq(o: Option<Vec<String>>) -> Option<Seq<Seq<char>>> {
    match o {
        Some(v) => Some(text_seq(v@)),
        None => None,
    }
}

/// A copy of `v`.
pub fn copy_texts(v: &Vec<String>) -> (r: Vec<String>)
    ensures
        text_seq(r@) == text_seq(v@),
{
    let mut out: Vec<String> = Vec::new();
    let mut i: usize = 0;
    while i < v.len()
        invariant
            i <= v@.len(),
            out@.len() == i,
            forall|j: int| 0 <= j < i ==> (#[trigger] out@[j])@ == v@[j]@,
        decreases v@.len() - i,
    {
        out.push(v[i].clone());
        i += 1;
    }
    assert(text_seq(out@) =~= text_seq(v@));
    out
}

/// A copy of `v`, where there is one.
pub fn copy_opt_texts(v: &Option<Vec<String>>) -> (r: Option<Vec<String>>)
    ensures
        opt_text_seq(r) == opt_text_seq(*v),
{
    match v {
        Some(v) => Some(copy_texts(v)),
        None => None,
    }
}

/// Whether two lists hold the same texts in the same order.
pub fn same_texts(a: &Vec<String>, b: &Vec<String>) -> (r: bool)
    ensures
        r == (text_seq(a@) == text_seq(b@)),
{
    if a.len() != b.len() {
        assert(text_seq(a@).len() != text_seq(b@).len());
        return false;
    }
    let mut i: usize = 0;
    while i < a.len()
        invariant
            i <= a@.len(),
            a@.len() == b@.len(),
            forall|j: int| 0 <= j < i ==> (#[trigger] a@[j])@ == b@[j]@,
        decreases a@.len() - i,
    {
        if !text::same(a[i].as_str(), b[i].as_str()) {
            assert(text_seq(a@)[i as int] != text_seq(b@)[i as int]);
            return false;
        }
        i += 1;
    }
    assert(text_seq(a@) =~= text_seq(b@));
    true
}

/// Whether two optional texts are the same.
pub fn same_opt_text(a: &Option<String>, b: &Option<String>) -> (r: bool)
    ensures
        r == (opt_text(*a) == opt_text(*b)),
{
    match (a, b) {
        (Some(a), Some(b)) => text::same(a.as_str(), b.as_str()),
        (None, None) => true,
        _ => false,
    }
}

/// A value that another value is kept under.
pub trait MapKey: Sized {
    /// What tells one key from another.
    type Id;

    /// What tells this key from another.
    spec fn id(&self) -> Self::Id;

    /// Whether the two are one key.
    fn same_key(&self, other: &Self) -> (r: bool)
        ensures
            r == (self.id() == other.id()),
    ;

    /// The same key again.
    fn copy_key(&self) -> (r: Self)
        ensures
            r.id() == self.id(),
    ;
}

/// Which entries have the key `id`.
pub open spec fn keyed_at<K: MapKey, V>(entries: Seq<(K, V)>, id: K::Id) -> spec_fn(int) -> bool {
    |i: int| entries[i].0.id() == id
}

/// The place of the first entry with the key `id`, or the number of entries.
pub open spec fn key_index<K: MapKey, V>(entries: Seq<(K, V)>, id: K::Id) -> int {
    text::first_where(keyed_at(entries, id), entries.len() as int)
}

/// Whether no key of `entries` occurs twice.
spec fn distinct_ids<K: MapKey, V>(entries: Seq<(K, V)>) -> bool {
    forall|i: int, j: int|
        0 <= i < j < entries.len() ==> (#[trigger] entries[i]).0.id() != (
        #[trigger] entries[j]).0.id()
}

/// A map from keys to values. No key occurs twice; what came first stays first.
#[derive(Debug)]
pub struct KeyMap<K: MapKey, V> {
    entries: Vec<(K, V)>,
}

impl<K: MapKey, V> View for KeyMap<K, V> {
    type V = Map<K::Id, V>;

    closed spec fn view(&self) -> Map<K::Id, V> {
        Map::new(
            |id: K::Id| key_index(self.entries@, id) < self.entries@.len(),
            |id: K::Id| self.entries@[key_index(self.entries@, id)].1,
        )
    }
}

impl<K: MapKey, V> KeyMap<K, V> {
    #[verifier::type_invariant]
    spec fn wf(self) -> bool {
        distinct_ids(self.entries@)
    }

    /// The keys, in the order in which they came in.
    pub closed spec fn order(&self) -> Seq<K> {
        Seq::new(self.entries@.len(), |i: int| self.entries@[i].0)
    }

    /// How many keys there are.
    pub fn len(&self) -> (r: usize)
        ensures
            self@.dom().finite(),
            r == self@.len(),
            r == self.order().len(),
            forall|i: int, j: int|
                0 <= i < j < self.order().len() ==> (#[trigger] self.order()[i]).id() != (
                #[trigger] self.order()[j]).id(),
            forall|id: K::Id| #[trigger]
                self@.contains_key(id) <==> exists|i: int|
                    0 <= i < self.order().len() && (#[trigger] self.order()[i]).id() == id,
    {
        proof {
            use_type_invariant(self);
            let n = self.entries@.len() as int;
            assert forall|id: K::Id| #[trigger]
                self@.contains_key(id) <==> exists|i: int|
                    0 <= i < self.order().len() && (#[trigger] self.order()[i]).id() == id by {
                text::lemma_first_from_is(keyed_at(self.entries@, id), 0, n);
                let p = key_index(self.entries@, id);
                if p < n {
                    assert(keyed_at(self.entries@, id)(p));
                    assert(self.order()[p].id() == id);
                }
                if exists|i: int| 0 <= i < n && (#[trigger] self.order()[i]).id() == id {
                    let i = choose|i: int| 0 <= i < n && (#[trigger] self.order()[i]).id() == id;
                    assert(keyed_at(self.entries@, id)(i));
                }
            }
            let ids = Seq::new(self.entries@.len(), |i: int| self.entries@[i].0.id());
            assert forall|id: K::Id| self@.dom().contains(id) <==> #[trigger] ids.contains(id) by {
                if ids.contains(id) {
                    let i = choose|i: int| 0 <= i < ids.len() && ids[i] == id;
                    assert(self.order()[i].id() == id);
                    assert(self@.contains_key(id));
                }
                if self@.contains_key(id) {
                    let i = choose|i: int|
                        0 <= i < self.order().len() && (#[trigger] self.order()[i]).id() == id;
                    assert(ids[i] == id);
                }
            }
            assert(self@.dom() =~= ids.to_set());
            assert(ids.no_duplicates());
            ids.unique_seq_to_set();
        }
        self.entries.len()
    }

    /// The key in place `i`, and its value.
    pub fn entry(&self, i: usize) -> (r: (&K, &V))
        requires
            i < self.order().len(),
        ensures
            *r.0 == self.order()[i as int],
            self@.contains_key(r.0.id()),
            *r.1 == self@[r.0.id()],
    {
        proof {
            use_type_invariant(self);
            let id = self.entries@[i as int].0.id();
            assert forall|j: int| 0 <= j < i implies !#[trigger] keyed_at(self.entries@, id)(j) by {
                assert(self.entries@[j].0.id() != self.entries@[i as int].0.id());
            }
            assert(keyed_at(self.entries@, id)(i as int));
            text::lemma_first_from(
                keyed_at(self.entries@, id),
                0,
                self.entries@.len() as int,
                i as int,
            );
        }
        (&self.entries[i].0, &self.entries[i].1)
    }

    /// A map with nothing in it.
    pub fn new() -> (r: Self)
        ensures
            r@ == Map::<K::Id, V>::empty(),
    {
        let r: KeyMap<K, V> = KeyMap { entries: Vec::new() };
        assert(r@ =~= Map::<K::Id, V>::empty());
        r
    }

    fn find(&self, key: &K) -> (r: usize)
        ensures
            r == key_index(self.entries@, key.id()),
            r <= self.entries@.len(),
    {
        let mut i: usize = 0;
        while i < self.entries.len()
            invariant
                i <= self.entries@.len(),
                forall|j: int| 0 <= j < i ==> !#[trigger] keyed_at(self.entries@, key.id())(j),
            decreases self.entries@.len() - i,
        {
            if self.entries[i].0.same_key(key) {
                proof {
                    assert(keyed_at(self.entries@, key.id())(i as int));
                    text::lemma_first_from(
                        keyed_at(self.entries@, key.id()),
                        0,
                        self.entries@.len() as int,
                        i as int,
                    );
                }
                return i;
            }
            i += 1;
        }
        proof {
            text::lemma_first_from(
                keyed_at(self.entries@, key.id()),
                0,
                self.entries@.len() as int,
                self.entries@.len() as int,
            );
        }
        i
    }

    /// The value under `key`, where there is one.
    pub fn get(&self, key: &K) -> (r: Option<&V>)
        ensures
            r is Some <==> self@.contains_key(key.id()),
            r is Some ==> *r->Some_0 == self@[key.id()],
    {
        let i = self.find(key);
        if i < self.entries.len() {
            Some(&self.entries[i].1)
        } else {
            None
        }
    }

    /// Puts `value` under `key`, in the place of what was there.
    pub fn insert(&mut self, key: K, value: V)
        ensures
            final(self)@ == old(self)@.insert(key.id(), value),
    {
        proof {
            use_type_invariant(&*self);
        }
        let i = self.find(&key);
        let ghost was = self.entries@;
        let ghost id = key.id();
        let n = self.entries.len();
        proof {
            text::lemma_first_from_is(keyed_at(was, id), 0, n as int);
            if i < n {
                assert(keyed_at(was, id)(i as int));
            }
        }
        let mut entries: Vec<(K, V)> = Vec::new();
        std::mem::swap(&mut entries, &mut self.entries);
        if i < n {
            entries.set(i, (key, value));
        } else {
            entries.push((key, value));
        }
        let ghost now = entries@;
        proof {
            assert(now[i as int] == (key, value));
            assert forall|a: int, b: int| 0 <= a < b < now.len() implies (
            #[trigger] now[a]).0.id() != (#[trigger] now[b]).0.id() by {
                if a != i && b != i {
                    assert(was[a].0.id() != was[b].0.id());
                } else if b == i && i == n {
                    assert(!keyed_at(was, id)(a));
                } else {
                    assert(was[a].0.id() != was[b].0.id());
                }
            }
        }
        self.entries = entries;
        proof {
            assert forall|k: K::Id| #[trigger] self@.contains_key(k) <==> old(self)@.insert(
                id,
                value,
            ).contains_key(k) by {
                lemma_index_after(was, now, i as int, k);
            }
            assert forall|k: K::Id| #[trigger] self@.contains_key(k) implies self@[k] == old(
                self,
            )@.insert(id, value)[k] by {
                lemma_index_after(was, now, i as int, k);
                assert(now[i as int].1 == value);
            }
            assert(self@ =~= old(self)@.insert(id, value));
        }
    }

    /// Whether there is no entry.
    pub fn is_empty(&self) -> (r: bool)
        ensures
            r == (self@ =~= Map::<K::Id, V>::empty()),
    {
        proof {
            if self.entries@.len() > 0 {
                let id = self.entries@[0].0.id();
                assert(keyed_at(self.entries@, id)(0));
                text::lemma_first_from(keyed_at(self.entries@, id), 0, self.entries@.len() as int, 0);
                assert(self@.contains_key(id));
            } else {
                assert(self@ =~= Map::<K::Id, V>::empty());
            }
        }
        self.entries.len() == 0
    }
}

/// Where a key is found once another entry was written at `i`.
proof fn lemma_index_after<K: MapKey, V>(
    was: Seq<(K, V)>,
    now: Seq<(K, V)>,
    i: int,
    k: K::Id,
)
    requires
        0 <= i <= was.len(),
        now.len() == (if i < was.len() { was.len() } else { was.len() + 1 }),
        i == key_index(was, now[i].0.id()),
        forall|j: int| 0 <= j < was.len() && j != i ==> now[j] == was[j],
    ensures
        k == now[i].0.id() ==> key_index(now, k) == i,
        k != now[i].0.id() && key_index(was, k) < was.len() ==> key_index(now, k) == key_index(was, k)
            && now[key_index(was, k)] == was[key_index(was, k)],
        k != now[i].0.id() && key_index(was, k) == was.len() ==> key_index(now, k) == now.len(),
        key_index(was, k) <= was.len(),
{
    let id = now[i].0.id();
    text::lemma_first_from_is(keyed_at(was, id), 0, was.len() as int);
    text::lemma_first_from_is(keyed_at(was, k), 0, was.len() as int);
    let p = key_index(was, k);
    if k == id {
        assert forall|j: int| 0 <= j < i implies !#[trigger] keyed_at(now, k)(j) by {
            assert(!keyed_at(was, id)(j));
            assert(now[j] == was[j]);
        }
        assert(keyed_at(now, k)(i));
        text::lemma_first_from(keyed_at(now, k), 0, now.len() as int, i);
    } else if p < was.len() {
        assert(keyed_at(was, k)(p));
        if p == i {
            assert(keyed_at(was, id)(i));
        }
        assert forall|j: int| 0 <= j < p implies !#[trigger] keyed_at(now, k)(j) by {
            assert(!keyed_at(was, k)(j));
        }
        assert(now[p] == was[p]);
        assert(keyed_at(now, k)(p));
        text::lemma_first_from(keyed_at(now, k), 0, now.len() as int, p);
    } else {
        assert forall|j: int| 0 <= j < now.len() implies !#[trigger] keyed_at(now, k)(j) by {
            if j != i {
                assert(!keyed_at(was, k)(j));
            }
        }
        text::lemma_first_from(keyed_at(now, k), 0, now.len() as int, now.len() as int);
    }
}

impl<K: MapKey, V: Clone> Clone for KeyMap<K, V> {
    fn clone(&self) -> (r: Self)
        ensures
            r@.dom() == self@.dom(),
            forall|k: K::Id| #[trigger] self@.contains_key(k) ==> cloned::<V>(self@[k], r@[k]),
    {
        proof {
            use_type_invariant(self);
        }
        let mut entries: Vec<(K, V)> = Vec::new();
        let mut i: usize = 0;
        while i < self.entries.len()
            invariant
                i <= self.entries@.len(),
                entries@.len() == i,
                forall|j: int| 0 <= j < i ==> (#[trigger] entries@[j]).0.id() == self.entries@[j].0.id(),
                forall|j: int|
                    0 <= j < i ==> cloned::<V>(self.entries@[j].1, (#[trigger] entries@[j]).1),
            decreases self.entries@.len() - i,
        {
            entries.push((self.entries[i].0.copy_key(), self.entries[i].1.clone()));
            i += 1;
        }
        assert forall|a: int, b: int| 0 <= a < b < entries@.len() implies (
        #[trigger] entries@[a]).0.id() != (#[trigger] entries@[b]).0.id() by {
            assert(self.entries@[a].0.id() != self.entries@[b].0.id());
        }
        let r = KeyMap { entries };
        proof {
            assert forall|k: K::Id| #[trigger] self@.contains_key(k) <==> r@.contains_key(k) by {
                lemma_index_same(self.entries@, r.entries@, k);
            }
            assert forall|k: K::Id| #[trigger] self@.contains_key(k) implies cloned::<V>(
                self@[k],
                r@[k],
            ) by {
                lemma_index_same(self.entries@, r.entries@, k);
                text::lemma_first_from_is(
                    keyed_at(self.entries@, k),
                    0,
                    self.entries@.len() as int,
                );
                let p = key_index(self.entries@, k);
                assert(cloned::<V>(self.entries@[p].1, r.entries@[p].1));
            }
            assert(r@.dom() =~= self@.dom());
        }
        r
    }
}

/// Entries with the same keys are found in the same places.
proof fn lemma_index_same<K: MapKey, V>(a: Seq<(K, V)>, b: Seq<(K, V)>, k: K::Id)
    requires
        a.len() == b.len(),
        forall|j: int| 0 <= j < a.len() ==> (#[trigger] b[j]).0.id() == a[j].0.id(),
    ensures
        key_index(a, k) == key_index(b, k),
{
    let n = a.len() as int;
    text::lemma_first_from_is(keyed_at(a, k), 0, n);
    let p = key_index(a, k);
    assert forall|j: int| 0 <= j < p implies !#[trigger] keyed_at(b, k)(j) by {
        assert(!keyed_at(a, k)(j));
        assert(b[j].0.id() == a[j].0.id());
    }
    if p < n {
        assert(keyed_at(a, k)(p));
        assert(b[p].0.id() == a[p].0.id());
        assert(keyed_at(b, k)(p));
    }
    text::lemma_first_from(keyed_at(b, k), 0, n, p);
}

/// A map that shares what `m` holds.
pub fn share<T>(m: &TextMap<Arc<T>>) -> (r: TextMap<Arc<T>>)
    ensures
        r@ == m@,
        r.order() == m.order(),
{
    let mut out: TextMap<Arc<T>> = TextMap::new();
    let n = m.len();
    let mut i: usize = 0;
    assert(m.order().take(0) =~= Seq::<Seq<char>>::empty());
    while i < n
        invariant
            i <= n,
            n == m.order().len(),
            m.order().no_duplicates(),
            out.order() == m.order().take(i as int),
            forall|k: Seq<char>| #[trigger]
                out@.contains_key(k) <==> m.order().take(i as int).contains(k),
            forall|k: Seq<char>| #[trigger] out@.contains_key(k) ==> out@[k] == m@[k],
        decreases n - i,
    {
        let (key, v) = m.entry(i);
        let ghost before = out;
        let ghost done = m.order().take(i as int);
        proof {
            if done.contains(key@) {
                let k = choose|k: int| 0 <= k < done.len() && done[k] == key@;
                assert(m.order()[k] == m.order()[i as int]);
            }
        }
        out.insert(key.clone(), v.clone());
        proof {
            let next = m.order().take(i + 1);
            assert(next =~= done.push(key@));
            assert forall|k: Seq<char>| #[trigger] out@.contains_key(k) <==> next.contains(k) by {
                if next.contains(k) {
                    let j = choose|j: int| 0 <= j < next.len() && next[j] == k;
                    if j < i {
                        assert(done[j] == k);
                        assert(before@.contains_key(k));
                    }
                }
                if before@.contains_key(k) {
                    let j = choose|j: int| 0 <= j < done.len() && done[j] == k;
                    assert(next[j] == k);
                }
                assert(next[i as int] == key@);
            }
        }
        i += 1;
    }
    proof {
        assert(m.order().take(i as int) =~= m.order());
        assert(out@ =~= m@);
    }
    out
}

/// Lays the values `over` onto `values`: where both have a key, that of `over`
/// stays.
pub fn overlay(values: &mut TextMap<Json>, over: &TextMap<Json>)
    ensures
        final(values).trees() == old(values).trees().union_prefer_right(over.trees()),
{
    let n = over.len();
    let mut i: usize = 0;
    while i < n
        invariant
            i <= n,
            n == over.order().len(),
            over.order().no_duplicates(),
            forall|k: Seq<char>| over@.contains_key(k) <==> #[trigger] over.order().contains(k),
            forall|k: Seq<char>| #[trigger]
                values@.contains_key(k) <==> old(values)@.contains_key(k)
                    || over.order().take(i as int).contains(k),
            forall|k: Seq<char>| #[trigger]
                values@.contains_key(k) ==> values@[k].tree() == (if over.order().take(
                    i as int,
                ).contains(k) {
                    over@[k].tree()
                } else {
                    old(values)@[k].tree()
                }),
        decreases n - i,
    {
        let (key, v) = over.entry(i);
        let ghost before = values@;
        values.insert(key.clone(), v.clone());
        proof {
            let done = over.order().take(i as int);
            let next = over.order().take(i + 1);
            assert(next =~= done.push(key@));
            assert forall|k: Seq<char>| #[trigger] next.contains(k) <==> done.contains(k) || k
                == key@ by {
                if next.contains(k) {
                    let j = choose|j: int| 0 <= j < next.len() && next[j] == k;
                    if j < i {
                        assert(done[j] == k);
                    }
                }
                if done.contains(k) {
                    let j = choose|j: int| 0 <= j < done.len() && done[j] == k;
                    assert(next[j] == k);
                }
                if k == key@ {
                    assert(next[i as int] == k);
                }
            }
        }
        i += 1;
    }
    proof {
        assert(over.order().take(i as int) =~= over.order());
        assert(values.trees() =~= old(values).trees().union_prefer_right(over.trees()));
    }
}

/// What a list of texts, of values, or a text that may be missing is: as many as there
/// are, each in its place, and none where there is none.
pub proof fn law_a_list_is_its_items_in_order(
    texts: Seq<String>,
    values: Seq<Json>,
    o: Option<String>,
    s: Option<&str>,
    l: Option<Vec<String>>,
    i: int,
)
    ensures
        text_seq(texts).len() == texts.len(),
        0 <= i < texts.len() ==> text_seq(texts)[i] == texts[i]@,
        tree_seq(values).len() == values.len(),
        0 <= i < values.len() ==> tree_seq(values)[i] == values[i].tree(),
        o is None <==> opt_text(o) is None,
        o matches Some(t) ==> opt_text(o) == Some(t@),
        s is None <==> opt_str(s) is None,
        s matches Some(t) ==> opt_str(s) == Some(t@),
        l is None <==> opt_text_seq(l) is None,
        l matches Some(v) ==> opt_text_seq(l) == Some(text_seq(v@)),
{
}

/// What a map of texts or of values is: under each key that it has, what it has there.
pub proof fn law_a_map_is_what_stands_under_its_keys(
    texts: TextMap<String>,
    values: TextMap<Json>,
    key: Seq<char>,
)
    ensures
        texts.texts().contains_key(key) <==> texts@.contains_key(key),
        texts@.contains_key(key) ==> texts.texts()[key] == texts@[key]@,
        values.trees().contains_key(key) <==> values@.contains_key(key),
        values@.contains_key(key) ==> values.trees()[key] == values@[key].tree(),
{
}

/// A number is the integer that it holds, whichever way it is held, and another number is
/// its text: a whole number is never the same as one that is not.
pub proof fn law_a_number_is_its_value(u: u64, i: i64, s: String)
    ensures
        Number::Unsigned(u)@ == NumberTree::Integer(u as int),
        Number::Negative(i)@ == NumberTree::Integer(i as int),
        Number::Other(s)@ == NumberTree::Other(s@),
        Number::Unsigned(u)@ == Number::Negative(i)@ <==> u == i,
        Number::Other(s)@ != Number::Unsigned(u)@,
{
}

} // verus!
