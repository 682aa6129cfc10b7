//! Sets of keys.
use crate::text;
use crate::value::MapKey;
use vstd::prelude::*;

verus! {

/// What tells the members `items` apart.
pub open spec fn ids<T: MapKey>(items: Seq<T>) -> Seq<T::Id> {
    Seq::new(items.len(), |i: int| items[i].id())
}

/// A set of keys. None occurs twice; what came first stays first.
#[derive(Debug)]
pub struct KeySet<T: MapKey> {
    items: Vec<T>,
}

impl<T: MapKey> View for KeySet<T> {
    type V = Set<T::Id>;

    closed spec fn view(&self) -> Set<T::Id> {
        ids(self.items@).to_set()
    }
}

impl MapKey for String {
    type Id = Seq<char>;

    open spec fn id(&self) -> Seq<char> {
        self@
    }

    fn same_key(&self, other: &Self) -> (r: bool) {
        text::same(self.as_str(), other.as_str())
    }

    fn copy_key(&self) -> (r: Self) {
        self.clone()
    }
}

impl<T: MapKey> KeySet<T> {
    #[verifier::type_invariant]
    spec fn wf(self) -> bool {
        ids(self.items@).no_duplicates()
    }

    /// The members, in the order in which they came in.
    pub closed spec fn order(&self) -> Seq<T> {
        self.items@
    }

    /// A set with no members.
    pub fn new() -> (r: Self)
        ensures
            r@ == Set::<T::Id>::empty(),
            r.order() == Seq::<T>::empty(),
    {
        let r: KeySet<T> = KeySet { items: Vec::new() };
        assert(r@ =~= Set::<T::Id>::empty());
        r
    }

    /// The place of `value` among the members, or their number.
    fn find(&self, value: &T) -> (r: usize)
        ensures
            r <= self.items@.len(),
            r < self.items@.len() ==> self.items@[r as int].id() == value.id() && self@.contains(
                value.id(),
            ),
            r == self.items@.len() ==> !self@.contains(value.id()),
    {
        let mut i: usize = 0;
        while i < self.items.len()
            invariant
                i <= self.items@.len(),
                forall|j: int| 0 <= j < i ==> (#[trigger] self.items@[j]).id() != value.id(),
            decreases self.items@.len() - i,
        {
            if self.items[i].same_key(value) {
                assert(ids(self.items@)[i as int] == value.id());
                return i;
            }
            i += 1;
        }
        proof {
            if ids(self.items@).contains(value.id()) {
                let j = choose|j: int|
                    0 <= j < self.items@.len() && ids(self.items@)[j] == value.id();
                assert(self.items@[j].id() == value.id());
            }
        }
        i
    }

    /// Whether `value` is a member.
    pub fn contains(&self, value: &T) -> (r: bool)
        ensures
            r == self@.contains(value.id()),
    {
        self.find(value) < self.items.len()
    }

    /// Makes `value` a member; whether it was none before.
    pub fn insert(&mut self, value: T) -> (r: bool)
        ensures
            r == !old(self)@.contains(value.id()),
            final(self)@ == old(self)@.insert(value.id()),
            final(self).order() == (if r {
                old(self).order().push(value)
            } else {
                old(self).order()
            }),
    {
        proof {
            use_type_invariant(&*self);
        }
        if self.find(&value) < self.items.len() {
            assert(self@.insert(value.id()) =~= self@);
            false
        } else {
            let mut items: Vec<T> = Vec::new();
            std::mem::swap(&mut items, &mut self.items);
            let ghost was = items@;
            items.push(value);
            proof {
                let now = items@;
                assert(ids(now) =~= ids(was).push(value.id()));
                assert forall|i: int, j: int| 0 <= i < j < now.len() implies ids(now)[i] != ids(
                    now,
                )[j] by {
                    if j == was.len() {
                        assert(ids(was).contains(ids(was)[i]));
                    }
                }
                assert forall|k: T::Id| #[trigger] ids(now).contains(k) <==> ids(was).contains(k) || k
                    == value.id() by {
                    if ids(was).contains(k) {
                        let j = choose|j: int| 0 <= j < was.len() && ids(was)[j] == k;
                        assert(ids(now)[j] == k);
                    }
                    assert(ids(now)[was.len() as int] == value.id());
                }
            }
            self.items = items;
            assert(self@ =~= old(self)@.insert(value.id()));
            true
        }
    }

    /// Takes `value` out; whether it was a member.
    pub fn remove(&mut self, value: &T) -> (r: bool)
        ensures
            r == old(self)@.contains(value.id()),
            final(self)@ == old(self)@.remove(value.id()),
    {
        proof {
            use_type_invariant(&*self);
        }
        let at = self.find(value);
        if at < self.items.len() {
            let mut items: Vec<T> = Vec::new();
            std::mem::swap(&mut items, &mut self.items);
            let ghost was = items@;
            let _ = items.remove(at);
            proof {
                let now = items@;
                let a = at as int;
                assert(ids(was)[a] == value.id());
                assert(ids(now) =~= ids(was).remove(a));
                assert forall|i: int, j: int| 0 <= i < j < now.len() implies ids(now)[i] != ids(
                    now,
                )[j] by {
                    let i1 = if i < a { i } else { i + 1 };
                    let j1 = if j < a { j } else { j + 1 };
                    assert(ids(was)[i1] != ids(was)[j1]);
                }
                assert forall|k: T::Id| #[trigger] ids(now).contains(k) <==> ids(was).contains(k) && k
                    != value.id() by {
                    if ids(now).contains(k) {
                        let j = choose|j: int| 0 <= j < now.len() && ids(now)[j] == k;
                        let j1 = if j < a { j } else { j + 1 };
                        assert(ids(was)[j1] == k);
                        assert(j1 != a);
                    }
                    if ids(was).contains(k) && k != value.id() {
                        let j = choose|j: int| 0 <= j < was.len() && ids(was)[j] == k;
                        let j1 = if j < a { j } else { j - 1 };
                        assert(ids(now)[j1] == k);
                    }
                }
            }
            self.items = items;
            assert(self@ =~= old(self)@.remove(value.id()));
            true
        } else {
            assert(self@.remove(value.id()) =~= self@);
            false
        }
    }

    /// How many members there are.
    pub fn len(&self) -> (r: usize)
        ensures
            r == self@.len(),
            r == self.order().len(),
            self@.finite(),
            ids(self.order()).no_duplicates(),
            forall|k: T::Id| self@.contains(k) <==> #[trigger] ids(self.order()).contains(k),
    {
        proof {
            use_type_invariant(self);
            ids(self.items@).unique_seq_to_set();
        }
        self.items.len()
    }

    /// Whether there is no member.
    pub fn is_empty(&self) -> (r: bool)
        ensures
            r == (self@ =~= Set::<T::Id>::empty()),
    {
        proof {
            if self.items@.len() > 0 {
                let k = self.items@[0].id();
                assert(ids(self.items@)[0] == k);
                assert(self@.contains(k));
            }
        }
        self.items.len() == 0
    }

    /// The member in place `i`.
    pub fn item(&self, i: usize) -> (r: &T)
        requires
            i < self.order().len(),
        ensures
            *r == self.order()[i as int],
            self@.contains(r.id()),
    {
        assert(ids(self.items@)[i as int] == self.items@[i as int].id());
        &self.items[i]
    }

    /// Whether every member of `other` is a member.
    pub fn is_superset(&self, other: &KeySet<T>) -> (r: bool)
        ensures
            r == other@.subset_of(self@),
    {
        let n = other.items.len();
        let mut i: usize = 0;
        while i < n
            invariant
                i <= n,
                n == other.items@.len(),
                forall|j: int| 0 <= j < i ==> self@.contains(#[trigger] ids(other.items@)[j]),
            decreases n - i,
        {
            if !self.contains(&other.items[i]) {
                assert(ids(other.items@)[i as int] == other.items@[i as int].id());
                assert(other@.contains(other.items@[i as int].id()));
                return false;
            }
            i += 1;
        }
        assert forall|k: T::Id| other@.contains(k) implies self@.contains(k) by {
            let j = choose|j: int| 0 <= j < other.items@.len() && ids(other.items@)[j] == k;
            assert(self@.contains(ids(other.items@)[j]));
        }
        true
    }
}

impl<T: MapKey> Clone for KeySet<T> {
    fn clone(&self) -> (r: Self)
        ensures
            r@ == self@,
            ids(r.order()) == ids(self.order()),
    {
        proof {
            use_type_invariant(self);
        }
        let mut items: Vec<T> = Vec::new();
        let mut i: usize = 0;
        while i < self.items.len()
            invariant
                i <= self.items@.len(),
                items@.len() == i,
                forall|j: int| 0 <= j < i ==> (#[trigger] items@[j]).id() == self.items@[j].id(),
            decreases self.items@.len() - i,
        {
            items.push(self.items[i].copy_key());
            i += 1;
        }
        assert(ids(items@) =~= ids(self.items@));
        KeySet { items }
    }
}

/// What tells the items of a list apart is what tells each of them, in its place.
pub proof fn law_items_are_told_apart_one_by_one<T: MapKey>(items: Seq<T>, i: int)
    ensures
        ids(items).len() == items.len(),
        0 <= i < items.len() ==> ids(items)[i] == items[i].id(),
{
}

} // verus!
