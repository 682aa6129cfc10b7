//! Sets that only grow.
use crate::key_set;
use crate::key_set::KeySet;
use crate::text;
use crate::value::MapKey;
use vstd::prelude::*;

verus! {

/// A set that only allows additions.
///
/// Taking a value out needs a [`DeclassifierToken`].
#[derive(Debug)]
pub struct MonotonicSet<T: MapKey> {
    inner: KeySet<T>,
}

impl<T: MapKey> View for MonotonicSet<T> {
    type V = Set<T::Id>;

    closed spec fn view(&self) -> Set<T::Id> {
        self.inner@
    }
}

/// A token without which nothing is declassified.
pub struct DeclassifierToken {
    _private: (),
}

impl DeclassifierToken {
    /// Mints a token. For the security subsystem alone.
    pub fn new() -> Self {
        DeclassifierToken { _private: () }
    }
}

/// Whether `labels` holds `label`, the case of letters aside.
pub open spec fn holds_label(labels: Set<Seq<char>>, label: Seq<char>) -> bool {
    exists|l: Seq<char>| #[trigger]
        labels.contains(l) && text::lowercased(l) == text::lowercased(label)
}

impl<T: MapKey> MonotonicSet<T> {
    /// Create an empty monotonic set.
    pub fn new() -> (r: Self)
        ensures
            r@ == Set::<T::Id>::empty(),
    {
        MonotonicSet { inner: KeySet::new() }
    }

    /// Create from an existing set.
    pub fn from_set(set: KeySet<T>) -> (r: Self)
        ensures
            r@ == set@,
    {
        MonotonicSet { inner: set }
    }

    /// Add a value. Returns true if the value was newly inserted.
    pub fn insert(&mut self, value: T) -> (r: bool)
        ensures
            r == !old(self)@.contains(value.id()),
            final(self)@ == old(self)@.insert(value.id()),
    {
        self.inner.insert(value)
    }

    /// Check if the set contains a value.
    pub fn contains(&self, value: &T) -> (r: bool)
        ensures
            r == self@.contains(value.id()),
    {
        self.inner.contains(value)
    }

    /// The values, each once.
    pub fn iter(&self) -> (r: Vec<&T>)
        ensures
            self@.finite(),
            r@.len() == self@.len(),
            forall|i: int, j: int|
                0 <= i < j < r@.len() ==> (#[trigger] r@[i]).id() != (#[trigger] r@[j]).id(),
            forall|k: T::Id|
                self@.contains(k) <==> exists|i: int|
                    0 <= i < r@.len() && (#[trigger] r@[i]).id() == k,
    {
        let n = self.inner.len();
        let mut out: Vec<&T> = Vec::new();
        let mut i: usize = 0;
        while i < n
            invariant
                i <= n,
                n == self.inner.order().len(),
                out@.len() == i,
                forall|j: int| 0 <= j < i ==> *(#[trigger] out@[j]) == self.inner.order()[j],
            decreases n - i,
        {
            out.push(self.inner.item(i));
            i += 1;
        }
        proof {
            let order = self.inner.order();
            assert forall|i: int, j: int| 0 <= i < j < out@.len() implies (
            #[trigger] out@[i]).id() != (#[trigger] out@[j]).id() by {
                assert(key_set::ids(order)[i] != key_set::ids(order)[j]);
            }
            assert forall|k: T::Id|
                self@.contains(k) <==> exists|i: int|
                    0 <= i < out@.len() && (#[trigger] out@[i]).id() == k by {
                assert(self.inner@.contains(k) <==> key_set::ids(order).contains(k));
                if key_set::ids(order).contains(k) {
                    let j = choose|j: int| 0 <= j < order.len() && key_set::ids(order)[j] == k;
                    assert(out@[j].id() == k);
                }
                if exists|i: int| 0 <= i < out@.len() && (#[trigger] out@[i]).id() == k {
                    let j = choose|i: int| 0 <= i < out@.len() && (#[trigger] out@[i]).id() == k;
                    assert(key_set::ids(order)[j] == k);
                }
            }
        }
        out
    }

    /// Number of elements.
    pub fn len(&self) -> (r: usize)
        ensures
            self@.finite(),
            r == self@.len(),
    {
        self.inner.len()
    }

    /// Whether the set is empty.
    pub fn is_empty(&self) -> (r: bool)
        ensures
            r == (self@ =~= Set::<T::Id>::empty()),
    {
        self.inner.is_empty()
    }

    /// Whether this set is a superset of another.
    pub fn is_superset(&self, other: &MonotonicSet<T>) -> (r: bool)
        ensures
            r == other@.subset_of(self@),
    {
        self.inner.is_superset(&other.inner)
    }

    /// The inner set, to read.
    pub fn as_set(&self) -> (r: &KeySet<T>)
        ensures
            r@ == self@,
    {
        &self.inner
    }

    /// Takes a value out. A privileged operation, hence the token.
    pub fn remove_with_declassifier(&mut self, value: &T, _token: &DeclassifierToken) -> (r: bool)
        ensures
            r == old(self)@.contains(value.id()),
            final(self)@ == old(self)@.remove(value.id()),
    {
        self.inner.remove(value)
    }
}

/// Labels, told apart without the case of their letters.
impl MonotonicSet<String> {
    /// Check if a label exists (case-insensitive).
    pub fn has_label(&self, label: &str) -> (r: bool)
        ensures
            r == holds_label(self@, label@),
    {
        let lower = text::lowercase(label);
        let n = self.inner.len();
        let mut i: usize = 0;
        while i < n
            invariant
                i <= n,
                n == self.inner.order().len(),
                lower@ == text::lowercased(label@),
                forall|k: Seq<char>| self.inner@.contains(k) <==> #[trigger] key_set::ids(self.inner.order()).contains(k),
                forall|j: int|
                    0 <= j < i ==> text::lowercased(#[trigger] key_set::ids(self.inner.order())[j])
                        != text::lowercased(label@),
            decreases n - i,
        {
            let item = self.inner.item(i);
            if text::same(text::lowercase(item.as_str()).as_str(), lower.as_str()) {
                assert(self@.contains(item.id()));
                return true;
            }
            i += 1;
        }
        proof {
            if holds_label(self@, label@) {
                let l = choose|l: Seq<char>| #[trigger]
                    self@.contains(l) && text::lowercased(l) == text::lowercased(label@);
                let order = key_set::ids(self.inner.order());
                assert(order.contains(l));
                let j = choose|j: int| 0 <= j < order.len() && order[j] == l;
                assert(text::lowercased(order[j]) != text::lowercased(label@));
            }
        }
        false
    }

    /// Add a label (case-preserving on insert).
    pub fn add_label(&mut self, label: &str)
        ensures
            final(self)@ == old(self)@.insert(label@),
    {
        let _ = self.inner.insert(label.to_owned());
    }
}

impl<T: MapKey> Default for MonotonicSet<T> {
    fn default() -> (r: Self)
        ensures
            r@ == Set::<T::Id>::empty(),
    {
        MonotonicSet::new()
    }
}

impl<T: MapKey> Clone for MonotonicSet<T> {
    fn clone(&self) -> (r: Self)
        ensures
            r@ == self@,
    {
        MonotonicSet { inner: self.inner.clone() }
    }
}

/// What is in a set after a run of additions.
pub open spec fn after_additions<A>(set: Set<A>, added: Seq<A>) -> Set<A>
    decreases added.len(),
{
    if added.len() == 0 {
        set
    } else {
        after_additions(set, added.drop_last()).insert(added.last())
    }
}

/// Whatever is added, nothing is lost: what a set held before it holds after, and
/// besides that nothing but what was added.
pub proof fn law_a_set_only_grows<A>(set: Set<A>, added: Seq<A>)
    ensures
        set.subset_of(after_additions(set, added)),
        forall|value: A| #[trigger]
            after_additions(set, added).contains(value) <==> set.contains(value) || added.contains(
                value,
            ),
    decreases added.len(),
{
    if added.len() > 0 {
        let before = added.drop_last();
        law_a_set_only_grows(set, before);
        assert forall|value: A| #[trigger]
            after_additions(set, added).contains(value) <==> set.contains(value) || added.contains(
                value,
            ) by {
            if before.contains(value) {
                let i = choose|i: int| 0 <= i < before.len() && before[i] == value;
                assert(added[i] == value);
            }
            if added.contains(value) && value != added.last() {
                let i = choose|i: int| 0 <= i < added.len() && added[i] == value;
                assert(before[i] == value);
            }
            assert(added[added.len() - 1] == added.last());
        }
    }
}

/// Whatever is added, a label that was found is found again, and so is every label
/// added, the case of letters aside.
pub proof fn law_labels_only_grow(labels: Set<Seq<char>>, added: Seq<Seq<char>>)
    ensures
        forall|label: Seq<char>|
            holds_label(labels, label) ==> #[trigger] holds_label(
                after_additions(labels, added),
                label,
            ),
        forall|i: int, label: Seq<char>|
            0 <= i < added.len() && text::lowercased(#[trigger] added[i]) == text::lowercased(label)
                ==> #[trigger] holds_label(after_additions(labels, added), label),
{
    law_a_set_only_grows(labels, added);
    let all = after_additions(labels, added);
    assert forall|label: Seq<char>| holds_label(labels, label) implies #[trigger] holds_label(
        all,
        label,
    ) by {
        let l = choose|l: Seq<char>| #[trigger]
            labels.contains(l) && text::lowercased(l) == text::lowercased(label);
        assert(all.contains(l));
    }
    assert forall|i: int, label: Seq<char>|
        0 <= i < added.len() && text::lowercased(#[trigger] added[i]) == text::lowercased(
            label,
        ) implies #[trigger] holds_label(all, label) by {
        assert(added.contains(added[i]));
        assert(all.contains(added[i]));
    }
}

/// A label is held, in letters of whatever case, exactly where one of the labels is the
/// same in lower case: one that is there is held, and in an empty set none is.
pub proof fn law_a_label_is_held_whatever_its_case(
    labels: Set<Seq<char>>,
    held: Seq<char>,
    label: Seq<char>,
)
    ensures
        labels.contains(label) ==> holds_label(labels, label),
        labels.contains(held) && text::lowercased(held) == text::lowercased(label) ==> holds_label(
            labels,
            label,
        ),
        (forall|l: Seq<char>|
            #[trigger] labels.contains(l) ==> text::lowercased(l) != text::lowercased(label))
            ==> !holds_label(labels, label),
        !holds_label(Set::empty(), label),
{
}

} // verus!
