//! The tree of a YAML document, as far as it is looked into.
use crate::text;
use crate::value::{Number, NumberTree};
use vstd::prelude::*;

verus! {

/// A value of a YAML document.
#[derive(Debug)]
pub enum Yaml {
    /// Nothing.
    Null,
    /// A flag.
    Bool(bool),
    /// A number.
    Number(Number),
    /// Text.
    String(String),
    /// A sequence.
    Sequence(Vec<Yaml>),
    /// A mapping, in the order of the document.
    Mapping(Vec<(Yaml, Yaml)>),
    /// A value with a tag.
    Tagged(String, Box<Yaml>),
}

/// What a [`Yaml`] is, with text, sequences and mappings as sequences.
pub enum YamlTree {
    /// Nothing.
    Null,
    /// A flag.
    Bool(bool),
    /// A number.
    Number(NumberTree),
    /// Text.
    String(Seq<char>),
    /// A sequence.
    Sequence(Seq<YamlTree>),
    /// A mapping, in the order of the document.
    Mapping(Seq<(YamlTree, YamlTree)>),
    /// A value with a tag.
    Tagged(Seq<char>, Box<YamlTree>),
}

impl Yaml {
    /// The tree of this value.
    pub closed spec fn tree(&self) -> YamlTree
        decreases self,
    {
        match self {
            Yaml::Null => YamlTree::Null,
            Yaml::Bool(b) => YamlTree::Bool(*b),
            Yaml::Number(n) => YamlTree::Number(n@),
            Yaml::String(s) => YamlTree::String(s@),
            Yaml::Sequence(items) => YamlTree::Sequence(
                Seq::new(
                    items@.len(),
                    |i: int|
                        if 0 <= i < items@.len() {
                            items@[i].tree()
                        } else {
                            YamlTree::Null
                        },
                ),
            ),
            Yaml::Mapping(entries) => YamlTree::Mapping(
                Seq::new(
                    entries@.len(),
                    |i: int|
                        if 0 <= i < entries@.len() {
                            (entries@[i].0.tree(), entries@[i].1.tree())
                        } else {
                            (YamlTree::Null, YamlTree::Null)
                        },
                ),
            ),
            Yaml::Tagged(tag, inner) => YamlTree::Tagged(tag@, Box::new(inner.tree())),
        }
    }
}

/// What the tree of a value is, by the value's kind.
pub proof fn lemma_tree(y: Yaml)
    ensures
        match y {
            Yaml::Null => y.tree() == YamlTree::Null,
            Yaml::Bool(b) => y.tree() == YamlTree::Bool(b),
            Yaml::Number(n) => y.tree() == YamlTree::Number(n@),
            Yaml::String(s) => y.tree() == YamlTree::String(s@),
            Yaml::Sequence(items) => y.tree() == YamlTree::Sequence(
                items@.map_values(|i: Yaml| i.tree()),
            ),
            Yaml::Mapping(entries) => y.tree() == YamlTree::Mapping(
                entries@.map_values(|e: (Yaml, Yaml)| (e.0.tree(), e.1.tree())),
            ),
            Yaml::Tagged(tag, inner) => y.tree() == YamlTree::Tagged(
                tag@,
                Box::new(inner.tree()),
            ),
        },
{
    match y {
        Yaml::Sequence(items) => {
            assert(y.tree()->Sequence_0 =~= items@.map_values(|i: Yaml| i.tree()));
        },
        Yaml::Mapping(entries) => {
            assert(y.tree()->Mapping_0 =~= entries@.map_values(
                |e: (Yaml, Yaml)| (e.0.tree(), e.1.tree()),
            ));
        },
        _ => {},
    }
}

/// `y` without its tags.
pub open spec fn bare(y: Yaml) -> Yaml
    decreases y,
{
    match y {
        Yaml::Tagged(_, inner) => bare(*inner),
        _ => y,
    }
}

/// The entries of a mapping.
pub open spec fn mapping_of(y: Yaml) -> Option<Seq<(Yaml, Yaml)>> {
    match bare(y) {
        Yaml::Mapping(m) => Some(m@),
        _ => None,
    }
}

/// The items of a sequence.
pub open spec fn sequence_of(y: Yaml) -> Option<Seq<Yaml>> {
    match bare(y) {
        Yaml::Sequence(s) => Some(s@),
        _ => None,
    }
}

/// The text that a value is.
pub open spec fn text_of(y: Yaml) -> Option<Seq<char>> {
    match bare(y) {
        Yaml::String(s) => Some(s@),
        _ => None,
    }
}

/// Whether a key is the text `name`, without a tag.
pub open spec fn is_name(key: Yaml, name: Seq<char>) -> bool {
    key matches Yaml::String(s) && s@ == name
}

/// The place of `name` among the keys of a mapping, or their number.
pub open spec fn name_index(m: Seq<(Yaml, Yaml)>, name: Seq<char>) -> int {
    text::first_where(|i: int| is_name(m[i].0, name), m.len() as int)
}

/// What a value has under `name`, where it is a mapping that has it.
pub open spec fn lookup(y: Yaml, name: Seq<char>) -> Option<Yaml> {
    match mapping_of(y) {
        Some(m) => if name_index(m, name) < m.len() {
            Some(m[name_index(m, name)].1)
        } else {
            None
        },
        None => None,
    }
}

impl Yaml {
    /// The value without its tags.
    pub fn untag(&self) -> (r: &Yaml)
        ensures
            *r == bare(*self),
        decreases self,
    {
        match self {
            Yaml::Tagged(_, inner) => inner.untag(),
            _ => self,
        }
    }

    /// The entries, where the value is a mapping.
    pub fn as_mapping(&self) -> (r: Option<&Vec<(Yaml, Yaml)>>)
        ensures
            match r {
                Some(m) => mapping_of(*self) == Some(m@),
                None => mapping_of(*self) is None,
            },
    {
        match self.untag() {
            Yaml::Mapping(m) => Some(m),
            _ => None,
        }
    }

    /// The items, where the value is a sequence.
    pub fn as_sequence(&self) -> (r: Option<&Vec<Yaml>>)
        ensures
            match r {
                Some(s) => sequence_of(*self) == Some(s@),
                None => sequence_of(*self) is None,
            },
    {
        match self.untag() {
            Yaml::Sequence(s) => Some(s),
            _ => None,
        }
    }

    /// The text, where the value is text.
    pub fn as_str(&self) -> (r: Option<&str>)
        ensures
            match r {
                Some(s) => text_of(*self) == Some(s@),
                None => text_of(*self) is None,
            },
    {
        match self.untag() {
            Yaml::String(s) => Some(s.as_str()),
            _ => None,
        }
    }

    /// What stands under `name`, where the value is a mapping that has it.
    pub fn get(&self, name: &str) -> (r: Option<&Yaml>)
        ensures
            match r {
                Some(v) => lookup(*self, name@) == Some(*v),
                None => lookup(*self, name@) is None,
            },
    {
        let m = match self.as_mapping() {
            Some(m) => m,
            None => {
                return None;
            },
        };
        let ghost p = |i: int| is_name(m@[i].0, name@);
        let mut i: usize = 0;
        while i < m.len()
            invariant
                i <= m@.len(),
                mapping_of(*self) == Some(m@),
                p == (|i: int| is_name(m@[i].0, name@)),
                forall|k: int| 0 <= k < i ==> !#[trigger] p(k),
            decreases m@.len() - i,
        {
            let found = match &m[i].0 {
                Yaml::String(s) => text::same(s.as_str(), name),
                _ => false,
            };
            if found {
                proof {
                    assert(p(i as int));
                    text::lemma_first_from(p, 0, m@.len() as int, i as int);
                }
                return Some(&m[i].1);
            }
            i += 1;
        }
        proof {
            text::lemma_first_from(p, 0, m@.len() as int, i as int);
        }
        None
    }
}

/// What a tag says: it reads the same with and without a leading `!`.
pub open spec fn tag_name(tag: Seq<char>) -> Seq<char> {
    if tag.len() > 1 && tag[0] == '!' {
        tag.skip(1)
    } else {
        tag
    }
}

/// What tells a key that is text from another: its tags, and the text.
pub open spec fn key_id(key: Yaml) -> Option<(Seq<Seq<char>>, Seq<char>)>
    decreases key,
{
    match key {
        Yaml::String(s) => Some((Seq::empty(), s@)),
        Yaml::Tagged(tag, inner) => match key_id(*inner) {
            Some(id) => Some((id.0.push(tag_name(tag@)), id.1)),
            None => None,
        },
        _ => None,
    }
}

/// Whether two tags say the same.
fn same_tag(a: &str, b: &str) -> (r: bool)
    ensures
        r == (tag_name(a@) == tag_name(b@)),
{
    let va = text::chars_of(a);
    let vb = text::chars_of(b);
    let from_a: usize = if va.len() > 1 && va[0] == '!' {
        1
    } else {
        0
    };
    let from_b: usize = if vb.len() > 1 && vb[0] == '!' {
        1
    } else {
        0
    };
    let ta = text::string_of(&va, from_a, va.len());
    let tb = text::string_of(&vb, from_b, vb.len());
    assert(ta@ =~= tag_name(a@));
    assert(tb@ =~= tag_name(b@));
    text::same(ta.as_str(), tb.as_str())
}

/// Whether two keys are text and the same one.
pub fn same_key(a: &Yaml, b: &Yaml) -> (r: bool)
    ensures
        r == (key_id(*a) is Some && key_id(*a) == key_id(*b)),
    decreases a,
{
    match (a, b) {
        (Yaml::String(s), Yaml::String(t)) => text::same(s.as_str(), t.as_str()),
        (Yaml::Tagged(s, x), Yaml::Tagged(t, y)) => {
            let tags = same_tag(s.as_str(), t.as_str());
            let keys = same_key(x, y);
            proof {
                if key_id(**x) is Some && key_id(**y) is Some {
                    let p = key_id(**x)->Some_0;
                    let q = key_id(**y)->Some_0;
                    let p1 = p.0.push(tag_name(s@));
                    let q1 = q.0.push(tag_name(t@));
                    if p1 == q1 {
                        assert(p1.drop_last() =~= p.0);
                        assert(q1.drop_last() =~= q.0);
                        assert(p1.last() == q1.last());
                    }
                }
            }
            tags && keys
        },
        (Yaml::String(_), Yaml::Tagged(_, y)) => {
            proof {
                if key_id(**y) is Some {
                    let id = key_id(*b)->Some_0;
                    assert(id.0.len() > 0);
                }
            }
            false
        },
        (Yaml::Tagged(_, x), Yaml::String(_)) => {
            proof {
                if key_id(**x) is Some {
                    let id = key_id(*a)->Some_0;
                    assert(id.0.len() > 0);
                }
            }
            false
        },
        _ => false,
    }
}

/// The place of the key `key` among the keys of `m`, or their number. Keys that
/// are not text are found nowhere.
pub open spec fn key_index(m: Seq<(Yaml, Yaml)>, key: Yaml) -> int {
    text::first_where(
        |i: int| key_id(m[i].0) is Some && key_id(m[i].0) == key_id(key),
        m.len() as int,
    )
}

/// `m` with one more entry: where it has the key already, with what is under it
/// replaced.
pub open spec fn with_entry(m: Seq<(Yaml, Yaml)>, entry: (Yaml, Yaml)) -> Seq<(Yaml, Yaml)> {
    let i = key_index(m, entry.0);
    if i < m.len() {
        m.update(i, (m[i].0, entry.1))
    } else {
        m.push(entry)
    }
}

/// `over` laid over `under`: the keys of both, and what `over` has under a key
/// where both have it.
pub open spec fn laid_over(under: Seq<(Yaml, Yaml)>, over: Seq<(Yaml, Yaml)>) -> Seq<(Yaml, Yaml)>
    decreases over.len(),
{
    if over.len() == 0 {
        under
    } else {
        with_entry(laid_over(under, over.drop_last()), over.last())
    }
}

/// Entries that are held elsewhere.
pub open spec fn entry_pairs(v: Seq<(&Yaml, &Yaml)>) -> Seq<(Yaml, Yaml)> {
    v.map_values(|e: (&Yaml, &Yaml)| (*e.0, *e.1))
}

/// The entries of a mapping, where there is one: none where there is not.
pub open spec fn entries_in(o: Option<&Vec<(Yaml, Yaml)>>) -> Seq<(Yaml, Yaml)> {
    match o {
        Some(m) => m@,
        None => Seq::empty(),
    }
}

/// References to the entries of a mapping.
fn entries_by_ref<'a>(m: Option<&'a Vec<(Yaml, Yaml)>>) -> (r: Vec<(&'a Yaml, &'a Yaml)>)
    ensures
        entry_pairs(r@) == entries_in(m),
{
    let mut out: Vec<(&'a Yaml, &'a Yaml)> = Vec::new();
    let under = match m {
        Some(under) => under,
        None => {
            assert(entry_pairs(out@) =~= Seq::<(Yaml, Yaml)>::empty());
            return out;
        },
    };
    let mut i: usize = 0;
    assert(entry_pairs(out@) =~= under@.take(0));
    while i < under.len()
        invariant
            i <= under@.len(),
            entry_pairs(out@) == under@.take(i as int),
        decreases under@.len() - i,
    {
        let ghost before = out@;
        out.push((&under[i].0, &under[i].1));
        assert(entry_pairs(out@) =~= entry_pairs(before).push(under@[i as int]));
        assert(under@.take(i + 1) =~= under@.take(i as int).push(under@[i as int]));
        i += 1;
    }
    assert(under@.take(i as int) =~= under@);
    out
}

/// The entries of `under` and `over` together, as [`laid_over`] says.
pub fn lay_over<'a>(
    under: Option<&'a Vec<(Yaml, Yaml)>>,
    over: Option<&'a Vec<(Yaml, Yaml)>>,
) -> (r: Vec<(&'a Yaml, &'a Yaml)>)
    ensures
        entry_pairs(r@) == laid_over(entries_in(under), entries_in(over)),
{
    let mut out = entries_by_ref(under);
    let ghost below = entries_in(under);
    let over = match over {
        Some(over) => over,
        None => {
            return out;
        },
    };
    assert(over@.take(0) =~= Seq::<(Yaml, Yaml)>::empty());
    let mut j: usize = 0;
    while j < over.len()
        invariant
            j <= over@.len(),
            entry_pairs(out@) == laid_over(below, over@.take(j as int)),
        decreases over@.len() - j,
    {
        let ghost before = out@;
        let ghost m = entry_pairs(before);
        let ghost key = over@[j as int].0;
        let ghost p = |i: int| key_id(m[i].0) is Some && key_id(m[i].0) == key_id(key);
        let mut k: usize = 0;
        while k < out.len() && !same_key(out[k].0, &over[j].0)
            invariant
                k <= out@.len(),
                j < over@.len(),
                m == entry_pairs(out@),
                out@ == before,
                key == over@[j as int].0,
                p == (|i: int| key_id(m[i].0) is Some && key_id(m[i].0) == key_id(key)),
                forall|i: int| 0 <= i < k ==> !#[trigger] p(i),
            decreases out@.len() - k,
        {
            assert(m[k as int].0 == *out@[k as int].0);
            k += 1;
        }
        proof {
            if k < out@.len() {
                assert(m[k as int].0 == *out@[k as int].0);
                assert(p(k as int));
            }
            text::lemma_first_from(p, 0, m.len() as int, k as int);
            assert(over@.take(j + 1).drop_last() =~= over@.take(j as int));
            assert(over@.take(j + 1).last() == over@[j as int]);
        }
        if k < out.len() {
            let kept = out[k].0;
            out.set(k, (kept, &over[j].1));
            assert(entry_pairs(out@) =~= with_entry(m, over@[j as int]));
        } else {
            out.push((&over[j].0, &over[j].1));
            assert(entry_pairs(out@) =~= with_entry(m, over@[j as int]));
        }
        j += 1;
    }
    assert(over@.take(j as int) =~= over@);
    out
}

/// Tags are looked through, however many there are: what a value is without them is no
/// tagged value, and a value without tags is itself.
pub proof fn law_tags_are_looked_through(y: Yaml, tag: String, inner: Yaml)
    ensures
        bare(y) !is Tagged,
        y !is Tagged ==> bare(y) == y,
        bare(Yaml::Tagged(tag, Box::new(inner))) == bare(inner),
    decreases y,
{
    match y {
        Yaml::Tagged(_, deeper) => {
            law_tags_are_looked_through(*deeper, tag, inner);
        },
        _ => {},
    }
}

/// A value is read as a mapping, as a sequence or as text exactly where it is one under
/// its tags, and as what it holds.
pub proof fn law_a_value_is_read_as_what_it_is(y: Yaml)
    ensures
        mapping_of(y) is Some <==> bare(y) is Mapping,
        bare(y) matches Yaml::Mapping(m) ==> mapping_of(y) == Some(m@),
        sequence_of(y) is Some <==> bare(y) is Sequence,
        bare(y) matches Yaml::Sequence(s) ==> sequence_of(y) == Some(s@),
        text_of(y) is Some <==> bare(y) is String,
        bare(y) matches Yaml::String(s) ==> text_of(y) == Some(s@),
{
}

/// Whether the entry `i` of `m` is the first whose key is the bare text `name`.
pub open spec fn is_first_named(m: Seq<(Yaml, Yaml)>, name: Seq<char>, i: int) -> bool {
    &&& 0 <= i < m.len()
    &&& m[i].0 matches Yaml::String(s) && s@ == name
    &&& forall|j: int|
        0 <= j < i ==> !((#[trigger] m[j]).0 matches Yaml::String(s) && s@ == name)
}

/// What stands under a name is what the first entry holds whose key is that text, with
/// no tag; nothing stands under it where no key is, or where the value is no mapping.
pub proof fn law_the_first_entry_of_a_name_is_found(y: Yaml, name: Seq<char>)
    ensures
        mapping_of(y) is None ==> lookup(y, name) is None,
        mapping_of(y) matches Some(m) ==> {
            &&& lookup(y, name) matches Some(v) ==> exists|i: int| #[trigger]
                is_first_named(m, name, i) && m[i].1 == v
            &&& lookup(y, name) is None ==> forall|i: int| !#[trigger] is_first_named(m, name, i)
        },
{
    if mapping_of(y) is Some {
        let m = mapping_of(y)->Some_0;
        let n = m.len() as int;
        let p = |i: int| is_name(m[i].0, name);
        text::lemma_first_from_is(p, 0, n);
        let at = name_index(m, name);
        assert forall|j: int| 0 <= j < at implies !((#[trigger] m[j]).0 matches Yaml::String(s)
            && s@ == name) by {
            assert(!p(j));
        }
        if at < n {
            assert(p(at));
            assert(is_first_named(m, name, at));
        }
    }
}

/// A tag reads the same with and without one exclamation mark before it; a mark alone is
/// the tag.
pub proof fn law_a_leading_mark_is_no_part_of_a_tag(tag: Seq<char>)
    ensures
        tag.len() > 0 ==> tag_name(seq!['!'] + tag) == tag,
        tag.len() > 0 && tag[0] != '!' ==> tag_name(tag) == tag,
        tag_name(seq!['!']) == seq!['!'],
        tag_name(Seq::empty()) == Seq::<char>::empty(),
{
    assert((seq!['!'] + tag).skip(1) =~= tag);
}

/// Keys that are text are told apart by the text and by their tags, from the inmost to
/// the outmost; other keys are told apart by nothing.
pub proof fn law_a_key_is_its_text_and_its_tags(key: Yaml, tag: String, inner: Yaml)
    ensures
        key_id(key) is Some <==> text_of(key) is Some,
        key_id(key) matches Some(id) ==> text_of(key) == Some(id.1),
        key is String ==> (key_id(key) matches Some(id) && id.0.len() == 0),
        key_id(Yaml::Tagged(tag, Box::new(inner))) is Some <==> key_id(inner) is Some,
        key_id(inner) matches Some(id) ==> (key_id(
            Yaml::Tagged(tag, Box::new(inner)),
        ) matches Some(outer) && outer.1 == id.1 && outer.0.len() == id.0.len() + 1
            && outer.0.drop_last() == id.0 && outer.0.last() == tag_name(tag@)),
    decreases key,
{
    match key {
        Yaml::Tagged(_, deeper) => {
            law_a_key_is_its_text_and_its_tags(*deeper, tag, inner);
        },
        _ => {},
    }
    if key_id(inner) is Some {
        let id = key_id(inner)->Some_0;
        assert(id.0.push(tag_name(tag@)).drop_last() =~= id.0);
    }
}

/// Whether the entry `i` of `m` is the first whose key is the key `key`.
pub open spec fn is_first_keyed(m: Seq<(Yaml, Yaml)>, key: Yaml, i: int) -> bool {
    &&& 0 <= i < m.len()
    &&& key_id(m[i].0) is Some
    &&& key_id(m[i].0) == key_id(key)
    &&& forall|j: int|
        0 <= j < i ==> key_id((#[trigger] m[j]).0) is None || key_id(m[j].0) != key_id(key)
}

/// One more entry laid over others replaces what stands under its key, in its place and
/// with the key as it stands there, where the key is text and is there; else it comes
/// behind all others. No other entry changes.
pub proof fn law_an_entry_laid_over_replaces_its_own(
    under: Seq<(Yaml, Yaml)>,
    over: Seq<(Yaml, Yaml)>,
    entry: (Yaml, Yaml),
)
    ensures
        laid_over(under, Seq::empty()) == under,
        ({
            let before = laid_over(under, over);
            let after = laid_over(under, over.push(entry));
            &&& forall|i: int| #[trigger]
                is_first_keyed(before, entry.0, i) ==> after.len() == before.len() && after[i].0
                    == before[i].0 && after[i].1 == entry.1 && forall|j: int|
                    0 <= j < before.len() && j != i ==> #[trigger] after[j] == before[j]
            &&& (forall|i: int| !#[trigger] is_first_keyed(before, entry.0, i)) ==> after.len()
                == before.len() + 1 && after.last() == entry && after.drop_last() == before
        }),
{
    let before = laid_over(under, over);
    let after = laid_over(under, over.push(entry));
    assert(over.push(entry).drop_last() =~= over);
    let n = before.len() as int;
    let p = |i: int| key_id(before[i].0) is Some && key_id(before[i].0) == key_id(entry.0);
    text::lemma_first_from_is(p, 0, n);
    let at = key_index(before, entry.0);
    assert forall|j: int| 0 <= j < at implies key_id((#[trigger] before[j]).0) is None || key_id(
        before[j].0,
    ) != key_id(entry.0) by {
        assert(!p(j));
    }
    if at < n {
        assert(p(at));
        assert(is_first_keyed(before, entry.0, at));
    } else {
        assert(after.drop_last() =~= before);
    }
    assert forall|i: int| #[trigger] is_first_keyed(before, entry.0, i) implies i == at by {
        if i < at {
            assert(!p(i));
        }
    }
}

} // verus!
