//! YAML as `serde_yaml` reads it, and JSON as `serde_json` makes it.
use crate::config;
use crate::error;
use crate::error::PluginError;
use crate::value;
use crate::value::{Json, Number, NumberTree, TextMap, Tree};
use crate::yaml;
use crate::yaml::{Yaml, YamlTree};
use vstd::prelude::*;

verus! {

/// A YAML value as `serde_yaml` holds it.
#[verifier::external_type_specification]
#[verifier::external_body]
pub struct ExYamlValue(serde_yaml::Value);

/// A JSON value as `serde_json` holds it.
#[verifier::external_type_specification]
#[verifier::external_body]
pub struct ExJsonValue(serde_json::Value);

/// What a `serde_yaml::Value` holds. A number that is no integer of 64 bits is
/// known by the text that it is shown as, and so is a tag.
pub uninterp spec fn yaml_in(v: &serde_yaml::Value) -> YamlTree;

/// What a `serde_json::Value` holds. A number that is no integer of 64 bits is
/// known by the text that it is shown as.
pub uninterp spec fn json_in(v: &serde_json::Value) -> Tree;

/// What `serde_yaml::from_str` reads in a text: the value, or what is wrong.
pub uninterp spec fn yaml_read(text: Seq<char>) -> Result<YamlTree, Seq<char>>;

/// What `serde_json::to_value` makes of a YAML value: a JSON value, or what is
/// wrong.
pub uninterp spec fn json_made(y: YamlTree) -> Result<Tree, Seq<char>>;

/// `serde_yaml::from_str` reads a text as one value. It reads the same text in
/// the same way at all times, and says in words why it cannot.
#[verifier::external_body]
fn read_text(text: &str) -> (r: Result<serde_yaml::Value, String>)
    ensures
        match r {
            Ok(v) => yaml_read(text@) == Ok::<YamlTree, Seq<char>>(yaml_in(&v)),
            Err(m) => yaml_read(text@) == Err::<YamlTree, Seq<char>>(m@),
        },
{
    serde_yaml::from_str(text).map_err(|e| e.to_string())
}

/// YAML that JSON can say word for word: integers in place of other numbers,
/// text for every key, and no tags.
pub open spec fn plain_json(y: YamlTree) -> Option<Tree>
    decreases y,
{
    match y {
        YamlTree::Null => Some(Tree::Null),
        YamlTree::Bool(b) => Some(Tree::Bool(b)),
        YamlTree::Number(NumberTree::Integer(n)) => Some(Tree::Number(NumberTree::Integer(n))),
        YamlTree::String(s) => Some(Tree::String(s)),
        YamlTree::Sequence(items) => match plain_items(items) {
            Some(trees) => Some(Tree::Array(trees)),
            None => None,
        },
        YamlTree::Mapping(entries) => match plain_fields(entries) {
            Some(fields) => Some(Tree::Object(fields)),
            None => None,
        },
        _ => None,
    }
}

/// The items of a sequence, where JSON can say each of them.
pub open spec fn plain_items(items: Seq<YamlTree>) -> Option<Seq<Tree>>
    decreases items,
{
    if items.len() == 0 {
        Some(Seq::empty())
    } else {
        match (plain_items(items.drop_last()), plain_json(items.last())) {
            (Some(head), Some(t)) => Some(head.push(t)),
            _ => None,
        }
    }
}

/// The fields of a mapping, where JSON can say each of them.
pub open spec fn plain_fields(entries: Seq<(YamlTree, YamlTree)>) -> Option<Map<Seq<char>, Tree>>
    decreases entries,
{
    if entries.len() == 0 {
        Some(Map::empty())
    } else {
        match (plain_fields(entries.drop_last()), entries.last().0, plain_json(entries.last().1)) {
            (Some(head), YamlTree::String(key), Some(t)) => Some(head.insert(key, t)),
            _ => None,
        }
    }
}

/// `serde_json::to_value` turns a value of `serde_yaml` into one of its own. It
/// makes the same of the same value at all times, and says in words why it
/// cannot. What JSON can say word for word stays what it is; what becomes of
/// other numbers, of keys that are no text and of tags is not stated.
#[verifier::external_body]
fn make_json(v: &serde_yaml::Value) -> (r: Result<serde_json::Value, String>)
    ensures
        match r {
            Ok(j) => {
                &&& json_made(yaml_in(v)) == Ok::<Tree, Seq<char>>(json_in(&j))
                &&& plain_json(yaml_in(v)) matches Some(t) ==> json_in(&j) == t
            },
            Err(m) => {
                &&& json_made(yaml_in(v)) == Err::<Tree, Seq<char>>(m@)
                &&& plain_json(yaml_in(v)) is None
            },
        },
{
    serde_json::to_value(v).map_err(|e| e.to_string())
}

/// A number, as an integer from zero up, as a signed integer and as text.
type Readings = (Option<u64>, Option<i64>, String);

/// The number of which these are the readings.
spec fn number_read(n: Readings) -> NumberTree {
    match (n.0, n.1) {
        (Some(u), _) => NumberTree::Integer(u as int),
        (None, Some(i)) => NumberTree::Integer(i as int),
        (None, None) => NumberTree::Other(n.2@),
    }
}

/// The number of which these are the readings.
fn number_of(n: Readings) -> (r: Number)
    ensures
        r@ == number_read(n),
        n.0 matches Some(u) ==> r@ == NumberTree::Integer(u as int),
        n.0 is None ==> (n.1 matches Some(i) ==> r@ == NumberTree::Integer(i as int)),
        n.0 is None && n.1 is None ==> r@ == NumberTree::Other(n.2@),
{
    match (n.0, n.1) {
        (Some(u), _) => Number::Unsigned(u),
        (None, Some(i)) => Number::Negative(i),
        (None, None) => Number::Other(n.2),
    }
}

/// One level of a YAML value.
enum YamlNode<'a> {
    Null,
    Bool(bool),
    Number(Readings),
    String(&'a String),
    Sequence(&'a Vec<serde_yaml::Value>),
    Mapping(Vec<(&'a serde_yaml::Value, &'a serde_yaml::Value)>),
    Tagged(String, &'a serde_yaml::Value),
}

/// The values of a sequence.
spec fn yaml_seq(items: Seq<serde_yaml::Value>) -> Seq<YamlTree> {
    items.map_values(|v: serde_yaml::Value| yaml_in(&v))
}

/// The keys and values of a mapping.
spec fn yaml_pairs(entries: Seq<(&serde_yaml::Value, &serde_yaml::Value)>) -> Seq<
    (YamlTree, YamlTree),
> {
    entries.map_values(
        |e: (&serde_yaml::Value, &serde_yaml::Value)| (yaml_in(e.0), yaml_in(e.1)),
    )
}

/// The value of which this is one level.
spec fn yaml_at(n: YamlNode) -> YamlTree {
    match n {
        YamlNode::Null => YamlTree::Null,
        YamlNode::Bool(b) => YamlTree::Bool(b),
        YamlNode::Number(n) => YamlTree::Number(number_read(n)),
        YamlNode::String(s) => YamlTree::String(s@),
        YamlNode::Sequence(items) => YamlTree::Sequence(yaml_seq(items@)),
        YamlNode::Mapping(entries) => YamlTree::Mapping(yaml_pairs(entries@)),
        YamlNode::Tagged(tag, v) => YamlTree::Tagged(tag@, Box::new(yaml_in(v))),
    }
}

/// The variants of `serde_yaml::Value` tell what it holds: a sequence its items,
/// a `Mapping` its entries in their order, a `TaggedValue` its tag and its value.
/// `Number::as_u64` and `as_i64` give an integer of their type, and nothing for
/// any other number.
#[verifier::external_body]
fn open_yaml<'a>(v: &'a serde_yaml::Value) -> (r: YamlNode<'a>)
    ensures
        yaml_at(r) == yaml_in(v),
{
    match v {
        serde_yaml::Value::Null => YamlNode::Null,
        serde_yaml::Value::Bool(b) => YamlNode::Bool(*b),
        serde_yaml::Value::Number(n) => YamlNode::Number((n.as_u64(), n.as_i64(), n.to_string())),
        serde_yaml::Value::String(s) => YamlNode::String(s),
        serde_yaml::Value::Sequence(items) => YamlNode::Sequence(items),
        serde_yaml::Value::Mapping(m) => YamlNode::Mapping(m.iter().collect()),
        serde_yaml::Value::Tagged(t) => YamlNode::Tagged(t.tag.to_string(), &t.value),
    }
}

/// The tree of a value that `serde_yaml` holds.
pub fn yaml_of(v: &serde_yaml::Value) -> (r: Yaml)
    ensures
        r.tree() == yaml_in(v),
    decreases yaml_in(v),
{
    let r = match open_yaml(v) {
        YamlNode::Null => Yaml::Null,
        YamlNode::Bool(b) => Yaml::Bool(b),
        YamlNode::Number(n) => Yaml::Number(number_of(n)),
        YamlNode::String(s) => Yaml::String(s.clone()),
        YamlNode::Sequence(items) => {
            let ghost trees = yaml_seq(items@);
            let mut out: Vec<Yaml> = Vec::new();
            let mut i: usize = 0;
            while i < items.len()
                invariant
                    i <= items@.len(),
                    trees == yaml_seq(items@),
                    yaml_in(v) == YamlTree::Sequence(trees),
                    out@.len() == i,
                    forall|j: int| 0 <= j < i ==> (#[trigger] out@[j]).tree() == trees[j],
                decreases items@.len() - i,
            {
                assert(trees[i as int] == yaml_in(&items@[i as int]));
                assert(decreases_to!(yaml_in(v) => yaml_in(v)->Sequence_0[i as int]));
                out.push(yaml_of(&items[i]));
                i += 1;
            }
            assert(out@.map_values(|y: Yaml| y.tree()) =~= trees);
            Yaml::Sequence(out)
        },
        YamlNode::Mapping(entries) => {
            let ghost trees = yaml_pairs(entries@);
            let mut out: Vec<(Yaml, Yaml)> = Vec::new();
            let mut i: usize = 0;
            while i < entries.len()
                invariant
                    i <= entries@.len(),
                    trees == yaml_pairs(entries@),
                    yaml_in(v) == YamlTree::Mapping(trees),
                    out@.len() == i,
                    forall|j: int|
                        0 <= j < i ==> ((#[trigger] out@[j]).0.tree(), out@[j].1.tree())
                            == trees[j],
                decreases entries@.len() - i,
            {
                let ghost e = trees[i as int];
                assert(e == (yaml_in(entries@[i as int].0), yaml_in(entries@[i as int].1)));
                assert(decreases_to!(yaml_in(v) => yaml_in(v)->Mapping_0[i as int].0));
                assert(decreases_to!(yaml_in(v) => yaml_in(v)->Mapping_0[i as int].1));
                out.push((yaml_of(entries[i].0), yaml_of(entries[i].1)));
                i += 1;
            }
            assert(out@.map_values(|e: (Yaml, Yaml)| (e.0.tree(), e.1.tree())) =~= trees);
            Yaml::Mapping(out)
        },
        YamlNode::Tagged(tag, inner) => {
            assert(decreases_to!(yaml_in(v) => yaml_in(v)->Tagged_1));
            Yaml::Tagged(tag, Box::new(yaml_of(inner)))
        },
    };
    proof {
        yaml::lemma_tree(r);
    }
    r
}

/// A document that was read: as `serde_yaml` holds it, and its tree.
pub struct ParsedDocument {
    /// The document.
    pub raw: serde_yaml::Value,
    /// Its tree.
    pub tree: Yaml,
}

/// Reads the text of a document.
pub fn parse_document(text: &str) -> (r: Result<ParsedDocument, PluginError>)
    ensures
        match r {
            Ok(d) => {
                &&& yaml_read(text@) == Ok::<YamlTree, Seq<char>>(d.tree.tree())
                &&& yaml_in(&d.raw) == d.tree.tree()
            },
            Err(e) => yaml_read(text@) matches Err(m) && error::is_config_error(
                e,
                "YAML parse error: "@ + m,
            ),
        },
{
    match read_text(text) {
        Ok(raw) => {
            let tree = yaml_of(&raw);
            Ok(ParsedDocument { raw, tree })
        },
        Err(m) => Err(config::parse_error(m.as_str())),
    }
}

/// One level of a JSON value.
enum JsonNode<'a> {
    Null,
    Bool(bool),
    Number(Readings),
    String(&'a String),
    Array(&'a Vec<serde_json::Value>),
    Object(Vec<(&'a String, &'a serde_json::Value)>),
}

/// The values of an array.
spec fn json_seq(items: Seq<serde_json::Value>) -> Seq<Tree> {
    items.map_values(|v: serde_json::Value| json_in(&v))
}

/// The keys of an object.
spec fn json_keys(entries: Seq<(&String, &serde_json::Value)>) -> Seq<Seq<char>> {
    entries.map_values(|e: (&String, &serde_json::Value)| e.0@)
}

/// What an object has under its keys.
spec fn json_fields(entries: Seq<(&String, &serde_json::Value)>) -> Map<Seq<char>, Tree>
    decreases entries.len(),
{
    if entries.len() == 0 {
        Map::empty()
    } else {
        json_fields(entries.drop_last()).insert(entries.last().0@, json_in(entries.last().1))
    }
}

/// The value of which this is one level.
spec fn json_at(n: JsonNode) -> Tree {
    match n {
        JsonNode::Null => Tree::Null,
        JsonNode::Bool(b) => Tree::Bool(b),
        JsonNode::Number(n) => Tree::Number(number_read(n)),
        JsonNode::String(s) => Tree::String(s@),
        JsonNode::Array(items) => Tree::Array(json_seq(items@)),
        JsonNode::Object(entries) => Tree::Object(json_fields(entries@)),
    }
}

/// The variants of `serde_json::Value` tell what it holds: an array its items, an
/// object its entries, of which no two have the same key. `Number::as_u64` and
/// `as_i64` give an integer of their type, and nothing for any other number.
#[verifier::external_body]
fn open_json<'a>(v: &'a serde_json::Value) -> (r: JsonNode<'a>)
    ensures
        json_at(r) == json_in(v),
        r matches JsonNode::Object(entries) ==> json_keys(entries@).no_duplicates(),
{
    match v {
        serde_json::Value::Null => JsonNode::Null,
        serde_json::Value::Bool(b) => JsonNode::Bool(*b),
        serde_json::Value::Number(n) => JsonNode::Number((n.as_u64(), n.as_i64(), n.to_string())),
        serde_json::Value::String(s) => JsonNode::String(s),
        serde_json::Value::Array(items) => JsonNode::Array(items),
        serde_json::Value::Object(m) => JsonNode::Object(m.iter().collect()),
    }
}

/// An object has under each of its keys what the entry with that key holds.
proof fn lemma_field(entries: Seq<(&String, &serde_json::Value)>, i: int)
    requires
        json_keys(entries).no_duplicates(),
        0 <= i < entries.len(),
    ensures
        json_fields(entries).dom().finite(),
        json_fields(entries).contains_key(entries[i].0@),
        json_fields(entries)[entries[i].0@] == json_in(entries[i].1),
    decreases entries.len(),
{
    let head = entries.drop_last();
    let keys = json_keys(entries);
    assert(json_keys(head) =~= keys.drop_last());
    if i == entries.len() - 1 {
        if head.len() > 0 {
            lemma_field(head, 0);
        } else {
            assert(json_fields(head) == Map::<Seq<char>, Tree>::empty());
        }
    } else {
        lemma_field(head, i);
        assert(keys[i] != keys[entries.len() - 1]);
    }
}

/// The tree of a value that `serde_json` holds.
pub fn json_of(v: &serde_json::Value) -> (r: Json)
    ensures
        r.tree() == json_in(v),
    decreases json_in(v),
{
    let r = match open_json(v) {
        JsonNode::Null => Json::Null,
        JsonNode::Bool(b) => Json::Bool(b),
        JsonNode::Number(n) => Json::Number(number_of(n)),
        JsonNode::String(s) => Json::String(s.clone()),
        JsonNode::Array(items) => {
            let ghost trees = json_seq(items@);
            let mut out: Vec<Json> = Vec::new();
            let mut i: usize = 0;
            while i < items.len()
                invariant
                    i <= items@.len(),
                    trees == json_seq(items@),
                    json_in(v) == Tree::Array(trees),
                    out@.len() == i,
                    forall|j: int| 0 <= j < i ==> (#[trigger] out@[j]).tree() == trees[j],
                decreases items@.len() - i,
            {
                assert(trees[i as int] == json_in(&items@[i as int]));
                assert(decreases_to!(json_in(v) => json_in(v)->Array_0[i as int]));
                out.push(json_of(&items[i]));
                i += 1;
            }
            assert(out@.map_values(|y: Json| y.tree()) =~= trees);
            Json::Array(out)
        },
        JsonNode::Object(entries) => {
            let mut out: TextMap<Json> = TextMap::new();
            let mut i: usize = 0;
            assert(out.trees() =~= json_fields(entries@.take(0)));
            while i < entries.len()
                invariant
                    i <= entries@.len(),
                    json_keys(entries@).no_duplicates(),
                    json_in(v) == Tree::Object(json_fields(entries@)),
                    out.trees() == json_fields(entries@.take(i as int)),
                decreases entries@.len() - i,
            {
                let ghost before = out.trees();
                let ghost key = entries@[i as int].0@;
                proof {
                    lemma_field(entries@, i as int);
                    assert(decreases_to!(json_in(v) => json_in(v)->Object_0[key]));
                    assert(entries@.take(i + 1).drop_last() =~= entries@.take(i as int));
                }
                let field = json_of(entries[i].1);
                out.insert(entries[i].0.clone(), field);
                assert(out.trees() =~= before.insert(key, field.tree()));
                i += 1;
            }
            assert(entries@.take(i as int) =~= entries@);
            Json::Object(out)
        },
    };
    proof {
        value::lemma_tree(r);
    }
    r
}

/// The JSON that YAML comes to, or what is wrong: what JSON can say word for word
/// stays what it is.
pub open spec fn json_for(y: YamlTree) -> Result<Tree, Seq<char>> {
    match plain_json(y) {
        Some(t) => Ok(t),
        None => json_made(y),
    }
}

/// The JSON value that a YAML value comes to, or why it comes to none: a mapping
/// of YAML may have keys that no object of JSON can have.
pub fn yaml_to_json(v: &serde_yaml::Value) -> (r: Result<Json, String>)
    ensures
        match r {
            Ok(j) => json_for(yaml_in(v)) == Ok::<Tree, Seq<char>>(j.tree()),
            Err(m) => json_for(yaml_in(v)) == Err::<Tree, Seq<char>>(m@),
        },
{
    match make_json(v) {
        Ok(j) => Ok(json_of(&j)),
        Err(m) => Err(m),
    }
}

/// What JSON says of a value that it can say word for word: nothing, a flag, a whole
/// number, text, a sequence and a mapping are what they are. A number that is not whole,
/// and a value with a tag, it cannot say so.
pub proof fn law_a_plain_value_stays_what_it_is(
    b: bool,
    n: int,
    s: Seq<char>,
    items: Seq<YamlTree>,
    entries: Seq<(YamlTree, YamlTree)>,
    inner: YamlTree,
)
    ensures
        plain_json(YamlTree::Null) == Some(Tree::Null),
        plain_json(YamlTree::Bool(b)) == Some(Tree::Bool(b)),
        plain_json(YamlTree::Number(NumberTree::Integer(n))) == Some(
            Tree::Number(NumberTree::Integer(n)),
        ),
        plain_json(YamlTree::String(s)) == Some(Tree::String(s)),
        plain_json(YamlTree::Number(NumberTree::Other(s))) is None,
        plain_json(YamlTree::Tagged(s, Box::new(inner))) is None,
        plain_json(YamlTree::Sequence(items)) is Some <==> forall|i: int|
            0 <= i < items.len() ==> plain_json(#[trigger] items[i]) is Some,
        plain_json(YamlTree::Sequence(items)) matches Some(t) ==> (t matches Tree::Array(trees)
            && trees.len() == items.len() && forall|i: int|
            0 <= i < items.len() ==> plain_json(#[trigger] items[i]) == Some(trees[i])),
        plain_json(YamlTree::Mapping(entries)) is Some <==> forall|i: int|
            0 <= i < entries.len() ==> (#[trigger] entries[i]).0 is String && plain_json(
                entries[i].1,
            ) is Some,
        plain_json(YamlTree::Mapping(entries)) matches Some(t) ==> (t matches Tree::Object(fields)
            && fields.dom() == Set::new(|key: Seq<char>| has_key(entries, key)) && forall|i: int|
            0 <= i < entries.len() && is_last_of_its_key(entries, i) ==> plain_json(
                (#[trigger] entries[i]).1,
            ) == Some(fields[entries[i].0->String_0])),
{
    lemma_plain_items(items);
    lemma_plain_fields(entries);
}

/// Whether an entry has the key `key`.
pub open spec fn has_key(entries: Seq<(YamlTree, YamlTree)>, key: Seq<char>) -> bool {
    exists|i: int| 0 <= i < entries.len() && (#[trigger] entries[i]).0 == YamlTree::String(key)
}

/// Whether no entry behind `i` has its key.
pub open spec fn is_last_of_its_key(entries: Seq<(YamlTree, YamlTree)>, i: int) -> bool {
    forall|j: int| i < j < entries.len() ==> (#[trigger] entries[j]).0 != entries[i].0
}

/// The items of a sequence, one by one.
proof fn lemma_plain_items(items: Seq<YamlTree>)
    ensures
        plain_items(items) is Some <==> forall|i: int|
            0 <= i < items.len() ==> plain_json(#[trigger] items[i]) is Some,
        plain_items(items) matches Some(trees) ==> trees.len() == items.len() && forall|i: int|
            0 <= i < items.len() ==> plain_json(#[trigger] items[i]) == Some(trees[i]),
    decreases items.len(),
{
    if items.len() > 0 {
        let head = items.drop_last();
        lemma_plain_items(head);
        assert(items[items.len() - 1] == items.last());
        if plain_items(items) is Some {
            let trees = plain_items(items)->Some_0;
            assert forall|i: int| 0 <= i < items.len() implies plain_json(#[trigger] items[i])
                == Some(trees[i]) by {
                if i < head.len() {
                    assert(head[i] == items[i]);
                    assert(plain_json(head[i]) == Some(plain_items(head)->Some_0[i]));
                }
            }
        }
        if forall|i: int| 0 <= i < items.len() ==> plain_json(#[trigger] items[i]) is Some {
            assert forall|i: int| 0 <= i < head.len() implies plain_json(
                #[trigger] head[i],
            ) is Some by {
                assert(head[i] == items[i]);
            }
        }
    }
}

/// The fields of a mapping, one by one: of two with one key the last stands.
proof fn lemma_plain_fields(entries: Seq<(YamlTree, YamlTree)>)
    ensures
        plain_fields(entries) is Some <==> forall|i: int|
            0 <= i < entries.len() ==> (#[trigger] entries[i]).0 is String && plain_json(
                entries[i].1,
            ) is Some,
        plain_fields(entries) matches Some(fields) ==> fields.dom() == Set::new(
            |key: Seq<char>| has_key(entries, key),
        ) && forall|i: int|
            0 <= i < entries.len() && is_last_of_its_key(entries, i) ==> plain_json(
                (#[trigger] entries[i]).1,
            ) == Some(fields[entries[i].0->String_0]),
    decreases entries.len(),
{
    if entries.len() == 0 {
        assert(Map::<Seq<char>, Tree>::empty().dom() =~= Set::new(
            |key: Seq<char>| has_key(entries, key),
        ));
    } else {
        let head = entries.drop_last();
        let n = head.len() as int;
        lemma_plain_fields(head);
        assert(entries[n] == entries.last());
        if forall|i: int|
            0 <= i < entries.len() ==> (#[trigger] entries[i]).0 is String && plain_json(
                entries[i].1,
            ) is Some {
            assert forall|i: int| 0 <= i < head.len() implies (#[trigger] head[i]).0 is String
                && plain_json(head[i].1) is Some by {
                assert(head[i] == entries[i]);
            }
        }
        if plain_fields(entries) is Some {
            let fields = plain_fields(entries)->Some_0;
            let before = plain_fields(head)->Some_0;
            let last = entries.last().0->String_0;
            assert forall|i: int| 0 <= i < entries.len() implies (#[trigger] entries[i]).0 is String
                && plain_json(entries[i].1) is Some by {
                if i < n {
                    assert(head[i] == entries[i]);
                }
            }
            assert forall|key: Seq<char>| #[trigger] fields.contains_key(key) <==> has_key(
                entries,
                key,
            ) by {
                if key == last {
                    assert(entries[n].0 == YamlTree::String(key));
                } else {
                    assert(before.dom().contains(key) <==> has_key(head, key));
                    if has_key(head, key) {
                        let i = choose|i: int|
                            0 <= i < head.len() && (#[trigger] head[i]).0 == YamlTree::String(key);
                        assert(entries[i].0 == YamlTree::String(key));
                    }
                    if has_key(entries, key) {
                        let i = choose|i: int|
                            0 <= i < entries.len() && (#[trigger] entries[i]).0
                                == YamlTree::String(key);
                        assert(head[i].0 == YamlTree::String(key));
                    }
                }
            }
            assert(fields.dom() =~= Set::new(|key: Seq<char>| has_key(entries, key)));
            assert forall|i: int|
                0 <= i < entries.len() && is_last_of_its_key(entries, i) implies plain_json(
                (#[trigger] entries[i]).1,
            ) == Some(fields[entries[i].0->String_0]) by {
                if i < n {
                    assert(entries[n].0 != entries[i].0);
                    assert(head[i] == entries[i]);
                    assert forall|j: int| i < j < head.len() implies (#[trigger] head[j]).0
                        != head[i].0 by {
                        assert(entries[j].0 != entries[i].0);
                    }
                    assert(is_last_of_its_key(head, i));
                }
            }
        }
    }
}

/// What JSON can say word for word it says so; of anything else, what the conversion makes
/// of it is what it says.
pub proof fn law_what_becomes_of_a_value_in_json(y: YamlTree)
    ensures
        plain_json(y) matches Some(t) ==> json_for(y) == Ok::<Tree, Seq<char>>(t),
        plain_json(y) is None ==> json_for(y) == json_made(y),
{
}

} // verus!
