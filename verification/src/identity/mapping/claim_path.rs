//! A path to one claim: segments between dots, with `\.` for a literal dot and
//! `\\` for a literal backslash.
use crate::text;
use crate::value::{Json, TextMap};
use vstd::prelude::*;

verus! {

/// A parsed claim path: the segments to walk to reach one claim value.
///
/// Parse once with [`ClaimPath::parse`], then [`ClaimPath::resolve`] on the
/// request path.
#[derive(Debug, Clone, PartialEq, Eq)]
pub struct ClaimPath {
    segments: Vec<String>,
}

/// The texts of `v`.
pub open spec fn texts(v: Seq<String>) -> Seq<Seq<char>> {
    Seq::new(v.len(), |i: int| v[i]@)
}

impl View for ClaimPath {
    type V = Seq<Seq<char>>;

    closed spec fn view(&self) -> Seq<Seq<char>> {
        texts(self.segments@)
    }
}

/// Why an authored path addresses nothing.
pub enum PathFault {
    /// The path holds no character.
    Empty,
    /// A segment holds no character.
    EmptySegment,
    /// A backslash ends the path.
    TrailingEscape,
    /// A backslash stands before a character that is no escape.
    UnknownEscape(char),
}

/// What an authored path reads as, behind the segments and the beginning of a
/// segment that were read already.
pub open spec fn read_from(
    input: Seq<char>,
    segments: Seq<Seq<char>>,
    current: Seq<char>,
) -> Result<Seq<Seq<char>>, PathFault>
    decreases input.len(),
{
    if input.len() == 0 {
        if current.len() > 0 {
            Ok(segments.push(current))
        } else if segments.len() == 0 {
            Err(PathFault::Empty)
        } else {
            Err(PathFault::EmptySegment)
        }
    } else if input[0] == '\\' {
        if input.len() == 1 {
            Err(PathFault::TrailingEscape)
        } else if input[1] == '.' || input[1] == '\\' {
            read_from(input.skip(2), segments, current.push(input[1]))
        } else {
            Err(PathFault::UnknownEscape(input[1]))
        }
    } else if input[0] == '.' {
        if current.len() == 0 {
            Err(PathFault::EmptySegment)
        } else {
            read_from(input.skip(1), segments.push(current), Seq::empty())
        }
    } else {
        read_from(input.skip(1), segments, current.push(input[0]))
    }
}

/// What an authored path reads as: its segments, unescaped.
pub open spec fn read_path(input: Seq<char>) -> Result<Seq<Seq<char>>, PathFault> {
    read_from(input, Seq::empty(), Seq::empty())
}

/// What is said of a path that addresses nothing.
pub open spec fn fault_message(input: Seq<char>, fault: PathFault) -> Seq<char> {
    match fault {
        PathFault::Empty => "path is empty"@,
        PathFault::EmptySegment => "path '"@ + input + "': empty segment"@,
        PathFault::TrailingEscape => "path '"@ + input + "': trailing `\\` escapes nothing"@,
        PathFault::UnknownEscape(c) => ("path '"@ + input + "': unrecognized escape `\\"@).push(c)
            + "`; only `\\.` and `\\\\` are escapes"@,
    }
}

/// One segment in authored form.
pub open spec fn escaped(segment: Seq<char>) -> Seq<char>
    decreases segment.len(),
{
    if segment.len() == 0 {
        Seq::empty()
    } else {
        let head = escaped(segment.drop_last());
        let c = segment.last();
        if c == '.' || c == '\\' {
            head.push('\\').push(c)
        } else {
            head.push(c)
        }
    }
}

/// A path in authored form: its segments escaped, a dot between them.
pub open spec fn authored(segments: Seq<Seq<char>>) -> Seq<char>
    decreases segments.len(),
{
    if segments.len() == 0 {
        Seq::empty()
    } else if segments.len() == 1 {
        escaped(segments[0])
    } else {
        authored(segments.drop_last()).push('.') + escaped(segments.last())
    }
}

/// What a path leads to from `v`: through objects only.
pub open spec fn walk(v: Json, segments: Seq<Seq<char>>) -> Option<Json>
    decreases segments.len(),
{
    if segments.len() == 0 {
        Some(v)
    } else {
        match v {
            Json::Object(map) => if map@.contains_key(segments[0]) {
                walk(map@[segments[0]], segments.drop_first())
            } else {
                None
            },
            _ => None,
        }
    }
}

/// What a path leads to in a claim set.
pub open spec fn found(claims: Map<Seq<char>, Json>, segments: Seq<Seq<char>>) -> Option<Json> {
    if segments.len() > 0 && claims.contains_key(segments[0]) {
        walk(claims[segments[0]], segments.drop_first())
    } else {
        None
    }
}

/// The message of `fault` about `input`.
fn message(input: &str, fault: PathFault) -> (r: String)
    ensures
        r@ == fault_message(input@, fault),
{
    match fault {
        PathFault::Empty => "path is empty".to_owned(),
        PathFault::EmptySegment => {
            let mut m = "path '".to_owned();
            m.append(input);
            m.append("': empty segment");
            m
        },
        PathFault::TrailingEscape => {
            let mut m = "path '".to_owned();
            m.append(input);
            m.append("': trailing `\\` escapes nothing");
            m
        },
        PathFault::UnknownEscape(c) => {
            let mut m = "path '".to_owned();
            m.append(input);
            m.append("': unrecognized escape `\\");
            m.push(c);
            m.append("`; only `\\.` and `\\\\` are escapes");
            m
        },
    }
}

impl ClaimPath {
    /// Parse an authored path.
    ///
    /// `.` separates segments. `\.` is a literal dot and `\\` a literal
    /// backslash; every other character is a literal, `:` and `/` included.
    ///
    /// The error is a message naming the offending path when it is empty, has
    /// an empty segment, ends in a lone `\`, or carries another escape.
    pub fn parse(input: &str) -> (r: Result<Self, String>)
        ensures
            match r {
                Ok(path) => read_path(input@) == Ok::<Seq<Seq<char>>, PathFault>(path@),
                Err(m) => read_path(input@) is Err && m@ == fault_message(
                    input@,
                    read_path(input@)->Err_0,
                ),
            },
    {
        let v = text::chars_of(input);
        let mut segments: Vec<String> = Vec::new();
        let mut current = String::new();
        let mut i: usize = 0;
        assert(v@.skip(0) =~= v@);
        assert(texts(segments@) =~= Seq::<Seq<char>>::empty());
        while i < v.len()
            invariant
                i <= v@.len(),
                v@ == input@,
                read_path(input@) == read_from(v@.skip(i as int), texts(segments@), current@),
            decreases v@.len() - i,
        {
            let c = v[i];
            let ghost rest = v@.skip(i as int);
            assert(rest.skip(1) =~= v@.skip(i + 1));
            if c == '\\' {
                if i + 1 == v.len() {
                    return Err(message(input, PathFault::TrailingEscape));
                }
                let next = v[i + 1];
                assert(rest[1] == next);
                assert(rest.skip(2) =~= v@.skip(i + 2));
                if next == '.' || next == '\\' {
                    current.push(next);
                } else {
                    return Err(message(input, PathFault::UnknownEscape(next)));
                }
                i += 2;
            } else if c == '.' {
                if current.as_str().is_empty() {
                    return Err(message(input, PathFault::EmptySegment));
                }
                let ghost was = texts(segments@);
                segments.push(current.clone());
                assert(texts(segments@) =~= was.push(current@));
                current = String::new();
                i += 1;
            } else {
                current.push(c);
                i += 1;
            }
        }
        assert(v@.skip(i as int) =~= Seq::<char>::empty());
        if current.as_str().is_empty() {
            if segments.len() == 0 {
                return Err(message(input, PathFault::Empty));
            }
            return Err(message(input, PathFault::EmptySegment));
        }
        let ghost was = texts(segments@);
        segments.push(current.clone());
        assert(texts(segments@) =~= was.push(current@));
        Ok(ClaimPath { segments })
    }

    /// Resolve against a claim set, or `None` when the path leads nowhere.
    ///
    /// A path crossing a scalar or an array leads nowhere: traversal needs
    /// objects. A claim whose value is `null` is found, and is `null`.
    pub fn resolve<'a>(&self, claims: &'a TextMap<Json>) -> (r: Option<&'a Json>)
        ensures
            match r {
                Some(v) => found(claims@, self@) == Some(*v),
                None => found(claims@, self@) is None,
            },
    {
        if self.segments.len() == 0 {
            return None;
        }
        let mut current: &'a Json = match claims.get(self.segments[0].as_str()) {
            Some(v) => v,
            None => {
                return None;
            },
        };
        let mut i: usize = 1;
        assert(self@.skip(1) =~= self@.drop_first());
        while i < self.segments.len()
            invariant
                1 <= i <= self.segments@.len(),
                found(claims@, self@) == walk(*current, self@.skip(i as int)),
            decreases self.segments@.len() - i,
        {
            assert(self@.skip(i as int).drop_first() =~= self@.skip(i + 1));
            match current {
                Json::Object(map) => {
                    match map.get(self.segments[i].as_str()) {
                        Some(v) => {
                            current = v;
                        },
                        None => {
                            return None;
                        },
                    }
                },
                _ => {
                    return None;
                },
            }
            i += 1;
        }
        Some(current)
    }

    /// The path's segments, already unescaped.
    pub fn segments(&self) -> (r: &[String])
        ensures
            texts(r@) == self@,
    {
        self.segments.as_slice()
    }

    /// The single segment this path consumes whole, or `None` when it
    /// traverses.
    pub fn single_segment(&self) -> (r: Option<&str>)
        ensures
            r is Some <==> self@.len() == 1,
            r is Some ==> r->Some_0@ == self@[0],
    {
        if self.segments.len() == 1 {
            Some(self.segments[0].as_str())
        } else {
            None
        }
    }

    /// The path back in authored form, `.` and `\` escaped again, so that a
    /// diagnostic echoes what was written.
    pub fn authored(&self) -> (r: String)
        ensures
            r@ == authored(self@),
    {
        let mut out = String::new();
        let mut i: usize = 0;
        assert(self@.take(0) =~= Seq::<Seq<char>>::empty());
        while i < self.segments.len()
            invariant
                i <= self.segments@.len(),
                out@ == authored(self@.take(i as int)),
            decreases self.segments@.len() - i,
        {
            if i > 0 {
                out.push('.');
            }
            let ghost head = out@;
            let v = text::chars_of(self.segments[i].as_str());
            let mut j: usize = 0;
            assert(v@.take(0) =~= Seq::<char>::empty());
            assert(out@ =~= head + escaped(v@.take(0)));
            while j < v.len()
                invariant
                    j <= v@.len(),
                    out@ == head + escaped(v@.take(j as int)),
                decreases v@.len() - j,
            {
                let c = v[j];
                assert(v@.take(j + 1).drop_last() =~= v@.take(j as int));
                if c == '.' || c == '\\' {
                    out.push('\\');
                }
                out.push(c);
                j += 1;
                assert(out@ =~= head + escaped(v@.take(j as int)));
            }
            proof {
                assert(v@.take(v@.len() as int) =~= v@);
                let more = self@.take(i + 1);
                assert(more.drop_last() =~= self@.take(i as int));
                assert(more.last() == v@);
                assert(head + escaped(v@) =~= authored(more));
            }
            i += 1;
        }
        assert(self@.take(self@.len() as int) =~= self@);
        out
    }
}

/// Reading an escaped segment adds its characters to the segment being read.
proof fn lemma_read_escaped(
    segment: Seq<char>,
    rest: Seq<char>,
    segments: Seq<Seq<char>>,
    current: Seq<char>,
)
    ensures
        read_from(escaped(segment) + rest, segments, current) == read_from(
            rest,
            segments,
            current + segment,
        ),
    decreases segment.len(),
{
    if segment.len() == 0 {
        assert(escaped(segment) + rest =~= rest);
        assert(current + segment =~= current);
    } else {
        let head = segment.drop_last();
        let c = segment.last();
        let more = if c == '.' || c == '\\' {
            seq!['\\', c] + rest
        } else {
            seq![c] + rest
        };
        assert(escaped(segment) + rest =~= escaped(head) + more);
        lemma_read_escaped(head, more, segments, current);
        if c == '.' || c == '\\' {
            assert(more.skip(2) =~= rest);
        } else {
            assert(more.skip(1) =~= rest);
        }
        assert((current + head).push(c) =~= current + segment);
    }
}

/// Reading an authored path reads its segments.
proof fn lemma_read_authored(list: Seq<Seq<char>>, rest: Seq<char>, segments: Seq<Seq<char>>)
    requires
        list.len() > 0,
        forall|i: int| 0 <= i < list.len() ==> (#[trigger] list[i]).len() > 0,
    ensures
        read_from(authored(list) + rest, segments, Seq::empty()) == read_from(
            rest,
            segments + list.drop_last(),
            list.last(),
        ),
    decreases list.len(),
{
    let empty = Seq::<char>::empty();
    if list.len() == 1 {
        lemma_read_escaped(list[0], rest, segments, empty);
        assert(empty + list[0] =~= list[0]);
        assert(segments + list.drop_last() =~= segments);
    } else {
        let head = list.drop_last();
        let last = list.last();
        let more = seq!['.'] + (escaped(last) + rest);
        assert(authored(list) + rest =~= authored(head) + more);
        assert forall|i: int| 0 <= i < head.len() implies (#[trigger] head[i]).len() > 0 by {
            assert(head[i] == list[i]);
        }
        lemma_read_authored(head, more, segments);
        assert(more.skip(1) =~= escaped(last) + rest);
        assert(head.last().len() > 0);
        assert((segments + head.drop_last()).push(head.last()) =~= segments + head);
        lemma_read_escaped(last, rest, segments + head, empty);
        assert(empty + last =~= last);
    }
}

/// A path written out reads back as itself.
pub proof fn law_a_rendered_path_parses_to_its_segments(segments: Seq<Seq<char>>)
    requires
        segments.len() > 0,
        forall|i: int| 0 <= i < segments.len() ==> (#[trigger] segments[i]).len() > 0,
    ensures
        read_path(authored(segments)) == Ok::<Seq<Seq<char>>, PathFault>(segments),
{
    let none = Seq::<Seq<char>>::empty();
    let empty = Seq::<char>::empty();
    lemma_read_authored(segments, empty, none);
    assert(authored(segments) + empty =~= authored(segments));
    assert(none + segments.drop_last() =~= segments.drop_last());
    assert(segments.drop_last().push(segments.last()) =~= segments);
    assert(segments[segments.len() - 1].len() > 0);
}

/// What the characters read so far were.
spec fn read_already(segments: Seq<Seq<char>>, current: Seq<char>) -> Seq<char> {
    if segments.len() == 0 {
        escaped(current)
    } else {
        authored(segments).push('.') + escaped(current)
    }
}

proof fn lemma_parsed(
    input: Seq<char>,
    segments: Seq<Seq<char>>,
    current: Seq<char>,
    out: Seq<Seq<char>>,
)
    requires
        read_from(input, segments, current) == Ok::<Seq<Seq<char>>, PathFault>(out),
        forall|i: int| 0 <= i < segments.len() ==> (#[trigger] segments[i]).len() > 0,
    ensures
        authored(out) == read_already(segments, current) + input,
        out.len() > 0,
        forall|i: int| 0 <= i < out.len() ==> (#[trigger] out[i]).len() > 0,
    decreases input.len(),
{
    if input.len() == 0 {
        assert(out.drop_last() =~= segments);
        assert(authored(out) =~= read_already(segments, current) + input);
    } else if input[0] == '\\' {
        let c = input[1];
        let next = current.push(c);
        lemma_parsed(input.skip(2), segments, next, out);
        assert(next.drop_last() =~= current);
        assert(escaped(next) =~= escaped(current).push('\\').push(c));
        assert(read_already(segments, next) + input.skip(2) =~= read_already(segments, current) + input);
    } else if input[0] == '.' {
        let more = segments.push(current);
        lemma_parsed(input.skip(1), more, Seq::empty(), out);
        assert(more.drop_last() =~= segments);
        assert(read_already(more, Seq::empty()) =~= read_already(segments, current).push('.'));
        assert(read_already(more, Seq::empty()) + input.skip(1) =~= read_already(segments, current)
            + input);
    } else {
        let next = current.push(input[0]);
        lemma_parsed(input.skip(1), segments, next, out);
        assert(next.drop_last() =~= current);
        assert(read_already(segments, next) + input.skip(1) =~= read_already(segments, current) + input);
    }
}

/// Every path that parses is echoed exactly as it was authored, and no segment
/// of it is empty.
pub proof fn law_rendering_echoes_every_accepted_path(input: Seq<char>, segments: Seq<Seq<char>>)
    requires
        read_path(input) == Ok::<Seq<Seq<char>>, PathFault>(segments),
    ensures
        authored(segments) == input,
        segments.len() > 0,
        forall|i: int| 0 <= i < segments.len() ==> (#[trigger] segments[i]).len() > 0,
{
    lemma_parsed(input, Seq::empty(), Seq::empty(), segments);
    assert(read_already(Seq::empty(), Seq::empty()) + input =~= input);
}

/// Segments are written character by character: a dot and a backslash behind a backslash,
/// any other character as itself.
pub proof fn law_how_a_segment_is_written(a: Seq<char>, b: Seq<char>, c: char)
    ensures
        escaped(a + b) == escaped(a) + escaped(b),
        c == '.' || c == '\\' ==> escaped(seq![c]) == seq!['\\', c],
        c != '.' && c != '\\' ==> escaped(seq![c]) == seq![c],
        escaped(Seq::empty()) == Seq::<char>::empty(),
    decreases b.len(),
{
    let one = seq![c];
    assert(one.drop_last() =~= Seq::<char>::empty());
    assert(escaped(one.drop_last()) =~= Seq::<char>::empty());
    assert(one.last() == c);
    if c == '.' || c == '\\' {
        assert(escaped(one) =~= seq!['\\', c]);
    } else {
        assert(escaped(one) =~= seq![c]);
    }
    if b.len() == 0 {
        assert(a + b =~= a);
        assert(escaped(a) + escaped(b) =~= escaped(a));
    } else {
        law_how_a_segment_is_written(a, b.drop_last(), c);
        assert((a + b).drop_last() =~= a + b.drop_last());
        assert((a + b).last() == b.last());
        assert(escaped(a + b) =~= escaped(a) + escaped(b));
    }
}

/// Segments are written one behind the other, with one dot between them.
pub proof fn law_how_a_path_is_written(segments: Seq<Seq<char>>, segment: Seq<char>)
    ensures
        authored(seq![segment]) == escaped(segment),
        segments.len() > 0 ==> authored(segments.push(segment)) == authored(segments) + seq!['.']
            + escaped(segment),
{
    let all = segments.push(segment);
    assert(all.drop_last() =~= segments);
    if segments.len() > 0 {
        assert(authored(all) =~= authored(segments) + seq!['.'] + escaped(segment));
    }
}

/// What is said to be wrong with a path that is not read. A path of nothing is empty; a
/// dot with no segment before it, or behind it, makes an empty segment; a backslash at
/// the end escapes nothing; and one before any other character than a dot or a backslash
/// is no escape, whatever stands behind that.
pub proof fn law_what_is_wrong_with_a_path(segments: Seq<Seq<char>>, c: char, rest: Seq<char>)
    requires
        segments.len() > 0,
        forall|i: int| 0 <= i < segments.len() ==> (#[trigger] segments[i]).len() > 0,
        c != '.',
        c != '\\',
    ensures
        read_path(Seq::empty()) == Err::<Seq<Seq<char>>, PathFault>(PathFault::Empty),
        read_path(seq!['.'] + rest) == Err::<Seq<Seq<char>>, PathFault>(PathFault::EmptySegment),
        read_path(authored(segments) + seq!['.']) == Err::<Seq<Seq<char>>, PathFault>(
            PathFault::EmptySegment,
        ),
        read_path(authored(segments) + (seq!['.', '.'] + rest)) == Err::<Seq<Seq<char>>, PathFault>(
            PathFault::EmptySegment,
        ),
        read_path(authored(segments) + seq!['\\']) == Err::<Seq<Seq<char>>, PathFault>(
            PathFault::TrailingEscape,
        ),
        read_path(authored(segments) + (seq!['\\', c] + rest)) == Err::<
            Seq<Seq<char>>,
            PathFault,
        >(PathFault::UnknownEscape(c)),
{
    let none = Seq::<Seq<char>>::empty();
    let empty = Seq::<char>::empty();
    assert(segments[segments.len() - 1].len() > 0);
    assert((seq!['.'] + rest)[0] == '.');
    lemma_read_authored(segments, seq!['.'], none);
    assert(seq!['.'].skip(1) =~= empty);
    let before = none + segments.drop_last();
    assert(read_from(empty, before.push(segments.last()), empty) == Err::<
        Seq<Seq<char>>,
        PathFault,
    >(PathFault::EmptySegment));
    let two = seq!['.', '.'] + rest;
    lemma_read_authored(segments, two, none);
    assert(two.skip(1)[0] == '.');
    assert(read_from(two.skip(1), before.push(segments.last()), empty) == Err::<
        Seq<Seq<char>>,
        PathFault,
    >(PathFault::EmptySegment));
    lemma_read_authored(segments, seq!['\\'], none);
    let odd = seq!['\\', c] + rest;
    lemma_read_authored(segments, odd, none);
    assert(odd[0] == '\\' && odd[1] == c);
}

/// A path of one segment leads to the claim of that name; one segment more leads on into
/// an object that the path before it leads to, to what stands there under that name, and
/// into nothing else.
pub proof fn law_a_path_leads_through_objects(
    claims: Map<Seq<char>, Json>,
    path: Seq<Seq<char>>,
    segment: Seq<char>,
)
    ensures
        found(claims, Seq::empty()) is None,
        claims.contains_key(segment) ==> found(claims, seq![segment]) == Some(claims[segment]),
        !claims.contains_key(segment) ==> found(claims, seq![segment]) is None,
        path.len() > 0 ==> (found(claims, path) is None ==> found(
            claims,
            path.push(segment),
        ) is None),
        path.len() > 0 ==> (found(claims, path) matches Some(v) ==> {
            &&& v matches Json::Object(map) ==> {
                &&& map@.contains_key(segment) ==> found(claims, path.push(segment)) == Some(
                    map@[segment],
                )
                &&& !map@.contains_key(segment) ==> found(claims, path.push(segment)) is None
            }
            &&& v !is Object ==> found(claims, path.push(segment)) is None
        }),
{
    let one = seq![segment];
    assert(one.drop_first() =~= Seq::<Seq<char>>::empty());
    if path.len() > 0 {
        assert(path.push(segment).drop_first() =~= path.drop_first().push(segment));
        assert(path.push(segment)[0] == path[0]);
        if claims.contains_key(path[0]) {
            lemma_walk_on(claims[path[0]], path.drop_first(), segment);
        }
    }
}

/// One segment more leads on from where the walk came to.
proof fn lemma_walk_on(v: Json, path: Seq<Seq<char>>, segment: Seq<char>)
    ensures
        walk(v, path.push(segment)) == (match walk(v, path) {
            Some(Json::Object(map)) => if map@.contains_key(segment) {
                Some(map@[segment])
            } else {
                None
            },
            _ => None,
        }),
    decreases path.len(),
{
    let all = path.push(segment);
    assert(all.drop_first() =~= if path.len() == 0 {
        Seq::<Seq<char>>::empty()
    } else {
        path.drop_first().push(segment)
    });
    match v {
        Json::Object(map) => {
            if path.len() > 0 {
                assert(all[0] == path[0]);
                if map@.contains_key(path[0]) {
                    lemma_walk_on(map@[path[0]], path.drop_first(), segment);
                }
            } else {
                reveal_with_fuel(walk, 2);
            }
        },
        _ => {},
    }
}

/// What is said of a path that addresses nothing names the path, but for one that is
/// empty, and the escape that is none.
pub proof fn law_what_is_said_of_a_path(input: Seq<char>, c: char)
    ensures
        fault_message(input, PathFault::Empty) == "path is empty"@,
        fault_message(input, PathFault::EmptySegment) == "path '"@ + input + "': empty segment"@,
        fault_message(input, PathFault::TrailingEscape) == "path '"@ + input
            + "': trailing `\\` escapes nothing"@,
        fault_message(input, PathFault::UnknownEscape(c)) == "path '"@ + input
            + "': unrecognized escape `\\"@ + seq![c] + "`; only `\\.` and `\\\\` are escapes"@,
{
    let head = "path '"@ + input + "': unrecognized escape `\\"@;
    assert(head.push(c) =~= head + seq![c]);
}

} // verus!
