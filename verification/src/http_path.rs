//! Reading a host-supplied request path, and refusing one that cannot be read
//! safely.
//!
//! Route matching runs on the path as given. What this module contributes is
//! fail-closed: a path it cannot read is refused. Nothing is percent-decoded,
//! so an encoded separator stays inside its own segment.
//!
//! The fragment, the query, and the path parameters of each segment are
//! stripped; dot segments and repeated slashes are resolved away. A traversal
//! segment that carries a path parameter is refused rather than resolved, for
//! whether `..;x` is a traversal depends on who reads it. A path that is not
//! absolute comes back exactly as given.
use crate::text;
use std::borrow::Cow;
use vstd::prelude::*;
use vstd::utf8::*;

verus! {

/// Why a request path could not be read as a path.
///
/// Each variant carries a byte offset rather than the path itself, so a
/// refusal names the rule it broke without copying request content.
#[derive(Debug, Clone, Copy, PartialEq, Eq, Structural)]
pub enum PathError {
    /// A percent sign not followed by two hexadecimal digits.
    InvalidEscape {
        /// Byte offset of the percent sign.
        index: usize,
    },
    /// A percent-escape cut short by the end of the path.
    TruncatedEscape {
        /// Byte offset of the percent sign.
        index: usize,
    },
    /// A traversal segment carrying a path parameter, such as `..;x`.
    ParameterizedTraversal {
        /// Byte offset where the segment starts.
        index: usize,
    },
    /// A raw control character, which no legitimate request line carries.
    ControlCharacter {
        /// Byte offset of the character.
        index: usize,
        /// The offending byte.
        byte: u8,
    },
}

/// What is said of a path that could not be read.
pub open spec fn path_message(e: PathError) -> Seq<char> {
    match e {
        PathError::InvalidEscape { index } => "percent-escape at byte "@ + text::decimal(
            index as nat,
        ) + " is not two hex digits"@,
        PathError::TruncatedEscape { index } => "percent-escape at byte "@ + text::decimal(
            index as nat,
        ) + " is truncated"@,
        PathError::ParameterizedTraversal { index } =>
            "path parameter on a traversal segment at byte "@ + text::decimal(index as nat),
        PathError::ControlCharacter { index, byte } => "control character 0x"@.push(
            text::hex_lower((byte / 16) as nat),
        ).push(text::hex_lower((byte % 16) as nat)) + " at byte "@ + text::decimal(index as nat),
    }
}

impl PathError {
    /// What is said of the path.
    pub fn message(&self) -> (r: String)
        ensures
            r@ == path_message(*self),
    {
        match *self {
            PathError::InvalidEscape { index } => {
                let mut m = "percent-escape at byte ".to_owned();
                m.append(text::decimal_of(index as u64).as_str());
                m.append(" is not two hex digits");
                m
            },
            PathError::TruncatedEscape { index } => {
                let mut m = "percent-escape at byte ".to_owned();
                m.append(text::decimal_of(index as u64).as_str());
                m.append(" is truncated");
                m
            },
            PathError::ParameterizedTraversal { index } => {
                let mut m = "path parameter on a traversal segment at byte ".to_owned();
                m.append(text::decimal_of(index as u64).as_str());
                m
            },
            PathError::ControlCharacter { index, byte } => {
                let mut m = "control character 0x".to_owned();
                m.push(text::hex_lower_of(byte / 16));
                m.push(text::hex_lower_of(byte % 16));
                m.append(" at byte ");
                m.append(text::decimal_of(index as u64).as_str());
                m
            },
        }
    }
}

/// Whether `c` is an ASCII control character.
pub open spec fn is_control(c: char) -> bool {
    c <= '\u{1f}' || c == '\u{7f}'
}

/// Where `s` holds a control character.
pub open spec fn control_at(s: Seq<char>) -> spec_fn(int) -> bool {
    |i: int| is_control(s[i])
}

/// Everything before the first `#`, then before the first `?`.
pub open spec fn path_part(raw: Seq<char>) -> Seq<char> {
    text::before(text::before(raw, '#'), '?')
}

/// Whether `c` is a hexadecimal digit.
pub open spec fn is_hex(c: char) -> bool {
    '0' <= c <= '9' || 'a' <= c <= 'f' || 'A' <= c <= 'F'
}

/// Where `s` holds a percent sign without two hexadecimal digits behind it.
pub open spec fn bad_escape_at(s: Seq<char>) -> spec_fn(int) -> bool {
    |i: int| s[i] == '%' && !(i + 2 < s.len() && is_hex(s[i + 1]) && is_hex(s[i + 2]))
}

/// Whether the escape at `i` ends with the text rather than on another
/// character.
pub open spec fn is_truncated(s: Seq<char>, i: int) -> bool {
    i + 1 >= s.len() || (is_hex(s[i + 1]) && i + 2 >= s.len())
}

/// Whether `s` is one dot, literal or percent-encoded.
pub open spec fn is_dot(s: Seq<char>) -> bool {
    ||| s.len() == 1 && s[0] == '.'
    ||| s.len() == 3 && s[0] == '%' && s[1] == '2' && (s[2] == 'e' || s[2] == 'E')
}

/// Whether `s` is exactly two dots, each literal or percent-encoded.
pub open spec fn is_traversal(s: Seq<char>) -> bool {
    ||| s.len() >= 1 && is_dot(s.take(1)) && is_dot(s.skip(1))
    ||| s.len() >= 3 && is_dot(s.take(3)) && is_dot(s.skip(3))
}

/// Whether a segment needs nothing done to it.
pub open spec fn is_plain(s: Seq<char>) -> bool {
    !(s.len() == 1 && s[0] == '.') && !is_traversal(s) && !s.contains(';')
}

/// Whether an absolute path stands as it is: every segment is plain, and only
/// the last may be empty.
pub open spec fn is_normal(path: Seq<char>) -> bool {
    let segments = text::split(path, '/');
    forall|k: int|
        1 <= k < segments.len() ==> is_plain(#[trigger] segments[k]) && (segments[k].len() > 0 || k
            == segments.len() - 1)
}

/// Whether a segment is a traversal once its path parameter is taken away.
pub open spec fn hides_traversal(s: Seq<char>) -> bool {
    s.contains(';') && is_traversal(text::before(s, ';'))
}

/// Which segments hide a traversal behind a path parameter.
pub open spec fn hidden_at(segments: Seq<Seq<char>>) -> spec_fn(int) -> bool {
    |i: int| hides_traversal(segments[i])
}

/// How many characters stand before segment `k`, one separator behind each.
pub open spec fn segment_start(segments: Seq<Seq<char>>, k: int) -> int
    decreases k,
{
    if k <= 0 {
        0
    } else {
        segment_start(segments, k - 1) + segments[k - 1].len() + 1
    }
}

/// The segments that are left once parameters are stripped and dot segments
/// resolved. A traversal past the root stays at the root.
pub open spec fn resolved(segments: Seq<Seq<char>>) -> Seq<Seq<char>>
    decreases segments.len(),
{
    if segments.len() == 0 {
        Seq::empty()
    } else {
        let stack = resolved(segments.drop_last());
        let name = text::before(segments.last(), ';');
        if name.len() == 0 || (name.len() == 1 && name[0] == '.') {
            stack
        } else if is_traversal(name) {
            if stack.len() > 0 {
                stack.drop_last()
            } else {
                stack
            }
        } else {
            stack.push(name)
        }
    }
}

/// The segments joined, each behind a slash.
pub open spec fn joined(segments: Seq<Seq<char>>) -> Seq<char>
    decreases segments.len(),
{
    if segments.len() == 0 {
        Seq::empty()
    } else {
        joined(segments.drop_last()).push('/') + segments.last()
    }
}

/// The path that the segments spell; a lone slash where there are none.
pub open spec fn spelled(segments: Seq<Seq<char>>) -> Seq<char> {
    if segments.len() == 0 {
        seq!['/']
    } else {
        joined(segments)
    }
}

/// What becomes of an absolute path that has to be rewritten.
pub open spec fn rewritten(path: Seq<char>) -> Result<Seq<char>, PathError> {
    let segments = text::split(path, '/');
    let k = text::first_where(hidden_at(segments), segments.len() as int);
    if k < segments.len() {
        Err(
            PathError::ParameterizedTraversal {
                index: text::byte_len(path.take(segment_start(segments, k))) as usize,
            },
        )
    } else {
        Ok(spelled(resolved(segments)))
    }
}

/// What [`normalize_match_path`] makes of a request path.
pub open spec fn normalized(raw: Seq<char>) -> Result<Seq<char>, PathError> {
    let c = text::first_where(control_at(raw), raw.len() as int);
    let path = path_part(raw);
    let e = text::first_where(bad_escape_at(path), path.len() as int);
    if c < raw.len() {
        Err(
            PathError::ControlCharacter {
                index: text::byte_len(raw.take(c)) as usize,
                byte: raw[c] as u8,
            },
        )
    } else if e < path.len() {
        if is_truncated(path, e) {
            Err(PathError::TruncatedEscape { index: text::byte_len(path.take(e)) as usize })
        } else {
            Err(PathError::InvalidEscape { index: text::byte_len(path.take(e)) as usize })
        }
    } else if path.len() == 0 || path[0] != '/' {
        Ok(raw)
    } else if is_normal(path) {
        Ok(path)
    } else {
        rewritten(path)
    }
}

/// The place behind the dot that `v` holds at `i`, or `i` where it holds none.
fn dot_end(v: &Vec<char>, i: usize, to: usize) -> (r: usize)
    requires
        i <= to <= v@.len(),
    ensures
        i <= r <= to,
        r > i ==> is_dot(v@.subrange(i as int, r as int)),
        r == i ==> forall|k: int| i <= k <= to ==> !is_dot(#[trigger] v@.subrange(i as int, k)),
        r > i ==> forall|k: int|
            i <= k <= to && k != r ==> !is_dot(#[trigger] v@.subrange(i as int, k)),
{
    if i < to && v[i] == '.' {
        i + 1
    } else if to - i >= 3 && v[i] == '%' && v[i + 1] == '2' && (v[i + 2] == 'e' || v[i + 2] == 'E') {
        i + 3
    } else {
        i
    }
}

/// Whether the segment of `v` from `from` to `to` is exactly two dots.
fn traversal_between(v: &Vec<char>, from: usize, to: usize) -> (r: bool)
    requires
        from <= to <= v@.len(),
    ensures
        r == is_traversal(v@.subrange(from as int, to as int)),
{
    let mid = dot_end(v, from, to);
    let end = dot_end(v, mid, to);
    proof {
        let s = v@.subrange(from as int, to as int);
        if s.len() >= 1 {
            assert(s.take(1) =~= v@.subrange(from as int, from + 1));
            assert(s.skip(1) =~= v@.subrange(from + 1, to as int));
        }
        if s.len() >= 3 {
            assert(s.take(3) =~= v@.subrange(from as int, from + 3));
            assert(s.skip(3) =~= v@.subrange(from + 3, to as int));
        }
    }
    mid > from && end > mid && end == to
}

/// Whether a segment is exactly two dots, literal or percent-encoded.
pub fn is_traversal_segment(segment: &str) -> (r: bool)
    ensures
        r == is_traversal(segment@),
{
    let v = text::chars_of(segment);
    assert(v@.subrange(0, v@.len() as int) =~= v@);
    traversal_between(&v, 0, v.len())
}

/// Whether an absolute path has to be rewritten.
fn needs_rewrite(v: &Vec<char>) -> (r: bool)
    requires
        v@.len() > 0,
        v@[0] == '/',
    ensures
        r == !is_normal(v@),
{
    let len = v.len();
    let ghost path = v@;
    let ghost pieces = text::split(path, '/');
    // The segment before the leading slash is empty and stands for nothing.
    let mut start: usize = 1;
    let mut found = false;
    proof {
        text::lemma_split_piece(path, '/', 0, 0);
        assert(path.take(0) =~= Seq::<char>::empty());
        text::lemma_split_sep(path, '/', 0);
        assert(text::split(path.take(1), '/').drop_last().len() == 1);
    }
    let mut done = false;
    while !done
        invariant
            len == v@.len(),
            path == v@,
            pieces == text::split(path, '/'),
            1 <= start <= len,
            done ==> start == len,
            start == 0 || path[start - 1] == '/' || done,
            !done ==> text::split(path.take(start as int), '/').len() >= 2,
            !done ==> (found <==> exists|k: int|
                1 <= k < text::split(path.take(start as int), '/').len() - 1 && (!is_plain(
                    #[trigger] text::split(path.take(start as int), '/')[k],
                ) || text::split(path.take(start as int), '/')[k].len() == 0)),
            done ==> found == !is_normal(path),
        decreases len - start, (if done { 0int } else { 1int }),
    {
        let end = text::find(v, '/', start, len);
        let ghost prior = text::split(path.take(start as int), '/');
        let ghost piece = path.subrange(start as int, end as int);
        proof {
            text::lemma_split_piece(path, '/', start as int, end as int);
        }
        let semi = text::find(v, ';', start, end);
        let plain = semi == end && !(end - start == 1 && v[start] == '.') && !traversal_between(
            v,
            start,
            end,
        );
        assert(plain == is_plain(piece));
        let ghost now = text::split(path.take(end as int), '/');
        assert(forall|k: int| 0 <= k < prior.len() - 1 ==> now[k] == prior[k]);
        assert(now[now.len() - 1] == piece);
        if end < len {
            let ghost was = found;
            if !plain || end == start {
                found = true;
            }
            proof {
                text::lemma_split_sep(path, '/', end as int);
                let next = text::split(path.take(end + 1), '/');
                assert(forall|k: int| 0 <= k < now.len() ==> next[k] == now[k]);
                if was {
                    let k = choose|k: int|
                        1 <= k < prior.len() - 1 && (!is_plain(#[trigger] prior[k]) || prior[k].len()
                            == 0);
                    assert(next[k] == prior[k]);
                }
                if !plain || end == start {
                    assert(next[now.len() - 1] == piece);
                }
            }
            start = end + 1;
        } else {
            let ghost was = found;
            if !plain {
                found = true;
            }
            proof {
                assert(path.take(end as int) =~= path);
                if was {
                    let k = choose|k: int|
                        1 <= k < prior.len() - 1 && (!is_plain(#[trigger] prior[k]) || prior[k].len()
                            == 0);
                    assert(pieces[k] == prior[k]);
                }
            }
            start = len;
            done = true;
        }
    }
    found
}

/// The stretches of `v` that `ranges` names.
spec fn stretches(v: Seq<char>, ranges: Seq<(usize, usize)>) -> Seq<Seq<char>> {
    Seq::new(ranges.len(), |i: int| v.subrange(ranges[i].0 as int, ranges[i].1 as int))
}

/// What has been read of the segments fixes where the next one starts.
proof fn lemma_segment_start(path: Seq<char>, start: int)
    requires
        0 <= start <= path.len(),
        start == 0 || path[start - 1] == '/',
    ensures
        ({
            let read = text::split(path.take(start), '/');
            segment_start(read, read.len() - 1) == start
        }),
    decreases start,
{
    let read = text::split(path.take(start), '/');
    if start == 0 {
        assert(path.take(0) =~= Seq::<char>::empty());
    } else {
        // The segment before this one, and where it starts.
        let cut = last_cut(path, start - 1);
        lemma_last_cut(path, start - 1);
        lemma_segment_start(path, cut);
        text::lemma_split_piece(path, '/', cut, start - 1);
        text::lemma_split_sep(path, '/', start - 1);
        let prior = text::split(path.take(cut), '/');
        assert(read.len() == prior.len() + 1);
        assert(read[prior.len() - 1] == path.subrange(cut, start - 1));
        lemma_segment_start_prefix(prior, read, prior.len() - 1);
    }
}

/// Where the segment that ends at `end` starts.
spec fn last_cut(path: Seq<char>, end: int) -> int
    decreases end,
{
    if end <= 0 || path[end - 1] == '/' {
        end
    } else {
        last_cut(path, end - 1)
    }
}

proof fn lemma_last_cut(path: Seq<char>, end: int)
    requires
        0 <= end <= path.len(),
    ensures
        0 <= last_cut(path, end) <= end,
        last_cut(path, end) == 0 || path[last_cut(path, end) - 1] == '/',
        forall|j: int| last_cut(path, end) <= j < end ==> path[j] != '/',
    decreases end,
{
    if end > 0 && path[end - 1] != '/' {
        lemma_last_cut(path, end - 1);
    }
}

/// Segments that agree up to `k` start alike up to `k`.
proof fn lemma_segment_start_prefix(a: Seq<Seq<char>>, b: Seq<Seq<char>>, k: int)
    requires
        k <= a.len(),
        k <= b.len(),
        forall|i: int| 0 <= i < k ==> a[i] == b[i],
    ensures
        segment_start(a, k) == segment_start(b, k),
    decreases k,
{
    if k > 0 {
        lemma_segment_start_prefix(a, b, k - 1);
    }
}

/// Resolve dot segments and collapse repeated slashes.
///
/// Splits on raw `/` only, so an encoded separator never becomes one. A `..` that
/// would pop past the root clamps at the root.
pub fn rewrite(path: &str) -> (r: Result<String, PathError>)
    ensures
        match r {
            Ok(out) => rewritten(path@) == Ok::<Seq<char>, PathError>(out@),
            Err(e) => rewritten(path@) == Err::<Seq<char>, PathError>(e),
        },
{
    let bytes = path.as_bytes();
    let size = bytes.len();
    assert(size == text::byte_len(path@));
    rewrite_chars(&text::chars_of(path))
}

/// As [`rewrite`], of the characters of a path.
fn rewrite_chars(v: &Vec<char>) -> (r: Result<String, PathError>)
    requires
        text::byte_len(v@) <= usize::MAX,
    ensures
        match r {
            Ok(out) => rewritten(v@) == Ok::<Seq<char>, PathError>(out@),
            Err(e) => rewritten(v@) == Err::<Seq<char>, PathError>(e),
        },
{
    let len = v.len();
    let ghost path = v@;
    let ghost pieces = text::split(path, '/');
    let mut stack: Vec<(usize, usize)> = Vec::new();
    let mut start: usize = 0;
    let mut done = false;
    proof {
        assert(path.take(0) =~= Seq::<char>::empty());
        assert(text::split(path.take(0), '/').drop_last() =~= Seq::<Seq<char>>::empty());
        assert(stretches(path, stack@) =~= Seq::<Seq<char>>::empty());
        text::lemma_split_len(path, '/');
    }
    while !done
        invariant
            len == v@.len(),
            path == v@,
            pieces == text::split(path, '/'),
            text::byte_len(path) <= usize::MAX,
            0 <= start <= len,
            done || start == 0 || path[start - 1] == '/',
            forall|i: int| 0 <= i < stack@.len() ==> (#[trigger] stack@[i]).0 <= stack@[i].1 <= len,
            !done ==> ({
                let read = text::split(path.take(start as int), '/');
                &&& read.len() >= 1
                &&& stretches(path, stack@) == resolved(read.drop_last())
                &&& forall|k: int|
                    0 <= k < read.len() - 1 ==> !hides_traversal(#[trigger] read[k])
                &&& read.len() <= pieces.len()
                &&& forall|k: int| 0 <= k < read.len() - 1 ==> pieces[k] == #[trigger] read[k]
            }),
            done ==> ({
                &&& stretches(path, stack@) == resolved(pieces)
                &&& forall|k: int| 0 <= k < pieces.len() ==> !hides_traversal(#[trigger] pieces[k])
            }),
        decreases len - start, (if done { 0int } else { 1int }),
    {
        let end = text::find(v, '/', start, len);
        let semi = text::find(v, ';', start, end);
        let ghost read = text::split(path.take(start as int), '/');
        let ghost piece = path.subrange(start as int, end as int);
        let ghost now = text::split(path.take(end as int), '/');
        let ghost name = text::before(piece, ';');
        let ghost was = stretches(path, stack@);
        proof {
            text::lemma_split_piece(path, '/', start as int, end as int);
            assert(now.drop_last() =~= read.drop_last());
            assert(now.last() == piece);
            assert(name =~= path.subrange(start as int, semi as int));
            text::lemma_split_prefix(path, '/', end as int);
            text::lemma_split_len(path, '/');
        }
        let traversal = traversal_between(v, start, semi);
        if traversal && semi < end {
            proof {
                assert(hides_traversal(piece));
                let k = read.len() - 1;
                assert(pieces[k] == piece);
                assert forall|j: int| 0 <= j < k implies !#[trigger] hidden_at(pieces)(j) by {
                    assert(pieces[j] == read[j]);
                }
                assert(hidden_at(pieces)(k));
                text::lemma_first_from(hidden_at(pieces), 0, pieces.len() as int, k);
                lemma_segment_start(path, start as int);
                lemma_segment_start_prefix(read, pieces, k);
            }
            let index = text::byte_offset(v, start);
            return Err(PathError::ParameterizedTraversal { index });
        }
        if semi == start || (semi - start == 1 && v[start] == '.') {
        } else if traversal {
            let popped = stack.pop();
            proof {
                if was.len() > 0 {
                    assert(stretches(path, stack@) =~= was.drop_last());
                }
            }
        } else {
            stack.push((start, semi));
            assert(stretches(path, stack@) =~= was.push(name));
        }
        assert(stretches(path, stack@) =~= resolved(now));
        assert(!hides_traversal(piece));
        if end < len {
            proof {
                text::lemma_split_sep(path, '/', end as int);
                let next = text::split(path.take(end + 1), '/');
                assert(next.drop_last() =~= now);
                text::lemma_split_prefix(path, '/', end + 1);
            }
            start = end + 1;
        } else {
            proof {
                assert(path.take(end as int) =~= path);
            }
            start = len;
            done = true;
        }
    }
    proof {
        assert forall|j: int| 0 <= j < pieces.len() implies !#[trigger] hidden_at(pieces)(j) by {
            assert(!hides_traversal(pieces[j]));
        }
        text::lemma_first_from(hidden_at(pieces), 0, pieces.len() as int, pieces.len() as int);
    }
    let mut out = String::new();
    if stack.len() == 0 {
        out.push('/');
        assert(out@ =~= seq!['/']);
        return Ok(out);
    }
    let ghost all = stretches(path, stack@);
    let mut i: usize = 0;
    assert(all.take(0) =~= Seq::<Seq<char>>::empty());
    while i < stack.len()
        invariant
            i <= stack@.len(),
            path == v@,
            all == stretches(path, stack@),
            forall|i: int| 0 <= i < stack@.len() ==> (#[trigger] stack@[i]).0 <= stack@[i].1 <= v@.len(),
            out@ == joined(all.take(i as int)),
        decreases stack@.len() - i,
    {
        let (from, to) = stack[i];
        let segment = text::string_of(v, from, to);
        out.push('/');
        out.append(segment.as_str());
        proof {
            assert(all.take(i + 1).drop_last() =~= all.take(i as int));
            assert(all.take(i + 1).last() == segment@);
        }
        i += 1;
    }
    assert(all.take(stack@.len() as int) =~= all);
    Ok(out)
}

/// Refuse a raw control character, wherever it sits.
fn reject_control_characters(v: &Vec<char>) -> (r: Result<(), PathError>)
    requires
        text::byte_len(v@) <= usize::MAX,
    ensures
        ({
            let c = text::first_where(control_at(v@), v@.len() as int);
            &&& r is Ok <==> c == v@.len()
            &&& r is Err ==> c < v@.len() && r->Err_0 == (PathError::ControlCharacter {
                index: text::byte_len(v@.take(c)) as usize,
                byte: v@[c] as u8,
            })
        }),
{
    let mut i: usize = 0;
    while i < v.len()
        invariant
            i <= v@.len(),
            text::byte_len(v@) <= usize::MAX,
            forall|j: int| 0 <= j < i ==> !#[trigger] control_at(v@)(j),
        decreases v@.len() - i,
    {
        let c = v[i];
        if c <= '\u{1f}' || c == '\u{7f}' {
            proof {
                assert(control_at(v@)(i as int));
                text::lemma_first_from(control_at(v@), 0, v@.len() as int, i as int);
            }
            return Err(
                PathError::ControlCharacter { index: text::byte_offset(v, i), byte: c as u8 },
            );
        }
        i += 1;
    }
    proof {
        text::lemma_first_from(control_at(v@), 0, v@.len() as int, v@.len() as int);
    }
    Ok(())
}

/// Whether `c` is a hexadecimal digit.
fn hex_digit(c: char) -> (r: bool)
    ensures
        r == is_hex(c),
{
    ('0' <= c && c <= '9') || ('a' <= c && c <= 'f') || ('A' <= c && c <= 'F')
}

/// Refuse an escape that is not a percent sign and two hex digits.
fn reject_malformed_escapes(v: &Vec<char>) -> (r: Result<(), PathError>)
    requires
        text::byte_len(v@) <= usize::MAX,
    ensures
        ({
            let e = text::first_where(bad_escape_at(v@), v@.len() as int);
            let index = text::byte_len(v@.take(e)) as usize;
            &&& r is Ok <==> e == v@.len()
            &&& r is Err ==> e < v@.len() && r->Err_0 == (if is_truncated(v@, e) {
                PathError::TruncatedEscape { index }
            } else {
                PathError::InvalidEscape { index }
            })
        }),
{
    let mut i: usize = 0;
    let len = v.len();
    while i < len
        invariant
            i <= len == v@.len(),
            text::byte_len(v@) <= usize::MAX,
            forall|j: int| 0 <= j < i ==> !#[trigger] bad_escape_at(v@)(j),
        decreases len - i,
    {
        if v[i] == '%' {
            if len - i > 2 && hex_digit(v[i + 1]) && hex_digit(v[i + 2]) {
                i += 1;
                continue;
            }
            proof {
                assert(bad_escape_at(v@)(i as int));
                text::lemma_first_from(bad_escape_at(v@), 0, len as int, i as int);
            }
            let index = text::byte_offset(v, i);
            if len - i == 1 || (len - i == 2 && hex_digit(v[i + 1])) {
                return Err(PathError::TruncatedEscape { index });
            }
            return Err(PathError::InvalidEscape { index });
        }
        i += 1;
    }
    proof {
        text::lemma_first_from(bad_escape_at(v@), 0, len as int, len as int);
    }
    Ok(())
}

/// A request path with its query, fragment, path parameters, duplicate
/// slashes, and dot segments resolved away, or an error when it cannot be
/// read safely.
///
/// Borrows when the path is already normal. A query or a fragment is not a
/// rewrite: it is stripped by taking a shorter borrow of the same string. A
/// path that is not absolute comes back as given. Escapes are judged on the
/// path portion only.
pub fn normalize_match_path(raw: &str) -> (r: Result<Cow<'_, str>, PathError>)
    ensures
        match r {
            Ok(out) => normalized(raw@) == Ok::<Seq<char>, PathError>(out@),
            Err(e) => normalized(raw@) == Err::<Seq<char>, PathError>(e),
        },
        r is Ok ==> (r->Ok_0 is Owned <==> path_part(raw@).len() > 0 && path_part(raw@)[0] == '/'
            && !is_normal(path_part(raw@))),
{
    let bytes = raw.as_bytes();
    let size = bytes.len();
    assert(size == text::byte_len(raw@));
    let whole = text::chars_of(raw);
    match reject_control_characters(&whole) {
        Ok(()) => {},
        Err(e) => {
            return Err(e);
        },
    }
    let hash = text::find(&whole, '#', 0, whole.len());
    let end = text::find(&whole, '?', 0, hash);
    let path = raw.substring_char(0, end);
    let v = text::chars_of(path);
    proof {
        assert(raw@.subrange(0, raw@.len() as int) =~= raw@);
        assert(text::before(raw@, '#') =~= raw@.subrange(0, hash as int));
        assert(text::before(raw@.subrange(0, hash as int), '?') =~= raw@.subrange(0, end as int));
        assert(raw@.subrange(0, end as int) =~= raw@.take(end as int));
        text::lemma_byte_len_take(raw@, end as int);
    }
    match reject_malformed_escapes(&v) {
        Ok(()) => {},
        Err(e) => {
            return Err(e);
        },
    }
    if v.len() == 0 || v[0] != '/' {
        return Ok(Cow::Borrowed(raw));
    }
    if !needs_rewrite(&v) {
        return Ok(Cow::Borrowed(path));
    }
    match rewrite(path) {
        Ok(out) => Ok(Cow::Owned(out)),
        Err(e) => Err(e),
    }
}

/// Whether every percent sign of `s` has its two hexadecimal digits in `s`.
pub open spec fn escapes_closed(s: Seq<char>) -> bool {
    forall|i: int| 0 <= i < s.len() ==> !#[trigger] bad_escape_at(s)(i)
}

/// Whether each of `segments` lies in `path` where its place says.
spec fn segments_lie(path: Seq<char>, segments: Seq<Seq<char>>) -> bool {
    &&& segments.len() >= 1
    &&& segment_start(segments, segments.len() as int) == path.len() + 1
    &&& forall|k: int|
        0 <= k < segments.len() ==> segment_lies(
            path,
            #[trigger] segments[k],
            segment_start(segments, k),
        )
}

/// Where each segment lies in its path, and what ends it.
proof fn lemma_segments(path: Seq<char>)
    ensures
        segments_lie(path, text::split(path, '/')),
    decreases path.len(),
{
    let segments = text::split(path, '/');
    if path.len() == 0 {
        assert(path.subrange(0, 0) =~= Seq::<char>::empty());
        reveal_with_fuel(segment_start, 2);
    } else {
        let head = text::split(path.drop_last(), '/');
        lemma_segments(path.drop_last());
        if path.last() == '/' {
            lemma_segments_slash(path, head);
        } else {
            lemma_segments_other(path, head);
        }
    }
}

/// A slash behind a path leaves its segments where they are.
proof fn lemma_lies_before_slash(path: Seq<char>, segment: Seq<char>, a: int)
    requires
        path.len() > 0,
        path.last() == '/',
        segment_lies(path.drop_last(), segment, a),
    ensures
        segment_lies(path, segment, a),
{
    let shorter = path.drop_last();
    assert(shorter.subrange(a, a + segment.len()) =~= path.subrange(a, a + segment.len()));
    if a + segment.len() == shorter.len() {
        assert(path[path.len() - 1] == '/');
    } else {
        assert(path[a + segment.len()] == shorter[a + segment.len()]);
    }
}

/// An empty segment stands behind the end of every path.
proof fn lemma_lies_at_end(path: Seq<char>)
    ensures
        segment_lies(path, Seq::empty(), path.len() as int),
{
    assert(path.subrange(path.len() as int, path.len() as int) =~= Seq::<char>::empty());
}

proof fn lemma_segments_slash(path: Seq<char>, head: Seq<Seq<char>>)
    requires
        path.len() > 0,
        path.last() == '/',
        segments_lie(path.drop_last(), head),
    ensures
        segments_lie(path, head.push(Seq::empty())),
{
    let segments = head.push(Seq::empty());
    let n = head.len() as int;
    lemma_segment_start_prefix(head, segments, n);
    lemma_lies_at_end(path);
    assert forall|k: int| 0 <= k < segments.len() implies segment_lies(
        path,
        #[trigger] segments[k],
        segment_start(segments, k),
    ) by {
        if k < n {
            lemma_segment_start_prefix(head, segments, k);
            assert(segment_lies(path.drop_last(), head[k], segment_start(head, k)));
            lemma_lies_before_slash(path, head[k], segment_start(head, k));
        }
    }
}

/// A segment that ends before the last character of a path lies in it alike
/// without that character.
proof fn lemma_lies_longer(path: Seq<char>, segment: Seq<char>, a: int)
    requires
        path.len() > 0,
        segment_lies(path.drop_last(), segment, a),
        a + segment.len() < path.len() - 1,
    ensures
        segment_lies(path, segment, a),
{
    let shorter = path.drop_last();
    assert(shorter.subrange(a, a + segment.len()) =~= path.subrange(a, a + segment.len()));
}

/// The last segment grows with its path.
proof fn lemma_lies_grown(path: Seq<char>, segment: Seq<char>, a: int)
    requires
        path.len() > 0,
        path.last() != '/',
        segment_lies(path.drop_last(), segment, a),
        a + segment.len() == path.len() - 1,
    ensures
        segment_lies(path, segment.push(path.last()), a),
{
    let grown = segment.push(path.last());
    assert(grown =~= path.subrange(a, a + grown.len()));
    if grown.contains('/') {
        let i = choose|i: int| 0 <= i < grown.len() && grown[i] == '/';
        assert(segment[i] == '/');
    }
}

proof fn lemma_segments_other(path: Seq<char>, head: Seq<Seq<char>>)
    requires
        path.len() > 0,
        path.last() != '/',
        segments_lie(path.drop_last(), head),
    ensures
        segments_lie(path, head.drop_last().push(head.last().push(path.last()))),
{
    let segments = head.drop_last().push(head.last().push(path.last()));
    let n = head.len() as int;
    assert(segment_lies(path.drop_last(), head[n - 1], segment_start(head, n - 1)));
    lemma_segment_start_prefix(head, segments, n - 1);
    lemma_lies_grown(path, head[n - 1], segment_start(head, n - 1));
    assert forall|k: int| 0 <= k < segments.len() implies segment_lies(
        path,
        #[trigger] segments[k],
        segment_start(segments, k),
    ) by {
        if k < n - 1 {
            lemma_segment_start_prefix(head, segments, k);
            assert(segment_lies(path.drop_last(), head[k], segment_start(head, k)));
            lemma_segment_start_next(head, k, n - 1);
            lemma_lies_longer(path, head[k], segment_start(head, k));
        }
    }
}

/// A later segment starts behind an earlier one and its separator.
proof fn lemma_segment_start_next(segments: Seq<Seq<char>>, k: int, n: int)
    requires
        0 <= k < n <= segments.len(),
    ensures
        segment_start(segments, k) + segments[k].len() + 1 <= segment_start(segments, n),
    decreases n,
{
    if k < n - 1 {
        lemma_segment_start_next(segments, k, n - 1);
    }
}

/// Whether `segment` stands at `a` in `path`, up to a slash or the end, and
/// holds no slash itself.
spec fn segment_lies(path: Seq<char>, segment: Seq<char>, a: int) -> bool {
    &&& 0 <= a
    &&& a + segment.len() <= path.len()
    &&& segment == path.subrange(a, a + segment.len())
    &&& a + segment.len() == path.len() || path[a + segment.len()] == '/'
    &&& !segment.contains('/')
}

/// Whether `segment` is a segment of `path`.
spec fn lies_in(path: Seq<char>, segment: Seq<char>) -> bool {
    exists|a: int| segment_lies(path, segment, a)
}

/// Whether a segment is what resolving leaves: a name that stands for itself.
spec fn is_name(s: Seq<char>) -> bool {
    s.len() > 0 && is_plain(s) && !s.contains('/')
}

/// What a stripped segment keeps of the segment.
proof fn lemma_stripped(path: Seq<char>, segment: Seq<char>, a: int)
    requires
        segment_lies(path, segment, a),
        escapes_closed(path),
    ensures
        !text::before(segment, ';').contains('/'),
        !text::before(segment, ';').contains(';'),
        escapes_closed(text::before(segment, ';')),
        forall|i: int|
            0 <= i < text::before(segment, ';').len() ==> path.contains(
                #[trigger] text::before(segment, ';')[i],
            ),
{
    text::lemma_first_index_is(segment, ';');
    let name = text::before(segment, ';');
    assert forall|i: int| 0 <= i < name.len() implies #[trigger] name[i] == path[a + i] by {}
    assert forall|i: int| 0 <= i < name.len() implies path.contains(#[trigger] name[i]) by {
        assert(path[a + i] == name[i]);
    }
    if name.contains('/') {
        let i = choose|i: int| 0 <= i < name.len() && name[i] == '/';
        assert(segment[i] == '/');
    }
    assert forall|i: int| 0 <= i < name.len() implies !#[trigger] bad_escape_at(name)(i) by {
        if name[i] == '%' {
            assert(!bad_escape_at(path)(a + i));
            assert(path[a + i] == '%');
            assert(is_hex(path[a + i + 1]) && is_hex(path[a + i + 2]));
            let n = name.len() as int;
            // What stands behind the name is a semicolon, a slash, or nothing.
            assert(a + n >= path.len() || path[a + n] == ';' || path[a + n] == '/') by {
                if n < segment.len() {
                    assert(segment[n] == ';');
                    assert(path[a + n] == segment[n]);
                }
            }
        }
    }
}

/// Everything that resolving leaves is a name that stands for itself, and is
/// a stripped segment of the path.
proof fn lemma_resolved(path: Seq<char>, segments: Seq<Seq<char>>)
    requires
        escapes_closed(path),
        forall|k: int|
            0 <= k < segments.len() ==> lies_in(path, #[trigger] segments[k]),
    ensures
        forall|i: int|
            0 <= i < resolved(segments).len() ==> {
                let name = #[trigger] resolved(segments)[i];
                &&& is_name(name)
                &&& escapes_closed(name)
                &&& forall|j: int| 0 <= j < name.len() ==> path.contains(#[trigger] name[j])
                &&& exists|k: int| 0 <= k < segments.len() && name == text::before(#[trigger] segments[k], ';')
            },
    decreases segments.len(),
{
    if segments.len() > 0 {
        let rest = segments.drop_last();
        assert forall|k: int| 0 <= k < rest.len() implies lies_in(
            path,
            #[trigger] rest[k],
        ) by {
            assert(rest[k] == segments[k]);
        }
        lemma_resolved(path, rest);
        let n = segments.len() - 1;
        assert(lies_in(path, segments[n]));
        let a = choose|a: int| segment_lies(path, segments[n], a);
        lemma_stripped(path, segments[n], a);
        let last = text::before(segments.last(), ';');
        assert forall|i: int| 0 <= i < resolved(segments).len() implies {
            let name = #[trigger] resolved(segments)[i];
            &&& is_name(name)
            &&& escapes_closed(name)
            &&& forall|j: int| 0 <= j < name.len() ==> path.contains(#[trigger] name[j])
            &&& exists|k: int| 0 <= k < segments.len() && name == text::before(#[trigger] segments[k], ';')
        } by {
            let name = resolved(segments)[i];
            if i < resolved(rest).len() && name == resolved(rest)[i] {
                let k = choose|k: int| 0 <= k < rest.len() && name == text::before(#[trigger] rest[k], ';');
                assert(segments[k] == rest[k]);
            } else {
                assert(name == last);
                assert(segments[n] == segments.last());
            }
        }
    }
}

/// The segments of what names spell are those names, behind the empty segment
/// before the leading slash.
proof fn lemma_split_joined(names: Seq<Seq<char>>)
    requires
        forall|i: int| 0 <= i < names.len() ==> !(#[trigger] names[i]).contains('/'),
    ensures
        text::split(joined(names), '/') == seq![Seq::<char>::empty()] + names,
    decreases names.len(),
{
    if names.len() == 0 {
        assert(text::split(joined(names), '/') =~= seq![Seq::<char>::empty()] + names);
    } else {
        let rest = names.drop_last();
        assert forall|i: int| 0 <= i < rest.len() implies !(#[trigger] rest[i]).contains('/') by {
            assert(rest[i] == names[i]);
        }
        lemma_split_joined(rest);
        assert(names[names.len() - 1] == names.last());
        text::lemma_split_append(joined(rest), names.last(), '/');
        assert((seq![Seq::<char>::empty()] + rest).push(names.last()) =~= seq![Seq::<char>::empty()]
            + names);
    }
}

/// What names spell begins with a slash, is made of slashes and their
/// characters, and closes its escapes where they do.
proof fn lemma_joined(names: Seq<Seq<char>>, path: Seq<char>)
    requires
        path.contains('/'),
        forall|i: int| 0 <= i < names.len() ==> escapes_closed(#[trigger] names[i]),
        forall|i: int, j: int|
            0 <= i < names.len() && 0 <= j < names[i].len() ==> path.contains(#[trigger] names[i][j]),
    ensures
        names.len() > 0 ==> joined(names).len() > 0 && joined(names)[0] == '/',
        forall|i: int| 0 <= i < joined(names).len() ==> path.contains(#[trigger] joined(names)[i]),
        escapes_closed(joined(names)),
    decreases names.len(),
{
    if names.len() > 0 {
        let rest = names.drop_last();
        let last = names.last();
        assert(names[names.len() - 1] == last);
        assert forall|i: int| 0 <= i < rest.len() implies escapes_closed(#[trigger] rest[i]) by {
            assert(rest[i] == names[i]);
        }
        assert forall|i: int, j: int| 0 <= i < rest.len() && 0 <= j < rest[i].len() implies path.contains(
            #[trigger] rest[i][j],
        ) by {
            assert(rest[i][j] == names[i][j]);
        }
        lemma_joined(rest, path);
        let head = joined(rest);
        let out = joined(names);
        let n = head.len() as int;
        assert forall|i: int| 0 <= i < out.len() implies path.contains(#[trigger] out[i]) by {
            if i < n {
                assert(out[i] == head[i]);
            } else if i > n {
                assert(out[i] == names[names.len() - 1][i - n - 1]);
            }
        }
        assert forall|i: int| 0 <= i < out.len() implies !#[trigger] bad_escape_at(out)(i) by {
            if out[i] == '%' {
                if i < n {
                    assert(!bad_escape_at(head)(i));
                    assert(out[i + 1] == head[i + 1] && out[i + 2] == head[i + 2]);
                } else {
                    assert(!bad_escape_at(last)(i - n - 1));
                    assert(out[i + 1] == last[i - n]);
                    assert(out[i + 2] == last[i - n + 1]);
                }
            }
        }
    }
}

/// What is left of a path that could be read: it holds no control character,
/// no query, no fragment and no malformed escape.
proof fn lemma_readable(raw: Seq<char>)
    requires
        normalized(raw) is Ok,
    ensures
        escapes_closed(path_part(raw)),
        forall|i: int|
            0 <= i < path_part(raw).len() ==> is_readable(#[trigger] path_part(raw)[i]),
{
    let path = path_part(raw);
    let inner = text::before(raw, '#');
    text::lemma_first_index_is(raw, '#');
    text::lemma_first_index_is(inner, '?');
    text::lemma_first_from_is(control_at(raw), 0, raw.len() as int);
    text::lemma_first_from_is(bad_escape_at(path), 0, path.len() as int);
    assert forall|i: int| 0 <= i < path.len() implies is_readable(#[trigger] path[i]) by {
        assert(path[i] == inner[i]);
        assert(inner[i] == raw[i]);
        assert(!control_at(raw)(i));
    }
}

/// A path without control character, query, fragment or malformed escape is
/// its own path part.
proof fn lemma_own_path(path: Seq<char>)
    requires
        escapes_closed(path),
        forall|i: int| 0 <= i < path.len() ==> is_readable(#[trigger] path[i]),
    ensures
        path_part(path) == path,
        text::first_where(control_at(path), path.len() as int) == path.len(),
        text::first_where(bad_escape_at(path), path.len() as int) == path.len(),
{
    let n = path.len() as int;
    text::lemma_first_index(path, '#', n);
    assert(text::before(path, '#') =~= path);
    text::lemma_first_index(path, '?', n);
    assert(path_part(path) =~= path);
    assert forall|j: int| 0 <= j < n implies !#[trigger] control_at(path)(j) by {
        assert(is_readable(path[j]));
    }
    text::lemma_first_from(control_at(path), 0, n, n);
    text::lemma_first_from(bad_escape_at(path), 0, n, n);
}

/// Whether `c` may stand in a path that has been read.
pub open spec fn is_readable(c: char) -> bool {
    !is_control(c) && c != '#' && c != '?'
}

/// Whether every segment of `out` is one of `segments` up to its parameter.
spec fn kept(segments: Seq<Seq<char>>, out: Seq<Seq<char>>) -> bool {
    forall|k: int| 0 <= k < out.len() ==> stripped_of(segments, #[trigger] out[k])
}

/// Whether `name` is one of `segments` up to its parameter.
pub open spec fn stripped_of(segments: Seq<Seq<char>>, name: Seq<char>) -> bool {
    exists|j: int| 0 <= j < segments.len() && name == text::before(#[trigger] segments[j], ';')
}

/// The segment before the leading slash of an absolute path is empty.
proof fn lemma_leading_segment(path: Seq<char>)
    requires
        path.len() > 0,
        path[0] == '/',
    ensures
        text::split(path, '/').len() >= 1,
        text::split(path, '/')[0] == Seq::<char>::empty(),
        stripped_of(text::split(path, '/'), Seq::empty()),
{
    lemma_segments(path);
    let segments = text::split(path, '/');
    let first = segments[0];
    assert(segment_lies(path, first, segment_start(segments, 0)));
    if first.len() > 0 {
        assert(first[0] == path[0]);
        assert(first.contains('/'));
    }
    assert(first =~= Seq::<char>::empty());
    assert(text::before(segments[0], ';') =~= Seq::<char>::empty());
}

/// What a path spells that is made of names alone.
proof fn lemma_spelled(path: Seq<char>, names: Seq<Seq<char>>)
    requires
        path.contains('/'),
        forall|i: int| 0 <= i < names.len() ==> is_name(#[trigger] names[i]),
        forall|i: int| 0 <= i < names.len() ==> escapes_closed(#[trigger] names[i]),
        forall|i: int, j: int|
            0 <= i < names.len() && 0 <= j < names[i].len() ==> path.contains(#[trigger] names[i][j]),
    ensures
        spelled(names).len() > 0,
        spelled(names)[0] == '/',
        is_normal(spelled(names)),
        escapes_closed(spelled(names)),
        forall|i: int| 0 <= i < spelled(names).len() ==> path.contains(#[trigger] spelled(names)[i]),
        forall|k: int|
            0 <= k < text::split(spelled(names), '/').len() ==> (#[trigger] text::split(
                spelled(names),
                '/',
            )[k]).len() == 0 || names.contains(text::split(spelled(names), '/')[k]),
{
    let out = spelled(names);
    let found = text::split(out, '/');
    if names.len() == 0 {
        let empty = Seq::<char>::empty();
        assert(empty.push('/') + empty =~= out);
        text::lemma_split_append(empty, empty, '/');
        assert(found =~= seq![empty, empty]);
        assert(!bad_escape_at(out)(0));
        assert(!empty.contains(';'));
    } else {
        lemma_joined(names, path);
        lemma_split_joined(names);
        assert forall|k: int| 1 <= k < found.len() implies is_plain(#[trigger] found[k])
            && found[k].len() > 0 && names.contains(found[k]) by {
            assert(found[k] == names[k - 1]);
            assert(is_name(names[k - 1]));
        }
        assert(found[0].len() == 0);
    }
}

/// What comes of an absolute path that could be read.
proof fn lemma_rewritten(raw: Seq<char>, out: Seq<char>)
    requires
        normalized(raw) == Ok::<Seq<char>, PathError>(out),
        path_part(raw).len() > 0,
        path_part(raw)[0] == '/',
    ensures
        out.len() > 0,
        out[0] == '/',
        is_normal(out),
        escapes_closed(out),
        forall|i: int| 0 <= i < out.len() ==> is_readable(#[trigger] out[i]),
        kept(text::split(path_part(raw), '/'), text::split(out, '/')),
{
    let path = path_part(raw);
    let segments = text::split(path, '/');
    lemma_readable(raw);
    lemma_leading_segment(path);
    if is_normal(path) {
        assert forall|k: int| 0 <= k < segments.len() implies stripped_of(
            segments,
            #[trigger] segments[k],
        ) by {
            if k > 0 {
                let segment = segments[k];
                assert(is_plain(segment));
                text::lemma_first_index_is(segment, ';');
                assert(text::before(segments[k], ';') =~= segment);
            }
        }
    } else {
        lemma_segments(path);
        assert forall|k: int| 0 <= k < segments.len() implies lies_in(
            path,
            #[trigger] segments[k],
        ) by {
            assert(segment_lies(path, segments[k], segment_start(segments, k)));
        }
        lemma_resolved(path, segments);
        let names = resolved(segments);
        assert(path.contains('/'));
        assert forall|i: int, j: int| 0 <= i < names.len() && 0 <= j < names[i].len() implies path.contains(
            #[trigger] names[i][j],
        ) by {
            let name = names[i];
            assert(path.contains(name[j]));
        }
        lemma_spelled(path, names);
        let found = text::split(out, '/');
        assert forall|k: int| 0 <= k < found.len() implies stripped_of(segments, #[trigger] found[k]) by {
            if found[k].len() == 0 {
                assert(found[k] =~= Seq::<char>::empty());
            } else {
                let i = choose|i: int| 0 <= i < names.len() && names[i] == found[k];
                let name = names[i];
                let j = choose|j: int| 0 <= j < segments.len() && name == text::before(#[trigger] segments[j], ';');
                assert(found[k] == text::before(segments[j], ';'));
            }
        }
        assert forall|i: int| 0 <= i < out.len() implies is_readable(#[trigger] out[i]) by {
            assert(path.contains(out[i]));
            let p = choose|p: int| 0 <= p < path.len() && path[p] == out[i];
            assert(is_readable(path[p]));
        }
    }
}

/// Reading a path that has been read changes nothing more.
pub proof fn law_reading_twice_is_reading_once(raw: Seq<char>, out: Seq<char>)
    requires
        normalized(raw) == Ok::<Seq<char>, PathError>(out),
    ensures
        normalized(out) == Ok::<Seq<char>, PathError>(out),
{
    let path = path_part(raw);
    if path.len() > 0 && path[0] == '/' {
        lemma_rewritten(raw, out);
        lemma_own_path(out);
    }
}

/// An absolute path comes out absolute, with no dot segment, no path
/// parameter and no empty segment but a last one: no way out of the root is
/// left in it. It also holds no query, no fragment, no control character and
/// no malformed escape.
pub proof fn law_an_absolute_path_comes_out_clean(raw: Seq<char>, out: Seq<char>)
    requires
        normalized(raw) == Ok::<Seq<char>, PathError>(out),
        path_part(raw).len() > 0,
        path_part(raw)[0] == '/',
    ensures
        out.len() > 0,
        out[0] == '/',
        is_normal(out),
        escapes_closed(out),
        !out.contains('?'),
        !out.contains('#'),
        forall|i: int| 0 <= i < out.len() ==> !is_control(#[trigger] out[i]),
{
    lemma_rewritten(raw, out);
}

/// Nothing is decoded: every segment that comes out is a segment that went in,
/// up to its path parameter. An encoded separator never becomes one.
pub proof fn law_segments_are_kept_verbatim(raw: Seq<char>, out: Seq<char>, k: int)
    requires
        normalized(raw) == Ok::<Seq<char>, PathError>(out),
        path_part(raw).len() > 0,
        path_part(raw)[0] == '/',
        0 <= k < text::split(out, '/').len(),
    ensures
        stripped_of(text::split(path_part(raw), '/'), text::split(out, '/')[k]),
{
    lemma_rewritten(raw, out);
}

/// The segments that are not empty.
pub open spec fn filled(segments: Seq<Seq<char>>) -> Seq<Seq<char>>
    decreases segments.len(),
{
    if segments.len() == 0 {
        Seq::empty()
    } else {
        let rest = filled(segments.drop_last());
        if segments.last().len() > 0 {
            rest.push(segments.last())
        } else {
            rest
        }
    }
}

/// Whether `at` holds places below `n`, each behind the one before it.
pub open spec fn rises(at: Seq<int>, n: int) -> bool {
    &&& forall|i: int| 0 <= i < at.len() ==> 0 <= #[trigger] at[i] < n
    &&& forall|i: int, j: int| 0 <= i < j < at.len() ==> #[trigger] at[i] < #[trigger] at[j]
}

/// The segments at the places `at`, each up to its parameter.
pub open spec fn picked(segments: Seq<Seq<char>>, at: Seq<int>) -> Seq<Seq<char>> {
    at.map_values(|j: int| text::before(segments[j], ';'))
}

/// The places of the segments that resolving leaves.
spec fn places(segments: Seq<Seq<char>>) -> Seq<int>
    decreases segments.len(),
{
    if segments.len() == 0 {
        Seq::empty()
    } else {
        let at = places(segments.drop_last());
        let name = text::before(segments.last(), ';');
        if name.len() == 0 || (name.len() == 1 && name[0] == '.') {
            at
        } else if is_traversal(name) {
            if at.len() > 0 {
                at.drop_last()
            } else {
                at
            }
        } else {
            at.push(segments.len() - 1)
        }
    }
}

/// Resolving leaves segments in the order in which they stood.
proof fn lemma_places(segments: Seq<Seq<char>>)
    ensures
        rises(places(segments), segments.len() as int),
        resolved(segments) == picked(segments, places(segments)),
    decreases segments.len(),
{
    if segments.len() == 0 {
        assert(resolved(segments) =~= picked(segments, places(segments)));
    } else {
        let head = segments.drop_last();
        lemma_places(head);
        assert(picked(segments, places(head)) =~= picked(head, places(head)));
        assert(resolved(segments) =~= picked(segments, places(segments)));
    }
}

/// Behind an empty segment, segments that are not empty are all that is filled.
proof fn lemma_filled(segments: Seq<Seq<char>>)
    requires
        segments.len() >= 1,
        segments[0].len() == 0,
        forall|k: int| 1 <= k < segments.len() ==> (#[trigger] segments[k]).len() > 0,
    ensures
        filled(segments) == segments.skip(1),
    decreases segments.len(),
{
    let rest = segments.drop_last();
    if segments.len() == 1 {
        assert(filled(rest) =~= Seq::<Seq<char>>::empty());
        assert(segments.skip(1) =~= Seq::<Seq<char>>::empty());
    } else {
        lemma_filled(rest);
        assert(segments[segments.len() - 1].len() > 0);
        assert(segments.skip(1) =~= rest.skip(1).push(segments.last()));
    }
}

/// Of a path that stands as it is, resolving leaves what is filled.
proof fn lemma_filled_normal(path: Seq<char>)
    requires
        path.len() > 0,
        path[0] == '/',
        is_normal(path),
    ensures
        filled(text::split(path, '/')) == resolved(text::split(path, '/')),
{
    let segments = text::split(path, '/');
    let n = segments.len() - 1;
    lemma_leading_segment(path);
    if segments[n].len() > 0 {
        lemma_filled(segments);
        lemma_resolved_names(segments);
    } else {
        let head = segments.drop_last();
        assert(segments.last() == segments[n]);
        text::lemma_first_index_is(segments.last(), ';');
        assert(text::before(segments.last(), ';').len() == 0);
        assert(filled(segments) == filled(head));
        assert(resolved(segments) == resolved(head));
        if n >= 1 {
            assert forall|k: int| 1 <= k < head.len() implies is_plain(#[trigger] head[k])
                && head[k].len() > 0 by {
                assert(head[k] == segments[k]);
            }
            lemma_filled(head);
            lemma_resolved_names(head);
        }
    }
}

/// What a rewritten path is filled with is what resolving left.
proof fn lemma_filled_rewritten(path: Seq<char>)
    ensures
        filled(text::split(spelled(resolved(text::split(path, '/'))), '/')) == resolved(
            text::split(path, '/'),
        ),
{
    let segments = text::split(path, '/');
    let stack = resolved(segments);
    let found = text::split(spelled(stack), '/');
    lemma_segments_of_rewritten(path);
    lemma_segments(path);
    assert forall|k: int| 0 <= k < segments.len() implies !(#[trigger] segments[k]).contains('/') by {
        assert(segment_lies(path, segments[k], segment_start(segments, k)));
    }
    lemma_resolved_hold_no_slash(segments);
    if stack.len() > 0 {
        assert forall|k: int| 1 <= k < found.len() implies (#[trigger] found[k]).len() > 0 by {
            assert(found[k] == stack[k - 1]);
        }
        lemma_filled(found);
        assert(found.skip(1) =~= stack);
    } else {
        let empty = Seq::<char>::empty();
        assert(found.drop_last() =~= seq![empty]);
        assert(found.last() == empty);
        assert(found.drop_last().drop_last() =~= Seq::<Seq<char>>::empty());
        assert(filled(found.drop_last()) =~= filled(found.drop_last().drop_last()));
        assert(filled(found) =~= stack);
    }
}

/// The segments that come out stand in the order in which they went in: those that
/// are not empty are what resolving leaves, and that is a choice of the segments of
/// the path, each up to its path parameter, without a change of their order.
pub proof fn law_segments_are_kept_in_order(raw: Seq<char>, out: Seq<char>)
    requires
        normalized(raw) == Ok::<Seq<char>, PathError>(out),
        path_part(raw).len() > 0,
        path_part(raw)[0] == '/',
    ensures
        filled(text::split(out, '/')) == resolved(text::split(path_part(raw), '/')),
        exists|at: Seq<int>| #[trigger]
            rises(at, text::split(path_part(raw), '/').len() as int) && filled(
                text::split(out, '/'),
            ) == picked(text::split(path_part(raw), '/'), at),
{
    let path = path_part(raw);
    let segments = text::split(path, '/');
    lemma_places(segments);
    assert(rises(places(segments), segments.len() as int));
    if is_normal(path) {
        lemma_filled_normal(path);
    } else {
        lemma_filled_rewritten(path);
    }
}

/// A path that is not absolute comes back as given, query and all.
pub proof fn law_a_path_that_is_not_absolute_is_left_alone(raw: Seq<char>)
    requires
        normalized(raw) is Ok,
        path_part(raw).len() == 0 || path_part(raw)[0] != '/',
    ensures
        normalized(raw) == Ok::<Seq<char>, PathError>(raw),
{
}

/// Joining the segments behind the leading slash gives the path back.
proof fn lemma_join_segments(path: Seq<char>)
    requires
        path.len() > 0,
        path[0] == '/',
    ensures
        text::split(path, '/').len() >= 2,
        joined(text::split(path, '/').skip(1)) == path,
    decreases path.len(),
{
    let segments = text::split(path, '/');
    let head = text::split(path.drop_last(), '/');
    text::lemma_split_len(path.drop_last(), '/');
    if path.len() == 1 {
        assert(path.drop_last() =~= Seq::<char>::empty());
        assert(head.len() == 1);
        let rest = segments.skip(1);
        assert(rest.drop_last() =~= Seq::<Seq<char>>::empty());
        assert(rest.last() =~= Seq::<char>::empty());
        assert(joined(rest) == joined(rest.drop_last()).push('/') + rest.last());
        assert(joined(rest) =~= path);
    } else {
        lemma_join_segments(path.drop_last());
        let rest = segments.skip(1);
        assert(rest.len() > 0);
        assert(joined(rest) == joined(rest.drop_last()).push('/') + rest.last());
        if path.last() == '/' {
            assert(rest.drop_last() =~= head.skip(1));
            assert(rest.last() == Seq::<char>::empty());
            assert(joined(rest) =~= path);
        } else {
            let before = head.skip(1);
            assert(rest.drop_last() =~= before.drop_last());
            assert(before.last() == head.last());
            assert(rest.last() == head.last().push(path.last()));
            assert(joined(before) == joined(before.drop_last()).push('/') + before.last());
            assert(joined(rest) =~= joined(before).push(path.last()));
            assert(joined(rest) =~= path);
        }
    }
}

/// Names behind an empty segment resolve to themselves.
proof fn lemma_resolved_names(segments: Seq<Seq<char>>)
    requires
        segments.len() >= 1,
        segments[0].len() == 0,
        forall|k: int|
            1 <= k < segments.len() ==> is_plain(#[trigger] segments[k]) && segments[k].len() > 0,
    ensures
        resolved(segments) == segments.skip(1),
    decreases segments.len(),
{
    let rest = segments.drop_last();
    let last = segments.last();
    text::lemma_first_index_is(last, ';');
    if segments.len() == 1 {
        assert(text::before(last, ';') =~= Seq::<char>::empty());
        assert(rest =~= Seq::<Seq<char>>::empty());
        assert(resolved(rest) =~= Seq::<Seq<char>>::empty());
        assert(segments.skip(1) =~= Seq::<Seq<char>>::empty());
    } else {
        lemma_resolved_names(rest);
        assert(is_plain(segments[segments.len() - 1]));
        assert(text::before(last, ';') =~= last);
        assert(segments.skip(1) =~= rest.skip(1).push(last));
    }
}

/// A path is left alone exactly where rewriting would not change it, but that
/// a trailing slash is kept: rewriting would drop it.
pub proof fn law_left_alone_where_rewriting_changes_nothing(path: Seq<char>)
    requires
        path.len() > 0,
        path[0] == '/',
        escapes_closed(path),
    ensures
        rewritten(path) == Ok::<Seq<char>, PathError>(path) ==> is_normal(path),
        is_normal(path) && (path.len() == 1 || path.last() != '/') ==> rewritten(path) == Ok::<
            Seq<char>,
            PathError,
        >(path),
{
    let segments = text::split(path, '/');
    lemma_leading_segment(path);
    lemma_segments(path);
    if rewritten(path) == Ok::<Seq<char>, PathError>(path) {
        assert forall|k: int| 0 <= k < segments.len() implies lies_in(
            path,
            #[trigger] segments[k],
        ) by {
            assert(segment_lies(path, segments[k], segment_start(segments, k)));
        }
        lemma_resolved(path, segments);
        let names = resolved(segments);
        assert(path.contains('/'));
        assert forall|i: int, j: int| 0 <= i < names.len() && 0 <= j < names[i].len() implies path.contains(
            #[trigger] names[i][j],
        ) by {
            let name = names[i];
            assert(path.contains(name[j]));
        }
        lemma_spelled(path, names);
    }
    if is_normal(path) && (path.len() == 1 || path.last() != '/') {
        let n = segments.len() as int;
        assert forall|j: int| 0 <= j < n implies !#[trigger] hidden_at(segments)(j) by {
            if j > 0 {
                assert(is_plain(segments[j]));
            }
        }
        text::lemma_first_from(hidden_at(segments), 0, n, n);
        lemma_join_segments(path);
        if path.len() == 1 {
            let empty = Seq::<char>::empty();
            assert(path.drop_last() =~= empty);
            assert(segments =~= seq![empty, empty]);
            assert(text::before(empty, ';') =~= empty);
            reveal_with_fuel(resolved, 3);
            assert(path =~= seq!['/']);
        } else {
            assert(segments.last() == segments[n - 1]);
            assert(segments[n - 1].len() > 0);
            lemma_resolved_names(segments);
        }
    }
}

/// One more segment, which hides no traversal, is resolved behind the others.
proof fn lemma_one_more_segment(path: Seq<char>, out: Seq<char>, segment: Seq<char>)
    requires
        rewritten(path) == Ok::<Seq<char>, PathError>(out),
        !segment.contains('/'),
        !hides_traversal(segment),
    ensures
        out == spelled(resolved(text::split(path, '/'))),
        rewritten(path.push('/') + segment) == Ok::<Seq<char>, PathError>(
            spelled(resolved(text::split(path, '/').push(segment))),
        ),
{
    let segments = text::split(path, '/');
    let more = segments.push(segment);
    let n = segments.len() as int;
    text::lemma_split_append(path, segment, '/');
    text::lemma_first_from_is(hidden_at(segments), 0, n);
    assert forall|k: int| 0 <= k < more.len() implies !#[trigger] hidden_at(more)(k) by {
        if k < n {
            assert(!hidden_at(segments)(k));
            assert(more[k] == segments[k]);
        }
    }
    text::lemma_first_from(hidden_at(more), 0, more.len() as int, more.len() as int);
}

/// What resolving leaves are names without a slash.
proof fn lemma_resolved_hold_no_slash(segments: Seq<Seq<char>>)
    requires
        forall|k: int| 0 <= k < segments.len() ==> !(#[trigger] segments[k]).contains('/'),
    ensures
        forall|i: int|
            0 <= i < resolved(segments).len() ==> (#[trigger] resolved(segments)[i]).len() > 0
                && !resolved(segments)[i].contains('/'),
    decreases segments.len(),
{
    if segments.len() > 0 {
        let rest = segments.drop_last();
        assert forall|k: int| 0 <= k < rest.len() implies !(#[trigger] rest[k]).contains('/') by {
            assert(rest[k] == segments[k]);
        }
        lemma_resolved_hold_no_slash(rest);
        let last = segments[segments.len() - 1];
        let name = text::before(last, ';');
        text::lemma_first_index_is(last, ';');
        if name.contains('/') {
            let i = choose|i: int| 0 <= i < name.len() && name[i] == '/';
            assert(last[i] == '/');
        }
        let stack = resolved(rest);
        assert forall|i: int| 0 <= i < resolved(segments).len() implies (
        #[trigger] resolved(segments)[i]).len() > 0 && !resolved(segments)[i].contains('/') by {
            if i < stack.len() {
                assert(resolved(segments)[i] == stack[i]);
            }
        }
    }
}

/// The segments of a path that was rewritten.
proof fn lemma_segments_of_rewritten(path: Seq<char>)
    ensures
        ({
            let stack = resolved(text::split(path, '/'));
            let found = text::split(spelled(stack), '/');
            &&& stack.len() > 0 ==> found == seq![Seq::<char>::empty()] + stack && spelled(stack)
                != seq!['/']
            &&& stack.len() == 0 ==> found == seq![Seq::<char>::empty(), Seq::<char>::empty()]
        }),
{
    let segments = text::split(path, '/');
    let stack = resolved(segments);
    lemma_segments(path);
    assert forall|k: int| 0 <= k < segments.len() implies !(#[trigger] segments[k]).contains('/') by {
        assert(segment_lies(path, segments[k], segment_start(segments, k)));
    }
    lemma_resolved_hold_no_slash(segments);
    if stack.len() > 0 {
        lemma_split_joined(stack);
        assert(stack[stack.len() - 1] == stack.last());
        assert(joined(stack).len() >= 2);
    } else {
        let empty = Seq::<char>::empty();
        text::lemma_split_append(empty, empty, '/');
        text::lemma_split_alone(empty, '/');
        assert(empty.push('/') + empty =~= seq!['/']);
        assert(seq![empty].push(empty) =~= seq![empty, empty]);
    }
}

/// The path `out` without its last segment: the root stays the root.
pub open spec fn without_last(out: Seq<char>) -> Seq<char> {
    spelled(text::split(out, '/').skip(1).drop_last())
}

/// The path `out` with the segment `name` behind it.
pub open spec fn with_segment(out: Seq<char>, name: Seq<char>) -> Seq<char> {
    (if out == seq!['/'] {
        Seq::empty()
    } else {
        out
    }).push('/') + name
}

/// A slash at the end of a path, or a dot behind one, changes nothing.
pub proof fn law_a_dot_segment_changes_nothing(path: Seq<char>, out: Seq<char>)
    requires
        rewritten(path) == Ok::<Seq<char>, PathError>(out),
    ensures
        rewritten(path.push('/')) == Ok::<Seq<char>, PathError>(out),
        rewritten(path.push('/').push('.')) == Ok::<Seq<char>, PathError>(out),
{
    let segments = text::split(path, '/');
    let empty = Seq::<char>::empty();
    let dot = seq!['.'];
    text::lemma_first_index_is(empty, ';');
    text::lemma_first_index_is(dot, ';');
    assert(text::before(empty, ';') =~= empty);
    assert(text::before(dot, ';') =~= dot) by {
        text::lemma_first_index(dot, ';', 1);
    }
    lemma_one_more_segment(path, out, empty);
    lemma_one_more_segment(path, out, dot);
    assert(segments.push(empty).drop_last() =~= segments);
    assert(segments.push(dot).drop_last() =~= segments);
    assert(path.push('/') + empty =~= path.push('/'));
    assert(path.push('/') + dot =~= path.push('/').push('.'));
}

/// Two dots at the end of a path, however each is written, take its last segment
/// away. There is no way past the root.
pub proof fn law_a_traversal_drops_the_last_segment(
    path: Seq<char>,
    out: Seq<char>,
    dots: Seq<char>,
)
    requires
        rewritten(path) == Ok::<Seq<char>, PathError>(out),
        is_traversal(dots),
    ensures
        rewritten(path.push('/') + dots) == Ok::<Seq<char>, PathError>(without_last(out)),
        out == seq!['/'] ==> without_last(out) == out,
{
    let segments = text::split(path, '/');
    let stack = resolved(segments);
    let n = dots.len() as int;
    assert forall|i: int| 0 <= i < n implies #[trigger] dots[i] != '/' && dots[i] != ';' by {
        let cut: int = if is_dot(dots.take(1)) && is_dot(dots.skip(1)) {
            1
        } else {
            3
        };
        if i < cut {
            assert(dots[i] == dots.take(cut)[i]);
        } else {
            assert(dots[i] == dots.skip(cut)[i - cut]);
        }
    }
    text::lemma_first_index(dots, ';', n);
    assert(text::before(dots, ';') =~= dots);
    lemma_one_more_segment(path, out, dots);
    assert(segments.push(dots).drop_last() =~= segments);
    lemma_segments_of_rewritten(path);
    let found = text::split(out, '/');
    if stack.len() > 0 {
        assert(found.skip(1) =~= stack);
    } else {
        assert(found.skip(1).drop_last() =~= Seq::<Seq<char>>::empty());
    }
}

/// A name at the end of a path comes out behind the rest, and its path parameter
/// is taken away.
pub proof fn law_a_name_is_kept_behind_the_rest(
    path: Seq<char>,
    out: Seq<char>,
    name: Seq<char>,
    parameter: Seq<char>,
)
    requires
        rewritten(path) == Ok::<Seq<char>, PathError>(out),
        name.len() > 0,
        !(name.len() == 1 && name[0] == '.'),
        !is_traversal(name),
        !name.contains('/'),
        !name.contains(';'),
        !parameter.contains('/'),
    ensures
        rewritten(path.push('/') + name) == Ok::<Seq<char>, PathError>(with_segment(out, name)),
        rewritten(path.push('/') + name.push(';') + parameter) == Ok::<Seq<char>, PathError>(
            with_segment(out, name),
        ),
        out == seq!['/'] ==> with_segment(out, name) == seq!['/'] + name,
        out != seq!['/'] ==> with_segment(out, name) == out.push('/') + name,
{
    let segments = text::split(path, '/');
    let stack = resolved(segments);
    let n = name.len() as int;
    let long = name.push(';') + parameter;
    assert forall|i: int| 0 <= i < n implies #[trigger] name[i] != ';' by {}
    text::lemma_first_index(name, ';', n);
    assert(text::before(name, ';') =~= name);
    assert forall|i: int| 0 <= i < n implies #[trigger] long[i] != ';' by {
        assert(long[i] == name[i]);
    }
    assert(long[n] == ';');
    text::lemma_first_index(long, ';', n);
    assert(text::before(long, ';') =~= name);
    if long.contains('/') {
        let i = choose|i: int| 0 <= i < long.len() && long[i] == '/';
        if i < n {
            assert(name[i] == '/');
        } else {
            assert(parameter[i - n - 1] == '/');
        }
    }
    lemma_one_more_segment(path, out, name);
    lemma_one_more_segment(path, out, long);
    assert(path.push('/') + name.push(';') + parameter =~= path.push('/') + long);
    assert(segments.push(name).drop_last() =~= segments);
    assert(segments.push(long).drop_last() =~= segments);
    lemma_segments_of_rewritten(path);
    assert(stack.push(name).drop_last() =~= stack);
    assert(joined(stack.push(name)) == joined(stack).push('/') + name);
    if stack.len() == 0 {
        assert(joined(stack) =~= Seq::<char>::empty());
    }
}

/// Whether `c` is one of the digits that a percent-escape is made of.
pub open spec fn is_escape_digit(c: char) -> bool {
    ||| c == '0' || c == '1' || c == '2' || c == '3' || c == '4'
    ||| c == '5' || c == '6' || c == '7' || c == '8' || c == '9'
    ||| c == 'a' || c == 'b' || c == 'c' || c == 'd' || c == 'e' || c == 'f'
    ||| c == 'A' || c == 'B' || c == 'C' || c == 'D' || c == 'E' || c == 'F'
}

/// Whether `s` holds at `i` a percent sign with two digits behind it.
pub open spec fn is_escape(s: Seq<char>, i: int) -> bool {
    i + 2 < s.len() && s[i] == '%' && is_escape_digit(s[i + 1]) && is_escape_digit(s[i + 2])
}

/// Whether `c` has one of the numbers of a control character: below 32, or 127.
pub open spec fn has_control_number(c: char) -> bool {
    (c as u32) < 32 || c as u32 == 127
}

/// The control characters are those with these numbers, and the digits of an
/// escape are those twenty-two.
pub proof fn law_control_characters_and_digits_are_these(c: char)
    ensures
        is_control(c) <==> has_control_number(c),
        is_hex(c) <==> is_escape_digit(c),
{
}

/// The part of a request path that is read is its longest beginning that holds
/// neither a question mark nor a number sign.
pub proof fn law_a_path_ends_at_its_query_or_fragment(raw: Seq<char>)
    ensures
        path_part(raw).len() <= raw.len(),
        path_part(raw) == raw.take(path_part(raw).len() as int),
        forall|i: int|
            0 <= i < path_part(raw).len() ==> #[trigger] raw[i] != '?' && raw[i] != '#',
        path_part(raw).len() < raw.len() ==> raw[path_part(raw).len() as int] == '?'
            || raw[path_part(raw).len() as int] == '#',
{
    let head = text::before(raw, '#');
    text::lemma_first_index_is(raw, '#');
    text::lemma_first_index_is(head, '?');
    let n = path_part(raw).len() as int;
    assert(path_part(raw) =~= raw.take(n));
    assert forall|i: int| 0 <= i < n implies #[trigger] raw[i] != '?' && raw[i] != '#' by {
        assert(head[i] == raw[i]);
    }
    if n < head.len() {
        assert(head[n] == raw[n]);
    }
}

/// A control character anywhere in a request path has it refused, and the refusal
/// names the first one and its byte offset.
pub proof fn law_the_first_control_character_is_named(raw: Seq<char>, i: int)
    requires
        0 <= i < raw.len(),
        has_control_number(raw[i]),
        forall|j: int| 0 <= j < i ==> !has_control_number(#[trigger] raw[j]),
    ensures
        normalized(raw) == Err::<Seq<char>, PathError>(
            PathError::ControlCharacter {
                index: text::byte_len(raw.take(i)) as usize,
                byte: raw[i] as u8,
            },
        ),
{
    assert forall|j: int| 0 <= j < i implies !#[trigger] control_at(raw)(j) by {
        assert(!has_control_number(raw[j]));
        law_control_characters_and_digits_are_these(raw[j]);
    }
    law_control_characters_and_digits_are_these(raw[i]);
    assert(control_at(raw)(i));
    text::lemma_first_from(control_at(raw), 0, raw.len() as int, i);
}

/// Where no control character stands in a request path, none is named.
proof fn lemma_no_control(raw: Seq<char>)
    requires
        forall|j: int| 0 <= j < raw.len() ==> !has_control_number(#[trigger] raw[j]),
    ensures
        text::first_where(control_at(raw), raw.len() as int) == raw.len(),
{
    assert forall|j: int| 0 <= j < raw.len() implies !#[trigger] control_at(raw)(j) by {
        assert(!has_control_number(raw[j]));
        law_control_characters_and_digits_are_these(raw[j]);
    }
    text::lemma_first_from(control_at(raw), 0, raw.len() as int, raw.len() as int);
}

/// The first percent sign of a path that has no two digits behind it has the path
/// refused, at its byte offset: as truncated where the path ends before a character
/// that is no digit, as invalid where such a character is there.
pub proof fn law_the_first_malformed_escape_is_named(raw: Seq<char>, i: int)
    requires
        forall|j: int| 0 <= j < raw.len() ==> !has_control_number(#[trigger] raw[j]),
        0 <= i < path_part(raw).len(),
        path_part(raw)[i] == '%',
        !is_escape(path_part(raw), i),
        forall|j: int|
            0 <= j < i && #[trigger] path_part(raw)[j] == '%' ==> is_escape(path_part(raw), j),
    ensures
        ({
            let path = path_part(raw);
            let at = text::byte_len(path.take(i)) as usize;
            let cut = path.len() == i + 1 || (path.len() == i + 2 && is_escape_digit(path[i + 1]));
            &&& cut ==> normalized(raw) == Err::<Seq<char>, PathError>(
                PathError::TruncatedEscape { index: at },
            )
            &&& !cut ==> normalized(raw) == Err::<Seq<char>, PathError>(
                PathError::InvalidEscape { index: at },
            )
        }),
{
    let path = path_part(raw);
    lemma_no_control(raw);
    assert forall|j: int| 0 <= j < i implies !#[trigger] bad_escape_at(path)(j) by {
        if path[j] == '%' {
            assert(is_escape(path, j));
        }
    }
    assert(bad_escape_at(path)(i));
    text::lemma_first_from(bad_escape_at(path), 0, path.len() as int, i);
}

/// A path without control characters in which two digits stand behind every percent
/// sign is never refused for an escape or a control character.
pub proof fn law_well_formed_escapes_are_not_refused(raw: Seq<char>)
    requires
        forall|j: int| 0 <= j < raw.len() ==> !has_control_number(#[trigger] raw[j]),
        forall|j: int|
            0 <= j < path_part(raw).len() && #[trigger] path_part(raw)[j] == '%' ==> is_escape(
                path_part(raw),
                j,
            ),
    ensures
        !(normalized(raw) matches Err(PathError::InvalidEscape { .. })),
        !(normalized(raw) matches Err(PathError::TruncatedEscape { .. })),
        !(normalized(raw) matches Err(PathError::ControlCharacter { .. })),
        escapes_closed(path_part(raw)),
{
    let path = path_part(raw);
    lemma_no_control(raw);
    assert forall|j: int| 0 <= j < path.len() implies !#[trigger] bad_escape_at(path)(j) by {
        if path[j] == '%' {
            assert(is_escape(path, j));
        }
    }
    text::lemma_first_from(bad_escape_at(path), 0, path.len() as int, path.len() as int);
}

/// Two dots are spelled in these nine ways and in no other: each of the two as
/// itself, or escaped with a small or a capital letter.
pub proof fn law_two_dots_are_spelled_so(s: Seq<char>)
    ensures
        is_traversal(s) <==> {
            ||| s == seq!['.', '.']
            ||| s == seq!['.', '%', '2', 'e']
            ||| s == seq!['.', '%', '2', 'E']
            ||| s == seq!['%', '2', 'e', '.']
            ||| s == seq!['%', '2', 'E', '.']
            ||| s == seq!['%', '2', 'e', '%', '2', 'e']
            ||| s == seq!['%', '2', 'e', '%', '2', 'E']
            ||| s == seq!['%', '2', 'E', '%', '2', 'e']
            ||| s == seq!['%', '2', 'E', '%', '2', 'E']
        },
{
    if is_traversal(s) {
        if s.len() == 2 {
            assert(s[0] == s.take(1)[0] && s[1] == s.skip(1)[0]);
            assert(s =~= seq!['.', '.']);
        } else if s.len() == 4 && s[0] == '.' {
            assert(s[1] == s.skip(1)[0] && s[2] == s.skip(1)[1] && s[3] == s.skip(1)[2]);
            assert(s =~= seq!['.', '%', '2', s[3]]);
        } else if s.len() == 4 {
            assert(s[0] == s.take(3)[0] && s[1] == s.take(3)[1] && s[2] == s.take(3)[2]);
            assert(s[3] == s.skip(3)[0]);
            assert(s =~= seq!['%', '2', s[2], '.']);
        } else {
            assert(s.len() == 6);
            assert(s[0] == s.take(3)[0] && s[1] == s.take(3)[1] && s[2] == s.take(3)[2]);
            assert(s[3] == s.skip(3)[0] && s[4] == s.skip(3)[1] && s[5] == s.skip(3)[2]);
            assert(s =~= seq!['%', '2', s[2], '%', '2', s[5]]);
        }
    } else if s.len() > 0 && s[0] == '.' {
        assert(s.take(1)[0] == '.');
        assert(!is_dot(s.skip(1)));
        if s.len() == 2 {
            assert(s.skip(1)[0] == s[1]);
        } else if s.len() == 4 {
            assert(s[1] == s.skip(1)[0] && s[2] == s.skip(1)[1] && s[3] == s.skip(1)[2]);
        }
    } else if s.len() >= 3 {
        assert(s[0] == s.take(3)[0] && s[1] == s.take(3)[1] && s[2] == s.take(3)[2]);
        if s.len() == 4 {
            assert(s[3] == s.skip(3)[0]);
        } else if s.len() == 6 {
            assert(s[3] == s.skip(3)[0] && s[4] == s.skip(3)[1] && s[5] == s.skip(3)[2]);
        }
    }
}

/// The empty path and the root are read as the root.
pub proof fn law_the_root_is_read_as_itself()
    ensures
        rewritten(Seq::empty()) == Ok::<Seq<char>, PathError>(seq!['/']),
        rewritten(seq!['/']) == Ok::<Seq<char>, PathError>(seq!['/']),
{
    let empty = Seq::<char>::empty();
    let segments = text::split(empty, '/');
    assert(segments =~= seq![empty]);
    assert(!hidden_at(segments)(0));
    text::lemma_first_from(hidden_at(segments), 0, 1, 1);
    assert(text::before(empty, ';') =~= empty);
    assert(segments.drop_last() =~= Seq::<Seq<char>>::empty());
    reveal_with_fuel(resolved, 2);
    law_a_dot_segment_changes_nothing(empty, seq!['/']);
    assert(empty.push('/') =~= seq!['/']);
}

/// A path parameter on an empty segment or on a single dot is taken away with the
/// segment.
pub proof fn law_a_parameter_goes_with_its_segment(
    path: Seq<char>,
    out: Seq<char>,
    parameter: Seq<char>,
)
    requires
        rewritten(path) == Ok::<Seq<char>, PathError>(out),
        !parameter.contains('/'),
    ensures
        rewritten(path.push('/') + (seq![';'] + parameter)) == Ok::<Seq<char>, PathError>(out),
        rewritten(path.push('/') + (seq!['.', ';'] + parameter)) == Ok::<Seq<char>, PathError>(out),
{
    let segments = text::split(path, '/');
    let bare = seq![';'] + parameter;
    let dotted = seq!['.', ';'] + parameter;
    text::lemma_first_index(bare, ';', 0);
    text::lemma_first_index(dotted, ';', 1);
    assert(text::before(bare, ';') =~= Seq::<char>::empty());
    assert(text::before(dotted, ';') =~= seq!['.']);
    if bare.contains('/') {
        let i = choose|i: int| 0 <= i < bare.len() && bare[i] == '/';
        assert(parameter[i - 1] == '/');
    }
    if dotted.contains('/') {
        let i = choose|i: int| 0 <= i < dotted.len() && dotted[i] == '/';
        assert(parameter[i - 2] == '/');
    }
    law_two_dots_are_spelled_so(Seq::empty());
    law_two_dots_are_spelled_so(seq!['.']);
    lemma_one_more_segment(path, out, bare);
    lemma_one_more_segment(path, out, dotted);
    assert(segments.push(bare).drop_last() =~= segments);
    assert(segments.push(dotted).drop_last() =~= segments);
}

/// Two dots with a path parameter behind them have the path refused, at the byte
/// offset of the segment that they begin, one behind what stands before it.
pub proof fn law_a_hidden_traversal_is_refused(
    path: Seq<char>,
    dots: Seq<char>,
    parameter: Seq<char>,
)
    requires
        rewritten(path) is Ok,
        is_traversal(dots),
        !parameter.contains('/'),
    ensures
        rewritten(path.push('/') + (dots.push(';') + parameter)) == Err::<Seq<char>, PathError>(
            PathError::ParameterizedTraversal { index: (text::byte_len(path) + 1) as usize },
        ),
{
    let segments = text::split(path, '/');
    let n = segments.len() as int;
    let long = dots.push(';') + parameter;
    let whole = path.push('/') + long;
    let d = dots.len() as int;
    law_two_dots_are_spelled_so(dots);
    assert forall|i: int| 0 <= i < d implies #[trigger] dots[i] != '/' && dots[i] != ';' by {}
    assert forall|i: int| 0 <= i < d implies long[i] != ';' by {
        assert(long[i] == dots[i]);
    }
    assert(long[d] == ';');
    text::lemma_first_index(long, ';', d);
    assert(text::before(long, ';') =~= dots);
    if long.contains('/') {
        let i = choose|i: int| 0 <= i < long.len() && long[i] == '/';
        if i < d {
            assert(dots[i] == '/');
        } else {
            assert(parameter[i - d - 1] == '/');
        }
    }
    text::lemma_split_append(path, long, '/');
    let more = segments.push(long);
    text::lemma_first_from_is(hidden_at(segments), 0, n);
    assert forall|k: int| 0 <= k < n implies !#[trigger] hidden_at(more)(k) by {
        assert(!hidden_at(segments)(k));
        assert(more[k] == segments[k]);
    }
    assert(hidden_at(more)(n));
    text::lemma_first_from(hidden_at(more), 0, n + 1, n);
    lemma_segments(path);
    assert(more.take(n) =~= segments);
    lemma_segment_start_same(segments, more, n);
    assert(whole.take(path.len() + 1int) =~= path.push('/'));
    text::lemma_byte_len_push(path, '/');
    text::law_bytes_add_up(path, '/');
}

/// The places of the first segments do not depend on those behind them.
proof fn lemma_segment_start_same(a: Seq<Seq<char>>, b: Seq<Seq<char>>, k: int)
    requires
        0 <= k <= a.len() <= b.len(),
        forall|i: int| 0 <= i < a.len() ==> #[trigger] a[i] == b[i],
    ensures
        segment_start(a, k) == segment_start(b, k),
    decreases k,
{
    if k > 0 {
        lemma_segment_start_same(a, b, k - 1);
        assert(a[k - 1] == b[k - 1]);
    }
}

/// A path that is refused stays refused, for the same fault at the same place,
/// whatever segment comes behind it.
pub proof fn law_a_refusal_stands_whatever_follows(path: Seq<char>, segment: Seq<char>)
    requires
        rewritten(path) is Err,
        !segment.contains('/'),
    ensures
        rewritten(path.push('/') + segment) == rewritten(path),
{
    let segments = text::split(path, '/');
    let n = segments.len() as int;
    let more = segments.push(segment);
    let whole = path.push('/') + segment;
    text::lemma_split_append(path, segment, '/');
    text::lemma_first_from_is(hidden_at(segments), 0, n);
    let k = text::first_where(hidden_at(segments), n);
    assert forall|j: int| 0 <= j < k implies !#[trigger] hidden_at(more)(j) by {
        assert(!hidden_at(segments)(j));
        assert(more[j] == segments[j]);
    }
    assert(more[k] == segments[k]);
    assert(hidden_at(more)(k));
    text::lemma_first_from(hidden_at(more), 0, n + 1, k);
    lemma_segments(path);
    assert(segment_lies(path, segments[k], segment_start(segments, k)));
    lemma_segment_start_same(segments, more, k);
    let at = segment_start(segments, k);
    assert(whole.take(at) =~= path.take(at));
}

/// A name takes itself back: two dots behind a name leave the path as it was.
pub proof fn law_two_dots_take_a_name_back(
    path: Seq<char>,
    out: Seq<char>,
    name: Seq<char>,
    dots: Seq<char>,
)
    requires
        rewritten(path) == Ok::<Seq<char>, PathError>(out),
        name.len() > 0,
        name != seq!['.'],
        !is_traversal(name),
        !name.contains('/'),
        !name.contains(';'),
        is_traversal(dots),
    ensures
        rewritten((path.push('/') + name).push('/') + dots) == Ok::<Seq<char>, PathError>(out),
{
    if name.len() == 1 && name[0] == '.' {
        assert(name =~= seq!['.']);
    }
    let empty = Seq::<char>::empty();
    law_a_name_is_kept_behind_the_rest(path, out, name, empty);
    let longer = with_segment(out, name);
    law_a_traversal_drops_the_last_segment(path.push('/') + name, longer, dots);
    let stack = resolved(text::split(path, '/'));
    lemma_segments_of_rewritten(path);
    let head: Seq<char> = if out == seq!['/'] {
        empty
    } else {
        out
    };
    text::lemma_split_append(head, name, '/');
    if stack.len() == 0 {
        text::lemma_split_alone(empty, '/');
        assert(seq![empty].push(name).skip(1).drop_last() =~= stack);
    } else {
        assert((seq![empty] + stack).push(name).skip(1).drop_last() =~= stack);
    }
}

/// A slash behind an absolute path that does not end with one changes nothing of
/// whether it stands as it is; a second slash always has to go.
proof fn lemma_trailing_slash(path: Seq<char>)
    requires
        path.len() > 0,
        path[0] == '/',
    ensures
        path.last() != '/' ==> (is_normal(path.push('/')) <==> is_normal(path)),
        path.last() == '/' ==> !is_normal(path.push('/')),
{
    let empty = Seq::<char>::empty();
    let segments = text::split(path, '/');
    let n = segments.len() as int;
    let more = segments.push(empty);
    text::lemma_split_append(path, empty, '/');
    assert(path.push('/') + empty =~= path.push('/'));
    lemma_leading_segment(path);
    lemma_segments(path);
    lemma_join_segments(path);
    assert(text::split(path.push('/'), '/') == more);
    let last = segments[n - 1];
    assert(segment_lies(path, last, segment_start(segments, n - 1)));
    law_two_dots_are_spelled_so(empty);
    assert(is_plain(empty));
    if path.last() == '/' {
        assert(last.len() == 0);
        assert(more[n - 1] == last);
    } else {
        assert(last.len() > 0) by {
            let rest = segments.skip(1);
            assert(joined(rest) == joined(rest.drop_last()).push('/') + rest.last());
            assert(rest.last() == last);
        }
        if is_normal(path) {
            assert forall|k: int| 1 <= k < more.len() implies is_plain(#[trigger] more[k]) && (
            more[k].len() > 0 || k == more.len() - 1) by {
                if k < n {
                    assert(more[k] == segments[k]);
                }
            }
        }
        if is_normal(path.push('/')) {
            assert forall|k: int| 1 <= k < n implies is_plain(#[trigger] segments[k]) && (
            segments[k].len() > 0 || k == n - 1) by {
                assert(more[k] == segments[k]);
            }
        }
    }
}

/// What a well-formed request path is read as. One that is not absolute comes back
/// as given. An absolute one is rewritten, but that one slash at its end is kept
/// where nothing else is to be done.
pub proof fn law_what_a_well_formed_path_is_read_as(raw: Seq<char>)
    requires
        forall|j: int| 0 <= j < raw.len() ==> !has_control_number(#[trigger] raw[j]),
        forall|j: int|
            0 <= j < path_part(raw).len() && #[trigger] path_part(raw)[j] == '%' ==> is_escape(
                path_part(raw),
                j,
            ),
    ensures
        ({
            let path = path_part(raw);
            let shorter = path.drop_last();
            let closed = path.len() > 2 && path.last() == '/' && shorter.last() != '/'
                && rewritten(shorter) == Ok::<Seq<char>, PathError>(shorter);
            &&& path.len() == 0 || path[0] != '/' ==> normalized(raw) == Ok::<Seq<char>, PathError>(
                raw,
            )
            &&& path.len() > 0 && path[0] == '/' && closed ==> normalized(raw) == Ok::<
                Seq<char>,
                PathError,
            >(path)
            &&& path.len() > 0 && path[0] == '/' && !closed ==> normalized(raw) == rewritten(path)
        }),
{
    let path = path_part(raw);
    law_well_formed_escapes_are_not_refused(raw);
    lemma_no_control(raw);
    text::lemma_first_from(bad_escape_at(path), 0, path.len() as int, path.len() as int);
    if path.len() > 0 && path[0] == '/' {
        law_left_alone_where_rewriting_changes_nothing(path);
        if path.len() > 1 && path.last() == '/' {
            let shorter = path.drop_last();
            assert(shorter.push('/') =~= path);
            lemma_trailing_slash(shorter);
            if shorter.last() != '/' {
                assert forall|j: int| 0 <= j < shorter.len() implies !#[trigger] bad_escape_at(
                    shorter,
                )(j) by {
                    assert(!bad_escape_at(path)(j));
                    if shorter[j] == '%' {
                        assert(path[j] == '%');
                        assert(is_escape(path, j));
                        assert(path[path.len() - 1] == '/');
                    }
                }
                law_left_alone_where_rewriting_changes_nothing(shorter);
            }
        }
    }
}

/// What is said of a path that could not be read names the byte offset, and the byte
/// where that is at fault, in two hexadecimal digits.
pub proof fn law_what_is_said_of_a_path(index: usize, byte: u8)
    ensures
        path_message(PathError::InvalidEscape { index }) == "percent-escape at byte "@
            + text::decimal(index as nat) + " is not two hex digits"@,
        path_message(PathError::TruncatedEscape { index }) == "percent-escape at byte "@
            + text::decimal(index as nat) + " is truncated"@,
        path_message(PathError::ParameterizedTraversal { index })
            == "path parameter on a traversal segment at byte "@ + text::decimal(index as nat),
        path_message(PathError::ControlCharacter { index, byte }) == "control character 0x"@ + seq![
            text::hex_lower((byte / 16) as nat),
            text::hex_lower((byte % 16) as nat),
        ] + " at byte "@ + text::decimal(index as nat),
{
    let a = text::hex_lower((byte / 16) as nat);
    let b = text::hex_lower((byte % 16) as nat);
    assert("control character 0x"@.push(a).push(b) =~= "control character 0x"@ + seq![a, b]);
}

} // verus!
