//! Reading credentials out of a raw `Cookie` header or a raw query string.
//!
//! Nothing is percent-decoded. Input that is too long, that carries a control
//! character, or that names a credential twice is refused outright.
use crate::text;
use crate::value::TextMap;
use vstd::prelude::*;

verus! {

/// The most bytes of a raw `Cookie` header or a raw query string that are
/// parsed.
pub const MAX_INPUT_LEN: usize = 8 * 1024;

/// Why a raw credential string was refused.
#[derive(Debug, Clone, PartialEq, Eq)]
pub enum CredentialParseError {
    /// The raw input exceeds [`MAX_INPUT_LEN`].
    TooLong {
        /// Where the input came from (`"cookie"` or `"query_param"`).
        location: &'static str,
        /// The input's actual length.
        len: usize,
        /// The maximum allowed length.
        max: usize,
    },
    /// The raw input contains `\r`, `\n`, or `\0`.
    ControlCharacter {
        /// Where the input came from (`"cookie"` or `"query_param"`).
        location: &'static str,
    },
    /// A credential name appeared more than once. Neither the first nor the
    /// last one wins.
    Duplicate {
        /// Where the duplicate was found (`"cookie"` or `"query_param"`).
        location: &'static str,
        /// The repeated name.
        name: String,
    },
}

/// What is said of a credential string that was refused.
pub open spec fn credential_message(e: CredentialParseError) -> Seq<char> {
    match e {
        CredentialParseError::TooLong { location, len, max } => location@ + " input is "@
            + text::decimal(len as nat) + " bytes, exceeding the "@ + text::decimal(max as nat)
            + "-byte limit"@,
        CredentialParseError::ControlCharacter { location } => location@
            + " input contains a control character"@,
        CredentialParseError::Duplicate { location, name } => "duplicate "@ + location@
            + " name '"@ + name@ + "'"@,
    }
}

impl CredentialParseError {
    /// What is said of the credential string.
    pub fn message(&self) -> (r: String)
        ensures
            r@ == credential_message(*self),
    {
        match self {
            CredentialParseError::TooLong { location, len, max } => {
                let mut m = (*location).to_owned();
                m.append(" input is ");
                m.append(text::decimal_of(*len as u64).as_str());
                m.append(" bytes, exceeding the ");
                m.append(text::decimal_of(*max as u64).as_str());
                m.append("-byte limit");
                m
            },
            CredentialParseError::ControlCharacter { location } => {
                let mut m = (*location).to_owned();
                m.append(" input contains a control character");
                m
            },
            CredentialParseError::Duplicate { location, name } => {
                let mut m = "duplicate ".to_owned();
                m.append(location);
                m.append(" name '");
                m.append(name.as_str());
                m.append("'");
                m
            },
        }
    }
}

/// Whether `s` holds a character that is refused.
pub open spec fn has_control(s: Seq<char>) -> bool {
    s.contains('\r') || s.contains('\n') || s.contains('\0')
}

/// The name and the value of one piece; none where it holds nothing.
///
/// A piece without `=` is a name with an empty value. In a cookie the white
/// space before the piece and around the name is no part of them; a value is
/// never trimmed.
pub open spec fn pair_of(piece: Seq<char>, cookie: bool) -> Option<(Seq<char>, Seq<char>)> {
    let p = if cookie {
        text::trim_start(piece)
    } else {
        piece
    };
    let name = text::before(p, '=');
    if p.len() == 0 {
        None
    } else {
        Some(
            (
                if cookie {
                    text::trim(name)
                } else {
                    name
                },
                text::behind(p, '='),
            ),
        )
    }
}

/// The pairs of `pieces`, or the first name that comes a second time.
pub open spec fn gathered(pieces: Seq<Seq<char>>, cookie: bool) -> Result<
    Map<Seq<char>, Seq<char>>,
    Seq<char>,
>
    decreases pieces.len(),
{
    if pieces.len() == 0 {
        Ok(Map::empty())
    } else {
        match gathered(pieces.drop_last(), cookie) {
            Err(name) => Err(name),
            Ok(map) => match pair_of(pieces.last(), cookie) {
                None => Ok(map),
                Some((name, value)) => if map.contains_key(name) {
                    Err(name)
                } else {
                    Ok(map.insert(name, value))
                },
            },
        }
    }
}

/// What [`parse_cookie_header`] and [`parse_query_string`] promise.
pub open spec fn is_parse(
    raw: Seq<char>,
    sep: char,
    cookie: bool,
    place: Seq<char>,
    r: Result<TextMap<String>, CredentialParseError>,
) -> bool {
    let pairs = gathered(text::split(raw, sep), cookie);
    match r {
        Ok(map) => {
            &&& text::byte_len(raw) <= MAX_INPUT_LEN
            &&& !has_control(raw)
            &&& pairs == Ok::<Map<Seq<char>, Seq<char>>, Seq<char>>(map.texts())
        },
        Err(CredentialParseError::TooLong { location, len, max }) => {
            &&& text::byte_len(raw) > MAX_INPUT_LEN
            &&& location@ == place
            &&& len == text::byte_len(raw)
            &&& max == MAX_INPUT_LEN
        },
        Err(CredentialParseError::ControlCharacter { location }) => {
            &&& text::byte_len(raw) <= MAX_INPUT_LEN
            &&& has_control(raw)
            &&& location@ == place
        },
        Err(CredentialParseError::Duplicate { location, name }) => {
            &&& text::byte_len(raw) <= MAX_INPUT_LEN
            &&& !has_control(raw)
            &&& pairs == Err::<Map<Seq<char>, Seq<char>>, Seq<char>>(name@)
            &&& location@ == place
        },
    }
}

/// Reject oversized or control-character input before parsing.
fn validate(raw: &str, location: &'static str) -> (r: Result<(), CredentialParseError>)
    ensures
        match r {
            Ok(()) => text::byte_len(raw@) <= MAX_INPUT_LEN && !has_control(raw@),
            Err(CredentialParseError::TooLong { location: l, len, max }) => {
                &&& text::byte_len(raw@) > MAX_INPUT_LEN
                &&& l@ == location@
                &&& len == text::byte_len(raw@)
                &&& max == MAX_INPUT_LEN
            },
            Err(CredentialParseError::ControlCharacter { location: l }) => {
                &&& text::byte_len(raw@) <= MAX_INPUT_LEN
                &&& has_control(raw@)
                &&& l@ == location@
            },
            Err(CredentialParseError::Duplicate { .. }) => false,
        },
{
    let bytes = raw.as_bytes();
    let len = bytes.len();
    if len > MAX_INPUT_LEN {
        return Err(CredentialParseError::TooLong { location, len, max: MAX_INPUT_LEN });
    }
    let v = text::chars_of(raw);
    let n = v.len();
    let cr = text::find(&v, '\r', 0, n);
    let lf = text::find(&v, '\n', 0, n);
    let nul = text::find(&v, '\0', 0, n);
    assert(v@.subrange(0, n as int) =~= raw@);
    if cr < n || lf < n || nul < n {
        return Err(CredentialParseError::ControlCharacter { location });
    }
    Ok(())
}

/// Insert `(name, value)` into `map`, rejecting a duplicate name.
fn insert_unique(
    map: &mut TextMap<String>,
    location: &'static str,
    name: String,
    value: String,
) -> (r: Result<(), CredentialParseError>)
    ensures
        r is Err <==> old(map)@.contains_key(name@),
        r is Ok ==> final(map).texts() == old(map).texts().insert(name@, value@),
        r is Err ==> *final(map) == *old(map),
        r matches Err(e) ==> e matches CredentialParseError::Duplicate { location: l, name: n } && l@
            == location@ && n@ == name@,
{
    if map.contains_key(name.as_str()) {
        return Err(CredentialParseError::Duplicate { location, name });
    }
    let ghost was = map.texts();
    map.insert(name, value);
    assert(map.texts() =~= was.insert(name@, value@));
    Ok(())
}

/// The name and the value of the piece of `v` from `from` to `to`.
fn read_pair(v: &Vec<char>, from: usize, to: usize, cookie: bool) -> (r: Option<(String, String)>)
    requires
        from <= to <= v@.len(),
    ensures
        match r {
            None => pair_of(v@.subrange(from as int, to as int), cookie) is None,
            Some((name, value)) => pair_of(v@.subrange(from as int, to as int), cookie) == Some(
                (name@, value@),
            ),
        },
{
    let start = if cookie {
        text::skip_space(v, from, to)
    } else {
        from
    };
    let ghost p = v@.subrange(start as int, to as int);
    if start == to {
        return None;
    }
    let eq = text::find(v, '=', start, to);
    let ghost name = text::before(p, '=');
    assert(name =~= v@.subrange(start as int, eq as int));
    let value = if eq < to {
        assert(text::behind(p, '=') =~= v@.subrange(eq + 1, to as int));
        text::string_of(v, eq + 1, to)
    } else {
        String::new()
    };
    assert(value@ =~= text::behind(p, '='));
    if cookie {
        let a = text::skip_space(v, start, eq);
        let b = text::drop_space(v, a, eq);
        Some((text::string_of(v, a, b), value))
    } else {
        Some((text::string_of(v, start, eq), value))
    }
}

/// Split on `sep`, read each piece, and gather the pairs.
fn gather(raw: &str, sep: char, cookie: bool, location: &'static str) -> (r: Result<
    TextMap<String>,
    CredentialParseError,
>)
    ensures
        is_parse(raw@, sep, cookie, location@, r),
{
    match validate(raw, location) {
        Ok(()) => {},
        Err(e) => {
            return Err(e);
        },
    }
    let v = text::chars_of(raw);
    let len = v.len();
    let ghost whole = raw@;
    let ghost pieces = text::split(whole, sep);
    let mut out: TextMap<String> = TextMap::new();
    let mut start: usize = 0;
    let mut done = false;
    proof {
        assert(whole.take(0) =~= Seq::<char>::empty());
        assert(text::split(whole.take(0), sep).drop_last() =~= Seq::<Seq<char>>::empty());
        assert(out.texts() =~= Map::<Seq<char>, Seq<char>>::empty());
    }
    while !done
        invariant
            len == v@.len(),
            v@ == whole,
            whole == raw@,
            pieces == text::split(whole, sep),
            text::byte_len(whole) <= MAX_INPUT_LEN,
            !has_control(whole),
            0 <= start <= len,
            done || start == 0 || whole[start - 1] == sep,
            !done ==> text::split(whole.take(start as int), sep).len() >= 1 && gathered(
                text::split(whole.take(start as int), sep).drop_last(),
                cookie,
            ) == Ok::<Map<Seq<char>, Seq<char>>, Seq<char>>(out.texts()),
            done ==> gathered(pieces, cookie) == Ok::<Map<Seq<char>, Seq<char>>, Seq<char>>(
                out.texts(),
            ),
        decreases len - start, (if done { 0int } else { 1int }),
    {
        let end = text::find(&v, sep, start, len);
        let ghost now = text::split(whole.take(end as int), sep);
        proof {
            text::lemma_split_piece(whole, sep, start as int, end as int);
            assert(now.drop_last() =~= text::split(whole.take(start as int), sep).drop_last());
            assert(now.last() == whole.subrange(start as int, end as int));
        }
        match read_pair(&v, start, end, cookie) {
            None => {},
            Some((name, value)) => {
                match insert_unique(&mut out, location, name, value) {
                    Ok(()) => {},
                    Err(e) => {
                        proof {
                            lemma_gathered_fails(whole, sep, end as int, cookie);
                        }
                        return Err(e);
                    },
                }
            },
        }
        if end < len {
            proof {
                text::lemma_split_sep(whole, sep, end as int);
                assert(text::split(whole.take(end + 1), sep).drop_last() =~= now);
            }
            start = end + 1;
        } else {
            assert(whole.take(end as int) =~= whole);
            start = len;
            done = true;
        }
    }
    Ok(out)
}

/// A name that comes twice in a beginning comes twice in the whole.
proof fn lemma_gathered_prefix(pieces: Seq<Seq<char>>, n: int, cookie: bool)
    requires
        0 <= n <= pieces.len(),
        gathered(pieces.take(n), cookie) is Err,
    ensures
        gathered(pieces, cookie) == gathered(pieces.take(n), cookie),
    decreases pieces.len(),
{
    if n == pieces.len() {
        assert(pieces.take(n) =~= pieces);
    } else {
        assert(pieces.drop_last().take(n) =~= pieces.take(n));
        lemma_gathered_prefix(pieces.drop_last(), n, cookie);
    }
}

/// What fails on the pieces read so far fails on all of them.
proof fn lemma_gathered_fails(whole: Seq<char>, sep: char, end: int, cookie: bool)
    requires
        0 <= end <= whole.len(),
        end == whole.len() || whole[end] == sep,
        gathered(text::split(whole.take(end), sep), cookie) is Err,
    ensures
        gathered(text::split(whole, sep), cookie) == gathered(
            text::split(whole.take(end), sep),
            cookie,
        ),
{
    text::lemma_split_prefix(whole, sep, end);
    let read = text::split(whole.take(end), sep);
    let pieces = text::split(whole, sep);
    assert(pieces.take(read.len() as int) =~= read);
    lemma_gathered_prefix(pieces, read.len() as int, cookie);
}

/// Parse a raw `Cookie` header value into name-value pairs.
///
/// Splits on `;`, tolerates white space before a pair, trims names but not
/// values, and does not percent-decode. A pair with no `=` is a name with an
/// empty value. Oversized input, control characters, and duplicate names are
/// refused.
pub fn parse_cookie_header(raw: &str) -> (r: Result<TextMap<String>, CredentialParseError>)
    ensures
        is_parse(raw@, ';', true, "cookie"@, r),
{
    gather(raw, ';', true, "cookie")
}

/// Parse a raw query string, without its `?`, into name-value pairs.
///
/// Splits on `&`, each segment on its first `=`, and does not percent-decode.
/// A segment with no `=` is a name with an empty value. Oversized input,
/// control characters, and duplicate names are refused.
pub fn parse_query_string(raw: &str) -> (r: Result<TextMap<String>, CredentialParseError>)
    ensures
        is_parse(raw@, '&', false, "query_param"@, r),
{
    gather(raw, '&', false, "query_param")
}

/// Gathering that succeeds keeps every pair, and nothing else.
pub proof fn law_every_pair_is_kept(
    pieces: Seq<Seq<char>>,
    cookie: bool,
    map: Map<Seq<char>, Seq<char>>,
)
    requires
        gathered(pieces, cookie) == Ok::<Map<Seq<char>, Seq<char>>, Seq<char>>(map),
    ensures
        forall|i: int|
            0 <= i < pieces.len() ==> (pair_of(#[trigger] pieces[i], cookie) matches Some((name, value))
                ==> map.contains_key(name) && map[name] == value),
        forall|name: Seq<char>| #[trigger]
            map.contains_key(name) ==> exists|i: int|
                0 <= i < pieces.len() && pair_of(#[trigger] pieces[i], cookie) == Some(
                    (name, map[name]),
                ),
    decreases pieces.len(),
{
    if pieces.len() > 0 {
        let head = pieces.drop_last();
        let n = pieces.len() - 1;
        let before = gathered(head, cookie)->Ok_0;
        law_every_pair_is_kept(head, cookie, before);
        assert forall|i: int| 0 <= i < pieces.len() implies (pair_of(#[trigger] pieces[i], cookie) matches Some(
            (name, value),
        ) ==> map.contains_key(name) && map[name] == value) by {
            if i < n {
                assert(head[i] == pieces[i]);
            }
        }
        assert forall|name: Seq<char>| #[trigger] map.contains_key(name) implies exists|i: int|
            0 <= i < pieces.len() && pair_of(#[trigger] pieces[i], cookie) == Some(
                (name, map[name]),
            ) by {
            if before.contains_key(name) {
                let i = choose|i: int|
                    0 <= i < head.len() && pair_of(#[trigger] head[i], cookie) == Some(
                        (name, before[name]),
                    );
                assert(pieces[i] == head[i]);
            } else {
                assert(pair_of(pieces[n], cookie) == Some((name, map[name])));
            }
        }
    }
}

/// A name that stands in two places is refused, wherever they are: no second
/// value can take the place of the first.
pub proof fn law_a_repeated_name_is_refused(pieces: Seq<Seq<char>>, cookie: bool, i: int, j: int)
    requires
        0 <= i < j < pieces.len(),
        pair_of(pieces[i], cookie) is Some,
        pair_of(pieces[j], cookie) is Some,
        pair_of(pieces[i], cookie)->Some_0.0 == pair_of(pieces[j], cookie)->Some_0.0,
    ensures
        gathered(pieces, cookie) is Err,
{
    let read = pieces.take(j + 1);
    assert(read.drop_last() =~= pieces.take(j));
    assert(read.last() == pieces[j]);
    let before = gathered(pieces.take(j), cookie);
    if before is Ok {
        law_every_pair_is_kept(pieces.take(j), cookie, before->Ok_0);
        assert(pieces.take(j)[i] == pieces[i]);
    }
    lemma_gathered_prefix(pieces, j + 1, cookie);
}

/// What a piece of a query string is read as: nothing where it is empty; a name with no
/// value where it holds no equals sign; else the name before its first equals sign and
/// the value behind it, to the end, whatever either holds.
pub proof fn law_what_a_query_segment_is_read_as(name: Seq<char>, value: Seq<char>)
    requires
        !name.contains('='),
    ensures
        pair_of(Seq::empty(), false) is None,
        pair_of(name.push('=') + value, false) == Some((name, value)),
        name.len() > 0 ==> pair_of(name, false) == Some((name, Seq::<char>::empty())),
{
    let p = name.push('=') + value;
    let n = name.len() as int;
    assert forall|i: int| 0 <= i < n implies p[i] != '=' by {
        assert(p[i] == name[i]);
    }
    assert(p[n] == '=');
    text::lemma_first_index(p, '=', n);
    assert(text::before(p, '=') =~= name);
    assert(text::behind(p, '=') =~= value);
    text::law_a_text_falls_apart_at_its_first_separator(name, '=');
    assert(text::behind(name, '=') =~= Seq::<char>::empty());
}

/// What a piece of a cookie header is read as: the same, once the white space before it
/// is skipped and the white space around the name is dropped. The value is kept as it
/// stands.
pub proof fn law_what_a_cookie_pair_is_read_as(piece: Seq<char>)
    ensures
        pair_of(piece, true) is None <==> forall|i: int|
            0 <= i < piece.len() ==> text::is_white_space(#[trigger] piece[i]),
        pair_of(piece, true) matches Some((name, value)) ==> (pair_of(
            text::trim_start(piece),
            false,
        ) matches Some((n, v)) && name == text::trim(n) && value == v),
{
    lemma_all_white(piece);
}

/// Nothing is left of a text without its leading white space exactly where it is all
/// white space.
proof fn lemma_all_white(s: Seq<char>)
    ensures
        text::trim_start(s).len() == 0 <==> forall|i: int|
            0 <= i < s.len() ==> text::is_white_space(#[trigger] s[i]),
    decreases s.len(),
{
    if s.len() > 0 && text::is_white_space(s[0]) {
        let rest = s.drop_first();
        lemma_all_white(rest);
        if text::trim_start(s).len() == 0 {
            assert forall|i: int| 0 <= i < s.len() implies text::is_white_space(
                #[trigger] s[i],
            ) by {
                if i > 0 {
                    assert(rest[i - 1] == s[i]);
                }
            }
        }
        if forall|i: int| 0 <= i < s.len() ==> text::is_white_space(#[trigger] s[i]) {
            assert forall|i: int| 0 <= i < rest.len() implies text::is_white_space(
                #[trigger] rest[i],
            ) by {
                assert(rest[i] == s[i + 1]);
            }
        }
    } else if s.len() > 0 {
        assert(!text::is_white_space(s[0]));
    }
}

/// Whether the piece `i` gives the name `name` the value `value`.
pub open spec fn gives(
    pieces: Seq<Seq<char>>,
    cookie: bool,
    i: int,
    name: Seq<char>,
    value: Seq<char>,
) -> bool {
    0 <= i < pieces.len() && pair_of(pieces[i], cookie) == Some((name, value))
}

/// Whether the pieces `i` and `j` give the same name.
pub open spec fn repeats(pieces: Seq<Seq<char>>, cookie: bool, i: int, j: int) -> bool {
    &&& 0 <= i < j < pieces.len()
    &&& pair_of(pieces[i], cookie) is Some
    &&& pair_of(pieces[j], cookie) is Some
    &&& pair_of(pieces[i], cookie)->Some_0.0 == pair_of(pieces[j], cookie)->Some_0.0
}

/// What is gathered is what the pieces give, each name by one piece; a name that two
/// pieces give has all of them refused, and so has nothing else.
pub proof fn law_what_is_gathered_is_what_the_pieces_give(pieces: Seq<Seq<char>>, cookie: bool)
    ensures
        gathered(pieces, cookie) is Err <==> exists|i: int, j: int| #[trigger]
            repeats(pieces, cookie, i, j),
        gathered(pieces, cookie) matches Err(name) ==> exists|i: int, j: int| #[trigger]
            repeats(pieces, cookie, i, j) && pair_of(pieces[j], cookie)->Some_0.0 == name,
        gathered(pieces, cookie) matches Ok(map) ==> {
            &&& forall|name: Seq<char>| #[trigger]
                map.contains_key(name) ==> exists|i: int| #[trigger]
                    gives(pieces, cookie, i, name, map[name])
            &&& forall|i: int, name: Seq<char>, value: Seq<char>| #[trigger]
                gives(pieces, cookie, i, name, value) ==> map.contains_key(name) && map[name]
                    == value
        },
    decreases pieces.len(),
{
    if pieces.len() > 0 {
        let head = pieces.drop_last();
        let n = head.len() as int;
        law_what_is_gathered_is_what_the_pieces_give(head, cookie);
        assert forall|i: int, j: int| #[trigger] repeats(head, cookie, i, j) implies repeats(
            pieces,
            cookie,
            i,
            j,
        ) by {
            assert(head[i] == pieces[i] && head[j] == pieces[j]);
        }
        if gathered(head, cookie) is Err {
            let name = gathered(head, cookie)->Err_0;
            let (i, j) = choose|i: int, j: int| #[trigger]
                repeats(head, cookie, i, j) && pair_of(head[j], cookie)->Some_0.0 == name;
            assert(repeats(pieces, cookie, i, j));
            assert(head[j] == pieces[j]);
        } else {
            let map = gathered(head, cookie)->Ok_0;
            assert forall|i: int, name: Seq<char>, value: Seq<char>| #[trigger]
                gives(pieces, cookie, i, name, value) && i < n implies gives(
                head,
                cookie,
                i,
                name,
                value,
            ) by {
                assert(head[i] == pieces[i]);
            }
            assert forall|i: int, name: Seq<char>, value: Seq<char>| #[trigger]
                gives(head, cookie, i, name, value) implies gives(
                pieces,
                cookie,
                i,
                name,
                value,
            ) by {
                assert(head[i] == pieces[i]);
            }
            assert forall|i: int, j: int| #[trigger] repeats(pieces, cookie, i, j) implies j == n by {
                if j < n {
                    assert(head[i] == pieces[i] && head[j] == pieces[j]);
                    assert(repeats(head, cookie, i, j));
                }
            }
            let last = pieces.last();
            assert(pieces[n] == last);
            match pair_of(last, cookie) {
                None => {
                    assert forall|i: int, j: int| !#[trigger] repeats(pieces, cookie, i, j) by {}
                    assert forall|name: Seq<char>| #[trigger] map.contains_key(name) implies exists|
                        i: int,
                    | #[trigger]
                        gives(pieces, cookie, i, name, map[name]) by {
                        let i = choose|i: int| #[trigger] gives(head, cookie, i, name, map[name]);
                        assert(gives(pieces, cookie, i, name, map[name]));
                    }
                },
                Some((name, value)) => {
                    if map.contains_key(name) {
                        let i = choose|i: int| #[trigger] gives(head, cookie, i, name, map[name]);
                        assert(gives(pieces, cookie, i, name, map[name]));
                        assert(repeats(pieces, cookie, i, n));
                    } else {
                        let next = map.insert(name, value);
                        assert(gives(pieces, cookie, n, name, value));
                        assert forall|i: int, j: int| !#[trigger] repeats(pieces, cookie, i, j) by {
                            if repeats(pieces, cookie, i, j) {
                                let pair = pair_of(pieces[i], cookie)->Some_0;
                                assert(gives(pieces, cookie, i, pair.0, pair.1));
                            }
                        }
                        assert forall|k: Seq<char>| #[trigger] next.contains_key(k) implies exists|
                            i: int,
                        | #[trigger]
                            gives(pieces, cookie, i, k, next[k]) by {
                            if k == name {
                                assert(gives(pieces, cookie, n, k, next[k]));
                            } else {
                                assert(map.contains_key(k));
                                let i = choose|i: int| #[trigger]
                                    gives(head, cookie, i, k, map[k]);
                                assert(gives(pieces, cookie, i, k, next[k]));
                            }
                        }
                        assert forall|i: int, k: Seq<char>, v: Seq<char>| #[trigger]
                            gives(pieces, cookie, i, k, v) implies next.contains_key(k) && next[k]
                            == v by {
                            if i < n {
                                assert(gives(head, cookie, i, k, v));
                            }
                        }
                    }
                },
            }
        }
    }
}

/// When a credential string is refused, and for what. One of more than 8192 bytes is too
/// long, whatever it holds; a shorter one is refused for a carriage return, a line feed
/// or a nought anywhere in it; a clean one only for a name that comes twice.
pub proof fn law_when_a_credential_string_is_refused(
    raw: Seq<char>,
    sep: char,
    cookie: bool,
    place: Seq<char>,
    r: Result<TextMap<String>, CredentialParseError>,
)
    requires
        is_parse(raw, sep, cookie, place, r),
    ensures
        ({
            let unclean = exists|i: int|
                0 <= i < raw.len() && (#[trigger] raw[i] as u32 == 13 || raw[i] as u32 == 10
                    || raw[i] as u32 == 0);
            let long = text::byte_len(raw) > 8192;
            let twice = exists|i: int, j: int| #[trigger]
                repeats(text::split(raw, sep), cookie, i, j);
            &&& long <==> (r matches Err(CredentialParseError::TooLong { .. }))
            &&& !long && unclean <==> (r matches Err(CredentialParseError::ControlCharacter { .. }))
            &&& !long && !unclean && twice <==> (r matches Err(
                CredentialParseError::Duplicate { .. },
            ))
            &&& !long && !unclean && !twice <==> r is Ok
        }),
        r matches Err(CredentialParseError::TooLong { location, len, max }) ==> location@ == place
            && len == text::byte_len(raw) && max == 8192,
        r matches Err(CredentialParseError::ControlCharacter { location }) ==> location@ == place,
        r matches Err(CredentialParseError::Duplicate { location, name }) ==> location@ == place
            && exists|i: int, j: int| #[trigger]
            repeats(text::split(raw, sep), cookie, i, j) && pair_of(
                text::split(raw, sep)[j],
                cookie,
            )->Some_0.0 == name@,
        r matches Ok(map) ==> forall|i: int, name: Seq<char>, value: Seq<char>| #[trigger]
            gives(text::split(raw, sep), cookie, i, name, value) ==> map.texts().contains_key(name)
                && map.texts()[name] == value,
        r matches Ok(map) ==> forall|name: Seq<char>| #[trigger]
            map.texts().contains_key(name) ==> exists|i: int| #[trigger]
                gives(text::split(raw, sep), cookie, i, name, map.texts()[name]),
{
    let pieces = text::split(raw, sep);
    law_what_is_gathered_is_what_the_pieces_give(pieces, cookie);
    if r is Ok {
        let map = r->Ok_0.texts();
        assert forall|name: Seq<char>| #[trigger] map.contains_key(name) implies exists|i: int|
            #[trigger] gives(pieces, cookie, i, name, map[name]) by {
            assert(gathered(pieces, cookie)->Ok_0.contains_key(name));
        }
    }
    if has_control(raw) {
        let c = if raw.contains('\r') {
            '\r'
        } else if raw.contains('\n') {
            '\n'
        } else {
            '\0'
        };
        let i = choose|i: int| 0 <= i < raw.len() && raw[i] == c;
        assert(raw[i] as u32 == 13 || raw[i] as u32 == 10 || raw[i] as u32 == 0);
    }
    if exists|i: int|
        0 <= i < raw.len() && (#[trigger] raw[i] as u32 == 13 || raw[i] as u32 == 10 || raw[i] as u32
            == 0) {
        let i = choose|i: int|
            0 <= i < raw.len() && (#[trigger] raw[i] as u32 == 13 || raw[i] as u32 == 10
                || raw[i] as u32 == 0);
        lemma_control_by_number(raw[i]);
        assert(raw.contains(raw[i]));
    }
}

/// The three characters by their numbers.
proof fn lemma_control_by_number(c: char)
    ensures
        c as u32 == 13 <==> c == '\r',
        c as u32 == 10 <==> c == '\n',
        c as u32 == 0 <==> c == '\0',
{
}

/// What is said of a credential string names the place it came from, and what is wrong: how
/// long it is and may be, or which name comes twice, but no value.
pub proof fn law_what_is_said_of_a_credential_string(
    location: &'static str,
    len: usize,
    max: usize,
    name: String,
)
    ensures
        credential_message(CredentialParseError::TooLong { location, len, max }) == location@
            + " input is "@ + text::decimal(len as nat) + " bytes, exceeding the "@
            + text::decimal(max as nat) + "-byte limit"@,
        credential_message(CredentialParseError::ControlCharacter { location }) == location@
            + " input contains a control character"@,
        credential_message(CredentialParseError::Duplicate { location, name }) == "duplicate "@
            + location@ + " name '"@ + name@ + "'"@,
{
}

} // verus!
