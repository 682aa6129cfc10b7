//! The HTTP exchange that a request is part of.
use crate::text;
use crate::value::TextMap;
use vstd::prelude::*;

verus! {

/// HTTP-related extensions.
///
/// Carries request and response headers separately. On the request half the
/// response headers are empty and the status is unset.
#[derive(Debug)]
pub struct HttpExtension {
    /// HTTP request headers (inbound from caller).
    pub request_headers: TextMap<String>,
    /// HTTP response headers (from upstream).
    pub response_headers: TextMap<String>,
    /// HTTP response status the upstream returned.
    pub status: Option<u16>,
    /// HTTP request method.
    pub method: Option<String>,
    /// HTTP request path.
    pub path: Option<String>,
    /// HTTP request authority, from a validated source.
    pub host: Option<String>,
    /// HTTP request scheme.
    pub scheme: Option<String>,
}

/// Which keys are `name`, the case of letters aside.
pub open spec fn named_at(order: Seq<Seq<char>>, name: Seq<char>) -> spec_fn(int) -> bool {
    |i: int| text::lowercased(order[i]) == text::lowercased(name)
}

/// The place of the first key that is `name`, the case of letters aside, or
/// the number of keys.
pub open spec fn header_index(order: Seq<Seq<char>>, name: Seq<char>) -> int {
    text::first_where(named_at(order, name), order.len() as int)
}

/// Whether a header `name` is there, the case of letters aside.
pub open spec fn has_name(headers: TextMap<String>, name: Seq<char>) -> bool {
    header_index(headers.order(), name) < headers.order().len()
}

/// The value of the first header `name`, the case of letters aside.
pub open spec fn value_of(headers: TextMap<String>, name: Seq<char>) -> Seq<char> {
    headers.texts()[headers.order()[header_index(headers.order(), name)]]
}

/// The place of the first key that is `name`.
fn index_ci(headers: &TextMap<String>, name: &str) -> (r: usize)
    ensures
        r == header_index(headers.order(), name@),
        r <= headers.order().len(),
{
    let lower = text::lowercase(name);
    let n = headers.len();
    let mut i: usize = 0;
    let ghost order = headers.order();
    while i < n
        invariant
            i <= n,
            order == headers.order(),
            n == order.len(),
            lower@ == text::lowercased(name@),
            forall|j: int| 0 <= j < i ==> !#[trigger] named_at(order, name@)(j),
        decreases n - i,
    {
        let (key, _) = headers.entry(i);
        if text::same(text::lowercase(key.as_str()).as_str(), lower.as_str()) {
            proof {
                assert(named_at(order, name@)(i as int));
                text::lemma_first_from(named_at(order, name@), 0, n as int, i as int);
            }
            return i;
        }
        i += 1;
    }
    proof {
        text::lemma_first_from(named_at(order, name@), 0, n as int, n as int);
    }
    n
}

/// The value of a header, the case of its name aside.
fn get_header_ci<'a>(headers: &'a TextMap<String>, name: &str) -> (r: Option<&'a str>)
    ensures
        r is Some <==> has_name(*headers, name@),
        r is Some ==> r->Some_0@ == value_of(*headers, name@),
{
    let i = index_ci(headers, name);
    if i < headers.len() {
        Some(headers.entry(i).1.as_str())
    } else {
        None
    }
}

/// Takes a header away, the case of its name aside.
fn remove_header_ci(headers: &mut TextMap<String>, name: &str) -> (r: Option<String>)
    ensures
        r is Some <==> has_name(*old(headers), name@),
        r is Some ==> r->Some_0@ == value_of(*old(headers), name@),
        final(headers).texts() == (if has_name(*old(headers), name@) {
            old(headers).texts().remove(
                old(headers).order()[header_index(old(headers).order(), name@)],
            )
        } else {
            old(headers).texts()
        }),
        final(headers).order() == (if has_name(*old(headers), name@) {
            old(headers).order().remove(header_index(old(headers).order(), name@))
        } else {
            old(headers).order()
        }),
{
    let i = index_ci(headers, name);
    if i < headers.len() {
        let key = headers.entry(i).0.clone();
        let ghost was = headers.texts();
        let ghost order = headers.order();
        let removed = headers.remove(key.as_str());
        proof {
            assert(headers.texts() =~= was.remove(key@));
            let k = choose|k: int|
                0 <= k < order.len() && #[trigger] order[k] == key@ && headers.order()
                    == order.remove(k);
            assert(order[k] == order[i as int]);
        }
        removed
    } else {
        None
    }
}

impl HttpExtension {
    /// Whether everything but the headers is as in `other`.
    pub open spec fn same_line(&self, other: HttpExtension) -> bool {
        &&& self.status == other.status
        &&& self.method == other.method
        &&& self.path == other.path
        &&& self.host == other.host
        &&& self.scheme == other.scheme
    }

    /// Set a request header (overwrites if exists).
    pub fn set_request_header(&mut self, name: &str, value: &str)
        ensures
            final(self).request_headers.texts() == old(self).request_headers.texts().insert(
                name@,
                value@,
            ),
            final(self).request_headers.order() == (if old(self).request_headers@.contains_key(
                name@,
            ) {
                old(self).request_headers.order()
            } else {
                old(self).request_headers.order().push(name@)
            }),
            final(self).response_headers == old(self).response_headers,
            final(self).same_line(*old(self)),
    {
        self.request_headers.insert(name.to_owned(), value.to_owned());
        assert(self.request_headers.texts() =~= old(self).request_headers.texts().insert(
            name@,
            value@,
        ));
    }

    /// Get a request header value (case-insensitive lookup).
    pub fn get_request_header(&self, name: &str) -> (r: Option<&str>)
        ensures
            r is Some <==> has_name(self.request_headers, name@),
            r is Some ==> r->Some_0@ == value_of(self.request_headers, name@),
    {
        get_header_ci(&self.request_headers, name)
    }

    /// Check if a request header exists (case-insensitive).
    pub fn has_request_header(&self, name: &str) -> (r: bool)
        ensures
            r == has_name(self.request_headers, name@),
    {
        self.get_request_header(name).is_some()
    }

    /// Add request header only if it doesn't exist. Returns true if added.
    pub fn add_request_header(&mut self, name: &str, value: &str) -> (r: bool)
        ensures
            r == !has_name(old(self).request_headers, name@),
            final(self).request_headers.texts() == (if r {
                old(self).request_headers.texts().insert(name@, value@)
            } else {
                old(self).request_headers.texts()
            }),
            final(self).request_headers.order() == (if r {
                old(self).request_headers.order().push(name@)
            } else {
                old(self).request_headers.order()
            }),
            final(self).response_headers == old(self).response_headers,
            final(self).same_line(*old(self)),
    {
        let i = index_ci(&self.request_headers, name);
        if i < self.request_headers.len() {
            return false;
        }
        proof {
            let order = self.request_headers.order();
            if self.request_headers@.contains_key(name@) {
                assert(order.contains(name@));
                let k = choose|k: int| 0 <= k < order.len() && order[k] == name@;
                assert(named_at(order, name@)(k));
                text::lemma_first_from_is(named_at(order, name@), 0, order.len() as int);
            }
        }
        self.set_request_header(name, value);
        true
    }

    /// Remove a request header by name. Returns the removed value.
    pub fn remove_request_header(&mut self, name: &str) -> (r: Option<String>)
        ensures
            r is Some <==> has_name(old(self).request_headers, name@),
            r is Some ==> r->Some_0@ == value_of(old(self).request_headers, name@),
            final(self).request_headers.texts() == (if has_name(old(self).request_headers, name@) {
                old(self).request_headers.texts().remove(
                    old(self).request_headers.order()[header_index(
                        old(self).request_headers.order(),
                        name@,
                    )],
                )
            } else {
                old(self).request_headers.texts()
            }),
            final(self).request_headers.order() == (if has_name(old(self).request_headers, name@) {
                old(self).request_headers.order().remove(
                    header_index(old(self).request_headers.order(), name@),
                )
            } else {
                old(self).request_headers.order()
            }),
            final(self).response_headers == old(self).response_headers,
            final(self).same_line(*old(self)),
    {
        remove_header_ci(&mut self.request_headers, name)
    }

    /// Set a response header (overwrites if exists).
    pub fn set_response_header(&mut self, name: &str, value: &str)
        ensures
            final(self).response_headers.texts() == old(self).response_headers.texts().insert(
                name@,
                value@,
            ),
            final(self).response_headers.order() == (if old(self).response_headers@.contains_key(
                name@,
            ) {
                old(self).response_headers.order()
            } else {
                old(self).response_headers.order().push(name@)
            }),
            final(self).request_headers == old(self).request_headers,
            final(self).same_line(*old(self)),
    {
        self.response_headers.insert(name.to_owned(), value.to_owned());
        assert(self.response_headers.texts() =~= old(self).response_headers.texts().insert(
            name@,
            value@,
        ));
    }

    /// Get a response header value (case-insensitive lookup).
    pub fn get_response_header(&self, name: &str) -> (r: Option<&str>)
        ensures
            r is Some <==> has_name(self.response_headers, name@),
            r is Some ==> r->Some_0@ == value_of(self.response_headers, name@),
    {
        get_header_ci(&self.response_headers, name)
    }

    /// Check if a response header exists (case-insensitive).
    pub fn has_response_header(&self, name: &str) -> (r: bool)
        ensures
            r == has_name(self.response_headers, name@),
    {
        self.get_response_header(name).is_some()
    }

    /// Set a header on request headers (convenience alias).
    pub fn set_header(&mut self, name: &str, value: &str)
        ensures
            final(self).request_headers.texts() == old(self).request_headers.texts().insert(
                name@,
                value@,
            ),
            final(self).request_headers.order() == (if old(self).request_headers@.contains_key(
                name@,
            ) {
                old(self).request_headers.order()
            } else {
                old(self).request_headers.order().push(name@)
            }),
            final(self).response_headers == old(self).response_headers,
            final(self).same_line(*old(self)),
    {
        self.set_request_header(name, value);
    }

    /// Get a header from request headers (convenience alias, case-insensitive).
    pub fn get_header(&self, name: &str) -> (r: Option<&str>)
        ensures
            r is Some <==> has_name(self.request_headers, name@),
            r is Some ==> r->Some_0@ == value_of(self.request_headers, name@),
    {
        self.get_request_header(name)
    }

    /// Check if a request header exists (convenience alias).
    pub fn has_header(&self, name: &str) -> (r: bool)
        ensures
            r == has_name(self.request_headers, name@),
    {
        self.has_request_header(name)
    }
}

impl Default for HttpExtension {
    fn default() -> (r: Self)
        ensures
            r.request_headers.order() == Seq::<Seq<char>>::empty(),
            r.response_headers.order() == Seq::<Seq<char>>::empty(),
            r.request_headers@.dom() == Set::<Seq<char>>::empty(),
            r.response_headers@.dom() == Set::<Seq<char>>::empty(),
            r.status is None,
            r.method is None,
            r.path is None,
            r.host is None,
            r.scheme is None,
    {
        let r = HttpExtension {
            request_headers: TextMap::new(),
            response_headers: TextMap::new(),
            status: None,
            method: None,
            path: None,
            host: None,
            scheme: None,
        };
        assert(r.request_headers@.dom() =~= Set::<Seq<char>>::empty());
        assert(r.response_headers@.dom() =~= Set::<Seq<char>>::empty());
        r
    }
}

/// A header is found alike under every spelling of its name.
pub proof fn law_lookup_ignores_case(headers: TextMap<String>, a: Seq<char>, b: Seq<char>)
    requires
        text::lowercased(a) == text::lowercased(b),
    ensures
        has_name(headers, a) == has_name(headers, b),
        value_of(headers, a) == value_of(headers, b),
{
    let order = headers.order();
    let n = order.len() as int;
    text::lemma_first_from_is(named_at(order, a), 0, n);
    let k = header_index(order, a);
    assert forall|j: int| 0 <= j < k implies !#[trigger] named_at(order, b)(j) by {
        assert(!named_at(order, a)(j));
    }
    if k < n {
        assert(named_at(order, a)(k));
        assert(named_at(order, b)(k));
    }
    text::lemma_first_from(named_at(order, b), 0, n, k);
}

/// What was set under a name is read back under every spelling of it, where no
/// header of another spelling was there before.
pub proof fn law_what_was_set_is_read_back(
    before: TextMap<String>,
    after: TextMap<String>,
    name: Seq<char>,
    value: Seq<char>,
    asked: Seq<char>,
)
    requires
        after.texts() == before.texts().insert(name, value),
        after.order() == (if before@.contains_key(name) {
            before.order()
        } else {
            before.order().push(name)
        }),
        before@.contains_key(name) ==> before.order().contains(name),
        forall|i: int|
            0 <= i < before.order().len() ==> (#[trigger] before.order()[i] == name || text::lowercased(
                before.order()[i],
            ) != text::lowercased(name)),
        text::lowercased(asked) == text::lowercased(name),
    ensures
        has_name(after, asked),
        value_of(after, asked) == value,
{
    let order = after.order();
    let n = order.len() as int;
    let p = named_at(order, asked);
    text::lemma_first_from_is(p, 0, n);
    let k = header_index(order, asked);
    let w = if before@.contains_key(name) {
        choose|w: int| 0 <= w < before.order().len() && before.order()[w] == name
    } else {
        n - 1
    };
    assert(p(w));
    assert(k < n);
    assert(p(k));
    if k < before.order().len() {
        assert(order[k] == before.order()[k]);
    }
    assert(order[k] == name);
}

/// A header is there exactly where a name of one is the same in lower case; its value is
/// that of the first such name.
pub proof fn law_the_first_header_of_a_name_is_read(headers: TextMap<String>, name: Seq<char>)
    ensures
        has_name(headers, name) <==> exists|i: int|
            0 <= i < headers.order().len() && text::lowercased(#[trigger] headers.order()[i])
                == text::lowercased(name),
        has_name(headers, name) ==> exists|i: int|
            0 <= i < headers.order().len() && text::lowercased(#[trigger] headers.order()[i])
                == text::lowercased(name) && value_of(headers, name)
                == headers.texts()[headers.order()[i]] && forall|j: int|
                0 <= j < i ==> text::lowercased(#[trigger] headers.order()[j]) != text::lowercased(
                    name,
                ),
{
    let order = headers.order();
    let p = named_at(order, name);
    let n = order.len() as int;
    text::lemma_first_from_is(p, 0, n);
    let at = header_index(order, name);
    assert forall|j: int| 0 <= j < at implies text::lowercased(#[trigger] order[j])
        != text::lowercased(name) by {
        assert(!p(j));
    }
    if at < n {
        assert(p(at));
        assert(text::lowercased(order[at]) == text::lowercased(name));
    }
}

/// What is the same but for the headers is the same in the status, the method, the path,
/// the host and the scheme.
pub proof fn law_the_line_is_all_but_the_headers(a: HttpExtension, b: HttpExtension)
    requires
        a.same_line(b),
    ensures
        a.status == b.status,
        a.method == b.method,
        a.path == b.path,
        a.host == b.host,
        a.scheme == b.scheme,
{
}

} // verus!
