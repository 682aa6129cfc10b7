//! Maps a record onto the typed identity slots.
use crate::extensions::security::{ClientExtension, SubjectExtension, WorkloadIdentity};
use crate::text;
use crate::value::{Json, TextMap};
use vstd::prelude::*;

pub mod claim_path;
pub use crate::identity::mapping::claim_path::ClaimPath;

verus! {

/// Convert a record's fields into the typed identity slot for the resolver's
/// configured role. Each method defaults to `None`: a role that the mapper does
/// not know.
pub trait ClaimMapper {
    /// Map a record into a `SubjectExtension`, for users.
    fn map_subject(&self, claims: &TextMap<Json>) -> (r: Option<SubjectExtension>)
        default_ensures
            r is None,
    {
        None
    }

    /// Map a record into a `ClientExtension`, for clients.
    fn map_client(&self, claims: &TextMap<Json>) -> (r: Option<ClientExtension>)
        default_ensures
            r is None,
    {
        None
    }

    /// Map a record into a `WorkloadIdentity`, for calling workloads.
    fn map_workload(&self, claims: &TextMap<Json>) -> (r: Option<WorkloadIdentity>)
        default_ensures
            r is None,
    {
        None
    }
}

/// Every SPIFFE ID starts here.
pub const SPIFFE_SCHEME: &'static str = "spiffe://";

/// What stands between the scheme of a SPIFFE ID and the first `/` behind it,
/// where there is a scheme and something stands there.
pub open spec fn trust_domain(id: Seq<char>) -> Option<Seq<char>> {
    let scheme = SPIFFE_SCHEME@;
    if id.len() >= scheme.len() && id.take(scheme.len() as int) == scheme {
        let domain = text::before(id.skip(scheme.len() as int), '/');
        if domain.len() == 0 {
            None
        } else {
            Some(domain)
        }
    } else {
        None
    }
}

/// Whether a string is usable as a SPIFFE ID: it names a trust domain.
pub fn is_spiffe_id(text: &str) -> (r: bool)
    ensures
        r == (trust_domain(text@) is Some),
{
    trust_domain_of(text).is_some()
}

/// The trust domain is the SPIFFE URI's authority. `None` when it is absent,
/// which makes the string unusable as an identity.
pub fn trust_domain_of(spiffe_id: &str) -> (r: Option<String>)
    ensures
        match r {
            Some(d) => trust_domain(spiffe_id@) == Some(d@),
            None => trust_domain(spiffe_id@) is None,
        },
{
    let v = text::chars_of(spiffe_id);
    let scheme = text::chars_of(SPIFFE_SCHEME);
    if v.len() < scheme.len() {
        return None;
    }
    let mut i: usize = 0;
    while i < scheme.len()
        invariant
            i <= scheme@.len() <= v@.len(),
            v@ == spiffe_id@,
            scheme@ == SPIFFE_SCHEME@,
            v@.take(i as int) == scheme@.take(i as int),
        decreases scheme@.len() - i,
    {
        if v[i] != scheme[i] {
            proof {
                assert(v@.take(scheme@.len() as int)[i as int] != scheme@[i as int]);
                assert(v@.take(scheme@.len() as int) != scheme@);
            }
            return None;
        }
        assert(v@.take(i + 1) =~= v@.take(i as int).push(v@[i as int]));
        assert(scheme@.take(i + 1) =~= scheme@.take(i as int).push(scheme@[i as int]));
        i += 1;
    }
    assert(scheme@.take(i as int) =~= scheme@);
    let end = text::find(&v, '/', i, v.len());
    let ghost rest = v@.skip(i as int);
    proof {
        assert(v@.subrange(i as int, v@.len() as int) =~= rest);
        assert(v@.subrange(i as int, end as int) =~= text::before(rest, '/'));
    }
    if end == i {
        None
    } else {
        Some(text::string_of(&v, i, end))
    }
}

/// A SPIFFE ID is exactly its scheme, its trust domain and a path: what follows
/// the domain starts with `/` or is empty, and the domain holds no `/`.
pub proof fn law_a_spiffe_id_is_scheme_domain_and_path(id: Seq<char>)
    requires
        trust_domain(id) is Some,
    ensures
        ({
            let domain = trust_domain(id)->Some_0;
            let path = id.skip((SPIFFE_SCHEME@.len() + domain.len()) as int);
            &&& id == SPIFFE_SCHEME@ + domain + path
            &&& domain.len() > 0
            &&& !domain.contains('/')
            &&& path.len() == 0 || path[0] == '/'
        }),
{
    let scheme = SPIFFE_SCHEME@;
    let rest = id.skip(scheme.len() as int);
    text::lemma_first_index_is(rest, '/');
    let domain = trust_domain(id)->Some_0;
    let path = id.skip((scheme.len() + domain.len()) as int);
    assert(id =~= scheme + domain + path) by {
        assert(scheme == id.take(scheme.len() as int));
        assert(domain =~= rest.take(domain.len() as int));
    }
}

/// What makes a SPIFFE ID: the scheme, a domain of at least one character and no slash,
/// and then nothing or a path. The domain is what it names.
pub proof fn law_a_domain_behind_the_scheme_is_named(domain: Seq<char>, path: Seq<char>)
    requires
        domain.len() > 0,
        !domain.contains('/'),
        path.len() == 0 || path[0] == '/',
    ensures
        trust_domain("spiffe://"@ + domain + path) == Some(domain),
{
    let id = "spiffe://"@ + domain + path;
    let n = "spiffe://"@.len() as int;
    let rest = id.skip(n);
    assert(id.take(n) =~= "spiffe://"@);
    assert(rest =~= domain + path);
    assert forall|j: int| 0 <= j < domain.len() implies rest[j] != '/' by {
        assert(rest[j] == domain[j]);
    }
    if path.len() > 0 {
        assert(rest[domain.len() as int] == path[0]);
    }
    text::lemma_first_index(rest, '/', domain.len() as int);
    assert(text::before(rest, '/') =~= domain);
}

/// What is no SPIFFE ID: a text that does not begin with the scheme, in these very
/// letters, and one that has nothing between the scheme and the first slash behind it.
pub proof fn law_without_scheme_or_domain_nothing_is_named(id: Seq<char>, rest: Seq<char>)
    ensures
        !"spiffe://"@.is_prefix_of(id) ==> trust_domain(id) is None,
        trust_domain("spiffe://"@) is None,
        trust_domain("spiffe://"@ + (seq!['/'] + rest)) is None,
{
    let scheme = "spiffe://"@;
    let n = scheme.len() as int;
    if id.len() >= n && id.take(n) == scheme {
        assert(scheme.is_prefix_of(id));
    }
    assert(scheme.skip(n) =~= Seq::<char>::empty());
    let slashed = scheme + (seq!['/'] + rest);
    assert(slashed.skip(n) =~= seq!['/'] + rest);
    assert(slashed.skip(n)[0] == '/');
    text::lemma_first_index(slashed.skip(n), '/', 0);
    text::lemma_first_index_is(Seq::<char>::empty(), '/');
}

} // verus!
