//! The state that is threaded through the identity-resolve chain.
//!
//! Inputs are private: set once by the host, read through accessors, out of
//! reach of handlers. Outputs are public: handlers fill them on a clone and hand
//! it on.
use crate::extensions::container::{DelegationExtension, Extensions};
use crate::extensions::raw_credentials;
use crate::extensions::raw_credentials::{CredentialsView, RawCredentialsExtension, SecretText};
use crate::extensions::security;
use crate::extensions::security::{
    ClientExtension, ClientView, SecurityExtension, SecurityView, SubjectExtension, SubjectView,
    Timestamp, WorkloadIdentity, WorkloadView,
};
use crate::value;
use crate::value::{Json, TextMap, Tree};
use std::sync::Arc;
use vstd::prelude::*;

verus! {

/// Where the raw credential was extracted from.
#[non_exhaustive]
#[derive(Debug, PartialEq, Eq, Hash)]
pub enum TokenSource {
    /// `Authorization: Bearer` style.
    Bearer,
    /// A user-identity header beside a separate gateway-access token.
    UserToken,
    /// The peer's certificate chain.
    Mtls,
    /// SPIFFE JWT-SVID.
    SpiffeJwtSvid,
    /// API key in a header or query parameter.
    ApiKey,
    /// Operator-defined extraction path.
    Custom(String),
}

/// What a [`TokenSource`] is.
pub enum SourceView {
    /// Bearer token.
    Bearer,
    /// User token.
    UserToken,
    /// Certificate chain.
    Mtls,
    /// JWT-SVID.
    SpiffeJwtSvid,
    /// API key.
    ApiKey,
    /// Operator-defined.
    Custom(Seq<char>),
}

impl View for TokenSource {
    type V = SourceView;

    open spec fn view(&self) -> SourceView {
        match self {
            TokenSource::Bearer => SourceView::Bearer,
            TokenSource::UserToken => SourceView::UserToken,
            TokenSource::Mtls => SourceView::Mtls,
            TokenSource::SpiffeJwtSvid => SourceView::SpiffeJwtSvid,
            TokenSource::ApiKey => SourceView::ApiKey,
            TokenSource::Custom(s) => SourceView::Custom(s@),
        }
    }
}

impl Clone for TokenSource {
    fn clone(&self) -> (r: Self)
        ensures
            r@ == self@,
    {
        match self {
            TokenSource::Bearer => TokenSource::Bearer,
            TokenSource::UserToken => TokenSource::UserToken,
            TokenSource::Mtls => TokenSource::Mtls,
            TokenSource::SpiffeJwtSvid => TokenSource::SpiffeJwtSvid,
            TokenSource::ApiKey => TokenSource::ApiKey,
            TokenSource::Custom(s) => TokenSource::Custom(s.clone()),
        }
    }
}

impl Default for TokenSource {
    fn default() -> (r: Self)
        ensures
            r == TokenSource::Bearer,
    {
        TokenSource::Bearer
    }
}

/// State threaded through the identity-resolve chain.
pub struct IdentityPayload {
    raw_token: SecretText,
    source: TokenSource,
    source_header: Option<String>,
    headers: TextMap<String>,
    raw_query_string: Option<String>,
    client_host: Option<String>,
    client_port: Option<u16>,
    /// Resolved user identity.
    pub subject: Option<SubjectExtension>,
    /// Resolved OAuth client.
    pub client: Option<ClientExtension>,
    /// Resolved workload identity of the inbound peer.
    pub caller_workload: Option<WorkloadIdentity>,
    /// Initial delegation chain.
    pub delegation: Option<DelegationExtension>,
    /// Raw inbound tokens.
    pub raw_credentials: Option<RawCredentialsExtension>,
    /// When the identity was resolved.
    pub resolved_at: Option<Timestamp>,
    /// Raw decoded token claims.
    pub raw_claims: TextMap<Json>,
}

/// What a host hands to the chain.
#[verifier::ext_equal]
pub struct IdentityInputs {
    /// The raw credential.
    pub raw_token: Seq<char>,
    /// Where it was extracted from.
    pub source: SourceView,
    /// The header it came in.
    pub source_header: Option<Seq<char>>,
    /// The request's headers.
    pub headers: Map<Seq<char>, Seq<char>>,
    /// The raw query string.
    pub raw_query_string: Option<Seq<char>>,
    /// The client's host.
    pub client_host: Option<Seq<char>>,
    /// The client's port.
    pub client_port: Option<u16>,
}

/// What the chain has resolved.
#[verifier::ext_equal]
pub struct IdentityOutputs {
    /// User identity.
    pub subject: Option<SubjectView>,
    /// OAuth client.
    pub client: Option<ClientView>,
    /// Workload identity.
    pub caller_workload: Option<WorkloadView>,
    /// Delegation chain.
    pub delegation: Option<Seq<Seq<char>>>,
    /// Raw inbound tokens.
    pub raw_credentials: Option<CredentialsView>,
    /// When.
    pub resolved_at: Option<Timestamp>,
    /// Claims.
    pub raw_claims: Map<Seq<char>, Tree>,
}

/// The view of `o`, where there is one.
pub open spec fn opt_delegation(o: Option<DelegationExtension>) -> Option<Seq<Seq<char>>> {
    match o {
        Some(d) => Some(d@),
        None => None,
    }
}

/// The view of `o`, where there is one.
pub open spec fn opt_credentials(o: Option<RawCredentialsExtension>) -> Option<CredentialsView> {
    match o {
        Some(c) => Some(c@),
        None => None,
    }
}

/// Nothing resolved.
pub open spec fn nothing_resolved() -> IdentityOutputs {
    IdentityOutputs {
        subject: None,
        client: None,
        caller_workload: None,
        delegation: None,
        raw_credentials: None,
        resolved_at: None,
        raw_claims: Map::empty(),
    }
}

/// `over` where it holds something, else `under`.
pub open spec fn overlaid<T>(under: Option<T>, over: Option<T>) -> Option<T> {
    if over is Some {
        over
    } else {
        under
    }
}

/// What is resolved once `over` is layered onto `under`: slot by slot, what was
/// written last.
pub open spec fn layered(under: IdentityOutputs, over: IdentityOutputs) -> IdentityOutputs {
    IdentityOutputs {
        subject: overlaid(under.subject, over.subject),
        client: overlaid(under.client, over.client),
        caller_workload: overlaid(under.caller_workload, over.caller_workload),
        delegation: overlaid(under.delegation, over.delegation),
        raw_credentials: overlaid(under.raw_credentials, over.raw_credentials),
        resolved_at: overlaid(under.resolved_at, over.resolved_at),
        raw_claims: under.raw_claims.union_prefer_right(over.raw_claims),
    }
}

/// What stands in diagnostics in the place of a secret.
pub const REDACTED: &'static str = "<redacted>";

/// What diagnostics may show of an [`IdentityPayload`]: all of it but for the
/// credential and the query string, either of which can carry a live token.
#[derive(Debug)]
pub struct IdentityDiagnostics<'a> {
    /// The mark of a secret.
    pub raw_token: &'static str,
    /// Where the credential was extracted from.
    pub source: &'a TokenSource,
    /// The header it came in.
    pub source_header: &'a Option<String>,
    /// The request's headers.
    pub headers: &'a TextMap<String>,
    /// The mark of a secret, where there is a query string.
    pub raw_query_string: Option<&'static str>,
    /// The client's host.
    pub client_host: &'a Option<String>,
    /// The client's port.
    pub client_port: Option<u16>,
    /// User identity.
    pub subject: &'a Option<SubjectExtension>,
    /// OAuth client.
    pub client: &'a Option<ClientExtension>,
    /// Workload identity.
    pub caller_workload: &'a Option<WorkloadIdentity>,
    /// Delegation chain.
    pub delegation: &'a Option<DelegationExtension>,
    /// Raw inbound tokens.
    pub raw_credentials: &'a Option<RawCredentialsExtension>,
    /// When the identity was resolved.
    pub resolved_at: Option<Timestamp>,
    /// Claims.
    pub raw_claims: &'a TextMap<Json>,
}

impl IdentityPayload {
    /// What the host handed in.
    pub closed spec fn inputs(&self) -> IdentityInputs {
        IdentityInputs {
            raw_token: self.raw_token@,
            source: self.source@,
            source_header: value::opt_text(self.source_header),
            headers: self.headers.texts(),
            raw_query_string: value::opt_text(self.raw_query_string),
            client_host: value::opt_text(self.client_host),
            client_port: self.client_port,
        }
    }

    /// What the chain has resolved.
    pub closed spec fn outputs(&self) -> IdentityOutputs {
        IdentityOutputs {
            subject: security::opt_subject(self.subject),
            client: security::opt_client(self.client),
            caller_workload: security::opt_workload(self.caller_workload),
            delegation: opt_delegation(self.delegation),
            raw_credentials: opt_credentials(self.raw_credentials),
            resolved_at: self.resolved_at,
            raw_claims: self.raw_claims.trees(),
        }
    }

    /// What diagnostics may show.
    pub closed spec fn shown(&self) -> IdentityDiagnostics<'_> {
        IdentityDiagnostics {
            raw_token: REDACTED,
            source: &self.source,
            source_header: &self.source_header,
            headers: &self.headers,
            raw_query_string: match self.raw_query_string {
                Some(_) => Some(REDACTED),
                None => None,
            },
            client_host: &self.client_host,
            client_port: self.client_port,
            subject: &self.subject,
            client: &self.client,
            caller_workload: &self.caller_workload,
            delegation: &self.delegation,
            raw_credentials: &self.raw_credentials,
            resolved_at: self.resolved_at,
            raw_claims: &self.raw_claims,
        }
    }

    /// Whether `other` is this payload but for what its credential and its
    /// query string hold: where one has a query string, so has the other.
    pub closed spec fn same_but_for_secrets(&self, other: IdentityPayload) -> bool {
        &&& other == (IdentityPayload {
            raw_token: other.raw_token,
            raw_query_string: other.raw_query_string,
            ..*self
        })
        &&& (self.raw_query_string is Some) == (other.raw_query_string is Some)
    }

    /// Construct a payload with the required input fields populated. Nothing is
    /// resolved yet.
    pub fn new(raw_token: &str, source: TokenSource) -> (r: Self)
        ensures
            r.inputs() == (IdentityInputs {
                raw_token: raw_token@,
                source: source@,
                source_header: None,
                headers: Map::empty(),
                raw_query_string: None,
                client_host: None,
                client_port: None,
            }),
            r.outputs() == nothing_resolved(),
    {
        let r = IdentityPayload {
            raw_token: SecretText::new(raw_token),
            source,
            source_header: None,
            headers: TextMap::new(),
            raw_query_string: None,
            client_host: None,
            client_port: None,
            subject: None,
            client: None,
            caller_workload: None,
            delegation: None,
            raw_credentials: None,
            resolved_at: None,
            raw_claims: TextMap::new(),
        };
        assert(r.inputs().headers =~= Map::<Seq<char>, Seq<char>>::empty());
        assert(r.outputs().raw_claims =~= Map::<Seq<char>, Tree>::empty());
        r
    }

    /// Set the header the token came from.
    pub fn with_source_header(self, h: &str) -> (r: Self)
        ensures
            r.inputs() == (IdentityInputs { source_header: Some(h@), ..self.inputs() }),
            r.outputs() == self.outputs(),
    {
        IdentityPayload { source_header: Some(h.to_owned()), ..self }
    }

    /// Set the inbound headers.
    pub fn with_headers(self, h: TextMap<String>) -> (r: Self)
        ensures
            r.inputs() == (IdentityInputs { headers: h.texts(), ..self.inputs() }),
            r.outputs() == self.outputs(),
    {
        IdentityPayload { headers: h, ..self }
    }

    /// Set the raw query string (without the leading `?`).
    pub fn with_raw_query_string(self, qs: &str) -> (r: Self)
        ensures
            r.inputs() == (IdentityInputs { raw_query_string: Some(qs@), ..self.inputs() }),
            r.outputs() == self.outputs(),
    {
        IdentityPayload { raw_query_string: Some(qs.to_owned()), ..self }
    }

    /// Set the client host.
    pub fn with_client_host(self, h: &str) -> (r: Self)
        ensures
            r.inputs() == (IdentityInputs { client_host: Some(h@), ..self.inputs() }),
            r.outputs() == self.outputs(),
    {
        IdentityPayload { client_host: Some(h.to_owned()), ..self }
    }

    /// Set the client port.
    pub fn with_client_port(self, port: u16) -> (r: Self)
        ensures
            r.inputs() == (IdentityInputs { client_port: Some(port), ..self.inputs() }),
            r.outputs() == self.outputs(),
    {
        IdentityPayload { client_port: Some(port), ..self }
    }

    /// The raw credential.
    pub fn raw_token(&self) -> (r: &str)
        ensures
            r@ == self.inputs().raw_token,
    {
        self.raw_token.expose()
    }

    /// Where the token came from.
    pub fn source(&self) -> (r: &TokenSource)
        ensures
            r@ == self.inputs().source,
    {
        &self.source
    }

    /// The header the token came from.
    pub fn source_header(&self) -> (r: Option<&str>)
        ensures
            value::opt_str(r) == self.inputs().source_header,
    {
        match &self.source_header {
            Some(s) => Some(s.as_str()),
            None => None,
        }
    }

    /// The inbound headers.
    pub fn headers(&self) -> (r: &TextMap<String>)
        ensures
            r.texts() == self.inputs().headers,
    {
        &self.headers
    }

    /// The raw query string (without the leading `?`), when the host supplied
    /// one.
    pub fn raw_query_string(&self) -> (r: Option<&str>)
        ensures
            value::opt_str(r) == self.inputs().raw_query_string,
    {
        match &self.raw_query_string {
            Some(s) => Some(s.as_str()),
            None => None,
        }
    }

    /// The client host.
    pub fn client_host(&self) -> (r: Option<&str>)
        ensures
            value::opt_str(r) == self.inputs().client_host,
    {
        match &self.client_host {
            Some(s) => Some(s.as_str()),
            None => None,
        }
    }

    /// The client port.
    pub fn client_port(&self) -> (r: Option<u16>)
        ensures
            r == self.inputs().client_port,
    {
        self.client_port
    }

    /// What diagnostics may show of this payload.
    pub fn diagnostics(&self) -> (r: IdentityDiagnostics<'_>)
        ensures
            r == self.shown(),
            r.raw_token@ == REDACTED@,
            r.raw_query_string is Some <==> self.inputs().raw_query_string is Some,
            r.raw_query_string matches Some(mark) ==> mark@ == REDACTED@,
            r.source@ == self.inputs().source,
            value::opt_text(*r.source_header) == self.inputs().source_header,
            r.headers.texts() == self.inputs().headers,
            value::opt_text(*r.client_host) == self.inputs().client_host,
            r.client_port == self.inputs().client_port,
            security::opt_subject(*r.subject) == self.outputs().subject,
            security::opt_client(*r.client) == self.outputs().client,
            security::opt_workload(*r.caller_workload) == self.outputs().caller_workload,
            opt_delegation(*r.delegation) == self.outputs().delegation,
            opt_credentials(*r.raw_credentials) == self.outputs().raw_credentials,
            r.resolved_at == self.outputs().resolved_at,
            r.raw_claims.trees() == self.outputs().raw_claims,
    {
        IdentityDiagnostics {
            raw_token: REDACTED,
            source: &self.source,
            source_header: &self.source_header,
            headers: &self.headers,
            raw_query_string: match &self.raw_query_string {
                Some(_) => Some(REDACTED),
                None => None,
            },
            client_host: &self.client_host,
            client_port: self.client_port,
            subject: &self.subject,
            client: &self.client,
            caller_workload: &self.caller_workload,
            delegation: &self.delegation,
            raw_credentials: &self.raw_credentials,
            resolved_at: self.resolved_at,
            raw_claims: &self.raw_claims,
        }
    }

    /// Layer another payload's outputs onto this one's: a slot that it fills
    /// replaces the one here, and its claims are laid over those here. Inputs
    /// are not touched.
    pub fn merge(&mut self, other: IdentityPayload)
        ensures
            final(self).inputs() == old(self).inputs(),
            final(self).outputs() == layered(old(self).outputs(), other.outputs()),
            other.outputs().subject is Some ==> final(self).outputs().subject
                == other.outputs().subject,
            other.outputs().subject is None ==> final(self).outputs().subject
                == old(self).outputs().subject,
            other.outputs().client is Some ==> final(self).outputs().client
                == other.outputs().client,
            other.outputs().client is None ==> final(self).outputs().client
                == old(self).outputs().client,
            other.outputs().caller_workload is Some ==> final(self).outputs().caller_workload
                == other.outputs().caller_workload,
            other.outputs().caller_workload is None ==> final(self).outputs().caller_workload
                == old(self).outputs().caller_workload,
            other.outputs().delegation is Some ==> final(self).outputs().delegation
                == other.outputs().delegation,
            other.outputs().delegation is None ==> final(self).outputs().delegation
                == old(self).outputs().delegation,
            other.outputs().raw_credentials is Some ==> final(self).outputs().raw_credentials
                == other.outputs().raw_credentials,
            other.outputs().raw_credentials is None ==> final(self).outputs().raw_credentials
                == old(self).outputs().raw_credentials,
            other.outputs().resolved_at is Some ==> final(self).outputs().resolved_at
                == other.outputs().resolved_at,
            other.outputs().resolved_at is None ==> final(self).outputs().resolved_at
                == old(self).outputs().resolved_at,
    {
        if other.subject.is_some() {
            self.subject = other.subject;
        }
        if other.client.is_some() {
            self.client = other.client;
        }
        if other.caller_workload.is_some() {
            self.caller_workload = other.caller_workload;
        }
        if other.delegation.is_some() {
            self.delegation = other.delegation;
        }
        if other.raw_credentials.is_some() {
            self.raw_credentials = other.raw_credentials;
        }
        if other.resolved_at.is_some() {
            self.resolved_at = other.resolved_at;
        }
        value::overlay(&mut self.raw_claims, &other.raw_claims);
        proof {
            lemma_outputs_are_the_slots(*self);
            lemma_outputs_are_the_slots(other);
        }
    }

    /// The payload that a pipeline resolved, out of what it handed back: a copy
    /// of it, where the pipeline was not denied.
    pub fn from_pipeline_result(modified_payload: &Option<IdentityPayload>) -> (r: Option<Self>)
        ensures
            match (*modified_payload, r) {
                (Some(p), Some(q)) => q.inputs() == p.inputs() && q.outputs() == p.outputs(),
                (None, None) => true,
                _ => false,
            },
    {
        match modified_payload {
            Some(p) => Some(p.clone()),
            None => None,
        }
    }

    /// Apply this payload's resolved identity slots to a request's extensions.
    ///
    /// A slot that is resolved overwrites the one there; the rest of the
    /// security extension is kept. Raw credentials and the delegation chain are
    /// replaced whole where they are resolved. Inputs are not copied.
    pub fn apply_to_extensions(&self, ext: Extensions) -> (r: Extensions)
        ensures
            applied(ext, self.outputs(), r),
    {
        let mut out = ext;
        let ghost before = security_of(ext);
        if self.subject.is_some() || self.client.is_some() || self.caller_workload.is_some() {
            let mut sec: SecurityExtension = match &out.security {
                Some(s) => (**s).clone(),
                None => SecurityExtension::default(),
            };
            assert(sec@ == before);
            if self.subject.is_some() {
                sec.subject = security::copy_subject(&self.subject);
            }
            if self.client.is_some() {
                sec.client = security::copy_client(&self.client);
            }
            if self.caller_workload.is_some() {
                sec.caller_workload = security::copy_workload(&self.caller_workload);
            }
            assert(sec@ == identified(before, self.outputs()));
            out.security = Some(Arc::new(sec));
        }
        match &self.raw_credentials {
            Some(rc) => {
                out.raw_credentials = Some(Arc::new(rc.clone()));
            },
            None => {},
        }
        match &self.delegation {
            Some(d) => {
                out.delegation = Some(Arc::new(d.clone()));
            },
            None => {},
        }
        out
    }
}

/// What the chain has resolved is what stands in the payload's public slots, each
/// in its own place: none is left out, and none stands in for another.
proof fn lemma_outputs_are_the_slots(p: IdentityPayload)
    ensures
        p.subject matches Some(s) ==> p.outputs().subject == Some(s@),
        p.subject is None ==> p.outputs().subject is None,
        p.client matches Some(c) ==> p.outputs().client == Some(c@),
        p.client is None ==> p.outputs().client is None,
        p.caller_workload matches Some(w) ==> p.outputs().caller_workload == Some(w@),
        p.caller_workload is None ==> p.outputs().caller_workload is None,
        p.delegation matches Some(d) ==> p.outputs().delegation == Some(d@),
        p.delegation is None ==> p.outputs().delegation is None,
        p.raw_credentials matches Some(c) ==> p.outputs().raw_credentials == Some(c@),
        p.raw_credentials is None ==> p.outputs().raw_credentials is None,
        p.outputs().resolved_at == p.resolved_at,
        p.outputs().raw_claims == p.raw_claims.trees(),
{
}

/// The inputs `i` without their secrets. A query string may hold a bearer, so it
/// is one.
pub open spec fn inputs_stripped(i: IdentityInputs) -> IdentityInputs {
    IdentityInputs { raw_token: ""@, raw_query_string: None, ..i }
}

/// The outputs `o` without their secrets.
pub open spec fn outputs_stripped(o: IdentityOutputs) -> IdentityOutputs {
    IdentityOutputs {
        raw_credentials: match o.raw_credentials {
            Some(c) => Some(raw_credentials::stripped(c)),
            None => None,
        },
        ..o
    }
}

impl IdentityPayload {
    /// What may be written out: all but the credential, the query string, and the
    /// secrets of the raw credentials.
    pub fn without_secrets(&self) -> (r: Self)
        ensures
            r.inputs() == inputs_stripped(self.inputs()),
            r.outputs() == outputs_stripped(self.outputs()),
    {
        let copy = self.clone();
        let r = IdentityPayload {
            raw_token: SecretText::new(""),
            raw_query_string: None,
            raw_credentials: match &self.raw_credentials {
                Some(c) => Some(c.without_secrets()),
                None => None,
            },
            ..copy
        };
        assert(r.inputs() =~= inputs_stripped(self.inputs()));
        assert(r.outputs() =~= outputs_stripped(self.outputs()));
        r
    }
}

/// What is written out of a payload tells nothing of its secrets: it is the same
/// for all payloads that differ in nothing but them.
pub proof fn law_a_written_payload_holds_no_secret(
    a: IdentityInputs,
    b: IdentityInputs,
    c: IdentityOutputs,
    d: IdentityOutputs,
)
    requires
        b == (IdentityInputs {
            raw_token: b.raw_token,
            raw_query_string: b.raw_query_string,
            ..a
        }),
        d == (IdentityOutputs { raw_credentials: d.raw_credentials, ..c }),
        match (c.raw_credentials, d.raw_credentials) {
            (Some(x), Some(y)) => raw_credentials::alike(x, y),
            (None, None) => true,
            _ => false,
        },
    ensures
        inputs_stripped(a) == inputs_stripped(b),
        outputs_stripped(c) == outputs_stripped(d),
{
    if c.raw_credentials is Some {
        raw_credentials::law_what_is_written_out_holds_no_secret(
            c.raw_credentials->Some_0,
            d.raw_credentials->Some_0,
        );
    }
    assert(outputs_stripped(c) =~= outputs_stripped(d));
}

impl Clone for IdentityPayload {
    fn clone(&self) -> (r: Self)
        ensures
            r.inputs() == self.inputs(),
            r.outputs() == self.outputs(),
    {
        let r = IdentityPayload {
            raw_token: self.raw_token.clone(),
            source: self.source.clone(),
            source_header: self.source_header.clone(),
            headers: self.headers.clone(),
            raw_query_string: self.raw_query_string.clone(),
            client_host: self.client_host.clone(),
            client_port: self.client_port,
            subject: security::copy_subject(&self.subject),
            client: security::copy_client(&self.client),
            caller_workload: security::copy_workload(&self.caller_workload),
            delegation: match &self.delegation {
                Some(d) => Some(d.clone()),
                None => None,
            },
            raw_credentials: match &self.raw_credentials {
                Some(c) => Some(c.clone()),
                None => None,
            },
            resolved_at: self.resolved_at,
            raw_claims: security::copy_claims(&self.raw_claims),
        };
        assert(r.inputs().headers =~= self.inputs().headers);
        r
    }
}

/// What the security extension of a request is: nothing was put in one that is
/// not there.
pub open spec fn security_of(ext: Extensions) -> SecurityView {
    match ext.security {
        Some(s) => (*s)@,
        None => security::no_security(),
    }
}

/// `sec` with the identity slots that are resolved.
pub open spec fn identified(sec: SecurityView, out: IdentityOutputs) -> SecurityView {
    SecurityView {
        subject: overlaid(sec.subject, out.subject),
        client: overlaid(sec.client, out.client),
        caller_workload: overlaid(sec.caller_workload, out.caller_workload),
        ..sec
    }
}

/// Whether an identity slot is resolved.
pub open spec fn identifies(out: IdentityOutputs) -> bool {
    out.subject is Some || out.client is Some || out.caller_workload is Some
}

/// Whether `after` is `before` with what `out` resolves applied to it.
pub open spec fn applied(before: Extensions, out: IdentityOutputs, after: Extensions) -> bool {
    &&& if identifies(out) {
        after.security is Some && security_of(after) == identified(security_of(before), out)
    } else {
        after.security == before.security
    }
    &&& match out.raw_credentials {
        Some(c) => after.raw_credentials matches Some(a) && (*a)@ == c,
        None => after.raw_credentials == before.raw_credentials,
    }
    &&& match out.delegation {
        Some(d) => after.delegation matches Some(a) && (*a)@ == d,
        None => after.delegation == before.delegation,
    }
    &&& after.meta == before.meta
    &&& after.http == before.http
    &&& after.http_transport == before.http_transport
}

/// Neither the credential nor the query string can be read off what
/// diagnostics show: payloads that differ only in these show the same.
pub proof fn law_diagnostics_show_no_secret(a: IdentityPayload, b: IdentityPayload)
    requires
        a.same_but_for_secrets(b),
    ensures
        a.shown() == b.shown(),
{
}

/// The last write of a slot wins, however the chain's contributions are
/// grouped: layering is associative.
pub proof fn law_layering_is_associative(a: IdentityOutputs, b: IdentityOutputs, c: IdentityOutputs)
    ensures
        layered(layered(a, b), c) == layered(a, layered(b, c)),
{
    assert(layered(layered(a, b), c) =~= layered(a, layered(b, c)));
}

/// A contribution that resolves nothing changes nothing, and onto nothing a
/// contribution is layered as it is.
pub proof fn law_nothing_resolved_changes_nothing(a: IdentityOutputs)
    ensures
        layered(a, nothing_resolved()) == a,
        layered(nothing_resolved(), a) == a,
{
    assert(layered(a, nothing_resolved()) =~= a);
    assert(layered(nothing_resolved(), a) =~= a);
}

/// Applying what was resolved keeps every label, and everything else that the
/// security extension holds besides the identity slots.
pub proof fn law_applying_an_identity_keeps_the_rest(
    before: Extensions,
    out: IdentityOutputs,
    after: Extensions,
)
    requires
        applied(before, out, after),
    ensures
        security_of(after).labels == security_of(before).labels,
        security_of(after).classification == security_of(before).classification,
        security_of(after).this_workload == security_of(before).this_workload,
        security_of(after).auth_method == security_of(before).auth_method,
        security_of(after).objects == security_of(before).objects,
        security_of(after).data == security_of(before).data,
{
}

/// The last write of each slot wins. Where the later contribution fills a slot,
/// the slot is the later one's, whatever was there before; where it does not, the
/// slot stays as it was.
pub proof fn law_the_last_write_of_a_slot_wins(under: IdentityOutputs, over: IdentityOutputs)
    ensures
        over.subject is Some ==> layered(under, over).subject == over.subject,
        over.subject is None ==> layered(under, over).subject == under.subject,
        over.client is Some ==> layered(under, over).client == over.client,
        over.client is None ==> layered(under, over).client == under.client,
        over.caller_workload is Some ==> layered(under, over).caller_workload
            == over.caller_workload,
        over.caller_workload is None ==> layered(under, over).caller_workload
            == under.caller_workload,
        over.delegation is Some ==> layered(under, over).delegation == over.delegation,
        over.delegation is None ==> layered(under, over).delegation == under.delegation,
        over.raw_credentials is Some ==> layered(under, over).raw_credentials
            == over.raw_credentials,
        over.raw_credentials is None ==> layered(under, over).raw_credentials
            == under.raw_credentials,
        over.resolved_at is Some ==> layered(under, over).resolved_at == over.resolved_at,
        over.resolved_at is None ==> layered(under, over).resolved_at == under.resolved_at,
{
}

/// The last write of each claim wins: a claim that the later contribution makes
/// has the later value, one that it does not make keeps the value it had, and no
/// other claim is there.
pub proof fn law_the_last_write_of_a_claim_wins(
    under: IdentityOutputs,
    over: IdentityOutputs,
    name: Seq<char>,
)
    ensures
        layered(under, over).raw_claims.contains_key(name) <==> (under.raw_claims.contains_key(
            name,
        ) || over.raw_claims.contains_key(name)),
        over.raw_claims.contains_key(name) ==> layered(under, over).raw_claims[name]
            == over.raw_claims[name],
        !over.raw_claims.contains_key(name) && under.raw_claims.contains_key(name) ==> layered(
            under,
            over,
        ).raw_claims[name] == under.raw_claims[name],
{
}

/// A request's security extension holds, in each identity slot, what was
/// resolved for it, and where nothing was resolved, what it held; raw credentials
/// and the delegation chain likewise. A request that has no security extension
/// gets one exactly where an identity slot was resolved, with nothing in it but
/// the identity slots that were.
pub proof fn law_a_resolved_slot_is_applied(
    before: Extensions,
    out: IdentityOutputs,
    after: Extensions,
)
    requires
        applied(before, out, after),
    ensures
        out.subject is Some ==> security_of(after).subject == out.subject,
        out.subject is None ==> security_of(after).subject == security_of(before).subject,
        out.client is Some ==> security_of(after).client == out.client,
        out.client is None ==> security_of(after).client == security_of(before).client,
        out.caller_workload is Some ==> security_of(after).caller_workload == out.caller_workload,
        out.caller_workload is None ==> security_of(after).caller_workload == security_of(
            before,
        ).caller_workload,
        out.raw_credentials matches Some(c) ==> (after.raw_credentials matches Some(a) && (*a)@
            == c),
        out.raw_credentials is None ==> after.raw_credentials == before.raw_credentials,
        out.delegation matches Some(d) ==> (after.delegation matches Some(a) && (*a)@ == d),
        out.delegation is None ==> after.delegation == before.delegation,
        after.security is Some <==> (before.security is Some || out.subject is Some
            || out.client is Some || out.caller_workload is Some),
        out.subject is None && out.client is None && out.caller_workload is None
            ==> after.security == before.security,
        before.security matches Some(b) ==> security_of(before) == (*b)@,
        before.security is None ==> security_of(before).labels == Set::<Seq<char>>::empty()
            && security_of(before).classification is None && security_of(before).subject is None
            && security_of(before).client is None && security_of(before).caller_workload is None
            && security_of(before).this_workload is None
            && security_of(before).auth_method is None,
        after.meta == before.meta,
        after.http == before.http,
        after.http_transport == before.http_transport,
{
}

/// What may be written out is the payload but for its secrets: the credential is
/// blank, the query string is gone, raw credentials stand there exactly where they
/// did, and every other slot is as it was.
pub proof fn law_what_is_written_out_is_the_rest(i: IdentityInputs, o: IdentityOutputs)
    ensures
        inputs_stripped(i).raw_token.len() == 0,
        inputs_stripped(i).raw_query_string is None,
        inputs_stripped(i).source == i.source,
        inputs_stripped(i).source_header == i.source_header,
        inputs_stripped(i).headers == i.headers,
        inputs_stripped(i).client_host == i.client_host,
        inputs_stripped(i).client_port == i.client_port,
        outputs_stripped(o).subject == o.subject,
        outputs_stripped(o).client == o.client,
        outputs_stripped(o).caller_workload == o.caller_workload,
        outputs_stripped(o).delegation == o.delegation,
        outputs_stripped(o).raw_credentials is Some <==> o.raw_credentials is Some,
        outputs_stripped(o).resolved_at == o.resolved_at,
        outputs_stripped(o).raw_claims == o.raw_claims,
{
    reveal_strlit("");
}

/// Sources are told apart: the five that are known from each other and from every other,
/// and the others by their names.
pub proof fn law_sources_are_told_apart(a: TokenSource, b: TokenSource)
    requires
        a@ == b@,
    ensures
        a is Bearer <==> b is Bearer,
        a is UserToken <==> b is UserToken,
        a is Mtls <==> b is Mtls,
        a is SpiffeJwtSvid <==> b is SpiffeJwtSvid,
        a is ApiKey <==> b is ApiKey,
        a is Custom <==> b is Custom,
        a is Custom ==> a->Custom_0@ == b->Custom_0@,
{
}

} // verus!
