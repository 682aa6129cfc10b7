//! Who a request comes from, and what is known of the data it carries.
use crate::extensions::monotonic;
use crate::extensions::monotonic::MonotonicSet;
use crate::text;
use crate::value;
use crate::value::{Json, Number, TextMap, TextSet, Tree};
use std::borrow::Cow;
use vstd::prelude::*;

verus! {

/// A moment: seconds since the Unix epoch, and nanoseconds behind them.
#[derive(Debug, Clone, Copy, PartialEq, Eq, Hash, Structural)]
pub struct Timestamp {
    /// Seconds since the Unix epoch.
    pub secs: i64,
    /// Nanoseconds behind them.
    pub nanos: u32,
}

/// Subject type for identity classification.
#[derive(Debug, Clone, Copy, PartialEq, Eq, Hash, Structural)]
pub enum SubjectType {
    /// A human user.
    User,
    /// An autonomous agent.
    Agent,
    /// A service acting on its own behalf.
    Service,
    /// The platform itself.
    System,
}

/// Authenticated subject identity.
#[derive(Debug)]
pub struct SubjectExtension {
    /// Subject identifier (e.g., JWT sub).
    pub id: Option<String>,
    /// Subject type.
    pub subject_type: Option<SubjectType>,
    /// Assigned roles.
    pub roles: TextSet,
    /// Granted permissions.
    pub permissions: TextSet,
    /// Team memberships.
    pub teams: TextSet,
    /// Raw remaining claims, keyed by claim name, in their shape.
    pub claims: TextMap<Json>,
}

/// What a [`SubjectExtension`] is.
#[verifier::ext_equal]
pub struct SubjectView {
    /// Subject identifier.
    pub id: Option<Seq<char>>,
    /// Subject type.
    pub subject_type: Option<SubjectType>,
    /// Assigned roles.
    pub roles: Set<Seq<char>>,
    /// Granted permissions.
    pub permissions: Set<Seq<char>>,
    /// Team memberships.
    pub teams: Set<Seq<char>>,
    /// Claims.
    pub claims: Map<Seq<char>, Tree>,
}

impl View for SubjectExtension {
    type V = SubjectView;

    open spec fn view(&self) -> SubjectView {
        SubjectView {
            id: value::opt_text(self.id),
            subject_type: self.subject_type,
            roles: self.roles@,
            permissions: self.permissions@,
            teams: self.teams@,
            claims: self.claims.trees(),
        }
    }
}

/// A copy of claims, in their shape.
pub fn copy_claims(claims: &TextMap<Json>) -> (r: TextMap<Json>)
    ensures
        r.trees() == claims.trees(),
{
    let r = claims.clone();
    assert(r.trees() =~= claims.trees());
    r
}

impl Clone for SubjectExtension {
    fn clone(&self) -> (r: Self)
        ensures
            r@ == self@,
    {
        SubjectExtension {
            id: self.id.clone(),
            subject_type: self.subject_type,
            roles: self.roles.clone(),
            permissions: self.permissions.clone(),
            teams: self.teams.clone(),
            claims: copy_claims(&self.claims),
        }
    }
}

impl Default for SubjectExtension {
    fn default() -> (r: Self)
        ensures
            r@ == (SubjectView {
                id: None,
                subject_type: None,
                roles: Set::empty(),
                permissions: Set::empty(),
                teams: Set::empty(),
                claims: Map::empty(),
            }),
    {
        let r = SubjectExtension {
            id: None,
            subject_type: None,
            roles: TextSet::new(),
            permissions: TextSet::new(),
            teams: TextSet::new(),
            claims: TextMap::new(),
        };
        assert(r.claims.trees() =~= Map::<Seq<char>, Tree>::empty());
        r
    }
}

/// `n` in decimal digits, behind a minus sign where it is below zero.
pub open spec fn signed_decimal(n: int) -> Seq<char> {
    if n < 0 {
        seq!['-'] + text::decimal((-n) as nat)
    } else {
        text::decimal(n as nat)
    }
}

/// A scalar as text: a string itself, a number in digits or as it was
/// written, a flag as a word. Nothing else names a single value.
pub open spec fn scalar_text(v: Json) -> Option<Seq<char>> {
    match v {
        Json::String(s) => Some(s@),
        Json::Number(Number::Unsigned(n)) => Some(signed_decimal(n as int)),
        Json::Number(Number::Negative(n)) => Some(signed_decimal(n as int)),
        Json::Number(Number::Other(s)) => Some(s@),
        Json::Bool(b) => Some(
            if b {
                "true"@
            } else {
                "false"@
            },
        ),
        _ => None,
    }
}

/// `n` in decimal digits, behind a minus sign where it is below zero.
fn signed_decimal_of(n: i64) -> (r: String)
    ensures
        r@ == signed_decimal(n as int),
{
    if n < 0 {
        let mut out = String::new();
        out.push('-');
        let size: u64 = if n == i64::MIN {
            9_223_372_036_854_775_808
        } else {
            (-n) as u64
        };
        out.append(text::decimal_of(size).as_str());
        assert(out@ =~= signed_decimal(n as int));
        out
    } else {
        text::decimal_of(n as u64)
    }
}

impl SubjectExtension {
    /// A claim's value as a string, when that claim holds a scalar.
    ///
    /// Strings borrow; numbers and booleans render. Objects, arrays and `null`
    /// return `None`: they do not name a single value.
    pub fn claim_str(&self, name: &str) -> (r: Option<Cow<'_, str>>)
        ensures
            match r {
                Some(c) => self.claims@.contains_key(name@) && scalar_text(self.claims@[name@])
                    == Some(c@),
                None => self.claims@.contains_key(name@) ==> scalar_text(
                    self.claims@[name@],
                ) is None,
            },
            r matches Some(c) ==> (c is Borrowed <==> self.claims@[name@] is String),
    {
        match self.claims.get(name) {
            None => None,
            Some(Json::String(s)) => Some(Cow::Borrowed(s.as_str())),
            Some(Json::Number(Number::Unsigned(n))) => Some(Cow::Owned(text::decimal_of(*n))),
            Some(Json::Number(Number::Negative(n))) => Some(Cow::Owned(signed_decimal_of(*n))),
            Some(Json::Number(Number::Other(s))) => Some(Cow::Owned(s.clone())),
            Some(Json::Bool(b)) => Some(
                Cow::Owned(
                    if *b {
                        "true".to_owned()
                    } else {
                        "false".to_owned()
                    },
                ),
            ),
            Some(_) => None,
        }
    }
}

/// Security profile for a managed object.
#[derive(Debug, Default)]
pub struct ObjectSecurityProfile {
    /// Who manages this object.
    pub managed_by: Option<String>,
    /// Required permissions.
    pub permissions: Vec<String>,
    /// Trust domain.
    pub trust_domain: Option<String>,
    /// Data scope.
    pub data_scope: Vec<String>,
}

/// What an [`ObjectSecurityProfile`] is.
#[verifier::ext_equal]
pub struct ProfileView {
    /// Who manages this object.
    pub managed_by: Option<Seq<char>>,
    /// Required permissions.
    pub permissions: Seq<Seq<char>>,
    /// Trust domain.
    pub trust_domain: Option<Seq<char>>,
    /// Data scope.
    pub data_scope: Seq<Seq<char>>,
}

impl View for ObjectSecurityProfile {
    type V = ProfileView;

    open spec fn view(&self) -> ProfileView {
        ProfileView {
            managed_by: value::opt_text(self.managed_by),
            permissions: value::text_seq(self.permissions@),
            trust_domain: value::opt_text(self.trust_domain),
            data_scope: value::text_seq(self.data_scope@),
        }
    }
}

impl Clone for ObjectSecurityProfile {
    fn clone(&self) -> (r: Self)
        ensures
            r@ == self@,
    {
        ObjectSecurityProfile {
            managed_by: self.managed_by.clone(),
            permissions: value::copy_texts(&self.permissions),
            trust_domain: self.trust_domain.clone(),
            data_scope: value::copy_texts(&self.data_scope),
        }
    }
}

/// Retention policy for data.
#[derive(Debug, Default)]
pub struct RetentionPolicy {
    /// Maximum age in seconds.
    pub max_age_seconds: Option<u64>,
    /// Policy name.
    pub policy: String,
    /// Deletion timestamp.
    pub delete_after: Option<String>,
}

/// What a [`RetentionPolicy`] is.
pub struct RetentionView {
    /// Maximum age in seconds.
    pub max_age_seconds: Option<u64>,
    /// Policy name.
    pub policy: Seq<char>,
    /// Deletion timestamp.
    pub delete_after: Option<Seq<char>>,
}

impl View for RetentionPolicy {
    type V = RetentionView;

    open spec fn view(&self) -> RetentionView {
        RetentionView {
            max_age_seconds: self.max_age_seconds,
            policy: self.policy@,
            delete_after: value::opt_text(self.delete_after),
        }
    }
}

impl Clone for RetentionPolicy {
    fn clone(&self) -> (r: Self)
        ensures
            r@ == self@,
    {
        RetentionPolicy {
            max_age_seconds: self.max_age_seconds,
            policy: self.policy.clone(),
            delete_after: self.delete_after.clone(),
        }
    }
}

/// Data policy for a named data element.
#[derive(Debug, Default)]
pub struct DataPolicy {
    /// Labels to apply.
    pub apply_labels: Vec<String>,
    /// Allowed actions (None = all allowed).
    pub allowed_actions: Option<Vec<String>>,
    /// Denied actions.
    pub denied_actions: Vec<String>,
    /// Retention policy.
    pub retention: Option<RetentionPolicy>,
}

/// What a [`DataPolicy`] is.
#[verifier::ext_equal]
pub struct DataPolicyView {
    /// Labels to apply.
    pub apply_labels: Seq<Seq<char>>,
    /// Allowed actions.
    pub allowed_actions: Option<Seq<Seq<char>>>,
    /// Denied actions.
    pub denied_actions: Seq<Seq<char>>,
    /// Retention policy.
    pub retention: Option<RetentionView>,
}

impl View for DataPolicy {
    type V = DataPolicyView;

    open spec fn view(&self) -> DataPolicyView {
        DataPolicyView {
            apply_labels: value::text_seq(self.apply_labels@),
            allowed_actions: value::opt_text_seq(self.allowed_actions),
            denied_actions: value::text_seq(self.denied_actions@),
            retention: match self.retention {
                Some(p) => Some(p@),
                None => None,
            },
        }
    }
}

impl Clone for DataPolicy {
    fn clone(&self) -> (r: Self)
        ensures
            r@ == self@,
    {
        DataPolicy {
            apply_labels: value::copy_texts(&self.apply_labels),
            allowed_actions: value::copy_opt_texts(&self.allowed_actions),
            denied_actions: value::copy_texts(&self.denied_actions),
            retention: match &self.retention {
                Some(p) => Some(p.clone()),
                None => None,
            },
        }
    }
}

/// Trust classification for the OAuth client that brokered the request.
#[non_exhaustive]
#[derive(Debug, PartialEq, Eq, Hash)]
pub enum ClientTrustLevel {
    /// Clients operated by the same organisation as this gateway.
    FirstParty,
    /// External clients, integrated but not operated by us.
    ThirdParty,
    /// Internal infrastructure clients.
    Internal,
    /// Operator-defined trust level.
    Custom(String),
}

/// What a [`ClientTrustLevel`] is.
pub enum TrustView {
    /// Operated by us.
    FirstParty,
    /// Operated by others.
    ThirdParty,
    /// Internal infrastructure.
    Internal,
    /// Operator-defined.
    Custom(Seq<char>),
}

impl View for ClientTrustLevel {
    type V = TrustView;

    open spec fn view(&self) -> TrustView {
        match self {
            ClientTrustLevel::FirstParty => TrustView::FirstParty,
            ClientTrustLevel::ThirdParty => TrustView::ThirdParty,
            ClientTrustLevel::Internal => TrustView::Internal,
            ClientTrustLevel::Custom(s) => TrustView::Custom(s@),
        }
    }
}

impl Clone for ClientTrustLevel {
    fn clone(&self) -> (r: Self)
        ensures
            r@ == self@,
    {
        match self {
            ClientTrustLevel::FirstParty => ClientTrustLevel::FirstParty,
            ClientTrustLevel::ThirdParty => ClientTrustLevel::ThirdParty,
            ClientTrustLevel::Internal => ClientTrustLevel::Internal,
            ClientTrustLevel::Custom(s) => ClientTrustLevel::Custom(s.clone()),
        }
    }
}

impl Default for ClientTrustLevel {
    /// The most restrictive well-known level, so that a missing client does
    /// not inherit first-party privileges.
    fn default() -> (r: Self)
        ensures
            r == ClientTrustLevel::ThirdParty,
    {
        ClientTrustLevel::ThirdParty
    }
}

/// The OAuth client: what application is brokering the request.
#[derive(Debug)]
pub struct ClientExtension {
    /// OAuth `client_id`.
    pub client_id: String,
    /// Human-readable client name.
    pub client_name: Option<String>,
    /// Trust classification.
    pub trust_level: ClientTrustLevel,
    /// OAuth scopes authorized for this client.
    pub authorized_scopes: Vec<String>,
    /// OAuth audiences this client may address.
    pub authorized_audiences: Vec<String>,
    /// Platform-native roles of the client.
    pub roles: Vec<String>,
    /// Platform-native permissions of the client.
    pub permissions: Vec<String>,
    /// Team, tenant and account memberships.
    pub teams: Vec<String>,
    /// Raw remaining claims, keyed by claim name.
    pub claims: TextMap<Json>,
}

/// What a [`ClientExtension`] is.
#[verifier::ext_equal]
pub struct ClientView {
    /// OAuth `client_id`.
    pub client_id: Seq<char>,
    /// Human-readable client name.
    pub client_name: Option<Seq<char>>,
    /// Trust classification.
    pub trust_level: TrustView,
    /// Authorized scopes.
    pub authorized_scopes: Seq<Seq<char>>,
    /// Authorized audiences.
    pub authorized_audiences: Seq<Seq<char>>,
    /// Roles.
    pub roles: Seq<Seq<char>>,
    /// Permissions.
    pub permissions: Seq<Seq<char>>,
    /// Memberships.
    pub teams: Seq<Seq<char>>,
    /// Claims.
    pub claims: Map<Seq<char>, Tree>,
}

impl View for ClientExtension {
    type V = ClientView;

    open spec fn view(&self) -> ClientView {
        ClientView {
            client_id: self.client_id@,
            client_name: value::opt_text(self.client_name),
            trust_level: self.trust_level@,
            authorized_scopes: value::text_seq(self.authorized_scopes@),
            authorized_audiences: value::text_seq(self.authorized_audiences@),
            roles: value::text_seq(self.roles@),
            permissions: value::text_seq(self.permissions@),
            teams: value::text_seq(self.teams@),
            claims: self.claims.trees(),
        }
    }
}

impl Clone for ClientExtension {
    fn clone(&self) -> (r: Self)
        ensures
            r@ == self@,
    {
        ClientExtension {
            client_id: self.client_id.clone(),
            client_name: self.client_name.clone(),
            trust_level: self.trust_level.clone(),
            authorized_scopes: value::copy_texts(&self.authorized_scopes),
            authorized_audiences: value::copy_texts(&self.authorized_audiences),
            roles: value::copy_texts(&self.roles),
            permissions: value::copy_texts(&self.permissions),
            teams: value::copy_texts(&self.teams),
            claims: copy_claims(&self.claims),
        }
    }
}

impl Default for ClientExtension {
    fn default() -> (r: Self)
        ensures
            r@ == (ClientView {
                client_id: Seq::empty(),
                client_name: None,
                trust_level: TrustView::ThirdParty,
                authorized_scopes: Seq::empty(),
                authorized_audiences: Seq::empty(),
                roles: Seq::empty(),
                permissions: Seq::empty(),
                teams: Seq::empty(),
                claims: Map::empty(),
            }),
    {
        let r = ClientExtension {
            client_id: String::new(),
            client_name: None,
            trust_level: ClientTrustLevel::default(),
            authorized_scopes: Vec::new(),
            authorized_audiences: Vec::new(),
            roles: Vec::new(),
            permissions: Vec::new(),
            teams: Vec::new(),
            claims: TextMap::new(),
        };
        assert(r.claims.trees() =~= Map::<Seq<char>, Tree>::empty());
        assert(value::text_seq(r.roles@) =~= Seq::<Seq<char>>::empty());
        r
    }
}

/// Workload identity, of a caller or of this instance.
#[derive(Debug, Default)]
pub struct WorkloadIdentity {
    /// SPIFFE identifier.
    pub spiffe_id: Option<String>,
    /// Trust domain.
    pub trust_domain: Option<String>,
    /// When the attestation was performed.
    pub attested_at: Option<Timestamp>,
    /// Name of the attestor that vouched for the workload.
    pub attestor: Option<String>,
    /// Workload selectors.
    pub selectors: Vec<String>,
    /// OAuth `client_id`, when the workload also carries one.
    pub client_id: Option<String>,
}

/// What a [`WorkloadIdentity`] is.
#[verifier::ext_equal]
pub struct WorkloadView {
    /// SPIFFE identifier.
    pub spiffe_id: Option<Seq<char>>,
    /// Trust domain.
    pub trust_domain: Option<Seq<char>>,
    /// When the attestation was performed.
    pub attested_at: Option<Timestamp>,
    /// Name of the attestor.
    pub attestor: Option<Seq<char>>,
    /// Workload selectors.
    pub selectors: Seq<Seq<char>>,
    /// OAuth `client_id`.
    pub client_id: Option<Seq<char>>,
}

impl View for WorkloadIdentity {
    type V = WorkloadView;

    open spec fn view(&self) -> WorkloadView {
        WorkloadView {
            spiffe_id: value::opt_text(self.spiffe_id),
            trust_domain: value::opt_text(self.trust_domain),
            attested_at: self.attested_at,
            attestor: value::opt_text(self.attestor),
            selectors: value::text_seq(self.selectors@),
            client_id: value::opt_text(self.client_id),
        }
    }
}

impl Clone for WorkloadIdentity {
    fn clone(&self) -> (r: Self)
        ensures
            r@ == self@,
    {
        WorkloadIdentity {
            spiffe_id: self.spiffe_id.clone(),
            trust_domain: self.trust_domain.clone(),
            attested_at: self.attested_at,
            attestor: self.attestor.clone(),
            selectors: value::copy_texts(&self.selectors),
            client_id: self.client_id.clone(),
        }
    }
}

/// Security-related extensions.
#[derive(Debug)]
pub struct SecurityExtension {
    /// Security labels, which only grow.
    pub labels: MonotonicSet<String>,
    /// Data classification level.
    pub classification: Option<String>,
    /// Authenticated user identity.
    pub subject: Option<SubjectExtension>,
    /// Authenticated OAuth client brokering the request.
    pub client: Option<ClientExtension>,
    /// The inbound caller's attested workload identity.
    pub caller_workload: Option<WorkloadIdentity>,
    /// This instance's own workload identity.
    pub this_workload: Option<WorkloadIdentity>,
    /// Authentication method used.
    pub auth_method: Option<String>,
    /// Object security profiles keyed by object name.
    pub objects: TextMap<ObjectSecurityProfile>,
    /// Data policies keyed by data element name.
    pub data: TextMap<DataPolicy>,
}

/// What a [`SecurityExtension`] is.
#[verifier::ext_equal]
pub struct SecurityView {
    /// Security labels.
    pub labels: Set<Seq<char>>,
    /// Data classification level.
    pub classification: Option<Seq<char>>,
    /// User identity.
    pub subject: Option<SubjectView>,
    /// OAuth client.
    pub client: Option<ClientView>,
    /// The caller's workload identity.
    pub caller_workload: Option<WorkloadView>,
    /// This instance's workload identity.
    pub this_workload: Option<WorkloadView>,
    /// Authentication method.
    pub auth_method: Option<Seq<char>>,
    /// Object security profiles.
    pub objects: Map<Seq<char>, ProfileView>,
    /// Data policies.
    pub data: Map<Seq<char>, DataPolicyView>,
}

/// The view of `o`, where there is one.
pub open spec fn opt_subject(o: Option<SubjectExtension>) -> Option<SubjectView> {
    match o {
        Some(s) => Some(s@),
        None => None,
    }
}

/// The view of `o`, where there is one.
pub open spec fn opt_client(o: Option<ClientExtension>) -> Option<ClientView> {
    match o {
        Some(s) => Some(s@),
        None => None,
    }
}

/// The view of `o`, where there is one.
pub open spec fn opt_workload(o: Option<WorkloadIdentity>) -> Option<WorkloadView> {
    match o {
        Some(s) => Some(s@),
        None => None,
    }
}

impl View for SecurityExtension {
    type V = SecurityView;

    open spec fn view(&self) -> SecurityView {
        SecurityView {
            labels: self.labels@,
            classification: value::opt_text(self.classification),
            subject: opt_subject(self.subject),
            client: opt_client(self.client),
            caller_workload: opt_workload(self.caller_workload),
            this_workload: opt_workload(self.this_workload),
            auth_method: value::opt_text(self.auth_method),
            objects: self.objects@.map_values(|p: ObjectSecurityProfile| p@),
            data: self.data@.map_values(|p: DataPolicy| p@),
        }
    }
}

/// A copy of `o`, where there is one.
pub fn copy_subject(o: &Option<SubjectExtension>) -> (r: Option<SubjectExtension>)
    ensures
        opt_subject(r) == opt_subject(*o),
{
    match o {
        Some(s) => Some(s.clone()),
        None => None,
    }
}

/// A copy of `o`, where there is one.
pub fn copy_client(o: &Option<ClientExtension>) -> (r: Option<ClientExtension>)
    ensures
        opt_client(r) == opt_client(*o),
{
    match o {
        Some(s) => Some(s.clone()),
        None => None,
    }
}

/// A copy of `o`, where there is one.
pub fn copy_workload(o: &Option<WorkloadIdentity>) -> (r: Option<WorkloadIdentity>)
    ensures
        opt_workload(r) == opt_workload(*o),
{
    match o {
        Some(s) => Some(s.clone()),
        None => None,
    }
}

impl Clone for SecurityExtension {
    fn clone(&self) -> (r: Self)
        ensures
            r@ == self@,
    {
        let r = SecurityExtension {
            labels: self.labels.clone(),
            classification: self.classification.clone(),
            subject: copy_subject(&self.subject),
            client: copy_client(&self.client),
            caller_workload: copy_workload(&self.caller_workload),
            this_workload: copy_workload(&self.this_workload),
            auth_method: self.auth_method.clone(),
            objects: self.objects.clone(),
            data: self.data.clone(),
        };
        assert(r@.objects =~= self@.objects);
        assert(r@.data =~= self@.data);
        r
    }
}

/// What a security extension is that nothing was put in.
pub open spec fn no_security() -> SecurityView {
    SecurityView {
        labels: Set::empty(),
        classification: None,
        subject: None,
        client: None,
        caller_workload: None,
        this_workload: None,
        auth_method: None,
        objects: Map::empty(),
        data: Map::empty(),
    }
}

impl Default for SecurityExtension {
    fn default() -> (r: Self)
        ensures
            r@ == no_security(),
    {
        let r = SecurityExtension {
            labels: MonotonicSet::new(),
            classification: None,
            subject: None,
            client: None,
            caller_workload: None,
            this_workload: None,
            auth_method: None,
            objects: TextMap::new(),
            data: TextMap::new(),
        };
        assert(r@.objects =~= Map::<Seq<char>, ProfileView>::empty());
        assert(r@.data =~= Map::<Seq<char>, DataPolicyView>::empty());
        r
    }
}

impl SecurityExtension {
    /// Add a security label. No label is ever lost by it.
    pub fn add_label(&mut self, label: &str)
        ensures
            final(self)@ == (SecurityView { labels: old(self)@.labels.insert(label@), ..old(self)@ }),
    {
        self.labels.add_label(label);
    }

    /// Check if a label exists (case-insensitive).
    pub fn has_label(&self, label: &str) -> (r: bool)
        ensures
            r == monotonic::holds_label(self@.labels, label@),
    {
        self.labels.has_label(label)
    }
}

/// A whole number is written with a minus sign before its digits where it is below
/// nought, and without one where it is not.
pub proof fn law_how_a_whole_number_is_written(n: nat)
    ensures
        n > 0 ==> signed_decimal(-n) == seq!['-'] + text::decimal(n),
        signed_decimal(n as int) == text::decimal(n),
{
}

/// A claim reads as text where it is a scalar: text as it is, a number in its digits, a
/// flag as its word. What holds several values, or none, reads as nothing.
pub proof fn law_a_scalar_reads_as_text(
    s: String,
    u: u64,
    i: i64,
    items: Vec<Json>,
    fields: TextMap<Json>,
)
    ensures
        scalar_text(Json::String(s)) == Some(s@),
        scalar_text(Json::Number(Number::Unsigned(u))) == Some(text::decimal(u as nat)),
        i < 0 ==> scalar_text(Json::Number(Number::Negative(i))) == Some(
            seq!['-'] + text::decimal((-i) as nat),
        ),
        scalar_text(Json::Number(Number::Other(s))) == Some(s@),
        scalar_text(Json::Bool(true)) == Some("true"@),
        scalar_text(Json::Bool(false)) == Some("false"@),
        scalar_text(Json::Null) is None,
        scalar_text(Json::Array(items)) is None,
        scalar_text(Json::Object(fields)) is None,
{
}

/// Subjects that look alike are alike in every part.
pub proof fn law_subjects_that_look_alike_are_alike(a: SubjectExtension, b: SubjectExtension)
    requires
        a@ == b@,
    ensures
        value::opt_text(a.id) == value::opt_text(b.id),
        a.subject_type == b.subject_type,
        a.roles@ == b.roles@,
        a.permissions@ == b.permissions@,
        a.teams@ == b.teams@,
        a.claims.trees() == b.claims.trees(),
{
}

/// Clients that look alike are alike in every part, trust levels included.
pub proof fn law_clients_that_look_alike_are_alike(a: ClientExtension, b: ClientExtension)
    requires
        a@ == b@,
    ensures
        a.client_id@ == b.client_id@,
        value::opt_text(a.client_name) == value::opt_text(b.client_name),
        a.trust_level is FirstParty <==> b.trust_level is FirstParty,
        a.trust_level is ThirdParty <==> b.trust_level is ThirdParty,
        a.trust_level is Internal <==> b.trust_level is Internal,
        a.trust_level is Custom <==> b.trust_level is Custom,
        a.trust_level is Custom ==> a.trust_level->Custom_0@ == b.trust_level->Custom_0@,
        value::text_seq(a.authorized_scopes@) == value::text_seq(b.authorized_scopes@),
        value::text_seq(a.authorized_audiences@) == value::text_seq(b.authorized_audiences@),
        value::text_seq(a.roles@) == value::text_seq(b.roles@),
        value::text_seq(a.permissions@) == value::text_seq(b.permissions@),
        value::text_seq(a.teams@) == value::text_seq(b.teams@),
        a.claims.trees() == b.claims.trees(),
{
}

/// Workload identities that look alike are alike in every part.
pub proof fn law_workloads_that_look_alike_are_alike(a: WorkloadIdentity, b: WorkloadIdentity)
    requires
        a@ == b@,
    ensures
        value::opt_text(a.spiffe_id) == value::opt_text(b.spiffe_id),
        value::opt_text(a.trust_domain) == value::opt_text(b.trust_domain),
        a.attested_at == b.attested_at,
        value::opt_text(a.attestor) == value::opt_text(b.attestor),
        value::text_seq(a.selectors@) == value::text_seq(b.selectors@),
        value::opt_text(a.client_id) == value::opt_text(b.client_id),
{
}

/// Object profiles, retention policies and data policies that look alike are alike in
/// every part.
pub proof fn law_policies_that_look_alike_are_alike(
    a: ObjectSecurityProfile,
    b: ObjectSecurityProfile,
    c: DataPolicy,
    d: DataPolicy,
    e: RetentionPolicy,
    f: RetentionPolicy,
)
    ensures
        a@ == b@ ==> value::opt_text(a.managed_by) == value::opt_text(b.managed_by)
            && value::text_seq(a.permissions@) == value::text_seq(b.permissions@)
            && value::opt_text(a.trust_domain) == value::opt_text(b.trust_domain)
            && value::text_seq(a.data_scope@) == value::text_seq(b.data_scope@),
        c@ == d@ ==> value::text_seq(c.apply_labels@) == value::text_seq(d.apply_labels@)
            && value::opt_text_seq(c.allowed_actions) == value::opt_text_seq(d.allowed_actions)
            && value::text_seq(c.denied_actions@) == value::text_seq(d.denied_actions@) && (
        c.retention is Some <==> d.retention is Some) && (c.retention is Some
            ==> c.retention->Some_0@ == d.retention->Some_0@),
        e@ == f@ ==> e.max_age_seconds == f.max_age_seconds && e.policy@ == f.policy@
            && value::opt_text(e.delete_after) == value::opt_text(f.delete_after),
{
}

/// Security extensions that look alike are alike in every part: in their labels, in each
/// identity slot, and in the profile of each object and the policy of each data element.
pub proof fn law_extensions_that_look_alike_are_alike(
    a: SecurityExtension,
    b: SecurityExtension,
    name: Seq<char>,
)
    requires
        a@ == b@,
    ensures
        a.labels@ == b.labels@,
        value::opt_text(a.classification) == value::opt_text(b.classification),
        a.subject is Some <==> b.subject is Some,
        a.subject is Some ==> a.subject->Some_0@ == b.subject->Some_0@,
        a.client is Some <==> b.client is Some,
        a.client is Some ==> a.client->Some_0@ == b.client->Some_0@,
        a.caller_workload is Some <==> b.caller_workload is Some,
        a.caller_workload is Some ==> a.caller_workload->Some_0@ == b.caller_workload->Some_0@,
        a.this_workload is Some <==> b.this_workload is Some,
        a.this_workload is Some ==> a.this_workload->Some_0@ == b.this_workload->Some_0@,
        value::opt_text(a.auth_method) == value::opt_text(b.auth_method),
        a.objects@.contains_key(name) <==> b.objects@.contains_key(name),
        a.objects@.contains_key(name) ==> a.objects@[name]@ == b.objects@[name]@,
        a.data@.contains_key(name) <==> b.data@.contains_key(name),
        a.data@.contains_key(name) ==> a.data@[name]@ == b.data@[name]@,
{
    assert(a@.objects.contains_key(name) <==> a.objects@.contains_key(name));
    assert(b@.objects.contains_key(name) <==> b.objects@.contains_key(name));
    assert(a@.data.contains_key(name) <==> a.data@.contains_key(name));
    assert(b@.data.contains_key(name) <==> b.data@.contains_key(name));
    if a.objects@.contains_key(name) {
        assert(a@.objects[name] == a.objects@[name]@);
        assert(b@.objects[name] == b.objects@[name]@);
    }
    if a.data@.contains_key(name) {
        assert(a@.data[name] == a.data@[name]@);
        assert(b@.data[name] == b.data@[name]@);
    }
}

/// A security extension that nothing was put in has no label, no identity, and neither a
/// profile nor a policy for anything.
pub proof fn law_an_empty_extension_holds_nothing(name: Seq<char>)
    ensures
        !no_security().labels.contains(name),
        no_security().classification is None,
        no_security().subject is None,
        no_security().client is None,
        no_security().caller_workload is None,
        no_security().this_workload is None,
        no_security().auth_method is None,
        !no_security().objects.contains_key(name),
        !no_security().data.contains_key(name),
{
}

} // verus!
