//! Raw credentials: what came off the wire, and what was minted for outbound
//! calls.
use crate::extensions::security::Timestamp;
use crate::text;
use crate::value;
use crate::value::{KeyMap, MapKey};
use vstd::prelude::*;
use zeroize::Zeroizing;

verus! {

/// Text that is cleared from memory when it is dropped.
#[verifier::external_body]
#[derive(Debug)]
pub struct SecretText {
    inner: Zeroizing<String>,
}

/// The text that a `zeroize::Zeroizing<String>` holds.
pub uninterp spec fn secret_of(s: &SecretText) -> Seq<char>;

impl View for SecretText {
    type V = Seq<char>;

    open spec fn view(&self) -> Seq<char> {
        secret_of(self)
    }
}

/// `zeroize::Zeroizing::new` holds the value it is given.
#[verifier::external_body]
fn seal(s: String) -> (r: SecretText)
    ensures
        secret_of(&r) == s@,
{
    SecretText { inner: Zeroizing::new(s) }
}

/// `<zeroize::Zeroizing as Deref>::deref` gives the value that is held.
#[verifier::external_body]
fn unseal(s: &SecretText) -> (r: &str)
    ensures
        r@ == secret_of(s),
{
    s.inner.as_str()
}

impl SecretText {
    /// Text to keep secret.
    pub fn new(s: &str) -> (r: Self)
        ensures
            r@ == s@,
    {
        seal(s.to_owned())
    }

    /// The text itself.
    pub fn expose(&self) -> (r: &str)
        ensures
            r@ == self@,
    {
        unseal(self)
    }
}

impl Clone for SecretText {
    fn clone(&self) -> (r: Self)
        ensures
            r@ == self@,
    {
        SecretText::new(unseal(self))
    }
}

/// Which principal a raw inbound token represents.
#[non_exhaustive]
#[derive(Debug, Clone, PartialEq, Eq, Hash)]
pub enum TokenRole {
    /// The user / subject token.
    User,
    /// The OAuth client / gateway-access token.
    Client,
    /// A JWT-SVID presented by the calling workload.
    CallerWorkload,
    /// Host-defined role.
    Custom(String),
}

/// What a [`TokenRole`] is.
pub enum RoleId {
    /// The user.
    User,
    /// The client.
    Client,
    /// The calling workload.
    CallerWorkload,
    /// A host-defined role.
    Custom(Seq<char>),
}

impl MapKey for TokenRole {
    type Id = RoleId;

    open spec fn id(&self) -> RoleId {
        match self {
            TokenRole::User => RoleId::User,
            TokenRole::Client => RoleId::Client,
            TokenRole::CallerWorkload => RoleId::CallerWorkload,
            TokenRole::Custom(s) => RoleId::Custom(s@),
        }
    }

    fn same_key(&self, other: &Self) -> (r: bool) {
        match (self, other) {
            (TokenRole::User, TokenRole::User) => true,
            (TokenRole::Client, TokenRole::Client) => true,
            (TokenRole::CallerWorkload, TokenRole::CallerWorkload) => true,
            (TokenRole::Custom(a), TokenRole::Custom(b)) => text::same(a.as_str(), b.as_str()),
            _ => false,
        }
    }

    fn copy_key(&self) -> (r: Self) {
        match self {
            TokenRole::User => TokenRole::User,
            TokenRole::Client => TokenRole::Client,
            TokenRole::CallerWorkload => TokenRole::CallerWorkload,
            TokenRole::Custom(s) => TokenRole::Custom(s.clone()),
        }
    }
}

/// The wire-format family of a raw token.
#[non_exhaustive]
#[derive(Debug, Clone, Copy, PartialEq, Eq, Structural)]
pub enum TokenKind {
    /// Standard JWT.
    Jwt,
    /// Opaque bearer.
    Opaque,
    /// SPIFFE JWT-SVID.
    SpiffeJwt,
    /// UCAN capability token.
    Ucan,
    /// Transaction token.
    TxnToken,
}

/// Which principal a delegated outbound token speaks for.
#[non_exhaustive]
#[derive(Debug, Clone, Copy, PartialEq, Eq, Hash, Structural)]
pub enum DelegationMode {
    /// The original user.
    OnBehalfOfUser,
    /// The calling client, acting as itself.
    AsClient,
    /// The calling workload, acting as itself.
    AsCallerWorkload,
    /// This instance's own identity.
    AsThisWorkload,
}

/// One inbound credential, captured at the wire layer.
#[derive(Debug)]
pub struct RawInboundToken {
    /// The raw credential. Cleared on drop.
    pub token: SecretText,
    /// The header (or other wire-level slot) the token arrived in.
    pub source_header: String,
    /// Wire-format family of the token.
    pub kind: TokenKind,
}

/// What a [`RawInboundToken`] is.
pub struct InboundView {
    /// The raw credential.
    pub token: Seq<char>,
    /// The header it arrived in.
    pub source_header: Seq<char>,
    /// Its wire-format family.
    pub kind: TokenKind,
}

impl View for RawInboundToken {
    type V = InboundView;

    open spec fn view(&self) -> InboundView {
        InboundView { token: self.token@, source_header: self.source_header@, kind: self.kind }
    }
}

impl RawInboundToken {
    /// Build a token from raw material and metadata.
    pub fn new(token: &str, source_header: &str, kind: TokenKind) -> (r: Self)
        ensures
            r@ == (InboundView { token: token@, source_header: source_header@, kind }),
    {
        RawInboundToken {
            token: SecretText::new(token),
            source_header: source_header.to_owned(),
            kind,
        }
    }

    /// What may be written out: all but the secret. An empty bearer
    /// authenticates nowhere.
    pub fn without_secret(&self) -> (r: Self)
        ensures
            r@ == inbound_stripped(self@),
    {
        RawInboundToken {
            token: SecretText::new(""),
            source_header: self.source_header.clone(),
            kind: self.kind,
        }
    }
}

/// `t` without its secret.
pub open spec fn inbound_stripped(t: InboundView) -> InboundView {
    InboundView { token: ""@, ..t }
}

impl Clone for RawInboundToken {
    fn clone(&self) -> (r: Self)
        ensures
            r@ == self@,
    {
        RawInboundToken {
            token: self.token.clone(),
            source_header: self.source_header.clone(),
            kind: self.kind,
        }
    }
}

/// Composite key for cached delegated tokens.
///
/// Carries everything that makes two token requests different, every
/// principal that took part among it. The order of scopes counts.
#[non_exhaustive]
#[derive(Debug, Hash, Eq, PartialEq, Clone)]
pub struct DelegationKey {
    /// The user the token speaks for. Empty when no user took part.
    pub subject_id: String,
    /// SPIFFE-ID of the calling workload, when one took part.
    pub workload_id: Option<String>,
    /// Client-id of the calling OAuth client, when one took part.
    pub client_id: Option<String>,
    /// The audience the token is for.
    pub audience: String,
    /// The scopes it carries.
    pub scopes: Vec<String>,
    /// How it was obtained.
    pub mode: DelegationMode,
}

/// What tells one [`DelegationKey`] from another.
#[verifier::ext_equal]
pub struct DelegationKeyId {
    /// The user.
    pub subject_id: Seq<char>,
    /// The calling workload.
    pub workload_id: Option<Seq<char>>,
    /// The calling client.
    pub client_id: Option<Seq<char>>,
    /// The audience.
    pub audience: Seq<char>,
    /// The scopes, in order.
    pub scopes: Seq<Seq<char>>,
    /// How the token was obtained.
    pub mode: DelegationMode,
}

impl MapKey for DelegationKey {
    type Id = DelegationKeyId;

    open spec fn id(&self) -> DelegationKeyId {
        DelegationKeyId {
            subject_id: self.subject_id@,
            workload_id: value::opt_text(self.workload_id),
            client_id: value::opt_text(self.client_id),
            audience: self.audience@,
            scopes: value::text_seq(self.scopes@),
            mode: self.mode,
        }
    }

    fn same_key(&self, other: &Self) -> (r: bool) {
        text::same(self.subject_id.as_str(), other.subject_id.as_str()) && value::same_opt_text(
            &self.workload_id,
            &other.workload_id,
        ) && value::same_opt_text(&self.client_id, &other.client_id) && text::same(
            self.audience.as_str(),
            other.audience.as_str(),
        ) && value::same_texts(&self.scopes, &other.scopes) && self.mode == other.mode
    }

    fn copy_key(&self) -> (r: Self) {
        DelegationKey {
            subject_id: self.subject_id.clone(),
            workload_id: self.workload_id.clone(),
            client_id: self.client_id.clone(),
            audience: self.audience.clone(),
            scopes: value::copy_texts(&self.scopes),
            mode: self.mode,
        }
    }
}

impl DelegationKey {
    /// A key for `mode`, `audience` and `scopes`, with no principal ids set.
    pub fn new(mode: DelegationMode, audience: &str, scopes: Vec<String>) -> (r: Self)
        ensures
            r.subject_id@ == Seq::<char>::empty(),
            r.workload_id is None,
            r.client_id is None,
            r.audience@ == audience@,
            r.scopes == scopes,
            r.mode == mode,
    {
        DelegationKey {
            subject_id: String::new(),
            workload_id: None,
            client_id: None,
            audience: audience.to_owned(),
            scopes,
            mode,
        }
    }

    /// Set the user principal.
    #[must_use]
    pub fn with_subject_id(self, subject_id: &str) -> (r: Self)
        ensures
            r.subject_id@ == subject_id@,
            r == (DelegationKey { subject_id: r.subject_id, ..self }),
    {
        DelegationKey { subject_id: subject_id.to_owned(), ..self }
    }

    /// Set the calling-workload principal.
    #[must_use]
    pub fn with_workload_id(self, workload_id: Option<String>) -> (r: Self)
        ensures
            r == (DelegationKey { workload_id, ..self }),
    {
        DelegationKey { workload_id, ..self }
    }

    /// Set the calling-client principal.
    #[must_use]
    pub fn with_client_id(self, client_id: Option<String>) -> (r: Self)
        ensures
            r == (DelegationKey { client_id, ..self }),
    {
        DelegationKey { client_id, ..self }
    }
}

/// Two keys are one only where every principal, the audience, the scopes in
/// their order, and the mode are the same: no caller is handed a token that
/// was minted for another.
pub proof fn law_a_key_tells_every_principal_apart(a: DelegationKey, b: DelegationKey)
    ensures
        a.id() == b.id() <==> {
            &&& a.subject_id@ == b.subject_id@
            &&& value::opt_text(a.workload_id) == value::opt_text(b.workload_id)
            &&& value::opt_text(a.client_id) == value::opt_text(b.client_id)
            &&& a.audience@ == b.audience@
            &&& value::text_seq(a.scopes@) == value::text_seq(b.scopes@)
            &&& a.mode == b.mode
        },
{
}

/// One minted outbound credential.
#[derive(Debug)]
pub struct RawDelegatedToken {
    /// The minted outbound credential. Cleared on drop.
    pub token: SecretText,
    /// Where the consuming plugin should attach the token.
    pub outbound_header: String,
    /// The audience the token was minted for.
    pub audience: String,
    /// Effective scopes on the minted token.
    pub scopes: Vec<String>,
    /// When it expires.
    pub expires_at: Timestamp,
}

/// What a [`RawDelegatedToken`] is.
#[verifier::ext_equal]
pub struct DelegatedView {
    /// The minted credential.
    pub token: Seq<char>,
    /// Where to attach it.
    pub outbound_header: Seq<char>,
    /// Its audience.
    pub audience: Seq<char>,
    /// Its scopes.
    pub scopes: Seq<Seq<char>>,
    /// When it expires.
    pub expires_at: Timestamp,
}

impl View for RawDelegatedToken {
    type V = DelegatedView;

    open spec fn view(&self) -> DelegatedView {
        DelegatedView {
            token: self.token@,
            outbound_header: self.outbound_header@,
            audience: self.audience@,
            scopes: value::text_seq(self.scopes@),
            expires_at: self.expires_at,
        }
    }
}

impl RawDelegatedToken {
    /// A token with its audience, scopes, outbound header, and expiry.
    pub fn new(
        token: &str,
        outbound_header: &str,
        audience: &str,
        scopes: Vec<String>,
        expires_at: Timestamp,
    ) -> (r: Self)
        ensures
            r@ == (DelegatedView {
                token: token@,
                outbound_header: outbound_header@,
                audience: audience@,
                scopes: value::text_seq(scopes@),
                expires_at,
            }),
    {
        RawDelegatedToken {
            token: SecretText::new(token),
            outbound_header: outbound_header.to_owned(),
            audience: audience.to_owned(),
            scopes,
            expires_at,
        }
    }

    /// What may be written out: all but the secret.
    pub fn without_secret(&self) -> (r: Self)
        ensures
            r@ == delegated_stripped(self@),
    {
        RawDelegatedToken {
            token: SecretText::new(""),
            outbound_header: self.outbound_header.clone(),
            audience: self.audience.clone(),
            scopes: value::copy_texts(&self.scopes),
            expires_at: self.expires_at,
        }
    }
}

/// `t` without its secret.
pub open spec fn delegated_stripped(t: DelegatedView) -> DelegatedView {
    DelegatedView { token: ""@, ..t }
}

impl Clone for RawDelegatedToken {
    fn clone(&self) -> (r: Self)
        ensures
            r@ == self@,
    {
        RawDelegatedToken {
            token: self.token.clone(),
            outbound_header: self.outbound_header.clone(),
            audience: self.audience.clone(),
            scopes: value::copy_texts(&self.scopes),
            expires_at: self.expires_at,
        }
    }
}

/// The raw credentials of a request.
#[derive(Debug)]
pub struct RawCredentialsExtension {
    /// Raw inbound tokens, by the principal each represents.
    pub inbound_tokens: KeyMap<TokenRole, RawInboundToken>,
    /// Outbound delegated tokens, by what each was minted for.
    pub delegated_tokens: KeyMap<DelegationKey, RawDelegatedToken>,
}

/// What a [`RawCredentialsExtension`] is.
#[verifier::ext_equal]
pub struct CredentialsView {
    /// The inbound tokens.
    pub inbound_tokens: Map<RoleId, InboundView>,
    /// The delegated tokens.
    pub delegated_tokens: Map<DelegationKeyId, DelegatedView>,
}

impl View for RawCredentialsExtension {
    type V = CredentialsView;

    open spec fn view(&self) -> CredentialsView {
        CredentialsView {
            inbound_tokens: self.inbound_tokens@.map_values(|t: RawInboundToken| t@),
            delegated_tokens: self.delegated_tokens@.map_values(|t: RawDelegatedToken| t@),
        }
    }
}

impl Default for RawCredentialsExtension {
    fn default() -> (r: Self)
        ensures
            r.inbound_tokens@.dom() == Set::<RoleId>::empty(),
            r.delegated_tokens@.dom() == Set::<DelegationKeyId>::empty(),
    {
        let r = RawCredentialsExtension {
            inbound_tokens: KeyMap::new(),
            delegated_tokens: KeyMap::new(),
        };
        assert(r.inbound_tokens@.dom() =~= Set::<RoleId>::empty());
        assert(r.delegated_tokens@.dom() =~= Set::<DelegationKeyId>::empty());
        r
    }
}

/// `c` without its secrets: what may be written out.
pub open spec fn stripped(c: CredentialsView) -> CredentialsView {
    CredentialsView {
        inbound_tokens: c.inbound_tokens.map_values(|t: InboundView| inbound_stripped(t)),
        delegated_tokens: c.delegated_tokens.map_values(|t: DelegatedView| delegated_stripped(t)),
    }
}

/// Whether two tokens differ in nothing but the secret.
pub open spec fn inbound_alike(a: InboundView, b: InboundView) -> bool {
    a.source_header == b.source_header && a.kind == b.kind
}

/// Whether two tokens differ in nothing but the secret.
pub open spec fn delegated_alike(a: DelegatedView, b: DelegatedView) -> bool {
    a.outbound_header == b.outbound_header && a.audience == b.audience && a.scopes == b.scopes
        && a.expires_at == b.expires_at
}

/// Whether two sets of credentials differ in nothing but their secrets.
pub open spec fn alike(a: CredentialsView, b: CredentialsView) -> bool {
    &&& a.inbound_tokens.dom() == b.inbound_tokens.dom()
    &&& a.delegated_tokens.dom() == b.delegated_tokens.dom()
    &&& forall|k: RoleId| #[trigger]
        a.inbound_tokens.contains_key(k) ==> inbound_alike(a.inbound_tokens[k], b.inbound_tokens[k])
    &&& forall|k: DelegationKeyId| #[trigger]
        a.delegated_tokens.contains_key(k) ==> delegated_alike(
            a.delegated_tokens[k],
            b.delegated_tokens[k],
        )
}

impl RawCredentialsExtension {
    /// What may be written out: every key, and all of every token but its
    /// secret. No path that writes this out can carry a secret.
    pub fn without_secrets(&self) -> (r: Self)
        ensures
            r@ == stripped(self@),
    {
        let mut inbound_tokens: KeyMap<TokenRole, RawInboundToken> = KeyMap::new();
        let n = self.inbound_tokens.len();
        let ghost roles = self.inbound_tokens.order();
        let mut i: usize = 0;
        while i < n
            invariant
                i <= n,
                n == roles.len(),
                roles == self.inbound_tokens.order(),
                forall|k: RoleId| #[trigger]
                    inbound_tokens@.contains_key(k) <==> exists|j: int|
                        0 <= j < i && (#[trigger] roles[j]).id() == k,
                forall|k: RoleId| #[trigger]
                    inbound_tokens@.contains_key(k) ==> self.inbound_tokens@.contains_key(k)
                        && inbound_tokens@[k]@ == inbound_stripped(self.inbound_tokens@[k]@),
            decreases n - i,
        {
            let (role, token) = self.inbound_tokens.entry(i);
            let ghost before = inbound_tokens@;
            inbound_tokens.insert(role.copy_key(), token.without_secret());
            assert forall|k: RoleId| #[trigger]
                inbound_tokens@.contains_key(k) <==> exists|j: int|
                    0 <= j < i + 1 && (#[trigger] roles[j]).id() == k by {
                if before.contains_key(k) {
                    let j = choose|j: int| 0 <= j < i && (#[trigger] roles[j]).id() == k;
                    assert(roles[j].id() == k);
                }
                assert(roles[i as int].id() == role.id());
            }
            i += 1;
        }
        let mut delegated_tokens: KeyMap<DelegationKey, RawDelegatedToken> = KeyMap::new();
        let n = self.delegated_tokens.len();
        let ghost keys = self.delegated_tokens.order();
        let mut i: usize = 0;
        while i < n
            invariant
                i <= n,
                n == keys.len(),
                keys == self.delegated_tokens.order(),
                forall|k: DelegationKeyId| #[trigger]
                    delegated_tokens@.contains_key(k) <==> exists|j: int|
                        0 <= j < i && (#[trigger] keys[j]).id() == k,
                forall|k: DelegationKeyId| #[trigger]
                    delegated_tokens@.contains_key(k) ==> self.delegated_tokens@.contains_key(k)
                        && delegated_tokens@[k]@ == delegated_stripped(self.delegated_tokens@[k]@),
            decreases n - i,
        {
            let (key, token) = self.delegated_tokens.entry(i);
            let ghost before = delegated_tokens@;
            delegated_tokens.insert(key.copy_key(), token.without_secret());
            assert forall|k: DelegationKeyId| #[trigger]
                delegated_tokens@.contains_key(k) <==> exists|j: int|
                    0 <= j < i + 1 && (#[trigger] keys[j]).id() == k by {
                if before.contains_key(k) {
                    let j = choose|j: int| 0 <= j < i && (#[trigger] keys[j]).id() == k;
                    assert(keys[j].id() == k);
                }
                assert(keys[i as int].id() == key.id());
            }
            i += 1;
        }
        let r = RawCredentialsExtension { inbound_tokens, delegated_tokens };
        assert(r@.inbound_tokens =~= stripped(self@).inbound_tokens);
        assert(r@.delegated_tokens =~= stripped(self@).delegated_tokens);
        r
    }
}

/// What is written out tells nothing of the secrets: it is the same for all
/// credentials that differ in nothing but them.
pub proof fn law_what_is_written_out_holds_no_secret(a: CredentialsView, b: CredentialsView)
    requires
        alike(a, b),
    ensures
        stripped(a) == stripped(b),
{
    assert(stripped(a).inbound_tokens =~= stripped(b).inbound_tokens);
    assert(stripped(a).delegated_tokens =~= stripped(b).delegated_tokens);
}

/// Everything but the secrets is written out: what was written and read back is
/// alike to what it came from, and to write it again changes nothing.
pub proof fn law_all_but_the_secrets_is_written_out(c: CredentialsView)
    ensures
        alike(c, stripped(c)),
        stripped(stripped(c)) == stripped(c),
{
    assert(c.inbound_tokens.dom() =~= stripped(c).inbound_tokens.dom());
    assert(c.delegated_tokens.dom() =~= stripped(c).delegated_tokens.dom());
    assert(stripped(stripped(c)).inbound_tokens =~= stripped(c).inbound_tokens);
    assert(stripped(stripped(c)).delegated_tokens =~= stripped(c).delegated_tokens);
}

impl Clone for RawCredentialsExtension {
    fn clone(&self) -> (r: Self)
        ensures
            r@ == self@,
    {
        let r = RawCredentialsExtension {
            inbound_tokens: self.inbound_tokens.clone(),
            delegated_tokens: self.delegated_tokens.clone(),
        };
        assert(r@.inbound_tokens =~= self@.inbound_tokens);
        assert(r@.delegated_tokens =~= self@.delegated_tokens);
        r
    }
}

/// What is written out of credentials holds, under every key that they hold, the token
/// with a blank in the place of its secret and all else as it was.
pub proof fn law_a_written_token_is_blank(
    c: CredentialsView,
    role: RoleId,
    key: DelegationKeyId,
)
    ensures
        stripped(c).inbound_tokens.contains_key(role) <==> c.inbound_tokens.contains_key(role),
        c.inbound_tokens.contains_key(role) ==> {
            let was = c.inbound_tokens[role];
            let now = stripped(c).inbound_tokens[role];
            &&& now.token.len() == 0
            &&& now.source_header == was.source_header
            &&& now.kind == was.kind
        },
        stripped(c).delegated_tokens.contains_key(key) <==> c.delegated_tokens.contains_key(key),
        c.delegated_tokens.contains_key(key) ==> {
            let was = c.delegated_tokens[key];
            let now = stripped(c).delegated_tokens[key];
            &&& now.token.len() == 0
            &&& now.outbound_header == was.outbound_header
            &&& now.audience == was.audience
            &&& now.scopes == was.scopes
            &&& now.expires_at == was.expires_at
        },
{
    reveal_strlit("");
}

/// Roles are told apart: the three that are known from each other and from every other,
/// and the others by their names.
pub proof fn law_roles_are_told_apart(a: TokenRole, b: TokenRole)
    requires
        a.id() == b.id(),
    ensures
        a is User <==> b is User,
        a is Client <==> b is Client,
        a is CallerWorkload <==> b is CallerWorkload,
        a is Custom <==> b is Custom,
        a is Custom ==> a->Custom_0@ == b->Custom_0@,
{
}

/// Tokens that look alike are alike in every part, and credentials that look alike hold
/// alike tokens under the same keys.
pub proof fn law_credentials_that_look_alike_are_alike(
    a: RawCredentialsExtension,
    b: RawCredentialsExtension,
    role: RoleId,
    key: DelegationKeyId,
)
    requires
        a@ == b@,
    ensures
        a.inbound_tokens@.contains_key(role) <==> b.inbound_tokens@.contains_key(role),
        a.inbound_tokens@.contains_key(role) ==> {
            let x = a.inbound_tokens@[role];
            let y = b.inbound_tokens@[role];
            &&& x.token@ == y.token@
            &&& x.source_header@ == y.source_header@
            &&& x.kind == y.kind
        },
        a.delegated_tokens@.contains_key(key) <==> b.delegated_tokens@.contains_key(key),
        a.delegated_tokens@.contains_key(key) ==> {
            let x = a.delegated_tokens@[key];
            let y = b.delegated_tokens@[key];
            &&& x.token@ == y.token@
            &&& x.outbound_header@ == y.outbound_header@
            &&& x.audience@ == y.audience@
            &&& value::text_seq(x.scopes@) == value::text_seq(y.scopes@)
            &&& x.expires_at == y.expires_at
        },
{
    assert(a@.inbound_tokens.contains_key(role) <==> a.inbound_tokens@.contains_key(role));
    assert(b@.inbound_tokens.contains_key(role) <==> b.inbound_tokens@.contains_key(role));
    assert(a@.delegated_tokens.contains_key(key) <==> a.delegated_tokens@.contains_key(key));
    assert(b@.delegated_tokens.contains_key(key) <==> b.delegated_tokens@.contains_key(key));
    if a.inbound_tokens@.contains_key(role) {
        assert(a@.inbound_tokens[role] == a.inbound_tokens@[role]@);
        assert(b@.inbound_tokens[role] == b.inbound_tokens@[role]@);
    }
    if a.delegated_tokens@.contains_key(key) {
        assert(a@.delegated_tokens[key] == a.delegated_tokens@[key]@);
        assert(b@.delegated_tokens[key] == b.delegated_tokens@[key]@);
    }
}

} // verus!
