//! The extensions of a request, slot by slot.
use crate::extensions::http_extension::HttpExtension;
use crate::extensions::raw_credentials::RawCredentialsExtension;
use crate::extensions::security::SecurityExtension;
use crate::host::ServiceSlot;
use crate::plugin::Handle;
use crate::value;
use std::sync::Arc;
use vstd::prelude::*;

verus! {

/// What a request is about.
#[derive(Debug, Clone, Default)]
pub struct MetaExtension {
    /// The kind of entity: a tool, a prompt, a resource, a model.
    pub entity_type: Option<String>,
    /// The entity's name.
    pub entity_name: Option<String>,
    /// The virtual server or gateway that the request came in by.
    pub scope: Option<String>,
    /// Tags that the host attached.
    pub tags: Vec<String>,
}

/// The chain of principals that a request was delegated through.
#[derive(Debug, Default)]
pub struct DelegationExtension {
    /// The principals, from the first on.
    pub chain: Vec<String>,
}

impl View for DelegationExtension {
    type V = Seq<Seq<char>>;

    open spec fn view(&self) -> Seq<Seq<char>> {
        value::text_seq(self.chain@)
    }
}

impl Clone for DelegationExtension {
    fn clone(&self) -> (r: Self)
        ensures
            r@ == self@,
    {
        DelegationExtension { chain: value::copy_texts(&self.chain) }
    }
}

/// The extensions of a request. A slot is shared, and replaced whole.
#[derive(Debug)]
pub struct Extensions {
    /// What the request is about.
    pub meta: Option<Arc<MetaExtension>>,
    /// Who it comes from, and its labels.
    pub security: Option<Arc<SecurityExtension>>,
    /// Its raw credentials.
    pub raw_credentials: Option<Arc<RawCredentialsExtension>>,
    /// What it was delegated through.
    pub delegation: Option<Arc<DelegationExtension>>,
    /// The HTTP exchange it is part of.
    pub http: Option<Arc<HttpExtension>>,
    /// The host's outbound HTTP transport, as far as it may be reached.
    pub http_transport: ServiceSlot<Handle>,
}

/// Extensions that hold nothing.
pub open spec fn no_extensions() -> Extensions {
    Extensions {
        meta: None,
        security: None,
        raw_credentials: None,
        delegation: None,
        http: None,
        http_transport: ServiceSlot::NotInstalled,
    }
}

impl Default for Extensions {
    fn default() -> (r: Self)
        ensures
            r == no_extensions(),
    {
        Extensions {
            meta: None,
            security: None,
            raw_credentials: None,
            delegation: None,
            http: None,
            http_transport: ServiceSlot::NotInstalled,
        }
    }
}

/// Extensions that hold nothing have no slot filled and no transport.
pub proof fn law_empty_extensions_hold_nothing()
    ensures
        no_extensions().meta is None,
        no_extensions().security is None,
        no_extensions().raw_credentials is None,
        no_extensions().delegation is None,
        no_extensions().http is None,
        no_extensions().http_transport is NotInstalled,
{
}

/// A delegation chain is its principals, from the first to the last.
pub proof fn law_a_chain_is_its_principals(d: DelegationExtension, i: int)
    ensures
        d@.len() == d.chain@.len(),
        0 <= i < d.chain@.len() ==> d@[i] == d.chain@[i]@,
{
}

} // verus!
