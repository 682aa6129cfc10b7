//! Hook type identity. Hook names are open: a host has its own beside the
//! built-in ones.
use crate::hooks::metadata;
use crate::text;
use vstd::prelude::*;

verus! {

/// A named hook point in the host's execution lifecycle.
#[derive(Debug, Clone, PartialEq, Eq, Hash)]
pub struct HookType(String);

impl View for HookType {
    type V = Seq<char>;

    closed spec fn view(&self) -> Seq<char> {
        self.0@
    }
}

impl HookType {
    /// Create a new hook type from a string.
    pub fn new(name: &str) -> (r: Self)
        ensures
            r@ == name@,
    {
        HookType(name.to_owned())
    }

    /// Return the hook type as a string slice.
    pub fn as_str(&self) -> (r: &str)
        ensures
            r@ == self@,
    {
        self.0.as_str()
    }

    /// The hook type's name, as text of its own.
    pub fn text(&self) -> (r: String)
        ensures
            r@ == self@,
    {
        self.0.clone()
    }
}

impl From<&str> for HookType {
    fn from(s: &str) -> (r: Self)
        ensures
            r@ == s@,
    {
        HookType::new(s)
    }
}

impl vstd::std_specs::convert::FromSpecImpl<&str> for HookType {
    open spec fn obeys_from_spec() -> bool {
        false
    }

    open spec fn from_spec(s: &str) -> HookType {
        arbitrary()
    }
}

impl From<String> for HookType {
    fn from(s: String) -> (r: Self)
        ensures
            r@ == s@,
    {
        HookType(s)
    }
}

impl vstd::std_specs::convert::FromSpecImpl<String> for HookType {
    open spec fn obeys_from_spec() -> bool {
        false
    }

    open spec fn from_spec(s: String) -> HookType {
        arbitrary()
    }
}

/// Returns all built-in hook types, in the order of the built-in table.
pub fn builtin_hook_types() -> (r: Vec<HookType>)
    ensures
        r@.len() == metadata::builtin_rows().len(),
        forall|i: int| 0 <= i < r@.len() ==> (#[trigger] r@[i])@ == metadata::builtin_rows()[i].0@,
{
    let rows = metadata::builtin_hook_metadata();
    let mut out: Vec<HookType> = Vec::new();
    let mut i: usize = 0;
    while i < rows.len()
        invariant
            i <= rows@.len(),
            out@.len() == i,
            forall|k: int| 0 <= k < i ==> (#[trigger] out@[k])@ == rows@[k].0@,
        decreases rows@.len() - i,
    {
        let (name, _) = rows[i];
        out.push(HookType::new(name));
        i += 1;
    }
    out
}

/// Look up a hook type by name: the built-in of that name where there is one,
/// else a custom hook type. Either way it carries the name that was asked for.
pub fn hook_type_from_str(name: &str) -> (r: HookType)
    ensures
        r@ == name@,
{
    let rows = metadata::builtin_hook_metadata();
    let mut i: usize = 0;
    while i < rows.len()
        invariant
            i <= rows@.len(),
        decreases rows@.len() - i,
    {
        let (builtin, _) = rows[i];
        if text::same(builtin, name) {
            return HookType::new(builtin);
        }
        i += 1;
    }
    HookType::new(name)
}

} // verus!
