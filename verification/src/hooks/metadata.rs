//! Hook routing metadata: which dispatch context a hook name belongs to.
use crate::identity::hook;
use crate::identity::hook::HOOK_IDENTITY_RESOLVE;
use crate::text;
use crate::value;
use crate::value::TextMap;
use vstd::prelude::*;

verus! {

/// Entity type of tools.
pub const ENTITY_TOOL: &'static str = "tool";

/// Entity type of models.
pub const ENTITY_LLM: &'static str = "llm";

/// Entity type of prompts.
pub const ENTITY_PROMPT: &'static str = "prompt";

/// Entity type of resources.
pub const ENTITY_RESOURCE: &'static str = "resource";

/// Entity type of generic HTTP requests.
pub const ENTITY_HTTP: &'static str = "http";

/// Hook `cmf.tool_pre_invoke`.
pub const HOOK_CMF_TOOL_PRE_INVOKE: &'static str = "cmf.tool_pre_invoke";

/// Hook `cmf.tool_post_invoke`.
pub const HOOK_CMF_TOOL_POST_INVOKE: &'static str = "cmf.tool_post_invoke";

/// Hook `cmf.llm_input`.
pub const HOOK_CMF_LLM_INPUT: &'static str = "cmf.llm_input";

/// Hook `cmf.llm_output`.
pub const HOOK_CMF_LLM_OUTPUT: &'static str = "cmf.llm_output";

/// Hook `cmf.prompt_pre_invoke`.
pub const HOOK_CMF_PROMPT_PRE_INVOKE: &'static str = "cmf.prompt_pre_invoke";

/// Hook `cmf.prompt_post_invoke`.
pub const HOOK_CMF_PROMPT_POST_INVOKE: &'static str = "cmf.prompt_post_invoke";

/// Hook `cmf.resource_pre_fetch`.
pub const HOOK_CMF_RESOURCE_PRE_FETCH: &'static str = "cmf.resource_pre_fetch";

/// Hook `cmf.resource_post_fetch`.
pub const HOOK_CMF_RESOURCE_POST_FETCH: &'static str = "cmf.resource_post_fetch";

/// Hook `cmf.http_request`.
pub const HOOK_CMF_HTTP_REQUEST: &'static str = "cmf.http_request";

/// Hook `cmf.http_response`.
pub const HOOK_CMF_HTTP_RESPONSE: &'static str = "cmf.http_response";

/// Hook that mints outbound credentials.
pub const HOOK_TOKEN_DELEGATE: &'static str = "token.delegate";

/// Hook that asks a person.
pub const HOOK_ELICIT: &'static str = "elicit";

/// Lifecycle position a hook occupies for dispatcher purposes.
#[derive(Debug, Clone, Copy, PartialEq, Eq, Hash, Structural)]
pub enum HookPhase {
    /// Before the call that policy is asked about.
    Pre,
    /// After it.
    Post,
    /// Not bound to a phase: matches any that is asked for.
    Unphased,
}

/// Metadata describing what dispatch context a hook name belongs to.
#[derive(Debug, Clone, Copy, PartialEq, Eq)]
pub struct HookMetadata {
    /// Entity type the hook applies to; `None` where it applies to any.
    pub entity_type: Option<&'static str>,
    /// Lifecycle phase the hook occupies.
    pub phase: HookPhase,
}

/// Whether a hook answers for a request: its entity type is that of the
/// request, or one of the two names none; its phase is the one asked for, or one
/// of the two is `Unphased`.
pub open spec fn answers(hook: HookMetadata, entity: Option<Seq<char>>, phase: HookPhase) -> bool {
    &&& match (hook.entity_type, entity) {
        (Some(of_hook), Some(of_request)) => of_hook@ == of_request,
        _ => true,
    }
    &&& hook.phase == phase || hook.phase == HookPhase::Unphased || phase == HookPhase::Unphased
}

impl HookMetadata {
    /// The wildcard: no entity type, no phase. A caller that wants an
    /// unregistered hook to dispatch asks for it.
    pub fn permissive() -> (r: Self)
        ensures
            r == (HookMetadata { entity_type: None, phase: HookPhase::Unphased }),
    {
        HookMetadata { entity_type: None, phase: HookPhase::Unphased }
    }

    /// Whether this hook's metadata matches a dispatch context.
    pub fn matches(&self, request_entity_type: Option<&str>, requested_phase: HookPhase) -> (r: bool)
        ensures
            r == answers(*self, value::opt_str(request_entity_type), requested_phase),
    {
        let entity_ok = match (self.entity_type, request_entity_type) {
            (Some(of_hook), Some(of_request)) => text::same(of_hook, of_request),
            (Some(_), None) => true,
            (None, _) => true,
        };
        if !entity_ok {
            return false;
        }
        match (self.phase, requested_phase) {
            (HookPhase::Unphased, _) => true,
            (_, HookPhase::Unphased) => true,
            (a, b) => a == b,
        }
    }
}

/// The wildcard matches every dispatch context.
pub proof fn law_the_wildcard_matches_everything(entity: Option<Seq<char>>, phase: HookPhase)
    ensures
        answers(HookMetadata { entity_type: None, phase: HookPhase::Unphased }, entity, phase),
{
}

/// Matching is symmetric in the wildcards: a request that names no entity type
/// and no phase is answered by every hook.
pub proof fn law_an_open_request_is_answered_by_every_hook(hook: HookMetadata)
    ensures
        answers(hook, None, HookPhase::Unphased),
{
}

/// The rows of the message hooks.
pub open spec fn cmf_rows() -> Seq<(&'static str, HookMetadata)> {
    seq![
        (
            HOOK_CMF_TOOL_PRE_INVOKE,
            HookMetadata { entity_type: Some(ENTITY_TOOL), phase: HookPhase::Pre },
        ),
        (
            HOOK_CMF_TOOL_POST_INVOKE,
            HookMetadata { entity_type: Some(ENTITY_TOOL), phase: HookPhase::Post },
        ),
        (
            HOOK_CMF_LLM_INPUT,
            HookMetadata { entity_type: Some(ENTITY_LLM), phase: HookPhase::Pre },
        ),
        (
            HOOK_CMF_LLM_OUTPUT,
            HookMetadata { entity_type: Some(ENTITY_LLM), phase: HookPhase::Post },
        ),
        (
            HOOK_CMF_PROMPT_PRE_INVOKE,
            HookMetadata { entity_type: Some(ENTITY_PROMPT), phase: HookPhase::Pre },
        ),
        (
            HOOK_CMF_PROMPT_POST_INVOKE,
            HookMetadata { entity_type: Some(ENTITY_PROMPT), phase: HookPhase::Post },
        ),
        (
            HOOK_CMF_RESOURCE_PRE_FETCH,
            HookMetadata { entity_type: Some(ENTITY_RESOURCE), phase: HookPhase::Pre },
        ),
        (
            HOOK_CMF_RESOURCE_POST_FETCH,
            HookMetadata { entity_type: Some(ENTITY_RESOURCE), phase: HookPhase::Post },
        ),
        (
            HOOK_CMF_HTTP_REQUEST,
            HookMetadata { entity_type: Some(ENTITY_HTTP), phase: HookPhase::Pre },
        ),
        (
            HOOK_CMF_HTTP_RESPONSE,
            HookMetadata { entity_type: Some(ENTITY_HTTP), phase: HookPhase::Post },
        ),
    ]
}

/// The rows of the message hooks.
pub fn cmf_hook_metadata() -> (r: Vec<(&'static str, HookMetadata)>)
    ensures
        r@ == cmf_rows(),
{
    vec![
        (
            HOOK_CMF_TOOL_PRE_INVOKE,
            HookMetadata { entity_type: Some(ENTITY_TOOL), phase: HookPhase::Pre },
        ),
        (
            HOOK_CMF_TOOL_POST_INVOKE,
            HookMetadata { entity_type: Some(ENTITY_TOOL), phase: HookPhase::Post },
        ),
        (
            HOOK_CMF_LLM_INPUT,
            HookMetadata { entity_type: Some(ENTITY_LLM), phase: HookPhase::Pre },
        ),
        (
            HOOK_CMF_LLM_OUTPUT,
            HookMetadata { entity_type: Some(ENTITY_LLM), phase: HookPhase::Post },
        ),
        (
            HOOK_CMF_PROMPT_PRE_INVOKE,
            HookMetadata { entity_type: Some(ENTITY_PROMPT), phase: HookPhase::Pre },
        ),
        (
            HOOK_CMF_PROMPT_POST_INVOKE,
            HookMetadata { entity_type: Some(ENTITY_PROMPT), phase: HookPhase::Post },
        ),
        (
            HOOK_CMF_RESOURCE_PRE_FETCH,
            HookMetadata { entity_type: Some(ENTITY_RESOURCE), phase: HookPhase::Pre },
        ),
        (
            HOOK_CMF_RESOURCE_POST_FETCH,
            HookMetadata { entity_type: Some(ENTITY_RESOURCE), phase: HookPhase::Post },
        ),
        (
            HOOK_CMF_HTTP_REQUEST,
            HookMetadata { entity_type: Some(ENTITY_HTTP), phase: HookPhase::Pre },
        ),
        (
            HOOK_CMF_HTTP_RESPONSE,
            HookMetadata { entity_type: Some(ENTITY_HTTP), phase: HookPhase::Post },
        ),
    ]
}

/// The row of a hook outside the request's lifecycle.
pub open spec fn unphased_row(name: &'static str) -> Seq<(&'static str, HookMetadata)> {
    seq![(name, HookMetadata { entity_type: None, phase: HookPhase::Unphased })]
}

/// The rows of the delegation hook.
pub fn delegation_hook_metadata() -> (r: Vec<(&'static str, HookMetadata)>)
    ensures
        r@ == unphased_row(HOOK_TOKEN_DELEGATE),
{
    vec![(HOOK_TOKEN_DELEGATE, HookMetadata::permissive())]
}

/// The rows of the elicitation hook.
pub fn elicitation_hook_metadata() -> (r: Vec<(&'static str, HookMetadata)>)
    ensures
        r@ == unphased_row(HOOK_ELICIT),
{
    vec![(HOOK_ELICIT, HookMetadata::permissive())]
}

/// The rows of `tables`, one table behind another.
pub open spec fn flat(tables: Seq<Vec<(&'static str, HookMetadata)>>) -> Seq<
    (&'static str, HookMetadata),
>
    decreases tables.len(),
{
    if tables.len() == 0 {
        Seq::empty()
    } else {
        flat(tables.drop_last()) + tables.last()@
    }
}

/// Flatten `tables`.
pub fn concat_hook_tables(tables: &Vec<Vec<(&'static str, HookMetadata)>>) -> (r: Vec<
    (&'static str, HookMetadata),
>)
    ensures
        r@ == flat(tables@),
{
    let mut out: Vec<(&'static str, HookMetadata)> = Vec::new();
    let mut table: usize = 0;
    assert(tables@.take(0) =~= Seq::<Vec<(&'static str, HookMetadata)>>::empty());
    while table < tables.len()
        invariant
            table <= tables@.len(),
            out@ == flat(tables@.take(table as int)),
        decreases tables@.len() - table,
    {
        let rows = &tables[table];
        let mut row: usize = 0;
        assert(rows@.take(0) =~= Seq::<(&'static str, HookMetadata)>::empty());
        let ghost before = out@;
        assert(before + rows@.take(0) =~= before);
        while row < rows.len()
            invariant
                row <= rows@.len(),
                out@ == before + rows@.take(row as int),
            decreases rows@.len() - row,
        {
            out.push(rows[row]);
            assert(rows@.take(row as int).push(rows@[row as int]) =~= rows@.take(row + 1));
            assert(out@ =~= before + rows@.take(row + 1));
            row += 1;
        }
        assert(rows@.take(row as int) =~= rows@);
        assert(tables@.take(table + 1).drop_last() =~= tables@.take(table as int));
        assert(tables@.take(table + 1).last() == *rows);
        table += 1;
    }
    assert(tables@.take(table as int) =~= tables@);
    out
}

/// The built-in rows: every hook that the engine dispatches.
pub open spec fn builtin_rows() -> Seq<(&'static str, HookMetadata)> {
    cmf_rows() + unphased_row(HOOK_IDENTITY_RESOLVE) + unphased_row(HOOK_TOKEN_DELEGATE)
        + unphased_row(HOOK_ELICIT)
}

/// The per-module hook tables, in declaration order.
pub fn hook_tables() -> (r: Vec<Vec<(&'static str, HookMetadata)>>)
    ensures
        flat(r@) == builtin_rows(),
        r@.len() == 4,
{
    let mut tables: Vec<Vec<(&'static str, HookMetadata)>> = Vec::new();
    tables.push(cmf_hook_metadata());
    tables.push(hook::identity_hook_metadata());
    tables.push(delegation_hook_metadata());
    tables.push(elicitation_hook_metadata());
    proof {
        reveal_with_fuel(flat, 5);
        assert(flat(tables@) =~= builtin_rows());
    }
    tables
}

/// Built-in hook metadata, the authority for which hooks are dispatched.
pub fn builtin_hook_metadata() -> (r: Vec<(&'static str, HookMetadata)>)
    ensures
        r@ == builtin_rows(),
{
    concat_hook_tables(&hook_tables())
}

/// `rows` as a map, where the later of two rows with one name wins.
pub open spec fn by_name(rows: Seq<(&'static str, HookMetadata)>) -> Map<Seq<char>, HookMetadata>
    decreases rows.len(),
{
    if rows.len() == 0 {
        Map::empty()
    } else {
        by_name(rows.drop_last()).insert(rows.last().0@, rows.last().1)
    }
}

/// The metadata table as a host finds it: the built-in rows.
pub fn registry() -> (r: TextMap<HookMetadata>)
    ensures
        r@ == by_name(builtin_rows()),
{
    let rows = builtin_hook_metadata();
    let mut map: TextMap<HookMetadata> = TextMap::new();
    let mut i: usize = 0;
    assert(rows@.take(0) =~= Seq::<(&'static str, HookMetadata)>::empty());
    while i < rows.len()
        invariant
            i <= rows@.len(),
            map@ == by_name(rows@.take(i as int)),
        decreases rows@.len() - i,
    {
        let (name, meta) = rows[i];
        map.insert(name.to_owned(), meta);
        assert(rows@.take(i + 1).drop_last() =~= rows@.take(i as int));
        i += 1;
    }
    assert(rows@.take(i as int) =~= rows@);
    map
}

/// Look up metadata for a hook name. `None` means that `registry` holds no
/// entry, which is not the same as an entry whose phase is
/// [`HookPhase::Unphased`].
pub fn lookup(registry: &TextMap<HookMetadata>, hook_name: &str) -> (r: Option<HookMetadata>)
    ensures
        r == (if registry@.contains_key(hook_name@) {
            Some(registry@[hook_name@])
        } else {
            None
        }),
{
    match registry.get(hook_name) {
        Some(m) => Some(*m),
        None => None,
    }
}

/// Register or override metadata for a hook name.
pub fn register_hook_metadata(
    registry: &mut TextMap<HookMetadata>,
    hook_name: &str,
    meta: HookMetadata,
)
    ensures
        final(registry)@ == old(registry)@.insert(hook_name@, meta),
{
    registry.insert(hook_name.to_owned(), meta);
}

/// Each row of `by_name` of distinct names is found under its own name.
proof fn lemma_by_name(rows: Seq<(&'static str, HookMetadata)>)
    requires
        forall|i: int, j: int|
            0 <= i < j < rows.len() ==> (#[trigger] rows[i]).0@ != (#[trigger] rows[j]).0@,
    ensures
        forall|i: int|
            0 <= i < rows.len() ==> by_name(rows).contains_key((#[trigger] rows[i]).0@) && by_name(
                rows,
            )[rows[i].0@] == rows[i].1,
        forall|name: Seq<char>| #[trigger]
            by_name(rows).contains_key(name) ==> exists|i: int|
                0 <= i < rows.len() && (#[trigger] rows[i]).0@ == name,
    decreases rows.len(),
{
    if rows.len() > 0 {
        let rest = rows.drop_last();
        assert forall|i: int, j: int| 0 <= i < j < rest.len() implies (#[trigger] rest[i]).0@ != (
        #[trigger] rest[j]).0@ by {
            assert(rest[i] == rows[i] && rest[j] == rows[j]);
        }
        lemma_by_name(rest);
        let last = rows.len() - 1;
        assert forall|i: int| 0 <= i < rows.len() implies by_name(rows).contains_key(
            (#[trigger] rows[i]).0@,
        ) && by_name(rows)[rows[i].0@] == rows[i].1 by {
            if i < last {
                assert(rest[i] == rows[i]);
                assert(rows[i].0@ != rows[last].0@);
            }
        }
        assert forall|name: Seq<char>| #[trigger] by_name(rows).contains_key(name) implies exists|
            i: int,
        |
            0 <= i < rows.len() && (#[trigger] rows[i]).0@ == name by {
            if name == rows[last].0@ {
            } else {
                assert(by_name(rest).contains_key(name));
                let i = choose|i: int| 0 <= i < rest.len() && (#[trigger] rest[i]).0@ == name;
                assert(rows[i] == rest[i]);
            }
        }
    }
}

/// No two built-in hooks share a name.
pub proof fn law_no_two_builtin_hooks_share_a_name()
    ensures
        builtin_rows().len() == cmf_rows().len() + 3,
        forall|i: int, j: int|
            0 <= i < j < builtin_rows().len() ==> (#[trigger] builtin_rows()[i]).0@ != (
            #[trigger] builtin_rows()[j]).0@,
{
    let rows = builtin_rows();
    reveal_strlit("cmf.tool_pre_invoke");
    reveal_strlit("cmf.tool_post_invoke");
    reveal_strlit("cmf.llm_input");
    reveal_strlit("cmf.llm_output");
    reveal_strlit("cmf.prompt_pre_invoke");
    reveal_strlit("cmf.prompt_post_invoke");
    reveal_strlit("cmf.resource_pre_fetch");
    reveal_strlit("cmf.resource_post_fetch");
    reveal_strlit("cmf.http_request");
    reveal_strlit("cmf.http_response");
    reveal_strlit("identity.resolve");
    reveal_strlit("token.delegate");
    reveal_strlit("elicit");
    assert(rows[0].0@.len() == 19 && rows[0].0@[4] == 't');
    assert(rows[1].0@.len() == 20 && rows[1].0@[4] == 't');
    assert(rows[2].0@.len() == 13 && rows[2].0@[4] == 'l');
    assert(rows[3].0@.len() == 14 && rows[3].0@[4] == 'l');
    assert(rows[4].0@.len() == 21 && rows[4].0@[4] == 'p');
    assert(rows[5].0@.len() == 22 && rows[5].0@[4] == 'p');
    assert(rows[6].0@.len() == 22 && rows[6].0@[4] == 'r');
    assert(rows[7].0@.len() == 23 && rows[7].0@[4] == 'r');
    assert(rows[8].0@.len() == 16 && rows[8].0@[4] == 'h');
    assert(rows[9].0@.len() == 17 && rows[9].0@[4] == 'h');
    assert(rows[10].0@.len() == 16 && rows[10].0@[4] == 't');
    assert(rows[11].0@.len() == 14 && rows[11].0@[4] == 'n');
    assert(rows[12].0@.len() == 6 && rows[12].0@[4] == 'i');
}

/// Every built-in hook is found under its name, with its own row, and no other
/// name is found until a host registers it.
pub proof fn law_the_registry_holds_exactly_the_builtin_hooks()
    ensures
        forall|i: int|
            0 <= i < builtin_rows().len() ==> by_name(builtin_rows()).contains_key(
                (#[trigger] builtin_rows()[i]).0@,
            ) && by_name(builtin_rows())[builtin_rows()[i].0@] == builtin_rows()[i].1,
        forall|name: Seq<char>| #[trigger]
            by_name(builtin_rows()).contains_key(name) ==> exists|i: int|
                0 <= i < builtin_rows().len() && (#[trigger] builtin_rows()[i]).0@ == name,
{
    law_no_two_builtin_hooks_share_a_name();
    lemma_by_name(builtin_rows());
}

/// When a hook answers. Two entity types that are both named must be the same; two phases
/// that are both bound must be the same; nothing else stands in the way.
pub proof fn law_when_a_hook_answers(
    of_hook: &'static str,
    of_request: Seq<char>,
    a: HookPhase,
    b: HookPhase,
)
    ensures
        ({
            let bound = HookMetadata { entity_type: Some(of_hook), phase: a };
            let free = HookMetadata { entity_type: None, phase: a };
            let in_phase = match (a, b) {
                (HookPhase::Pre, HookPhase::Post) => false,
                (HookPhase::Post, HookPhase::Pre) => false,
                _ => true,
            };
            &&& answers(bound, Some(of_request), b) <==> of_hook@ == of_request && in_phase
            &&& answers(bound, None, b) <==> in_phase
            &&& answers(free, Some(of_request), b) <==> in_phase
            &&& answers(free, None, b) <==> in_phase
        }),
{
}

/// Whether the rows `i` and `i + 1` are the two hooks around what happens to the entities
/// of the type `entity`: the one before it, under the first name, and the one after it,
/// under the second.
pub open spec fn is_around(
    rows: Seq<(&'static str, HookMetadata)>,
    i: int,
    entity: Seq<char>,
    before: Seq<char>,
    after: Seq<char>,
) -> bool {
    &&& 0 <= i < rows.len() - 1
    &&& rows[i].0@ == before
    &&& rows[i].1.phase == HookPhase::Pre
    &&& rows[i].1.entity_type matches Some(e) && e@ == entity
    &&& rows[i + 1].0@ == after
    &&& rows[i + 1].1.phase == HookPhase::Post
    &&& rows[i + 1].1.entity_type matches Some(e) && e@ == entity
}

/// The built-in hooks: a pair around tools, models, prompts, resources and HTTP requests
/// each, and three that are bound to no phase and no entity type.
pub proof fn law_the_builtin_hooks_are_these()
    ensures
        builtin_rows().len() == 13,
        is_around(builtin_rows(), 0, "tool"@, "cmf.tool_pre_invoke"@, "cmf.tool_post_invoke"@),
        is_around(builtin_rows(), 2, "llm"@, "cmf.llm_input"@, "cmf.llm_output"@),
        is_around(builtin_rows(), 4, "prompt"@, "cmf.prompt_pre_invoke"@, "cmf.prompt_post_invoke"@),
        is_around(
            builtin_rows(),
            6,
            "resource"@,
            "cmf.resource_pre_fetch"@,
            "cmf.resource_post_fetch"@,
        ),
        is_around(builtin_rows(), 8, "http"@, "cmf.http_request"@, "cmf.http_response"@),
        builtin_rows()[10].0@ == "identity.resolve"@,
        builtin_rows()[11].0@ == "token.delegate"@,
        builtin_rows()[12].0@ == "elicit"@,
        forall|i: int|
            10 <= i < 13 ==> (#[trigger] builtin_rows()[i]).1.phase == HookPhase::Unphased
                && builtin_rows()[i].1.entity_type is None,
{
}

/// Tables are laid one behind the other, each whole.
pub proof fn law_tables_are_laid_one_behind_the_other(
    a: Seq<Vec<(&'static str, HookMetadata)>>,
    b: Seq<Vec<(&'static str, HookMetadata)>>,
    t: Vec<(&'static str, HookMetadata)>,
)
    ensures
        flat(seq![t]) == t@,
        flat(a + b) == flat(a) + flat(b),
    decreases b.len(),
{
    let none = Seq::<(&'static str, HookMetadata)>::empty();
    assert(seq![t].drop_last() =~= Seq::<Vec<(&'static str, HookMetadata)>>::empty());
    assert(flat(seq![t].drop_last()) == none);
    assert(seq![t].last() == t);
    assert(flat(seq![t]) =~= t@);
    if b.len() == 0 {
        assert(a + b =~= a);
        assert(flat(a) + flat(b) =~= flat(a));
    } else {
        law_tables_are_laid_one_behind_the_other(a, b.drop_last(), t);
        assert((a + b).drop_last() =~= a + b.drop_last());
        assert(flat(a + b) =~= flat(a) + flat(b));
    }
}

/// Of several rows under one name the last is found.
pub proof fn law_the_last_row_of_a_name_is_found(rows: Seq<(&'static str, HookMetadata)>, i: int)
    requires
        0 <= i < rows.len(),
        forall|j: int| i < j < rows.len() ==> (#[trigger] rows[j]).0@ != rows[i].0@,
    ensures
        by_name(rows).contains_key(rows[i].0@),
        by_name(rows)[rows[i].0@] == rows[i].1,
    decreases rows.len(),
{
    if i < rows.len() - 1 {
        let rest = rows.drop_last();
        assert(rows[rows.len() - 1].0@ != rows[i].0@);
        assert forall|j: int| i < j < rest.len() implies (#[trigger] rest[j]).0@ != rest[i].0@ by {
            assert(rows[j].0@ != rows[i].0@);
        }
        law_the_last_row_of_a_name_is_found(rest, i);
    }
}

} // verus!
