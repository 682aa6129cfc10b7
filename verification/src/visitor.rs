//! The extension point for orchestrators that take part in loading a policy
//! document.
//!
//! Each visitor sees the raw sections of the document, so that it can find its
//! own blocks in any of them. All sections of one visitor are walked before the
//! next visitor starts.
use crate::error;
use crate::error::PluginError;
use crate::plugin::PluginConfig;
use crate::selection;
use crate::text;
use crate::value;
use crate::yaml;
use crate::yaml::Yaml;
use std::sync::Arc;
use vstd::arithmetic::div_mod::lemma_fundamental_div_mod;
use vstd::arithmetic::div_mod::lemma_fundamental_div_mod_converse;
use vstd::prelude::*;

verus! {

/// An orchestrator that takes part in loading a policy document. A visitor
/// overrides the sections it cares about; the others are accepted.
pub trait ConfigVisitor: Sized {
    /// What a visitor installs its handlers on.
    type Engine;

    /// A route, as the document's reader understands it.
    type Route;

    /// Stable identifier, for diagnostics.
    fn name(&self) -> &str;

    /// Visit the plugin declarations.
    fn visit_plugins(&self, engine: &Self::Engine, plugins: &Vec<PluginConfig>) -> (r: Result<
        (),
        String,
    >)
        default_ensures
            r is Ok,
    {
        Ok(())
    }

    /// Visit the top-level `global:` block; `Null` where it is absent.
    fn visit_global(&self, engine: &Self::Engine, yaml: &Yaml) -> (r: Result<(), String>)
        default_ensures
            r is Ok,
    {
        Ok(())
    }

    /// Visit one entry in `global.defaults`.
    fn visit_default(&self, engine: &Self::Engine, entity_type: &str, yaml: &Yaml) -> (r: Result<
        (),
        String,
    >)
        default_ensures
            r is Ok,
    {
        Ok(())
    }

    /// Visit one named policy bundle.
    fn visit_policy_bundle(&self, engine: &Self::Engine, tag: &str, yaml: &Yaml) -> (r: Result<
        (),
        String,
    >)
        default_ensures
            r is Ok,
    {
        Ok(())
    }

    /// Visit one route: the raw value at its place in `routes`, `Null` where
    /// there is none, and the route as it was understood.
    fn visit_route(&self, engine: &Self::Engine, yaml: &Yaml, parsed: &Self::Route) -> (r: Result<
        (),
        String,
    >)
        default_ensures
            r is Ok,
    {
        Ok(())
    }

    /// Route keys that this visitor reads and that are not known otherwise.
    fn extra_route_keys(&self) -> (r: Vec<String>)
        default_ensures
            r@.len() == 0,
    {
        Vec::new()
    }
}

/// One section of a document that a visitor is shown.
#[derive(Debug)]
pub enum VisitStep<'a> {
    /// The plugin declarations.
    Plugins,
    /// The `global:` block, where there is one.
    Global(Option<&'a Yaml>),
    /// A default, with its entity type.
    DefaultFor(&'a str, &'a Yaml),
    /// A policy bundle, with its tag.
    Bundle(&'a str, &'a Yaml),
    /// A route, by its place, with its raw value where there is one.
    Route(usize, Option<&'a Yaml>),
}

/// What a [`VisitStep`] is.
pub enum StepView {
    /// The plugin declarations.
    Plugins,
    /// The `global:` block.
    Global(Option<Yaml>),
    /// A default.
    DefaultFor(Seq<char>, Yaml),
    /// A policy bundle.
    Bundle(Seq<char>, Yaml),
    /// A route.
    Route(int, Option<Yaml>),
}

/// `o` as it is in the document.
pub open spec fn opt_yaml(o: Option<&Yaml>) -> Option<Yaml> {
    match o {
        Some(y) => Some(*y),
        None => None,
    }
}

impl<'a> View for VisitStep<'a> {
    type V = StepView;

    open spec fn view(&self) -> StepView {
        match self {
            VisitStep::Plugins => StepView::Plugins,
            VisitStep::Global(y) => StepView::Global(opt_yaml(*y)),
            VisitStep::DefaultFor(t, y) => StepView::DefaultFor(t@, **y),
            VisitStep::Bundle(t, y) => StepView::Bundle(t@, **y),
            VisitStep::Route(i, y) => StepView::Route(*i as int, opt_yaml(*y)),
        }
    }
}

/// What a list of steps is.
pub open spec fn step_seq(v: Seq<VisitStep>) -> Seq<StepView> {
    v.map_values(|s: VisitStep| s@)
}

/// The `global:` block of a document: nothing where it is absent.
pub open spec fn global_of(raw: Yaml) -> Yaml {
    match yaml::lookup(raw, "global"@) {
        Some(g) => g,
        None => Yaml::Null,
    }
}

/// What stands under `name` in `y`, where that is a mapping.
pub open spec fn section(y: Yaml, name: Seq<char>) -> Option<Seq<(Yaml, Yaml)>> {
    match yaml::lookup(y, name) {
        Some(v) => yaml::mapping_of(v),
        None => None,
    }
}

/// The defaults of a document.
pub open spec fn defaults_of(raw: Yaml) -> Seq<(Yaml, Yaml)> {
    match section(global_of(raw), "defaults"@) {
        Some(m) => m,
        None => Seq::empty(),
    }
}

/// The policy bundles of a document: those under `global.policies`, and those
/// under the top-level `groups` laid over them.
pub open spec fn bundles_of(raw: Yaml) -> Seq<(Yaml, Yaml)> {
    yaml::laid_over(
        match section(global_of(raw), "policies"@) {
            Some(m) => m,
            None => Seq::empty(),
        },
        match section(raw, "groups"@) {
            Some(m) => m,
            None => Seq::empty(),
        },
    )
}

/// The raw value of the route `i`.
pub open spec fn route_at(raw: Yaml, i: int) -> Option<Yaml> {
    match yaml::lookup(raw, "routes"@) {
        Some(v) => match yaml::sequence_of(v) {
            Some(s) => if 0 <= i < s.len() {
                Some(s[i])
            } else {
                None
            },
            None => None,
        },
        None => None,
    }
}

/// A step for each default whose key is text.
pub open spec fn default_steps(m: Seq<(Yaml, Yaml)>) -> Seq<StepView>
    decreases m.len(),
{
    if m.len() == 0 {
        Seq::empty()
    } else {
        let rest = default_steps(m.drop_last());
        match yaml::text_of(m.last().0) {
            Some(t) => rest.push(StepView::DefaultFor(t, m.last().1)),
            None => rest,
        }
    }
}

/// A step for each bundle whose key is text.
pub open spec fn bundle_steps(m: Seq<(Yaml, Yaml)>) -> Seq<StepView>
    decreases m.len(),
{
    if m.len() == 0 {
        Seq::empty()
    } else {
        let rest = bundle_steps(m.drop_last());
        match yaml::text_of(m.last().0) {
            Some(t) => rest.push(StepView::Bundle(t, m.last().1)),
            None => rest,
        }
    }
}

/// A step for each route.
pub open spec fn route_steps(raw: Yaml, routes: nat) -> Seq<StepView> {
    Seq::new(routes, |i: int| StepView::Route(i, route_at(raw, i)))
}

/// The sections of a document with `routes` routes, in the order in which a
/// visitor is shown them: the plugins, the global block, the defaults, the
/// policy bundles, the routes.
pub open spec fn plan_of(raw: Yaml, routes: nat) -> Seq<StepView> {
    seq![StepView::Plugins, StepView::Global(yaml::lookup(raw, "global"@))] + default_steps(
        defaults_of(raw),
    ) + bundle_steps(bundles_of(raw)) + route_steps(raw, routes)
}

/// What stands under `name` in `y`, where that is a mapping.
fn find_section<'a>(y: &'a Yaml, name: &str) -> (r: Option<&'a Vec<(Yaml, Yaml)>>)
    ensures
        match r {
            Some(m) => section(*y, name@) == Some(m@),
            None => section(*y, name@) is None,
        },
{
    match y.get(name) {
        Some(v) => v.as_mapping(),
        None => None,
    }
}

/// Adds a step for each default of `m` whose key is text.
fn push_defaults<'a>(steps: &mut Vec<VisitStep<'a>>, m: &'a Vec<(Yaml, Yaml)>)
    ensures
        step_seq(final(steps)@) == step_seq(old(steps)@) + default_steps(m@),
{
    let ghost start = step_seq(steps@);
    let mut i: usize = 0;
    assert(start + default_steps(m@.take(0)) =~= start);
    while i < m.len()
        invariant
            i <= m@.len(),
            step_seq(steps@) == start + default_steps(m@.take(i as int)),
        decreases m@.len() - i,
    {
        let ghost before = steps@;
        proof {
            assert(m@.take(i + 1).drop_last() =~= m@.take(i as int));
            assert(m@.take(i + 1).last() == m@[i as int]);
        }
        match m[i].0.as_str() {
            Some(t) => {
                steps.push(VisitStep::DefaultFor(t, &m[i].1));
                assert(step_seq(steps@) =~= step_seq(before).push(
                    StepView::DefaultFor(t@, m@[i as int].1),
                ));
            },
            None => {},
        }
        assert(step_seq(steps@) =~= start + default_steps(m@.take(i + 1)));
        i += 1;
    }
    assert(m@.take(i as int) =~= m@);
}

/// Adds a step for each bundle of `m` whose key is text.
fn push_bundles<'a>(steps: &mut Vec<VisitStep<'a>>, m: &Vec<(&'a Yaml, &'a Yaml)>)
    ensures
        step_seq(final(steps)@) == step_seq(old(steps)@) + bundle_steps(yaml::entry_pairs(m@)),
{
    let ghost start = step_seq(steps@);
    let ghost pairs = yaml::entry_pairs(m@);
    let mut i: usize = 0;
    assert(start + bundle_steps(pairs.take(0)) =~= start);
    while i < m.len()
        invariant
            i <= m@.len(),
            pairs == yaml::entry_pairs(m@),
            step_seq(steps@) == start + bundle_steps(pairs.take(i as int)),
        decreases m@.len() - i,
    {
        let ghost before = steps@;
        let (key, v) = m[i];
        proof {
            assert(pairs.take(i + 1).drop_last() =~= pairs.take(i as int));
            assert(pairs.take(i + 1).last() == (*key, *v));
        }
        match key.as_str() {
            Some(t) => {
                steps.push(VisitStep::Bundle(t, v));
                assert(step_seq(steps@) =~= step_seq(before).push(StepView::Bundle(t@, *v)));
            },
            None => {},
        }
        assert(step_seq(steps@) =~= start + bundle_steps(pairs.take(i + 1)));
        i += 1;
    }
    assert(pairs.take(i as int) =~= pairs);
}

/// The sections of a document with `routes` routes, in the order in which a
/// visitor is shown them.
pub fn visit_plan<'a>(raw: &'a Yaml, routes: usize) -> (r: Vec<VisitStep<'a>>)
    ensures
        step_seq(r@) == plan_of(*raw, routes as nat),
{
    let global = raw.get("global");
    let mut steps: Vec<VisitStep<'a>> = Vec::new();
    steps.push(VisitStep::Plugins);
    steps.push(VisitStep::Global(global));
    proof {
        assert(step_seq(steps@) =~= seq![
            StepView::Plugins,
            StepView::Global(yaml::lookup(*raw, "global"@)),
        ]);
        assert(yaml::lookup(Yaml::Null, "defaults"@) is None);
        assert(yaml::lookup(Yaml::Null, "policies"@) is None);
    }
    let defaults = match global {
        Some(g) => find_section(g, "defaults"),
        None => None,
    };
    let ghost head = step_seq(steps@);
    match defaults {
        Some(m) => {
            push_defaults(&mut steps, m);
        },
        None => {
            assert(head + default_steps(defaults_of(*raw)) =~= head);
        },
    }
    let policies = match global {
        Some(g) => find_section(g, "policies"),
        None => None,
    };
    let groups = find_section(raw, "groups");
    let bundles = yaml::lay_over(policies, groups);
    assert(yaml::entry_pairs(bundles@) == bundles_of(*raw));
    push_bundles(&mut steps, &bundles);
    let items = match raw.get("routes") {
        Some(v) => v.as_sequence(),
        None => None,
    };
    let ghost third = step_seq(steps@);
    let mut i: usize = 0;
    assert(third + route_steps(*raw, 0) =~= third);
    while i < routes
        invariant
            i <= routes,
            match items {
                Some(s) => yaml::lookup(*raw, "routes"@) matches Some(v) && yaml::sequence_of(v)
                    == Some(s@),
                None => yaml::lookup(*raw, "routes"@) matches Some(v) ==> yaml::sequence_of(
                    v,
                ) is None,
            },
            step_seq(steps@) == third + route_steps(*raw, i as nat),
        decreases routes - i,
    {
        let ghost before = steps@;
        let at = match items {
            Some(s) => if i < s.len() {
                Some(&s[i])
            } else {
                None
            },
            None => None,
        };
        steps.push(VisitStep::Route(i, at));
        proof {
            assert(opt_yaml(at) == route_at(*raw, i as int));
            assert(step_seq(steps@) =~= step_seq(before).push(
                StepView::Route(i as int, route_at(*raw, i as int)),
            ));
            assert(route_steps(*raw, (i + 1) as nat) =~= route_steps(*raw, i as nat).push(
                StepView::Route(i as int, route_at(*raw, i as int)),
            ));
            assert(step_seq(steps@) =~= third + route_steps(*raw, (i + 1) as nat));
        }
        i += 1;
    }
    assert(step_seq(steps@) =~= plan_of(*raw, routes as nat));
    steps
}

/// What is said of a section that a visitor refuses.
pub open spec fn refusal(name: Seq<char>, step: StepView, reason: Seq<char>) -> Seq<char> {
    "visitor '"@ + name + "' "@ + (match step {
        StepView::Plugins => "visit_plugins"@,
        StepView::Global(_) => "visit_global"@,
        StepView::DefaultFor(t, _) => "visit_default('"@ + t + "')"@,
        StepView::Bundle(t, _) => "visit_policy_bundle('"@ + t + "')"@,
        StepView::Route(i, _) => "visit_route["@ + text::decimal(i as nat) + "]"@,
    }) + ": "@ + reason
}

/// The error for a section that a visitor refuses: it names the visitor, the
/// section and the reason.
pub fn visit_error(name: &str, step: &VisitStep, reason: &str) -> (r: PluginError)
    ensures
        error::is_config_error(r, refusal(name@, step@, reason@)),
{
    let mut m = "visitor '".to_owned();
    m.append(name);
    m.append("' ");
    match step {
        VisitStep::Plugins => {
            m.append("visit_plugins");
        },
        VisitStep::Global(_) => {
            m.append("visit_global");
        },
        VisitStep::DefaultFor(t, _) => {
            m.append("visit_default('");
            m.append(*t);
            m.append("')");
        },
        VisitStep::Bundle(t, _) => {
            m.append("visit_policy_bundle('");
            m.append(*t);
            m.append("')");
        },
        VisitStep::Route(i, _) => {
            m.append("visit_route[");
            m.append(text::decimal_of(*i as u64).as_str());
            m.append("]");
        },
    }
    m.append(": ");
    m.append(reason);
    assert(m@ =~= refusal(name@, step@, reason@));
    PluginError::Config { message: m }
}

/// Whether `r` is what `visitor` may answer when it is shown the section `step`.
pub open spec fn answers<V: ConfigVisitor>(
    visitor: V,
    engine: V::Engine,
    plugins: Vec<PluginConfig>,
    routes: Seq<V::Route>,
    step: StepView,
    r: Result<(), String>,
) -> bool {
    match step {
        StepView::Plugins => call_ensures(V::visit_plugins, (&visitor, &engine, &plugins), r),
        StepView::Global(y) => {
            let shown = match y {
                Some(v) => v,
                None => Yaml::Null,
            };
            call_ensures(V::visit_global, (&visitor, &engine, &shown), r)
        },
        StepView::DefaultFor(t, y) => exists|name: &str|
            name@ == t && #[trigger] call_ensures(
                V::visit_default,
                (&visitor, &engine, name, &y),
                r,
            ),
        StepView::Bundle(t, y) => exists|name: &str|
            name@ == t && #[trigger] call_ensures(
                V::visit_policy_bundle,
                (&visitor, &engine, name, &y),
                r,
            ),
        StepView::Route(i, y) => {
            let shown = match y {
                Some(v) => v,
                None => Yaml::Null,
            };
            call_ensures(V::visit_route, (&visitor, &engine, &shown, &routes[i]), r)
        },
    }
}

/// Whether `visitor` accepts the section `step`.
pub open spec fn accepts<V: ConfigVisitor>(
    visitor: V,
    engine: V::Engine,
    plugins: Vec<PluginConfig>,
    routes: Seq<V::Route>,
    step: StepView,
) -> bool {
    exists|r: Result<(), String>|
        r is Ok && #[trigger] answers(visitor, engine, plugins, routes, step, r)
}

/// Shows `visitor` the section `step`.
fn visit_section<V: ConfigVisitor>(
    visitor: &V,
    engine: &V::Engine,
    plugins: &Vec<PluginConfig>,
    routes: &Vec<V::Route>,
    step: &VisitStep,
) -> (r: Result<(), String>)
    requires
        step@ matches StepView::Route(i, _) ==> i < routes@.len(),
    ensures
        answers(*visitor, *engine, *plugins, routes@, step@, r),
{
    match step {
        VisitStep::Plugins => visitor.visit_plugins(engine, plugins),
        VisitStep::Global(y) => match y {
            Some(v) => visitor.visit_global(engine, *v),
            None => visitor.visit_global(engine, &Yaml::Null),
        },
        VisitStep::DefaultFor(t, y) => visitor.visit_default(engine, *t, *y),
        VisitStep::Bundle(t, y) => visitor.visit_policy_bundle(engine, *t, *y),
        VisitStep::Route(i, y) => match y {
            Some(v) => visitor.visit_route(engine, *v, &routes[*i]),
            None => visitor.visit_route(engine, &Yaml::Null, &routes[*i]),
        },
    }
}

/// Whether the first `n` visitors accept every section, and the visitor behind
/// them the first `k`.
pub open spec fn accepted_up_to<V: ConfigVisitor>(
    visitors: Seq<Arc<V>>,
    engine: V::Engine,
    plugins: Vec<PluginConfig>,
    routes: Seq<V::Route>,
    plan: Seq<StepView>,
    n: int,
    k: int,
) -> bool {
    &&& forall|i: int, j: int|
        0 <= i < n && 0 <= j < plan.len() ==> accepts(
            *#[trigger] visitors[i],
            engine,
            plugins,
            routes,
            #[trigger] plan[j],
        )
    &&& forall|j: int|
        0 <= j < k ==> accepts(*visitors[n], engine, plugins, routes, #[trigger] plan[j])
}

/// Whether `visitor` refuses the section `step`, and `e` says so.
pub open spec fn refuses<V: ConfigVisitor>(
    visitor: V,
    engine: V::Engine,
    plugins: Vec<PluginConfig>,
    routes: Seq<V::Route>,
    step: StepView,
    e: PluginError,
) -> bool {
    exists|reason: String, name: &str|
        #![trigger reason@, name@]
        answers(visitor, engine, plugins, routes, step, Err(reason)) && call_ensures(
            V::name,
            (&visitor,),
            name,
        ) && error::is_config_error(e, refusal(name@, step, reason@))
}

/// Whether the visitor `n` refuses the section `k` with `e`, after everything
/// before it was accepted.
pub open spec fn refused_at<V: ConfigVisitor>(
    visitors: Seq<Arc<V>>,
    engine: V::Engine,
    plugins: Vec<PluginConfig>,
    routes: Seq<V::Route>,
    plan: Seq<StepView>,
    e: PluginError,
    n: int,
    k: int,
) -> bool {
    &&& 0 <= n < visitors.len()
    &&& 0 <= k < plan.len()
    &&& accepted_up_to(visitors, engine, plugins, routes, plan, n, k)
    &&& refuses(*visitors[n], engine, plugins, routes, plan[k], e)
}

/// The turns of a walk, by the places of visitor and section: every section for one
/// visitor, then for the next.
pub open spec fn turns(visitors: nat, sections: nat) -> Seq<(int, int)> {
    Seq::new(
        (visitors * sections) as nat,
        |i: int| (i / (sections as int), i % (sections as int)),
    )
}

/// The turn of the visitor `n` at the section `k`.
proof fn lemma_turn(visitors: nat, sections: nat, n: int, k: int)
    requires
        0 <= n < visitors,
        0 <= k < sections,
    ensures
        0 <= n * sections <= n * sections + k < turns(visitors, sections).len(),
        turns(visitors, sections)[n * sections + k] == (n, k),
        (n + 1) * sections == n * sections + sections,
{
    assert((n + 1) * sections <= visitors * sections) by (nonlinear_arith)
        requires
            n + 1 <= visitors,
            0 <= sections,
    ;
    assert((n + 1) * sections == n * sections + sections) by (nonlinear_arith);
    assert(0 <= n * sections) by (nonlinear_arith)
        requires
            0 <= n,
            0 <= sections,
    ;
    lemma_fundamental_div_mod_converse(n * sections + k, sections as int, n, k);
}

/// What the turn `i` is for.
proof fn lemma_turn_at(visitors: nat, sections: nat, i: int)
    requires
        0 <= i < turns(visitors, sections).len(),
    ensures
        ({
            let (n, k) = turns(visitors, sections)[i];
            0 <= n < visitors && 0 <= k < sections && i == n * sections + k
        }),
{
    if sections == 0 {
        assert(visitors * sections == 0) by (nonlinear_arith)
            requires
                sections == 0,
        ;
    }
    let d = sections as int;
    lemma_fundamental_div_mod(i, d);
    let q = i / d;
    let r = i % d;
    assert(0 <= q < visitors && i == q * d + r) by (nonlinear_arith)
        requires
            i == d * q + r,
            0 <= r < d,
            0 <= i < visitors * d,
    ;
}

/// Every visitor is shown every section once, and in order: all sections before the
/// next visitor's turn, each behind the one before it in the plan.
pub proof fn law_each_section_is_shown_once(visitors: nat, sections: nat, n: int, k: int)
    requires
        0 <= n < visitors,
        0 <= k < sections,
    ensures
        exists|i: int|
            0 <= i < turns(visitors, sections).len() && #[trigger] turns(visitors, sections)[i] == (
                n,
                k,
            ),
        forall|i: int, j: int|
            0 <= i < j < turns(visitors, sections).len() ==> {
                let a = #[trigger] turns(visitors, sections)[i];
                let b = #[trigger] turns(visitors, sections)[j];
                a.0 < b.0 || (a.0 == b.0 && a.1 < b.1)
            },
        forall|i: int|
            0 <= i < turns(visitors, sections).len() ==> {
                let a = #[trigger] turns(visitors, sections)[i];
                0 <= a.0 < visitors && 0 <= a.1 < sections
            },
{
    let all = turns(visitors, sections);
    let d = sections as int;
    lemma_turn(visitors, sections, n, k);
    assert(all[n * sections + k] == (n, k));
    assert forall|i: int| 0 <= i < all.len() implies {
        let a = #[trigger] all[i];
        0 <= a.0 < visitors && 0 <= a.1 < sections
    } by {
        lemma_turn_at(visitors, sections, i);
    }
    assert forall|i: int, j: int| 0 <= i < j < all.len() implies {
        let a = #[trigger] all[i];
        let b = #[trigger] all[j];
        a.0 < b.0 || (a.0 == b.0 && a.1 < b.1)
    } by {
        lemma_fundamental_div_mod(i, d);
        lemma_fundamental_div_mod(j, d);
        let (q, r) = (i / d, i % d);
        let (p, s) = (j / d, j % d);
        assert(q < p || (q == p && r < s)) by (nonlinear_arith)
            requires
                i == d * q + r,
                j == d * p + s,
                0 <= r < d,
                0 <= s < d,
                i < j,
        ;
    }
}

/// A walk under way: which visitor is to be shown which section next. Every turn is
/// handed out until it is recorded, and none again.
#[derive(Debug)]
pub struct VisitRun {
    visitors: usize,
    sections: usize,
    visitor: usize,
    section: usize,
    refused: bool,
}

impl VisitRun {
    #[verifier::type_invariant]
    spec fn wf(self) -> bool {
        &&& self.visitor <= self.visitors
        &&& self.visitor < self.visitors ==> self.section < self.sections
        &&& self.visitor == self.visitors ==> self.section == 0
    }

    /// The turns of the walk, in order.
    pub closed spec fn plan(&self) -> Seq<(int, int)> {
        turns(self.visitors as nat, self.sections as nat)
    }

    /// How many of them were taken.
    pub closed spec fn taken(&self) -> nat {
        if self.visitor == self.visitors {
            self.plan().len()
        } else {
            (self.visitor * self.sections + self.section) as nat
        }
    }

    /// Whether a visitor refused a section, which ends the walk.
    pub closed spec fn is_refused(&self) -> bool {
        self.refused
    }

    /// A walk of every visitor over every section, with no turn taken.
    pub fn new(visitors: usize, sections: usize) -> (r: Self)
        ensures
            r.plan() == turns(visitors as nat, sections as nat),
            r.taken() == 0,
            !r.is_refused(),
    {
        let visitor: usize = if sections == 0 {
            visitors
        } else {
            0
        };
        proof {
            assert(visitors * 0 == 0) by (nonlinear_arith);
            assert(0 * sections == 0) by (nonlinear_arith);
        }
        VisitRun { visitors, sections, visitor, section: 0, refused: false }
    }

    /// The turn that is next: none once all are taken, or one was refused.
    pub fn current(&self) -> (r: Option<(usize, usize)>)
        ensures
            match r {
                Some((visitor, section)) => {
                    &&& !self.is_refused()
                    &&& self.taken() < self.plan().len()
                    &&& self.plan()[self.taken() as int] == (visitor as int, section as int)
                },
                None => self.is_refused() || self.taken() == self.plan().len(),
            },
    {
        proof {
            use_type_invariant(self);
        }
        if self.refused || self.visitor == self.visitors {
            return None;
        }
        proof {
            lemma_turn(
                self.visitors as nat,
                self.sections as nat,
                self.visitor as int,
                self.section as int,
            );
        }
        Some((self.visitor, self.section))
    }

    /// Records what came of the current turn, which is taken with that. A refusal ends
    /// the walk.
    pub fn record(&mut self, accepted: bool)
        ensures
            final(self).plan() == old(self).plan(),
            old(self).is_refused() || old(self).taken() == old(self).plan().len() ==> *final(self)
                == *old(self),
            !old(self).is_refused() && old(self).taken() < old(self).plan().len() ==> {
                &&& final(self).taken() == old(self).taken() + 1
                &&& final(self).is_refused() == !accepted
            },
    {
        proof {
            use_type_invariant(&*self);
        }
        if self.refused || self.visitor == self.visitors {
            return;
        }
        proof {
            lemma_turn(
                self.visitors as nat,
                self.sections as nat,
                self.visitor as int,
                self.section as int,
            );
        }
        let ghost before = *self;
        let last = self.section + 1 == self.sections;
        let visitor: usize = if last {
            self.visitor + 1
        } else {
            self.visitor
        };
        let section: usize = if last {
            0
        } else {
            self.section + 1
        };
        *self = VisitRun {
            visitors: self.visitors,
            sections: self.sections,
            visitor,
            section,
            refused: !accepted,
        };
    }
}

/// Whether the first `t` turns were accepted.
spec fn accepted_turns<V: ConfigVisitor>(
    visitors: Seq<Arc<V>>,
    engine: V::Engine,
    plugins: Vec<PluginConfig>,
    routes: Seq<V::Route>,
    plan: Seq<StepView>,
    t: int,
) -> bool {
    forall|i: int|
        #![trigger turns(visitors.len(), plan.len())[i]]
        0 <= i < t ==> accepts(
            *visitors[turns(visitors.len(), plan.len())[i].0],
            engine,
            plugins,
            routes,
            plan[turns(visitors.len(), plan.len())[i].1],
        )
}

/// What was accepted up to a turn was accepted before its visitor and section.
proof fn lemma_accepted<V: ConfigVisitor>(
    visitors: Seq<Arc<V>>,
    engine: V::Engine,
    plugins: Vec<PluginConfig>,
    routes: Seq<V::Route>,
    plan: Seq<StepView>,
    n: int,
    k: int,
)
    requires
        0 <= n <= visitors.len(),
        0 <= k <= plan.len(),
        n == visitors.len() ==> k == 0,
        accepted_turns(visitors, engine, plugins, routes, plan, n * plan.len() + k),
    ensures
        accepted_up_to(visitors, engine, plugins, routes, plan, n, k),
{
    let all = turns(visitors.len(), plan.len());
    assert forall|i: int, j: int| 0 <= i < n && 0 <= j < plan.len() implies accepts(
        *#[trigger] visitors[i],
        engine,
        plugins,
        routes,
        #[trigger] plan[j],
    ) by {
        lemma_turn(visitors.len(), plan.len(), i, j);
        assert((i + 1) * plan.len() <= n * plan.len()) by (nonlinear_arith)
            requires
                i + 1 <= n,
                0 <= plan.len(),
        ;
        assert(all[i * plan.len() + j] == (i, j));
    }
    assert forall|j: int| 0 <= j < k implies accepts(
        *visitors[n],
        engine,
        plugins,
        routes,
        #[trigger] plan[j],
    ) by {
        lemma_turn(visitors.len(), plan.len(), n, j);
        assert(all[n * plan.len() + j] == (n, j));
    }
}

/// Takes the current turn of a walk, where there is one: shows its section to its
/// visitor, and records the answer. The turn is not had again.
pub fn take_turn<V: ConfigVisitor>(
    run: &mut VisitRun,
    visitors: &Vec<Arc<V>>,
    engine: &V::Engine,
    plugins: &Vec<PluginConfig>,
    routes: &Vec<V::Route>,
    plan: &Vec<VisitStep>,
) -> (r: Option<Result<(), PluginError>>)
    requires
        old(run).plan() == turns(visitors@.len(), plan@.len()),
        forall|j: int|
            0 <= j < plan@.len() ==> ((#[trigger] plan@[j])@ matches StepView::Route(i, _) ==> i
                < routes@.len()),
    ensures
        final(run).plan() == old(run).plan(),
        match r {
            None => {
                &&& old(run).is_refused() || old(run).taken() == old(run).plan().len()
                &&& *final(run) == *old(run)
            },
            Some(answer) => {
                let (n, k) = old(run).plan()[old(run).taken() as int];
                &&& !old(run).is_refused()
                &&& old(run).taken() < old(run).plan().len()
                &&& final(run).taken() == old(run).taken() + 1
                &&& final(run).is_refused() == (answer is Err)
                &&& match answer {
                    Ok(()) => accepts(
                        *visitors@[n],
                        *engine,
                        *plugins,
                        routes@,
                        step_seq(plan@)[k],
                    ),
                    Err(e) => refuses(
                        *visitors@[n],
                        *engine,
                        *plugins,
                        routes@,
                        step_seq(plan@)[k],
                        e,
                    ),
                }
            },
        },
{
    let (n, k) = match run.current() {
        Some(turn) => turn,
        None => {
            return None;
        },
    };
    proof {
        lemma_turn_at(visitors@.len(), plan@.len(), run.taken() as int);
    }
    let visitor = &visitors[n];
    assert(step_seq(plan@)[k as int] == plan@[k as int]@);
    let answer = visit_section(&**visitor, engine, plugins, routes, &plan[k]);
    run.record(answer.is_ok());
    let ghost given = answer;
    match answer {
        Ok(_) => {
            assert(given is Ok);
            assert(accepts(
                *visitors@[n as int],
                *engine,
                *plugins,
                routes@,
                step_seq(plan@)[k as int],
            ));
            Some(Ok(()))
        },
        Err(reason) => {
            let name = visitor.name();
            let e = visit_error(name, &plan[k], reason.as_str());
            proof {
                assert(call_ensures(V::name, (&*visitors@[n as int],), name));
                assert(refuses(
                    *visitors@[n as int],
                    *engine,
                    *plugins,
                    routes@,
                    step_seq(plan@)[k as int],
                    e,
                ));
            }
            Some(Err(e))
        },
    }
}

/// Shows every visitor every section of a plan, one visitor after another, as a
/// [`VisitRun`] hands them out. The first refusal ends the walk.
pub fn walk_visitors<V: ConfigVisitor>(
    visitors: &Vec<Arc<V>>,
    engine: &V::Engine,
    plugins: &Vec<PluginConfig>,
    routes: &Vec<V::Route>,
    plan: &Vec<VisitStep>,
) -> (r: Result<(), PluginError>)
    requires
        forall|j: int|
            0 <= j < plan@.len() ==> ((#[trigger] plan@[j])@ matches StepView::Route(i, _) ==> i
                < routes@.len()),
    ensures
        match r {
            Ok(()) => accepted_up_to(
                visitors@,
                *engine,
                *plugins,
                routes@,
                step_seq(plan@),
                visitors@.len() as int,
                0,
            ),
            Err(e) => exists|n: int, k: int| #[trigger]
                refused_at(visitors@, *engine, *plugins, routes@, step_seq(plan@), e, n, k),
        },
{
    let ghost views = step_seq(plan@);
    let ghost all = turns(visitors@.len(), plan@.len());
    let mut run = VisitRun::new(visitors.len(), plan.len());
    loop
        invariant
            views == step_seq(plan@),
            all == turns(visitors@.len(), plan@.len()),
            forall|j: int|
                0 <= j < plan@.len() ==> ((#[trigger] plan@[j])@ matches StepView::Route(i, _) ==> i
                    < routes@.len()),
            run.plan() == all,
            !run.is_refused(),
            run.taken() <= all.len(),
            accepted_turns(visitors@, *engine, *plugins, routes@, views, run.taken() as int),
        decreases all.len() - run.taken(),
    {
        let ghost t = run.taken() as int;
        match take_turn(&mut run, visitors, engine, plugins, routes, plan) {
            None => {
                proof {
                    lemma_accepted(
                        visitors@,
                        *engine,
                        *plugins,
                        routes@,
                        views,
                        visitors@.len() as int,
                        0,
                    );
                }
                return Ok(());
            },
            Some(Ok(_)) => {},
            Some(Err(e)) => {
                proof {
                    let (n, k) = all[t];
                    lemma_turn_at(visitors@.len(), plan@.len(), t);
                    lemma_accepted(visitors@, *engine, *plugins, routes@, views, n, k);
                    assert(refused_at(
                        visitors@,
                        *engine,
                        *plugins,
                        routes@,
                        views,
                        e,
                        n,
                        k,
                    ));
                }
                return Err(e);
            },
        }
    }
}

/// Whether `key` is one of `keys`.
fn is_among(keys: &Vec<String>, key: &str) -> (r: bool)
    ensures
        r == value::text_seq(keys@).contains(key@),
{
    let ghost texts = value::text_seq(keys@);
    let mut i: usize = 0;
    while i < keys.len()
        invariant
            i <= keys@.len(),
            texts == value::text_seq(keys@),
            forall|k: int| 0 <= k < i ==> #[trigger] texts[k] != key@,
        decreases keys@.len() - i,
    {
        if text::same(keys[i].as_str(), key) {
            assert(texts[i as int] == key@);
            return true;
        }
        i += 1;
    }
    false
}

/// Whether a route's key is text that is not one of `known`.
pub open spec fn is_unknown(known: Seq<Seq<char>>, key: Yaml) -> bool {
    yaml::text_of(key) matches Some(t) && !known.contains(t)
}

/// The keys of a route: none where it is not a mapping.
pub open spec fn keys_of(route: Yaml) -> Seq<(Yaml, Yaml)> {
    match yaml::mapping_of(route) {
        Some(m) => m,
        None => Seq::empty(),
    }
}

/// The routes of a document: none where `routes` is not a sequence.
pub open spec fn routes_of(raw: Yaml) -> Seq<Yaml> {
    match yaml::lookup(raw, "routes"@) {
        Some(v) => match yaml::sequence_of(v) {
            Some(s) => s,
            None => Seq::empty(),
        },
        None => Seq::empty(),
    }
}

/// Whether the first `n` keys of a route are known.
pub open spec fn known_up_to(known: Seq<Seq<char>>, route: Yaml, n: int) -> bool {
    forall|j: int| 0 <= j < n ==> !is_unknown(known, (#[trigger] keys_of(route)[j]).0)
}

/// Whether the first `n` routes have known keys alone.
pub open spec fn routes_known_up_to(known: Seq<Seq<char>>, routes: Seq<Yaml>, n: int) -> bool {
    forall|i: int|
        0 <= i < n ==> known_up_to(known, #[trigger] routes[i], keys_of(routes[i]).len() as int)
}

/// What is said of a route key that nothing recognizes.
pub open spec fn unknown_key_message(route: int, key: Seq<char>) -> Seq<char> {
    "route "@ + text::decimal(route as nat) + ": unknown key '"@ + key + "'"@
}

/// Whether `e` is about the key `j` of the route `i`, the first that is not
/// known.
pub open spec fn unknown_at(
    known: Seq<Seq<char>>,
    routes: Seq<Yaml>,
    e: PluginError,
    i: int,
    j: int,
) -> bool {
    &&& 0 <= i < routes.len()
    &&& 0 <= j < keys_of(routes[i]).len()
    &&& routes_known_up_to(known, routes, i)
    &&& known_up_to(known, routes[i], j)
    &&& is_unknown(known, keys_of(routes[i])[j].0)
    &&& error::is_config_error(
        e,
        unknown_key_message(i, yaml::text_of(keys_of(routes[i])[j].0)->Some_0),
    )
}

/// Refuses a document in which a route has a key that is not one of `known`,
/// naming the first such key and its route.
pub fn check_route_keys(raw: &Yaml, known: &Vec<String>) -> (r: Result<(), PluginError>)
    ensures
        match r {
            Ok(()) => routes_known_up_to(
                value::text_seq(known@),
                routes_of(*raw),
                routes_of(*raw).len() as int,
            ),
            Err(e) => exists|i: int, j: int| #[trigger]
                unknown_at(value::text_seq(known@), routes_of(*raw), e, i, j),
        },
{
    let items = match raw.get("routes") {
        Some(v) => match v.as_sequence() {
            Some(s) => s,
            None => {
                return Ok(());
            },
        },
        None => {
            return Ok(());
        },
    };
    let ghost routes = routes_of(*raw);
    let ghost texts = value::text_seq(known@);
    let mut i: usize = 0;
    while i < items.len()
        invariant
            i <= items@.len(),
            routes == routes_of(*raw),
            routes == items@,
            texts == value::text_seq(known@),
            routes_known_up_to(texts, routes, i as int),
        decreases items@.len() - i,
    {
        match items[i].as_mapping() {
            Some(m) => {
                let mut j: usize = 0;
                while j < m.len()
                    invariant
                        i < items@.len(),
                        j <= m@.len(),
                        routes == routes_of(*raw),
                        routes == items@,
                        texts == value::text_seq(known@),
                        keys_of(routes[i as int]) == m@,
                        routes_known_up_to(texts, routes, i as int),
                        known_up_to(texts, routes[i as int], j as int),
                    decreases m@.len() - j,
                {
                    match m[j].0.as_str() {
                        Some(key) => if !is_among(known, key) {
                            let mut msg = "route ".to_owned();
                            msg.append(text::decimal_of(i as u64).as_str());
                            msg.append(": unknown key '");
                            msg.append(key);
                            msg.append("'");
                            let e = PluginError::Config { message: msg };
                            assert(unknown_at(texts, routes, e, i as int, j as int));
                            return Err(e);
                        },
                        None => {},
                    }
                    j += 1;
                }
            },
            None => {},
        }
        i += 1;
    }
    Ok(())
}

/// A policy bundle is shown once, whichever of the two places it is declared
/// in, and the top-level one wins: laying over never loses a bundle.
pub proof fn law_no_bundle_is_lost(under: Seq<(Yaml, Yaml)>, over: Seq<(Yaml, Yaml)>)
    ensures
        yaml::laid_over(under, over).len() >= under.len(),
        forall|i: int|
            0 <= i < under.len() ==> (#[trigger] yaml::laid_over(under, over)[i]).0 == under[i].0,
        forall|j: int|
            0 <= j < over.len() && yaml::key_id((#[trigger] over[j]).0) is Some ==> shown(
                yaml::laid_over(under, over),
                over[j].0,
            ),
    decreases over.len(),
{
    if over.len() > 0 {
        let head = over.drop_last();
        law_no_bundle_is_lost(under, head);
        let sofar = yaml::laid_over(under, head);
        let all = yaml::laid_over(under, over);
        let last = over.last();
        let p = |i: int|
            yaml::key_id(sofar[i].0) is Some && yaml::key_id(sofar[i].0) == yaml::key_id(last.0);
        text::lemma_first_from_is(p, 0, sofar.len() as int);
        let at = yaml::key_index(sofar, last.0);
        if at < sofar.len() {
            assert(p(at));
            assert(all[at].0 == sofar[at].0);
        } else {
            assert(all[sofar.len() as int] == last);
        }
        assert(yaml::key_id(last.0) is Some ==> shown(all, last.0)) by {
            if at < sofar.len() {
                assert(yaml::key_id(all[at].0) == yaml::key_id(last.0));
            } else {
                assert(yaml::key_id(all[sofar.len() as int].0) == yaml::key_id(last.0));
            }
        }
        assert forall|j: int|
            0 <= j < over.len() && yaml::key_id((#[trigger] over[j]).0) is Some implies shown(
            all,
            over[j].0,
        ) by {
            if j < head.len() {
                assert(head[j] == over[j]);
                assert(shown(sofar, head[j].0));
                let i = choose|i: int|
                    0 <= i < sofar.len() && yaml::key_id((#[trigger] sofar[i]).0) == yaml::key_id(
                        head[j].0,
                    );
                assert(all[i].0 == sofar[i].0);
            }
        }
        assert forall|i: int| 0 <= i < under.len() implies (#[trigger] all[i]).0 == under[i].0 by {
            assert(sofar[i].0 == under[i].0);
        }
    }
}

/// Whether `m` has the key `key`.
pub open spec fn shown(m: Seq<(Yaml, Yaml)>, key: Yaml) -> bool {
    exists|i: int| 0 <= i < m.len() && yaml::key_id((#[trigger] m[i]).0) == yaml::key_id(key)
}

/// Where the sections of a document stand: the defaults and policies under the global
/// block, the groups and routes at the top. A section that is no mapping, or routes that
/// are no sequence, are none.
pub proof fn law_where_the_sections_stand(raw: Yaml, i: int)
    ensures
        yaml::lookup(raw, "global"@) matches Some(g) ==> (yaml::lookup(
            g,
            "defaults"@,
        ) matches Some(d) ==> (yaml::mapping_of(d) matches Some(m) ==> defaults_of(raw) == m)),
        yaml::lookup(raw, "global"@) is None ==> defaults_of(raw).len() == 0,
        yaml::lookup(raw, "global"@) matches Some(g) ==> (yaml::lookup(g, "defaults"@) is None
            ==> defaults_of(raw).len() == 0),
        yaml::lookup(raw, "global"@) matches Some(g) ==> (yaml::lookup(
            g,
            "defaults"@,
        ) matches Some(d) ==> (yaml::mapping_of(d) is None ==> defaults_of(raw).len() == 0)),
        yaml::lookup(raw, "routes"@) is None ==> routes_of(raw).len() == 0,
        yaml::lookup(raw, "routes"@) matches Some(v) ==> (yaml::sequence_of(v) matches Some(s)
            ==> routes_of(raw) == s),
        yaml::lookup(raw, "routes"@) matches Some(v) ==> (yaml::sequence_of(v) is None
            ==> routes_of(raw).len() == 0),
        0 <= i < routes_of(raw).len() ==> route_at(raw, i) == Some(routes_of(raw)[i]),
        !(0 <= i < routes_of(raw).len()) ==> route_at(raw, i) is None,
{
    assert(yaml::lookup(Yaml::Null, "defaults"@) is None);
}

/// The bundles of a document are its groups laid over its policies: those under the
/// global block, and none where there are none.
pub proof fn law_groups_are_laid_over_policies(raw: Yaml)
    ensures
        ({
            let under = match section(global_of(raw), "policies"@) {
                Some(m) => m,
                None => Seq::empty(),
            };
            let over = match section(raw, "groups"@) {
                Some(m) => m,
                None => Seq::empty(),
            };
            &&& over.len() == 0 ==> bundles_of(raw) == under
            &&& under.len() == 0 ==> bundles_of(raw) == yaml::laid_over(Seq::empty(), over)
            &&& bundles_of(raw) == yaml::laid_over(under, over)
        }),
        yaml::lookup(raw, "global"@) is None ==> section(global_of(raw), "policies"@) is None,
        yaml::lookup(raw, "global"@) matches Some(g) ==> global_of(raw) == g,
{
    let under = match section(global_of(raw), "policies"@) {
        Some(m) => m,
        None => Seq::empty(),
    };
    let over = match section(raw, "groups"@) {
        Some(m) => m,
        None => Seq::empty(),
    };
    if under.len() == 0 {
        assert(under =~= Seq::<(Yaml, Yaml)>::empty());
    }
}

/// Which entries have a key that is text.
pub open spec fn text_at(m: Seq<(Yaml, Yaml)>) -> spec_fn(int) -> bool {
    |i: int| yaml::text_of(m[i].0) is Some
}

/// A step for each entry whose key is text.
proof fn lemma_steps(m: Seq<(Yaml, Yaml)>) -> (at: Seq<int>)
    ensures
        selection::selects(at, m.len() as int, text_at(m)),
        default_steps(m) == at.map_values(
            |i: int| StepView::DefaultFor(yaml::text_of(m[i].0)->Some_0, m[i].1),
        ),
        bundle_steps(m) == at.map_values(
            |i: int| StepView::Bundle(yaml::text_of(m[i].0)->Some_0, m[i].1),
        ),
    decreases m.len(),
{
    let keep = text_at(m);
    let d = |i: int| StepView::DefaultFor(yaml::text_of(m[i].0)->Some_0, m[i].1);
    let b = |i: int| StepView::Bundle(yaml::text_of(m[i].0)->Some_0, m[i].1);
    if m.len() == 0 {
        selection::lemma_selects_none(keep);
        let none = Seq::<int>::empty();
        assert(default_steps(m) =~= none.map_values(d));
        assert(bundle_steps(m) =~= none.map_values(b));
        none
    } else {
        let head = m.drop_last();
        let n = head.len() as int;
        let before = lemma_steps(head);
        assert forall|i: int| 0 <= i < n implies #[trigger] text_at(head)(i) == keep(i) by {
            assert(head[i] == m[i]);
        }
        selection::lemma_selects_alike(before, n, text_at(head), keep);
        selection::lemma_selects_next(before, n, keep);
        assert(default_steps(head) =~= before.map_values(d));
        assert(bundle_steps(head) =~= before.map_values(b));
        if keep(n) {
            let at = before.push(n);
            assert(at.map_values(d) =~= before.map_values(d).push(d(n)));
            assert(at.map_values(b) =~= before.map_values(b).push(b(n)));
            at
        } else {
            before
        }
    }
}

/// A visitor is shown each default and each bundle whose key is text, under that text and
/// with what stands under it, once and in the order of the document; others are passed
/// over.
pub proof fn law_each_entry_with_a_name_is_shown(m: Seq<(Yaml, Yaml)>)
    ensures
        exists|at: Seq<int>| #[trigger]
            selection::selects(at, m.len() as int, text_at(m)) && default_steps(m)
                == at.map_values(
                |i: int| StepView::DefaultFor(yaml::text_of(m[i].0)->Some_0, m[i].1),
            ) && bundle_steps(m) == at.map_values(
                |i: int| StepView::Bundle(yaml::text_of(m[i].0)->Some_0, m[i].1),
            ),
{
    let at = lemma_steps(m);
}

/// A visitor is shown the plugins first, then the global block, whether there is one or
/// not, then the defaults, then the bundles, and the routes last, each at its place with
/// its raw value.
pub proof fn law_the_order_of_the_sections(raw: Yaml, routes: nat, i: int)
    requires
        0 <= i < routes,
    ensures
        ({
            let plan = plan_of(raw, routes);
            let d = default_steps(defaults_of(raw));
            let b = bundle_steps(bundles_of(raw));
            &&& plan.len() == 2 + d.len() + b.len() + routes
            &&& plan[0] == StepView::Plugins
            &&& plan[1] == StepView::Global(yaml::lookup(raw, "global"@))
            &&& plan.subrange(2, 2int + d.len()) == d
            &&& plan.subrange(2int + d.len(), 2int + d.len() + b.len()) == b
            &&& plan[2 + d.len() + b.len() + i] == StepView::Route(i, route_at(raw, i))
        }),
{
    let plan = plan_of(raw, routes);
    let d = default_steps(defaults_of(raw));
    let b = bundle_steps(bundles_of(raw));
    assert(plan.subrange(2, 2int + d.len()) =~= d);
    assert(plan.subrange(2int + d.len(), 2int + d.len() + b.len()) =~= b);
}

/// The routes of a document hold keys that are known exactly where every key of theirs
/// that is text is one of those; a key that is no text is nobody's business.
pub proof fn law_keys_are_known_by_their_text(known: Seq<Seq<char>>, routes: Seq<Yaml>)
    ensures
        routes_known_up_to(known, routes, routes.len() as int) <==> forall|i: int, j: int|
            #![trigger keys_of(routes[i])[j]]
            0 <= i < routes.len() && 0 <= j < keys_of(routes[i]).len() ==> (yaml::text_of(
                keys_of(routes[i])[j].0,
            ) matches Some(t) ==> known.contains(t)),
{
    if routes_known_up_to(known, routes, routes.len() as int) {
        assert forall|i: int, j: int|
            #![trigger keys_of(routes[i])[j]]
            0 <= i < routes.len() && 0 <= j < keys_of(routes[i]).len() implies (yaml::text_of(
            keys_of(routes[i])[j].0,
        ) matches Some(t) ==> known.contains(t)) by {
            assert(known_up_to(known, routes[i], keys_of(routes[i]).len() as int));
            assert(!is_unknown(known, keys_of(routes[i])[j].0));
        }
    }
}

/// A document is refused for the first key, of the first route that has one, that is text
/// and not known; the refusal names the route by its place and the key.
pub proof fn law_the_first_unknown_key_is_named(
    known: Seq<Seq<char>>,
    routes: Seq<Yaml>,
    e: PluginError,
    i: int,
    j: int,
    a: int,
    b: int,
)
    requires
        unknown_at(known, routes, e, i, j),
        0 <= a < routes.len(),
        0 <= b < keys_of(routes[a]).len(),
    ensures
        yaml::text_of(keys_of(routes[i])[j].0) matches Some(t) && !known.contains(t) && (
        e matches PluginError::Config { message } && message@ == "route "@ + text::decimal(
            i as nat,
        ) + ": unknown key '"@ + t + "'"@),
        a < i || (a == i && b < j) ==> (yaml::text_of(keys_of(routes[a])[b].0) matches Some(t)
            ==> known.contains(t)),
{
    if a < i {
        assert(known_up_to(known, routes[a], keys_of(routes[a]).len() as int));
        assert(!is_unknown(known, keys_of(routes[a])[b].0));
    } else if a == i && b < j {
        assert(!is_unknown(known, keys_of(routes[a])[b].0));
    }
}

/// A refusal names the visitor, the section that it was shown and its reason, in this
/// order.
pub proof fn law_a_refusal_names_the_visitor_and_the_section(
    name: Seq<char>,
    reason: Seq<char>,
    t: Seq<char>,
    y: Yaml,
    g: Option<Yaml>,
    i: int,
)
    ensures
        refusal(name, StepView::Plugins, reason) == "visitor '"@ + name + "' "@ + "visit_plugins"@
            + ": "@ + reason,
        refusal(name, StepView::Global(g), reason) == "visitor '"@ + name + "' "@
            + "visit_global"@ + ": "@ + reason,
        refusal(name, StepView::DefaultFor(t, y), reason) == "visitor '"@ + name + "' "@ + (
        "visit_default('"@ + t + "')"@) + ": "@ + reason,
        refusal(name, StepView::Bundle(t, y), reason) == "visitor '"@ + name + "' "@ + (
        "visit_policy_bundle('"@ + t + "')"@) + ": "@ + reason,
        refusal(name, StepView::Route(i, g), reason) == "visitor '"@ + name + "' "@ + (
        "visit_route["@ + text::decimal(i as nat) + "]"@) + ": "@ + reason,
{
}

/// What a visitor is shown of each section. The plugins are those that are declared; a
/// global block or a route that is not there is shown as nothing; a default and a bundle
/// come with their names; and a route comes with the route that was understood at its own
/// place.
pub proof fn law_what_a_visitor_is_shown<V: ConfigVisitor>(
    visitor: V,
    engine: V::Engine,
    plugins: Vec<PluginConfig>,
    routes: Seq<V::Route>,
    y: Yaml,
    name: &str,
    i: int,
    r: Result<(), String>,
)
    ensures
        answers(visitor, engine, plugins, routes, StepView::Plugins, r) <==> call_ensures(
            V::visit_plugins,
            (&visitor, &engine, &plugins),
            r,
        ),
        answers(visitor, engine, plugins, routes, StepView::Global(Some(y)), r) <==> call_ensures(
            V::visit_global,
            (&visitor, &engine, &y),
            r,
        ),
        answers(visitor, engine, plugins, routes, StepView::Global(None), r) <==> call_ensures(
            V::visit_global,
            (&visitor, &engine, &Yaml::Null),
            r,
        ),
        call_ensures(V::visit_default, (&visitor, &engine, name, &y), r) ==> answers(
            visitor,
            engine,
            plugins,
            routes,
            StepView::DefaultFor(name@, y),
            r,
        ),
        answers(visitor, engine, plugins, routes, StepView::DefaultFor(name@, y), r) ==> exists|
            n: &str,
        |
            n@ == name@ && #[trigger] call_ensures(V::visit_default, (&visitor, &engine, n, &y), r),
        call_ensures(V::visit_policy_bundle, (&visitor, &engine, name, &y), r) ==> answers(
            visitor,
            engine,
            plugins,
            routes,
            StepView::Bundle(name@, y),
            r,
        ),
        answers(visitor, engine, plugins, routes, StepView::Bundle(name@, y), r) ==> exists|
            n: &str,
        |
            n@ == name@ && #[trigger] call_ensures(
                V::visit_policy_bundle,
                (&visitor, &engine, n, &y),
                r,
            ),
        answers(visitor, engine, plugins, routes, StepView::Route(i, Some(y)), r) <==> call_ensures(
            V::visit_route,
            (&visitor, &engine, &y, &routes[i]),
            r,
        ),
        answers(visitor, engine, plugins, routes, StepView::Route(i, None), r) <==> call_ensures(
            V::visit_route,
            (&visitor, &engine, &Yaml::Null, &routes[i]),
            r,
        ),
{
}

/// A walk that is refused was accepted in every turn before: by each visitor before the
/// one that refuses, in all sections, and by that one in the sections before. The one that
/// refuses gave the reason that the error carries.
pub proof fn law_all_before_a_refusal_was_accepted<V: ConfigVisitor>(
    visitors: Seq<Arc<V>>,
    engine: V::Engine,
    plugins: Vec<PluginConfig>,
    routes: Seq<V::Route>,
    plan: Seq<StepView>,
    e: PluginError,
    n: int,
    k: int,
    a: int,
    b: int,
)
    requires
        refused_at(visitors, engine, plugins, routes, plan, e, n, k),
        0 <= a < visitors.len(),
        0 <= b < plan.len(),
        a < n || (a == n && b < k),
    ensures
        exists|r: Result<(), String>|
            r is Ok && #[trigger] answers(*visitors[a], engine, plugins, routes, plan[b], r),
        exists|reason: String, name: &str|
            #![trigger reason@, name@]
            answers(*visitors[n], engine, plugins, routes, plan[k], Err(reason)) && call_ensures(
                V::name,
                (&*visitors[n],),
                name,
            ) && (e matches PluginError::Config { message } && message@ == refusal(
                name@,
                plan[k],
                reason@,
            )),
{
    assert(accepts(*visitors[a], engine, plugins, routes, plan[b]));
    assert(refuses(*visitors[n], engine, plugins, routes, plan[k], e));
}

} // verus!
