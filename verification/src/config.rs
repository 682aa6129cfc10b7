//! What the engine reads of a policy document.
use crate::error;
use crate::error::PluginError;
use crate::plugin::{ConfigView, PluginConfig};
use crate::text;
use crate::value;
use crate::value::Json;
use vstd::prelude::*;

verus! {

/// How the executor runs a pipeline.
#[derive(Debug, Clone, Copy, PartialEq, Eq, Structural)]
pub struct ExecutorConfig {
    /// How long a plugin may take.
    pub timeout_seconds: u64,
    /// Whether a denial ends a concurrent phase.
    pub short_circuit_on_deny: bool,
}

impl Default for ExecutorConfig {
    fn default() -> (r: Self)
        ensures
            r == (ExecutorConfig { timeout_seconds: 30, short_circuit_on_deny: true }),
    {
        ExecutorConfig { timeout_seconds: 30, short_circuit_on_deny: true }
    }
}

/// Settings that hold for all plugins.
#[derive(Debug, Clone, Copy, PartialEq, Eq, Structural)]
pub struct PluginSettings {
    /// How long a plugin may take, in seconds.
    pub plugin_timeout: u64,
    /// Whether a denial ends a concurrent phase.
    pub short_circuit_on_deny: bool,
    /// How many resolved routes are kept.
    pub route_cache_max_entries: usize,
    /// Whether requests are routed.
    pub routing_enabled: bool,
    /// Read, not honoured.
    pub parallel_execution_within_band: bool,
    /// Read, not honoured.
    pub fail_on_plugin_error: bool,
}

/// A policy document, as far as the engine reads it.
#[derive(Debug)]
pub struct PolicyConfig {
    /// Directories to look for plugins in. Read, not honoured.
    pub plugin_dirs: Vec<String>,
    /// Settings that hold for all plugins.
    pub plugin_settings: PluginSettings,
    /// The plugins that are declared.
    pub plugins: Vec<PluginConfig>,
}

/// What a [`PolicyConfig`] is.
#[verifier::ext_equal]
pub struct PolicyView {
    /// Directories.
    pub plugin_dirs: Seq<Seq<char>>,
    /// Settings.
    pub plugin_settings: PluginSettings,
    /// Plugins.
    pub plugins: Seq<ConfigView>,
}

/// What a list of plugin configurations is.
pub open spec fn config_seq(v: Seq<PluginConfig>) -> Seq<ConfigView> {
    v.map_values(|c: PluginConfig| c@)
}

impl View for PolicyConfig {
    type V = PolicyView;

    open spec fn view(&self) -> PolicyView {
        PolicyView {
            plugin_dirs: value::text_seq(self.plugin_dirs@),
            plugin_settings: self.plugin_settings,
            plugins: config_seq(self.plugins@),
        }
    }
}

impl PolicyConfig {
    /// Whether requests are routed.
    pub fn routing_enabled(&self) -> (r: bool)
        ensures
            r == self@.plugin_settings.routing_enabled,
    {
        self.plugin_settings.routing_enabled
    }
}

/// A plugin that a route resolves to.
#[derive(Debug)]
pub struct ResolvedPlugin {
    /// The plugin's name.
    pub name: String,
    /// What the route overrides in its configuration.
    pub config_overrides: Option<Json>,
}

/// What is said of directories that nothing scans.
pub open spec fn dirs_warning(count: nat) -> Seq<char> {
    "config sets `plugin_dirs` (count="@ + text::decimal(count)
        + ") but the runtime does not scan directories for plugins — plugins must be registered via `register_factory()` and listed under `plugins:`. Setting ignored."@
}

/// What is said of parallel execution within a band.
pub const BAND_WARNING: &'static str = "config sets `plugin_settings.parallel_execution_within_band: true` but the runtime does not honor it — use `mode: concurrent` on individual plugins for parallel execution. Setting ignored.";

/// What is said of failing on a plugin's error.
pub const FAIL_WARNING: &'static str = "config sets `plugin_settings.fail_on_plugin_error: true` but the runtime does not honor it — use per-plugin `on_error: fail` for that behavior. Setting ignored.";

/// What an operator is told of settings that are read and not honoured.
pub open spec fn inactive_settings(cfg: PolicyView) -> Seq<Seq<char>> {
    (if cfg.plugin_dirs.len() > 0 {
        seq![dirs_warning(cfg.plugin_dirs.len())]
    } else {
        Seq::empty()
    }) + (if cfg.plugin_settings.parallel_execution_within_band {
        seq![BAND_WARNING@]
    } else {
        Seq::empty()
    }) + (if cfg.plugin_settings.fail_on_plugin_error {
        seq![FAIL_WARNING@]
    } else {
        Seq::empty()
    })
}

/// Warnings for settings that the runtime does not honour, so that an operator
/// who sets them is not ignored in silence. None of them fails a load.
pub fn warn_on_inactive_settings(cfg: &PolicyConfig) -> (r: Vec<String>)
    ensures
        value::text_seq(r@) == inactive_settings(cfg@),
{
    let mut out: Vec<String> = Vec::new();
    if cfg.plugin_dirs.len() > 0 {
        let mut m = "config sets `plugin_dirs` (count=".to_owned();
        m.append(text::decimal_of(cfg.plugin_dirs.len() as u64).as_str());
        m.append(
            ") but the runtime does not scan directories for plugins — plugins must be registered via `register_factory()` and listed under `plugins:`. Setting ignored.",
        );
        out.push(m);
    }
    if cfg.plugin_settings.parallel_execution_within_band {
        out.push(BAND_WARNING.to_owned());
    }
    if cfg.plugin_settings.fail_on_plugin_error {
        out.push(FAIL_WARNING.to_owned());
    }
    assert(value::text_seq(out@) =~= inactive_settings(cfg@));
    out
}

/// The error for a document that is no YAML.
pub fn parse_error(reason: &str) -> (r: PluginError)
    ensures
        error::is_config_error(r, "YAML parse error: "@ + reason@),
{
    let mut message = "YAML parse error: ".to_owned();
    message.append(reason);
    PluginError::Config { message }
}

/// The error for YAML that is no policy document.
pub fn deserialize_error(reason: &str) -> (r: PluginError)
    ensures
        error::is_config_error(r, "PolicyConfig deserialize error: "@ + reason@),
{
    let mut message = "PolicyConfig deserialize error: ".to_owned();
    message.append(reason);
    PluginError::Config { message }
}

/// A policy document is all that it is made of: two that look alike name the same
/// directories, have the same settings, and declare the same plugins in the same order.
pub proof fn law_documents_that_look_alike_are_alike(a: PolicyConfig, b: PolicyConfig, i: int)
    requires
        a@ == b@,
    ensures
        a.plugin_settings == b.plugin_settings,
        a.plugin_dirs@.len() == b.plugin_dirs@.len(),
        0 <= i < a.plugin_dirs@.len() ==> a.plugin_dirs@[i]@ == b.plugin_dirs@[i]@,
        a.plugins@.len() == b.plugins@.len(),
        0 <= i < a.plugins@.len() ==> a.plugins@[i]@ == b.plugins@[i]@,
{
    assert(value::text_seq(a.plugin_dirs@).len() == a.plugin_dirs@.len());
    assert(value::text_seq(b.plugin_dirs@).len() == b.plugin_dirs@.len());
    assert(config_seq(a.plugins@).len() == a.plugins@.len());
    assert(config_seq(b.plugins@).len() == b.plugins@.len());
    if 0 <= i < a.plugin_dirs@.len() {
        assert(value::text_seq(a.plugin_dirs@)[i] == a.plugin_dirs@[i]@);
        assert(value::text_seq(b.plugin_dirs@)[i] == b.plugin_dirs@[i]@);
    }
    if 0 <= i < a.plugins@.len() {
        assert(config_seq(a.plugins@)[i] == a.plugins@[i]@);
        assert(config_seq(b.plugins@)[i] == b.plugins@[i]@);
    }
}

/// An operator is told of each setting that is not honoured, and of nothing else: of
/// directories where there are any, of parallel execution within a band where it is
/// set, and of failing on a plugin's error where that is set, in this order.
pub proof fn law_each_setting_that_is_not_honoured_is_told_of(cfg: PolicyView)
    ensures
        inactive_settings(cfg).len() == (if cfg.plugin_dirs.len() > 0 {
            1int
        } else {
            0
        }) + (if cfg.plugin_settings.parallel_execution_within_band {
            1int
        } else {
            0
        }) + (if cfg.plugin_settings.fail_on_plugin_error {
            1int
        } else {
            0
        }),
        cfg.plugin_dirs.len() > 0 ==> inactive_settings(cfg).first() == dirs_warning(
            cfg.plugin_dirs.len(),
        ),
        cfg.plugin_settings.parallel_execution_within_band ==> inactive_settings(cfg).contains(
            BAND_WARNING@,
        ),
        cfg.plugin_settings.fail_on_plugin_error ==> inactive_settings(cfg).last()
            == FAIL_WARNING@,
        cfg.plugin_settings.parallel_execution_within_band
            && !cfg.plugin_settings.fail_on_plugin_error ==> inactive_settings(cfg).last()
            == BAND_WARNING@,
{
    let all = inactive_settings(cfg);
    if cfg.plugin_settings.parallel_execution_within_band {
        let at: int = if cfg.plugin_dirs.len() > 0 {
            1
        } else {
            0
        };
        assert(all[at] == BAND_WARNING@);
    }
}

/// What is said of directories that nothing scans says how many there are.
pub proof fn law_what_is_said_of_directories(count: nat)
    ensures
        dirs_warning(count) == "config sets `plugin_dirs` (count="@ + text::decimal(count)
            + ") but the runtime does not scan directories for plugins — plugins must be registered via `register_factory()` and listed under `plugins:`. Setting ignored."@,
{
}

} // verus!
