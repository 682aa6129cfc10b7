//! What can go wrong with a plugin, and what a plugin objects to.
use vstd::prelude::*;

verus! {

/// A failure of a plugin, or of what configures it.
#[derive(Debug, Clone, PartialEq, Eq)]
pub enum PluginError {
    /// Configuration that cannot be used.
    Config {
        /// What is wrong with it.
        message: String,
    },
    /// A plugin that failed at run time.
    Execution {
        /// The plugin.
        plugin_name: String,
        /// What went wrong.
        message: String,
    },
}

/// The message that an error carries.
pub open spec fn message_of(e: PluginError) -> Seq<char> {
    match e {
        PluginError::Config { message } => message@,
        PluginError::Execution { plugin_name: _, message } => message@,
    }
}

/// Whether `e` is a configuration error with the text `message`.
pub open spec fn is_config_error(e: PluginError, message: Seq<char>) -> bool {
    e matches PluginError::Config { message: m } && m@ == message
}

impl PluginError {
    /// What went wrong.
    pub fn message(&self) -> (r: &str)
        ensures
            r@ == message_of(*self),
    {
        match self {
            PluginError::Config { message } => message.as_str(),
            PluginError::Execution { plugin_name: _, message } => message.as_str(),
        }
    }
}

/// A plugin's objection to a request.
#[derive(Debug, Clone, PartialEq, Eq)]
pub struct PluginViolation {
    /// A stable identifier of the objection.
    pub code: String,
    /// Why, in words.
    pub reason: String,
}

impl PluginViolation {
    /// An objection.
    pub fn new(code: &str, reason: &str) -> (r: Self)
        ensures
            r.code@ == code@,
            r.reason@ == reason@,
    {
        PluginViolation { code: code.to_owned(), reason: reason.to_owned() }
    }
}

/// An error says what its message says, whichever it is, and a configuration error is one
/// with that very text and no other failure.
pub proof fn law_an_error_says_its_message(message: String, plugin_name: String, said: Seq<char>)
    ensures
        message_of(PluginError::Config { message }) == message@,
        message_of(PluginError::Execution { plugin_name, message }) == message@,
        is_config_error(PluginError::Config { message }, said) <==> message@ == said,
        !is_config_error(PluginError::Execution { plugin_name, message }, said),
{
}

} // verus!
