//! What a request to a model asks of its tools.
use vstd::prelude::*;

verus! {

/// How a model is to choose among the tools it is offered.
#[derive(Debug, Clone, PartialEq, Eq)]
pub enum ToolChoice {
    /// The model decides.
    Auto,
    /// No tool is called.
    Never,
    /// Some tool is called.
    Required,
    /// One tool is called.
    Tool {
        /// The tool's name.
        name: String,
    },
}

} // verus!
