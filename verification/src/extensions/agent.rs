//! The agent that a request comes from, and the conversation it is part of.
use vstd::prelude::*;

verus! {

/// One message of a conversation.
#[derive(Debug, Clone, Default, PartialEq, Eq)]
pub struct Message {
    /// Who speaks.
    pub role: String,
    /// What is said.
    pub content: String,
}

/// What is known of the conversation so far.
#[derive(Debug, Clone, Default)]
pub struct ConversationContext {
    /// The messages exchanged.
    pub history: Vec<Message>,
    /// A summary of them.
    pub summary: Option<String>,
    /// The topics they touch.
    pub topics: Vec<String>,
}

/// The agent that a request comes from.
#[derive(Debug, Clone, Default)]
pub struct AgentExtension {
    /// The input that set the agent going.
    pub input: Option<String>,
    /// The session.
    pub session_id: Option<String>,
    /// The conversation.
    pub conversation_id: Option<String>,
    /// The turn within the conversation.
    pub turn: Option<u32>,
    /// The agent.
    pub agent_id: Option<String>,
    /// The agent that called this one.
    pub parent_agent_id: Option<String>,
    /// What is known of the conversation.
    pub conversation: Option<ConversationContext>,
}

} // verus!
