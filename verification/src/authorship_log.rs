//! Records kept in an authorship log: authors, the agents behind AI edits and
//! the prompt sessions they ran.
use std::cmp::Ordering;
use std::collections::HashMap;
use vstd::prelude::*;
use vstd::std_specs::cmp::PartialOrdSpecImpl;

verus! {

#[derive(Debug, Clone, PartialEq, Eq)]
pub struct Author {
    pub username: String,
    pub email: String,
}

/// Identity record for a known human author attested by an IDE extension
#[derive(Debug, Clone, PartialEq, Eq)]
pub struct HumanRecord {
    /// Git committer identity: "Alice Smith <alice@example.com>"
    pub author: String,
}

/// The agent that produced a change: tool, session id and model.
#[derive(Debug, Clone, PartialEq, Eq)]
pub struct AgentId {
    pub tool: String,
    pub id: String,
    pub model: String,
}

/// One message of a prompt transcript.
#[derive(Debug, Clone, PartialEq, Eq)]
pub enum Message {
    User { text: String, timestamp: Option<String> },
    Assistant { text: String, timestamp: Option<String> },
}

impl Message {
    /// A message written by the user.
    pub fn user(text: String, timestamp: Option<String>) -> (m: Message)
        ensures
            m == (Message::User { text, timestamp }),
    {
        Message::User { text, timestamp }
    }

    /// A message written by the assistant.
    pub fn assistant(text: String, timestamp: Option<String>) -> (m: Message)
        ensures
            m == (Message::Assistant { text, timestamp }),
    {
        Message::Assistant { text, timestamp }
    }
}

/// Prompt session details stored in the top-level prompts map keyed by short
/// hash (agent_id + tool)
#[derive(Debug, Clone, PartialEq)]
pub struct PromptRecord {
    pub agent_id: AgentId,
    pub human_author: Option<String>,
    pub messages: Vec<Message>,
    pub total_additions: u32,
    pub total_deletions: u32,
    pub accepted_lines: u32,
    pub overriden_lines: u32,
    /// Full URL to CAS-stored messages (format: {api_base_url}/cas/{hash})
    pub messages_url: Option<String>,
    pub custom_attributes: Option<HashMap<String, String>>,
}

impl Eq for PromptRecord {

}

/// Order records oldest to newest: by number of messages, then additions, then
/// deletions.
pub open spec fn record_order(a: PromptRecord, b: PromptRecord) -> Ordering {
    if a.messages.len() < b.messages.len() {
        Ordering::Less
    } else if a.messages.len() > b.messages.len() {
        Ordering::Greater
    } else if a.total_additions < b.total_additions {
        Ordering::Less
    } else if a.total_additions > b.total_additions {
        Ordering::Greater
    } else if a.total_deletions < b.total_deletions {
        Ordering::Less
    } else if a.total_deletions > b.total_deletions {
        Ordering::Greater
    } else {
        Ordering::Equal
    }
}

/// The ordering key of a record: its number of messages, additions and
/// deletions.
pub open spec fn record_key(a: PromptRecord) -> (usize, u32, u32) {
    (a.messages.len(), a.total_additions, a.total_deletions)
}

impl PromptRecord {
    /// Sort oldest to newest based on messages, additions, or deletions;
    /// compares lexicographically.
    pub fn cmp(&self, other: &Self) -> (r: Ordering)
        ensures
            r == record_order(*self, *other),
    {
        let a = self.messages.len();
        let b = other.messages.len();
        if a < b {
            Ordering::Less
        } else if a > b {
            Ordering::Greater
        } else if self.total_additions < other.total_additions {
            Ordering::Less
        } else if self.total_additions > other.total_additions {
            Ordering::Greater
        } else if self.total_deletions < other.total_deletions {
            Ordering::Less
        } else if self.total_deletions > other.total_deletions {
            Ordering::Greater
        } else {
            Ordering::Equal
        }
    }
}

impl PartialOrd for PromptRecord {
    fn partial_cmp(&self, other: &Self) -> (r: Option<Ordering>) {
        Some(self.cmp(other))
    }
}

impl PartialOrdSpecImpl for PromptRecord {
    open spec fn obeys_partial_cmp_spec() -> bool {
        true
    }

    open spec fn partial_cmp_spec(&self, other: &Self) -> Option<Ordering> {
        Some(record_order(*self, *other))
    }
}

/// The number of messages decides first: a record with fewer messages comes
/// first whatever its additions and deletions. Between records with as many
/// messages, fewer additions come first; with as many of both, fewer
/// deletions; records with all three counts equal compare equal.
pub proof fn lemma_record_order_messages_first(a: PromptRecord, b: PromptRecord)
    ensures
        a.messages.len() < b.messages.len() ==> record_order(a, b) == Ordering::Less,
        a.messages.len() > b.messages.len() ==> record_order(a, b) == Ordering::Greater,
        a.messages.len() == b.messages.len() && a.total_additions < b.total_additions
            ==> record_order(a, b) == Ordering::Less,
        a.messages.len() == b.messages.len() && a.total_additions > b.total_additions
            ==> record_order(a, b) == Ordering::Greater,
        a.messages.len() == b.messages.len() && a.total_additions == b.total_additions
            && a.total_deletions < b.total_deletions ==> record_order(a, b) == Ordering::Less,
        a.messages.len() == b.messages.len() && a.total_additions == b.total_additions
            && a.total_deletions > b.total_deletions ==> record_order(a, b) == Ordering::Greater,
        a.messages.len() == b.messages.len() && a.total_additions == b.total_additions
            && a.total_deletions == b.total_deletions ==> record_order(a, b) == Ordering::Equal,
{
}

/// The record order is antisymmetric: swapping the records reverses it.
pub proof fn lemma_record_order_antisymmetric(a: PromptRecord, b: PromptRecord)
    ensures
        record_order(a, b) == Ordering::Less <==> record_order(b, a) == Ordering::Greater,
        record_order(a, b) == Ordering::Equal <==> record_order(b, a) == Ordering::Equal,
{
}

/// The record order is transitive.
pub proof fn lemma_record_order_transitive(a: PromptRecord, b: PromptRecord, c: PromptRecord)
    requires
        record_order(a, b) == Ordering::Less,
        record_order(b, c) == Ordering::Less,
    ensures
        record_order(a, c) == Ordering::Less,
{
}

/// Two records compare as equal exactly when they have the same number of
/// messages, additions and deletions, whatever their other fields hold.
pub proof fn lemma_record_order_equal_iff_same_key(a: PromptRecord, b: PromptRecord)
    ensures
        record_order(a, b) == Ordering::Equal <==> record_key(a) == record_key(b),
{
}

} // verus!
