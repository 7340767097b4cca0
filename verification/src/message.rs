//! Messages exchanged between agents: the kinds, priorities and the value
//! type the supervisor routes. Agents communicate only through these
//! values, never through shared state. Each type carries a mathematical
//! model used by the contracts; a message's model is its fields with
//! every string read as its character sequence.

use vstd::prelude::*;
use crate::agent::AgentId;

verus! {

/// Priority levels for messages.
#[derive(Debug, Clone, Copy, PartialEq, Eq, PartialOrd, Ord, Structural)]
pub enum Priority {
    Low,
    Normal,
    High,
    Critical,
}

/// Observations agents hand back to the core; every one of them is
/// archived into the memory store.
#[derive(Debug, Clone, PartialEq)]
pub enum FeedbackType {
    /// A new idea or insight that emerged while doing work.
    Spark { content: String, context: String },
    /// A link between two earlier insights or projects.
    Connection { from: String, to: String, pattern: String },
    /// A useful article, tool, or data source found.
    Resource { description: String, location: String },
    /// A simple tag describing the agent's state, intensity 0 to 100.
    Feeling { tag: String, intensity: u8 },
}

/// System-level events from the supervisor.
#[derive(Debug, Clone, Copy, PartialEq, Eq, Structural)]
pub enum SystemEvent {
    MorningAmbition,
    MiddayCheckpoint,
    EndOfDay,
    NightReflection,
    Shutdown,
    GenesisProtocol,
    EnvironmentSetup,
}

/// What a message carries.
#[derive(Debug, Clone, PartialEq)]
pub enum MessageKind {
    /// Simple text message.
    Text(String),
    /// Request for another agent to do something.
    Request { action: String, params: Vec<String> },
    /// Response to a request.
    Response { success: bool, data: String },
    /// Status update for the daily rhythm.
    StatusUpdate { ambitions: Vec<String>, progress: Vec<String> },
    /// System event from the supervisor.
    SystemEvent(SystemEvent),
    /// Keyboard input event.
    KeyboardInput(char),
    /// Ping, for testing connectivity.
    Ping,
    /// Pong, the response to a ping.
    Pong,
    /// The periodic broadcast of the shared ambition.
    Heartbeat(String),
    /// Feedback from agents back to the core.
    Feedback(FeedbackType),
    /// An agent's first-breath announcement at registration.
    FirstBreath { agent_name: String, role: String },
    /// Ask the supervisor to store something in memory.
    MemoryStore { content: String, kind: String },
    /// Ask the supervisor to search memory.
    MemorySearch { query: String },
    /// Search results returned: id and content preview pairs.
    MemoryResults { results: Vec<(u64, String)> },
}

/// A message between agents.
#[derive(Debug, Clone, PartialEq)]
pub struct Message {
    /// Unique message id; assigned by the supervisor when the message
    /// enters the queue.
    pub id: u64,
    /// Who sent this message.
    pub from: AgentId,
    /// Who should receive this message; `None` means broadcast.
    pub to: Option<AgentId>,
    /// Message priority.
    pub priority: Priority,
    /// The actual content.
    pub kind: MessageKind,
    /// The tick at which the supervisor queued the message.
    pub timestamp: u64,
}

// ---------------------------------------------------------------------------
// Models
// ---------------------------------------------------------------------------

pub enum FeedbackModel {
    Spark { content: Seq<char>, context: Seq<char> },
    Connection { from: Seq<char>, to: Seq<char>, pattern: Seq<char> },
    Resource { description: Seq<char>, location: Seq<char> },
    Feeling { tag: Seq<char>, intensity: u8 },
}

pub enum KindModel {
    Text(Seq<char>),
    Request { action: Seq<char>, params: Seq<Seq<char>> },
    Response { success: bool, data: Seq<char> },
    StatusUpdate { ambitions: Seq<Seq<char>>, progress: Seq<Seq<char>> },
    SystemEvent(SystemEvent),
    KeyboardInput(char),
    Ping,
    Pong,
    Heartbeat(Seq<char>),
    Feedback(FeedbackModel),
    FirstBreath { agent_name: Seq<char>, role: Seq<char> },
    MemoryStore { content: Seq<char>, kind: Seq<char> },
    MemorySearch { query: Seq<char> },
    MemoryResults { results: Seq<(u64, Seq<char>)> },
}

pub struct MessageModel {
    pub id: u64,
    pub from: AgentId,
    pub to: Option<AgentId>,
    pub priority: Priority,
    pub kind: KindModel,
    pub timestamp: u64,
}

impl View for FeedbackType {
    type V = FeedbackModel;

    open spec fn view(&self) -> FeedbackModel {
        match self {
            FeedbackType::Spark { content, context } => FeedbackModel::Spark {
                content: content@,
                context: context@,
            },
            FeedbackType::Connection { from, to, pattern } => FeedbackModel::Connection {
                from: from@,
                to: to@,
                pattern: pattern@,
            },
            FeedbackType::Resource { description, location } => FeedbackModel::Resource {
                description: description@,
                location: location@,
            },
            FeedbackType::Feeling { tag, intensity } => FeedbackModel::Feeling {
                tag: tag@,
                intensity: *intensity,
            },
        }
    }
}

impl DeepView for FeedbackType {
    type V = FeedbackModel;

    open spec fn deep_view(&self) -> FeedbackModel {
        self.view()
    }
}

impl View for MessageKind {
    type V = KindModel;

    open spec fn view(&self) -> KindModel {
        match self {
            MessageKind::Text(t) => KindModel::Text(t@),
            MessageKind::Request { action, params } => KindModel::Request {
                action: action@,
                params: params.deep_view(),
            },
            MessageKind::Response { success, data } => KindModel::Response {
                success: *success,
                data: data@,
            },
            MessageKind::StatusUpdate { ambitions, progress } => KindModel::StatusUpdate {
                ambitions: ambitions.deep_view(),
                progress: progress.deep_view(),
            },
            MessageKind::SystemEvent(e) => KindModel::SystemEvent(*e),
            MessageKind::KeyboardInput(c) => KindModel::KeyboardInput(*c),
            MessageKind::Ping => KindModel::Ping,
            MessageKind::Pong => KindModel::Pong,
            MessageKind::Heartbeat(a) => KindModel::Heartbeat(a@),
            MessageKind::Feedback(f) => KindModel::Feedback(f@),
            MessageKind::FirstBreath { agent_name, role } => KindModel::FirstBreath {
                agent_name: agent_name@,
                role: role@,
            },
            MessageKind::MemoryStore { content, kind } => KindModel::MemoryStore {
                content: content@,
                kind: kind@,
            },
            MessageKind::MemorySearch { query } => KindModel::MemorySearch { query: query@ },
            MessageKind::MemoryResults { results } => KindModel::MemoryResults {
                results: results.deep_view(),
            },
        }
    }
}

impl DeepView for MessageKind {
    type V = KindModel;

    open spec fn deep_view(&self) -> KindModel {
        self.view()
    }
}

impl View for Message {
    type V = MessageModel;

    open spec fn view(&self) -> MessageModel {
        MessageModel {
            id: self.id,
            from: self.from,
            to: self.to,
            priority: self.priority,
            kind: self.kind@,
            timestamp: self.timestamp,
        }
    }
}

impl DeepView for Message {
    type V = MessageModel;

    open spec fn deep_view(&self) -> MessageModel {
        self.view()
    }
}

// ---------------------------------------------------------------------------
// Exact copies
// ---------------------------------------------------------------------------

/// Copies a vector of strings, value for value.
pub fn dup_strings(v: &Vec<String>) -> (r: Vec<String>)
    ensures
        r@ == v@,
{
    let mut r: Vec<String> = Vec::new();
    let mut i: usize = 0;
    while i < v.len()
        invariant
            i <= v@.len(),
            r@ == v@.take(i as int),
        decreases v@.len() - i,
    {
        r.push(v[i].clone());
        proof {
            assert(r@ =~= v@.take(i + 1));
        }
        i = i + 1;
    }
    proof {
        assert(r@ =~= v@);
    }
    r
}

/// Copies a vector of id and preview pairs, value for value.
pub fn dup_results(v: &Vec<(u64, String)>) -> (r: Vec<(u64, String)>)
    ensures
        r@ == v@,
{
    let mut r: Vec<(u64, String)> = Vec::new();
    let mut i: usize = 0;
    while i < v.len()
        invariant
            i <= v@.len(),
            r@ == v@.take(i as int),
        decreases v@.len() - i,
    {
        let p = (v[i].0, v[i].1.clone());
        proof {
            assert(p == v@[i as int]);
        }
        r.push(p);
        proof {
            assert(r@ =~= v@.take(i + 1));
        }
        i = i + 1;
    }
    proof {
        assert(r@ =~= v@);
    }
    r
}

impl FeedbackType {
    /// A copy with the same model.
    pub fn duplicate(&self) -> (r: FeedbackType)
        ensures
            r@ == self@,
    {
        match self {
            FeedbackType::Spark { content, context } => FeedbackType::Spark {
                content: content.clone(),
                context: context.clone(),
            },
            FeedbackType::Connection { from, to, pattern } => FeedbackType::Connection {
                from: from.clone(),
                to: to.clone(),
                pattern: pattern.clone(),
            },
            FeedbackType::Resource { description, location } => FeedbackType::Resource {
                description: description.clone(),
                location: location.clone(),
            },
            FeedbackType::Feeling { tag, intensity } => FeedbackType::Feeling {
                tag: tag.clone(),
                intensity: *intensity,
            },
        }
    }
}

impl MessageKind {
    /// A copy with the same model.
    pub fn duplicate(&self) -> (r: MessageKind)
        ensures
            r@ == self@,
    {
        match self {
            MessageKind::Text(t) => MessageKind::Text(t.clone()),
            MessageKind::Request { action, params } => MessageKind::Request {
                action: action.clone(),
                params: dup_strings(params),
            },
            MessageKind::Response { success, data } => MessageKind::Response {
                success: *success,
                data: data.clone(),
            },
            MessageKind::StatusUpdate { ambitions, progress } => MessageKind::StatusUpdate {
                ambitions: dup_strings(ambitions),
                progress: dup_strings(progress),
            },
            MessageKind::SystemEvent(e) => MessageKind::SystemEvent(*e),
            MessageKind::KeyboardInput(c) => MessageKind::KeyboardInput(*c),
            MessageKind::Ping => MessageKind::Ping,
            MessageKind::Pong => MessageKind::Pong,
            MessageKind::Heartbeat(a) => MessageKind::Heartbeat(a.clone()),
            MessageKind::Feedback(f) => MessageKind::Feedback(f.duplicate()),
            MessageKind::FirstBreath { agent_name, role } => MessageKind::FirstBreath {
                agent_name: agent_name.clone(),
                role: role.clone(),
            },
            MessageKind::MemoryStore { content, kind } => MessageKind::MemoryStore {
                content: content.clone(),
                kind: kind.clone(),
            },
            MessageKind::MemorySearch { query } => MessageKind::MemorySearch {
                query: query.clone(),
            },
            MessageKind::MemoryResults { results } => MessageKind::MemoryResults {
                results: dup_results(results),
            },
        }
    }
}

impl Message {
    /// The model of a freshly made message of the given kind: id and
    /// timestamp zero, normal priority.
    pub open spec fn fresh_model(from: AgentId, to: Option<AgentId>, kind: KindModel)
        -> MessageModel {
        MessageModel { id: 0, from, to, priority: Priority::Normal, kind, timestamp: 0 }
    }

    /// Creates a new message with normal priority. The id and timestamp
    /// start at zero; the supervisor assigns both when the message enters
    /// its queue.
    pub fn new(from: AgentId, to: Option<AgentId>, kind: MessageKind) -> (m: Message)
        ensures
            m@ == Self::fresh_model(from, to, kind@),
    {
        Message { id: 0, from, to, priority: Priority::Normal, kind, timestamp: 0 }
    }

    /// Creates a message with high priority.
    pub fn urgent(from: AgentId, to: Option<AgentId>, kind: MessageKind) -> (m: Message)
        ensures
            m@ == (MessageModel {
                priority: Priority::High,
                ..Self::fresh_model(from, to, kind@)
            }),
    {
        let mut msg = Self::new(from, to, kind);
        msg.priority = Priority::High;
        msg
    }

    /// Creates a broadcast message, addressed to all agents.
    pub fn broadcast(from: AgentId, kind: MessageKind) -> (m: Message)
        ensures
            m@ == Self::fresh_model(from, None, kind@),
    {
        Self::new(from, None, kind)
    }

    /// Creates a ping message.
    pub fn ping(from: AgentId, to: AgentId) -> (m: Message)
        ensures
            m@ == Self::fresh_model(from, Some(to), KindModel::Ping),
    {
        Self::new(from, Some(to), MessageKind::Ping)
    }

    /// Creates a pong response.
    pub fn pong(from: AgentId, to: AgentId) -> (m: Message)
        ensures
            m@ == Self::fresh_model(from, Some(to), KindModel::Pong),
    {
        Self::new(from, Some(to), MessageKind::Pong)
    }

    /// A copy with the same model.
    pub fn duplicate(&self) -> (r: Message)
        ensures
            r@ == self@,
    {
        Message {
            id: self.id,
            from: self.from,
            to: self.to,
            priority: self.priority,
            kind: self.kind.duplicate(),
            timestamp: self.timestamp,
        }
    }
}

} // verus!
