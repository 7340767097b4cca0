//! The agent capability: identity, lifecycle state, the per-tick context,
//! and the trait every agent implements. Agents are active entities,
//! ticked once per supervisor cycle, talking only through messages.

use vstd::prelude::*;
use crate::message::Message;
use crate::protection::ProtectionTier;

verus! {

/// Unique identifier for an agent. Id 0 is reserved for the supervisor.
#[derive(Debug, Clone, Copy, PartialEq, Eq, Hash, Structural)]
pub struct AgentId(pub u64);

impl AgentId {
    pub fn new(id: u64) -> (r: AgentId)
        ensures
            r == AgentId(id),
    {
        AgentId(id)
    }
}

/// The current state of an agent, owned by the agent itself; the
/// supervisor only reads it.
#[derive(Debug, Clone, Copy, PartialEq, Eq, Structural)]
pub enum AgentState {
    /// Agent is initializing.
    Initializing,
    /// Agent is ready and idle.
    Ready,
    /// Agent is actively processing.
    Running,
    /// Agent is waiting for a message or event.
    Waiting,
    /// Agent has completed its current task.
    Completed,
    /// Agent encountered an error.
    Error,
    /// Agent is shutting down.
    ShuttingDown,
}

/// Context handed to an agent for one tick: the messages addressed to it,
/// an outbox it appends to, and the current tick number. The outbox is
/// drained by the supervisor after the call; anything placed there is
/// visible to recipients only on the next tick.
pub struct AgentContext {
    /// Messages waiting for this agent.
    pub inbox: Vec<Message>,
    /// Outbox for sending messages.
    pub outbox: Vec<Message>,
    /// Current tick number.
    pub tick: u64,
}

/// What makes something an agent: a lifecycle driven entirely by the
/// supervisor. `tick` must never block and is the only place work
/// happens; `receive` is a side-channel notification called once per
/// delivered message.
pub trait Agent {
    /// The agent's unique identifier.
    fn id(&self) -> AgentId;

    /// The agent's display name.
    fn name(&self) -> &'static str;

    /// The agent's current state.
    fn state(&self) -> AgentState;

    /// One-time setup, called by the supervisor at registration.
    fn init(&mut self);

    /// Main processing step, called once per supervisor tick.
    fn tick(&mut self, ctx: &mut AgentContext) -> AgentState;

    /// Notification hook, called once per message delivered to the inbox.
    fn receive(&mut self, msg: &Message);

    /// Graceful shutdown.
    fn shutdown(&mut self);

    /// Morning goals for the day.
    fn daily_ambition(&mut self) -> Vec<String>;

    /// Midday progress report.
    fn checkpoint(&self) -> Vec<String>;

    /// Evening summary of accomplishments.
    fn eod_report(&self) -> Vec<String>;

    /// Nightly reflection; agents may adjust their behaviour here.
    fn reflect(&mut self);

    /// The highest protection tier at which this agent changes files on
    /// its own.
    fn max_write_tier(&self) -> ProtectionTier;

    /// A first-person journal line, or nothing to say right now.
    fn journal_entry(&self, tick: u64) -> Option<String>;

    /// Imprints the agent with the shared ambition.
    fn imprint(&mut self, ambition: &str);

    /// The agent names its role under the current ambition.
    fn clarify_role(&mut self) -> &'static str;

    /// Organizes the agent's domain before the interface appears.
    fn handle_environment_setup(&mut self, ctx: &mut AgentContext);
}

} // verus!
