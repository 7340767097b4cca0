//! The supervisor owns every agent, the global message queue and the
//! memory store, and drives the tick loop: heartbeat, drain, partition,
//! archive feedback, answer memory requests, route, tick each agent, and
//! collect. Messages queued during a tick are delivered no earlier than
//! the next tick.

use vstd::prelude::*;
use vstd::multiset::Multiset;
use crate::agent::{Agent, AgentId, AgentState, AgentContext};
use crate::message::{Message, MessageKind, KindModel, MessageModel, FeedbackType, FeedbackModel};
use crate::memory_store::{MemoryStore, MemoryKind, EntryModel, PostingModel};
use crate::thomas::{Thomas, ThomasModel, sat_inc, sat_inc_pub};
use crate::archimedes::{Archimedes, ArchimedesModel};
use crate::text::dec_digits;

verus! {

/// The closed set of agent implementations the runtime ships with. New
/// implementations join by adding a variant.
#[derive(Debug)]
pub enum AgentKind {
    Thomas(Thomas),
    Archimedes(Archimedes),
}

/// The mathematical value of an agent.
pub enum AgentKindModel {
    Thomas(ThomasModel),
    Archimedes(ArchimedesModel),
}

impl View for AgentKind {
    type V = AgentKindModel;

    open spec fn view(&self) -> AgentKindModel {
        match self {
            AgentKind::Thomas(t) => AgentKindModel::Thomas(t@),
            AgentKind::Archimedes(a) => AgentKindModel::Archimedes(a@),
        }
    }
}

impl DeepView for AgentKind {
    type V = AgentKindModel;

    open spec fn deep_view(&self) -> AgentKindModel {
        self.view()
    }
}

/// An agent's id, at the model level.
pub open spec fn ak_id(a: AgentKindModel) -> AgentId {
    match a {
        AgentKindModel::Thomas(t) => t.id,
        AgentKindModel::Archimedes(ar) => ar.id,
    }
}

/// An agent's state after `init`.
pub open spec fn ak_init_model(a: AgentKindModel) -> AgentKindModel {
    match a {
        AgentKindModel::Thomas(t) => AgentKindModel::Thomas(
            ThomasModel { state: AgentState::Ready, tests_run: 3, tests_passed: 3, ..t },
        ),
        AgentKindModel::Archimedes(ar) => AgentKindModel::Archimedes(
            ArchimedesModel {
                state: AgentState::Ready,
                today_ambition: Some(crate::archimedes::default_ambition()),
                commitments: crate::archimedes::default_commitments(),
                ..ar
            },
        ),
    }
}

/// An agent's state after `imprint`.
pub open spec fn ak_imprint_model(a: AgentKindModel, ambition: Seq<char>) -> AgentKindModel {
    match a {
        AgentKindModel::Thomas(t) => AgentKindModel::Thomas(
            ThomasModel { imprinted_ambition: Some(ambition), ..t },
        ),
        AgentKindModel::Archimedes(ar) => AgentKindModel::Archimedes(
            ArchimedesModel {
                today_ambition: Some(ambition),
                commitments: crate::archimedes::commitments_of(ambition),
                ..ar
            },
        ),
    }
}

/// An agent's state after `clarify_role`.
pub open spec fn ak_role_model(a: AgentKindModel) -> AgentKindModel {
    match a {
        AgentKindModel::Thomas(t) => AgentKindModel::Thomas(ThomasModel { role: "Guardian"@, ..t }),
        AgentKindModel::Archimedes(ar) => AgentKindModel::Archimedes(ar),
    }
}

/// The role an agent names.
pub open spec fn ak_role_name(a: AgentKindModel) -> Seq<char> {
    match a {
        AgentKindModel::Thomas(t) => "Guardian"@,
        AgentKindModel::Archimedes(ar) => "Co-Creator"@,
    }
}

/// The agent's display name.
pub open spec fn ak_name(a: AgentKindModel) -> Seq<char> {
    match a {
        AgentKindModel::Thomas(t) => "Thomas"@,
        AgentKindModel::Archimedes(ar) => "Archimedes"@,
    }
}

/// An agent's state after `daily_ambition`.
pub open spec fn ak_morning_model(a: AgentKindModel) -> AgentKindModel {
    match a {
        AgentKindModel::Thomas(t) => AgentKindModel::Thomas(
            ThomasModel { tests_run: 0, tests_passed: 0, ..t },
        ),
        AgentKindModel::Archimedes(ar) => AgentKindModel::Archimedes(ar),
    }
}

/// An agent's state after one tick on the given inbox.
pub open spec fn ak_tick_state(a: AgentKindModel, msgs: Seq<MessageModel>) -> AgentKindModel {
    match a {
        AgentKindModel::Thomas(t) => AgentKindModel::Thomas(crate::thomas::t_tick_state(t, msgs)),
        AgentKindModel::Archimedes(ar) => AgentKindModel::Archimedes(
            crate::archimedes::a_tick_state(ar, msgs),
        ),
    }
}

/// An agent's outbox for one tick on the given inbox.
pub open spec fn ak_tick_out(a: AgentKindModel, msgs: Seq<MessageModel>, tick: u64) -> Seq<
    MessageModel,
> {
    match a {
        AgentKindModel::Thomas(t) => crate::thomas::t_tick_out(t, msgs, tick),
        AgentKindModel::Archimedes(ar) => crate::archimedes::a_tick_out(ar, msgs),
    }
}

impl AgentKind {
    /// The agent's id.
    pub fn id(&self) -> (r: AgentId)
        ensures
            r == ak_id(self@),
    {
        match self {
            AgentKind::Thomas(t) => t.id(),
            AgentKind::Archimedes(a) => a.id(),
        }
    }

    /// The agent's display name.
    pub fn name(&self) -> (r: &'static str)
        ensures
            self@ is Thomas ==> r@ == "Thomas"@,
            self@ is Archimedes ==> r@ == "Archimedes"@,
    {
        match self {
            AgentKind::Thomas(t) => t.name(),
            AgentKind::Archimedes(a) => a.name(),
        }
    }

    /// One-time setup.
    pub fn init(&mut self)
        ensures
            final(self)@ == ak_init_model(old(self)@),
    {
        match self {
            AgentKind::Thomas(t) => t.init(),
            AgentKind::Archimedes(a) => a.init(),
        }
    }

    /// Imprints the shared ambition.
    pub fn imprint(&mut self, ambition: &str)
        ensures
            final(self)@ == ak_imprint_model(old(self)@, ambition@),
    {
        match self {
            AgentKind::Thomas(t) => t.imprint(ambition),
            AgentKind::Archimedes(a) => a.imprint(ambition),
        }
    }

    /// The agent names its role.
    pub fn clarify_role(&mut self) -> (r: &'static str)
        ensures
            final(self)@ == ak_role_model(old(self)@),
            r@ == ak_role_name(old(self)@),
    {
        match self {
            AgentKind::Thomas(t) => t.clarify_role(),
            AgentKind::Archimedes(a) => a.clarify_role(),
        }
    }

    /// Morning goals; Thomas also resets his daily counters.
    pub fn daily_ambition(&mut self) -> (r: Vec<String>)
        ensures
            final(self)@ == ak_morning_model(old(self)@),
    {
        match self {
            AgentKind::Thomas(t) => t.daily_ambition(),
            AgentKind::Archimedes(a) => a.daily_ambition(),
        }
    }

    /// One tick on the given context.
    pub fn tick(&mut self, ctx: &mut AgentContext) -> (r: AgentState)
        ensures
            final(self)@ == ak_tick_state(old(self)@, old(ctx).inbox.deep_view()),
            final(ctx).inbox == old(ctx).inbox,
            final(ctx).tick == old(ctx).tick,
            final(ctx).outbox.deep_view() == old(ctx).outbox.deep_view() + ak_tick_out(
                old(self)@,
                old(ctx).inbox.deep_view(),
                old(ctx).tick,
            ),
    {
        match self {
            AgentKind::Thomas(t) => t.tick(ctx),
            AgentKind::Archimedes(a) => a.tick(ctx),
        }
    }
}

// ---------------------------------------------------------------------------
// Partitioning and routing
// ---------------------------------------------------------------------------

/// Whether a message carries feedback.
pub open spec fn is_feedback(m: MessageModel) -> bool {
    m.kind is Feedback
}

/// Whether a message is a memory-protocol request.
pub open spec fn is_memory_msg(m: MessageModel) -> bool {
    m.kind is MemoryStore || m.kind is MemorySearch
}

/// Whether a message is routed to agents.
pub open spec fn is_routable(m: MessageModel) -> bool {
    !is_feedback(m) && !is_memory_msg(m)
}

pub open spec fn feedback_pred() -> spec_fn(MessageModel) -> bool {
    |m: MessageModel| is_feedback(m)
}

pub open spec fn memory_pred() -> spec_fn(MessageModel) -> bool {
    |m: MessageModel| is_memory_msg(m)
}

pub open spec fn routable_pred() -> spec_fn(MessageModel) -> bool {
    |m: MessageModel| is_routable(m)
}

/// Whether a message reaches the agent with the given id: addressed to
/// it, or a broadcast. Broadcasts reach their sender too.
pub open spec fn reaches(m: MessageModel, aid: AgentId) -> bool {
    m.to is None || m.to == Some(aid)
}

pub open spec fn reaches_pred(aid: AgentId) -> spec_fn(MessageModel) -> bool {
    |m: MessageModel| reaches(m, aid)
}

/// The slice of a routable batch one agent sees.
pub open spec fn inbox_for(routable: Seq<MessageModel>, aid: AgentId) -> Seq<MessageModel> {
    routable.filter(reaches_pred(aid))
}


// ---------------------------------------------------------------------------
// Texts and model steps of the tick loop
// ---------------------------------------------------------------------------

/// Saturating offset from a base id.
pub open spec fn sat_off(base: u64, p: int) -> u64 {
    if base + p > u64::MAX {
        u64::MAX
    } else {
        (base + p) as u64
    }
}

/// A queue segment after stamping: position `p` gets id `base + p` and
/// the current tick as timestamp.
pub open spec fn stamped(q: Seq<MessageModel>, base: u64, now: u64) -> Seq<MessageModel> {
    Seq::new(
        q.len(),
        |p: int|
            MessageModel {
                id: sat_off(base, p),
                timestamp: now,
                from: q[p].from,
                to: q[p].to,
                priority: q[p].priority,
                kind: q[p].kind,
            },
    )
}

/// The synthetic source label for an agent's memories.
pub open spec fn agent_source(aid: AgentId) -> Seq<char> {
    "agent-"@ + dec_digits(aid.0 as nat)
}

/// The archived text of one piece of feedback.
pub open spec fn fb_text(f: FeedbackModel) -> Seq<char> {
    match f {
        FeedbackModel::Spark { content, context } => content + " (context: "@ + context + ")"@,
        FeedbackModel::Connection { from, to, pattern } => from + " -> "@ + to + ": "@ + pattern,
        FeedbackModel::Resource { description, location } => description + " (at: "@ + location
            + ")"@,
        FeedbackModel::Feeling { tag, intensity } => tag + " (intensity: "@ + dec_digits(
            intensity as nat,
        ) + ")"@,
    }
}

/// The memory kind one piece of feedback archives under.
pub open spec fn fb_kind(f: FeedbackModel) -> MemoryKind {
    match f {
        FeedbackModel::Spark { .. } => MemoryKind::Spark,
        FeedbackModel::Connection { .. } => MemoryKind::Connection,
        FeedbackModel::Resource { .. } => MemoryKind::Resource,
        FeedbackModel::Feeling { .. } => MemoryKind::Feeling,
    }
}

/// The kind tag of a memory-store request, observation when unknown.
pub open spec fn kind_or_observation(tag: Seq<char>) -> MemoryKind {
    match MemoryKind::spec_from_tag(tag) {
        Some(k) => k,
        None => MemoryKind::Observation,
    }
}

/// One store into the memory model.
pub open spec fn mstore(
    em: Seq<EntryModel>,
    next: u64,
    max: nat,
    content: Seq<char>,
    kind: MemoryKind,
    source: Seq<char>,
    now: u64,
) -> (Seq<EntryModel>, u64) {
    (
        MemoryStore::spec_evict(
            em.push(MemoryStore::new_entry_model(next, content, kind, source, now)),
            max,
        ),
        (next + 1) as u64,
    )
}

/// The memory model after archiving a batch's feedback messages.
pub open spec fn archive_fold(
    em: Seq<EntryModel>,
    next: u64,
    max: nat,
    fbs: Seq<MessageModel>,
    now: u64,
) -> (Seq<EntryModel>, u64)
    decreases fbs.len(),
{
    if fbs.len() == 0 {
        (em, next)
    } else {
        let m = fbs[0];
        let f = m.kind->Feedback_0;
        let step = mstore(em, next, max, fb_text(f), fb_kind(f), agent_source(m.from), now);
        archive_fold(step.0, step.1, max, fbs.drop_first(), now)
    }
}

/// The feedback payloads of a batch, in order.
pub open spec fn fb_payloads(fbs: Seq<MessageModel>) -> Seq<FeedbackModel> {
    fbs.map_values(|m: MessageModel| m.kind->Feedback_0)
}

/// A bounded list of insights: the newest fifty survive.
pub open spec fn tail50(c: Seq<FeedbackModel>) -> Seq<FeedbackModel> {
    if c.len() > 50 {
        c.skip(c.len() - 50)
    } else {
        c
    }
}

/// A preview of stored content: the whole text when it fits in eighty
/// bytes, else its first seventy-seven characters and an ellipsis.
pub open spec fn preview80(s: Seq<char>) -> Seq<char> {
    if crate::keywords::utf8_len(s) > 80 {
        (if s.len() > 77 {
            s.take(77)
        } else {
            s
        }) + "..."@
    } else {
        s
    }
}

/// The memory model and reply results after answering one search: each
/// of the first ten hits is recalled, bumping its access count, and
/// previewed.
pub open spec fn recall_fold(em: Seq<EntryModel>, hits: Seq<(u64, u32)>) -> (
    Seq<EntryModel>,
    Seq<(u64, Seq<char>)>,
)
    decreases hits.len(),
{
    if hits.len() == 0 {
        (em, Seq::empty())
    } else {
        let id = hits[0].0;
        if MemoryStore::spec_has_id(em, id) {
            let i = MemoryStore::idx_of(em, id);
            let e = em[i];
            let bumped = EntryModel {
                access_count: if e.access_count < u64::MAX {
                    (e.access_count + 1) as u64
                } else {
                    e.access_count
                },
                ..e
            };
            let rest = recall_fold(em.update(i, bumped), hits.drop_first());
            (rest.0, seq![(id, preview80(e.content))] + rest.1)
        } else {
            recall_fold(em, hits.drop_first())
        }
    }
}

/// The memory model and the replies after the memory-protocol phase of
/// one tick. Replies are listed unstamped: ids and timestamps are
/// assigned when they enter the queue.
pub open spec fn mem_fold(
    em: Seq<EntryModel>,
    next: u64,
    max: nat,
    mems: Seq<MessageModel>,
    now: u64,
) -> (Seq<EntryModel>, u64, Seq<MessageModel>)
    decreases mems.len(),
{
    if mems.len() == 0 {
        (em, next, Seq::empty())
    } else {
        let m = mems[0];
        match m.kind {
            KindModel::MemoryStore { content, kind } => {
                let step = mstore(em, next, max, content, kind_or_observation(kind), agent_source(m.from), now);
                let reply = Message::fresh_model(
                    AgentId(0),
                    Some(m.from),
                    KindModel::MemoryResults { results: seq![(next, content)] },
                );
                let rest = mem_fold(step.0, step.1, max, mems.drop_first(), now);
                (rest.0, rest.1, seq![reply] + rest.2)
            },
            KindModel::MemorySearch { query } => {
                let recalled = recall_fold(em, search_hits(em, query));
                let reply = Message::fresh_model(
                    AgentId(0),
                    Some(m.from),
                    KindModel::MemoryResults { results: recalled.1 },
                );
                let rest = mem_fold(recalled.0, next, max, mems.drop_first(), now);
                (rest.0, rest.1, seq![reply] + rest.2)
            },
            _ => mem_fold(em, next, max, mems.drop_first(), now),
        }
    }
}

/// The serendipity pattern text for a theme.
pub open spec fn txt_serendipity(kw: Seq<char>) -> Seq<char> {
    "Serendipity: theme '"@ + kw + "' links these insights"@
}

/// A shorter preview: the whole text when it fits in sixty bytes, else
/// its first fifty-seven characters and an ellipsis.
pub open spec fn preview60(s: Seq<char>) -> Seq<char> {
    if crate::keywords::utf8_len(s) > 60 {
        (if s.len() > 57 {
            s.take(57)
        } else {
            s
        }) + "..."@
    } else {
        s
    }
}

/// One recall of an entry by id, as `get` does it: the access count
/// rises by one (left alone only at the counter's maximum); an unknown
/// id changes nothing.
pub open spec fn bump1(em: Seq<EntryModel>, id: u64) -> Seq<EntryModel> {
    if MemoryStore::spec_has_id(em, id) {
        let i = MemoryStore::idx_of(em, id);
        em.update(
            i,
            EntryModel {
                access_count: if em[i].access_count < u64::MAX {
                    (em[i].access_count + 1) as u64
                } else {
                    em[i].access_count
                },
                ..em[i]
            },
        )
    } else {
        em
    }
}

/// One serendipity theme: search it, and when at least two hits come
/// back, recall the first two — strengthening their access counts — and
/// broadcast one connection linking their previews.
pub open spec fn sere_step(em: Seq<EntryModel>, kw: Seq<char>) -> (
    Seq<EntryModel>,
    Seq<MessageModel>,
) {
    let hits = MemoryStore::sorted_hits(em, crate::keywords::extract_kws(kw));
    if hits.len() < 2 {
        (em, Seq::empty())
    } else {
        let h0 = hits[0].0;
        let h1 = hits[1].0;
        let em1 = bump1(em, h0);
        let em2 = bump1(em1, h1);
        if MemoryStore::spec_has_id(em, h0) && MemoryStore::spec_has_id(em1, h1) {
            (
                em2,
                seq![
                    Message::fresh_model(
                        AgentId(0),
                        None,
                        KindModel::Feedback(
                            FeedbackModel::Connection {
                                from: preview60(em[MemoryStore::idx_of(em, h0)].content),
                                to: preview60(em1[MemoryStore::idx_of(em1, h1)].content),
                                pattern: txt_serendipity(kw),
                            },
                        ),
                    ),
                ],
            )
        } else {
            (em2, Seq::empty())
        }
    }
}

/// The whole scan: each qualifying theme (document frequency at least
/// two) contributes one step, on the memory state its predecessors left.
pub open spec fn sere_fold(em: Seq<EntryModel>, themes: Seq<(Seq<char>, nat)>) -> (
    Seq<EntryModel>,
    Seq<MessageModel>,
)
    decreases themes.len(),
{
    if themes.len() == 0 {
        (em, Seq::empty())
    } else if themes[0].1 < 2 {
        sere_fold(em, themes.drop_first())
    } else {
        let st = sere_step(em, themes[0].0);
        let rest = sere_fold(st.0, themes.drop_first());
        (rest.0, st.1 + rest.1)
    }
}

/// The themes one scan considers: the top five keywords of the index by
/// document frequency, ties in first-use order.
pub open spec fn sere_themes(im: Seq<PostingModel>) -> Seq<(Seq<char>, nat)> {
    let ranked = MemoryStore::sorted_kw_counts(im);
    ranked.take(
        if ranked.len() > 5 {
            5
        } else {
            ranked.len() as int
        },
    )
}

/// How many entries the supervisor's memory store keeps.
pub const MEMORY_CAPACITY: usize = 200;

/// How many insights the constellation keeps.
pub const MAX_INSIGHTS: usize = 50;

/// The supervisor: owner of the agents, the queue and the memory store.
pub struct Supervisor {
    /// All registered agents, in registration order.
    agents: Vec<AgentKind>,
    /// The global message queue: everything here is delivered next tick.
    message_queue: Vec<Message>,
    /// Current tick number.
    tick: u64,
    /// Next agent id to hand out; id 0 is the supervisor's own.
    next_agent_id: u64,
    /// The supervisor's own id.
    id: AgentId,
    /// The shared living ambition, once set.
    living_ambition: Option<String>,
    /// Heartbeat counter; the ambition is re-broadcast when it reaches
    /// one hundred.
    heartbeat_counter: u64,
    /// The bounded constellation of collected insights.
    constellation_of_insights: Vec<FeedbackType>,
    /// Serendipity counter; memory is scanned for shared themes when it
    /// reaches five hundred.
    serendipity_counter: u64,
    /// Rhythm counter for the periodic reporting cycles.
    rhythm_counter: u64,
    /// The memory store.
    memory: MemoryStore,
    /// Next message id to stamp onto a queued message.
    next_message_id: u64,
    /// The batch drained on the latest tick.
    last_batch: Ghost<Seq<MessageModel>>,
    /// The inbox each agent saw on the latest tick.
    last_inboxes: Ghost<Seq<Seq<MessageModel>>>,
    /// What entered the queue on the latest tick, before stamping.
    last_queued: Ghost<Seq<MessageModel>>,
    /// The index the latest serendipity scan ranked its themes from.
    last_scan_index: Ghost<Seq<PostingModel>>,
}

impl Supervisor {
    pub closed spec fn agents_model(self) -> Seq<AgentKindModel> {
        self.agents.deep_view()
    }

    pub closed spec fn queue_model(self) -> Seq<MessageModel> {
        self.message_queue.deep_view()
    }

    pub closed spec fn constellation_model(self) -> Seq<FeedbackModel> {
        self.constellation_of_insights.deep_view()
    }

    pub closed spec fn spec_memory(self) -> MemoryStore {
        self.memory
    }

    /// The supervisor's own id: always zero.
    pub closed spec fn spec_id(self) -> AgentId {
        self.id
    }

    pub closed spec fn memory_entries(self) -> Seq<EntryModel> {
        self.memory.entries_model()
    }

    pub closed spec fn memory_next_id(self) -> u64 {
        self.memory.spec_next_id()
    }

    pub closed spec fn spec_tick(self) -> u64 {
        self.tick
    }

    pub closed spec fn spec_next_agent_id(self) -> u64 {
        self.next_agent_id
    }

    pub closed spec fn spec_next_message_id(self) -> u64 {
        self.next_message_id
    }

    pub closed spec fn spec_heartbeat_counter(self) -> u64 {
        self.heartbeat_counter
    }

    pub closed spec fn spec_serendipity_counter(self) -> u64 {
        self.serendipity_counter
    }

    pub closed spec fn spec_rhythm_counter(self) -> u64 {
        self.rhythm_counter
    }

    pub closed spec fn spec_ambition(self) -> Option<Seq<char>> {
        match self.living_ambition {
            Some(ref a) => Some(a@),
            None => None,
        }
    }

    pub closed spec fn spec_last_batch(self) -> Seq<MessageModel> {
        self.last_batch@
    }

    pub closed spec fn spec_last_inboxes(self) -> Seq<Seq<MessageModel>> {
        self.last_inboxes@
    }

    pub closed spec fn spec_last_queued(self) -> Seq<MessageModel> {
        self.last_queued@
    }

    pub closed spec fn spec_last_scan_index(self) -> Seq<PostingModel> {
        self.last_scan_index@
    }

    /// The supervisor's invariant: a well-formed memory store, counters
    /// inside their cycles, queued messages stamped no later than the
    /// current tick, and agents with non-reserved ids.
    pub open spec fn wf(self) -> bool {
        &&& self.spec_id() == AgentId(0)
        &&& self.spec_memory().wf()
        &&& self.spec_memory().spec_max_entries() == MEMORY_CAPACITY
        &&& self.spec_heartbeat_counter() < 100
        &&& self.spec_serendipity_counter() < 500
        &&& self.spec_rhythm_counter() == self.spec_tick()
        &&& self.constellation_model().len() <= 50
        &&& forall|p: int|
            0 <= p < self.queue_model().len() ==> (#[trigger] self.queue_model()[p]).timestamp
                <= self.spec_tick()
        &&& forall|j: int|
            0 <= j < self.agents_model().len() ==> ak_id(#[trigger] self.agents_model()[j]).0 >= 1
        &&& self.spec_next_agent_id() >= 1
    }

    /// Creates a supervisor with no agents, an empty queue and a fresh
    /// memory store.
    pub fn new() -> (s: Supervisor)
        ensures
            s.wf(),
            s.agents_model().len() == 0,
            s.queue_model().len() == 0,
            s.spec_tick() == 0,
            s.spec_next_agent_id() == 1,
            s.spec_ambition() is None,
            s.constellation_model().len() == 0,
            s.memory_entries().len() == 0,
            s.spec_next_message_id() == 1,
    {
        let s = Supervisor {
            agents: Vec::new(),
            message_queue: Vec::new(),
            tick: 0,
            next_agent_id: 1,
            id: AgentId(0),
            living_ambition: None,
            heartbeat_counter: 0,
            constellation_of_insights: Vec::new(),
            serendipity_counter: 0,
            rhythm_counter: 0,
            memory: MemoryStore::new(MEMORY_CAPACITY),
            next_message_id: 1,
            last_batch: Ghost(Seq::empty()),
            last_inboxes: Ghost(Seq::empty()),
            last_queued: Ghost(Seq::empty()),
            last_scan_index: Ghost(Seq::empty()),
        };
        proof {
            assert(s.agents_model() =~= Seq::<AgentKindModel>::empty());
            assert(s.queue_model() =~= Seq::<MessageModel>::empty());
            assert(s.constellation_model() =~= Seq::<FeedbackModel>::empty());
        }
        s
    }

    /// How many agents are registered.
    pub fn agent_count(&self) -> (n: usize)
        ensures
            n == self.agents_model().len(),
    {
        self.agents.len()
    }

    /// The current tick.
    pub fn current_tick(&self) -> (t: u64)
        ensures
            t == self.spec_tick(),
    {
        self.tick
    }

    /// The current living ambition.
    pub fn get_ambition(&self) -> (r: Option<&String>)
        ensures
            match r {
                Some(a) => self.spec_ambition() == Some(a@),
                None => self.spec_ambition() is None,
            },
    {
        self.living_ambition.as_ref()
    }

    /// The collected constellation of insights.
    pub fn get_insights(&self) -> (r: &Vec<FeedbackType>)
        ensures
            r.deep_view() == self.constellation_model(),
    {
        &self.constellation_of_insights
    }

    /// The agent at a position, in registration order.
    pub fn agent_at(&self, j: usize) -> (r: &AgentKind)
        requires
            j < self.agents_model().len(),
        ensures
            r@ == self.agents_model()[j as int],
    {
        proof {
            assert(self.agents@[j as int].deep_view() == self.agents_model()[j as int]);
        }
        &self.agents[j]
    }

    /// The memory store.
    pub fn memory_store(&self) -> (r: &MemoryStore)
        ensures
            *r == self.spec_memory(),
    {
        &self.memory
    }

    /// How many messages wait in the queue for the next tick.
    pub fn queue_len(&self) -> (n: usize)
        ensures
            n == self.queue_model().len(),
    {
        self.message_queue.len()
    }

    /// The inbox each agent saw on the latest tick.
    pub fn last_inboxes(&self) -> (r: Ghost<Seq<Seq<MessageModel>>>)
        ensures
            r@ == self.spec_last_inboxes(),
    {
        Ghost(self.last_inboxes@)
    }

    /// Hands out the next unused agent id.
    pub fn next_id(&mut self) -> (r: AgentId)
        requires
            old(self).spec_next_agent_id() < u64::MAX,
        ensures
            r == AgentId(old(self).spec_next_agent_id()),
            final(self).spec_next_agent_id() == old(self).spec_next_agent_id() + 1,
            final(self).agents_model() == old(self).agents_model(),
            final(self).queue_model() == old(self).queue_model(),
            final(self).spec_tick() == old(self).spec_tick(),
            old(self).wf() ==> final(self).wf(),
    {
        let id = AgentId(self.next_agent_id);
        self.next_agent_id = self.next_agent_id + 1;
        id
    }

    /// Stamps a message with the current tick and the next message id
    /// and appends it to the queue.
    fn enqueue(&mut self, m: Message)
        ensures
            final(self).queue_model() == old(self).queue_model().push(
                MessageModel {
                    id: old(self).spec_next_message_id(),
                    timestamp: old(self).spec_tick(),
                    from: m@.from,
                    to: m@.to,
                    priority: m@.priority,
                    kind: m@.kind,
                },
            ),
            final(self).spec_next_message_id() == sat_inc(old(self).spec_next_message_id()),
            final(self).agents == old(self).agents,
            final(self).tick == old(self).tick,
            final(self).id == old(self).id,
            final(self).next_agent_id == old(self).next_agent_id,
            final(self).living_ambition == old(self).living_ambition,
            final(self).heartbeat_counter == old(self).heartbeat_counter,
            final(self).constellation_of_insights == old(self).constellation_of_insights,
            final(self).serendipity_counter == old(self).serendipity_counter,
            final(self).rhythm_counter == old(self).rhythm_counter,
            final(self).memory == old(self).memory,
            final(self).last_batch == old(self).last_batch,
            final(self).last_inboxes == old(self).last_inboxes,
            final(self).last_queued == old(self).last_queued,
            final(self).last_scan_index == old(self).last_scan_index,
    {
        let mut msg = m;
        msg.id = self.next_message_id;
        msg.timestamp = self.tick;
        self.next_message_id = sat_inc_pub(self.next_message_id);
        let ghost q0 = self.queue_model();
        self.message_queue.push(msg);
        proof {
            assert(self.queue_model() =~= q0.push(msg@));
        }
    }

    /// Queues a message for delivery starting next tick, stamping its
    /// timestamp and id.
    pub fn send(&mut self, msg: Message)
        ensures
            final(self).queue_model() == old(self).queue_model().push(
                MessageModel {
                    id: old(self).spec_next_message_id(),
                    timestamp: old(self).spec_tick(),
                    from: msg@.from,
                    to: msg@.to,
                    priority: msg@.priority,
                    kind: msg@.kind,
                },
            ),
            final(self).spec_next_message_id() == sat_inc(old(self).spec_next_message_id()),
            final(self).agents_model() == old(self).agents_model(),
            final(self).spec_tick() == old(self).spec_tick(),
            final(self).memory_entries() == old(self).memory_entries(),
            final(self).constellation_model() == old(self).constellation_model(),
            final(self).spec_ambition() == old(self).spec_ambition(),
            old(self).wf() ==> final(self).wf(),
    {
        self.enqueue(msg);
        proof {
            if old(self).wf() {
                assert forall|p: int|
                    0 <= p < self.queue_model().len() implies (#[trigger] self.queue_model()[
                p]).timestamp <= self.spec_tick() by {
                    if p < old(self).queue_model().len() {
                        assert(self.queue_model()[p] == old(self).queue_model()[p]);
                    }
                }
                assert(self.spec_id() == AgentId(0));
                assert(self.spec_memory().wf());
                assert(self.spec_memory().spec_max_entries() == MEMORY_CAPACITY);
                assert(self.spec_heartbeat_counter() < 100);
                assert(self.spec_serendipity_counter() < 500);
                assert(self.spec_rhythm_counter() == self.spec_tick());
                assert(self.constellation_model().len() <= 50);
                assert(self.agents_model() == old(self).agents_model());
                assert(forall|j: int|
                    0 <= j < self.agents_model().len() ==> ak_id(
                        #[trigger] self.agents_model()[j],
                    ).0 >= 1);
                assert(self.spec_next_agent_id() >= 1);
            }
        }
    }

    /// Queues a broadcast of the given kind from the supervisor itself.
    pub fn broadcast(&mut self, kind: MessageKind)
        requires
            old(self).spec_id() == AgentId(0),
        ensures
            final(self).queue_model() == old(self).queue_model().push(
                MessageModel {
                    id: old(self).spec_next_message_id(),
                    timestamp: old(self).spec_tick(),
                    from: AgentId(0),
                    to: None,
                    priority: crate::message::Priority::Normal,
                    kind: kind@,
                },
            ),
            final(self).spec_next_message_id() == sat_inc(old(self).spec_next_message_id()),
            final(self).agents_model() == old(self).agents_model(),
            final(self).spec_tick() == old(self).spec_tick(),
            final(self).memory_entries() == old(self).memory_entries(),
            final(self).constellation_model() == old(self).constellation_model(),
            final(self).spec_ambition() == old(self).spec_ambition(),
            old(self).wf() ==> final(self).wf(),
    {
        let msg = Message::broadcast(self.id, kind);
        self.send(msg);
    }

    /// Registers an agent: runs its one-time setup, imprints it when an
    /// ambition is already living, lets it clarify its role, announces
    /// its first breath to everyone, and adds it to the roster.
    pub fn register(&mut self, agent: AgentKind)
        requires
            old(self).wf(),
            ak_id(agent@).0 >= 1,
        ensures
            final(self).wf(),
            final(self).agents_model() == old(self).agents_model().push(
                ak_role_model(
                    match old(self).spec_ambition() {
                        Some(a) => ak_imprint_model(ak_init_model(agent@), a),
                        None => ak_init_model(agent@),
                    },
                ),
            ),
            final(self).queue_model() == old(self).queue_model().push(
                MessageModel {
                    id: old(self).spec_next_message_id(),
                    timestamp: old(self).spec_tick(),
                    from: AgentId(0),
                    to: None,
                    priority: crate::message::Priority::Normal,
                    kind: KindModel::FirstBreath {
                        agent_name: ak_name(agent@),
                        role: ak_role_name(
                            match old(self).spec_ambition() {
                                Some(a) => ak_imprint_model(ak_init_model(agent@), a),
                                None => ak_init_model(agent@),
                            },
                        ),
                    },
                },
            ),
            final(self).spec_tick() == old(self).spec_tick(),
            final(self).memory_entries() == old(self).memory_entries(),
    {
        let mut agent = agent;
        let name = agent.name();
        agent.init();
        let ambition: Option<String> = match &self.living_ambition {
            Some(a) => Some(a.clone()),
            None => None,
        };
        if let Some(a) = ambition {
            agent.imprint(a.as_str());
        }
        let role = agent.clarify_role();
        self.broadcast(
            MessageKind::FirstBreath { agent_name: name.to_owned(), role: role.to_owned() },
        );
        let ghost before = self.agents_model();
        let ghost am = agent@;
        self.agents.push(agent);
        proof {
            assert(self.agents_model() =~= before.push(am));
            assert(ak_id(am).0 >= 1) by {
                assert(ak_id(am) == ak_id(agent@));
            }
            assert forall|j: int|
                0 <= j < self.agents_model().len() implies ak_id(
                #[trigger] self.agents_model()[j],
            ).0 >= 1 by {
                if j < before.len() {
                    assert(self.agents_model()[j] == before[j]);
                }
            }
        }
    }

    /// Sets the living ambition, imprints every agent with it, and
    /// broadcasts the first heartbeat at once.
    pub fn breathe(&mut self, ambition: String)
        requires
            old(self).wf(),
        ensures
            final(self).wf(),
            final(self).spec_ambition() == Some(ambition@),
            final(self).agents_model().len() == old(self).agents_model().len(),
            forall|j: int|
                0 <= j < final(self).agents_model().len() ==> #[trigger] final(self).agents_model()[j]
                    == ak_imprint_model(old(self).agents_model()[j], ambition@),
            final(self).queue_model() == old(self).queue_model().push(
                MessageModel {
                    id: old(self).spec_next_message_id(),
                    timestamp: old(self).spec_tick(),
                    from: AgentId(0),
                    to: None,
                    priority: crate::message::Priority::Normal,
                    kind: KindModel::Heartbeat(ambition@),
                },
            ),
            final(self).spec_tick() == old(self).spec_tick(),
            final(self).memory_entries() == old(self).memory_entries(),
    {
        let ghost before = self.agents_model();
        self.living_ambition = Some(ambition.clone());
        let n = self.agents.len();
        let mut j: usize = 0;
        while j < n
            invariant
                n == before.len(),
                self.agents_model().len() == n,
                j <= n,
                forall|p: int|
                    0 <= p < j ==> #[trigger] self.agents_model()[p] == ak_imprint_model(
                        before[p],
                        ambition@,
                    ),
                forall|p: int| j <= p < n ==> #[trigger] self.agents_model()[p] == before[p],
                self.message_queue == old(self).message_queue,
                self.tick == old(self).tick,
                self.id == old(self).id,
                self.next_agent_id == old(self).next_agent_id,
                self.heartbeat_counter == old(self).heartbeat_counter,
                self.serendipity_counter == old(self).serendipity_counter,
                self.rhythm_counter == old(self).rhythm_counter,
                self.memory == old(self).memory,
                self.constellation_of_insights == old(self).constellation_of_insights,
                self.next_message_id == old(self).next_message_id,
                self.living_ambition matches Some(a) && a@ == ambition@,
            decreases n - j,
        {
            let ghost pre = self.agents_model();
            let mut a = self.agents.remove(j);
            proof {
                assert(self.agents_model() =~= pre.remove(j as int));
            }
            a.imprint(ambition.as_str());
            let ghost mid = self.agents_model();
            self.agents.insert(j, a);
            proof {
                assert(self.agents_model() =~= mid.insert(j as int, a@));
                assert forall|p: int|
                    0 <= p < j + 1 implies #[trigger] self.agents_model()[p] == ak_imprint_model(
                    before[p],
                    ambition@,
                ) by {
                    if p < j {
                        assert(self.agents_model()[p] == pre[p]);
                    } else {
                        assert(self.agents_model()[p] == a@);
                        assert(pre[j as int] == before[j as int]);
                    }
                }
                assert forall|p: int| j + 1 <= p < n implies #[trigger] self.agents_model()[p]
                    == before[p] by {
                    assert(self.agents_model()[p] == pre[p]);
                }
            }
            j = j + 1;
        }
        self.pulse();
        proof {
            assert forall|p: int|
                0 <= p < self.agents_model().len() implies ak_id(
                #[trigger] self.agents_model()[p],
            ).0 >= 1 by {
                assert(self.agents_model()[p] == ak_imprint_model(before[p], ambition@));
                assert(ak_id(before[p]).0 >= 1);
            }
        }
    }

    /// Broadcasts the living ambition as a heartbeat, when one is set.
    fn pulse(&mut self)
        requires
            old(self).id == AgentId(0),
        ensures
            match old(self).spec_ambition() {
                Some(a) => final(self).queue_model() == old(self).queue_model().push(
                    MessageModel {
                        id: old(self).spec_next_message_id(),
                        timestamp: old(self).spec_tick(),
                        from: AgentId(0),
                        to: None,
                        priority: crate::message::Priority::Normal,
                        kind: KindModel::Heartbeat(a),
                    },
                ) && final(self).spec_next_message_id() == sat_inc(
                    old(self).spec_next_message_id(),
                ),
                None => final(self).queue_model() == old(self).queue_model() && final(self).spec_next_message_id() == old(self).spec_next_message_id(),
            },
            final(self).agents == old(self).agents,
            final(self).tick == old(self).tick,
            final(self).next_agent_id == old(self).next_agent_id,
            final(self).living_ambition == old(self).living_ambition,
            final(self).heartbeat_counter == old(self).heartbeat_counter,
            final(self).constellation_of_insights == old(self).constellation_of_insights,
            final(self).serendipity_counter == old(self).serendipity_counter,
            final(self).rhythm_counter == old(self).rhythm_counter,
            final(self).id == old(self).id,
            final(self).memory == old(self).memory,
    {
        let ambition: Option<String> = match &self.living_ambition {
            Some(a) => Some(a.clone()),
            None => None,
        };
        if let Some(a) = ambition {
            let msg = Message::broadcast(self.id, MessageKind::Heartbeat(a));
            self.enqueue(msg);
        }
    }
}


/// The concatenated outboxes of the agents, each ticked on its slice of
/// the routable batch.
pub open spec fn outs_fold(
    agents: Seq<AgentKindModel>,
    routable: Seq<MessageModel>,
    now: u64,
) -> Seq<MessageModel>
    decreases agents.len(),
{
    if agents.len() == 0 {
        Seq::empty()
    } else {
        ak_tick_out(agents[0], inbox_for(routable, ak_id(agents[0])), now) + outs_fold(
            agents.drop_first(),
            routable,
            now,
        )
    }
}

/// One more agent folded into the collection.
#[verifier::rlimit(100)]
#[verifier::spinoff_prover]
proof fn lemma_outs_step(agents: Seq<AgentKindModel>, routable: Seq<MessageModel>, now: u64, j: int)
    requires
        0 <= j < agents.len(),
    ensures
        outs_fold(agents.take(j + 1), routable, now) == outs_fold(agents.take(j), routable, now)
            + ak_tick_out(agents[j], inbox_for(routable, ak_id(agents[j])), now),
    decreases j,
{
    if j == 0 {
        assert(agents.take(1)[0] == agents[0]);
        assert(agents.take(1).drop_first() =~= agents.take(0));
        assert(outs_fold(agents.take(0), routable, now).len() == 0);
        assert(outs_fold(agents.take(1), routable, now) =~= outs_fold(agents.take(0), routable, now)
            + ak_tick_out(agents[0], inbox_for(routable, ak_id(agents[0])), now));
    } else {
        lemma_outs_step(agents.drop_first(), routable, now, j - 1);
        assert(agents.take(j + 1)[0] == agents[0]);
        assert(agents.take(j + 1).drop_first() =~= agents.drop_first().take(j));
        assert(agents.take(j)[0] == agents[0]);
        assert(agents.take(j).drop_first() =~= agents.drop_first().take(j - 1));
        assert(agents.drop_first()[j - 1] == agents[j]);
        let h = ak_tick_out(agents[0], inbox_for(routable, ak_id(agents[0])), now);
        let m = ak_tick_out(agents[j], inbox_for(routable, ak_id(agents[j])), now);
        assert(h + (outs_fold(agents.drop_first().take(j - 1), routable, now) + m) =~= (h
            + outs_fold(agents.drop_first().take(j - 1), routable, now)) + m);
    }
}

/// One more feedback message folded into the archive.
proof fn lemma_archive_take_step(
    em: Seq<EntryModel>,
    next: u64,
    max: nat,
    fbs: Seq<MessageModel>,
    now: u64,
    i: int,
)
    requires
        0 <= i < fbs.len(),
    ensures
        archive_fold(em, next, max, fbs.take(i + 1), now).0 == ({
            let pre = archive_fold(em, next, max, fbs.take(i), now);
            let m = fbs[i];
            let f = m.kind->Feedback_0;
            mstore(pre.0, pre.1, max, fb_text(f), fb_kind(f), agent_source(m.from), now).0
        }),
        archive_fold(em, next, max, fbs.take(i + 1), now).1 == ({
            let pre = archive_fold(em, next, max, fbs.take(i), now);
            let m = fbs[i];
            let f = m.kind->Feedback_0;
            mstore(pre.0, pre.1, max, fb_text(f), fb_kind(f), agent_source(m.from), now).1
        }),
    decreases i,
{
    if i == 0 {
        assert(fbs.take(1)[0] == fbs[0]);
        assert(fbs.take(1).drop_first() =~= fbs.take(0));
        let m = fbs[0];
        let f = m.kind->Feedback_0;
        let s0 = mstore(em, next, max, fb_text(f), fb_kind(f), agent_source(m.from), now);
        assert(archive_fold(em, next, max, fbs.take(1), now) == archive_fold(
            s0.0,
            s0.1,
            max,
            fbs.take(0),
            now,
        ));
        assert(archive_fold(s0.0, s0.1, max, fbs.take(0), now) == (s0.0, s0.1));
    } else {
        let m0 = fbs[0];
        let f0 = m0.kind->Feedback_0;
        let s0 = mstore(em, next, max, fb_text(f0), fb_kind(f0), agent_source(m0.from), now);
        lemma_archive_take_step(s0.0, s0.1, max, fbs.drop_first(), now, i - 1);
        assert(fbs.take(i + 1)[0] == fbs[0]);
        assert(fbs.take(i + 1).drop_first() =~= fbs.drop_first().take(i));
        assert(fbs.take(i)[0] == fbs[0]);
        assert(fbs.take(i).drop_first() =~= fbs.drop_first().take(i - 1));
        assert(fbs.drop_first()[i - 1] == fbs[i]);
    }
}

/// One memory-protocol step on an accumulated state: the store or the
/// recalls apply to the memory, and the reply joins the list.
pub open spec fn mem_step(
    pre: (Seq<EntryModel>, u64, Seq<MessageModel>),
    m: MessageModel,
    max: nat,
    now: u64,
) -> (Seq<EntryModel>, u64, Seq<MessageModel>) {
    match m.kind {
        KindModel::MemoryStore { content, kind } => {
            let step = mstore(
                pre.0,
                pre.1,
                max,
                content,
                kind_or_observation(kind),
                agent_source(m.from),
                now,
            );
            let reply = Message::fresh_model(
                AgentId(0),
                Some(m.from),
                KindModel::MemoryResults { results: seq![(pre.1, content)] },
            );
            (step.0, step.1, pre.2.push(reply))
        },
        KindModel::MemorySearch { query } => {
            let hits = search_hits(pre.0, query);
            let recalled = recall_fold(pre.0, hits);
            let reply = Message::fresh_model(
                AgentId(0),
                Some(m.from),
                KindModel::MemoryResults { results: recalled.1 },
            );
            (recalled.0, pre.1, pre.2.push(reply))
        },
        _ => pre,
    }
}

/// The first ten search hits for a query against a memory model.
pub open spec fn search_hits(em: Seq<EntryModel>, query: Seq<char>) -> Seq<(u64, u32)> {
    let all = MemoryStore::sorted_hits(em, crate::keywords::extract_kws(query));
    all.take(
        if all.len() > 10 {
            10
        } else {
            all.len() as int
        },
    )
}

/// One more memory-protocol message folded in.
#[verifier::rlimit(100)]
#[verifier::spinoff_prover]
proof fn lemma_mem_take_step(
    em: Seq<EntryModel>,
    next: u64,
    max: nat,
    mems: Seq<MessageModel>,
    now: u64,
    i: int,
)
    requires
        0 <= i < mems.len(),
    ensures
        mem_fold(em, next, max, mems.take(i + 1), now) == mem_step(
            mem_fold(em, next, max, mems.take(i), now),
            mems[i],
            max,
            now,
        ),
    decreases i,
{
    assert(mems.take(i + 1)[0] == mems[0]);
    assert(mems.take(i + 1).drop_first() =~= mems.drop_first().take(i));
    if i == 0 {
        assert(mems.take(1).drop_first() =~= mems.take(0));
        assert(mem_fold(em, next, max, mems.take(0), now) == (
            em,
            next,
            Seq::<MessageModel>::empty(),
        ));
        let m = mems[0];
        match m.kind {
            KindModel::MemoryStore { content, kind } => {
                let step = mstore(
                    em,
                    next,
                    max,
                    content,
                    kind_or_observation(kind),
                    agent_source(m.from),
                    now,
                );
                let rest = mem_fold(step.0, step.1, max, mems.take(0), now);
                assert(rest.2 =~= Seq::<MessageModel>::empty());
                assert(seq![mem_step_reply((em, next, Seq::empty()), m)] + rest.2
                    =~= Seq::<MessageModel>::empty().push(
                    mem_step_reply((em, next, Seq::empty()), m),
                ));
            },
            KindModel::MemorySearch { query } => {
                let recalled = recall_fold(em, search_hits(em, query));
                let rest = mem_fold(recalled.0, next, max, mems.take(0), now);
                assert(rest.2 =~= Seq::<MessageModel>::empty());
                assert(seq![mem_step_reply((em, next, Seq::empty()), m)] + rest.2
                    =~= Seq::<MessageModel>::empty().push(
                    mem_step_reply((em, next, Seq::empty()), m),
                ));
            },
            _ => {
            },
        }
    } else {
        let m0 = mems[0];
        assert(mems.take(i)[0] == mems[0]);
        assert(mems.take(i).drop_first() =~= mems.drop_first().take(i - 1));
        assert(mems.drop_first()[i - 1] == mems[i]);
        match m0.kind {
            KindModel::MemoryStore { content, kind } => {
                let step = mstore(
                    em,
                    next,
                    max,
                    content,
                    kind_or_observation(kind),
                    agent_source(m0.from),
                    now,
                );
                lemma_mem_take_step(step.0, step.1, max, mems.drop_first(), now, i - 1);
                let s_pre = mem_fold(step.0, step.1, max, mems.drop_first().take(i - 1), now);
                let reply0 = Message::fresh_model(
                    AgentId(0),
                    Some(m0.from),
                    KindModel::MemoryResults { results: seq![(next, content)] },
                );
                let r = mem_step_reply(s_pre, mems[i]);
                if !(mems[i].kind is MemoryStore) && !(mems[i].kind is MemorySearch) {
                } else {
                    assert(seq![reply0] + s_pre.2.push(r) =~= (seq![reply0] + s_pre.2).push(r));
                    assert(mem_step_reply((s_pre.0, s_pre.1, seq![reply0] + s_pre.2), mems[i])
                        == r);
                }
            },
            KindModel::MemorySearch { query } => {
                let recalled = recall_fold(em, search_hits(em, query));
                lemma_mem_take_step(recalled.0, next, max, mems.drop_first(), now, i - 1);
                let s_pre = mem_fold(recalled.0, next, max, mems.drop_first().take(i - 1), now);
                let reply0 = Message::fresh_model(
                    AgentId(0),
                    Some(m0.from),
                    KindModel::MemoryResults { results: recalled.1 },
                );
                let r = mem_step_reply(s_pre, mems[i]);
                if !(mems[i].kind is MemoryStore) && !(mems[i].kind is MemorySearch) {
                } else {
                    assert(seq![reply0] + s_pre.2.push(r) =~= (seq![reply0] + s_pre.2).push(r));
                    assert(mem_step_reply((s_pre.0, s_pre.1, seq![reply0] + s_pre.2), mems[i])
                        == r);
                }
            },
            _ => {
                lemma_mem_take_step(em, next, max, mems.drop_first(), now, i - 1);
            },
        }
    }
}

/// The reply one memory-protocol step produces, given the state before
/// it.
pub open spec fn mem_step_reply(
    pre: (Seq<EntryModel>, u64, Seq<MessageModel>),
    m: MessageModel,
) -> MessageModel {
    match m.kind {
        KindModel::MemoryStore { content, kind } => Message::fresh_model(
            AgentId(0),
            Some(m.from),
            KindModel::MemoryResults { results: seq![(pre.1, content)] },
        ),
        KindModel::MemorySearch { query } => Message::fresh_model(
            AgentId(0),
            Some(m.from),
            KindModel::MemoryResults { results: recall_fold(pre.0, search_hits(pre.0, query)).1 },
        ),
        _ => m,
    }
}


/// The heartbeat segment a tick prepends to its batch: one stamped
/// broadcast of the ambition when the counter fires and an ambition
/// lives.
pub open spec fn hb_msgs(amb: Option<Seq<char>>, fires: bool, base: u64, now: u64) -> Seq<
    MessageModel,
> {
    if fires {
        match amb {
            Some(a) => seq![
                MessageModel {
                    id: base,
                    timestamp: now,
                    from: AgentId(0),
                    to: None,
                    priority: crate::message::Priority::Normal,
                    kind: KindModel::Heartbeat(a),
                },
            ],
            None => Seq::empty(),
        }
    } else {
        Seq::empty()
    }
}

/// Splits a drained batch into feedback, memory-protocol and routable
/// messages, keeping each group's relative order.
fn split_batch(batch: &Vec<Message>) -> (r: (Vec<Message>, Vec<Message>, Vec<Message>))
    ensures
        r.0.deep_view() == batch.deep_view().filter(feedback_pred()),
        r.1.deep_view() == batch.deep_view().filter(memory_pred()),
        r.2.deep_view() == batch.deep_view().filter(routable_pred()),
{
    let ghost bm = batch.deep_view();
    let mut fbs: Vec<Message> = Vec::new();
    let mut mems: Vec<Message> = Vec::new();
    let mut rts: Vec<Message> = Vec::new();
    let mut i: usize = 0;
    proof {
        reveal(Seq::filter);
        assert(bm.take(0) =~= Seq::<MessageModel>::empty());
        assert(fbs.deep_view() =~= bm.take(0).filter(feedback_pred()));
        assert(mems.deep_view() =~= bm.take(0).filter(memory_pred()));
        assert(rts.deep_view() =~= bm.take(0).filter(routable_pred()));
    }
    while i < batch.len()
        invariant
            bm == batch.deep_view(),
            i <= bm.len(),
            fbs.deep_view() == bm.take(i as int).filter(feedback_pred()),
            mems.deep_view() == bm.take(i as int).filter(memory_pred()),
            rts.deep_view() == bm.take(i as int).filter(routable_pred()),
        decreases bm.len() - i,
    {
        let ghost m = bm[i as int];
        proof {
            assert(batch@[i as int].deep_view() == m);
        }
        let ghost pre_f = fbs.deep_view();
        let ghost pre_m = mems.deep_view();
        let ghost pre_r = rts.deep_view();
        match &batch[i].kind {
            MessageKind::Feedback(_) => {
                fbs.push(batch[i].duplicate());
            },
            MessageKind::MemoryStore { .. } => {
                mems.push(batch[i].duplicate());
            },
            MessageKind::MemorySearch { .. } => {
                mems.push(batch[i].duplicate());
            },
            _ => {
                rts.push(batch[i].duplicate());
            },
        }
        proof {
            reveal(Seq::filter);
            let one = seq![m];
            assert(bm.take(i + 1) =~= bm.take(i as int) + one);
            assert(one.drop_last() =~= Seq::<MessageModel>::empty());
            assert(Seq::<MessageModel>::empty().filter(feedback_pred())
                =~= Seq::<MessageModel>::empty());
            assert(Seq::<MessageModel>::empty().filter(memory_pred())
                =~= Seq::<MessageModel>::empty());
            assert(Seq::<MessageModel>::empty().filter(routable_pred())
                =~= Seq::<MessageModel>::empty());
            Seq::filter_distributes_over_add(bm.take(i as int), one, feedback_pred());
            Seq::filter_distributes_over_add(bm.take(i as int), one, memory_pred());
            Seq::filter_distributes_over_add(bm.take(i as int), one, routable_pred());
            if is_feedback(m) {
                assert(one.filter(feedback_pred()) =~= one);
                assert(one.filter(memory_pred()) =~= Seq::<MessageModel>::empty());
                assert(one.filter(routable_pred()) =~= Seq::<MessageModel>::empty());
                assert(fbs.deep_view() =~= pre_f + one);
            } else if is_memory_msg(m) {
                assert(one.filter(feedback_pred()) =~= Seq::<MessageModel>::empty());
                assert(one.filter(memory_pred()) =~= one);
                assert(one.filter(routable_pred()) =~= Seq::<MessageModel>::empty());
                assert(mems.deep_view() =~= pre_m + one);
            } else {
                assert(one.filter(feedback_pred()) =~= Seq::<MessageModel>::empty());
                assert(one.filter(memory_pred()) =~= Seq::<MessageModel>::empty());
                assert(one.filter(routable_pred()) =~= one);
                assert(rts.deep_view() =~= pre_r + one);
            }
        }
        i = i + 1;
    }
    proof {
        assert(bm.take(bm.len() as int) =~= bm);
    }
    (fbs, mems, rts)
}

/// The messages of a routable batch that reach one agent.
fn filter_reaches(v: &Vec<Message>, aid: AgentId) -> (r: Vec<Message>)
    ensures
        r.deep_view() == inbox_for(v.deep_view(), aid),
{
    let ghost vm = v.deep_view();
    let mut r: Vec<Message> = Vec::new();
    let mut i: usize = 0;
    proof {
        reveal(Seq::filter);
        assert(vm.take(0) =~= Seq::<MessageModel>::empty());
        assert(r.deep_view() =~= vm.take(0).filter(reaches_pred(aid)));
    }
    while i < v.len()
        invariant
            vm == v.deep_view(),
            i <= vm.len(),
            r.deep_view() == vm.take(i as int).filter(reaches_pred(aid)),
        decreases vm.len() - i,
    {
        let ghost m = vm[i as int];
        proof {
            assert(v@[i as int].deep_view() == m);
        }
        let ghost pre = r.deep_view();
        let take_it = match &v[i].to {
            Option::None => true,
            Option::Some(t) => *t == aid,
        };
        if take_it {
            r.push(v[i].duplicate());
        }
        proof {
            reveal(Seq::filter);
            let one = seq![m];
            assert(vm.take(i + 1) =~= vm.take(i as int) + one);
            assert(one.drop_last() =~= Seq::<MessageModel>::empty());
            assert(Seq::<MessageModel>::empty().filter(reaches_pred(aid))
                =~= Seq::<MessageModel>::empty());
            Seq::filter_distributes_over_add(vm.take(i as int), one, reaches_pred(aid));
            if reaches(m, aid) {
                assert(one.filter(reaches_pred(aid)) =~= one);
                assert(r.deep_view() =~= pre + one);
            } else {
                assert(one.filter(reaches_pred(aid)) =~= Seq::<MessageModel>::empty());
            }
        }
        i = i + 1;
    }
    proof {
        assert(vm.take(vm.len() as int) =~= vm);
    }
    r
}

/// The archived text of a piece of feedback.
fn feedback_text(f: &FeedbackType) -> (r: String)
    ensures
        r@ == fb_text(f@),
{
    match f {
        FeedbackType::Spark { content, context } => {
            let mut s = content.clone();
            s.append(" (context: ");
            s.append(context.as_str());
            s.append(")");
            s
        },
        FeedbackType::Connection { from, to, pattern } => {
            let mut s = from.clone();
            s.append(" -> ");
            s.append(to.as_str());
            s.append(": ");
            s.append(pattern.as_str());
            s
        },
        FeedbackType::Resource { description, location } => {
            let mut s = description.clone();
            s.append(" (at: ");
            s.append(location.as_str());
            s.append(")");
            s
        },
        FeedbackType::Feeling { tag, intensity } => {
            let mut s = tag.clone();
            s.append(" (intensity: ");
            let d = crate::text::u64_to_string(*intensity as u64);
            s.append(d.as_str());
            s.append(")");
            s
        },
    }
}

/// The memory kind a piece of feedback archives under.
fn feedback_kind(f: &FeedbackType) -> (r: MemoryKind)
    ensures
        r == fb_kind(f@),
{
    match f {
        FeedbackType::Spark { .. } => MemoryKind::Spark,
        FeedbackType::Connection { .. } => MemoryKind::Connection,
        FeedbackType::Resource { .. } => MemoryKind::Resource,
        FeedbackType::Feeling { .. } => MemoryKind::Feeling,
    }
}

/// The synthetic source label for an agent's memories.
fn source_label(aid: AgentId) -> (r: String)
    ensures
        r@ == agent_source(aid),
{
    let mut s = "agent-".to_owned();
    let d = crate::text::u64_to_string(aid.0);
    s.append(d.as_str());
    s
}

/// The preview of one recalled entry's content.
fn preview_of(s: &String) -> (r: String)
    ensures
        r@ == preview80(s@),
{
    let chars = crate::text::str_to_chars(s.as_str());
    if crate::keywords::utf8_len_exceeds(&chars, 80) {
        let n = chars.len();
        let cut = if n > 77 {
            77
        } else {
            n
        };
        let head = crate::codec::subvec(&chars, 0, cut);
        let mut p = crate::text::chars_to_string(&head);
        proof {
            if s@.len() > 77 {
                assert(p@ =~= s@.take(77));
            } else {
                assert(p@ =~= s@);
            }
        }
        p.append("...");
        p
    } else {
        s.clone()
    }
}


impl Supervisor {
    /// Morning: broadcasts the morning event and asks every agent for the
    /// day's goals, which resets the testers' daily counters. The goals
    /// themselves go to the log in the original surroundings; here the
    /// state effect is what matters.
    #[verifier::rlimit(100)]
    pub fn morning_ambition(&mut self)
        requires
            old(self).wf(),
            old(self).spec_id() == AgentId(0),
        ensures
            final(self).wf(),
            final(self).agents_model().len() == old(self).agents_model().len(),
            forall|j: int|
                0 <= j < final(self).agents_model().len() ==> #[trigger] final(self).agents_model()[j]
                    == ak_morning_model(old(self).agents_model()[j]),
            final(self).queue_model() == old(self).queue_model().push(
                MessageModel {
                    id: old(self).spec_next_message_id(),
                    timestamp: old(self).spec_tick(),
                    from: AgentId(0),
                    to: None,
                    priority: crate::message::Priority::Normal,
                    kind: KindModel::SystemEvent(crate::message::SystemEvent::MorningAmbition),
                },
            ),
            final(self).spec_tick() == old(self).spec_tick(),
            final(self).memory_entries() == old(self).memory_entries(),
    {
        self.broadcast(MessageKind::SystemEvent(crate::message::SystemEvent::MorningAmbition));
        let ghost before = self.agents_model();
        let ghost q_after = self.message_queue;
        let n = self.agents.len();
        let mut j: usize = 0;
        while j < n
            invariant
                n == before.len(),
                self.agents_model().len() == n,
                j <= n,
                forall|p: int|
                    0 <= p < j ==> #[trigger] self.agents_model()[p] == ak_morning_model(
                        before[p],
                    ),
                forall|p: int| j <= p < n ==> #[trigger] self.agents_model()[p] == before[p],
                self.message_queue == q_after,
                self.tick == old(self).tick,
                self.heartbeat_counter < 100,
                self.serendipity_counter < 500,
                self.rhythm_counter == self.tick,
                self.id == AgentId(0),
                self.memory.wf(),
                self.memory.spec_max_entries() == MEMORY_CAPACITY,
                self.memory.entries_model() == old(self).memory_entries(),
                self.constellation_of_insights@.len() <= 50,
                self.next_agent_id >= 1,
            decreases n - j,
        {
            let ghost pre = self.agents_model();
            let mut a = self.agents.remove(j);
            proof {
                assert(self.agents_model() =~= pre.remove(j as int));
            }
            let goals = a.daily_ambition();
            let ghost mid = self.agents_model();
            self.agents.insert(j, a);
            proof {
                assert(self.agents_model() =~= mid.insert(j as int, a@));
                assert forall|p: int|
                    0 <= p < j + 1 implies #[trigger] self.agents_model()[p] == ak_morning_model(
                    before[p],
                ) by {
                    if p < j {
                        assert(self.agents_model()[p] == pre[p]);
                    } else {
                        assert(self.agents_model()[p] == a@);
                        assert(pre[j as int] == before[j as int]);
                    }
                }
                assert forall|p: int| j + 1 <= p < n implies #[trigger] self.agents_model()[p]
                    == before[p] by {
                    assert(self.agents_model()[p] == pre[p]);
                }
            }
            let _ = goals;
            j = j + 1;
        }
        proof {
            assert forall|p: int|
                0 <= p < self.agents_model().len() implies ak_id(
                #[trigger] self.agents_model()[p],
            ).0 >= 1 by {
                assert(self.agents_model()[p] == ak_morning_model(before[p]));
                assert(ak_id(before[p]).0 >= 1);
                lemma_morning_keeps_id(before[p]);
            }
            assert forall|p: int|
                0 <= p < self.queue_model().len() implies (#[trigger] self.queue_model()[
            p]).timestamp <= self.spec_tick() by {
                assert(self.message_queue == q_after);
            }
        }
    }

    /// Midday: broadcasts the checkpoint event; the agents' progress
    /// reports go to the log in the original surroundings.
    pub fn midday_checkpoint(&mut self)
        requires
            old(self).wf(),
            old(self).spec_id() == AgentId(0),
        ensures
            final(self).wf(),
            final(self).agents_model() == old(self).agents_model(),
            final(self).queue_model() == old(self).queue_model().push(
                MessageModel {
                    id: old(self).spec_next_message_id(),
                    timestamp: old(self).spec_tick(),
                    from: AgentId(0),
                    to: None,
                    priority: crate::message::Priority::Normal,
                    kind: KindModel::SystemEvent(crate::message::SystemEvent::MiddayCheckpoint),
                },
            ),
            final(self).memory_entries() == old(self).memory_entries(),
    {
        self.broadcast(MessageKind::SystemEvent(crate::message::SystemEvent::MiddayCheckpoint));
    }

    /// Evening: broadcasts the end-of-day event; the agents' reports go
    /// to the log in the original surroundings.
    pub fn eod_report(&mut self)
        requires
            old(self).wf(),
            old(self).spec_id() == AgentId(0),
        ensures
            final(self).wf(),
            final(self).agents_model() == old(self).agents_model(),
            final(self).queue_model() == old(self).queue_model().push(
                MessageModel {
                    id: old(self).spec_next_message_id(),
                    timestamp: old(self).spec_tick(),
                    from: AgentId(0),
                    to: None,
                    priority: crate::message::Priority::Normal,
                    kind: KindModel::SystemEvent(crate::message::SystemEvent::EndOfDay),
                },
            ),
            final(self).memory_entries() == old(self).memory_entries(),
    {
        self.broadcast(MessageKind::SystemEvent(crate::message::SystemEvent::EndOfDay));
    }

    /// One tick of the loop. The counter advances; the heartbeat fires
    /// when due; the whole queue drains into a batch; feedback is
    /// archived into memory and the constellation; memory requests are
    /// answered with stamped replies; every remaining message is routed
    /// to the agents it reaches, each agent runs once on its slice, and
    /// everything the agents send is stamped and queued for the next
    /// tick. The ghost fields record the batch, each agent's inbox and
    /// the unstamped queue contents for the laws stated below.
    pub fn tick(&mut self)
        requires
            old(self).wf(),
            old(self).spec_tick() < u64::MAX,
            old(self).memory_next_id() + 2 * old(self).queue_model().len() + 4 < u64::MAX,
        ensures
            final(self).wf(),
            final(self).spec_tick() == old(self).spec_tick() + 1,
            final(self).spec_next_agent_id() == old(self).spec_next_agent_id(),
            final(self).spec_ambition() == old(self).spec_ambition(),
            // the heartbeat
            final(self).spec_heartbeat_counter() == if old(self).spec_heartbeat_counter() + 1
                >= 100 {
                0
            } else {
                (old(self).spec_heartbeat_counter() + 1) as u64
            },
            final(self).spec_serendipity_counter() == if old(self).spec_serendipity_counter() + 1
                >= 500 {
                0
            } else {
                (old(self).spec_serendipity_counter() + 1) as u64
            },
            // the batch this tick drained
            final(self).spec_last_batch() == old(self).queue_model() + hb_msgs(
                old(self).spec_ambition(),
                old(self).spec_heartbeat_counter() + 1 >= 100,
                old(self).spec_next_message_id(),
                (old(self).spec_tick() + 1) as u64,
            ),
            // the constellation keeps the newest fifty insights
            final(self).constellation_model() == tail50(
                old(self).constellation_model() + fb_payloads(
                    final(self).spec_last_batch().filter(feedback_pred()),
                ),
            ),
            // memory takes the archived feedback, then the requests
            ({
                let fb1 = archive_fold(
                    old(self).memory_entries(),
                    old(self).memory_next_id(),
                    MEMORY_CAPACITY as nat,
                    final(self).spec_last_batch().filter(feedback_pred()),
                    (old(self).spec_tick() + 1) as u64,
                );
                let mm = mem_fold(
                    fb1.0,
                    fb1.1,
                    MEMORY_CAPACITY as nat,
                    final(self).spec_last_batch().filter(memory_pred()),
                    (old(self).spec_tick() + 1) as u64,
                );
                let outs = outs_fold(
                    old(self).agents_model(),
                    final(self).spec_last_batch().filter(routable_pred()),
                    (old(self).spec_tick() + 1) as u64,
                );
                let scan = sere_fold(mm.0, sere_themes(final(self).spec_last_scan_index()));
                &&& final(self).memory_next_id() == mm.1
                &&& (old(self).spec_serendipity_counter() + 1 >= 500 ==> {
                    // the scan ranked the actual index of the memory it
                    // searched
                    &&& MemoryStore::spec_index_sound(mm.0, final(self).spec_last_scan_index())
                    &&& MemoryStore::spec_index_complete(mm.0, final(self).spec_last_scan_index())
                    &&& MemoryStore::spec_index_shape(final(self).spec_last_scan_index())
                    &&& final(self).memory_entries() == scan.0
                    &&& final(self).spec_last_queued() == mm.2 + outs + scan.1
                })
                &&& (old(self).spec_serendipity_counter() + 1 < 500 ==> {
                    &&& final(self).memory_entries() == mm.0
                    &&& final(self).spec_last_queued() == mm.2 + outs
                    &&& final(self).spec_last_scan_index() == Seq::<PostingModel>::empty()
                })
            }),
            // each agent saw exactly its slice of the routable batch
            final(self).spec_last_inboxes().len() == old(self).agents_model().len(),
            forall|j: int|
                0 <= j < old(self).agents_model().len() ==> #[trigger] final(self).spec_last_inboxes()[j] == inbox_for(
                    final(self).spec_last_batch().filter(routable_pred()),
                    ak_id(old(self).agents_model()[j]),
                ),
            // and moved to its next state
            final(self).agents_model().len() == old(self).agents_model().len(),
            forall|j: int|
                0 <= j < old(self).agents_model().len() ==> #[trigger] final(self).agents_model()[j] == ak_tick_state(
                    old(self).agents_model()[j],
                    inbox_for(
                        final(self).spec_last_batch().filter(routable_pred()),
                        ak_id(old(self).agents_model()[j]),
                    ),
                ),
            // the new queue is the stamped replies and agent outboxes
            final(self).queue_model() == stamped(
                final(self).spec_last_queued(),
                if old(self).spec_heartbeat_counter() + 1 >= 100 && old(self).spec_ambition() is Some {
                    sat_inc(old(self).spec_next_message_id())
                } else {
                    old(self).spec_next_message_id()
                },
                (old(self).spec_tick() + 1) as u64,
            ),
    {
        let ghost old_q = self.queue_model();
        let ghost amb0 = self.spec_ambition();
        self.tick = self.tick + 1;
        self.rhythm_counter = self.rhythm_counter + 1;
        let ghost now = self.tick;
        // Heartbeat.
        self.heartbeat_counter = self.heartbeat_counter + 1;
        let ghost fires = self.heartbeat_counter >= 100;
        if self.heartbeat_counter >= 100 {
            self.pulse();
            self.heartbeat_counter = 0;
        }
        let ghost base2 = self.next_message_id;
        let ghost hbc1 = self.heartbeat_counter;
        proof {
            assert(self.queue_model() =~= old_q + hb_msgs(
                amb0,
                fires,
                old(self).spec_next_message_id(),
                now,
            ));
        }
        // Drain the whole queue into a batch.
        let mut batch: Vec<Message> = Vec::new();
        core::mem::swap(&mut batch, &mut self.message_queue);
        let ghost bm = batch.deep_view();
        proof {
            assert(self.queue_model().len() == 0);
        }
        self.last_batch = Ghost(bm);
        // Partition.
        let (fbs, mems, rts) = split_batch(&batch);
        let ghost fbm = bm.filter(feedback_pred());
        let ghost memm = bm.filter(memory_pred());
        let ghost rtm = bm.filter(routable_pred());
        // Archive feedback into memory and the constellation.
        let ghost em0 = self.memory.entries_model();
        let ghost next0 = self.memory.spec_next_id();
        let ghost c0 = self.constellation_model();
        let mut i: usize = 0;
        proof {
            assert(fbm.take(0) =~= Seq::<MessageModel>::empty());
            assert(archive_fold(em0, next0, MEMORY_CAPACITY as nat, fbm.take(0), now) == (
                em0,
                next0,
            ));
            assert(fb_payloads(fbm.take(0)) =~= Seq::<FeedbackModel>::empty());
            assert(c0 + Seq::<FeedbackModel>::empty() =~= c0);
            assert(tail50(c0) == c0) by {
                assert(c0 == old(self).constellation_model());
            }
            bm.lemma_filter_len(feedback_pred());
        }
        while i < fbs.len()
            invariant
                fbm == fbs.deep_view(),
                fbm == bm.filter(feedback_pred()),
                i <= fbm.len(),
                fbm.len() <= bm.len(),
                self.message_queue@.len() == 0,
                self.next_message_id == base2,
                self.tick == now,
                self.rhythm_counter == now,
                self.heartbeat_counter == hbc1,
                self.serendipity_counter == old(self).serendipity_counter,
                self.living_ambition == old(self).living_ambition,
                self.next_agent_id == old(self).next_agent_id,
                self.agents == old(self).agents,
                self.id == old(self).id,
                self.last_batch@ == bm,
                self.memory.wf(),
                self.memory.spec_max_entries() == MEMORY_CAPACITY,
                next0 + 2 * bm.len() + 2 < u64::MAX,
                bm.len() <= old(self).queue_model().len() + 1,
                next0 == old(self).memory_next_id(),
                self.memory.entries_model() == archive_fold(
                    em0,
                    next0,
                    MEMORY_CAPACITY as nat,
                    fbm.take(i as int),
                    now,
                ).0,
                self.memory.spec_next_id() == archive_fold(
                    em0,
                    next0,
                    MEMORY_CAPACITY as nat,
                    fbm.take(i as int),
                    now,
                ).1,
                self.memory.spec_next_id() == next0 + i,
                self.constellation_model() == tail50(c0 + fb_payloads(fbm.take(i as int))),
                c0.len() <= 50,
            decreases fbm.len() - i,
        {
            let ghost m = fbm[i as int];
            proof {
                assert(fbs@[i as int].deep_view() == m);
            }
            let payload: FeedbackType = match &fbs[i].kind {
                MessageKind::Feedback(f) => f.duplicate(),
                _ => {
                    proof {
                        bm.lemma_filter_pred(feedback_pred(), i as int);
                        assert(is_feedback(m));
                    }
                    FeedbackType::Spark { content: String::new(), context: String::new() }
                },
            };
            proof {
                bm.lemma_filter_pred(feedback_pred(), i as int);
                assert(is_feedback(m));
                assert(payload@ == m.kind->Feedback_0);
            }
            let text = feedback_text(&payload);
            let kind = feedback_kind(&payload);
            let src = source_label(fbs[i].from);
            let tick_now = self.tick;
            self.memory.store_with_timestamp(text.as_str(), kind, src.as_str(), tick_now);
            self.constellation_of_insights.push(payload);
            if self.constellation_of_insights.len() > MAX_INSIGHTS {
                self.constellation_of_insights.remove(0);
            }
            proof {
                lemma_archive_take_step(em0, next0, MEMORY_CAPACITY as nat, fbm, now, i as int);
                let prev_c = tail50(c0 + fb_payloads(fbm.take(i as int)));
                assert(fb_payloads(fbm.take(i + 1)) =~= fb_payloads(fbm.take(i as int)).push(
                    m.kind->Feedback_0,
                ));
                assert(self.constellation_model() =~= tail50(c0 + fb_payloads(fbm.take(i + 1))))
                    by {
                    let full = c0 + fb_payloads(fbm.take(i as int));
                    let grown = c0 + fb_payloads(fbm.take(i + 1));
                    assert(grown =~= full.push(m.kind->Feedback_0));
                    if prev_c.len() + 1 > 50 {
                        assert(self.constellation_model() =~= prev_c.push(
                            m.kind->Feedback_0,
                        ).remove(0));
                        assert(prev_c.push(m.kind->Feedback_0).remove(0) =~= tail50(grown));
                    } else {
                        assert(self.constellation_model() =~= prev_c.push(m.kind->Feedback_0));
                        assert(prev_c.push(m.kind->Feedback_0) =~= tail50(grown));
                    }
                }
            }
            i = i + 1;
        }
        proof {
            assert(fbm.take(fbm.len() as int) =~= fbm);
        }
        // Answer memory requests, collecting unstamped replies.
        let ghost c_frozen = self.constellation_of_insights;
        let ghost em1 = self.memory.entries_model();
        let ghost next1 = self.memory.spec_next_id();
        let mut replies: Vec<Message> = Vec::new();
        let mut k: usize = 0;
        proof {
            assert(memm.take(0) =~= Seq::<MessageModel>::empty());
            assert(mem_fold(em1, next1, MEMORY_CAPACITY as nat, memm.take(0), now) == (
                em1,
                next1,
                Seq::<MessageModel>::empty(),
            ));
            assert(replies.deep_view() =~= Seq::<MessageModel>::empty());
            bm.lemma_filter_len(memory_pred());
        }
        while k < mems.len()
            invariant
                memm == mems.deep_view(),
                memm == bm.filter(memory_pred()),
                k <= memm.len(),
                memm.len() <= bm.len(),
                self.message_queue@.len() == 0,
                self.next_message_id == base2,
                self.tick == now,
                self.rhythm_counter == now,
                self.heartbeat_counter == hbc1,
                self.serendipity_counter == old(self).serendipity_counter,
                self.living_ambition == old(self).living_ambition,
                self.next_agent_id == old(self).next_agent_id,
                self.agents == old(self).agents,
                self.id == old(self).id,
                self.last_batch@ == bm,
                self.constellation_of_insights == c_frozen,
                self.memory.wf(),
                self.memory.spec_max_entries() == MEMORY_CAPACITY,
                next1 + bm.len() + 1 < u64::MAX,
                bm.len() <= old(self).queue_model().len() + 1,
                self.memory.entries_model() == mem_fold(
                    em1,
                    next1,
                    MEMORY_CAPACITY as nat,
                    memm.take(k as int),
                    now,
                ).0,
                self.memory.spec_next_id() == mem_fold(
                    em1,
                    next1,
                    MEMORY_CAPACITY as nat,
                    memm.take(k as int),
                    now,
                ).1,
                replies.deep_view() == mem_fold(
                    em1,
                    next1,
                    MEMORY_CAPACITY as nat,
                    memm.take(k as int),
                    now,
                ).2,
                self.memory.spec_next_id() <= next1 + k,
            decreases memm.len() - k,
        {
            let ghost m = memm[k as int];
            proof {
                assert(mems@[k as int].deep_view() == m);
                lemma_mem_take_step(em1, next1, MEMORY_CAPACITY as nat, memm, now, k as int);
            }
            let ghost pre = mem_fold(em1, next1, MEMORY_CAPACITY as nat, memm.take(k as int), now);
            let from = mems[k].from;
            match &mems[k].kind {
                MessageKind::MemoryStore { content, kind } => {
                    let text = content.clone();
                    let mk = match MemoryKind::from_str(kind.as_str()) {
                        Some(x) => x,
                        None => MemoryKind::Observation,
                    };
                    let src = source_label(from);
                    let tick_now = self.tick;
                    let id = self.memory.store_with_timestamp(
                        text.as_str(),
                        mk,
                        src.as_str(),
                        tick_now,
                    );
                    let mut results: Vec<(u64, String)> = Vec::new();
                    let ghost text_m = text@;
                    results.push((id, text));
                    proof {
                        assert(results.deep_view()[0] == (id, text_m));
                        assert(results.deep_view() =~= seq![(pre.1, m.kind->MemoryStore_content)]);
                    }
                    let reply = Message::new(
                        AgentId(0),
                        Some(from),
                        MessageKind::MemoryResults { results },
                    );
                    let ghost pre_r = replies.deep_view();
                    replies.push(reply);
                    proof {
                        assert(reply@ == mem_step_reply(pre, m));
                        assert(replies.deep_view() =~= pre_r.push(mem_step_reply(pre, m)));
                    }
                },
                MessageKind::MemorySearch { query } => {
                    let q = query.clone();
                    let hits = self.memory.search(q.as_str());
                    let ghost hits_t = search_hits(pre.0, m.kind->MemorySearch_query);
                    let bound: usize = if hits.len() > 10 {
                        10
                    } else {
                        hits.len()
                    };
                    proof {
                        assert(hits@.take(bound as int) =~= hits_t);
                    }
                    let ghost em_s = self.memory.entries_model();
                    proof {
                        assert(em_s == pre.0);
                    }
                    let ghost target = recall_fold(em_s, hits_t);
                    let mut results: Vec<(u64, String)> = Vec::new();
                    let mut p: usize = 0;
                    proof {
                        assert(hits_t.skip(0) =~= hits_t);
                        assert(results.deep_view() =~= Seq::<(u64, Seq<char>)>::empty());
                        assert(Seq::<(u64, Seq<char>)>::empty() + recall_fold(
                            em_s,
                            hits_t,
                        ).1 =~= recall_fold(em_s, hits_t).1);
                    }
                    while p < bound
                        invariant
                            self.message_queue@.len() == 0,
                            self.next_message_id == base2,
                            self.tick == now,
                            self.rhythm_counter == now,
                            self.heartbeat_counter == hbc1,
                            self.serendipity_counter == old(self).serendipity_counter,
                            self.living_ambition == old(self).living_ambition,
                            self.next_agent_id == old(self).next_agent_id,
                            self.agents == old(self).agents,
                            self.id == old(self).id,
                            self.last_batch@ == bm,
                            self.constellation_of_insights == c_frozen,
                            self.memory.wf(),
                            self.memory.spec_max_entries() == MEMORY_CAPACITY,
                            self.memory.spec_next_id() == mem_fold(
                                em1,
                                next1,
                                MEMORY_CAPACITY as nat,
                                memm.take(k as int),
                                now,
                            ).1,
                            bound as int == hits_t.len(),
                            p <= bound,
                            hits@.take(bound as int) == hits_t,
                            hits@.len() >= bound,
                            target == recall_fold(em_s, hits_t),
                            target.0 == recall_fold(
                                self.memory.entries_model(),
                                hits_t.skip(p as int),
                            ).0,
                            target.1 == results.deep_view() + recall_fold(
                                self.memory.entries_model(),
                                hits_t.skip(p as int),
                            ).1,
                        decreases bound - p,
                    {
                        let ghost cur = self.memory.entries_model();
                        let ghost rest = hits_t.skip(p as int);
                        proof {
                            assert(rest[0] == hits_t[p as int]);
                            assert(hits_t[p as int] == hits@[p as int]);
                            assert(rest.drop_first() =~= hits_t.skip(p + 1));
                        }
                        let hid = hits[p].0;
                        let entry_text: Option<String> = match self.memory.get(hid) {
                            Some(e) => Some(e.content.clone()),
                            None => None,
                        };
                        match entry_text {
                            Some(content) => {
                                let prev = preview_of(&content);
                                let ghost pre_res = results.deep_view();
                                results.push((hid, prev));
                                proof {
                                    let ix = MemoryStore::idx_of(cur, hid);
                                    assert(results.deep_view() =~= pre_res.push(
                                        (hid, preview80(cur[ix].content)),
                                    ));
                                    assert(pre_res + (seq![(hid, preview80(cur[ix].content))]
                                        + recall_fold(
                                        self.memory.entries_model(),
                                        hits_t.skip(p + 1),
                                    ).1) =~= results.deep_view() + recall_fold(
                                        self.memory.entries_model(),
                                        hits_t.skip(p + 1),
                                    ).1);
                                }
                            },
                            None => {
                            },
                        }
                        p = p + 1;
                    }
                    proof {
                        assert(hits_t.skip(bound as int).len() == 0);
                        assert(recall_fold(self.memory.entries_model(), hits_t.skip(bound as int))
                            == (self.memory.entries_model(), Seq::<(u64, Seq<char>)>::empty()));
                        assert(results.deep_view() + Seq::<(u64, Seq<char>)>::empty()
                            =~= results.deep_view());
                        assert(results.deep_view() == target.1);
                        assert(self.memory.entries_model() == target.0);
                    }
                    let reply = Message::new(
                        AgentId(0),
                        Some(from),
                        MessageKind::MemoryResults { results },
                    );
                    let ghost pre_r = replies.deep_view();
                    replies.push(reply);
                    proof {
                        assert(reply@ == mem_step_reply(pre, m));
                        assert(replies.deep_view() =~= pre_r.push(mem_step_reply(pre, m)));
                    }
                },
                _ => {
                    proof {
                        bm.lemma_filter_pred(memory_pred(), k as int);
                        assert(is_memory_msg(m));
                        assert(false);
                    }
                },
            }
            k = k + 1;
        }
        proof {
            assert(memm.take(memm.len() as int) =~= memm);
        }
        // Queue the replies, stamped.
        let ghost mm = mem_fold(em1, next1, MEMORY_CAPACITY as nat, memm, now);
        let ghost snap = *self;
        let ghost mut uq: Seq<MessageModel> = Seq::empty();
        proof {
            assert(self.queue_model() =~= stamped(uq, base2, now));
            assert(sat_off(base2, 0) == base2);
        }
        let n_replies = replies.len();
        let mut r: usize = 0;
        while r < n_replies
            invariant
                n_replies == replies.deep_view().len(),
                replies.deep_view() == mm.2,
                r <= n_replies,
                uq == mm.2.take(r as int),
                self.queue_model() == stamped(uq, base2, now),
                self.next_message_id == sat_off(base2, uq.len() as int),
                self.tick == now,
                self.rhythm_counter == now,
                self.heartbeat_counter == hbc1,
                self.serendipity_counter == old(self).serendipity_counter,
                self.living_ambition == old(self).living_ambition,
                self.next_agent_id == old(self).next_agent_id,
                self.agents == old(self).agents,
                self.id == old(self).id,
                self.last_batch@ == bm,
                self.constellation_of_insights == c_frozen,
                self.memory == snap.memory,
            decreases n_replies - r,
        {
            let ghost pre_u = uq;
            proof {
                assert(replies@[r as int].deep_view() == mm.2[r as int]);
            }
            let msg = replies[r].duplicate();
            self.enqueue(msg);
            proof {
                uq = pre_u.push(mm.2[r as int]);
                assert(uq =~= mm.2.take(r + 1));
                assert(self.queue_model() =~= stamped(uq, base2, now));
            }
            r = r + 1;
        }
        proof {
            assert(mm.2.take(mm.2.len() as int) =~= mm.2);
        }
        // Route and run the agents.
        let ghost ag0 = self.agents_model();
        let ghost mut ibs: Seq<Seq<MessageModel>> = Seq::empty();
        let n_agents = self.agents.len();
        let mut j: usize = 0;
        proof {
            assert(ag0.take(0) =~= Seq::<AgentKindModel>::empty());
            assert(outs_fold(ag0.take(0), rtm, now).len() == 0);
            assert(uq =~= mm.2 + outs_fold(ag0.take(0), rtm, now));
        }
        while j < n_agents
            invariant
                n_agents == ag0.len(),
                self.agents_model().len() == n_agents,
                j <= n_agents,
                rtm == rts.deep_view(),
                self.tick == now,
                self.rhythm_counter == now,
                self.heartbeat_counter == hbc1,
                self.serendipity_counter == old(self).serendipity_counter,
                self.living_ambition == old(self).living_ambition,
                self.next_agent_id == old(self).next_agent_id,
                self.id == old(self).id,
                self.last_batch@ == bm,
                self.constellation_of_insights == c_frozen,
                self.memory == snap.memory,
                ibs.len() == j,
                forall|p: int| 0 <= p < j ==> #[trigger] ibs[p] == inbox_for(rtm, ak_id(ag0[p])),
                forall|p: int|
                    0 <= p < j ==> #[trigger] self.agents_model()[p] == ak_tick_state(
                        ag0[p],
                        inbox_for(rtm, ak_id(ag0[p])),
                    ),
                forall|p: int| j <= p < n_agents ==> #[trigger] self.agents_model()[p] == ag0[p],
                uq == mm.2 + outs_fold(ag0.take(j as int), rtm, now),
                self.queue_model() == stamped(uq, base2, now),
                self.next_message_id == sat_off(base2, uq.len() as int),
            decreases n_agents - j,
        {
            let ghost pre_ag = self.agents_model();
            let mut a = self.agents.remove(j);
            proof {
                assert(self.agents_model() =~= pre_ag.remove(j as int));
                assert(self.agents_model().len() == n_agents - 1);
                assert(pre_ag[j as int] == ag0[j as int]);
                assert(a@ == pre_ag[j as int]);
            }
            let ghost ag_rm = self.agents;
            let inbox = filter_reaches(&rts, a.id());
            proof {
                ibs = ibs.push(inbox.deep_view());
            }
            let mut ctx = AgentContext { inbox, outbox: Vec::new(), tick: self.tick };
            proof {
                assert(ctx.outbox.deep_view() =~= Seq::<MessageModel>::empty());
            }
            a.tick(&mut ctx);
            let ghost outs = ak_tick_out(ag0[j as int], inbox_for(rtm, ak_id(ag0[j as int])), now);
            proof {
                assert(ctx.outbox.deep_view() =~= outs);
            }
            // stamp and queue the outbox
            let n_out = ctx.outbox.len();
            let mut o: usize = 0;
            while o < n_out
                invariant
                    n_out == outs.len(),
                    ctx.outbox.deep_view() == outs,
                    o <= n_out,
                    uq == mm.2 + outs_fold(ag0.take(j as int), rtm, now) + outs.take(o as int),
                    self.queue_model() == stamped(uq, base2, now),
                    self.next_message_id == sat_off(base2, uq.len() as int),
                    self.tick == now,
                    self.rhythm_counter == now,
                    self.heartbeat_counter == hbc1,
                    self.serendipity_counter == old(self).serendipity_counter,
                    self.living_ambition == old(self).living_ambition,
                    self.next_agent_id == old(self).next_agent_id,
                    self.id == old(self).id,
                    self.last_batch@ == bm,
                    self.constellation_of_insights == c_frozen,
                    self.memory == snap.memory,
                    self.agents == ag_rm,
                    self.agents@.len() == n_agents - 1,
                decreases n_out - o,
            {
                let ghost pre_u = uq;
                proof {
                    assert(ctx.outbox@[o as int].deep_view() == outs[o as int]);
                }
                let msg = ctx.outbox[o].duplicate();
                self.enqueue(msg);
                proof {
                    uq = pre_u.push(outs[o as int]);
                    assert(uq =~= mm.2 + outs_fold(ag0.take(j as int), rtm, now) + outs.take(o + 1));
                    assert(self.queue_model() =~= stamped(uq, base2, now));
                }
                o = o + 1;
            }
            proof {
                assert(outs.take(outs.len() as int) =~= outs);
            }
            let ghost mid_ag = self.agents_model();
            self.agents.insert(j, a);
            proof {
                assert(self.agents_model() =~= mid_ag.insert(j as int, a@));
                lemma_outs_step(ag0, rtm, now, j as int);
                assert(uq =~= mm.2 + outs_fold(ag0.take(j + 1), rtm, now));
                assert forall|p: int|
                    0 <= p < j + 1 implies #[trigger] self.agents_model()[p] == ak_tick_state(
                    ag0[p],
                    inbox_for(rtm, ak_id(ag0[p])),
                ) by {
                    if p < j {
                        assert(self.agents_model()[p] == pre_ag.remove(j as int)[p]);
                        assert(pre_ag.remove(j as int)[p] == pre_ag[p]);
                    } else {
                        assert(self.agents_model()[p] == a@);
                    }
                }
                assert forall|p: int| j + 1 <= p < n_agents implies #[trigger] self.agents_model()[
                p] == ag0[p] by {
                    assert(self.agents_model()[p] == pre_ag.remove(j as int)[p - 1]);
                    assert(pre_ag.remove(j as int)[p - 1] == pre_ag[p]);
                }
            }
            j = j + 1;
        }
        proof {
            assert(ag0.take(ag0.len() as int) =~= ag0);
        }
        self.last_inboxes = Ghost(ibs);
        let ghost agents_done = self.agents;
        // Serendipity cycle: when due, rank the index's keywords by
        // document frequency, and for each of the top five shared by at
        // least two entries, search it, recall the first two hits and
        // broadcast a connection linking their previews.
        self.serendipity_counter = self.serendipity_counter + 1;
        if self.serendipity_counter >= 500 {
            self.serendipity_counter = 0;
            let ghost em_scan = self.memory.entries_model();
            let ghost mem_next_scan = self.memory.spec_next_id();
            let ghost lsi = self.memory.index_model();
            self.last_scan_index = Ghost(self.memory.index_model());
            let ranked = self.memory.keyword_frequencies();
            let tcount: usize = if ranked.len() > 5 {
                5
            } else {
                ranked.len()
            };
            let ghost themes = sere_themes(self.last_scan_index@);
            let ghost target = sere_fold(em_scan, themes);
            let ghost uq0 = uq;
            let ghost mut emitted: Seq<MessageModel> = Seq::empty();
            proof {
                assert(themes.len() == tcount);
                assert forall|q: int| 0 <= q < tcount implies (#[trigger] ranked@[q]).0@
                    == themes[q].0 && ranked@[q].1 as nat == themes[q].1 by {
                    assert(themes[q] == MemoryStore::sorted_kw_counts(self.last_scan_index@)[q]);
                }
                assert(themes.skip(0) =~= themes);
                assert(emitted + sere_fold(self.memory.entries_model(), themes).1 =~= sere_fold(
                    self.memory.entries_model(),
                    themes,
                ).1);
                assert(uq =~= uq0 + emitted);
            }
            let mut t: usize = 0;
            while t < tcount
                invariant
                    tcount == themes.len(),
                    t <= tcount,
                    ranked@.len() >= tcount,
                    forall|q: int|
                        0 <= q < tcount ==> (#[trigger] ranked@[q]).0@ == themes[q].0 && ranked@[
                        q].1 as nat == themes[q].1,
                    self.memory.wf(),
                    self.memory.spec_max_entries() == MEMORY_CAPACITY,
                    self.memory.spec_next_id() == mem_next_scan,
                    target.0 == sere_fold(
                        self.memory.entries_model(),
                        themes.skip(t as int),
                    ).0,
                    target.1 == emitted + sere_fold(
                        self.memory.entries_model(),
                        themes.skip(t as int),
                    ).1,
                    uq == uq0 + emitted,
                    self.queue_model() == stamped(uq, base2, now),
                    self.next_message_id == sat_off(base2, uq.len() as int),
                    self.tick == now,
                    self.rhythm_counter == now,
                    self.heartbeat_counter == hbc1,
                    self.serendipity_counter == 0,
                    self.living_ambition == old(self).living_ambition,
                    self.next_agent_id == old(self).next_agent_id,
                    self.id == old(self).id,
                    self.last_batch@ == bm,
                    self.last_inboxes@ == ibs,
                    self.last_scan_index@ == lsi,
                    self.constellation_of_insights == c_frozen,
                    self.agents == agents_done,
                decreases tcount - t,
            {
                let ghost cur_em = self.memory.entries_model();
                let ghost rest = themes.skip(t as int);
                proof {
                    assert(rest[0] == themes[t as int]);
                    assert(rest.drop_first() =~= themes.skip(t as int + 1));
                }
                let cnt = ranked[t].1;
                if cnt >= 2 {
                    let hits = self.memory.search(ranked[t].0.as_str());
                    proof {
                        assert(hits@ == MemoryStore::sorted_hits(
                            cur_em,
                            crate::keywords::extract_kws(themes[t as int].0),
                        ));
                    }
                    if hits.len() >= 2 {
                        let h0 = hits[0].0;
                        let h1 = hits[1].0;
                        let p0: Option<String> = match self.memory.get(h0) {
                            Some(e) => Some(preview_60(&e.content)),
                            None => None,
                        };
                        let ghost em1 = self.memory.entries_model();
                        proof {
                            assert(em1 == bump1(cur_em, h0));
                        }
                        let p1: Option<String> = match self.memory.get(h1) {
                            Some(e) => Some(preview_60(&e.content)),
                            None => None,
                        };
                        let ghost em2 = self.memory.entries_model();
                        proof {
                            assert(em2 == bump1(em1, h1));
                        }
                        match (p0, p1) {
                            (Some(fp), Some(tp)) => {
                                let mut pattern = "Serendipity: theme '".to_owned();
                                pattern.append(ranked[t].0.as_str());
                                pattern.append("' links these insights");
                                let msg = Message::new(
                                    AgentId(0),
                                    None,
                                    MessageKind::Feedback(
                                        FeedbackType::Connection { from: fp, to: tp, pattern },
                                    ),
                                );
                                proof {
                                    assert(sere_step(cur_em, themes[t as int].0) == (
                                        em2,
                                        seq![msg@],
                                    ));
                                }
                                let ghost pre_u = uq;
                                let ghost pre_e = emitted;
                                self.enqueue(msg);
                                proof {
                                    uq = pre_u.push(msg@);
                                    emitted = pre_e.push(msg@);
                                    assert(uq =~= uq0 + emitted);
                                    assert(self.queue_model() =~= stamped(uq, base2, now));
                                    lemma_sere_unfold_step(cur_em, themes, t as int, em2, seq![msg@]);
                                    assert(pre_e + (seq![msg@] + sere_fold(
                                        em2,
                                        themes.skip(t as int + 1),
                                    ).1) =~= emitted + sere_fold(em2, themes.skip(t as int + 1)).1);
                                }
                            },
                            _ => {
                                proof {
                                    assert(sere_step(cur_em, themes[t as int].0) == (
                                        em2,
                                        Seq::<MessageModel>::empty(),
                                    ));
                                    lemma_sere_unfold_step(
                                        cur_em,
                                        themes,
                                        t as int,
                                        em2,
                                        Seq::empty(),
                                    );
                                    assert(emitted + (Seq::<MessageModel>::empty() + sere_fold(
                                        em2,
                                        themes.skip(t as int + 1),
                                    ).1) =~= emitted + sere_fold(
                                        em2,
                                        themes.skip(t as int + 1),
                                    ).1);
                                }
                            },
                        }
                    } else {
                        proof {
                            assert(sere_step(cur_em, themes[t as int].0) == (
                                cur_em,
                                Seq::<MessageModel>::empty(),
                            ));
                            lemma_sere_unfold_step(cur_em, themes, t as int, cur_em, Seq::empty());
                            assert(emitted + (Seq::<MessageModel>::empty() + sere_fold(
                                cur_em,
                                themes.skip(t as int + 1),
                            ).1) =~= emitted + sere_fold(cur_em, themes.skip(t as int + 1)).1);
                        }
                    }
                } else {
                    proof {
                        assert(themes[t as int].1 < 2);
                        assert(sere_fold(cur_em, rest) == sere_fold(
                            cur_em,
                            themes.skip(t as int + 1),
                        ));
                    }
                }
                t = t + 1;
            }
            proof {
                assert(themes.skip(tcount as int).len() == 0);
                assert(sere_fold(self.memory.entries_model(), themes.skip(tcount as int)) == (
                    self.memory.entries_model(),
                    Seq::<MessageModel>::empty(),
                ));
                assert(target.0 == self.memory.entries_model());
                assert(emitted + Seq::<MessageModel>::empty() =~= emitted);
                assert(target.1 == emitted);
                assert(uq =~= uq0 + target.1);
            }
        } else {
            self.last_scan_index = Ghost(Seq::empty());
            proof {
                assert(uq =~= uq + Seq::<MessageModel>::empty());
            }
        }
        self.last_queued = Ghost(uq);
        proof {
            assert(self.wf()) by {
                assert forall|p: int|
                    0 <= p < self.queue_model().len() implies (#[trigger] self.queue_model()[
                p]).timestamp <= self.spec_tick() by {
                    assert(self.queue_model()[p] == stamped(uq, base2, now)[p]);
                }
                assert forall|p: int|
                    0 <= p < self.agents_model().len() implies ak_id(
                    #[trigger] self.agents_model()[p],
                ).0 >= 1 by {
                    assert(self.agents_model()[p] == ak_tick_state(
                        ag0[p],
                        inbox_for(rtm, ak_id(ag0[p])),
                    ));
                    assert(ak_id(ag0[p]).0 >= 1);
                    lemma_ak_tick_keeps_id(ag0[p], inbox_for(rtm, ak_id(ag0[p])));
                }
            }
        }
    }

}

/// An agent's id survives a tick.
proof fn lemma_ak_tick_keeps_id(a: AgentKindModel, msgs: Seq<MessageModel>)
    ensures
        ak_id(ak_tick_state(a, msgs)) == ak_id(a),
{
    match a {
        AgentKindModel::Thomas(t) => {
            lemma_t_fold_keeps_id(t, msgs);
        },
        AgentKindModel::Archimedes(ar) => {
            lemma_a_fold_keeps_id(ar, msgs);
        },
    }
}

proof fn lemma_t_fold_keeps_id(t: ThomasModel, msgs: Seq<MessageModel>)
    ensures
        crate::thomas::t_fold(t, msgs).id == t.id,
    decreases msgs.len(),
{
    if msgs.len() > 0 {
        lemma_t_fold_keeps_id(crate::thomas::t_step(t, msgs[0]), msgs.drop_first());
    }
}

proof fn lemma_a_fold_keeps_id(a: ArchimedesModel, msgs: Seq<MessageModel>)
    ensures
        crate::archimedes::a_fold(a, msgs).id == a.id,
    decreases msgs.len(),
{
    if msgs.len() > 0 {
        lemma_a_fold_keeps_id(crate::archimedes::a_step(a, msgs[0]), msgs.drop_first());
    }
}


/// How often a value survives a filter: exactly as often as in the
/// whole when it passes the test, never otherwise.
pub proof fn lemma_filter_count(s: Seq<MessageModel>, pred: spec_fn(MessageModel) -> bool, x: MessageModel)
    ensures
        s.filter(pred).to_multiset().count(x) == if pred(x) {
            s.to_multiset().count(x)
        } else {
            0
        },
    decreases s.len(),
{
    broadcast use vstd::seq_lib::group_to_multiset_ensures;

    reveal(Seq::filter);
    if s.len() == 0 {
        assert(s.to_multiset() =~= Multiset::empty());
        assert(s.filter(pred).to_multiset() =~= Multiset::empty());
    } else {
        lemma_filter_count(s.drop_last(), pred, x);
        assert(s =~= s.drop_last().push(s.last()));
        assert(s.to_multiset() =~= s.drop_last().to_multiset().insert(s.last()));
        if pred(s.last()) {
            assert(s.filter(pred) =~= s.drop_last().filter(pred).push(s.last()));
            assert(s.filter(pred).to_multiset() =~= s.drop_last().filter(
                pred,
            ).to_multiset().insert(s.last()));
        } else {
            assert(s.filter(pred) =~= s.drop_last().filter(pred));
        }
    }
}

/// Broadcast fan-out: a message addressed to no one in particular
/// stands in every agent's inbox exactly as often as it stands in the
/// routable batch — every agent receives it, and none receives it
/// twice. With the tick contract, a broadcast queued during one tick is
/// in the batch of the next, so it reaches every inbox on the next tick.
pub proof fn lemma_broadcast_fanout(routable: Seq<MessageModel>, aid: AgentId, m: MessageModel)
    requires
        m.to is None,
    ensures
        inbox_for(routable, aid).to_multiset().count(m) == routable.to_multiset().count(m),
{
    lemma_filter_count(routable, reaches_pred(aid), m);
    assert(reaches(m, aid));
}

/// Every message an agent sends carries the agent's own id as sender.
#[verifier::rlimit(100)]
#[verifier::spinoff_prover]
pub proof fn lemma_ak_out_from(a: AgentKindModel, msgs: Seq<MessageModel>, now: u64)
    ensures
        forall|p: int|
            0 <= p < ak_tick_out(a, msgs, now).len() ==> (#[trigger] ak_tick_out(a, msgs, now)[
            p]).from == ak_id(a) && ak_tick_out(a, msgs, now)[p].timestamp == 0,
{
    match a {
        AgentKindModel::Thomas(t) => {
            lemma_t_fold_out_from(t, msgs, now);
            lemma_t_fold_keeps_id(t, msgs);
        },
        AgentKindModel::Archimedes(ar) => {
            lemma_a_fold_out_from(ar, msgs);
            lemma_a_fold_keeps_id(ar, msgs);
        },
    }
}

#[verifier::rlimit(100)]
#[verifier::spinoff_prover]
proof fn lemma_t_fold_out_from(t: ThomasModel, msgs: Seq<MessageModel>, now: u64)
    ensures
        forall|p: int|
            0 <= p < crate::thomas::t_fold_out(t, msgs, now).len() ==> (
            #[trigger] crate::thomas::t_fold_out(t, msgs, now)[p]).from == t.id
                && crate::thomas::t_fold_out(t, msgs, now)[p].timestamp == 0,
    decreases msgs.len(),
{
    if msgs.len() > 0 {
        lemma_t_fold_out_from(crate::thomas::t_step(t, msgs[0]), msgs.drop_first(), now);
        let head = crate::thomas::t_out(t, msgs[0], now);
        let tail = crate::thomas::t_fold_out(
            crate::thomas::t_step(t, msgs[0]),
            msgs.drop_first(),
            now,
        );
        assert forall|p: int|
            0 <= p < crate::thomas::t_fold_out(t, msgs, now).len() implies (
        #[trigger] crate::thomas::t_fold_out(t, msgs, now)[p]).from == t.id
            && crate::thomas::t_fold_out(t, msgs, now)[p].timestamp == 0 by {
            if p < head.len() {
                assert(crate::thomas::t_fold_out(t, msgs, now)[p] == head[p]);
            } else {
                assert(crate::thomas::t_fold_out(t, msgs, now)[p] == tail[p - head.len()]);
            }
        }
    }
}

#[verifier::rlimit(100)]
#[verifier::spinoff_prover]
proof fn lemma_a_fold_out_from(a: ArchimedesModel, msgs: Seq<MessageModel>)
    ensures
        forall|p: int|
            0 <= p < crate::archimedes::a_fold_out(a, msgs).len() ==> (
            #[trigger] crate::archimedes::a_fold_out(a, msgs)[p]).from == a.id
                && crate::archimedes::a_fold_out(a, msgs)[p].timestamp == 0,
    decreases msgs.len(),
{
    if msgs.len() > 0 {
        lemma_a_fold_out_from(crate::archimedes::a_step(a, msgs[0]), msgs.drop_first());
        let head = crate::archimedes::a_out(a, msgs[0]);
        let tail = crate::archimedes::a_fold_out(
            crate::archimedes::a_step(a, msgs[0]),
            msgs.drop_first(),
        );
        assert forall|p: int|
            0 <= p < crate::archimedes::a_fold_out(a, msgs).len() implies (
        #[trigger] crate::archimedes::a_fold_out(a, msgs)[p]).from == a.id
            && crate::archimedes::a_fold_out(a, msgs)[p].timestamp == 0 by {
            if p < head.len() {
                assert(crate::archimedes::a_fold_out(a, msgs)[p] == head[p]);
            } else {
                assert(crate::archimedes::a_fold_out(a, msgs)[p] == tail[p - head.len()]);
            }
        }
    }
}

/// One-tick latency: a message an agent pushes during tick `now` is
/// stamped with `now`, while everything delivered in the same tick's
/// inboxes was stamped earlier or came from the supervisor; so nothing
/// an agent sends stands in any inbox of the same tick. Delivery
/// happens, at the earliest, on the following tick.
pub proof fn lemma_one_tick_latency(
    batch: Seq<MessageModel>,
    a: AgentKindModel,
    msgs: Seq<MessageModel>,
    now: u64,
    base: u64,
    aid2: AgentId,
    p: int,
)
    requires
        forall|q: int|
            0 <= q < batch.len() ==> (#[trigger] batch[q]).timestamp < now || batch[q].from
                == AgentId(0),
        ak_id(a).0 >= 1,
        0 <= p < ak_tick_out(a, msgs, now).len(),
    ensures
        !inbox_for(batch.filter(routable_pred()), aid2).contains(
            stamped(ak_tick_out(a, msgs, now), base, now)[p],
        ),
{
    broadcast use vstd::seq_lib::group_to_multiset_ensures;

    let outs = ak_tick_out(a, msgs, now);
    let sm = stamped(outs, base, now)[p];
    lemma_ak_out_from(a, msgs, now);
    assert(sm.timestamp == now && sm.from == ak_id(a));
    let inbox = inbox_for(batch.filter(routable_pred()), aid2);
    if inbox.contains(sm) {
        lemma_filter_count(batch.filter(routable_pred()), reaches_pred(aid2), sm);
        lemma_filter_count(batch, routable_pred(), sm);
        assert(inbox.to_multiset().count(sm) > 0);
        assert(batch.to_multiset().count(sm) > 0);
        assert(batch.contains(sm));
        let q = choose|q: int| 0 <= q < batch.len() && batch[q] == sm;
        assert(batch[q].timestamp < now || batch[q].from == AgentId(0));
    }
}


/// The shorter preview used for serendipity connections.
fn preview_60(s: &String) -> (r: String)
    ensures
        r@ == preview60(s@),
{
    let chars = crate::text::str_to_chars(s.as_str());
    if crate::keywords::utf8_len_exceeds(&chars, 60) {
        let n = chars.len();
        let cut = if n > 57 {
            57
        } else {
            n
        };
        let head = crate::codec::subvec(&chars, 0, cut);
        let mut p = crate::text::chars_to_string(&head);
        proof {
            if s@.len() > 57 {
                assert(p@ =~= s@.take(57));
            } else {
                assert(p@ =~= s@);
            }
        }
        p.append("...");
        p
    } else {
        s.clone()
    }
}



/// An agent's id survives the morning reset.
proof fn lemma_morning_keeps_id(a: AgentKindModel)
    ensures
        ak_id(ak_morning_model(a)) == ak_id(a),
{
}


/// One qualifying theme unfolds the scan fold by one step.
proof fn lemma_sere_unfold_step(
    em: Seq<EntryModel>,
    themes: Seq<(Seq<char>, nat)>,
    t: int,
    em2: Seq<EntryModel>,
    msgs: Seq<MessageModel>,
)
    requires
        0 <= t < themes.len(),
        themes[t].1 >= 2,
        sere_step(em, themes[t].0) == (em2, msgs),
    ensures
        sere_fold(em, themes.skip(t)).0 == sere_fold(em2, themes.skip(t + 1)).0,
        sere_fold(em, themes.skip(t)).1 == msgs + sere_fold(em2, themes.skip(t + 1)).1,
{
    let rest = themes.skip(t);
    assert(rest[0] == themes[t]);
    assert(rest.drop_first() =~= themes.skip(t + 1));
    assert(sere_step(em, rest[0].0) == (em2, msgs));
}

} // verus!
