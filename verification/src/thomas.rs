//! Thomas, the test agent: responds to pings, reports on system health,
//! and demonstrates the agent lifecycle. His tick is specified message by
//! message: the contract gives the exact outbox and state for any inbox.

use vstd::prelude::*;
use crate::agent::{Agent, AgentId, AgentState, AgentContext};
use crate::message::{Message, MessageKind, KindModel, MessageModel, FeedbackType, FeedbackModel};
use crate::protection::ProtectionTier;
use crate::text::dec_digits;

verus! {

/// Thomas's state.
#[derive(Debug)]
pub struct Thomas {
    id: AgentId,
    state: AgentState,
    /// Messages received, via the `receive` hook.
    messages_received: u64,
    /// Pings answered with a pong.
    pings_responded: u64,
    /// Tests run today.
    tests_run: u64,
    /// Tests passed today.
    tests_passed: u64,
    /// Character id for prompt lookup.
    character_id: u32,
    /// The imprinted shared ambition, if any.
    imprinted_ambition: Option<String>,
    /// Role clarified at registration.
    role: String,
    /// Counter for the periodic spark.
    spark_counter: u64,
    /// Counter for the periodic health observation.
    memory_check_counter: u64,
    /// Counter for the periodic pattern scan.
    pattern_scan_counter: u64,
}

/// The mathematical value of Thomas's state.
pub struct ThomasModel {
    pub id: AgentId,
    pub state: AgentState,
    pub messages_received: u64,
    pub pings_responded: u64,
    pub tests_run: u64,
    pub tests_passed: u64,
    pub character_id: u32,
    pub imprinted_ambition: Option<Seq<char>>,
    pub role: Seq<char>,
    pub spark_counter: u64,
    pub memory_check_counter: u64,
    pub pattern_scan_counter: u64,
}

impl View for Thomas {
    type V = ThomasModel;

    closed spec fn view(&self) -> ThomasModel {
        ThomasModel {
            id: self.id,
            state: self.state,
            messages_received: self.messages_received,
            pings_responded: self.pings_responded,
            tests_run: self.tests_run,
            tests_passed: self.tests_passed,
            character_id: self.character_id,
            imprinted_ambition: match self.imprinted_ambition {
                Some(ref a) => Some(a@),
                None => None,
            },
            role: self.role@,
            spark_counter: self.spark_counter,
            memory_check_counter: self.memory_check_counter,
            pattern_scan_counter: self.pattern_scan_counter,
        }
    }
}

/// Adds one, stopping at the counter's maximum.
pub open spec fn sat_inc(x: u64) -> u64 {
    if x < u64::MAX {
        (x + 1) as u64
    } else {
        x
    }
}

/// Tests `sat_inc`.
pub fn sat_inc_pub(x: u64) -> (r: u64)
    ensures
        r == sat_inc(x),
{
    if x < u64::MAX {
        x + 1
    } else {
        x
    }
}

// ---------------------------------------------------------------------------
// The texts Thomas writes
// ---------------------------------------------------------------------------

pub open spec fn txt_run_spark(run: u64, passed: u64) -> Seq<char> {
    "Ran "@ + dec_digits(run as nat) + " tests, "@ + dec_digits(passed as nat)
        + " passed - system stable"@
}

pub open spec fn txt_run_spark_ctx(tick: u64) -> Seq<char> {
    "Manual test trigger at tick "@ + dec_digits(tick as nat)
}

pub open spec fn txt_periodic_spark(passed: u64, msgs: u64, tick: u64) -> Seq<char> {
    "All "@ + dec_digits(passed as nat) + " tests passed - system stability confirmed ("@
        + dec_digits(msgs as nat) + " msgs processed, tick "@ + dec_digits(tick as nat) + ")"@
}

pub open spec fn txt_periodic_spark_ctx(run: u64, tick: u64) -> Seq<char> {
    "Testing cycle "@ + dec_digits(run as nat) + " at tick "@ + dec_digits(tick as nat)
}

pub open spec fn txt_health(passed: u64, run: u64, msgs: u64, tick: u64) -> Seq<char> {
    "System health: "@ + dec_digits(passed as nat) + "/"@ + dec_digits(run as nat)
        + " tests passed, "@ + dec_digits(msgs as nat) + " msgs, tick "@ + dec_digits(tick as nat)
}

pub open spec fn txt_health_spark(passed: u64, run: u64, msgs: u64, tick: u64) -> Seq<char> {
    "Health snapshot: "@ + dec_digits(passed as nat) + "/"@ + dec_digits(run as nat) + " tests, "@
        + dec_digits(msgs as nat) + " msgs at tick "@ + dec_digits(tick as nat)
}

pub open spec fn txt_stability(n: nat) -> Seq<char> {
    "Consistent system stability across "@ + dec_digits(n) + " observations"@
}

// ---------------------------------------------------------------------------
// Per-message transitions
// ---------------------------------------------------------------------------

/// Whether a message is a request to run the tests.
pub open spec fn is_run_tests(kind: KindModel) -> bool {
    match kind {
        KindModel::Request { action, .. } => action == "run_tests"@,
        _ => false,
    }
}

/// Thomas's state after the `receive` hook sees one message.
pub open spec fn t_recv(st: ThomasModel, m: MessageModel) -> ThomasModel {
    let st1 = ThomasModel { messages_received: sat_inc(st.messages_received), ..st };
    if is_run_tests(m.kind) {
        ThomasModel { tests_run: 3, tests_passed: 3, ..st1 }
    } else {
        st1
    }
}

/// Thomas's state after his tick handlers see one received message.
pub open spec fn t_step(st: ThomasModel, m: MessageModel) -> ThomasModel {
    let st1 = t_recv(st, m);
    let st2 = if m.kind is Ping {
        ThomasModel { pings_responded: sat_inc(st1.pings_responded), ..st1 }
    } else {
        st1
    };
    match m.kind {
        KindModel::Heartbeat(a) => ThomasModel { imprinted_ambition: Some(a), ..st2 },
        _ => st2,
    }
}

/// What Thomas sends in response to one message.
pub open spec fn t_out(st: ThomasModel, m: MessageModel, tick: u64) -> Seq<MessageModel> {
    let st1 = t_recv(st, m);
    let pongs: Seq<MessageModel> = if m.kind is Ping {
        seq![Message::fresh_model(st1.id, Some(m.from), KindModel::Pong)]
    } else {
        Seq::empty()
    };
    let sparks: Seq<MessageModel> = if is_run_tests(m.kind) && st1.tests_passed > 0 {
        seq![
            Message::fresh_model(
                st1.id,
                None,
                KindModel::Feedback(
                    FeedbackModel::Spark {
                        content: txt_run_spark(st1.tests_run, st1.tests_passed),
                        context: txt_run_spark_ctx(tick),
                    },
                ),
            ),
        ]
    } else {
        Seq::empty()
    };
    let links: Seq<MessageModel> = match m.kind {
        KindModel::MemoryResults { results } => {
            if results.len() >= 2 {
                seq![
                    Message::fresh_model(
                        st1.id,
                        None,
                        KindModel::Feedback(
                            FeedbackModel::Connection {
                                from: "system health"@,
                                to: "pattern detection"@,
                                pattern: txt_stability(results.len()),
                            },
                        ),
                    ),
                ]
            } else {
                Seq::empty()
            }
        },
        _ => Seq::empty(),
    };
    pongs + sparks + links
}

/// The state after a whole inbox.
pub open spec fn t_fold(st: ThomasModel, msgs: Seq<MessageModel>) -> ThomasModel
    decreases msgs.len(),
{
    if msgs.len() == 0 {
        st
    } else {
        t_fold(t_step(st, msgs[0]), msgs.drop_first())
    }
}

/// Everything sent while walking a whole inbox.
pub open spec fn t_fold_out(st: ThomasModel, msgs: Seq<MessageModel>, tick: u64) -> Seq<
    MessageModel,
>
    decreases msgs.len(),
{
    if msgs.len() == 0 {
        Seq::empty()
    } else {
        t_out(st, msgs[0], tick) + t_fold_out(t_step(st, msgs[0]), msgs.drop_first(), tick)
    }
}

/// The state after the periodic blocks that follow the inbox walk.
pub open spec fn t_tick_state(st0: ThomasModel, msgs: Seq<MessageModel>) -> ThomasModel {
    let st = t_fold(st0, msgs);
    let sc = sat_inc(st.spark_counter);
    let sc2: u64 = if sc >= 1000 && st.tests_passed > 0 {
        0
    } else {
        sc
    };
    let mc = sat_inc(st.memory_check_counter);
    let mc2: u64 = if mc >= 2000 {
        0
    } else {
        mc
    };
    let pc = sat_inc(st.pattern_scan_counter);
    let pc2: u64 = if pc >= 5000 {
        0
    } else {
        pc
    };
    ThomasModel { spark_counter: sc2, memory_check_counter: mc2, pattern_scan_counter: pc2, ..st }
}

/// Everything one tick sends: the responses to the inbox, then the
/// periodic spark, health observation and pattern scan when their
/// counters come due.
pub open spec fn t_tick_out(st0: ThomasModel, msgs: Seq<MessageModel>, tick: u64) -> Seq<
    MessageModel,
> {
    let st = t_fold(st0, msgs);
    let base = t_fold_out(st0, msgs, tick);
    let sc = sat_inc(st.spark_counter);
    let spark: Seq<MessageModel> = if sc >= 1000 && st.tests_passed > 0 {
        seq![
            Message::fresh_model(
                st.id,
                None,
                KindModel::Feedback(
                    FeedbackModel::Spark {
                        content: txt_periodic_spark(st.tests_passed, st.messages_received, tick),
                        context: txt_periodic_spark_ctx(st.tests_run, tick),
                    },
                ),
            ),
        ]
    } else {
        Seq::empty()
    };
    let mc = sat_inc(st.memory_check_counter);
    let health: Seq<MessageModel> = if mc >= 2000 {
        seq![
            Message::fresh_model(
                st.id,
                None,
                KindModel::MemoryStore {
                    content: txt_health(st.tests_passed, st.tests_run, st.messages_received, tick),
                    kind: "observation"@,
                },
            ),
            Message::fresh_model(
                st.id,
                None,
                KindModel::Feedback(
                    FeedbackModel::Spark {
                        content: txt_health_spark(
                            st.tests_passed,
                            st.tests_run,
                            st.messages_received,
                            tick,
                        ),
                        context: "Periodic health observation"@,
                    },
                ),
            ),
        ]
    } else {
        Seq::empty()
    };
    let pc = sat_inc(st.pattern_scan_counter);
    let scan: Seq<MessageModel> = if pc >= 5000 {
        seq![
            Message::fresh_model(
                st.id,
                None,
                KindModel::MemorySearch { query: "system health tests"@ },
            ),
        ]
    } else {
        Seq::empty()
    };
    base + spark + health + scan
}

impl Thomas {
    /// Creates a new Thomas agent.
    pub fn new(id: AgentId) -> (r: Thomas)
        ensures
            r@ == (ThomasModel {
                id,
                state: AgentState::Initializing,
                messages_received: 0,
                pings_responded: 0,
                tests_run: 0,
                tests_passed: 0,
                character_id: crate::prompts::THOMAS,
                imprinted_ambition: None,
                role: "Worker"@,
                spark_counter: 0,
                memory_check_counter: 0,
                pattern_scan_counter: 0,
            }),
    {
        Thomas {
            id,
            state: AgentState::Initializing,
            messages_received: 0,
            pings_responded: 0,
            tests_run: 0,
            tests_passed: 0,
            character_id: crate::prompts::THOMAS,
            imprinted_ambition: None,
            role: "Worker".to_owned(),
            spark_counter: 0,
            memory_check_counter: 0,
            pattern_scan_counter: 0,
        }
    }

    /// How many pings Thomas has answered.
    pub fn pings_answered(&self) -> (n: u64)
        ensures
            n == self@.pings_responded,
    {
        self.pings_responded
    }

    /// How many messages Thomas has seen.
    pub fn messages_seen(&self) -> (n: u64)
        ensures
            n == self@.messages_received,
    {
        self.messages_received
    }

    /// Runs the internal self-tests; every one of them passes.
    fn run_tests(&mut self)
        ensures
            final(self)@ == (ThomasModel { tests_run: 3, tests_passed: 3, ..old(self)@ }),
    {
        self.tests_run = 0;
        self.tests_passed = 0;
        // Allocation works.
        self.tests_run = self.tests_run + 1;
        let test_vec: Vec<i32> = vec![1, 2, 3, 4, 5];
        if test_vec.len() == 5 {
            self.tests_passed = self.tests_passed + 1;
        }
        // Strings work.
        self.tests_run = self.tests_run + 1;
        let test_string: &str = "stable";
        if !test_string.is_empty() {
            self.tests_passed = self.tests_passed + 1;
        }
        proof {
            reveal_strlit("stable");
        }
        // Arithmetic works.
        self.tests_run = self.tests_run + 1;
        let product: u64 = 6 * 7;
        if product == 42 {
            self.tests_passed = self.tests_passed + 1;
        }
    }
}

fn text_run_spark(run: u64, passed: u64) -> (r: String)
    ensures
        r@ == txt_run_spark(run, passed),
{
    let mut s = "Ran ".to_owned();
    let a = crate::text::u64_to_string(run);
    s.append(a.as_str());
    s.append(" tests, ");
    let b = crate::text::u64_to_string(passed);
    s.append(b.as_str());
    s.append(" passed - system stable");
    s
}

fn text_run_spark_ctx(tick: u64) -> (r: String)
    ensures
        r@ == txt_run_spark_ctx(tick),
{
    let mut s = "Manual test trigger at tick ".to_owned();
    let a = crate::text::u64_to_string(tick);
    s.append(a.as_str());
    s
}

fn text_periodic_spark(passed: u64, msgs: u64, tick: u64) -> (r: String)
    ensures
        r@ == txt_periodic_spark(passed, msgs, tick),
{
    let mut s = "All ".to_owned();
    let a = crate::text::u64_to_string(passed);
    s.append(a.as_str());
    s.append(" tests passed - system stability confirmed (");
    let b = crate::text::u64_to_string(msgs);
    s.append(b.as_str());
    s.append(" msgs processed, tick ");
    let c = crate::text::u64_to_string(tick);
    s.append(c.as_str());
    s.append(")");
    s
}

fn text_periodic_spark_ctx(run: u64, tick: u64) -> (r: String)
    ensures
        r@ == txt_periodic_spark_ctx(run, tick),
{
    let mut s = "Testing cycle ".to_owned();
    let a = crate::text::u64_to_string(run);
    s.append(a.as_str());
    s.append(" at tick ");
    let b = crate::text::u64_to_string(tick);
    s.append(b.as_str());
    s
}

fn text_health(passed: u64, run: u64, msgs: u64, tick: u64) -> (r: String)
    ensures
        r@ == txt_health(passed, run, msgs, tick),
{
    let mut s = "System health: ".to_owned();
    let a = crate::text::u64_to_string(passed);
    s.append(a.as_str());
    s.append("/");
    let b = crate::text::u64_to_string(run);
    s.append(b.as_str());
    s.append(" tests passed, ");
    let c = crate::text::u64_to_string(msgs);
    s.append(c.as_str());
    s.append(" msgs, tick ");
    let d = crate::text::u64_to_string(tick);
    s.append(d.as_str());
    s
}

fn text_health_spark(passed: u64, run: u64, msgs: u64, tick: u64) -> (r: String)
    ensures
        r@ == txt_health_spark(passed, run, msgs, tick),
{
    let mut s = "Health snapshot: ".to_owned();
    let a = crate::text::u64_to_string(passed);
    s.append(a.as_str());
    s.append("/");
    let b = crate::text::u64_to_string(run);
    s.append(b.as_str());
    s.append(" tests, ");
    let c = crate::text::u64_to_string(msgs);
    s.append(c.as_str());
    s.append(" msgs at tick ");
    let d = crate::text::u64_to_string(tick);
    s.append(d.as_str());
    s
}

fn text_stability(n: u64) -> (r: String)
    ensures
        r@ == txt_stability(n as nat),
{
    let mut s = "Consistent system stability across ".to_owned();
    let a = crate::text::u64_to_string(n);
    s.append(a.as_str());
    s.append(" observations");
    s
}

impl Agent for Thomas {
    fn id(&self) -> (r: AgentId)
        ensures
            r == self@.id,
    {
        self.id
    }

    fn name(&self) -> (r: &'static str)
        ensures
            r@ == "Thomas"@,
    {
        "Thomas"
    }

    fn state(&self) -> (r: AgentState)
        ensures
            r == self@.state,
    {
        self.state
    }

    /// Runs the self-tests once and reports ready.
    fn init(&mut self)
        ensures
            final(self)@ == (ThomasModel {
                state: AgentState::Ready,
                tests_run: 3,
                tests_passed: 3,
                ..old(self)@
            }),
    {
        self.state = AgentState::Initializing;
        self.run_tests();
        self.state = AgentState::Ready;
    }

    /// Walks the inbox: pongs every ping, re-imprints on heartbeats,
    /// reruns the tests on request and sparks about the result, links
    /// repeated memory results; then fires whichever periodic blocks come
    /// due. The exact outbox is `t_tick_out`, the exact new state
    /// `t_tick_state`.
    fn tick(&mut self, ctx: &mut AgentContext) -> (r: AgentState)
        ensures
            final(self)@ == t_tick_state(old(self)@, old(ctx).inbox.deep_view()),
            final(ctx).inbox == old(ctx).inbox,
            final(ctx).tick == old(ctx).tick,
            final(ctx).outbox.deep_view() == old(ctx).outbox.deep_view() + t_tick_out(
                old(self)@,
                old(ctx).inbox.deep_view(),
                old(ctx).tick,
            ),
            r == old(self)@.state,
    {
        let ghost st0 = self@;
        let ghost msgs = ctx.inbox.deep_view();
        let ghost out0 = ctx.outbox.deep_view();
        let now = ctx.tick;
        let n = ctx.inbox.len();
        let mut i: usize = 0;
        proof {
            assert(msgs.take(0).len() == 0);
            assert(t_fold(st0, msgs.take(0)) == st0);
            assert(t_fold_out(st0, msgs.take(0), now).len() == 0);
            assert(ctx.outbox.deep_view() =~= out0 + t_fold_out(st0, msgs.take(0), now));
        }
        while i < n
            invariant
                n == msgs.len(),
                msgs == ctx.inbox.deep_view(),
                ctx.inbox == old(ctx).inbox,
                ctx.tick == old(ctx).tick,
                i <= n,
                now == ctx.tick,
                self@ == t_fold(st0, msgs.take(i as int)),
                ctx.outbox.deep_view() == out0 + t_fold_out(st0, msgs.take(i as int), now),
                self@.id == st0.id,
                self@.state == st0.state,
            decreases n - i,
        {
            let ghost st_i = self@;
            let ghost m = msgs[i as int];
            proof {
                assert(ctx.inbox@[i as int].deep_view() == m);
            }
            self.receive(&ctx.inbox[i]);
            proof {
                assert(self@ == t_recv(st_i, m));
            }
            let ghost st_r = self@;
            let ghost out_before = ctx.outbox.deep_view();
            // Respond to pings.
            if matches!(&ctx.inbox[i].kind, MessageKind::Ping) {
                let response = Message::pong(self.id, ctx.inbox[i].from);
                ctx.outbox.push(response);
                self.pings_responded = sat_inc_pub(self.pings_responded);
            }
            // Re-imprint on heartbeats.
            if let MessageKind::Heartbeat(ref ambition) = &ctx.inbox[i].kind {
                self.imprinted_ambition = Some(ambition.clone());
            }
            // Spark after a requested test run.
            let run_req = match &ctx.inbox[i].kind {
                MessageKind::Request { action, .. } => crate::text::str_eq_str(
                    action.as_str(),
                    "run_tests",
                ),
                _ => false,
            };
            if run_req && self.tests_passed > 0 {
                let content = text_run_spark(self.tests_run, self.tests_passed);
                let context = text_run_spark_ctx(now);
                let spark = Message::new(
                    self.id,
                    None,
                    MessageKind::Feedback(FeedbackType::Spark { content, context }),
                );
                ctx.outbox.push(spark);
            }
            // Link repeated memory results.
            let n_results: usize = match &ctx.inbox[i].kind {
                MessageKind::MemoryResults { results } => results.len(),
                _ => 0,
            };
            if n_results >= 2 {
                let connection = Message::new(
                    self.id,
                    None,
                    MessageKind::Feedback(
                        FeedbackType::Connection {
                            from: "system health".to_owned(),
                            to: "pattern detection".to_owned(),
                            pattern: text_stability(n_results as u64),
                        },
                    ),
                );
                ctx.outbox.push(connection);
            }
            proof {
                assert(self@ == t_step(st_i, m));
                assert(ctx.outbox.deep_view() =~= out_before + t_out(st_i, m, now));
                assert(msgs.take(i + 1).drop_last() =~= msgs.take(i as int));
                lemma_t_fold_step(st0, msgs, i as int, now);
                assert(ctx.outbox.deep_view() =~= out0 + t_fold_out(st0, msgs.take(i + 1), now));
            }
            i = i + 1;
        }
        proof {
            assert(msgs.take(n as int) =~= msgs);
        }
        let ghost st = self@;
        let ghost base_out = ctx.outbox.deep_view();
        // Periodic spark.
        self.spark_counter = sat_inc_pub(self.spark_counter);
        if self.spark_counter >= 1000 && self.tests_passed > 0 {
            let content = text_periodic_spark(self.tests_passed, self.messages_received, now);
            let context = text_periodic_spark_ctx(self.tests_run, now);
            let spark = Message::new(
                self.id,
                None,
                MessageKind::Feedback(FeedbackType::Spark { content, context }),
            );
            ctx.outbox.push(spark);
            self.spark_counter = 0;
        }
        // Periodic health observation.
        self.memory_check_counter = sat_inc_pub(self.memory_check_counter);
        if self.memory_check_counter >= 2000 {
            self.memory_check_counter = 0;
            let store = Message::new(
                self.id,
                None,
                MessageKind::MemoryStore {
                    content: text_health(
                        self.tests_passed,
                        self.tests_run,
                        self.messages_received,
                        now,
                    ),
                    kind: "observation".to_owned(),
                },
            );
            ctx.outbox.push(store);
            let spark = Message::new(
                self.id,
                None,
                MessageKind::Feedback(
                    FeedbackType::Spark {
                        content: text_health_spark(
                            self.tests_passed,
                            self.tests_run,
                            self.messages_received,
                            now,
                        ),
                        context: "Periodic health observation".to_owned(),
                    },
                ),
            );
            ctx.outbox.push(spark);
        }
        // Periodic pattern scan.
        self.pattern_scan_counter = sat_inc_pub(self.pattern_scan_counter);
        if self.pattern_scan_counter >= 5000 {
            self.pattern_scan_counter = 0;
            let search = Message::new(
                self.id,
                None,
                MessageKind::MemorySearch { query: "system health tests".to_owned() },
            );
            ctx.outbox.push(search);
        }
        proof {
            assert(self@ == t_tick_state(st0, msgs));
            let sc = sat_inc(st.spark_counter);
            let spark_s: Seq<MessageModel> = if sc >= 1000 && st.tests_passed > 0 {
                seq![
                    Message::fresh_model(
                        st.id,
                        None,
                        KindModel::Feedback(
                            FeedbackModel::Spark {
                                content: txt_periodic_spark(
                                    st.tests_passed,
                                    st.messages_received,
                                    now,
                                ),
                                context: txt_periodic_spark_ctx(st.tests_run, now),
                            },
                        ),
                    ),
                ]
            } else {
                Seq::empty()
            };
            let mc = sat_inc(st.memory_check_counter);
            let health_s: Seq<MessageModel> = if mc >= 2000 {
                seq![
                    Message::fresh_model(
                        st.id,
                        None,
                        KindModel::MemoryStore {
                            content: txt_health(
                                st.tests_passed,
                                st.tests_run,
                                st.messages_received,
                                now,
                            ),
                            kind: "observation"@,
                        },
                    ),
                    Message::fresh_model(
                        st.id,
                        None,
                        KindModel::Feedback(
                            FeedbackModel::Spark {
                                content: txt_health_spark(
                                    st.tests_passed,
                                    st.tests_run,
                                    st.messages_received,
                                    now,
                                ),
                                context: "Periodic health observation"@,
                            },
                        ),
                    ),
                ]
            } else {
                Seq::empty()
            };
            let pc = sat_inc(st.pattern_scan_counter);
            let scan_s: Seq<MessageModel> = if pc >= 5000 {
                seq![
                    Message::fresh_model(
                        st.id,
                        None,
                        KindModel::MemorySearch { query: "system health tests"@ },
                    ),
                ]
            } else {
                Seq::empty()
            };
            assert(ctx.outbox.deep_view() =~= base_out + spark_s + health_s + scan_s);
            assert(t_tick_out(st0, msgs, now) =~= t_fold_out(st0, msgs, now) + spark_s + health_s
                + scan_s);
            assert(ctx.outbox.deep_view() =~= out0 + t_tick_out(st0, msgs, now));
        }
        self.state
    }

    /// Counts the message; a test request reruns the self-tests.
    fn receive(&mut self, msg: &Message)
        ensures
            final(self)@ == t_recv(old(self)@, msg@),
    {
        self.messages_received = sat_inc_pub(self.messages_received);
        let run_req = match &msg.kind {
            MessageKind::Request { action, .. } => crate::text::str_eq_str(
                action.as_str(),
                "run_tests",
            ),
            _ => false,
        };
        if run_req {
            self.tests_run = 0;
            self.tests_passed = 0;
            self.run_tests();
        }
    }

    fn shutdown(&mut self)
        ensures
            final(self)@ == (ThomasModel { state: AgentState::ShuttingDown, ..old(self)@ }),
    {
        self.state = AgentState::ShuttingDown;
    }

    /// Resets the daily test counters and names the day's goals.
    fn daily_ambition(&mut self) -> (r: Vec<String>)
        ensures
            final(self)@ == (ThomasModel { tests_run: 0, tests_passed: 0, ..old(self)@ }),
            r.deep_view() =~= seq![
                "Test all system components"@,
                "Respond to all ping requests"@,
                "Monitor for anomalies"@,
            ],
    {
        self.tests_run = 0;
        self.tests_passed = 0;
        let mut r: Vec<String> = Vec::new();
        r.push("Test all system components".to_owned());
        r.push("Respond to all ping requests".to_owned());
        r.push("Monitor for anomalies".to_owned());
        r
    }

    /// Reports the day's counters.
    fn checkpoint(&self) -> (r: Vec<String>)
        ensures
            r.deep_view().len() == 3,
    {
        let mut r: Vec<String> = Vec::new();
        let mut a = "Messages processed: ".to_owned();
        let s1 = crate::text::u64_to_string(self.messages_received);
        a.append(s1.as_str());
        r.push(a);
        let mut b = "Pings responded: ".to_owned();
        let s2 = crate::text::u64_to_string(self.pings_responded);
        b.append(s2.as_str());
        r.push(b);
        let mut c = "Tests: ".to_owned();
        let s3 = crate::text::u64_to_string(self.tests_passed);
        c.append(s3.as_str());
        c.append("/");
        let s4 = crate::text::u64_to_string(self.tests_run);
        c.append(s4.as_str());
        c.append(" passed");
        r.push(c);
        r
    }

    /// Summarizes the day.
    fn eod_report(&self) -> (r: Vec<String>)
        ensures
            r.deep_view().len() == 4,
    {
        let mut r: Vec<String> = Vec::new();
        let mut a = "Processed ".to_owned();
        let s1 = crate::text::u64_to_string(self.messages_received);
        a.append(s1.as_str());
        a.append(" messages");
        r.push(a);
        let mut b = "Responded to ".to_owned();
        let s2 = crate::text::u64_to_string(self.pings_responded);
        b.append(s2.as_str());
        b.append(" pings");
        r.push(b);
        let mut c = "Ran ".to_owned();
        let s3 = crate::text::u64_to_string(self.tests_run);
        c.append(s3.as_str());
        c.append(" tests, ");
        let s4 = crate::text::u64_to_string(self.tests_passed);
        c.append(s4.as_str());
        c.append(" passed");
        r.push(c);
        r.push("All systems nominal".to_owned());
        r
    }

    /// Thomas keeps his own counsel at night; the counters stay.
    fn reflect(&mut self)
        ensures
            final(self)@ == old(self)@,
    {
    }

    fn max_write_tier(&self) -> (r: ProtectionTier)
        ensures
            r == ProtectionTier::Playground,
    {
        ProtectionTier::Playground
    }

    fn journal_entry(&self, tick: u64) -> (r: Option<String>)
        ensures
            r is None,
    {
        None
    }

    /// Remembers the shared ambition.
    fn imprint(&mut self, ambition: &str)
        ensures
            final(self)@ == (ThomasModel { imprinted_ambition: Some(ambition@), ..old(self)@ }),
    {
        self.imprinted_ambition = Some(ambition.to_owned());
    }

    /// Thomas guards the system's integrity.
    fn clarify_role(&mut self) -> (r: &'static str)
        ensures
            final(self)@ == (ThomasModel { role: "Guardian"@, ..old(self)@ }),
            r@ == "Guardian"@,
    {
        self.role = "Guardian".to_owned();
        "Guardian"
    }

    /// Thomas needs no workspace changes before the interface appears.
    fn handle_environment_setup(&mut self, ctx: &mut AgentContext)
        ensures
            final(self)@ == old(self)@,
            final(ctx).inbox == old(ctx).inbox,
            final(ctx).outbox == old(ctx).outbox,
            final(ctx).tick == old(ctx).tick,
    {
    }
}

/// One more message folded into the walk.
proof fn lemma_t_fold_step(st0: ThomasModel, msgs: Seq<MessageModel>, i: int, tick: u64)
    requires
        0 <= i < msgs.len(),
    ensures
        t_fold(st0, msgs.take(i + 1)) == t_step(t_fold(st0, msgs.take(i)), msgs[i]),
        t_fold_out(st0, msgs.take(i + 1), tick) == t_fold_out(st0, msgs.take(i), tick) + t_out(
            t_fold(st0, msgs.take(i)),
            msgs[i],
            tick,
        ),
    decreases i,
{
    if i == 0 {
        assert(msgs.take(1)[0] == msgs[0]);
        assert(msgs.take(1).drop_first() =~= msgs.take(0));
        assert(t_fold(t_step(st0, msgs[0]), msgs.take(0)) == t_step(st0, msgs[0]));
        assert(t_fold_out(t_step(st0, msgs[0]), msgs.take(0), tick).len() == 0);
        assert(t_fold_out(st0, msgs.take(1), tick) =~= t_fold_out(st0, msgs.take(0), tick) + t_out(
            st0,
            msgs[0],
            tick,
        ));
    } else {
        lemma_t_fold_step(t_step(st0, msgs[0]), msgs.drop_first(), i - 1, tick);
        assert(msgs.take(i + 1)[0] == msgs[0]);
        assert(msgs.take(i + 1).drop_first() =~= msgs.drop_first().take(i));
        assert(msgs.take(i)[0] == msgs[0]);
        assert(msgs.take(i).drop_first() =~= msgs.drop_first().take(i - 1));
        assert(msgs.drop_first()[i - 1] == msgs[i]);
        assert(t_fold_out(st0, msgs.take(i + 1), tick) =~= t_out(st0, msgs[0], tick) + t_fold_out(
            t_step(st0, msgs[0]),
            msgs.drop_first().take(i),
            tick,
        ));
        assert(t_out(st0, msgs[0], tick) + (t_fold_out(
            t_step(st0, msgs[0]),
            msgs.drop_first().take(i - 1),
            tick,
        ) + t_out(t_fold(st0, msgs.take(i)), msgs[i], tick)) =~= (t_out(st0, msgs[0], tick)
            + t_fold_out(t_step(st0, msgs[0]), msgs.drop_first().take(i - 1), tick)) + t_out(
            t_fold(st0, msgs.take(i)),
            msgs[i],
            tick,
        ));
    }
}

} // verus!
