//! Archimedes, the daily ambition agent: he keeps the day's ambition and
//! its commitments, organizes a workspace around it, and mines memory for
//! related insights. His tick is specified message by message.

use vstd::prelude::*;
use crate::agent::{Agent, AgentId, AgentState, AgentContext};
use crate::message::{Message, MessageKind, KindModel, MessageModel, FeedbackType, FeedbackModel};
use crate::protection::ProtectionTier;
use crate::keywords::{split_ws, first_word_or, first_long_word_or, utf8_len};
use crate::thomas::sat_inc;

verus! {

/// Archimedes's state.
#[derive(Debug)]
pub struct Archimedes {
    id: AgentId,
    state: AgentState,
    /// Character id for prompt lookup.
    character_id: u32,
    /// Today's ambition statement.
    today_ambition: Option<String>,
    /// Commitments parsed out of the ambition document.
    commitments: Vec<String>,
    /// Workspace folders created so far.
    workspace_folders: Vec<String>,
    /// Counter for the periodic memory theme scan.
    memory_scan_counter: u64,
    /// Whether the boot continuity check has run.
    boot_memory_checked: bool,
    /// Whether the current ambition has been saved to memory.
    ambition_saved: bool,
}

/// The mathematical value of Archimedes's state.
pub struct ArchimedesModel {
    pub id: AgentId,
    pub state: AgentState,
    pub character_id: u32,
    pub today_ambition: Option<Seq<char>>,
    pub commitments: Seq<Seq<char>>,
    pub workspace_folders: Seq<Seq<char>>,
    pub memory_scan_counter: u64,
    pub boot_memory_checked: bool,
    pub ambition_saved: bool,
}

impl View for Archimedes {
    type V = ArchimedesModel;

    closed spec fn view(&self) -> ArchimedesModel {
        ArchimedesModel {
            id: self.id,
            state: self.state,
            character_id: self.character_id,
            today_ambition: match self.today_ambition {
                Some(ref a) => Some(a@),
                None => None,
            },
            commitments: self.commitments.deep_view(),
            workspace_folders: self.workspace_folders.deep_view(),
            memory_scan_counter: self.memory_scan_counter,
            boot_memory_checked: self.boot_memory_checked,
            ambition_saved: self.ambition_saved,
        }
    }
}

// ---------------------------------------------------------------------------
// Ambition parsing
// ---------------------------------------------------------------------------

/// A line that opens a bullet.
pub open spec fn starts_dash(l: Seq<char>) -> bool {
    l.len() > 0 && l[0] == '-'
}

/// A line that opens a new section.
pub open spec fn starts_hash(l: Seq<char>) -> bool {
    l.len() > 0 && l[0] == '#'
}

/// Leading dashes removed.
pub open spec fn strip_dashes(l: Seq<char>) -> Seq<char>
    decreases l.len(),
{
    if l.len() > 0 && l[0] == '-' {
        strip_dashes(l.drop_first())
    } else {
        l
    }
}

/// The commitments of an ambition document: bullet lines after a
/// commitments heading, up to the next section heading.
pub open spec fn comm_scan(lines: Seq<Seq<char>>, in_comm: bool) -> Seq<Seq<char>>
    decreases lines.len(),
{
    if lines.len() == 0 {
        Seq::empty()
    } else {
        let l = lines[0];
        if crate::text::contains_seq(l, "Key Commitments"@) || crate::text::contains_seq(
            l,
            "Commitments"@,
        ) {
            comm_scan(lines.drop_first(), true)
        } else if in_comm && starts_hash(l) {
            Seq::empty()
        } else {
            (if in_comm && starts_dash(l) {
                let c = crate::codec::trim_seq(strip_dashes(l));
                if c.len() > 0 {
                    seq![c]
                } else {
                    Seq::empty()
                }
            } else {
                Seq::empty()
            }) + comm_scan(lines.drop_first(), in_comm)
        }
    }
}

pub open spec fn commitments_of(content: Seq<char>) -> Seq<Seq<char>> {
    comm_scan(crate::codec::split_char(content, '\n'), false)
}

/// The default ambition used when none has been handed over yet.
pub open spec fn default_ambition() -> Seq<char> {
    "Today, I want us to build something amazing together."@
}

pub open spec fn default_commitments() -> Seq<Seq<char>> {
    seq![
        "YOU: Set clear goals"@,
        "AI: Support with tools and insights"@,
        "COLLAB: Work together"@,
    ]
}

/// The four workspace folders laid out around the ambition.
pub open spec fn workspace_paths() -> Seq<Seq<char>> {
    seq![
        "/workspaces/today"@,
        "/workspaces/today/focus"@,
        "/workspaces/today/resources"@,
        "/workspaces/today/output"@,
    ]
}

pub open spec fn txt_workspace(n: nat) -> Seq<char> {
    "Workspace prepared with "@ + crate::text::dec_digits(n) + " folders"@
}

// ---------------------------------------------------------------------------
// Per-message transitions
// ---------------------------------------------------------------------------

/// Archimedes's state after one message.
pub open spec fn a_step(st: ArchimedesModel, m: MessageModel) -> ArchimedesModel {
    let st1 = if m.kind == KindModel::SystemEvent(crate::message::SystemEvent::EnvironmentSetup) {
        ArchimedesModel { workspace_folders: st.workspace_folders + workspace_paths(), ..st }
    } else {
        st
    };
    match m.kind {
        KindModel::Heartbeat(a) => {
            if st1.today_ambition != Some(a) {
                ArchimedesModel {
                    today_ambition: Some(a),
                    commitments: commitments_of(a),
                    ambition_saved: false,
                    ..st1
                }
            } else {
                st1
            }
        },
        _ => st1,
    }
}

/// What Archimedes sends in response to one message.
pub open spec fn a_out(st: ArchimedesModel, m: MessageModel) -> Seq<MessageModel> {
    let env: Seq<MessageModel> = if m.kind == KindModel::SystemEvent(
        crate::message::SystemEvent::EnvironmentSetup,
    ) {
        seq![
            Message::fresh_model(
                st.id,
                None,
                KindModel::Feedback(
                    FeedbackModel::Resource {
                        description: txt_workspace(
                            st.workspace_folders.len() + workspace_paths().len(),
                        ),
                        location: "/workspaces/today"@,
                    },
                ),
            ),
        ]
    } else {
        Seq::empty()
    };
    let beat: Seq<MessageModel> = match m.kind {
        KindModel::Heartbeat(a) => {
            if st.today_ambition != Some(a) {
                seq![
                    Message::fresh_model(
                        st.id,
                        None,
                        KindModel::MemorySearch { query: first_word_or(a, "ambition"@) },
                    ),
                ]
            } else {
                Seq::empty()
            }
        },
        _ => Seq::empty(),
    };
    let links: Seq<MessageModel> = match m.kind {
        KindModel::MemoryResults { results } => {
            if results.len() >= 2 {
                seq![
                    Message::fresh_model(
                        st.id,
                        None,
                        KindModel::Feedback(
                            FeedbackModel::Connection {
                                from: results[0].1,
                                to: results[1].1,
                                pattern: "Archimedes found a link between past insights"@,
                            },
                        ),
                    ),
                ]
            } else {
                Seq::empty()
            }
        },
        _ => Seq::empty(),
    };
    env + beat + links
}

pub open spec fn a_fold(st: ArchimedesModel, msgs: Seq<MessageModel>) -> ArchimedesModel
    decreases msgs.len(),
{
    if msgs.len() == 0 {
        st
    } else {
        a_fold(a_step(st, msgs[0]), msgs.drop_first())
    }
}

pub open spec fn a_fold_out(st: ArchimedesModel, msgs: Seq<MessageModel>) -> Seq<MessageModel>
    decreases msgs.len(),
{
    if msgs.len() == 0 {
        Seq::empty()
    } else {
        a_out(st, msgs[0]) + a_fold_out(a_step(st, msgs[0]), msgs.drop_first())
    }
}

/// The state after a whole tick.
pub open spec fn a_tick_state(st0: ArchimedesModel, msgs: Seq<MessageModel>) -> ArchimedesModel {
    let st = a_fold(st0, msgs);
    let st1 = ArchimedesModel { boot_memory_checked: true, ..st };
    let st2 = if !st1.ambition_saved && st1.today_ambition is Some {
        ArchimedesModel { ambition_saved: true, ..st1 }
    } else {
        st1
    };
    let c = sat_inc(st2.memory_scan_counter);
    ArchimedesModel {
        memory_scan_counter: if c >= 2000 {
            0
        } else {
            c
        },
        ..st2
    }
}

/// Everything a whole tick sends: responses to the inbox, the one-time
/// boot continuity search, the one-time ambition save, and the periodic
/// theme scan.
pub open spec fn a_tick_out(st0: ArchimedesModel, msgs: Seq<MessageModel>) -> Seq<MessageModel> {
    let st = a_fold(st0, msgs);
    let boot: Seq<MessageModel> = if !st.boot_memory_checked {
        seq![
            Message::fresh_model(
                st.id,
                None,
                KindModel::MemorySearch { query: "ambition today accomplish"@ },
            ),
        ]
    } else {
        Seq::empty()
    };
    let save: Seq<MessageModel> = if !st.ambition_saved && st.today_ambition is Some {
        seq![
            Message::fresh_model(
                st.id,
                None,
                KindModel::MemoryStore {
                    content: "Ambition: "@ + st.today_ambition->0,
                    kind: "observation"@,
                },
            ),
        ]
    } else {
        Seq::empty()
    };
    let c = sat_inc(st.memory_scan_counter);
    let scan: Seq<MessageModel> = if c >= 2000 && st.today_ambition is Some {
        seq![
            Message::fresh_model(
                st.id,
                None,
                KindModel::MemorySearch {
                    query: first_long_word_or(split_ws(st.today_ambition->0), "ambition"@),
                },
            ),
        ]
    } else {
        Seq::empty()
    };
    a_fold_out(st0, msgs) + boot + save + scan
}

impl Archimedes {
    /// Creates a new Archimedes agent.
    pub fn new(id: AgentId) -> (r: Archimedes)
        ensures
            r@ == (ArchimedesModel {
                id,
                state: AgentState::Initializing,
                character_id: crate::prompts::ARCHIMEDES_VOICE,
                today_ambition: None,
                commitments: Seq::empty(),
                workspace_folders: Seq::empty(),
                memory_scan_counter: 0,
                boot_memory_checked: false,
                ambition_saved: false,
            }),
    {
        let r = Archimedes {
            id,
            state: AgentState::Initializing,
            character_id: crate::prompts::ARCHIMEDES_VOICE,
            today_ambition: None,
            commitments: Vec::new(),
            workspace_folders: Vec::new(),
            memory_scan_counter: 0,
            boot_memory_checked: false,
            ambition_saved: false,
        };
        proof {
            assert(r@.commitments =~= Seq::<Seq<char>>::empty());
            assert(r@.workspace_folders =~= Seq::<Seq<char>>::empty());
        }
        r
    }

    /// Today's ambition, for rendering.
    pub fn get_ambition(&self) -> (r: Option<&String>)
        ensures
            match r {
                Some(a) => self@.today_ambition == Some(a@),
                None => self@.today_ambition is None,
            },
    {
        self.today_ambition.as_ref()
    }

    /// The parsed commitments, for rendering.
    pub fn get_commitments(&self) -> (r: &[String])
        ensures
            r.deep_view() == self@.commitments,
    {
        self.commitments.as_slice()
    }

    /// Replaces the commitments with those parsed from the content.
    fn parse_ambition(&mut self, content: &str)
        ensures
            final(self)@ == (ArchimedesModel {
                commitments: commitments_of(content@),
                ..old(self)@
            }),
    {
        let chars = crate::text::str_to_chars(content);
        let pieces = crate::codec::split_all(&chars, '\n');
        let ghost lines = pieces@.map_values(|p: Vec<char>| p@);
        let mut r: Vec<String> = Vec::new();
        let mut in_comm: bool = false;
        let mut p: usize = 0;
        proof {
            assert(lines.skip(0) =~= lines);
            assert(r.deep_view() + comm_scan(lines, false) =~= comm_scan(lines, false));
        }
        loop
            invariant
                lines == pieces@.map_values(|p2: Vec<char>| p2@),
                p <= lines.len(),
                r.deep_view() + comm_scan(lines.skip(p as int), in_comm) == comm_scan(
                    lines,
                    false,
                ),
            ensures
                r.deep_view() == comm_scan(lines, false),
            decreases lines.len() - p,
        {
            if p >= pieces.len() {
                proof {
                    assert(lines.skip(p as int).len() == 0);
                    assert(comm_scan(lines.skip(p as int), in_comm) =~= Seq::<Seq<char>>::empty());
                    assert(r.deep_view() + Seq::<Seq<char>>::empty() =~= r.deep_view());
                }
                break ;
            }
            let ghost l = lines[p as int];
            let ghost rest = lines.skip(p as int);
            proof {
                assert(pieces@[p as int]@ == l);
                assert(rest[0] == l);
                assert(rest.drop_first() =~= lines.skip(p + 1));
            }
            let heading = crate::text::chars_contain(&pieces[p], "Key Commitments")
                || crate::text::chars_contain(&pieces[p], "Commitments");
            if heading {
                in_comm = true;
                p = p + 1;
                continue ;
            }
            if in_comm && pieces[p].len() > 0 && pieces[p][0] == '#' {
                proof {
                    assert(starts_hash(l));
                    assert(comm_scan(rest, in_comm) =~= Seq::<Seq<char>>::empty());
                    assert(r.deep_view() + Seq::<Seq<char>>::empty() =~= r.deep_view());
                }
                break ;
            }
            if in_comm && pieces[p].len() > 0 && pieces[p][0] == '-' {
                // strip the leading dashes, then trim
                let mut d: usize = 0;
                let piece = &pieces[p];
                proof {
                    assert(l.skip(0) =~= l);
                }
                loop
                    invariant
                        piece@ == l,
                        d <= l.len(),
                        strip_dashes(l) == strip_dashes(l.skip(d as int)),
                    ensures
                        d <= l.len(),
                        strip_dashes(l) == l.skip(d as int),
                    decreases l.len() - d,
                {
                    if d >= piece.len() {
                        proof {
                            assert(l.skip(d as int).len() == 0);
                        }
                        break ;
                    }
                    if piece[d] != '-' {
                        proof {
                            assert(l.skip(d as int)[0] != '-');
                        }
                        break ;
                    }
                    proof {
                        assert(l.skip(d as int)[0] == '-');
                        assert(l.skip(d as int).drop_first() =~= l.skip(d + 1));
                    }
                    d = d + 1;
                }
                let stripped = crate::codec::subvec(piece, d, piece.len());
                proof {
                    assert(stripped@ =~= l.skip(d as int));
                }
                let trimmed = crate::codec::trim_chars(&stripped);
                let ghost before = r.deep_view();
                if trimmed.len() > 0 {
                    let s = crate::text::chars_to_string(&trimmed);
                    r.push(s);
                    proof {
                        assert(r.deep_view() =~= before.push(trimmed@));
                    }
                }
                proof {
                    let this = if starts_dash(l) {
                        let c = crate::codec::trim_seq(strip_dashes(l));
                        if c.len() > 0 {
                            seq![c]
                        } else {
                            Seq::<Seq<char>>::empty()
                        }
                    } else {
                        Seq::<Seq<char>>::empty()
                    };
                    assert(comm_scan(rest, in_comm) =~= this + comm_scan(lines.skip(p + 1), in_comm));
                    assert(r.deep_view() + comm_scan(lines.skip(p + 1), in_comm) =~= comm_scan(
                        lines,
                        false,
                    ));
                }
                p = p + 1;
                continue ;
            }
            proof {
                assert(!(in_comm && starts_dash(l)) && !(in_comm && starts_hash(l)));
                assert(comm_scan(rest, in_comm) =~= Seq::<Seq<char>>::empty() + comm_scan(
                    lines.skip(p + 1),
                    in_comm,
                ));
                assert(Seq::<Seq<char>>::empty() + comm_scan(lines.skip(p + 1), in_comm)
                    =~= comm_scan(lines.skip(p + 1), in_comm));
            }
            p = p + 1;
        }
        proof {
            assert(lines == crate::codec::split_char(content@, '\n'));
        }
        self.commitments = r;
    }

    /// Falls back to the default ambition and commitments; storage-backed
    /// ambition documents come in through `imprint`.
    fn load_today_ambition(&mut self)
        ensures
            final(self)@ == (ArchimedesModel {
                today_ambition: Some(default_ambition()),
                commitments: default_commitments(),
                ..old(self)@
            }),
    {
        self.today_ambition = Some(
            "Today, I want us to build something amazing together.".to_owned(),
        );
        let mut c: Vec<String> = Vec::new();
        c.push("YOU: Set clear goals".to_owned());
        c.push("AI: Support with tools and insights".to_owned());
        c.push("COLLAB: Work together".to_owned());
        self.commitments = c;
        proof {
            assert(self@.commitments =~= default_commitments());
        }
    }

    /// Records the four workspace folders as created.
    fn create_workspace_folders(&mut self)
        ensures
            final(self)@ == (ArchimedesModel {
                workspace_folders: old(self)@.workspace_folders + workspace_paths(),
                ..old(self)@
            }),
    {
        self.workspace_folders.push("/workspaces/today".to_owned());
        self.workspace_folders.push("/workspaces/today/focus".to_owned());
        self.workspace_folders.push("/workspaces/today/resources".to_owned());
        self.workspace_folders.push("/workspaces/today/output".to_owned());
        proof {
            assert(self@.workspace_folders =~= old(self)@.workspace_folders + workspace_paths());
        }
    }
}

fn text_workspace(n: u64) -> (r: String)
    ensures
        r@ == txt_workspace(n as nat),
{
    let mut s = "Workspace prepared with ".to_owned();
    let a = crate::text::u64_to_string(n);
    s.append(a.as_str());
    s.append(" folders");
    s
}

/// The first word of the text, or `"ambition"` when it has none.
fn first_word_of(text: &str) -> (r: String)
    ensures
        r@ == first_word_or(text@, "ambition"@),
{
    let words = crate::keywords::split_words(text);
    if words.len() > 0 {
        proof {
            assert(words.deep_view()[0] == words@[0]@);
        }
        words[0].clone()
    } else {
        "ambition".to_owned()
    }
}

/// The first word of at least four bytes, or `"ambition"`.
fn first_long_word_of(text: &str) -> (r: String)
    ensures
        r@ == first_long_word_or(split_ws(text@), "ambition"@),
{
    let words = crate::keywords::split_words(text);
    let ghost ws = split_ws(text@);
    let mut i: usize = 0;
    proof {
        assert(ws.skip(0) =~= ws);
    }
    while i < words.len()
        invariant
            ws == words.deep_view(),
            ws == split_ws(text@),
            i <= ws.len(),
            first_long_word_or(ws, "ambition"@) == first_long_word_or(
                ws.skip(i as int),
                "ambition"@,
            ),
        decreases ws.len() - i,
    {
        proof {
            assert(words@[i as int]@ == ws[i as int]);
            assert(ws.skip(i as int)[0] == ws[i as int]);
            assert(ws.skip(i as int).drop_first() =~= ws.skip(i + 1));
        }
        let wchars = crate::text::str_to_chars(words[i].as_str());
        if crate::keywords::meets_min_len(&wchars) {
            proof {
                assert(utf8_len(ws[i as int]) > 3);
                assert(first_long_word_or(ws.skip(i as int), "ambition"@) == ws[i as int]);
                assert(words@[i as int]@ == ws[i as int]);
            }
            return words[i].clone();
        }
        proof {
            assert(utf8_len(ws[i as int]) <= 3);
        }
        i = i + 1;
    }
    proof {
        assert(ws.skip(i as int).len() == 0);
    }
    "ambition".to_owned()
}

impl Agent for Archimedes {
    fn id(&self) -> (r: AgentId)
        ensures
            r == self@.id,
    {
        self.id
    }

    fn name(&self) -> (r: &'static str)
        ensures
            r@ == "Archimedes"@,
    {
        "Archimedes"
    }

    fn state(&self) -> (r: AgentState)
        ensures
            r == self@.state,
    {
        self.state
    }

    /// Takes the default ambition and reports ready.
    fn init(&mut self)
        ensures
            final(self)@ == (ArchimedesModel {
                state: AgentState::Ready,
                today_ambition: Some(default_ambition()),
                commitments: default_commitments(),
                ..old(self)@
            }),
    {
        self.state = AgentState::Initializing;
        self.load_today_ambition();
        self.state = AgentState::Ready;
    }

    /// Walks the inbox: organizes the workspace on environment setup,
    /// takes changed ambitions from heartbeats and searches memory for
    /// their first word, links paired memory results; then runs the
    /// one-time boot search, the one-time ambition save, and the periodic
    /// theme scan. The exact outbox is `a_tick_out`, the exact new state
    /// `a_tick_state`.
    fn tick(&mut self, ctx: &mut AgentContext) -> (r: AgentState)
        ensures
            final(self)@ == a_tick_state(old(self)@, old(ctx).inbox.deep_view()),
            final(ctx).inbox == old(ctx).inbox,
            final(ctx).tick == old(ctx).tick,
            final(ctx).outbox.deep_view() == old(ctx).outbox.deep_view() + a_tick_out(
                old(self)@,
                old(ctx).inbox.deep_view(),
            ),
            r == old(self)@.state,
    {
        let ghost st0 = self@;
        let ghost msgs = ctx.inbox.deep_view();
        let ghost out0 = ctx.outbox.deep_view();
        let n = ctx.inbox.len();
        let mut i: usize = 0;
        proof {
            assert(msgs.take(0).len() == 0);
            assert(a_fold(st0, msgs.take(0)) == st0);
            assert(a_fold_out(st0, msgs.take(0)).len() == 0);
            assert(ctx.outbox.deep_view() =~= out0 + a_fold_out(st0, msgs.take(0)));
        }
        while i < n
            invariant
                n == msgs.len(),
                msgs == ctx.inbox.deep_view(),
                ctx.inbox == old(ctx).inbox,
                ctx.tick == old(ctx).tick,
                i <= n,
                self@ == a_fold(st0, msgs.take(i as int)),
                ctx.outbox.deep_view() == out0 + a_fold_out(st0, msgs.take(i as int)),
                self@.id == st0.id,
                self@.state == st0.state,
            decreases n - i,
        {
            let ghost st_i = self@;
            let ghost m = msgs[i as int];
            proof {
                assert(ctx.inbox@[i as int].deep_view() == m);
            }
            self.receive(&ctx.inbox[i]);
            let ghost out_before = ctx.outbox.deep_view();
            // Organize the workspace on environment setup.
            if matches!(
                &ctx.inbox[i].kind,
                MessageKind::SystemEvent(crate::message::SystemEvent::EnvironmentSetup),
            ) {
                self.create_workspace_folders();
                let count = self.workspace_folders.len();
                proof {
                    assert(workspace_paths().len() == 4);
                    assert(self@.workspace_folders == st_i.workspace_folders + workspace_paths());
                    assert(self@.workspace_folders.len() == self.workspace_folders@.len());
                    assert(count as nat == st_i.workspace_folders.len() + workspace_paths().len());
                }
                let feedback = Message::new(
                    self.id,
                    None,
                    MessageKind::Feedback(
                        FeedbackType::Resource {
                            description: text_workspace(count as u64),
                            location: "/workspaces/today".to_owned(),
                        },
                    ),
                );
                ctx.outbox.push(feedback);
            }
            // Take a changed ambition from a heartbeat.
            if let MessageKind::Heartbeat(ref ambition) = &ctx.inbox[i].kind {
                let differs = match &self.today_ambition {
                    Some(cur) => !crate::text::str_eq_str(cur.as_str(), ambition.as_str()),
                    None => true,
                };
                if differs {
                    let text = ambition.clone();
                    self.today_ambition = Some(text.clone());
                    self.parse_ambition(text.as_str());
                    self.ambition_saved = false;
                    let search = Message::new(
                        self.id,
                        None,
                        MessageKind::MemorySearch { query: first_word_of(text.as_str()) },
                    );
                    ctx.outbox.push(search);
                }
            }
            // Link paired memory results.
            let pair: Option<(String, String)> = match &ctx.inbox[i].kind {
                MessageKind::MemoryResults { results } => {
                    if results.len() >= 2 {
                        proof {
                            assert(results.deep_view()[0] == (results@[0].0, results@[0].1@));
                            assert(results.deep_view()[1] == (results@[1].0, results@[1].1@));
                        }
                        Some((results[0].1.clone(), results[1].1.clone()))
                    } else {
                        None
                    }
                },
                _ => None,
            };
            if let Some((first, second)) = pair {
                let connection = Message::new(
                    self.id,
                    None,
                    MessageKind::Feedback(
                        FeedbackType::Connection {
                            from: first,
                            to: second,
                            pattern: "Archimedes found a link between past insights".to_owned(),
                        },
                    ),
                );
                ctx.outbox.push(connection);
            }
            proof {
                assert(self@ == a_step(st_i, m));
                assert(ctx.outbox.deep_view() =~= out_before + a_out(st_i, m));
                lemma_a_fold_step(st0, msgs, i as int);
                assert(ctx.outbox.deep_view() =~= out0 + a_fold_out(st0, msgs.take(i + 1)));
            }
            i = i + 1;
        }
        proof {
            assert(msgs.take(n as int) =~= msgs);
        }
        let ghost st = self@;
        let ghost base_out = ctx.outbox.deep_view();
        // One-time boot continuity search.
        if !self.boot_memory_checked {
            self.boot_memory_checked = true;
            let search = Message::new(
                self.id,
                None,
                MessageKind::MemorySearch { query: "ambition today accomplish".to_owned() },
            );
            ctx.outbox.push(search);
        }
        // One-time save of the current ambition.
        if !self.ambition_saved {
            let ambition: Option<String> = match &self.today_ambition {
                Some(a) => Some(a.clone()),
                None => None,
            };
            if let Some(a) = ambition {
                self.ambition_saved = true;
                let mut content = "Ambition: ".to_owned();
                content.append(a.as_str());
                let store = Message::new(
                    self.id,
                    None,
                    MessageKind::MemoryStore { content, kind: "observation".to_owned() },
                );
                ctx.outbox.push(store);
            }
        }
        // Periodic theme scan.
        self.memory_scan_counter = crate::thomas::sat_inc_pub(self.memory_scan_counter);
        if self.memory_scan_counter >= 2000 {
            self.memory_scan_counter = 0;
            let ambition: Option<String> = match &self.today_ambition {
                Some(a) => Some(a.clone()),
                None => None,
            };
            if let Some(a) = ambition {
                let search = Message::new(
                    self.id,
                    None,
                    MessageKind::MemorySearch { query: first_long_word_of(a.as_str()) },
                );
                ctx.outbox.push(search);
            }
        }
        proof {
            assert(self@ == a_tick_state(st0, msgs));
            let boot: Seq<MessageModel> = if !st.boot_memory_checked {
                seq![
                    Message::fresh_model(
                        st.id,
                        None,
                        KindModel::MemorySearch { query: "ambition today accomplish"@ },
                    ),
                ]
            } else {
                Seq::empty()
            };
            let save: Seq<MessageModel> = if !st.ambition_saved && st.today_ambition is Some {
                seq![
                    Message::fresh_model(
                        st.id,
                        None,
                        KindModel::MemoryStore {
                            content: "Ambition: "@ + st.today_ambition->0,
                            kind: "observation"@,
                        },
                    ),
                ]
            } else {
                Seq::empty()
            };
            let c = sat_inc(st.memory_scan_counter);
            let scan: Seq<MessageModel> = if c >= 2000 && st.today_ambition is Some {
                seq![
                    Message::fresh_model(
                        st.id,
                        None,
                        KindModel::MemorySearch {
                            query: first_long_word_or(split_ws(st.today_ambition->0), "ambition"@),
                        },
                    ),
                ]
            } else {
                Seq::empty()
            };
            assert(ctx.outbox.deep_view() =~= base_out + boot + save + scan);
            assert(a_tick_out(st0, msgs) =~= a_fold_out(st0, msgs) + boot + save + scan);
            assert(ctx.outbox.deep_view() =~= out0 + a_tick_out(st0, msgs));
        }
        self.state
    }

    /// Archimedes only listens; his reactions happen in `tick`.
    fn receive(&mut self, msg: &Message)
        ensures
            final(self)@ == old(self)@,
    {
    }

    fn shutdown(&mut self)
        ensures
            final(self)@ == (ArchimedesModel { state: AgentState::ShuttingDown, ..old(self)@ }),
    {
        self.state = AgentState::ShuttingDown;
    }

    /// Names the day's ambition, or the wish to co-create one.
    fn daily_ambition(&mut self) -> (r: Vec<String>)
        ensures
            final(self)@ == old(self)@,
            r.deep_view().len() == 1,
            old(self)@.today_ambition matches Some(a) ==> r.deep_view()[0] == a,
    {
        let mut r: Vec<String> = Vec::new();
        match &self.today_ambition {
            Some(a) => {
                r.push(a.clone());
            },
            None => {
                r.push("Co-create today's ambition with human partner".to_owned());
            },
        }
        r
    }

    /// Reports what has been organized so far.
    fn checkpoint(&self) -> (r: Vec<String>)
        ensures
            r.deep_view().len() == 3,
    {
        let mut r: Vec<String> = Vec::new();
        let loaded: &str = match &self.today_ambition {
            Some(_) => "Yes",
            None => "No",
        };
        let mut a = "Ambition loaded: ".to_owned();
        a.append(loaded);
        r.push(a);
        let mut b = "Workspace folders: ".to_owned();
        let s1 = crate::text::u64_to_string(self.workspace_folders.len() as u64);
        b.append(s1.as_str());
        r.push(b);
        let mut c = "Commitments: ".to_owned();
        let s2 = crate::text::u64_to_string(self.commitments.len() as u64);
        c.append(s2.as_str());
        r.push(c);
        r
    }

    /// Summarizes the day.
    fn eod_report(&self) -> (r: Vec<String>)
        ensures
            r.deep_view().len() == 3,
    {
        let mut r: Vec<String> = Vec::new();
        let mut a = "Today's ambition: ".to_owned();
        match &self.today_ambition {
            Some(t) => a.append(t.as_str()),
            None => a.append("Not set"),
        }
        r.push(a);
        let mut b = "Workspace organized: ".to_owned();
        let s1 = crate::text::u64_to_string(self.workspace_folders.len() as u64);
        b.append(s1.as_str());
        b.append(" folders");
        r.push(b);
        let mut c = "Commitments tracked: ".to_owned();
        let s2 = crate::text::u64_to_string(self.commitments.len() as u64);
        c.append(s2.as_str());
        r.push(c);
        r
    }

    /// Archimedes reflects in silence; the state stays.
    fn reflect(&mut self)
        ensures
            final(self)@ == old(self)@,
    {
    }

    fn max_write_tier(&self) -> (r: ProtectionTier)
        ensures
            r == ProtectionTier::Playground,
    {
        ProtectionTier::Playground
    }

    fn journal_entry(&self, tick: u64) -> (r: Option<String>)
        ensures
            r is None,
    {
        None
    }

    /// Takes the shared ambition and parses its commitments.
    fn imprint(&mut self, ambition: &str)
        ensures
            final(self)@ == (ArchimedesModel {
                today_ambition: Some(ambition@),
                commitments: commitments_of(ambition@),
                ..old(self)@
            }),
    {
        self.today_ambition = Some(ambition.to_owned());
        self.parse_ambition(ambition);
    }

    /// Archimedes co-creates ambitions with the human partner.
    fn clarify_role(&mut self) -> (r: &'static str)
        ensures
            final(self)@ == old(self)@,
            r@ == "Co-Creator"@,
    {
        "Co-Creator"
    }

    /// Lays out the workspace, loading the default ambition first when
    /// none is set.
    fn handle_environment_setup(&mut self, ctx: &mut AgentContext)
        ensures
            final(self)@ == (ArchimedesModel {
                today_ambition: if old(self)@.today_ambition is Some {
                    old(self)@.today_ambition
                } else {
                    Some(default_ambition())
                },
                commitments: if old(self)@.today_ambition is Some {
                    old(self)@.commitments
                } else {
                    default_commitments()
                },
                workspace_folders: old(self)@.workspace_folders + workspace_paths(),
                ..old(self)@
            }),
            final(ctx).inbox == old(ctx).inbox,
            final(ctx).outbox == old(ctx).outbox,
            final(ctx).tick == old(ctx).tick,
    {
        let need_default = matches!(&self.today_ambition, Option::None);
        if need_default {
            self.load_today_ambition();
        }
        self.create_workspace_folders();
    }
}

/// One more message folded into the walk.
proof fn lemma_a_fold_step(st0: ArchimedesModel, msgs: Seq<MessageModel>, i: int)
    requires
        0 <= i < msgs.len(),
    ensures
        a_fold(st0, msgs.take(i + 1)) == a_step(a_fold(st0, msgs.take(i)), msgs[i]),
        a_fold_out(st0, msgs.take(i + 1)) == a_fold_out(st0, msgs.take(i)) + a_out(
            a_fold(st0, msgs.take(i)),
            msgs[i],
        ),
    decreases i,
{
    if i == 0 {
        assert(msgs.take(1)[0] == msgs[0]);
        assert(msgs.take(1).drop_first() =~= msgs.take(0));
        assert(a_fold(a_step(st0, msgs[0]), msgs.take(0)) == a_step(st0, msgs[0]));
        assert(a_fold_out(a_step(st0, msgs[0]), msgs.take(0)).len() == 0);
        assert(a_fold_out(st0, msgs.take(1)) =~= a_fold_out(st0, msgs.take(0)) + a_out(
            st0,
            msgs[0],
        ));
    } else {
        lemma_a_fold_step(a_step(st0, msgs[0]), msgs.drop_first(), i - 1);
        assert(msgs.take(i + 1)[0] == msgs[0]);
        assert(msgs.take(i + 1).drop_first() =~= msgs.drop_first().take(i));
        assert(msgs.take(i)[0] == msgs[0]);
        assert(msgs.take(i).drop_first() =~= msgs.drop_first().take(i - 1));
        assert(msgs.drop_first()[i - 1] == msgs[i]);
        assert(a_fold_out(st0, msgs.take(i + 1)) =~= a_out(st0, msgs[0]) + a_fold_out(
            a_step(st0, msgs[0]),
            msgs.drop_first().take(i),
        ));
        assert(a_out(st0, msgs[0]) + (a_fold_out(
            a_step(st0, msgs[0]),
            msgs.drop_first().take(i - 1),
        ) + a_out(a_fold(st0, msgs.take(i)), msgs[i])) =~= (a_out(st0, msgs[0]) + a_fold_out(
            a_step(st0, msgs[0]),
            msgs.drop_first().take(i - 1),
        )) + a_out(a_fold(st0, msgs.take(i)), msgs[i]));
    }
}

} // verus!
