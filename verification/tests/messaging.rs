use genesis_core::agent::AgentId;
use genesis_core::message::{Message, MessageKind, Priority};
use genesis_core::supervisor::{AgentKind, Supervisor};
use genesis_core::thomas::Thomas;
use genesis_core::archimedes::Archimedes;

fn thomas_at(s: &Supervisor, j: usize) -> &Thomas {
    match s.agent_at(j) {
        AgentKind::Thomas(t) => t,
        _ => panic!("expected a Thomas agent"),
    }
}

#[test]
fn message_constructors_set_fields() {
    let ping = Message::ping(AgentId(1), AgentId(2));
    assert_eq!(ping.from, AgentId(1));
    assert_eq!(ping.to, Some(AgentId(2)));
    assert!(matches!(ping.kind, MessageKind::Ping));
    assert_eq!(ping.priority, Priority::Normal);

    let pong = Message::pong(AgentId(2), AgentId(1));
    assert!(matches!(pong.kind, MessageKind::Pong));
    assert_eq!(pong.to, Some(AgentId(1)));

    let urgent = Message::urgent(AgentId(1), None, MessageKind::Text("hurry".to_string()));
    assert_eq!(urgent.priority, Priority::High);

    let b = Message::broadcast(AgentId(0), MessageKind::Ping);
    assert_eq!(b.to, None);
}

#[test]
fn registration_announces_first_breath() {
    let mut s = Supervisor::new();
    let id = s.next_id();
    s.register(AgentKind::Thomas(Thomas::new(id)));
    assert_eq!(s.agent_count(), 1);
    // the first-breath broadcast waits in the queue for the next tick
    assert_eq!(s.queue_len(), 1);
}

#[test]
fn ping_round_trip_takes_two_hops_and_two_ticks() {
    let mut s = Supervisor::new();
    let a = s.next_id();
    s.register(AgentKind::Thomas(Thomas::new(a)));
    let b = s.next_id();
    s.register(AgentKind::Thomas(Thomas::new(b)));
    // absorb the two first-breath broadcasts
    s.tick();
    s.tick();
    let seen_a0 = thomas_at(&s, 0).messages_seen();
    let seen_b0 = thomas_at(&s, 1).messages_seen();

    // a ping broadcast from agent b enters the queue during tick N
    s.send(Message::broadcast(b, MessageKind::Ping));
    assert_eq!(thomas_at(&s, 0).pings_answered(), 0);

    // tick N+1: both agents receive the ping and each sends a pong to b
    s.tick();
    assert_eq!(thomas_at(&s, 0).pings_answered(), 1);
    assert_eq!(thomas_at(&s, 1).pings_answered(), 1);
    assert_eq!(thomas_at(&s, 0).messages_seen(), seen_a0 + 1);
    assert_eq!(thomas_at(&s, 1).messages_seen(), seen_b0 + 1);

    // tick N+2: only b's inbox holds the two pongs
    s.tick();
    assert_eq!(thomas_at(&s, 0).messages_seen(), seen_a0 + 1);
    assert_eq!(thomas_at(&s, 1).messages_seen(), seen_b0 + 3);
}

#[test]
fn broadcast_reaches_every_agent_next_tick() {
    let mut s = Supervisor::new();
    let a = s.next_id();
    s.register(AgentKind::Thomas(Thomas::new(a)));
    let b = s.next_id();
    s.register(AgentKind::Thomas(Thomas::new(b)));
    s.tick();
    s.tick();
    let seen_a = thomas_at(&s, 0).messages_seen();
    let seen_b = thomas_at(&s, 1).messages_seen();
    s.broadcast(MessageKind::Text("hello all".to_string()));
    // not delivered within the sending tick's queue state
    assert_eq!(thomas_at(&s, 0).messages_seen(), seen_a);
    s.tick();
    // delivered exactly once to each agent
    assert_eq!(thomas_at(&s, 0).messages_seen(), seen_a + 1);
    assert_eq!(thomas_at(&s, 1).messages_seen(), seen_b + 1);
}

#[test]
fn memory_protocol_is_intercepted_and_answered() {
    let mut s = Supervisor::new();
    let a = s.next_id();
    s.register(AgentKind::Thomas(Thomas::new(a)));
    s.tick();
    // agent a asks the supervisor to store a memory
    s.send(Message::new(
        a,
        None,
        MessageKind::MemoryStore {
            content: "build the rocket ship".to_string(),
            kind: "observation".to_string(),
        },
    ));
    let seen0 = thomas_at(&s, 0).messages_seen();
    s.tick();
    // the entry exists, with the exact content
    let mem = s.memory_store();
    let entry = mem.peek(1).expect("the stored entry should exist");
    assert_eq!(entry.content, "build the rocket ship");
    assert_eq!(entry.source, "agent-1");
    // the reply waits in the queue and reaches the agent next tick
    s.tick();
    assert_eq!(thomas_at(&s, 0).messages_seen(), seen0 + 1);
}

#[test]
fn memory_search_replies_with_previews() {
    let mut s = Supervisor::new();
    let a = s.next_id();
    s.register(AgentKind::Thomas(Thomas::new(a)));
    s.tick();
    s.send(Message::new(
        a,
        None,
        MessageKind::MemoryStore {
            content: "navigation charts ready".to_string(),
            kind: "resource".to_string(),
        },
    ));
    s.tick();
    s.send(Message::new(
        a,
        None,
        MessageKind::MemorySearch { query: "navigation charts".to_string() },
    ));
    s.tick();
    // the search recalled the entry, strengthening it
    assert_eq!(s.memory_store().peek(1).unwrap().access_count, 1);
}

#[test]
fn breathe_imprints_agents_and_pulses() {
    let mut s = Supervisor::new();
    let a = s.next_id();
    s.register(AgentKind::Thomas(Thomas::new(a)));
    let b = s.next_id();
    s.register(AgentKind::Archimedes(Archimedes::new(b)));
    s.tick();
    let queued_before = s.queue_len();
    s.breathe("explore the unknown together".to_string());
    assert_eq!(s.get_ambition().unwrap(), "explore the unknown together");
    // the heartbeat waits in the queue
    assert_eq!(s.queue_len(), queued_before + 1);
    match s.agent_at(1) {
        AgentKind::Archimedes(ar) => {
            assert_eq!(ar.get_ambition().unwrap(), "explore the unknown together");
        },
        _ => panic!("expected Archimedes"),
    }
}

#[test]
fn feedback_joins_constellation_and_memory() {
    let mut s = Supervisor::new();
    let a = s.next_id();
    s.register(AgentKind::Thomas(Thomas::new(a)));
    s.tick();
    s.send(Message::new(
        a,
        None,
        MessageKind::Feedback(genesis_core::message::FeedbackType::Spark {
            content: "sparks travel far".to_string(),
            context: "testing grounds".to_string(),
        }),
    ));
    s.tick();
    assert_eq!(s.get_insights().len(), 1);
    let entry = s.memory_store().peek(1).expect("feedback should be archived");
    assert_eq!(entry.content, "sparks travel far (context: testing grounds)");
    assert_eq!(entry.source, "agent-1");
}

#[test]
fn ticks_count_upward() {
    let mut s = Supervisor::new();
    assert_eq!(s.current_tick(), 0);
    s.tick();
    s.tick();
    assert_eq!(s.current_tick(), 2);
}

#[test]
fn serendipity_links_shared_themes() {
    let mut s = Supervisor::new();
    let a = s.next_id();
    s.register(AgentKind::Thomas(Thomas::new(a)));
    s.send(Message::new(
        a,
        None,
        MessageKind::MemoryStore {
            content: "gravity assists save fuel".to_string(),
            kind: "observation".to_string(),
        },
    ));
    s.send(Message::new(
        a,
        None,
        MessageKind::MemoryStore {
            content: "gravity wells shape orbits".to_string(),
            kind: "observation".to_string(),
        },
    ));
    // run up to the serendipity scan and one tick beyond it
    for _ in 0..501 {
        s.tick();
    }
    // the scan found the shared theme and broadcast a connection, which
    // the next tick archived into the constellation
    let insights = s.get_insights();
    assert!(insights.iter().any(|f| matches!(
        f,
        genesis_core::message::FeedbackType::Connection { pattern, .. }
            if pattern.contains("gravity")
    )));
}
