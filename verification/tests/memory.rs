use genesis_core::memory_store::{MemoryKind, MemoryStore};

fn ids_of(results: &Vec<(u64, u32)>) -> Vec<u64> {
    results.iter().map(|p| p.0).collect()
}

#[test]
fn store_returns_monotonic_ids() {
    let mut m = MemoryStore::new(3);
    let a = m.store("alpha insight", MemoryKind::Spark, "shell");
    let b = m.store("beta insight", MemoryKind::Spark, "shell");
    let c = m.store("gamma insight", MemoryKind::Spark, "shell");
    let d = m.store("delta insight", MemoryKind::Spark, "shell");
    assert!(a < b && b < c && c < d);
    assert_eq!(a, 1);
    assert_eq!(d, 4);
}

#[test]
fn capacity_evicts_oldest_by_id() {
    let mut m = MemoryStore::new(2);
    let a = m.store("first entry text", MemoryKind::Observation, "shell");
    let b = m.store("second entry text", MemoryKind::Observation, "shell");
    let c = m.store("third entry text", MemoryKind::Observation, "shell");
    assert_eq!(m.entry_count(), 2);
    assert!(m.peek(a).is_none());
    assert!(m.peek(b).is_some());
    assert!(m.peek(c).is_some());
}

#[test]
fn eviction_prunes_the_index() {
    let mut m = MemoryStore::new(1);
    m.store("unique keyword zebra", MemoryKind::Observation, "shell");
    m.store("different topic entirely", MemoryKind::Observation, "shell");
    // the first entry left, and its keywords left the index with it
    let hits = m.search("zebra");
    assert!(hits.is_empty());
    let hits = m.search("topic");
    assert_eq!(ids_of(&hits), vec![2]);
}

#[test]
fn keyword_extraction_filters_short_and_stop_words() {
    let mut m = MemoryStore::new(10);
    let id = m.store("The cat is from WONDERFUL land", MemoryKind::Observation, "shell");
    let e = m.peek(id).unwrap();
    // "The"/"is"/"from" are stop words or short; "cat" is short; the rest fold to lower case
    let kws: Vec<&str> = e.keywords.iter().map(|s| s.as_str()).collect();
    assert_eq!(kws, vec!["wonderful", "land"]);
}

#[test]
fn keyword_extraction_keeps_duplicates_and_strips_edges() {
    let mut m = MemoryStore::new(10);
    let id = m.store("rocket, rocket! (ship)", MemoryKind::Observation, "shell");
    let e = m.peek(id).unwrap();
    let kws: Vec<&str> = e.keywords.iter().map(|s| s.as_str()).collect();
    assert_eq!(kws, vec!["rocket", "rocket", "ship"]);
}

#[test]
fn search_ranks_higher_term_frequency_first() {
    let mut m = MemoryStore::new(10);
    let one = m.store("alpha beta", MemoryKind::Observation, "shell");
    let two = m.store("alpha alpha gamma", MemoryKind::Observation, "shell");
    let hits = m.search("alpha");
    assert_eq!(hits.len(), 2);
    // entry two holds the term twice, so it ranks at least as high
    assert_eq!(hits[0].0, two);
    assert_eq!(hits[1].0, one);
    assert!(hits[0].1 >= hits[1].1);
    // only entries holding at least one matched term are returned
    let none = m.search("delta");
    assert!(none.is_empty());
}

#[test]
fn search_breaks_ties_by_ascending_id() {
    let mut m = MemoryStore::new(10);
    let one = m.store("omega point", MemoryKind::Observation, "shell");
    let two = m.store("omega point", MemoryKind::Observation, "shell");
    let hits = m.search("omega");
    assert_eq!(ids_of(&hits), vec![one, two]);
}

#[test]
fn get_bumps_access_count_once_per_call() {
    let mut m = MemoryStore::new(10);
    let id = m.store("memorable insight", MemoryKind::Spark, "shell");
    assert_eq!(m.peek(id).unwrap().access_count, 0);
    m.get(id);
    assert_eq!(m.peek(id).unwrap().access_count, 1);
    m.get(id);
    assert_eq!(m.peek(id).unwrap().access_count, 2);
}

#[test]
fn reads_leave_access_counts_alone() {
    let mut m = MemoryStore::new(10);
    let id = m.store("quiet reading matters", MemoryKind::Spark, "shell");
    m.peek(id);
    m.peek(id);
    let _ = m.search("quiet reading");
    let _ = m.recent(5);
    assert_eq!(m.peek(id).unwrap().access_count, 0);
}

#[test]
fn access_count_boosts_ranking() {
    let mut m = MemoryStore::new(10);
    let one = m.store("shared theme", MemoryKind::Observation, "shell");
    let two = m.store("shared theme", MemoryKind::Observation, "shell");
    // recall the younger entry to strengthen it past the tie
    m.get(two);
    let hits = m.search("shared");
    assert_eq!(hits[0].0, two);
    assert!(hits[0].1 > hits[1].1);
    let _ = one;
}

#[test]
fn recent_returns_newest_first() {
    let mut m = MemoryStore::new(10);
    m.store("oldest entry", MemoryKind::Observation, "shell");
    m.store("middle entry", MemoryKind::Observation, "shell");
    m.store("newest entry", MemoryKind::Observation, "shell");
    let r = m.recent(2);
    assert_eq!(r.len(), 2);
    assert_eq!(r[0].id, 3);
    assert_eq!(r[1].id, 2);
}

#[test]
fn serialization_format_is_pipe_delimited() {
    let mut m = MemoryStore::new(10);
    m.store_with_timestamp("simple content here", MemoryKind::Spark, "shell", 7);
    let text = m.serialize();
    assert_eq!(text, "1|spark|shell|7|0|simple content here|simple,content,here\n");
}

#[test]
fn round_trip_preserves_entries() {
    let mut m = MemoryStore::new(10);
    m.store_with_timestamp("plain words survive", MemoryKind::Spark, "shell", 3);
    m.store_with_timestamp("piped | content \\ here", MemoryKind::Resource, "agent-1", 5);
    m.store_with_timestamp("line\nbreak and\rreturn", MemoryKind::Feeling, "agent-2", 9);
    let text = m.serialize();
    let mut n = MemoryStore::new(10);
    n.deserialize(text.as_str());
    assert_eq!(n.entry_count(), 3);
    for id in 1..=3u64 {
        let a = m.peek(id).unwrap();
        let b = n.peek(id).unwrap();
        assert_eq!(a.id, b.id);
        assert_eq!(a.content, b.content);
        assert_eq!(a.kind, b.kind);
        assert_eq!(a.source, b.source);
        assert_eq!(a.keywords, b.keywords);
        assert_eq!(a.timestamp, b.timestamp);
        assert_eq!(a.access_count, b.access_count);
    }
    // and search answers alike on both stores
    assert_eq!(m.search("piped content"), n.search("piped content"));
    // the id counter continues past the largest loaded id
    let next = n.store("a fresh entry arrives", MemoryKind::Observation, "shell");
    assert_eq!(next, 4);
}

#[test]
fn round_trip_preserves_search_results() {
    let mut m = MemoryStore::new(10);
    m.store("alpha beta", MemoryKind::Observation, "shell");
    m.store("alpha alpha gamma", MemoryKind::Observation, "shell");
    let text = m.serialize();
    let mut n = MemoryStore::new(10);
    n.deserialize(text.as_str());
    assert_eq!(m.search("alpha"), n.search("alpha"));
    assert_eq!(m.search("beta gamma"), n.search("beta gamma"));
}

#[test]
fn deserialize_skips_malformed_lines() {
    let mut m = MemoryStore::new(10);
    let data = "1|spark|shell|0|0|good content line|good,content,line\n\
                not enough fields\n\
                oops|spark|shell|0|0|bad id|keywords\n\
                3|nonsense|shell|0|0|bad kind|keywords\n\
                4|resource|shell|2|1|another good line|another,good,line\n";
    m.deserialize(data);
    assert_eq!(m.entry_count(), 2);
    assert!(m.peek(1).is_some());
    assert!(m.peek(4).is_some());
    assert_eq!(m.peek(4).unwrap().access_count, 1);
}

#[test]
fn deserialize_replaces_existing_contents() {
    let mut m = MemoryStore::new(10);
    m.store("stale entry to vanish", MemoryKind::Observation, "shell");
    m.deserialize("7|spark|shell|0|0|loaded entry|loaded,entry\n");
    assert_eq!(m.entry_count(), 1);
    assert!(m.peek(1).is_none());
    assert!(m.peek(7).is_some());
    let next = m.store("after the reload", MemoryKind::Observation, "shell");
    assert_eq!(next, 8);
}

#[test]
fn deserialize_enforces_capacity() {
    let mut m = MemoryStore::new(2);
    let data = "1|spark|shell|0|0|one|one\n2|spark|shell|0|0|two|two\n3|spark|shell|0|0|three|three\n";
    m.deserialize(data);
    assert_eq!(m.entry_count(), 2);
    assert!(m.peek(1).is_none());
    assert!(m.peek(2).is_some());
    assert!(m.peek(3).is_some());
}

#[test]
fn kind_tags_round_trip() {
    for k in [
        MemoryKind::Spark,
        MemoryKind::Connection,
        MemoryKind::Resource,
        MemoryKind::Feeling,
        MemoryKind::Observation,
    ] {
        assert_eq!(MemoryKind::from_str(k.as_str()), Some(k));
    }
    assert_eq!(MemoryKind::from_str("unheard-of"), None);
}

#[test]
fn stats_counts_and_ranks_keywords() {
    let mut m = MemoryStore::new(10);
    m.store("comet tails glow", MemoryKind::Observation, "shell");
    m.store("comet orbits wander", MemoryKind::Observation, "shell");
    m.store("comet dust lingers", MemoryKind::Observation, "shell");
    m.store("orbits decay slowly", MemoryKind::Observation, "shell");
    let s = m.stats();
    assert_eq!(s.entry_count, 4);
    // distinct keywords: comet, tails, glow, orbits, wander, dust,
    // lingers, decay, slowly
    assert_eq!(s.index_size, 9);
    assert_eq!(s.top_keywords[0], ("comet".to_string(), 3));
    assert_eq!(s.top_keywords[1], ("orbits".to_string(), 2));
    assert_eq!(s.top_keywords.len(), 9);
    assert!(s.estimated_bytes > 0);
}

#[test]
fn stats_reads_do_not_touch_access_counts() {
    let mut m = MemoryStore::new(10);
    let id = m.store("silent observation stands", MemoryKind::Observation, "shell");
    let _ = m.stats();
    let _ = m.stats();
    assert_eq!(m.peek(id).unwrap().access_count, 0);
}

#[test]
fn stats_caps_top_keywords_at_ten() {
    let mut m = MemoryStore::new(30);
    m.store(
        "alpha bravo charlie delta echoes foxtrot golfs hotels indigo juliet kilos lima",
        MemoryKind::Observation,
        "shell",
    );
    let s = m.stats();
    assert_eq!(s.top_keywords.len(), 10);
}
