use genesis_core::codec::{escape_str, split_all, split_limit, trim_chars, unescape_chars};
use genesis_core::keywords::{extract_keywords, split_words};
use genesis_core::prompts::{CertificationLevel, Prompt, PromptId, PromptMetrics, PromptRole};
use genesis_core::text::{parse_u64, str_to_chars, u64_to_string};

#[test]
fn decimal_rendering_and_parsing_invert() {
    for n in [0u64, 7, 10, 42, 1009, u64::MAX] {
        let s = u64_to_string(n);
        let parsed = parse_u64(&str_to_chars(s.as_str()));
        assert_eq!(parsed, Some(n));
    }
    assert_eq!(u64_to_string(1234), "1234");
    assert_eq!(parse_u64(&str_to_chars("")), None);
    assert_eq!(parse_u64(&str_to_chars("12x")), None);
    assert_eq!(parse_u64(&str_to_chars("18446744073709551616")), None);
}

#[test]
fn escaping_inverts_on_hostile_text() {
    for text in ["plain", "with|pipe", "back\\slash", "line\nfeed", "ret\rurn", "\\p tricky", "\\n deeper\\\\"] {
        let enc = escape_str(text);
        assert!(!enc.contains('|') && !enc.contains('\n') && !enc.contains('\r'));
        let dec = unescape_chars(&str_to_chars(enc.as_str()));
        assert_eq!(dec, text);
    }
    assert_eq!(escape_str("a|b"), "a\\pb");
}

#[test]
fn splitting_and_trimming_behave_like_the_format_needs() {
    let v = str_to_chars("a,b,,c");
    let pieces = split_all(&v, ',');
    let got: Vec<String> = pieces.iter().map(|p| p.iter().collect()).collect();
    assert_eq!(got, vec!["a", "b", "", "c"]);

    let line = str_to_chars("1|spark|s|0|0|content|k1,k2|extra");
    let parts = split_limit(&line, '|', 7);
    assert_eq!(parts.len(), 7);
    let tail: String = parts[6].iter().collect();
    assert_eq!(tail, "k1,k2|extra");

    let padded = str_to_chars("  \t hello \r\n");
    let trimmed: String = trim_chars(&padded).iter().collect();
    assert_eq!(trimmed, "hello");
}

#[test]
fn word_splitting_and_extraction() {
    let words = split_words("  the quick  brown\tfox ");
    let got: Vec<&str> = words.iter().map(|s| s.as_str()).collect();
    assert_eq!(got, vec!["the", "quick", "brown", "fox"]);

    let kws = extract_keywords("They will BUILD warp-drives (tomorrow)!");
    let got: Vec<&str> = kws.iter().map(|s| s.as_str()).collect();
    // "They" and "will" are stop words; the rest fold and keep dashes
    assert_eq!(got, vec!["build", "warp-drives", "tomorrow"]);
}

#[test]
fn prompt_versions_pack_and_evolve() {
    let id = PromptId::new(4, 1, 2, 3);
    assert_eq!(id.major_of(), 1);
    assert_eq!(id.minor_of(), 2);
    assert_eq!(id.patch_of(), 3);
    assert_eq!(id.version_string(), "1.2.3");

    let p = Prompt::new(4, "Thomas", PromptRole::Tester, "You verify the system.");
    assert!(p.is_active);
    assert_eq!(p.certification, CertificationLevel::Uncertified);
    let q = p.evolve("You verify the system, carefully.", true);
    assert_eq!(q.id.minor_of(), 1);
    assert_eq!(q.id.patch_of(), 0);
    assert!(!q.is_active);
    assert_eq!(q.parent_id, Some(p.id));
}

#[test]
fn prompt_metrics_average_correctly() {
    let mut m = PromptMetrics::new();
    m.record_success(10);
    m.record_success(20);
    m.record_failure();
    assert_eq!(m.invocations, 3);
    assert_eq!(m.success_rate(), 66);
    assert_eq!(m.avg_completion_time(), 15);
    m.record_satisfaction(4);
    m.record_satisfaction(5);
    assert_eq!(m.avg_satisfaction_x10(), 45);
}

#[test]
fn certification_ladder_is_ordered() {
    assert!(CertificationLevel::Rookie.rank() < CertificationLevel::Master.rank());
    assert_eq!(CertificationLevel::Certified.name(), "Certified");
}
