use crewai::drivers::markov_barrier::xor_distance;
use crewai::drivers::spo::{
    build_spo_context, entity_hash, extract_topic, extract_triples, infer_triples,
    ConversationPredicate, SpoTriple, CONFIDENCE_FEELING, CONFIDENCE_MODE, CONFIDENCE_OBSERVED,
    CONFIDENCE_TENSION, FLAG_TEMPORAL,
};

#[test]
fn test_xor_distance_fn() {
    let a = [0u64; 256];
    let mut b = [0u64; 256];
    b[0] = 0xFF;
    b[1] = 0x0F;
    assert_eq!(xor_distance(&a, &b), 12);
}

#[test]
fn test_entity_hash_deterministic() {
    let h1 = entity_hash("user");
    let h2 = entity_hash("user");
    assert_eq!(h1, h2);

    let h3 = entity_hash("ada");
    assert_ne!(h1, h3);
}

#[test]
fn test_entity_hash_distribution() {
    let entities = ["user", "ada", "wife", "work", "agi", "architecture", "love"];
    let hashes: Vec<u32> = entities.iter().map(|e| entity_hash(e)).collect();
    for i in 0..hashes.len() {
        for j in (i + 1)..hashes.len() {
            assert_ne!(hashes[i], hashes[j], "Hash collision: {} and {}", entities[i], entities[j]);
        }
    }
}

#[test]
fn test_predicate_roundtrip() {
    for pred in &[
        ConversationPredicate::Asks,
        ConversationPredicate::Explains,
        ConversationPredicate::Remembers,
        ConversationPredicate::Contradicts,
        ConversationPredicate::RelatesTo,
        ConversationPredicate::ModeSwitch,
        ConversationPredicate::FeelsAbout,
        ConversationPredicate::References,
    ] {
        let h = pred.hash();
        let recovered = ConversationPredicate::from_hash(h).unwrap();
        assert_eq!(*pred, recovered);
    }
}

#[test]
fn test_extract_triples_basic() {
    let triples = extract_triples(
        "Tell me about the architecture design",
        "The architecture uses a layered approach...",
        "session-1",
        "work",
        &["THOUGHT".to_string()],
        &[],
    );

    assert!(triples.len() >= 3, "Expected >= 3 triples, got {}", triples.len());

    let asks_count = triples
        .iter()
        .filter(|t| t.predicate_hash == ConversationPredicate::Asks.hash())
        .count();
    assert_eq!(asks_count, 1);

    let mode_triple = triples
        .iter()
        .find(|t| t.predicate_hash == ConversationPredicate::ModeSwitch.hash());
    assert!(mode_triple.is_some());
    assert!(mode_triple.unwrap().is_temporal());
}

#[test]
fn test_extract_triples_with_tension() {
    let triples = extract_triples(
        "I feel warm today",
        "",
        "session-1",
        "hybrid",
        &[],
        &["warm_cool".to_string(), "intimate_formal".to_string()],
    );

    let contradicts_count = triples
        .iter()
        .filter(|t| t.predicate_hash == ConversationPredicate::Contradicts.hash())
        .count();
    assert_eq!(contradicts_count, 2);

    for t in triples
        .iter()
        .filter(|t| t.predicate_hash == ConversationPredicate::Contradicts.hash())
    {
        assert!(t.is_inferred());
    }
}

#[test]
fn test_extract_triples_hybrid_mode_no_mode_triple() {
    let triples = extract_triples("hello", "hi there", "session-1", "hybrid", &[], &[]);

    let mode_count = triples
        .iter()
        .filter(|t| t.predicate_hash == ConversationPredicate::ModeSwitch.hash())
        .count();
    assert_eq!(mode_count, 0);
}

#[test]
fn test_infer_triples_deduction() {
    let user_dn = entity_hash("user");
    let ada_dn = entity_hash("ada");
    let topic_dn = entity_hash("architecture");

    let triples = vec![
        SpoTriple::from_q8(user_dn, ConversationPredicate::Asks.hash(), topic_dn, CONFIDENCE_OBSERVED),
        SpoTriple::from_q8(ada_dn, ConversationPredicate::Explains.hash(), topic_dn, CONFIDENCE_MODE),
    ];

    let inferred = infer_triples(&triples);
    assert_eq!(inferred.len(), 1);
    assert_eq!(inferred[0].predicate_hash, ConversationPredicate::RelatesTo.hash());
    assert!(inferred[0].is_inferred());
}

#[test]
fn test_infer_triples_abduction() {
    let session_dn = entity_hash("session-1");
    let axis_dn = entity_hash("warm_cool");
    let mode_dn = entity_hash("wife");

    let triples = vec![
        SpoTriple::inferred_q8(session_dn, ConversationPredicate::Contradicts.hash(), axis_dn, CONFIDENCE_FEELING),
        {
            let mut t = SpoTriple::from_q8(session_dn, ConversationPredicate::ModeSwitch.hash(), mode_dn, CONFIDENCE_MODE);
            t.flags |= FLAG_TEMPORAL;
            t
        },
    ];

    let inferred = infer_triples(&triples);
    assert!(!inferred.is_empty());
    let cause = &inferred[0];
    assert_eq!(cause.subject_dn, mode_dn);
    assert_eq!(cause.object_dn, axis_dn);
    assert!(cause.is_inferred());
}

#[test]
fn test_build_spo_context() {
    let triples = vec![SpoTriple::from_q8(
        entity_hash("user"),
        ConversationPredicate::Asks.hash(),
        entity_hash("architecture"),
        CONFIDENCE_OBSERVED,
    )];

    let ctx = build_spo_context(&triples).unwrap();
    assert!(ctx.contains("asks"));
    assert!(ctx.contains("SPO"));
}

#[test]
fn test_build_spo_context_empty() {
    assert!(build_spo_context(&[]).is_none());
}

#[test]
fn test_topic_extraction() {
    let topic = extract_topic("Tell me about the architecture design patterns");
    assert!(!topic.is_empty());
    assert_ne!(topic, "unknown");
}

#[test]
fn test_topic_extraction_minimal() {
    let topic = extract_topic("hi");
    assert_eq!(topic, "unknown");
}

#[test]
fn test_spo_triple_creation() {
    let t = SpoTriple::from_q8(100, 0x0001, 200, CONFIDENCE_OBSERVED);
    assert_eq!(t.subject_dn, 100);
    assert_eq!(t.predicate_hash, 0x0001);
    assert_eq!(t.object_dn, 200);
    assert_eq!(t.confidence_q8, 204);
    assert!(!t.is_negated());
    assert!(!t.is_inferred());
}

#[test]
fn test_spo_triple_inferred() {
    let t = SpoTriple::inferred_q8(100, 0x0002, 200, CONFIDENCE_TENSION);
    assert!(t.is_inferred());
    assert!(!t.is_negated());
}
