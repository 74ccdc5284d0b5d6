use varant::implicit::{generate_aliases, EntityDefinition, ImplicitCortex};
use varant::mention::{Mention, MentionMerger, MentionSource, Suggestion};

fn entity(id: &str, label: &str, kind: &str, aliases: Vec<&str>) -> EntityDefinition {
    EntityDefinition {
        id: id.to_string(),
        label: label.to_string(),
        kind: kind.to_string(),
        aliases: aliases.into_iter().map(|s| s.to_string()).collect(),
    }
}

// ----------------------------------------------------------------------------
// Implicit mentions
// ----------------------------------------------------------------------------

#[test]
fn test_hydrate_and_find_single_entity() {
    let mut cortex = ImplicitCortex::new();
    cortex.hydrate(vec![entity("char_001", "Frodo", "CHARACTER", vec![])]);
    cortex.build().unwrap();

    let mentions = cortex.find_mentions("Frodo went to the market");
    assert_eq!(mentions.len(), 1);
    assert_eq!(mentions[0].entity_id, "char_001");
    assert_eq!(mentions[0].entity_label, "Frodo");
    assert_eq!(mentions[0].start, 0);
    assert_eq!(mentions[0].end, 5);
}

#[test]
fn test_case_insensitive_matching() {
    let mut cortex = ImplicitCortex::new();
    cortex.hydrate(vec![entity("char_001", "Gandalf", "CHARACTER", vec![])]);
    cortex.build().unwrap();

    let mentions = cortex.find_mentions("GANDALF spoke to gandalf");
    assert_eq!(mentions.len(), 2);
}

#[test]
fn test_alias_matching() {
    let mut cortex = ImplicitCortex::new();
    cortex.hydrate(vec![entity("char_001", "Aragorn", "CHARACTER", vec!["Strider", "Elessar"])]);
    cortex.build().unwrap();

    let mentions = cortex.find_mentions("Strider is also known as Aragorn");
    assert_eq!(mentions.len(), 2);

    let alias_match = mentions.iter().find(|m| m.matched_text.to_lowercase() == "strider");
    assert!(alias_match.is_some());
    assert!(alias_match.unwrap().is_alias_match);
}

#[test]
fn test_overlapping_keeps_longer() {
    let mut cortex = ImplicitCortex::new();
    cortex.hydrate(vec![
        entity("loc_001", "New York", "LOCATION", vec![]),
        entity("loc_002", "York", "LOCATION", vec![]),
    ]);
    cortex.build().unwrap();

    let mentions = cortex.find_mentions("I visited New York yesterday");
    assert_eq!(mentions.len(), 1);
    assert_eq!(mentions[0].entity_id, "loc_001");
}

#[test]
fn test_smart_alias_luffy() {
    let mut cortex = ImplicitCortex::new();
    cortex.hydrate(vec![entity("char_001", "Monkey D. Luffy", "CHARACTER", vec![])]);
    cortex.build().unwrap();

    let mentions = cortex.find_mentions("Luffy defeated Kaido");
    assert_eq!(mentions.len(), 1);
    assert_eq!(mentions[0].entity_label, "Monkey D. Luffy");
    assert!(mentions[0].is_alias_match);
    assert!(mentions[0].confidence < 1000);
}

#[test]
fn test_faction_acronym() {
    let mut cortex = ImplicitCortex::new();
    cortex.hydrate(vec![entity("fac_001", "Straw Hat Pirates", "FACTION", vec![])]);
    cortex.build().unwrap();

    let mentions = cortex.find_mentions("SHP is the best crew");
    assert_eq!(mentions.len(), 1);
    assert_eq!(mentions[0].entity_label, "Straw Hat Pirates");
}

#[test]
fn test_confidence_scores() {
    let mut cortex = ImplicitCortex::new();
    cortex.hydrate(vec![entity("char_001", "Monkey D. Luffy", "CHARACTER", vec!["Straw Hat"])]);
    cortex.build().unwrap();

    // Full name = 1.0
    let full = cortex.find_mentions("Monkey D. Luffy");
    assert_eq!(full[0].confidence, 1000);

    // Explicit alias = 0.95
    let explicit = cortex.find_mentions("Straw Hat");
    assert_eq!(explicit[0].confidence, 950);

    // Auto-generated surname = 0.90
    let auto = cortex.find_mentions("Luffy");
    assert!((auto[0].confidence as f64 / 1000.0 - 0.90).abs() < 0.01);
}

#[test]
fn alias_generation_by_kind() {
    let a = generate_aliases("Zorian Kazinski", "character");
    assert_eq!(a, vec![("Zorian".to_string(), 950), ("Kazinski".to_string(), 900)]);
    let b = generate_aliases("Sir Lancelot", "PERSON");
    assert_eq!(b, vec![("Lancelot".to_string(), 900)]);
    let c = generate_aliases("Monkey D. Luffy", "CHARACTER");
    assert_eq!(
        c,
        vec![("Monkey".to_string(), 950), ("Luffy".to_string(), 900), ("D. Luffy".to_string(), 850)]
    );
    let d = generate_aliases("Order of the Phoenix", "FACTION");
    assert_eq!(d, vec![("Phoenix".to_string(), 750), ("OP".to_string(), 700)]);
    let e = generate_aliases("Mount Doom", "LOCATION");
    assert_eq!(e, vec![("Doom".to_string(), 800)]);
    assert!(generate_aliases("Gandalf", "CHARACTER").is_empty());
    let f = generate_aliases("John Ronald Reuel Tolkien", "CHARACTER");
    assert_eq!(
        f,
        vec![("John".to_string(), 900), ("Tolkien".to_string(), 850), ("Reuel Tolkien".to_string(), 800)]
    );
}

#[test]
fn cortex_counts_and_clear() {
    let mut cortex = ImplicitCortex::new();
    cortex.hydrate(vec![entity("c", "Zorian Kazinski", "CHARACTER", vec!["Zach"])]);
    // label, explicit alias, two derived aliases
    assert_eq!(cortex.pattern_count(), 4);
    cortex.add_entity(entity("d", "Zorian", "CHARACTER", vec![]));
    assert_eq!(cortex.pattern_count(), 5);
    assert!(cortex.find_mentions("Zorian").is_empty());
    cortex.build().unwrap();
    assert!(cortex.find_mentions("").is_empty());
    assert_eq!(cortex.find_mentions("Zorian").len(), 1);
    cortex.clear();
    assert_eq!(cortex.pattern_count(), 0);
    assert!(cortex.find_mentions("Zorian").is_empty());
}

// ----------------------------------------------------------------------------
// Mentions
// ----------------------------------------------------------------------------

#[test]
fn test_mention_builder() {
    let m = Mention::new("note_1", 0, 5, "Frodo", "CHARACTER", MentionSource::Implicit)
        .with_score(950)
        .with_entity("ent_1", "Frodo Baggins");

    assert_eq!(m.surface, "Frodo");
    assert_eq!(m.effective_label(), "Frodo Baggins");
    assert_eq!(m.score, Some(950));
}

#[test]
fn test_source_priority() {
    assert!(MentionSource::UserTag.priority() > MentionSource::Implicit.priority());
    assert!(MentionSource::Implicit.priority() > MentionSource::FstRule.priority());
    assert!(MentionSource::FstRule.priority() > MentionSource::FstOrthographic.priority());
}

#[test]
fn test_mention_overlaps() {
    let m1 = Mention::new("doc", 0, 5, "Frodo", "CHARACTER", MentionSource::Implicit);
    let m2 = Mention::new("doc", 3, 8, "Frodo", "CHARACTER", MentionSource::FstRule);
    let m3 = Mention::new("doc", 10, 15, "Gimli", "CHARACTER", MentionSource::Implicit);

    assert!(m1.overlaps(&m2));
    assert!(!m1.overlaps(&m3));
}

#[test]
fn test_dedupe_keeps_higher_priority() {
    let mentions = vec![
        Mention::new("doc", 0, 5, "Frodo", "CHARACTER", MentionSource::FstOrthographic),
        Mention::new("doc", 0, 5, "Frodo", "CHARACTER", MentionSource::UserTag),
        Mention::new("doc", 10, 15, "Gimli", "CHARACTER", MentionSource::Implicit),
    ];

    let deduped = MentionMerger::dedupe_overlapping(mentions);

    assert_eq!(deduped.len(), 2);
    assert_eq!(deduped[0].source, MentionSource::UserTag);
    assert_eq!(deduped[1].surface, "Gimli");
}

#[test]
fn test_group_into_suggestions() {
    let mentions = vec![
        Mention::new("doc", 0, 5, "Frodo", "CHARACTER", MentionSource::Implicit).with_entity("ent_1", "Frodo"),
        Mention::new("doc", 20, 25, "Frodo", "CHARACTER", MentionSource::FstRule),
        Mention::new("doc", 10, 15, "Gimli", "CHARACTER", MentionSource::Implicit),
    ];

    let suggestions = MentionMerger::group_into_suggestions(mentions);

    assert_eq!(suggestions.len(), 2);

    let frodo = suggestions.iter().find(|s| s.canonical == "Frodo").unwrap();
    assert_eq!(frodo.mention_count(), 2);
    assert!(frodo.is_registered());
}

#[test]
fn test_suggestion_sources() {
    let mentions = vec![
        Mention::new("doc", 0, 5, "Frodo", "CHARACTER", MentionSource::Implicit),
        Mention::new("doc", 20, 25, "Frodo", "CHARACTER", MentionSource::FstRule),
        Mention::new("doc", 40, 45, "Frodo", "CHARACTER", MentionSource::FstOrthographic),
    ];

    let suggestion = Suggestion::from_mentions(mentions).unwrap();
    let sources = suggestion.sources();

    assert_eq!(sources[0], MentionSource::Implicit);
    assert_eq!(sources[1], MentionSource::FstRule);
    assert_eq!(sources[2], MentionSource::FstOrthographic);
}

#[test]
fn suggestion_rank_and_representative() {
    let mentions = vec![
        Mention::new("doc", 0, 5, "frodo", "PERSON", MentionSource::FstRule).with_score(500),
        Mention::new("doc", 9, 14, "Frodo", "CHARACTER", MentionSource::Implicit),
    ];
    let s = Suggestion::from_mentions(mentions).unwrap();
    // The implicit mention has the higher priority
    assert_eq!(s.canonical, "Frodo");
    assert_eq!(s.label, "CHARACTER");
    // (60 * 500 + 80 * 800) / 2
    assert_eq!(s.rank_score, 47000);
    assert!(!s.is_registered());
    assert!(Suggestion::from_mentions(vec![]).is_none());
}

#[test]
fn suggestions_sorted_by_rank() {
    let mentions = vec![
        Mention::new("doc", 0, 3, "Ann", "CHARACTER", MentionSource::FstOrthographic),
        Mention::new("doc", 5, 8, "Bob", "CHARACTER", MentionSource::UserTag),
        Mention::new("doc", 9, 12, "ANN", "CHARACTER", MentionSource::FstOrthographic),
    ];
    let suggestions = MentionMerger::group_into_suggestions(mentions);
    assert_eq!(suggestions.len(), 2);
    assert_eq!(suggestions[0].canonical, "Bob");
    assert_eq!(suggestions[1].mention_count(), 2);
}

#[test]
fn source_names() {
    assert_eq!(MentionSource::FstGazetteer.as_str(), "fst_gazetteer");
    assert_eq!(MentionSource::Temporal.priority(), 30);
    let m = Mention::new("d", 4, 2, "x", "y", MentionSource::MlNer);
    assert_eq!(m.len(), 0);
    assert!(m.is_empty());
    let r = m.with_rule_id("r1");
    assert_eq!(r.rule_id.as_deref(), Some("r1"));
}

#[test]
fn mention_from_implicit_and_pipeline() {
    let mut cortex = ImplicitCortex::new();
    cortex.hydrate(vec![entity("e", "Frodo", "CHARACTER", vec![])]);
    cortex.build().unwrap();
    let found = cortex.find_mentions("Frodo");
    let m = Mention::from_implicit(&found[0]);
    assert_eq!(m.source, MentionSource::Implicit);
    assert_eq!(m.entity_id.as_deref(), Some("e"));
    assert_eq!(m.score, Some(1000));
    assert_eq!(m.doc_id, "");
}
