use varant::fst::{fst_add_entity, fst_clear, fst_hydrate, fst_remove_entity, fst_scan, fst_stats, EntityDef};
use varant::gazetteer::{Gazetteer, MatchPriority};
use varant::orthographic::{OrthographicClassifier, OrthographicShape};
use varant::pipeline::{MatchSource, Pipeline};
use varant::rules::{PatternElement, Rule, RuleEngine, TokenCondition};
use varant::tokenizer::{Token, TokenKind, Tokenizer};

// ----------------------------------------------------------------------------
// Orthographic shapes
// ----------------------------------------------------------------------------

#[test]
fn test_all_caps() {
    let c = OrthographicClassifier::new();
    assert_eq!(c.classify("NASA"), OrthographicShape::AllCaps);
    assert_eq!(c.classify("MORDOR"), OrthographicShape::AllCaps);
    assert_eq!(c.classify("WHO"), OrthographicShape::AllCaps);
}

#[test]
fn test_init_cap() {
    let c = OrthographicClassifier::new();
    assert_eq!(c.classify("Zorian"), OrthographicShape::InitCap);
    assert_eq!(c.classify("Sally"), OrthographicShape::InitCap);
    assert_eq!(c.classify("Cyoria"), OrthographicShape::InitCap);
}

#[test]
fn test_mixed_caps() {
    let c = OrthographicClassifier::new();
    assert_eq!(c.classify("McDonald"), OrthographicShape::MixedCaps);
    assert_eq!(c.classify("iPhone"), OrthographicShape::MixedCaps);
    assert_eq!(c.classify("MacBook"), OrthographicShape::MixedCaps);
}

#[test]
fn test_all_lower() {
    let c = OrthographicClassifier::new();
    assert_eq!(c.classify("wizard"), OrthographicShape::AllLower);
    assert_eq!(c.classify("the"), OrthographicShape::AllLower);
    assert_eq!(c.classify("ancient"), OrthographicShape::AllLower);
}

#[test]
fn test_has_digit() {
    let c = OrthographicClassifier::new();
    assert_eq!(c.classify("Chapter3"), OrthographicShape::HasDigit);
    assert_eq!(c.classify("M16"), OrthographicShape::HasDigit);
    assert_eq!(c.classify("2nd"), OrthographicShape::HasDigit);
}

#[test]
fn orthographic_test_punctuation() {
    let c = OrthographicClassifier::new();
    assert_eq!(c.classify("."), OrthographicShape::Punctuation);
    assert_eq!(c.classify("!"), OrthographicShape::Punctuation);
    assert_eq!(c.classify("\u{2014}"), OrthographicShape::Punctuation);
}

#[test]
fn test_single_char() {
    let c = OrthographicClassifier::new();
    assert_eq!(c.classify("I"), OrthographicShape::SingleChar);
    assert_eq!(c.classify("a"), OrthographicShape::SingleChar);
}

#[test]
fn test_entity_candidate() {
    let c = OrthographicClassifier::new();

    assert!(c.classify("NASA").is_entity_candidate());
    assert!(c.classify("Sally").is_entity_candidate());
    assert!(c.classify("McDonald").is_entity_candidate());

    assert!(!c.classify("wizard").is_entity_candidate());
    assert!(!c.classify("the").is_entity_candidate());
    assert!(!c.classify("42").is_entity_candidate());
}

#[test]
fn test_is_likely_entity() {
    let c = OrthographicClassifier::new();

    // InitCap at sentence start is not likely an entity
    assert!(!c.is_likely_entity("The", true));
    // InitCap mid-sentence is
    assert!(c.is_likely_entity("Zorian", false));
    // AllCaps always
    assert!(c.is_likely_entity("NASA", true));
    assert!(c.is_likely_entity("WHO", false));
    // MixedCaps always
    assert!(c.is_likely_entity("McDonald", true));
    assert!(c.is_likely_entity("iPhone", false));
}

#[test]
fn test_sequence_signature() {
    let c = OrthographicClassifier::new();
    let tokens = vec!["The", "ancient", "wizard", "Gandalf"];
    let sig = c.sequence_signature(&tokens);
    assert_eq!(sig, "Aa aa aa Aa");
}

#[test]
fn orthographic_test_hyphenated_name() {
    let c = OrthographicClassifier::new();
    // "Sally-Anne" has an internal capital 'A', so MixedCaps
    assert_eq!(c.classify("Sally-Anne"), OrthographicShape::MixedCaps);
    assert_eq!(c.classify("O'Brien"), OrthographicShape::InitCap);
}

#[test]
fn test_contraction() {
    let c = OrthographicClassifier::new();
    assert_eq!(c.classify("don't"), OrthographicShape::AllLower);
    assert_eq!(c.classify("I'll"), OrthographicShape::InitCap);
}

#[test]
fn shape_codes_and_sequences() {
    let c = OrthographicClassifier::new();
    assert_eq!(OrthographicShape::HasDigit.code(), "d");
    assert_eq!(OrthographicShape::Other.code(), "?");
    assert_eq!(c.classify(""), OrthographicShape::Other);
    assert_eq!(c.classify("..."), OrthographicShape::Punctuation);
    assert_eq!(c.classify("d'Artagnan"), OrthographicShape::MixedCaps);
    let shapes = c.classify_sequence(&["Zorian", "x"]);
    assert_eq!(shapes, vec![OrthographicShape::InitCap, OrthographicShape::SingleChar]);
    assert_eq!(c.sequence_signature(&[]), "");
}

// ----------------------------------------------------------------------------
// Rules
// ----------------------------------------------------------------------------

fn tokenize(text: &str) -> Vec<Token> {
    Tokenizer::new().tokenize(text)
}

#[test]
fn test_title_pattern() {
    let engine = RuleEngine::new();
    let tokens = tokenize("Lord Voldemort appeared.");
    let matches = engine.apply(&tokens);

    assert_eq!(matches.len(), 1);
    assert_eq!(matches[0].rule_name, "PersonAfterTitle");
    assert_eq!(matches[0].text, "Voldemort");
    assert_eq!(matches[0].kind, "CHARACTER");
}

#[test]
fn test_location_pattern() {
    let engine = RuleEngine::new();
    let tokens = tokenize("He traveled to Mordor.");
    let matches = engine.apply(&tokens);

    let loc_match = matches.iter().find(|m| m.kind == "LOCATION");
    assert!(loc_match.is_some());
    assert_eq!(loc_match.unwrap().text, "Mordor");
}

#[test]
fn test_epithet_pattern() {
    let engine = RuleEngine::new();
    let tokens = tokenize("The Doctor arrived.");
    let matches = engine.apply(&tokens);

    let char_match = matches.iter().find(|m| m.text.contains("Doctor"));
    assert!(char_match.is_some());
}

#[test]
fn test_acronym_pattern() {
    let engine = RuleEngine::new();
    let tokens = tokenize("He joined NASA yesterday.");
    let matches = engine.apply(&tokens);

    let faction_match = matches.iter().find(|m| m.text == "NASA");
    assert!(faction_match.is_some());
    assert_eq!(faction_match.unwrap().kind, "FACTION");
}

#[test]
fn test_multi_word_name() {
    let engine = RuleEngine::new();
    let tokens = tokenize("Doctor Sally Sparrow arrived.");
    let matches = engine.apply(&tokens);

    let char_match = matches.iter().find(|m| m.rule_name == "PersonAfterTitle");
    assert!(char_match.is_some());
    assert!(char_match.unwrap().text.contains("Sally"));
}

#[test]
fn rules_test_priority_order() {
    let engine = RuleEngine::new();
    // "Doctor Smith" matches PersonAfterTitle, not StandaloneInitCap
    let tokens = tokenize("Doctor Smith came.");
    let matches = engine.apply(&tokens);

    assert_eq!(matches.len(), 1);
    assert_eq!(matches[0].rule_name, "PersonAfterTitle");
}

#[test]
fn test_no_match() {
    let engine = RuleEngine::new();
    let tokens = tokenize("the wizard walked slowly.");
    let matches = engine.apply(&tokens);
    assert!(matches.is_empty());
}

#[test]
fn test_condition_text_in() {
    let cond = TokenCondition::TextIn(vec!["in".to_string(), "at".to_string()]);
    let classifier = OrthographicClassifier::new();

    let tok_in = Token::new("in", TokenKind::Word, 0, 2);
    let tok_at = Token::new("at", TokenKind::Word, 0, 2);
    let tok_on = Token::new("on", TokenKind::Word, 0, 2);

    assert!(cond.matches(&tok_in, &classifier));
    assert!(cond.matches(&tok_at, &classifier));
    assert!(!cond.matches(&tok_on, &classifier));
}

#[test]
fn rule_match_offsets_and_confidence() {
    let engine = RuleEngine::new();
    let tokens = tokenize("Lord Voldemort appeared.");
    let matches = engine.apply(&tokens);
    assert_eq!(matches[0].byte_start, 5);
    assert_eq!(matches[0].byte_end, 14);
    assert_eq!(matches[0].confidence, 850);
}

#[test]
fn added_rules_are_kept_in_priority_order() {
    let mut engine = RuleEngine::new();
    assert_eq!(engine.rule_count(), 5);
    engine.add_rule(Rule {
        name: "Ship".to_string(),
        priority: 90,
        pattern: vec![
            PatternElement::context(TokenCondition::Text("the".to_string())),
            PatternElement::one(TokenCondition::Text("ship".to_string())),
            PatternElement::optional(TokenCondition::Shape(OrthographicShape::InitCap)),
        ],
        entity_kind: "ITEM".to_string(),
        confidence: 900,
    });
    assert_eq!(engine.rule_count(), 6);
    // The new rule (90) is tried before the location rule (80)
    let matches = engine.apply(&tokenize("the ship Argo sailed"));
    assert_eq!(matches.len(), 1);
    assert_eq!(matches[0].rule_name, "Ship");
    assert_eq!(matches[0].text, "ship Argo");
    engine.clear();
    assert_eq!(engine.rule_count(), 0);
    assert!(engine.apply(&tokenize("Lord Voldemort")).is_empty());
}

// ----------------------------------------------------------------------------
// Gazetteer
// ----------------------------------------------------------------------------

#[test]
fn test_simple_match() {
    let mut gaz = Gazetteer::new();
    gaz.add("Zorian", "CHARACTER", "Zorian", Some("ent_1"), MatchPriority::High, 1000);
    gaz.build().unwrap();

    let matches = gaz.find_matches("Zorian walked into the room.");

    assert_eq!(matches.len(), 1);
    assert_eq!(matches[0].text, "Zorian");
    assert_eq!(matches[0].kind, "CHARACTER");
    assert_eq!(matches[0].byte_start, 0);
}

#[test]
fn test_case_insensitive() {
    let mut gaz = Gazetteer::new();
    gaz.add("Zorian", "CHARACTER", "Zorian", None, MatchPriority::High, 1000);
    gaz.build().unwrap();

    let matches = gaz.find_matches("ZORIAN walked, then zorian spoke.");

    assert_eq!(matches.len(), 2);
    assert_eq!(matches[0].text, "ZORIAN");
    assert_eq!(matches[1].text, "zorian");
}

#[test]
fn test_word_boundary() {
    let mut gaz = Gazetteer::new();
    gaz.add("or", "MISC", "Or", None, MatchPriority::High, 1000);
    gaz.build().unwrap();

    // "or" inside "Zorian" does not count
    let matches = gaz.find_matches("Zorian or the door");

    assert_eq!(matches.len(), 1);
    assert_eq!(matches[0].text, "or");
    assert_eq!(matches[0].byte_start, 7);
}

#[test]
fn test_multiple_entities() {
    let mut gaz = Gazetteer::new();
    gaz.add("Zorian", "CHARACTER", "Zorian", None, MatchPriority::High, 1000);
    gaz.add("Cyoria", "LOCATION", "Cyoria", None, MatchPriority::High, 1000);
    gaz.build().unwrap();

    let matches = gaz.find_matches("Zorian lived in Cyoria.");

    assert_eq!(matches.len(), 2);
    assert_eq!(matches[0].kind, "CHARACTER");
    assert_eq!(matches[1].kind, "LOCATION");
}

#[test]
fn test_overlapping_longest_wins() {
    let mut gaz = Gazetteer::new();
    gaz.add("Sally", "CHARACTER", "Sally", None, MatchPriority::High, 1000);
    gaz.add("Sally Sparrow", "CHARACTER", "Sally Sparrow", None, MatchPriority::High, 1000);
    gaz.build().unwrap();

    let matches = gaz.find_matches("Sally Sparrow walked.");

    assert_eq!(matches.len(), 1);
    assert_eq!(matches[0].text, "Sally Sparrow");
}

#[test]
fn test_alias_resolution() {
    let mut gaz = Gazetteer::new();
    gaz.add_entity("ent_doctor", "The Doctor", "CHARACTER", &["Doctor Who".to_string(), "Doc".to_string()]);
    gaz.build().unwrap();

    let matches = gaz.find_matches("The Doctor met Doc.");

    assert_eq!(matches.len(), 2);
    assert_eq!(matches[0].canonical_label, "The Doctor");
    assert_eq!(matches[1].canonical_label, "The Doctor");
}

#[test]
fn gazetteer_test_priority_order() {
    let mut gaz = Gazetteer::new();
    gaz.add("wizard", "CLASS", "Wizard", None, MatchPriority::Low, 500);
    gaz.add("wizard", "CHARACTER", "The Wizard", None, MatchPriority::High, 1000);
    gaz.build().unwrap();

    let matches = gaz.find_matches("The wizard appeared.");

    assert_eq!(matches.len(), 1);
    assert_eq!(matches[0].kind, "CHARACTER");
}

#[test]
fn test_empty_gazetteer() {
    let mut gaz = Gazetteer::new();
    gaz.build().unwrap();

    let matches = gaz.find_matches("Hello world");
    assert!(matches.is_empty());
}

#[test]
fn gazetteer_remove_and_counts() {
    let mut gaz = Gazetteer::new();
    assert!(gaz.is_empty());
    gaz.add_entity("e1", "Frodo", "CHARACTER", &["Mr Underhill".to_string()]);
    gaz.add_entity("e2", "Sam", "CHARACTER", &[]);
    assert_eq!(gaz.pattern_count(), 3);
    gaz.remove_entity("e1");
    assert_eq!(gaz.pattern_count(), 1);
    gaz.build().unwrap();
    assert!(gaz.find_matches("Frodo and Sam").iter().all(|m| m.text == "Sam"));
    assert_eq!(MatchPriority::Exact.rank(), 4);
    gaz.clear();
    assert!(gaz.is_empty());
    assert!(gaz.find_matches("Sam").is_empty());
}

#[test]
fn gazetteer_unbuilt_finds_nothing() {
    let mut gaz = Gazetteer::new();
    gaz.add("Zorian", "CHARACTER", "Zorian", None, MatchPriority::High, 1000);
    assert!(gaz.find_matches("Zorian").is_empty());
}

// ----------------------------------------------------------------------------
// Pipeline
// ----------------------------------------------------------------------------

fn create_pipeline_with_entities() -> Pipeline {
    let mut pipeline = Pipeline::new();
    pipeline.gazetteer_mut().add("Zorian", "CHARACTER", "Zorian", Some("ent_1"), MatchPriority::High, 1000);
    pipeline.gazetteer_mut().add("Cyoria", "LOCATION", "Cyoria", Some("ent_2"), MatchPriority::High, 1000);
    pipeline.build().unwrap();
    pipeline
}

#[test]
fn test_gazetteer_match() {
    let pipeline = create_pipeline_with_entities();
    let result = pipeline.process("Zorian walked through Cyoria.");

    assert_eq!(result.matches.len(), 2);

    let zorian = result.matches.iter().find(|m| m.text == "Zorian");
    assert!(zorian.is_some());
    assert_eq!(zorian.unwrap().source, MatchSource::Gazetteer);
}

#[test]
fn test_rule_match() {
    let pipeline = Pipeline::new();
    let result = pipeline.process("Lord Voldemort appeared.");

    let voldemort = result.matches.iter().find(|m| m.text.contains("Voldemort"));
    assert!(voldemort.is_some());
    assert_eq!(voldemort.unwrap().source, MatchSource::Rule);
}

#[test]
fn test_gazetteer_beats_rule() {
    let mut pipeline = Pipeline::new();
    pipeline.gazetteer_mut().add("Voldemort", "VILLAIN", "Lord Voldemort", Some("ent_v"), MatchPriority::High, 1000);
    pipeline.build().unwrap();

    let result = pipeline.process("Voldemort appeared.");

    let voldemort = result.matches.iter().find(|m| m.text == "Voldemort");
    assert!(voldemort.is_some());
    assert_eq!(voldemort.unwrap().source, MatchSource::Gazetteer);
    assert_eq!(voldemort.unwrap().kind, "VILLAIN");
}

#[test]
fn test_orthographic_fallback() {
    let pipeline = Pipeline::new();
    let result = pipeline.process("Then Sally arrived.");

    let sally = result.matches.iter().find(|m| m.text == "Sally");
    assert!(sally.is_some(), "Sally should be detected, got: {:?}", result.matches);
}

#[test]
fn test_sentence_start_filtered() {
    let pipeline = Pipeline::new();
    let result = pipeline.process("The wizard walked.");

    let the_match = result.matches.iter().find(|m| m.text == "The" && m.source == MatchSource::Orthographic);
    assert!(the_match.is_none());
}

#[test]
fn test_overlapping_resolution() {
    let mut pipeline = Pipeline::new();
    pipeline.gazetteer_mut().add("Sally", "CHARACTER", "Sally", None, MatchPriority::High, 1000);
    pipeline.gazetteer_mut().add("Sally Sparrow", "CHARACTER", "Sally Sparrow", None, MatchPriority::High, 1000);
    pipeline.build().unwrap();

    let result = pipeline.process("Sally Sparrow walked.");

    assert_eq!(result.matches.len(), 1);
    assert_eq!(result.matches[0].text, "Sally Sparrow");
}

#[test]
fn test_performance_small() {
    let pipeline = create_pipeline_with_entities();
    let text = "Zorian walked through Cyoria.";
    let result = pipeline.process(text);

    assert!(result.timing_us < 1000, "Should complete in < 1ms");
}

#[test]
fn test_empty_text() {
    let pipeline = Pipeline::new();
    let result = pipeline.process("");

    assert!(result.matches.is_empty());
    assert_eq!(result.token_count, 0);
}

#[test]
fn test_confidence_filtering() {
    let mut pipeline = Pipeline::new();
    pipeline.min_confidence = 800;

    let result = pipeline.process("Then Sally arrived.");

    let ortho_matches: Vec<_> = result.matches.iter().filter(|m| m.source == MatchSource::Orthographic).collect();
    assert!(ortho_matches.is_empty());
}

#[test]
fn pipeline_counts() {
    let pipeline = create_pipeline_with_entities();
    assert_eq!(pipeline.gazetteer_pattern_count(), 2);
    assert_eq!(pipeline.rule_count(), 5);
    let result = pipeline.process("Zorian walked through Cyoria.");
    assert_eq!(result.token_count, 5);
}

#[test]
fn orthographic_run_of_capitals() {
    let mut pipeline = Pipeline::new();
    pipeline.rules_mut().clear();
    let result = pipeline.process("He met Harry James Potter today.");
    assert_eq!(result.matches.len(), 1);
    assert_eq!(result.matches[0].text, "Harry James Potter");
    assert_eq!(result.matches[0].kind, "UNKNOWN");
    assert_eq!(result.matches[0].confidence, 400);
    assert_eq!(result.matches[0].byte_start, 7);
    assert_eq!(result.matches[0].byte_end, 25);
}

// ----------------------------------------------------------------------------
// Recognition operations
// ----------------------------------------------------------------------------

#[test]
fn test_fst_scan_basic() {
    let mut pipeline = Pipeline::new();
    fst_clear(&mut pipeline);

    let result = fst_scan(&pipeline, "Lord Voldemort appeared.");

    assert!(!result.matches.is_empty());
}

#[test]
fn test_fst_hydrate_and_scan() {
    let mut pipeline = Pipeline::new();
    fst_clear(&mut pipeline);

    let entities = vec![EntityDef {
        id: "ent_1".to_string(),
        label: "Zorian".to_string(),
        kind: "CHARACTER".to_string(),
        aliases: vec!["Zor".to_string()],
    }];

    fst_hydrate(&mut pipeline, entities).unwrap();

    let result = fst_scan(&pipeline, "Zorian walked. Then Zor spoke.");

    assert!(result.matches.iter().any(|m| m.text == "Zorian"));
    assert!(result.matches.iter().any(|m| m.text == "Zor"));
}

#[test]
fn test_fst_add_entity() {
    let mut pipeline = Pipeline::new();
    fst_clear(&mut pipeline);

    fst_add_entity(&mut pipeline, "ent_c", "Cyoria", "LOCATION", vec!["The City".to_string()]).unwrap();

    let result = fst_scan(&pipeline, "He lived in Cyoria.");

    let cyoria = result.matches.iter().find(|m| m.text == "Cyoria");
    assert!(cyoria.is_some());
    assert_eq!(cyoria.unwrap().kind, "LOCATION");
}

#[test]
fn test_fst_stats() {
    let mut pipeline = Pipeline::new();
    fst_clear(&mut pipeline);

    let stats_before = fst_stats(&pipeline);

    fst_add_entity(&mut pipeline, "e1", "Test", "CHARACTER", vec![]).unwrap();

    let stats_after = fst_stats(&pipeline);

    assert!(stats_after.gazetteer_patterns > stats_before.gazetteer_patterns);
}

#[test]
fn test_fst_remove_entity() {
    let mut pipeline = Pipeline::new();
    fst_clear(&mut pipeline);

    fst_add_entity(&mut pipeline, "ent_remove_test", "Removable", "CHARACTER", vec!["Alias1".to_string()]).unwrap();

    let result = fst_scan(&pipeline, "Removable walked with Alias1.");
    assert!(result.matches.iter().any(|m| m.text == "Removable"));
    assert!(result.matches.iter().any(|m| m.text == "Alias1"));

    fst_remove_entity(&mut pipeline, "ent_remove_test").unwrap();

    let result_after = fst_scan(&pipeline, "Removable walked with Alias1.");
    let gaz_matches: Vec<_> = result_after
        .matches
        .iter()
        .filter(|m| m.source == "gazetteer" && (m.text == "Removable" || m.text == "Alias1"))
        .collect();
    assert!(gaz_matches.is_empty(), "Entity should be removed from gazetteer: {:?}", gaz_matches);
}

#[test]
fn fst_hydrate_counts_entities() {
    let mut pipeline = Pipeline::new();
    let entities = vec![
        EntityDef { id: "a".to_string(), label: "Alpha".to_string(), kind: "CHARACTER".to_string(), aliases: vec![] },
        EntityDef { id: "b".to_string(), label: "Beta".to_string(), kind: "CHARACTER".to_string(), aliases: vec!["B".to_string()] },
    ];
    assert_eq!(fst_hydrate(&mut pipeline, entities).unwrap(), 2);
    assert_eq!(fst_stats(&pipeline).gazetteer_patterns, 3);
    let scan = fst_scan(&pipeline, "Alpha met Beta.");
    assert_eq!(scan.matches[0].source, "gazetteer");
    assert_eq!(scan.matches[0].entity_id.as_deref(), Some("a"));
}

#[test]
fn reported_matches_are_confident_and_disjoint() {
    let mut pipeline = Pipeline::new();
    pipeline.gazetteer_mut().add("Voldemort", "VILLAIN", "Lord Voldemort", Some("ent_v"), MatchPriority::High, 1000);
    pipeline.gazetteer_mut().add("Lord Voldemort", "VILLAIN", "Lord Voldemort", Some("ent_v"), MatchPriority::Medium, 900);
    pipeline.build().unwrap();
    let result = pipeline.process("Then Lord Voldemort met Harry Potter in Hogwarts Castle.");
    assert!(!result.matches.is_empty());
    for m in &result.matches {
        assert!(m.confidence >= pipeline.min_confidence);
        assert!(m.byte_start <= m.byte_end);
    }
    for w in result.matches.windows(2) {
        assert!(w[0].byte_end <= w[1].byte_start);
    }
}
