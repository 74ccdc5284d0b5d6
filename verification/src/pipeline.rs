//! The entity recognition pipeline: tokenize, match known names
//! (gazetteer), apply contextual rules, fall back on capitalization, then
//! resolve overlaps and drop low-confidence matches.
//!
//! Confidences are in thousandths.

use std::time::Instant;
use vstd::prelude::*;

use crate::gazetteer::{built, Gazetteer, GazetteerMatch};
use crate::orthographic::{shape_of, OrthographicClassifier, OrthographicShape};
use crate::ranking::{dedupe_ranked, law_resolved_disjoint, resolve_overlaps, SpanRanked};
use crate::rules::{
    apply_from, joined_text, lemma_annotations_well_formed, lemma_match_models_index, match_model,
    match_models, tokens_ordered, RuleEngine, RuleMatch,
};
use crate::text::{in_list, is_in_list, str_eq, str_to_lowercase, string_push, unicode_lower_text};
use crate::gazetteer::lemma_found_well_formed;
use crate::tokenizer::{law_token_offsets, tokens_match, visible_spans_from, Token, TokenKind, Tokenizer};

verus! {

#[verifier::external_type_specification]
#[verifier::external_body]
pub struct ExInstant(Instant);

/// `Instant::now`. Nothing is stated of the reading.
#[verifier::external_body]
fn clock_now() -> Instant {
    Instant::now()
}

/// Microseconds elapsed since `start` (`Instant::elapsed`, then
/// `Duration::as_micros`, truncated to 64 bits). Nothing is stated of the
/// value.
#[verifier::external_body]
fn micros_since(start: &Instant) -> u64 {
    start.elapsed().as_micros() as u64
}

// =============================================================================
// Types
// =============================================================================

/// Source of an entity match
#[derive(Debug, Clone, Copy, PartialEq, Eq, Structural)]
pub enum MatchSource {
    /// From gazetteer (known entities)
    Gazetteer,
    /// From contextual rules
    Rule,
    /// From orthographic heuristics
    Orthographic,
}

/// A unified entity match from the pipeline
#[derive(Debug, Clone, PartialEq)]
pub struct EntityMatch {
    /// Matched text
    pub text: String,
    /// Entity kind (CHARACTER, LOCATION, etc.)
    pub kind: String,
    /// Confidence in thousandths
    pub confidence: u32,
    /// Start byte offset
    pub byte_start: usize,
    /// End byte offset
    pub byte_end: usize,
    /// Match source
    pub source: MatchSource,
    /// Canonical label (if resolved from alias)
    pub canonical_label: Option<String>,
    /// Entity ID (if known from registry)
    pub entity_id: Option<String>,
}

/// Pipeline result
#[derive(Debug)]
pub struct PipelineResult {
    /// Entity matches
    pub matches: Vec<EntityMatch>,
    /// Processing time in microseconds
    pub timing_us: u64,
    /// Token count
    pub token_count: usize,
}

/// Priority of each match source when resolving overlaps.
pub open spec fn source_rank(s: MatchSource) -> u8 {
    match s {
        MatchSource::Gazetteer => 3,
        MatchSource::Rule => 2,
        MatchSource::Orthographic => 1,
    }
}

/// Get priority value for match source
fn source_priority(source: MatchSource) -> (r: u8)
    ensures
        r == source_rank(source),
{
    match source {
        MatchSource::Gazetteer => 3,
        MatchSource::Rule => 2,
        MatchSource::Orthographic => 1,
    }
}

impl SpanRanked for EntityMatch {
    open spec fn rank_key(&self) -> (usize, usize, u64, u64) {
        (self.byte_start, self.byte_end, source_rank(self.source) as u64, self.confidence as u64)
    }

    fn rank(&self) -> (r: (usize, usize, u64, u64)) {
        (
            self.byte_start,
            self.byte_end,
            source_priority(self.source) as u64,
            self.confidence as u64,
        )
    }
}

// =============================================================================
// Specification
// =============================================================================

/// Words that are often capitalized but are not entities.
pub open spec fn ortho_stopwords() -> Seq<&'static str> {
    seq![
        "the",
        "this",
        "that",
        "however",
        "when",
        "where",
        "what",
        "which",
        "while",
        "also",
        "just",
        "from",
        "with",
        "have",
        "been",
        "being",
        "would",
        "could",
        "should",
        "about",
        "after",
        "before",
        "other",
        "such",
        "these",
        "those",
        "their",
        "there",
        "then",
        "than",
        "some",
        "only",
        "even",
        "well",
        "very",
        "much",
        "many",
        "most",
        "more",
        "into",
        "over",
        "under",
        "again",
        "further",
        "once",
        "here",
    ]
}

pub open spec fn is_sentence_mark(t: Token) -> bool {
    t.text@ == "."@ || t.text@ == "!"@ || t.text@ == "?"@
}

/// Looking back from token `j` over whitespace, the first other token is a
/// sentence-ending mark.
pub open spec fn after_sentence_end(ts: Seq<Token>, j: int) -> bool
    decreases j + 1,
{
    if j < 0 || j >= ts.len() {
        false
    } else if is_sentence_mark(ts[j]) {
        true
    } else if ts[j].kind != TokenKind::Whitespace {
        false
    } else {
        after_sentence_end(ts, j - 1)
    }
}

/// Token `i` starts a sentence: it is the first, or follows a sentence end.
pub open spec fn sentence_start(ts: Seq<Token>, i: int) -> bool {
    i == 0 || after_sentence_end(ts, i - 1)
}

/// End of the run of capitalized tokens from `j`.
pub open spec fn initcap_run_end(ts: Seq<Token>, j: int) -> int
    decreases ts.len() - j,
{
    if j < 0 || j >= ts.len() {
        j
    } else if shape_of(ts[j].text@) == OrthographicShape::InitCap {
        initcap_run_end(ts, j + 1)
    } else {
        j
    }
}

/// The orthographic candidates from token `i`, as (text, start, end): an
/// entity-shaped token that is not a stopword and not a capitalized sentence
/// start, with the capitalized tokens that follow it.
pub open spec fn ortho_from(ts: Seq<Token>, i: int) -> Seq<(Seq<char>, usize, usize)>
    decreases ts.len() - i,
{
    if i < 0 || i >= ts.len() {
        seq![]
    } else {
        let sh = shape_of(ts[i].text@);
        if !(sh == OrthographicShape::AllCaps || sh == OrthographicShape::InitCap || sh
            == OrthographicShape::MixedCaps) {
            ortho_from(ts, i + 1)
        } else if in_list(unicode_lower_text(ts[i].text@), ortho_stopwords()) {
            ortho_from(ts, i + 1)
        } else if sh == OrthographicShape::InitCap && sentence_start(ts, i) {
            ortho_from(ts, i + 1)
        } else {
            let e = initcap_run_end(ts, i + 1);
            if e > i && e <= ts.len() {
                seq![(joined_text(ts, i, e), ts[i].byte_start, ts[e - 1].byte_end)] + ortho_from(
                    ts,
                    e,
                )
            } else {
                ortho_from(ts, i + 1)
            }
        }
    }
}

/// An orthographic match: kind UNKNOWN, confidence 0.40, no entity link.
pub open spec fn ortho_shape_ok(m: EntityMatch) -> bool {
    &&& m.kind@ == "UNKNOWN"@
    &&& m.confidence == 400
    &&& m.source == MatchSource::Orthographic
    &&& m.canonical_label is None
    &&& m.entity_id is None
}

pub open spec fn ortho_views(ms: Seq<EntityMatch>) -> Seq<(Seq<char>, usize, usize)> {
    Seq::new(ms.len(), |i: int| (ms[i].text@, ms[i].byte_start, ms[i].byte_end))
}

pub open spec fn from_gazetteer(m: GazetteerMatch) -> EntityMatch {
    EntityMatch {
        text: m.text,
        kind: m.kind,
        confidence: m.confidence,
        byte_start: m.byte_start,
        byte_end: m.byte_end,
        source: MatchSource::Gazetteer,
        canonical_label: Some(m.canonical_label),
        entity_id: m.entity_id,
    }
}

pub open spec fn from_rule(m: RuleMatch) -> EntityMatch {
    EntityMatch {
        text: m.text,
        kind: m.kind,
        confidence: m.confidence,
        byte_start: m.byte_start,
        byte_end: m.byte_end,
        source: MatchSource::Rule,
        canonical_label: None,
        entity_id: None,
    }
}

/// Gazetteer matches, then rule matches, then orthographic matches.
pub open spec fn merged(
    gaz: Seq<GazetteerMatch>,
    rules: Seq<RuleMatch>,
    ortho: Seq<EntityMatch>,
) -> Seq<EntityMatch> {
    Seq::new(gaz.len(), |i: int| from_gazetteer(gaz[i])) + Seq::new(
        rules.len(),
        |i: int| from_rule(rules[i]),
    ) + ortho
}

/// The matches of at least the given confidence, in order.
pub open spec fn confident(ms: Seq<EntityMatch>, min: u32) -> Seq<EntityMatch>
    decreases ms.len(),
{
    if ms.len() == 0 {
        seq![]
    } else {
        let r = confident(ms.drop_last(), min);
        if ms.last().confidence >= min {
            r.push(ms.last())
        } else {
            r
        }
    }
}

// =============================================================================
// Pipeline
// =============================================================================

/// Entity recognition pipeline
pub struct Pipeline {
    tokenizer: Tokenizer,
    gazetteer: Gazetteer,
    rules: RuleEngine,
    classifier: OrthographicClassifier,
    /// Minimum confidence (in thousandths) of a reported match
    pub min_confidence: u32,
}

impl Default for Pipeline {
    fn default() -> (p: Self)
        ensures
            p.threshold() == 350,
    {
        Self::new()
    }
}

impl Pipeline {
    /// The gazetteer stage.
    pub closed spec fn gazetteer(self) -> Gazetteer {
        self.gazetteer
    }

    /// The rule stage.
    pub closed spec fn rule_engine(self) -> RuleEngine {
        self.rules
    }

    /// The tokenizer stage.
    pub closed spec fn tokenizer(self) -> Tokenizer {
        self.tokenizer
    }

    /// The minimum confidence of a reported match.
    pub closed spec fn threshold(self) -> u32 {
        self.min_confidence
    }

    pub fn new() -> (p: Self)
        ensures
            p.threshold() == 350,
            !p.tokenizer().keeps_whitespace(),
            p.gazetteer().entries().len() == 0,
            p.gazetteer().automaton() is None,
            crate::rules::is_default_rules(p.rule_engine().rule_list()),
    {
        Pipeline {
            tokenizer: Tokenizer::new(),
            gazetteer: Gazetteer::new(),
            rules: RuleEngine::new(),
            classifier: OrthographicClassifier::new(),
            // Lets orthographic matches (0.40) through
            min_confidence: 350,
        }
    }

    /// Get mutable reference to gazetteer for hydration
    pub fn gazetteer_mut(&mut self) -> (g: &mut Gazetteer)
        ensures
            *g == old(self).gazetteer(),
            final(self).gazetteer() == *final(g),
            final(self).rule_engine() == old(self).rule_engine(),
            final(self).tokenizer() == old(self).tokenizer(),
            final(self).threshold() == old(self).threshold(),
    {
        &mut self.gazetteer
    }

    /// Get mutable reference to rules for customization
    pub fn rules_mut(&mut self) -> (r: &mut RuleEngine)
        ensures
            *r == old(self).rule_engine(),
            final(self).rule_engine() == *final(r),
            final(self).gazetteer() == old(self).gazetteer(),
            final(self).tokenizer() == old(self).tokenizer(),
            final(self).threshold() == old(self).threshold(),
    {
        &mut self.rules
    }

    /// Get gazetteer pattern count
    pub fn gazetteer_pattern_count(&self) -> (n: usize)
        ensures
            n == self.gazetteer().entries().len(),
    {
        self.gazetteer.pattern_count()
    }

    /// Get rule count
    pub fn rule_count(&self) -> (n: usize)
        ensures
            n == self.rule_engine().rule_list().len(),
    {
        self.rules.rule_count()
    }

    /// Build the pipeline (call after adding gazetteer entries)
    pub fn build(&mut self) -> (r: Result<(), String>)
        ensures
            final(self).rule_engine() == old(self).rule_engine(),
            final(self).tokenizer() == old(self).tokenizer(),
            final(self).threshold() == old(self).threshold(),
            built(old(self).gazetteer(), final(self).gazetteer(), r),
    {
        self.gazetteer.build()
    }

    /// What `process` reports for `text`: the gazetteer, rule and
    /// orthographic candidates, overlaps resolved (earlier start, then longer,
    /// then gazetteer over rule over orthographic, then more confident), then
    /// those below the minimum confidence dropped; and the token count.
    pub open spec fn processed(self, text: &str, r: PipelineResult) -> bool {
        exists|
                toks: Seq<Token>,
                gaz: Seq<GazetteerMatch>,
                rms: Seq<RuleMatch>,
                orthos: Seq<EntityMatch>,
            |
                {
                    &&& tokens_match(
                        text@,
                        visible_spans_from(text@, 0, self.tokenizer().keeps_whitespace()),
                        toks,
                    )
                    &&& self.gazetteer().found_matches(text, gaz)
                    &&& match_models(rms) == apply_from(self.rule_engine().rule_list(), toks, 0)
                    &&& ortho_views(orthos) == ortho_from(toks, 0)
                    &&& forall|i: int| 0 <= i < orthos.len() ==> ortho_shape_ok(#[trigger] orthos[i])
                    &&& r.matches@ == confident(
                        resolve_overlaps(merged(gaz, rms, orthos)),
                        self.threshold(),
                    )
                    &&& r.token_count == toks.len()
                }
    }

    /// Process text and return entity matches (see `processed`), with the
    /// time it took.
    pub fn process(&self, text: &str) -> (r: PipelineResult)
        ensures
            self.processed(text, r),
    {
        let start = clock_now();
        // Stage 1: Tokenize
        let tokens = self.tokenizer.tokenize(text);
        let token_count = tokens.len();
        // Stage 2: Gazetteer matches (highest priority)
        let gaz_matches = self.gazetteer.find_matches(text);
        // Stage 3: Rule matches
        let rule_matches = self.rules.apply(tokens.as_slice());
        // Stage 4: Orthographic fallback (lowest priority)
        let ortho_matches = self.orthographic_scan(tokens.as_slice());
        let ghost gv = gaz_matches@;
        let ghost rv = rule_matches@;
        let ghost ov = ortho_matches@;
        // Stage 5: Merge and resolve conflicts
        let all_candidates = self.merge_candidates(gaz_matches, rule_matches, ortho_matches);
        let resolved = self.resolve_conflicts(all_candidates);
        // Stage 6: Filter by confidence
        let matches = keep_confident(resolved, self.min_confidence);
        let timing_us = micros_since(&start);
        PipelineResult { matches, timing_us, token_count }
    }

    /// Orthographic-only entity detection (fallback)
    fn orthographic_scan(&self, tokens: &[Token]) -> (matches: Vec<EntityMatch>)
        ensures
            ortho_views(matches@) == ortho_from(tokens@, 0),
            forall|i: int| 0 <= i < matches@.len() ==> ortho_shape_ok(#[trigger] matches@[i]),
    {
        let ghost ts = tokens@;
        let mut matches: Vec<EntityMatch> = Vec::new();
        let stopwords: [&str; 46] = [
            "the",
            "this",
            "that",
            "however",
            "when",
            "where",
            "what",
            "which",
            "while",
            "also",
            "just",
            "from",
            "with",
            "have",
            "been",
            "being",
            "would",
            "could",
            "should",
            "about",
            "after",
            "before",
            "other",
            "such",
            "these",
            "those",
            "their",
            "there",
            "then",
            "than",
            "some",
            "only",
            "even",
            "well",
            "very",
            "much",
            "many",
            "most",
            "more",
            "into",
            "over",
            "under",
            "again",
            "further",
            "once",
            "here",
        ];
        assert(stopwords@ == ortho_stopwords());
        let mut i: usize = 0;
        while i < tokens.len()
            invariant
                i <= ts.len(),
                ts == tokens@,
                stopwords@ == ortho_stopwords(),
                ortho_from(ts, 0) == ortho_views(matches@) + ortho_from(ts, i as int),
                forall|j: int| 0 <= j < matches@.len() ==> ortho_shape_ok(#[trigger] matches@[j]),
            decreases ts.len() - i,
        {
            let token = &tokens[i];
            let shape = self.classifier.classify(token.text.as_str());
            // Only consider entity candidates
            if !shape.is_entity_candidate() {
                i = i + 1;
                continue;
            }
            // Skip stopwords
            let lower = str_to_lowercase(token.text.as_str());
            if is_in_list(lower.as_str(), &stopwords) {
                i = i + 1;
                continue;
            }
            // A capitalized word at a sentence start is not a candidate
            let is_sentence_start = i == 0 || self.is_after_sentence_end(tokens, i);
            if shape == OrthographicShape::InitCap && is_sentence_start {
                i = i + 1;
                continue;
            }
            // Collect consecutive InitCap tokens
            let start_idx = i;
            let mut end_idx = i + 1;
            while end_idx < tokens.len()
                && self.classifier.classify(tokens[end_idx].text.as_str()) == OrthographicShape::InitCap
                invariant
                    start_idx < end_idx <= ts.len(),
                    ts == tokens@,
                    initcap_run_end(ts, start_idx + 1) == initcap_run_end(ts, end_idx as int),
                decreases ts.len() - end_idx,
            {
                end_idx = end_idx + 1;
            }
            let text = crate::rules::join_texts(tokens, start_idx, end_idx);
            proof {
                reveal_strlit("UNKNOWN");
            }
            let m = EntityMatch {
                text,
                kind: "UNKNOWN".to_owned(),
                confidence: 400,
                byte_start: tokens[start_idx].byte_start,
                byte_end: tokens[end_idx - 1].byte_end,
                source: MatchSource::Orthographic,
                canonical_label: None,
                entity_id: None,
            };
            let ghost before = matches@;
            matches.push(m);
            proof {
                assert(ortho_views(matches@) =~= ortho_views(before) + seq![
                    (joined_text(ts, start_idx as int, end_idx as int), ts[start_idx as int].byte_start, ts[end_idx - 1].byte_end),
                ]);
                assert(ortho_from(ts, start_idx as int) == seq![
                    (joined_text(ts, start_idx as int, end_idx as int), ts[start_idx as int].byte_start, ts[end_idx - 1].byte_end),
                ] + ortho_from(ts, end_idx as int));
                assert(ortho_from(ts, 0) =~= ortho_views(matches@) + ortho_from(ts, end_idx as int));
            }
            i = end_idx;
        }
        assert(ortho_views(matches@) + seq![] =~= ortho_views(matches@));
        matches
    }

    /// Check if position is after sentence-ending punctuation
    fn is_after_sentence_end(&self, tokens: &[Token], pos: usize) -> (b: bool)
        requires
            pos <= tokens@.len(),
        ensures
            b == (pos == 0 || after_sentence_end(tokens@, pos - 1)),
    {
        if pos == 0 {
            return true;
        }
        let mut j: usize = pos;
        while j > 0
            invariant
                j <= pos <= tokens@.len(),
                after_sentence_end(tokens@, pos - 1) == after_sentence_end(tokens@, j - 1),
            decreases j,
        {
            let t = &tokens[j - 1];
            let s = t.text.as_str();
            if str_eq(s, ".") || str_eq(s, "!") || str_eq(s, "?") {
                return true;
            }
            // Skip whitespace
            if t.kind != TokenKind::Whitespace {
                return false;
            }
            j = j - 1;
        }
        false
    }

    /// Merge candidates from all sources
    fn merge_candidates(
        &self,
        gaz: Vec<GazetteerMatch>,
        rules: Vec<RuleMatch>,
        ortho: Vec<EntityMatch>,
    ) -> (all: Vec<EntityMatch>)
        ensures
            all@ == merged(gaz@, rules@, ortho@),
    {
        let ghost g0 = gaz@;
        let ghost r0 = rules@;
        let mut all: Vec<EntityMatch> = Vec::new();
        let mut gaz = gaz;
        let ghost mut k: int = 0;
        // Gazetteer matches (highest priority)
        while gaz.len() > 0
            invariant
                0 <= k <= g0.len(),
                gaz@ == g0.subrange(k, g0.len() as int),
                all@ == Seq::new(k as nat, |i: int| from_gazetteer(g0[i])),
            decreases gaz@.len(),
        {
            let m = gaz.remove(0);
            all.push(
                EntityMatch {
                    text: m.text,
                    kind: m.kind,
                    confidence: m.confidence,
                    byte_start: m.byte_start,
                    byte_end: m.byte_end,
                    source: MatchSource::Gazetteer,
                    canonical_label: Some(m.canonical_label),
                    entity_id: m.entity_id,
                },
            );
            proof {
                assert(m == g0[k]);
                k = k + 1;
                assert(all@ =~= Seq::new(k as nat, |i: int| from_gazetteer(g0[i])));
                assert(gaz@ =~= g0.subrange(k, g0.len() as int));
            }
        }
        let ghost a0 = all@;
        let mut rules = rules;
        let ghost mut k: int = 0;
        // Rule matches
        while rules.len() > 0
            invariant
                0 <= k <= r0.len(),
                rules@ == r0.subrange(k, r0.len() as int),
                all@ == a0 + Seq::new(k as nat, |i: int| from_rule(r0[i])),
            decreases rules@.len(),
        {
            let m = rules.remove(0);
            all.push(
                EntityMatch {
                    text: m.text,
                    kind: m.kind,
                    confidence: m.confidence,
                    byte_start: m.byte_start,
                    byte_end: m.byte_end,
                    source: MatchSource::Rule,
                    canonical_label: None,
                    entity_id: None,
                },
            );
            proof {
                assert(m == r0[k]);
                k = k + 1;
                assert(all@ =~= a0 + Seq::new(k as nat, |i: int| from_rule(r0[i])));
                assert(rules@ =~= r0.subrange(k, r0.len() as int));
            }
        }
        // Orthographic matches (lowest priority)
        let ghost o0 = ortho@;
        let mut ortho = ortho;
        all.append(&mut ortho);
        assert(all@ =~= merged(g0, r0, o0));
        all
    }

    /// Resolve overlapping matches
    fn resolve_conflicts(&self, candidates: Vec<EntityMatch>) -> (out: Vec<EntityMatch>)
        ensures
            out@ == resolve_overlaps(candidates@),
    {
        dedupe_ranked(candidates)
    }
}

/// The matches of at least `min` confidence, in order.
fn keep_confident(ms: Vec<EntityMatch>, min: u32) -> (out: Vec<EntityMatch>)
    ensures
        out@ == confident(ms@, min),
{
    let ghost orig = ms@;
    let mut ms = ms;
    let mut out: Vec<EntityMatch> = Vec::new();
    let ghost mut k: int = 0;
    while ms.len() > 0
        invariant
            0 <= k <= orig.len(),
            ms@ == orig.subrange(k, orig.len() as int),
            out@ == confident(orig.take(k), min),
        decreases ms@.len(),
    {
        let m = ms.remove(0);
        proof {
            let t = orig.take(k + 1);
            assert(t.drop_last() =~= orig.take(k));
            assert(t.last() == m);
        }
        if m.confidence >= min {
            out.push(m);
        }
        proof {
            k = k + 1;
            assert(ms@ =~= orig.subrange(k, orig.len() as int));
        }
    }
    assert(orig.take(orig.len() as int) =~= orig);
    out
}


// =============================================================================
// Laws
// =============================================================================

/// Token `x` may open a candidate: it is not a capitalized word opening a
/// sentence.
pub open spec fn may_open(ts: Seq<Token>, x: int) -> bool {
    !(shape_of(ts[x].text@) == OrthographicShape::InitCap && sentence_start(ts, x))
}

/// Candidate `c` starts at a token from `lo` on that may open one.
pub open spec fn opened_from(ts: Seq<Token>, lo: int, c: (Seq<char>, usize, usize)) -> bool {
    exists|x: int| lo <= x < ts.len() && c.1 == ts[x].byte_start && #[trigger] may_open(ts, x)
}

/// Every orthographic candidate from token `i0` on starts at some token
/// `x >= i0` that may open one.
proof fn lemma_ortho_starts(ts: Seq<Token>, i0: int)
    requires
        0 <= i0,
    ensures
        forall|k: int| 0 <= k < ortho_from(ts, i0).len() ==> opened_from(ts, i0, #[trigger] ortho_from(ts, i0)[k]),
    decreases ts.len() - i0,
{
    if i0 < ts.len() {
        lemma_ortho_starts(ts, i0 + 1);
        let sh = shape_of(ts[i0].text@);
        let r = ortho_from(ts, i0);
        let r1 = ortho_from(ts, i0 + 1);
        if !(sh == OrthographicShape::AllCaps || sh == OrthographicShape::InitCap || sh
            == OrthographicShape::MixedCaps) || in_list(unicode_lower_text(ts[i0].text@), ortho_stopwords()) || (
        sh == OrthographicShape::InitCap && sentence_start(ts, i0)) {
            assert(r == r1);
            assert forall|k: int| 0 <= k < r.len() implies opened_from(ts, i0, #[trigger] r[k]) by {
                assert(opened_from(ts, i0 + 1, r1[k]));
                let x = choose|x: int| i0 + 1 <= x < ts.len() && r1[k].1 == ts[x].byte_start && #[trigger] may_open(ts, x);
            }
        } else {
            let e = initcap_run_end(ts, i0 + 1);
            lemma_initcap_run_end_bounds(ts, i0 + 1);
            if e > i0 && e <= ts.len() {
                lemma_ortho_starts(ts, e);
                let rest = ortho_from(ts, e);
                assert(r == seq![(joined_text(ts, i0, e), ts[i0].byte_start, ts[e - 1].byte_end)] + rest);
                assert forall|k: int| 0 <= k < r.len() implies opened_from(ts, i0, #[trigger] r[k]) by {
                    if k == 0 {
                        assert(r[0].1 == ts[i0].byte_start);
                        assert(may_open(ts, i0));
                    } else {
                        assert(r[k] == rest[k - 1]);
                        assert(opened_from(ts, e, rest[k - 1]));
                        let x = choose|x: int| e <= x < ts.len() && rest[k - 1].1 == ts[x].byte_start && #[trigger] may_open(ts, x);
                    }
                }
            } else {
                assert(r == r1);
                assert forall|k: int| 0 <= k < r.len() implies opened_from(ts, i0, #[trigger] r[k]) by {
                    assert(opened_from(ts, i0 + 1, r1[k]));
                    let x = choose|x: int| i0 + 1 <= x < ts.len() && r1[k].1 == ts[x].byte_start && #[trigger] may_open(ts, x);
                }
            }
        }
    }
}

proof fn lemma_after_mark(ts: Seq<Token>, j: int, m: int)
    requires
        0 <= j <= m < ts.len(),
        is_sentence_mark(ts[j]),
        forall|q: int| j < q <= m ==> (#[trigger] ts[q]).kind == TokenKind::Whitespace,
    ensures
        after_sentence_end(ts, m),
    decreases m - j,
{
    if m > j {
        lemma_after_mark(ts, j, m - 1);
        if is_sentence_mark(ts[m]) {
        } else {
            assert(ts[m].kind == TokenKind::Whitespace);
        }
    }
}

/// A capitalized word right after a sentence end is no evidence of a name:
/// when token `j` is `.`, `!` or `?` and only whitespace tokens lie between
/// it and a capitalized token `i`, no orthographic candidate starts at `i`
/// (tokens in order of position, as the tokenizer gives them).
pub proof fn law_no_capital_after_sentence_end(ts: Seq<Token>, j: int, i: int)
    requires
        0 <= j < i < ts.len(),
        ts[j].text@ == seq!['.'] || ts[j].text@ == seq!['!'] || ts[j].text@ == seq!['?'],
        forall|q: int| j < q < i ==> (#[trigger] ts[q]).kind == TokenKind::Whitespace,
        shape_of(ts[i].text@) == OrthographicShape::InitCap,
        forall|a: int, b: int| 0 <= a < b < ts.len() ==> (#[trigger] ts[a]).byte_start < (#[trigger] ts[b]).byte_start,
    ensures
        forall|k: int| 0 <= k < ortho_from(ts, 0).len() ==> (#[trigger] ortho_from(ts, 0)[k]).1 != ts[i].byte_start,
{
    reveal_strlit(".");
    reveal_strlit("!");
    reveal_strlit("?");
    assert("."@ =~= seq!['.']);
    assert("!"@ =~= seq!['!']);
    assert("?"@ =~= seq!['?']);
    assert(is_sentence_mark(ts[j]));
    lemma_after_mark(ts, j, i - 1);
    assert(sentence_start(ts, i));
    lemma_ortho_starts(ts, 0);
    assert forall|k: int| 0 <= k < ortho_from(ts, 0).len() implies (#[trigger] ortho_from(ts, 0)[k]).1
        != ts[i].byte_start by {
        assert(opened_from(ts, 0, ortho_from(ts, 0)[k]));
        let x = choose|x: int| 0 <= x < ts.len() && ortho_from(ts, 0)[k].1 == ts[x].byte_start && #[trigger] may_open(ts, x);
        assert(x != i);
        if x < i {
            assert(ts[x].byte_start < ts[i].byte_start);
        } else {
            assert(ts[i].byte_start < ts[x].byte_start);
        }
    }
}

proof fn lemma_initcap_run_end_bounds(ts: Seq<Token>, j: int)
    requires
        0 <= j <= ts.len(),
    ensures
        j <= initcap_run_end(ts, j) <= ts.len(),
    decreases ts.len() - j,
{
    if j < ts.len() {
        lemma_initcap_run_end_bounds(ts, j + 1);
    }
}

/// Over ordered tokens every orthographic candidate has a well-formed span.
proof fn lemma_ortho_well_formed(ts: Seq<Token>, i: int)
    requires
        tokens_ordered(ts),
        0 <= i,
    ensures
        forall|k: int|
            0 <= k < ortho_from(ts, i).len() ==> (#[trigger] ortho_from(ts, i)[k]).1 <= ortho_from(
                ts,
                i,
            )[k].2,
    decreases ts.len() - i,
{
    if i < ts.len() {
        let sh = shape_of(ts[i].text@);
        let out = ortho_from(ts, i);
        if !(sh == OrthographicShape::AllCaps || sh == OrthographicShape::InitCap || sh
            == OrthographicShape::MixedCaps) || in_list(unicode_lower_text(ts[i].text@), ortho_stopwords())
            || (sh == OrthographicShape::InitCap && sentence_start(ts, i)) {
            lemma_ortho_well_formed(ts, i + 1);
            assert(out == ortho_from(ts, i + 1));
        } else {
            lemma_initcap_run_end_bounds(ts, i + 1);
            let e = initcap_run_end(ts, i + 1);
            lemma_ortho_well_formed(ts, e);
            let rest = ortho_from(ts, e);
            let head = (joined_text(ts, i, e), ts[i].byte_start, ts[e - 1].byte_end);
            assert(out == seq![head] + rest);
            assert(head.1 <= head.2) by {
                assert(ts[i].byte_start <= ts[i].byte_end);
                assert(ts[e - 1].byte_start <= ts[e - 1].byte_end);
                if i < e - 1 {
                    assert(ts[i].byte_end <= ts[e - 1].byte_start);
                }
            }
            assert forall|k: int| 0 <= k < out.len() implies (#[trigger] out[k]).1 <= out[k].2 by {
                if k > 0 {
                    assert(out[k] == rest[k - 1]);
                }
            }
        }
    }
}

/// Keeping the confident matches keeps members of the input, in order: every
/// kept match is at least as confident as asked, and an order of spans that
/// holds of the input holds of what is kept.
proof fn lemma_confident(ms: Seq<EntityMatch>, min: u32)
    ensures
        forall|k: int|
            0 <= k < confident(ms, min).len() ==> (#[trigger] confident(ms, min)[k]).confidence >= min
                && ms.contains(confident(ms, min)[k]),
        (forall|a: int, b: int|
            0 <= a < b < ms.len() ==> (#[trigger] ms[a]).byte_end <= (#[trigger] ms[b]).byte_start)
            ==> (forall|a: int, b: int|
            0 <= a < b < confident(ms, min).len() ==> (#[trigger] confident(ms, min)[a]).byte_end
                <= (#[trigger] confident(ms, min)[b]).byte_start),
    decreases ms.len(),
{
    if ms.len() > 0 {
        let init = ms.drop_last();
        lemma_confident(init, min);
        let r = confident(init, min);
        assert forall|k: int| 0 <= k < r.len() implies ms.contains(#[trigger] r[k]) by {
            let j = choose|j: int| 0 <= j < init.len() && init[j] == r[k];
            assert(ms[j] == init[j]);
        }
        if ms.last().confidence >= min {
            let out = r.push(ms.last());
            assert(confident(ms, min) == out);
            assert forall|k: int| 0 <= k < out.len() implies (#[trigger] out[k]).confidence >= min
                && ms.contains(out[k]) by {
                if k < r.len() {
                    assert(out[k] == r[k]);
                } else {
                    assert(ms[ms.len() - 1] == out[k]);
                }
            }
            if forall|a: int, b: int|
                0 <= a < b < ms.len() ==> (#[trigger] ms[a]).byte_end <= (#[trigger] ms[b]).byte_start {
                assert forall|a: int, b: int|
                    0 <= a < b < init.len() implies (#[trigger] init[a]).byte_end <= (
                    #[trigger] init[b]).byte_start by {
                    assert(init[a] == ms[a] && init[b] == ms[b]);
                }
                assert forall|a: int, b: int| 0 <= a < b < out.len() implies (#[trigger] out[a]).byte_end
                    <= (#[trigger] out[b]).byte_start by {
                    if b < r.len() {
                        assert(out[a] == r[a] && out[b] == r[b]);
                    } else {
                        assert(out[a] == r[a]);
                        let j = choose|j: int| 0 <= j < init.len() && init[j] == r[a];
                        assert(ms[j] == init[j]);
                        assert(ms[j].byte_end <= ms[ms.len() - 1].byte_start);
                    }
                }
            }
        } else {
            assert(confident(ms, min) == r);
            if forall|a: int, b: int|
                0 <= a < b < ms.len() ==> (#[trigger] ms[a]).byte_end <= (#[trigger] ms[b]).byte_start {
                assert forall|a: int, b: int|
                    0 <= a < b < init.len() implies (#[trigger] init[a]).byte_end <= (
                    #[trigger] init[b]).byte_start by {
                    assert(init[a] == ms[a] && init[b] == ms[b]);
                }
            }
        }
    }
}

/// What the pipeline reports is clean: every match is at least as confident
/// as the pipeline's minimum, has a well-formed byte span, and the matches
/// come in text order without overlapping.
pub proof fn law_reported_matches(p: Pipeline, text: &str, r: PipelineResult)
    requires
        p.processed(text, r),
    ensures
        forall|k: int|
            0 <= k < r.matches@.len() ==> (#[trigger] r.matches@[k]).confidence >= p.threshold()
                && r.matches@[k].byte_start <= r.matches@[k].byte_end,
        forall|a: int, b: int|
            0 <= a < b < r.matches@.len() ==> (#[trigger] r.matches@[a]).byte_end
                <= (#[trigger] r.matches@[b]).byte_start,
{
    let (toks, gaz, rms, orthos) = choose|
        toks: Seq<Token>,
        gaz: Seq<GazetteerMatch>,
        rms: Seq<RuleMatch>,
        orthos: Seq<EntityMatch>,
    |
        {
            &&& tokens_match(
                text@,
                visible_spans_from(text@, 0, p.tokenizer().keeps_whitespace()),
                toks,
            )
            &&& p.gazetteer().found_matches(text, gaz)
            &&& match_models(rms) == apply_from(p.rule_engine().rule_list(), toks, 0)
            &&& ortho_views(orthos) == ortho_from(toks, 0)
            &&& forall|i: int| 0 <= i < orthos.len() ==> ortho_shape_ok(#[trigger] orthos[i])
            &&& r.matches@ == confident(resolve_overlaps(merged(gaz, rms, orthos)), p.threshold())
            &&& r.token_count == toks.len()
        };
    law_token_offsets(text@, p.tokenizer().keeps_whitespace(), toks);
    assert(tokens_ordered(toks));
    lemma_found_well_formed(p.gazetteer(), text, gaz);
    lemma_annotations_well_formed(p.rule_engine().rule_list(), toks, 0);
    lemma_match_models_index(rms);
    lemma_ortho_well_formed(toks, 0);
    let all = merged(gaz, rms, orthos);
    assert forall|i: int| 0 <= i < all.len() implies (#[trigger] all[i]).rank_key().0
        <= all[i].rank_key().1 by {
        let ng = gaz.len() as int;
        let nr = rms.len() as int;
        if i < ng {
            assert(all[i] == from_gazetteer(gaz[i]));
        } else if i < ng + nr {
            assert(all[i] == from_rule(rms[i - ng]));
            assert(match_models(rms)[i - ng] == match_model(rms[i - ng]));
        } else {
            assert(all[i] == orthos[i - ng - nr]);
            assert(ortho_views(orthos)[i - ng - nr] == ortho_from(toks, 0)[i - ng - nr]);
        }
    }
    law_resolved_disjoint(all);
    let res = resolve_overlaps(all);
    assert forall|a: int, b: int| 0 <= a < b < res.len() implies (#[trigger] res[a]).byte_end
        <= (#[trigger] res[b]).byte_start by {
        assert(res[a].rank_key().1 <= res[b].rank_key().0);
    }
    lemma_confident(res, p.threshold());
    let out = r.matches@;
    assert forall|k: int| 0 <= k < out.len() implies (#[trigger] out[k]).confidence >= p.threshold()
        && out[k].byte_start <= out[k].byte_end by {
        assert(res.contains(out[k]));
        let j = choose|j: int| 0 <= j < res.len() && res[j] == out[k];
        assert(all.contains(res[j]));
        let i = choose|i: int| 0 <= i < all.len() && all[i] == res[j];
        assert(all[i].rank_key().0 <= all[i].rank_key().1);
    }
}

} // verus!
