//! Contextual pattern rules for entity recognition (Brill style).
//!
//! A rule is a sequence of pattern elements, each a token condition with a
//! repetition range; rules are tried in priority order at each word token and
//! the first that matches annotates its captured span.
//!
//! ```text
//! Rule: PersonAfterTitle
//! Pattern: [title] [InitCap]+
//! Action: annotate(CHARACTER)
//!
//! Rule: LocationAfterPreposition
//! Pattern: [in|at|from|to] [InitCap]+
//! Action: annotate(LOCATION)
//! ```
//!
//! Confidences are in thousandths (850 is 0.85).

use vstd::prelude::*;

use crate::orthographic::{shape_of, OrthographicClassifier, OrthographicShape};
use crate::text::{ascii_ci_eq, eq_ignore_ascii_case};
use crate::tokenizer::{Token, TokenKind};

verus! {

// =============================================================================
// Types
// =============================================================================

/// Condition for matching a token
#[derive(Debug, Clone, PartialEq)]
pub enum TokenCondition {
    /// Match specific text (case-insensitive)
    Text(String),
    /// Match any text in list
    TextIn(Vec<String>),
    /// Match orthographic shape
    Shape(OrthographicShape),
    /// Match orthographic shape BUT exclude specific texts (case-insensitive)
    ShapeNotIn(OrthographicShape, Vec<String>),
    /// Match token kind
    Kind(TokenKind),
    /// Match any token
    Any,
}

/// `w` equals one of `texts`, ignoring ASCII case.
pub open spec fn in_ci(w: Seq<char>, texts: Seq<String>) -> bool {
    exists|j: int| 0 <= j < texts.len() && ascii_ci_eq(w, (#[trigger] texts[j])@)
}

/// When a condition holds of a token.
pub open spec fn cond_matches(c: TokenCondition, t: Token) -> bool {
    match c {
        TokenCondition::Text(s) => ascii_ci_eq(t.text@, s@),
        TokenCondition::TextIn(v) => in_ci(t.text@, v@),
        TokenCondition::Shape(sh) => shape_of(t.text@) == sh,
        TokenCondition::ShapeNotIn(sh, v) => shape_of(t.text@) == sh && !in_ci(t.text@, v@),
        TokenCondition::Kind(k) => t.kind == k,
        TokenCondition::Any => true,
    }
}

fn any_ci(w: &str, texts: &Vec<String>) -> (r: bool)
    ensures
        r == in_ci(w@, texts@),
{
    let mut j: usize = 0;
    while j < texts.len()
        invariant
            j <= texts@.len(),
            forall|i: int| 0 <= i < j ==> !ascii_ci_eq(w@, (#[trigger] texts@[i])@),
        decreases texts@.len() - j,
    {
        if eq_ignore_ascii_case(w, texts[j].as_str()) {
            assert(ascii_ci_eq(w@, texts@[j as int]@));
            return true;
        }
        j = j + 1;
    }
    false
}

impl TokenCondition {
    /// Check if condition matches a token
    pub fn matches(&self, token: &Token, classifier: &OrthographicClassifier) -> (b: bool)
        ensures
            b == cond_matches(*self, *token),
    {
        match self {
            TokenCondition::Text(t) => eq_ignore_ascii_case(token.text.as_str(), t.as_str()),
            TokenCondition::TextIn(texts) => any_ci(token.text.as_str(), texts),
            TokenCondition::Shape(shape) => classifier.classify(token.text.as_str()) == *shape,
            TokenCondition::ShapeNotIn(shape, exclude) => {
                classifier.classify(token.text.as_str()) == *shape && !any_ci(
                    token.text.as_str(),
                    exclude,
                )
            },
            TokenCondition::Kind(kind) => token.kind == *kind,
            TokenCondition::Any => true,
        }
    }
}

/// A pattern element (with quantifier)
#[derive(Debug, Clone, PartialEq)]
pub struct PatternElement {
    pub condition: TokenCondition,
    /// Minimum occurrences
    pub min: usize,
    /// Maximum occurrences (None = unlimited)
    pub max: Option<usize>,
    /// Should this element be included in the annotation span?
    pub capture: bool,
}

impl PatternElement {
    /// Single required match
    pub fn one(condition: TokenCondition) -> (e: Self)
        ensures
            e == (PatternElement { condition, min: 1, max: Some(1), capture: true }),
    {
        PatternElement { condition, min: 1, max: Some(1), capture: true }
    }

    /// One or more matches
    pub fn one_or_more(condition: TokenCondition) -> (e: Self)
        ensures
            e == (PatternElement { condition, min: 1, max: None, capture: true }),
    {
        PatternElement { condition, min: 1, max: None, capture: true }
    }

    /// Zero or one match (optional)
    pub fn optional(condition: TokenCondition) -> (e: Self)
        ensures
            e == (PatternElement { condition, min: 0, max: Some(1), capture: true }),
    {
        PatternElement { condition, min: 0, max: Some(1), capture: true }
    }

    /// Context-only (not included in span)
    pub fn context(condition: TokenCondition) -> (e: Self)
        ensures
            e == (PatternElement { condition, min: 1, max: Some(1), capture: false }),
    {
        PatternElement { condition, min: 1, max: Some(1), capture: false }
    }
}

/// A contextual rule
#[derive(Debug, Clone)]
pub struct Rule {
    /// Rule name (for debugging)
    pub name: String,
    /// Priority (higher = applied first)
    pub priority: u32,
    /// Pattern elements to match
    pub pattern: Vec<PatternElement>,
    /// Entity kind to annotate
    pub entity_kind: String,
    /// Confidence, in thousandths
    pub confidence: u32,
}

/// A matched rule result
#[derive(Debug, Clone, PartialEq)]
pub struct RuleMatch {
    /// Rule that matched
    pub rule_name: String,
    /// Matched text
    pub text: String,
    /// Entity kind
    pub kind: String,
    /// Confidence, in thousandths
    pub confidence: u32,
    /// Start byte offset
    pub byte_start: usize,
    /// End byte offset
    pub byte_end: usize,
}

// =============================================================================
// Matching specification
// =============================================================================

/// One pattern element run greedily from token `pos`: whitespace tokens are
/// skipped, matching tokens are counted until the element's maximum, and the
/// capture span `[first, last)` grows over captured tokens. Returns the new
/// position, the count and the capture span.
pub open spec fn elem_run(
    ts: Seq<Token>,
    e: PatternElement,
    pos: int,
    count: int,
    first: Option<int>,
    last: Option<int>,
) -> (int, int, Option<int>, Option<int>)
    decreases ts.len() - pos,
{
    if pos < 0 || pos >= ts.len() {
        (pos, count, first, last)
    } else if ts[pos].kind == TokenKind::Whitespace {
        elem_run(ts, e, pos + 1, count, first, last)
    } else if cond_matches(e.condition, ts[pos]) {
        let c2 = count + 1;
        let f2 = if e.capture && first is None {
            Some(pos)
        } else {
            first
        };
        let l2 = if e.capture {
            Some(pos + 1)
        } else {
            last
        };
        if e.max matches Some(m) && c2 >= m {
            (pos + 1, c2, f2, l2)
        } else {
            elem_run(ts, e, pos + 1, c2, f2, l2)
        }
    } else {
        (pos, count, first, last)
    }
}

/// The pattern elements from `k` on, run in order; `None` when one of them
/// matches fewer tokens than its minimum.
pub open spec fn pattern_run(
    ts: Seq<Token>,
    pat: Seq<PatternElement>,
    k: int,
    pos: int,
    first: Option<int>,
    last: Option<int>,
) -> Option<(int, Option<int>, Option<int>)>
    decreases pat.len() - k,
{
    if k < 0 || k >= pat.len() {
        Some((pos, first, last))
    } else {
        let r = elem_run(ts, pat[k], pos, 0, first, last);
        if r.1 < pat[k].min {
            None
        } else {
            pattern_run(ts, pat, k + 1, r.0, r.2, r.3)
        }
    }
}

/// A rule matched at token `start`: the captured token span `[s, e)` (not
/// empty) and the number of tokens consumed.
pub open spec fn rule_match_at(ts: Seq<Token>, rule: Rule, start: int) -> Option<(int, int, int)> {
    match pattern_run(ts, rule.pattern@, 0, start, None, None) {
        Some((p, Some(s), Some(e))) => if e > s {
            Some((s, e, p - start))
        } else {
            None
        },
        _ => None,
    }
}

/// The first rule, from index `r` on, that matches at token `i`.
pub open spec fn first_match(rules: Seq<Rule>, ts: Seq<Token>, i: int, r: int) -> Option<
    (int, (int, int, int)),
>
    decreases rules.len() - r,
{
    if r < 0 || r >= rules.len() {
        None
    } else {
        match rule_match_at(ts, rules[r], i) {
            Some(m) => Some((r, m)),
            None => first_match(rules, ts, i, r + 1),
        }
    }
}

/// The texts of tokens `[s, e)` joined by single spaces.
pub open spec fn joined_text(ts: Seq<Token>, s: int, e: int) -> Seq<char>
    decreases e - s,
{
    if e <= s {
        seq![]
    } else if e == s + 1 {
        ts[s].text@
    } else {
        joined_text(ts, s, e - 1) + seq![' '] + ts[e - 1].text@
    }
}

/// A match as plain values.
pub struct MatchModel {
    pub rule_name: Seq<char>,
    pub text: Seq<char>,
    pub kind: Seq<char>,
    pub confidence: u32,
    pub byte_start: usize,
    pub byte_end: usize,
}

pub open spec fn match_model(m: RuleMatch) -> MatchModel {
    MatchModel {
        rule_name: m.rule_name@,
        text: m.text@,
        kind: m.kind@,
        confidence: m.confidence,
        byte_start: m.byte_start,
        byte_end: m.byte_end,
    }
}

pub open spec fn match_models(ms: Seq<RuleMatch>) -> Seq<MatchModel>
    decreases ms.len(),
{
    if ms.len() == 0 {
        seq![]
    } else {
        match_models(ms.drop_last()).push(match_model(ms.last()))
    }
}

/// The annotation a rule makes of tokens `[s, e)`.
pub open spec fn annotation(rule: Rule, ts: Seq<Token>, s: int, e: int) -> MatchModel {
    MatchModel {
        rule_name: rule.name@,
        text: joined_text(ts, s, e),
        kind: rule.entity_kind@,
        confidence: rule.confidence,
        byte_start: ts[s].byte_start,
        byte_end: ts[e - 1].byte_end,
    }
}

/// Scan from token `i`: punctuation and whitespace are skipped; at a word the
/// first matching rule annotates its span and the scan resumes after the
/// consumed tokens, else it moves one token on.
pub open spec fn apply_from(rules: Seq<Rule>, ts: Seq<Token>, i: int) -> Seq<MatchModel>
    decreases ts.len() - i,
{
    if i < 0 || i >= ts.len() {
        seq![]
    } else if ts[i].kind == TokenKind::Punctuation || ts[i].kind == TokenKind::Whitespace {
        apply_from(rules, ts, i + 1)
    } else {
        match first_match(rules, ts, i, 0) {
            Some((r, (s, e, c))) => seq![annotation(rules[r], ts, s, e)] + if c > 0 && i + c <= ts.len() {
                apply_from(rules, ts, i + c)
            } else {
                apply_from(rules, ts, i + 1)
            },
            None => apply_from(rules, ts, i + 1),
        }
    }
}

/// Capture bounds stay within `[start, pos]`.
pub open spec fn capture_bounds(start: int, pos: int, first: Option<int>, last: Option<int>) -> bool {
    &&& first matches Some(f) ==> start <= f
    &&& last matches Some(l) ==> l <= pos
    &&& first matches Some(f) ==> (last matches Some(l) && f < l)
}

pub proof fn lemma_elem_run_bounds(
    ts: Seq<Token>,
    e: PatternElement,
    start: int,
    pos: int,
    count: int,
    first: Option<int>,
    last: Option<int>,
)
    requires
        start <= pos <= ts.len(),
        capture_bounds(start, pos, first, last),
    ensures
        ({
            let r = elem_run(ts, e, pos, count, first, last);
            &&& pos <= r.0 <= ts.len()
            &&& r.1 >= count
            &&& capture_bounds(start, r.0, r.2, r.3)
        }),
    decreases ts.len() - pos,
{
    if pos < 0 || pos >= ts.len() {
    } else if ts[pos].kind == TokenKind::Whitespace {
        lemma_elem_run_bounds(ts, e, start, pos + 1, count, first, last);
    } else if cond_matches(e.condition, ts[pos]) {
        let c2 = count + 1;
        let f2 = if e.capture && first is None {
            Some(pos)
        } else {
            first
        };
        let l2 = if e.capture {
            Some(pos + 1)
        } else {
            last
        };
        if e.max matches Some(m) && c2 >= m {
        } else {
            lemma_elem_run_bounds(ts, e, start, pos + 1, c2, f2, l2);
        }
    }
}

pub proof fn lemma_pattern_run_bounds(
    ts: Seq<Token>,
    pat: Seq<PatternElement>,
    k: int,
    start: int,
    pos: int,
    first: Option<int>,
    last: Option<int>,
)
    requires
        0 <= k,
        start <= pos <= ts.len(),
        capture_bounds(start, pos, first, last),
    ensures
        pattern_run(ts, pat, k, pos, first, last) matches Some((p, f, l)) ==> start <= p <= ts.len()
            && capture_bounds(start, p, f, l),
    decreases pat.len() - k,
{
    if k >= pat.len() {
    } else {
        lemma_elem_run_bounds(ts, pat[k], start, pos, 0, first, last);
        let r = elem_run(ts, pat[k], pos, 0, first, last);
        if r.1 >= pat[k].min {
            lemma_pattern_run_bounds(ts, pat, k + 1, start, r.0, r.2, r.3);
        }
    }
}

/// A match at `start` covers a non-empty captured span inside the consumed
/// tokens.
pub proof fn lemma_rule_match_bounds(ts: Seq<Token>, rule: Rule, start: int)
    requires
        0 <= start <= ts.len(),
    ensures
        rule_match_at(ts, rule, start) matches Some((s, e, c)) ==> start <= s < e <= start + c
            <= ts.len(),
{
    lemma_pattern_run_bounds(ts, rule.pattern@, 0, start, start, None, None);
}

pub proof fn lemma_first_match_bounds(rules: Seq<Rule>, ts: Seq<Token>, i: int, r: int)
    requires
        0 <= i <= ts.len(),
        0 <= r,
    ensures
        first_match(rules, ts, i, r) matches Some((k, (s, e, c))) ==> r <= k < rules.len() && i
            <= s < e <= i + c <= ts.len() && rule_match_at(ts, rules[k], i) == Some((s, e, c)),
    decreases rules.len() - r,
{
    if r < rules.len() {
        lemma_rule_match_bounds(ts, rules[r], i);
        lemma_first_match_bounds(rules, ts, i, r + 1);
    }
}

// =============================================================================
// Rule order
// =============================================================================

/// Rules in descending priority order.
pub open spec fn by_priority(rs: Seq<Rule>) -> bool {
    forall|i: int, j: int| 0 <= i < j < rs.len() ==> rs[i].priority >= rs[j].priority
}

/// Where a rule of priority `p` goes: after every rule of priority at least `p`.
pub open spec fn insert_point(rs: Seq<Rule>, p: u32) -> int
    decreases rs.len(),
{
    if rs.len() == 0 || rs[0].priority < p {
        0
    } else {
        1 + insert_point(rs.drop_first(), p)
    }
}

pub proof fn lemma_insert_point(rs: Seq<Rule>, p: u32, j: int)
    requires
        0 <= j <= rs.len(),
        forall|i: int| 0 <= i < j ==> (#[trigger] rs[i]).priority >= p,
        j < rs.len() ==> rs[j].priority < p,
    ensures
        insert_point(rs, p) == j,
    decreases rs.len(),
{
    if rs.len() > 0 && j > 0 {
        assert(rs[0].priority >= p);
        let t = rs.drop_first();
        assert forall|i: int| 0 <= i < j - 1 implies (#[trigger] t[i]).priority >= p by {
            assert(t[i] == rs[i + 1]);
        }
        if j - 1 < t.len() {
            assert(t[j - 1] == rs[j]);
        }
        lemma_insert_point(t, p, j - 1);
    }
}

// =============================================================================
// Default rules
// =============================================================================

/// `v` holds exactly the texts `w`.
pub open spec fn strings_are(v: Seq<String>, w: Seq<Seq<char>>) -> bool {
    &&& v.len() == w.len()
    &&& forall|i: int| 0 <= i < v.len() ==> (#[trigger] v[i])@ == w[i]
}

pub open spec fn is_text_in(c: TokenCondition, w: Seq<Seq<char>>) -> bool {
    c matches TokenCondition::TextIn(v) && strings_are(v@, w)
}

pub open spec fn is_text(c: TokenCondition, w: Seq<char>) -> bool {
    c matches TokenCondition::Text(t) && t@ == w
}

pub open spec fn is_shape_not_in(c: TokenCondition, sh: OrthographicShape, w: Seq<Seq<char>>) -> bool {
    c matches TokenCondition::ShapeNotIn(s, v) && s == sh && strings_are(v@, w)
}

pub open spec fn title_words() -> Seq<Seq<char>> {
    seq![
        "lord"@,
        "lady"@,
        "sir"@,
        "dr"@,
        "doctor"@,
        "professor"@,
        "king"@,
        "queen"@,
        "prince"@,
        "princess"@,
        "captain"@,
        "master"@,
    ]
}

pub open spec fn preposition_words() -> Seq<Seq<char>> {
    seq!["in"@, "at"@, "from"@, "to"@, "near"@, "through"@]
}

/// Common function words often capitalized at sentence start.
pub open spec fn stop_words() -> Seq<Seq<char>> {
    seq![
        "the"@,
        "this"@,
        "that"@,
        "however"@,
        "when"@,
        "where"@,
        "what"@,
        "which"@,
        "while"@,
        "also"@,
        "just"@,
        "from"@,
        "with"@,
        "have"@,
        "been"@,
        "then"@,
        "than"@,
        "there"@,
        "here"@,
        "some"@,
        "such"@,
        "only"@,
        "even"@,
        "well"@,
        "very"@,
        "much"@,
        "many"@,
    ]
}

pub open spec fn rule_is(r: Rule, name: Seq<char>, priority: u32, kind: Seq<char>, confidence: u32) -> bool {
    &&& r.name@ == name
    &&& r.priority == priority
    &&& r.entity_kind@ == kind
    &&& r.confidence == confidence
}

/// A word of one of the listed texts, then one or more capitalized words.
pub open spec fn context_then_names(r: Rule, words: Seq<Seq<char>>) -> bool {
    &&& r.pattern@.len() == 2
    &&& is_text_in(r.pattern@[0].condition, words)
    &&& r.pattern@[0].min == 1 && r.pattern@[0].max == Some(1usize) && !r.pattern@[0].capture
    &&& r.pattern@[1].condition == TokenCondition::Shape(OrthographicShape::InitCap)
    &&& r.pattern@[1].min == 1 && r.pattern@[1].max == None::<usize> && r.pattern@[1].capture
}

/// The built-in narrative rules, highest priority first.
pub open spec fn is_default_rules(rs: Seq<Rule>) -> bool {
    &&& rs.len() == 5
    &&& rule_is(rs[0], "PersonAfterTitle"@, 100, "CHARACTER"@, 850)
    &&& context_then_names(rs[0], title_words())
    &&& rule_is(rs[1], "LocationAfterPrep"@, 80, "LOCATION"@, 700)
    &&& context_then_names(rs[1], preposition_words())
    &&& rule_is(rs[2], "EpithetWithThe"@, 75, "CHARACTER"@, 650)
    &&& rs[2].pattern@.len() == 2
    &&& is_text(rs[2].pattern@[0].condition, "the"@)
    &&& rs[2].pattern@[0].min == 1 && rs[2].pattern@[0].max == Some(1usize)
        && rs[2].pattern@[0].capture
    &&& rs[2].pattern@[1].condition == TokenCondition::Shape(OrthographicShape::InitCap)
    &&& rs[2].pattern@[1].min == 1 && rs[2].pattern@[1].max == None::<usize>
        && rs[2].pattern@[1].capture
    &&& rule_is(rs[3], "AcronymEntity"@, 70, "FACTION"@, 600)
    &&& rs[3].pattern@.len() == 1
    &&& rs[3].pattern@[0].condition == TokenCondition::Shape(OrthographicShape::AllCaps)
    &&& rs[3].pattern@[0].min == 1 && rs[3].pattern@[0].max == Some(1usize)
        && rs[3].pattern@[0].capture
    &&& rule_is(rs[4], "StandaloneInitCap"@, 50, "CHARACTER"@, 550)
    &&& rs[4].pattern@.len() == 1
    &&& is_shape_not_in(rs[4].pattern@[0].condition, OrthographicShape::InitCap, stop_words())
    &&& rs[4].pattern@[0].min == 1 && rs[4].pattern@[0].max == None::<usize>
        && rs[4].pattern@[0].capture
}

// =============================================================================
// Rule Engine
// =============================================================================

/// Contextual rule engine
pub struct RuleEngine {
    /// Rules sorted by priority (descending)
    rules: Vec<Rule>,
    /// Orthographic classifier
    classifier: OrthographicClassifier,
}

impl Default for RuleEngine {
    fn default() -> (e: Self)
        ensures
            is_default_rules(e.rule_list()),
    {
        Self::new()
    }
}

impl RuleEngine {
    #[verifier::type_invariant]
    spec fn sorted(self) -> bool {
        by_priority(self.rules@)
    }

    /// The rules, in the order they are tried.
    pub closed spec fn rule_list(self) -> Seq<Rule> {
        self.rules@
    }

    pub fn new() -> (e: Self)
        ensures
            is_default_rules(e.rule_list()),
            by_priority(e.rule_list()),
    {
        let mut engine = RuleEngine { rules: Vec::new(), classifier: OrthographicClassifier::new() };
        engine.load_default_rules();
        engine
    }

    /// Add a rule; rules stay sorted by priority (descending), a new rule
    /// going after those of equal priority.
    pub fn add_rule(&mut self, rule: Rule)
        ensures
            final(self).rule_list() == old(self).rule_list().insert(
                insert_point(old(self).rule_list(), rule.priority),
                rule,
            ),
            by_priority(final(self).rule_list()),
    {
        proof {
            use_type_invariant(&*self);
        }
        let p = rule.priority;
        let mut j: usize = 0;
        while j < self.rules.len() && self.rules[j].priority >= p
            invariant
                j <= self.rules@.len(),
                forall|i: int| 0 <= i < j ==> (#[trigger] self.rules@[i]).priority >= p,
            decreases self.rules@.len() - j,
        {
            j = j + 1;
        }
        proof {
            lemma_insert_point(self.rules@, p, j as int);
        }
        let ghost old_rules = self.rules@;
        let mut rules: Vec<Rule> = Vec::new();
        std::mem::swap(&mut rules, &mut self.rules);
        rules.insert(j, rule);
        assert(rules@ == old_rules.insert(j as int, rule));
        assert(by_priority(rules@)) by {
            assert forall|a: int, b: int| 0 <= a < b < rules@.len() implies rules@[a].priority
                >= rules@[b].priority by {
                if a < j && b > j {
                    assert(rules@[b] == old_rules[b - 1]);
                }
                if a > j {
                    assert(rules@[a] == old_rules[a - 1]);
                    assert(rules@[b] == old_rules[b - 1]);
                }
                if a == j && b > j {
                    assert(rules@[b] == old_rules[b - 1]);
                }
            }
        }
        std::mem::swap(&mut rules, &mut self.rules);
    }

    /// Apply rules to tokens, return matches
    pub fn apply(&self, tokens: &[Token]) -> (matches: Vec<RuleMatch>)
        ensures
            match_models(matches@) == apply_from(self.rule_list(), tokens@, 0),
    {
        let ghost ts = tokens@;
        let ghost rs = self.rules@;
        let mut matches: Vec<RuleMatch> = Vec::new();
        let mut i: usize = 0;
        while i < tokens.len()
            invariant
                i <= ts.len(),
                ts == tokens@,
                rs == self.rules@,
                apply_from(rs, ts, 0) == match_models(matches@) + apply_from(rs, ts, i as int),
            decreases ts.len() - i,
        {
            if tokens[i].kind == TokenKind::Punctuation || tokens[i].kind == TokenKind::Whitespace {
                i = i + 1;
                continue;
            }
            let mut r: usize = 0;
            let mut found: Option<(usize, usize, usize, usize)> = None;
            while r < self.rules.len() && found.is_none()
                invariant
                    r <= rs.len(),
                    i < ts.len(),
                    ts == tokens@,
                    rs == self.rules@,
                    found is None ==> first_match(rs, ts, i as int, 0) == first_match(
                        rs,
                        ts,
                        i as int,
                        r as int,
                    ),
                    found matches Some((k, s, e, c)) ==> first_match(rs, ts, i as int, 0) == Some(
                        (k as int, (s as int, e as int, c as int)),
                    ),
                decreases rs.len() - r,
            {
                match self.try_match_rule(&self.rules[r], tokens, i) {
                    Some((s, e, c)) => {
                        found = Some((r, s, e, c));
                    },
                    None => {},
                }
                r = r + 1;
            }
            match found {
                Some((k, s, e, c)) => {
                    proof {
                        lemma_first_match_bounds(rs, ts, i as int, 0);
                    }
                    let rule = &self.rules[k];
                    let text = join_texts(tokens, s, e);
                    let m = RuleMatch {
                        rule_name: rule.name.clone(),
                        text,
                        kind: rule.entity_kind.clone(),
                        confidence: rule.confidence,
                        byte_start: tokens[s].byte_start,
                        byte_end: tokens[e - 1].byte_end,
                    };
                    let ghost before = matches@;
                    matches.push(m);
                    proof {
                        assert(matches@.drop_last() == before);
                        assert(match_models(matches@) == match_models(before).push(
                            annotation(rs[k as int], ts, s as int, e as int),
                        ));
                        assert(match_models(matches@) + apply_from(rs, ts, i + c) =~= match_models(
                            before,
                        ) + (seq![annotation(rs[k as int], ts, s as int, e as int)] + apply_from(
                            rs,
                            ts,
                            i + c,
                        )));
                    }
                    i = i + c;
                },
                None => {
                    i = i + 1;
                },
            }
        }
        proof {
            assert(match_models(matches@) + seq![] =~= match_models(matches@));
        }
        matches
    }

    /// Try to match a rule at position, returns (span_start, span_end, tokens_consumed)
    fn try_match_rule(&self, rule: &Rule, tokens: &[Token], start: usize) -> (r: Option<
        (usize, usize, usize),
    >)
        requires
            start <= tokens@.len(),
        ensures
            match r {
                Some((s, e, c)) => rule_match_at(tokens@, *rule, start as int) == Some(
                    (s as int, e as int, c as int),
                ),
                None => rule_match_at(tokens@, *rule, start as int) is None,
            },
    {
        let ghost ts = tokens@;
        let ghost pat = rule.pattern@;
        let mut pos = start;
        let mut span_start: Option<usize> = None;
        let mut span_end: Option<usize> = None;
        let mut k: usize = 0;
        while k < rule.pattern.len()
            invariant
                k <= pat.len(),
                start <= pos <= ts.len(),
                ts == tokens@,
                pat == rule.pattern@,
                capture_bounds(start as int, pos as int, opt_int(span_start), opt_int(span_end)),
                pattern_run(ts, pat, 0, start as int, None, None) == pattern_run(
                    ts,
                    pat,
                    k as int,
                    pos as int,
                    opt_int(span_start),
                    opt_int(span_end),
                ),
            decreases pat.len() - k,
        {
            let element = &rule.pattern[k];
            let ghost pos0 = pos as int;
            let ghost f0 = opt_int(span_start);
            let ghost l0 = opt_int(span_end);
            let mut count: usize = 0;
            let mut done = false;
            while pos < tokens.len() && !done
                invariant
                    start <= pos0 <= pos <= ts.len(),
                    count <= pos - pos0,
                    ts == tokens@,
                    *element == pat[k as int],
                    capture_bounds(start as int, pos as int, opt_int(span_start), opt_int(span_end)),
                    done ==> elem_run(ts, *element, pos0, 0, f0, l0) == (
                        pos as int,
                        count as int,
                        opt_int(span_start),
                        opt_int(span_end),
                    ),
                    !done ==> elem_run(ts, *element, pos0, 0, f0, l0) == elem_run(
                        ts,
                        *element,
                        pos as int,
                        count as int,
                        opt_int(span_start),
                        opt_int(span_end),
                    ),
                decreases ts.len() - pos, if done { 0int } else { 1int },
            {
                if tokens[pos].kind == TokenKind::Whitespace {
                    pos = pos + 1;
                } else if element.condition.matches(&tokens[pos], &self.classifier) {
                    count = count + 1;
                    if element.capture {
                        if span_start.is_none() {
                            span_start = Some(pos);
                        }
                        span_end = Some(pos + 1);
                    }
                    pos = pos + 1;
                    match element.max {
                        Some(max) => {
                            if count >= max {
                                done = true;
                            }
                        },
                        None => {},
                    }
                } else {
                    done = true;
                }
            }
            if count < element.min {
                return None;
            }
            k = k + 1;
        }
        match (span_start, span_end) {
            (Some(s), Some(e)) => {
                if e > s {
                    Some((s, e, pos - start))
                } else {
                    None
                }
            },
            _ => None,
        }
    }

    /// Load default narrative rules
    fn load_default_rules(&mut self)
        requires
            old(self).rule_list().len() == 0,
        ensures
            is_default_rules(final(self).rule_list()),
    {
        let titles = vec![
            "lord".to_owned(),
            "lady".to_owned(),
            "sir".to_owned(),
            "dr".to_owned(),
            "doctor".to_owned(),
            "professor".to_owned(),
            "king".to_owned(),
            "queen".to_owned(),
            "prince".to_owned(),
            "princess".to_owned(),
            "captain".to_owned(),
            "master".to_owned(),
        ];
        assert(strings_are(titles@, title_words()));
        // Rule: Title + InitCap+ → CHARACTER
        let r0 = Rule {
            name: "PersonAfterTitle".to_owned(),
            priority: 100,
            pattern: vec![
                PatternElement::context(TokenCondition::TextIn(titles)),
                PatternElement::one_or_more(TokenCondition::Shape(OrthographicShape::InitCap)),
            ],
            entity_kind: "CHARACTER".to_owned(),
            confidence: 850,
        };
        let ghost g0 = r0;
        assert(rule_is(g0, "PersonAfterTitle"@, 100, "CHARACTER"@, 850));
        assert(context_then_names(g0, title_words()));
        self.add_rule(r0);
        assert(self.rule_list() =~= seq![g0]);
        let preps = vec![
            "in".to_owned(),
            "at".to_owned(),
            "from".to_owned(),
            "to".to_owned(),
            "near".to_owned(),
            "through".to_owned(),
        ];
        assert(strings_are(preps@, preposition_words()));
        // Rule: Prep + InitCap+ → LOCATION (weaker)
        let r1 = Rule {
            name: "LocationAfterPrep".to_owned(),
            priority: 80,
            pattern: vec![
                PatternElement::context(TokenCondition::TextIn(preps)),
                PatternElement::one_or_more(TokenCondition::Shape(OrthographicShape::InitCap)),
            ],
            entity_kind: "LOCATION".to_owned(),
            confidence: 700,
        };
        let ghost g1 = r1;
        assert(rule_is(g1, "LocationAfterPrep"@, 80, "LOCATION"@, 700));
        assert(context_then_names(g1, preposition_words()));
        proof {
            lemma_insert_point(self.rule_list(), 80, 1);
        }
        self.add_rule(r1);
        assert(self.rule_list() =~= seq![g0, g1]);
        // Rule: "the" + InitCap+ → CHARACTER/ITEM (epithets like "The Doctor")
        let r2 = Rule {
            name: "EpithetWithThe".to_owned(),
            priority: 75,
            pattern: vec![
                PatternElement::one(TokenCondition::Text("the".to_owned())),
                PatternElement::one_or_more(TokenCondition::Shape(OrthographicShape::InitCap)),
            ],
            entity_kind: "CHARACTER".to_owned(),
            confidence: 650,
        };
        let ghost g2 = r2;
        assert(rule_is(g2, "EpithetWithThe"@, 75, "CHARACTER"@, 650));
        assert(is_text(g2.pattern@[0].condition, "the"@));
        proof {
            lemma_insert_point(self.rule_list(), 75, 2);
        }
        self.add_rule(r2);
        assert(self.rule_list() =~= seq![g0, g1, g2]);
        // Rule: AllCaps (2+ chars) → FACTION/ORG
        let r3 = Rule {
            name: "AcronymEntity".to_owned(),
            priority: 70,
            pattern: vec![PatternElement::one(TokenCondition::Shape(OrthographicShape::AllCaps))],
            entity_kind: "FACTION".to_owned(),
            confidence: 600,
        };
        let ghost g3 = r3;
        assert(rule_is(g3, "AcronymEntity"@, 70, "FACTION"@, 600));
        proof {
            lemma_insert_point(self.rule_list(), 70, 3);
        }
        self.add_rule(r3);
        assert(self.rule_list() =~= seq![g0, g1, g2, g3]);
        let stops = vec![
            "the".to_owned(),
            "this".to_owned(),
            "that".to_owned(),
            "however".to_owned(),
            "when".to_owned(),
            "where".to_owned(),
            "what".to_owned(),
            "which".to_owned(),
            "while".to_owned(),
            "also".to_owned(),
            "just".to_owned(),
            "from".to_owned(),
            "with".to_owned(),
            "have".to_owned(),
            "been".to_owned(),
            "then".to_owned(),
            "than".to_owned(),
            "there".to_owned(),
            "here".to_owned(),
            "some".to_owned(),
            "such".to_owned(),
            "only".to_owned(),
            "even".to_owned(),
            "well".to_owned(),
            "very".to_owned(),
            "much".to_owned(),
            "many".to_owned(),
        ];
        assert(strings_are(stops@, stop_words()));
        // Rule: Standalone InitCap (not at sentence start) → CHARACTER,
        // excluding common stopwords that are often capitalized
        let r4 = Rule {
            name: "StandaloneInitCap".to_owned(),
            priority: 50,
            pattern: vec![
                PatternElement::one_or_more(
                    TokenCondition::ShapeNotIn(OrthographicShape::InitCap, stops),
                ),
            ],
            entity_kind: "CHARACTER".to_owned(),
            confidence: 550,
        };
        let ghost g4 = r4;
        assert(rule_is(g4, "StandaloneInitCap"@, 50, "CHARACTER"@, 550));
        assert(is_shape_not_in(g4.pattern@[0].condition, OrthographicShape::InitCap, stop_words()));
        proof {
            lemma_insert_point(self.rule_list(), 50, 4);
        }
        self.add_rule(r4);
        assert(self.rule_list() =~= seq![g0, g1, g2, g3, g4]);
    }

    /// Get rule count
    pub fn rule_count(&self) -> (n: usize)
        ensures
            n == self.rule_list().len(),
    {
        self.rules.len()
    }

    /// Clear all rules
    pub fn clear(&mut self)
        ensures
            final(self).rule_list().len() == 0,
    {
        self.rules = Vec::new();
    }
}

pub open spec fn opt_int(o: Option<usize>) -> Option<int> {
    match o {
        Some(v) => Some(v as int),
        None => None,
    }
}

/// The texts of `tokens[s..e]` joined by single spaces.
pub(crate) fn join_texts(tokens: &[Token], s: usize, e: usize) -> (text: String)
    requires
        s < e <= tokens@.len(),
    ensures
        text@ == joined_text(tokens@, s as int, e as int),
{
    let mut text = tokens[s].text.clone();
    let mut k = s + 1;
    while k < e
        invariant
            s < k <= e <= tokens@.len(),
            text@ == joined_text(tokens@, s as int, k as int),
        decreases e - k,
    {
        proof {
            reveal_strlit(" ");
        }
        text.append(" ");
        text.append(tokens[k].text.as_str());
        k = k + 1;
    }
    text
}

/// Tokens whose byte spans are well formed and in order.
pub open spec fn tokens_ordered(ts: Seq<Token>) -> bool {
    &&& forall|k: int| 0 <= k < ts.len() ==> (#[trigger] ts[k]).byte_start <= ts[k].byte_end
    &&& forall|a: int, b: int| 0 <= a < b < ts.len() ==> (#[trigger] ts[a]).byte_end <= (#[trigger] ts[b]).byte_start
}

/// Every match model has a well-formed byte span.
pub open spec fn spans_ok(ms: Seq<MatchModel>) -> bool {
    forall|k: int| 0 <= k < ms.len() ==> (#[trigger] ms[k]).byte_start <= ms[k].byte_end
}

/// Over ordered tokens every annotation has a well-formed byte span.
pub proof fn lemma_annotations_well_formed(rules: Seq<Rule>, ts: Seq<Token>, i: int)
    requires
        tokens_ordered(ts),
        0 <= i,
    ensures
        spans_ok(apply_from(rules, ts, i)),
    decreases ts.len() - i,
{
    if i < ts.len() {
        if ts[i].kind == TokenKind::Punctuation || ts[i].kind == TokenKind::Whitespace {
            lemma_annotations_well_formed(rules, ts, i + 1);
            assert(apply_from(rules, ts, i) == apply_from(rules, ts, i + 1));
        } else {
            lemma_first_match_bounds(rules, ts, i, 0);
            match first_match(rules, ts, i, 0) {
                Some((r, (s, e, c))) => {
                    let next = if c > 0 && i + c <= ts.len() {
                        i + c
                    } else {
                        i + 1
                    };
                    lemma_annotations_well_formed(rules, ts, next);
                    let a = annotation(rules[r], ts, s, e);
                    assert(a.byte_start <= a.byte_end) by {
                        if s < e - 1 {
                            assert(ts[s].byte_end <= ts[e - 1].byte_start);
                        }
                        assert(ts[s].byte_start <= ts[s].byte_end);
                        assert(ts[e - 1].byte_start <= ts[e - 1].byte_end);
                    }
                    let out = apply_from(rules, ts, i);
                    let rest = apply_from(rules, ts, next);
                    assert(out == seq![a] + rest);
                    assert forall|k: int| 0 <= k < out.len() implies (#[trigger] out[k]).byte_start
                        <= out[k].byte_end by {
                        if k > 0 {
                            assert(out[k] == rest[k - 1]);
                        }
                    }
                },
                None => {
                    lemma_annotations_well_formed(rules, ts, i + 1);
                    assert(apply_from(rules, ts, i) == apply_from(rules, ts, i + 1));
                },
            }
        }
    } else {
        assert(apply_from(rules, ts, i).len() == 0);
    }
}

/// The models of a list of matches, one by one.
pub proof fn lemma_match_models_index(ms: Seq<RuleMatch>)
    ensures
        match_models(ms).len() == ms.len(),
        forall|k: int| 0 <= k < ms.len() ==> match_models(ms)[k] == match_model(#[trigger] ms[k]),
    decreases ms.len(),
{
    if ms.len() > 0 {
        lemma_match_models_index(ms.drop_last());
        assert forall|k: int| 0 <= k < ms.len() implies match_models(ms)[k] == match_model(
            #[trigger] ms[k],
        ) by {
            if k < ms.len() - 1 {
                assert(ms[k] == ms.drop_last()[k]);
            }
        }
    }
}

} // verus!
