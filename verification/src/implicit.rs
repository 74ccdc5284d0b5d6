//! Finding implicit mentions of known entities ("Frodo") in prose, with an
//! Aho-Corasick automaton over entity names and aliases.
//!
//! Aliases are also derived from the names themselves: "Monkey D. Luffy"
//! gives "Monkey" (0.90), "Luffy" (0.85) and "D. Luffy" (0.80).
//! Confidences are in thousandths.

use aho_corasick::AhoCorasick;
use vstd::prelude::*;
use vstd::string::StringSliceAdditionalSpecFns;
use vstd::utf8::*;

use crate::incremental::HasSpan;
use crate::matcher::{automaton_builds, automaton_find, automaton_patterns, build_automaton};
use crate::ranking::{dedupe_ranked, law_resolved_disjoint, resolve_overlaps, SpanRanked};
use crate::text::{
    byte_len, has_min_bytes, in_list, is_in_list, split_whitespace, str_chars, str_eq, str_slice,
    str_to_lowercase, str_to_uppercase, string_push, string_views, unicode_lower_text,
    unicode_upper_text, ws_words,
};

verus! {

// =============================================================================
// Types
// =============================================================================

/// Entity definition for hydration
#[derive(Debug, Clone)]
pub struct EntityDefinition {
    pub id: String,
    pub label: String,
    pub kind: String,
    pub aliases: Vec<String>,
}

/// A detected implicit entity mention
#[derive(Debug, Clone)]
pub struct ImplicitMention {
    pub entity_id: String,
    pub entity_label: String,
    pub entity_kind: String,
    pub matched_text: String,
    pub start: usize,
    pub end: usize,
    pub is_alias_match: bool,
    /// Confidence in thousandths: 1000 for the entity's own label, lower for
    /// aliases
    pub confidence: u32,
}

impl ImplicitMention {
    /// A copy of the mention.
    pub fn duplicate(&self) -> (m: Self)
        ensures
            m == *self,
    {
        ImplicitMention {
            entity_id: self.entity_id.clone(),
            entity_label: self.entity_label.clone(),
            entity_kind: self.entity_kind.clone(),
            matched_text: self.matched_text.clone(),
            start: self.start,
            end: self.end,
            is_alias_match: self.is_alias_match,
            confidence: self.confidence,
        }
    }
}

impl SpanRanked for ImplicitMention {
    open spec fn rank_key(&self) -> (usize, usize, u64, u64) {
        (self.start, self.end, 0, 0)
    }

    fn rank(&self) -> (r: (usize, usize, u64, u64)) {
        (self.start, self.end, 0, 0)
    }
}

impl HasSpan for ImplicitMention {
    open spec fn span_start(&self) -> usize {
        self.start
    }

    open spec fn span_end(&self) -> usize {
        self.end
    }

    open spec fn with_span(&self, start: usize, end: usize) -> Self {
        ImplicitMention { start, end, ..*self }
    }

    proof fn lemma_with_span(&self, s1: usize, e1: usize, s2: usize, e2: usize) {
    }

    fn start(&self) -> (r: usize) {
        self.start
    }

    fn end(&self) -> (r: usize) {
        self.end
    }

    fn set_start(&mut self, start: usize) {
        self.start = start;
    }

    fn set_end(&mut self, end: usize) {
        self.end = end;
    }
}

/// Metadata for each pattern in the automaton
struct PatternMeta {
    entity_id: String,
    entity_label: String,
    entity_kind: String,
    pattern_text: String,
    is_alias: bool,
    confidence: u32,
}

/// A pattern of the matcher as plain values.
pub struct PatternModel {
    pub entity_id: Seq<char>,
    pub entity_label: Seq<char>,
    pub entity_kind: Seq<char>,
    pub pattern: Seq<char>,
    pub is_alias: bool,
    pub confidence: u32,
}

spec fn meta_model(m: PatternMeta) -> PatternModel {
    PatternModel {
        entity_id: m.entity_id@,
        entity_label: m.entity_label@,
        entity_kind: m.entity_kind@,
        pattern: m.pattern_text@,
        is_alias: m.is_alias,
        confidence: m.confidence,
    }
}

// =============================================================================
// Smart Alias Generation
// =============================================================================

/// Minimum length in bytes for auto-generated aliases to avoid false positives
pub const MIN_ALIAS_LEN: usize = 3;

/// Titles and honorifics that are never aliases on their own.
pub open spec fn title_list() -> Seq<&'static str> {
    seq![
        "mr",
        "mrs",
        "ms",
        "dr",
        "prof",
        "sir",
        "lord",
        "lady",
        "king",
        "queen",
        "prince",
        "princess",
        "captain",
        "general",
        "the",
        "of",
        "and",
        "jr",
        "sr",
        "ii",
        "iii",
        "iv",
    ]
}

/// Words too common to be useful aliases.
pub open spec fn common_list() -> Seq<&'static str> {
    seq![
        "the",
        "of",
        "and",
        "or",
        "a",
        "an",
        "in",
        "on",
        "at",
        "to",
        "for",
        "is",
        "are",
        "was",
        "were",
        "be",
        "been",
        "being",
    ]
}

pub open spec fn is_title_word(w: Seq<char>) -> bool {
    in_list(unicode_lower_text(w), title_list())
}

pub open spec fn is_common(w: Seq<char>) -> bool {
    in_list(unicode_lower_text(w), common_list())
}

pub open spec fn alias_if(ok: bool, a: Seq<char>, c: u32) -> Seq<(Seq<char>, u32)> {
    if ok {
        seq![(a, c)]
    } else {
        seq![]
    }
}

/// A name part usable as a character alias.
pub open spec fn name_ok(w: Seq<char>) -> bool {
    byte_len(w) >= MIN_ALIAS_LEN && !is_title_word(w)
}

/// A word usable as an alias of a faction or other entity.
pub open spec fn word_ok(w: Seq<char>) -> bool {
    byte_len(w) >= MIN_ALIAS_LEN && !is_common(w)
}

pub open spec fn join2(a: Seq<char>, b: Seq<char>) -> Seq<char> {
    a + seq![' '] + b
}

/// Characters: the first name (calling name), the last name, and the last
/// two words.
pub open spec fn character_aliases(p: Seq<Seq<char>>) -> Seq<(Seq<char>, u32)> {
    let n = p.len() as int;
    if n == 2 {
        alias_if(name_ok(p[0]), p[0], 950) + alias_if(name_ok(p[1]), p[1], 900)
    } else if n == 3 {
        let ml = join2(p[1], p[2]);
        alias_if(name_ok(p[0]), p[0], 950) + alias_if(name_ok(p[2]), p[2], 900) + alias_if(
            byte_len(ml) >= MIN_ALIAS_LEN,
            ml,
            850,
        )
    } else {
        let lt = join2(p[n - 2], p[n - 1]);
        alias_if(name_ok(p[0]), p[0], 900) + alias_if(name_ok(p[n - 1]), p[n - 1], 850)
            + alias_if(byte_len(lt) >= MIN_ALIAS_LEN, lt, 800)
    }
}

/// First letters of the words that are not common words.
pub open spec fn initials(p: Seq<Seq<char>>) -> Seq<char>
    decreases p.len(),
{
    if p.len() == 0 {
        seq![]
    } else {
        let r = initials(p.drop_last());
        let w = p.last();
        if !is_common(w) && w.len() > 0 {
            r.push(w[0])
        } else {
            r
        }
    }
}

/// Factions: the last word, and the acronym of a name of three words or more.
pub open spec fn faction_aliases(p: Seq<Seq<char>>) -> Seq<(Seq<char>, u32)> {
    let last = p[p.len() - 1];
    let acr = unicode_upper_text(initials(p));
    alias_if(word_ok(last), last, 750) + alias_if(p.len() >= 3 && byte_len(acr) >= 2, acr, 700)
}

/// Other kinds: the last word.
pub open spec fn default_aliases(p: Seq<Seq<char>>) -> Seq<(Seq<char>, u32)> {
    let last = p[p.len() - 1];
    alias_if(word_ok(last), last, 800)
}

/// The aliases derived from an entity's name, by kind (compared uppercased).
pub open spec fn alias_candidates(label: Seq<char>, kind: Seq<char>) -> Seq<(Seq<char>, u32)> {
    let p = ws_words(label);
    if p.len() <= 1 {
        seq![]
    } else {
        let k = unicode_upper_text(kind);
        if k == "CHARACTER"@ || k == "PERSON"@ {
            character_aliases(p)
        } else if k == "FACTION"@ || k == "ORGANIZATION"@ || k == "GROUP"@ {
            faction_aliases(p)
        } else {
            default_aliases(p)
        }
    }
}

pub open spec fn alias_views(v: Seq<(String, u32)>) -> Seq<(Seq<char>, u32)> {
    Seq::new(v.len(), |i: int| (v[i].0@, v[i].1))
}

/// Check if a word is a common title/honorific that shouldn't be an alias
fn is_title_or_honorific(word: &str) -> (b: bool)
    ensures
        b == is_title_word(word@),
{
    let lower = str_to_lowercase(word);
    let list: [&str; 22] = [
        "mr",
        "mrs",
        "ms",
        "dr",
        "prof",
        "sir",
        "lord",
        "lady",
        "king",
        "queen",
        "prince",
        "princess",
        "captain",
        "general",
        "the",
        "of",
        "and",
        "jr",
        "sr",
        "ii",
        "iii",
        "iv",
    ];
    assert(list@ == title_list());
    is_in_list(lower.as_str(), &list)
}

/// Check if a word is too common to be a useful alias
fn is_common_word(word: &str) -> (b: bool)
    ensures
        b == is_common(word@),
{
    let lower = str_to_lowercase(word);
    let list: [&str; 18] = [
        "the",
        "of",
        "and",
        "or",
        "a",
        "an",
        "in",
        "on",
        "at",
        "to",
        "for",
        "is",
        "are",
        "was",
        "were",
        "be",
        "been",
        "being",
    ];
    assert(list@ == common_list());
    is_in_list(lower.as_str(), &list)
}

fn join_words(a: &String, b: &String) -> (r: String)
    ensures
        r@ == join2(a@, b@),
{
    let mut r = a.clone();
    string_push(&mut r, ' ');
    r.append(b.as_str());
    r
}

fn push_alias(out: &mut Vec<(String, u32)>, ok: bool, alias: String, c: u32)
    ensures
        alias_views(final(out)@) == alias_views(old(out)@) + alias_if(ok, alias@, c),
{
    let ghost before = alias_views(out@);
    if ok {
        out.push((alias, c));
        assert(alias_views(out@) =~= before + seq![(alias@, c)]);
    } else {
        assert(alias_views(out@) =~= before + Seq::<(Seq<char>, u32)>::empty());
    }
}

/// Generate aliases from an entity name based on its kind, as (alias,
/// confidence) pairs
pub fn generate_aliases(label: &str, kind: &str) -> (aliases: Vec<(String, u32)>)
    ensures
        alias_views(aliases@) == alias_candidates(label@, kind@),
{
    let parts = split_whitespace(label);
    let ghost p = ws_words(label@);
    let mut aliases: Vec<(String, u32)> = Vec::new();
    assert(alias_views(aliases@) =~= Seq::<(Seq<char>, u32)>::empty());
    let n = parts.len();
    assert(n == p.len());
    assert forall|i: int| 0 <= i < n implies (#[trigger] parts@[i])@ == p[i] by {
        assert(string_views(parts@)[i] == parts@[i]@);
    }
    // Skip single-word names - no aliases to generate
    if n <= 1 {
        return aliases;
    }
    let upper = str_to_uppercase(kind);
    let k = upper.as_str();
    if str_eq(k, "CHARACTER") || str_eq(k, "PERSON") {
        let first = &parts[0];
        if n == 2 {
            let last = &parts[1];
            let ok1 = has_min_bytes(first.as_str(), MIN_ALIAS_LEN) && !is_title_or_honorific(
                first.as_str(),
            );
            push_alias(&mut aliases, ok1, first.clone(), 950);
            let ok2 = has_min_bytes(last.as_str(), MIN_ALIAS_LEN) && !is_title_or_honorific(
                last.as_str(),
            );
            push_alias(&mut aliases, ok2, last.clone(), 900);
            assert(ok1 == name_ok(p[0]));
            assert(ok2 == name_ok(p[1]));
        } else if n == 3 {
            let last = &parts[2];
            let middle_last = join_words(&parts[1], &parts[2]);
            let ok1 = has_min_bytes(first.as_str(), MIN_ALIAS_LEN) && !is_title_or_honorific(
                first.as_str(),
            );
            push_alias(&mut aliases, ok1, first.clone(), 950);
            let ok2 = has_min_bytes(last.as_str(), MIN_ALIAS_LEN) && !is_title_or_honorific(
                last.as_str(),
            );
            push_alias(&mut aliases, ok2, last.clone(), 900);
            let ok3 = has_min_bytes(middle_last.as_str(), MIN_ALIAS_LEN);
            push_alias(&mut aliases, ok3, middle_last, 850);
        } else {
            let last = &parts[n - 1];
            let last_two = join_words(&parts[n - 2], &parts[n - 1]);
            let ok1 = has_min_bytes(first.as_str(), MIN_ALIAS_LEN) && !is_title_or_honorific(
                first.as_str(),
            );
            push_alias(&mut aliases, ok1, first.clone(), 900);
            let ok2 = has_min_bytes(last.as_str(), MIN_ALIAS_LEN) && !is_title_or_honorific(
                last.as_str(),
            );
            push_alias(&mut aliases, ok2, last.clone(), 850);
            let ok3 = has_min_bytes(last_two.as_str(), MIN_ALIAS_LEN);
            push_alias(&mut aliases, ok3, last_two, 800);
        }
        assert(alias_views(aliases@) =~= character_aliases(p));
    } else if str_eq(k, "FACTION") || str_eq(k, "ORGANIZATION") || str_eq(k, "GROUP") {
        let last = &parts[n - 1];
        let ok1 = has_min_bytes(last.as_str(), MIN_ALIAS_LEN) && !is_common_word(last.as_str());
        push_alias(&mut aliases, ok1, last.clone(), 750);
        let mut letters = String::new();
        let mut j: usize = 0;
        while j < n
            invariant
                j <= n == parts@.len() == p.len(),
                forall|i: int| 0 <= i < n ==> (#[trigger] parts@[i])@ == p[i],
                letters@ == initials(p.take(j as int)),
            decreases n - j,
        {
            let w = parts[j].as_str();
            proof {
                let t = p.take(j + 1);
                assert(t.drop_last() =~= p.take(j as int));
                assert(t.last() == p[j as int]);
            }
            if !is_common_word(w) {
                let cs = str_chars(w);
                if cs.len() > 0 {
                    string_push(&mut letters, cs[0]);
                }
            }
            j = j + 1;
        }
        assert(p.take(n as int) =~= p);
        let acronym = str_to_uppercase(letters.as_str());
        let ok2 = n >= 3 && has_min_bytes(acronym.as_str(), 2);
        push_alias(&mut aliases, ok2, acronym, 700);
        assert(alias_views(aliases@) =~= faction_aliases(p));
    } else {
        let last = &parts[n - 1];
        let ok1 = has_min_bytes(last.as_str(), MIN_ALIAS_LEN) && !is_common_word(last.as_str());
        push_alias(&mut aliases, ok1, last.clone(), 800);
        assert(alias_views(aliases@) =~= default_aliases(p));
    }
    proof {
        reveal_strlit("CHARACTER");
        reveal_strlit("PERSON");
        reveal_strlit("FACTION");
        reveal_strlit("ORGANIZATION");
        reveal_strlit("GROUP");
    }
    aliases
}

// =============================================================================
// Pattern table specification
// =============================================================================

pub open spec fn pattern_of(e: EntityDefinition, pattern: Seq<char>, is_alias: bool, confidence: u32) -> PatternModel {
    PatternModel {
        entity_id: e.id@,
        entity_label: e.label@,
        entity_kind: e.kind@,
        pattern,
        is_alias,
        confidence,
    }
}

pub open spec fn has_pattern(ps: Seq<PatternModel>, p: Seq<char>) -> bool {
    exists|i: int| 0 <= i < ps.len() && (#[trigger] ps[i]).pattern == p
}

/// The explicit aliases, lowercased, at confidence 0.95.
pub open spec fn add_explicit(acc: Seq<PatternModel>, e: EntityDefinition, al: Seq<String>) -> Seq<
    PatternModel,
>
    decreases al.len(),
{
    if al.len() == 0 {
        acc
    } else {
        add_explicit(acc, e, al.drop_last()).push(
            pattern_of(e, unicode_lower_text(al.last()@), true, 950),
        )
    }
}

/// The derived aliases, lowercased, each unless its pattern is already there.
pub open spec fn add_auto(acc: Seq<PatternModel>, e: EntityDefinition, cs: Seq<(Seq<char>, u32)>) -> Seq<
    PatternModel,
>
    decreases cs.len(),
{
    if cs.len() == 0 {
        acc
    } else {
        let r = add_auto(acc, e, cs.drop_last());
        let al = unicode_lower_text(cs.last().0);
        if has_pattern(r, al) {
            r
        } else {
            r.push(pattern_of(e, al, true, cs.last().1))
        }
    }
}

/// The patterns an entity adds: its lowercased label (confidence 1.0), its
/// explicit aliases, then the derived aliases not already present.
pub open spec fn add_entity_model(acc: Seq<PatternModel>, e: EntityDefinition) -> Seq<PatternModel> {
    let a1 = acc.push(pattern_of(e, unicode_lower_text(e.label@), false, 1000));
    let a2 = add_explicit(a1, e, e.aliases@);
    add_auto(a2, e, alias_candidates(e.label@, e.kind@))
}

/// The patterns of a list of entities added in order.
pub open spec fn hydrate_model(es: Seq<EntityDefinition>) -> Seq<PatternModel>
    decreases es.len(),
{
    if es.len() == 0 {
        seq![]
    } else {
        add_entity_model(hydrate_model(es.drop_last()), es.last())
    }
}

pub open spec fn pattern_texts(ps: Seq<PatternModel>) -> Seq<Seq<char>> {
    Seq::new(ps.len(), |i: int| ps[i].pattern)
}

// =============================================================================
// Matching specification
// =============================================================================

/// An automaton match that can be reported: a known pattern ID and a byte
/// range on character boundaries of the text.
pub open spec fn usable_match(r: (usize, usize, usize), n: int, text: &str) -> bool {
    &&& r.0 < n
    &&& r.1 <= r.2 <= text.spec_bytes().len()
    &&& is_char_boundary(text.spec_bytes(), r.1 as int)
    &&& is_char_boundary(text.spec_bytes(), r.2 as int)
}

/// The mention reported for match `r` of pattern `p`.
pub open spec fn mention_for(m: ImplicitMention, p: PatternModel, text: &str, r: (usize, usize, usize)) -> bool {
    &&& m.entity_id@ == p.entity_id
    &&& m.entity_label@ == p.entity_label
    &&& m.entity_kind@ == p.entity_kind
    &&& encode_utf8(m.matched_text@) == text.spec_bytes().subrange(r.1 as int, r.2 as int)
    &&& m.start == r.1
    &&& m.end == r.2
    &&& m.is_alias_match == p.is_alias
    &&& m.confidence == p.confidence
}

/// `cands` are the mentions of the usable matches among `raws`, in order.
pub open spec fn candidates_for(
    cands: Seq<ImplicitMention>,
    ps: Seq<PatternModel>,
    text: &str,
    raws: Seq<(usize, usize, usize)>,
) -> bool
    decreases raws.len(),
{
    if raws.len() == 0 {
        cands.len() == 0
    } else {
        let r = raws.last();
        if usable_match(r, ps.len() as int, text) {
            &&& cands.len() > 0
            &&& mention_for(cands.last(), ps[r.0 as int], text, r)
            &&& candidates_for(cands.drop_last(), ps, text, raws.drop_last())
        } else {
            candidates_for(cands, ps, text, raws.drop_last())
        }
    }
}

// =============================================================================
// ImplicitCortex
// =============================================================================

/// Entity name matcher using Aho-Corasick
pub struct ImplicitCortex {
    automaton: Option<AhoCorasick>,
    pattern_meta: Vec<PatternMeta>,
    needs_rebuild: bool,
}

impl Default for ImplicitCortex {
    fn default() -> (c: Self)
        ensures
            c.patterns().len() == 0,
            c.automaton() is None,
    {
        Self::new()
    }
}

impl ImplicitCortex {
    /// The patterns, in pattern-ID order.
    pub closed spec fn patterns(self) -> Seq<PatternModel> {
        Seq::new(self.pattern_meta@.len(), |i: int| meta_model(self.pattern_meta@[i]))
    }

    /// The automaton of the last successful build, if any.
    pub closed spec fn automaton(self) -> Option<AhoCorasick> {
        self.automaton
    }

    /// Whether the patterns changed since the automaton was last built.
    pub closed spec fn needs_rebuild(self) -> bool {
        self.needs_rebuild
    }

    pub fn new() -> (c: Self)
        ensures
            c.patterns().len() == 0,
            c.automaton() is None,
            c.needs_rebuild(),
    {
        ImplicitCortex { automaton: None, pattern_meta: Vec::new(), needs_rebuild: true }
    }

    /// Get the number of patterns
    pub fn pattern_count(&self) -> (n: usize)
        ensures
            n == self.patterns().len(),
    {
        self.pattern_meta.len()
    }

    fn has_pattern_text(&self, p: &str) -> (b: bool)
        ensures
            b == has_pattern(self.patterns(), p@),
    {
        let mut i: usize = 0;
        while i < self.pattern_meta.len()
            invariant
                i <= self.pattern_meta@.len(),
                forall|j: int| 0 <= j < i ==> (#[trigger] self.patterns()[j]).pattern != p@,
            decreases self.pattern_meta@.len() - i,
        {
            if str_eq(self.pattern_meta[i].pattern_text.as_str(), p) {
                assert(self.patterns()[i as int].pattern == p@);
                return true;
            }
            i = i + 1;
        }
        false
    }

    fn push_pattern(&mut self, e: &EntityDefinition, pattern: String, is_alias: bool, confidence: u32)
        ensures
            final(self).patterns() == old(self).patterns().push(
                pattern_of(*e, pattern@, is_alias, confidence),
            ),
            final(self).automaton() == old(self).automaton(),
    {
        self.pattern_meta.push(
            PatternMeta {
                entity_id: e.id.clone(),
                entity_label: e.label.clone(),
                entity_kind: e.kind.clone(),
                pattern_text: pattern,
                is_alias,
                confidence,
            },
        );
        assert(self.patterns() =~= old(self).patterns().push(
            pattern_of(*e, pattern@, is_alias, confidence),
        ));
    }

    fn push_entity(&mut self, e: &EntityDefinition)
        ensures
            final(self).patterns() == add_entity_model(old(self).patterns(), *e),
            final(self).automaton() == old(self).automaton(),
    {
        // Primary label (confidence 1.0)
        let label_lower = str_to_lowercase(e.label.as_str());
        self.push_pattern(e, label_lower, false, 1000);
        let ghost a1 = self.patterns();
        // Explicitly provided aliases (confidence 0.95)
        let mut j: usize = 0;
        while j < e.aliases.len()
            invariant
                j <= e.aliases@.len(),
                self.patterns() == add_explicit(a1, *e, e.aliases@.take(j as int)),
                self.automaton() == old(self).automaton(),
            decreases e.aliases@.len() - j,
        {
            let alias_lower = str_to_lowercase(e.aliases[j].as_str());
            self.push_pattern(e, alias_lower, true, 950);
            proof {
                let t = e.aliases@.take(j + 1);
                assert(t.drop_last() =~= e.aliases@.take(j as int));
            }
            j = j + 1;
        }
        assert(e.aliases@.take(e.aliases@.len() as int) =~= e.aliases@);
        let ghost a2 = self.patterns();
        // Auto-generated aliases, skipping patterns already present
        let autos = generate_aliases(e.label.as_str(), e.kind.as_str());
        let ghost cs = alias_candidates(e.label@, e.kind@);
        let mut j: usize = 0;
        while j < autos.len()
            invariant
                j <= autos@.len(),
                alias_views(autos@) == cs,
                self.patterns() == add_auto(a2, *e, cs.take(j as int)),
                self.automaton() == old(self).automaton(),
            decreases autos@.len() - j,
        {
            let alias_lower = str_to_lowercase(autos[j].0.as_str());
            let c = autos[j].1;
            proof {
                let t = cs.take(j + 1);
                assert(t.drop_last() =~= cs.take(j as int));
                assert(t.last() == cs[j as int]);
                assert(cs[j as int] == (autos@[j as int].0@, autos@[j as int].1));
            }
            if !self.has_pattern_text(alias_lower.as_str()) {
                self.push_pattern(e, alias_lower, true, c);
            }
            j = j + 1;
        }
        assert(cs.take(cs.len() as int) =~= cs);
    }

    /// Hydrate with entity definitions (auto-generates aliases), replacing
    /// all patterns
    pub fn hydrate(&mut self, entities: Vec<EntityDefinition>)
        ensures
            final(self).patterns() == hydrate_model(entities@),
            final(self).automaton() == old(self).automaton(),
    {
        self.pattern_meta = Vec::new();
        assert(self.patterns() =~= hydrate_model(entities@.take(0)));
        let mut k: usize = 0;
        while k < entities.len()
            invariant
                k <= entities@.len(),
                self.patterns() == hydrate_model(entities@.take(k as int)),
                self.automaton() == old(self).automaton(),
            decreases entities@.len() - k,
        {
            self.push_entity(&entities[k]);
            proof {
                let t = entities@.take(k + 1);
                assert(t.drop_last() =~= entities@.take(k as int));
                assert(t.last() == entities@[k as int]);
            }
            k = k + 1;
        }
        assert(entities@.take(entities@.len() as int) =~= entities@);
        self.needs_rebuild = true;
    }

    /// Build the automaton from the current patterns
    pub fn build(&mut self) -> (r: Result<(), String>)
        ensures
            final(self).patterns() == old(self).patterns(),
            old(self).patterns().len() == 0 ==> r is Ok && final(self).automaton() is None,
            old(self).patterns().len() > 0 ==> (r is Ok <==> automaton_builds(
                pattern_texts(old(self).patterns()),
            )),
            old(self).patterns().len() > 0 ==> match r {
                Ok(()) => final(self).automaton() matches Some(ac) && automaton_patterns(ac)
                    == pattern_texts(old(self).patterns()),
                Err(m) => final(self).automaton() == old(self).automaton()
                    && "Failed to build automaton: "@.is_prefix_of(m@),
            },
    {
        if self.pattern_meta.len() == 0 {
            self.automaton = None;
            return Ok(());
        }
        let mut texts: Vec<String> = Vec::new();
        let mut i: usize = 0;
        while i < self.pattern_meta.len()
            invariant
                i <= self.pattern_meta@.len(),
                texts@.len() == i,
                string_views(texts@) == pattern_texts(self.patterns()).take(i as int),
            decreases self.pattern_meta@.len() - i,
        {
            let ghost before = string_views(texts@);
            assert(self.patterns()[i as int].pattern == self.pattern_meta@[i as int].pattern_text@);
            assert(pattern_texts(self.patterns())[i as int] == self.patterns()[i as int].pattern);
            texts.push(self.pattern_meta[i].pattern_text.clone());
            assert(string_views(texts@)[i as int] == texts@[i as int]@);
            assert(string_views(texts@) =~= pattern_texts(self.patterns()).take(i + 1));
            i = i + 1;
        }
        assert(string_views(texts@) =~= pattern_texts(self.patterns()));
        match build_automaton(&texts) {
            Ok(ac) => {
                self.automaton = Some(ac);
                self.needs_rebuild = false;
                Ok(())
            },
            Err(e) => {
                let mut msg = "Failed to build automaton: ".to_owned();
                msg.append(e.as_str());
                proof {
                    reveal_strlit("Failed to build automaton: ");
                    assert("Failed to build automaton: "@.is_prefix_of(msg@));
                }
                Err(msg)
            },
        }
    }

    /// Find all implicit entity mentions in text: the automaton's matches
    /// resolved by `mentions_from_matches`
    pub fn find_mentions(&self, text: &str) -> (out: Vec<ImplicitMention>)
        ensures
            self.automaton() is None || text@.len() == 0 ==> out@.len() == 0,
            self.automaton() matches Some(ac) ==> text@.len() > 0 ==> exists|
                cands: Seq<ImplicitMention>,
            |
                candidates_for(
                    cands,
                    self.patterns(),
                    text,
                    crate::matcher::leftmost_longest_matches(automaton_patterns(ac), text@),
                ) && out@ == resolve_overlaps(cands),
    {
        let automaton = match &self.automaton {
            Some(a) => a,
            None => return Vec::new(),
        };
        if text.is_empty() {
            return Vec::new();
        }
        let raws = automaton_find(automaton, text);
        self.mentions_from_matches(text, &raws)
    }

    /// The mentions of the automaton matches `raws` in `text`: each match of
    /// a known pattern whose range is a valid slice of the text gives a
    /// mention, and overlapping mentions are resolved (earlier start, then
    /// longer, wins)
    pub fn mentions_from_matches(&self, text: &str, raws: &Vec<(usize, usize, usize)>) -> (out: Vec<
        ImplicitMention,
    >)
        ensures
            exists|cands: Seq<ImplicitMention>|
                candidates_for(cands, self.patterns(), text, raws@) && out@ == resolve_overlaps(
                    cands,
                ),
    {
        let ghost ps = self.patterns();
        let mut cands: Vec<ImplicitMention> = Vec::new();
        let mut k: usize = 0;
        while k < raws.len()
            invariant
                k <= raws@.len(),
                ps == self.patterns(),
                candidates_for(cands@, ps, text, raws@.take(k as int)),
            decreases raws@.len() - k,
        {
            let (id, s, e) = raws[k];
            assert(ps.len() == self.pattern_meta@.len());
            proof {
                let t = raws@.take(k + 1);
                assert(t.drop_last() =~= raws@.take(k as int));
                assert(t.last() == raws@[k as int]);
            }
            proof {
                encode_utf8_valid_utf8(text@);
            }
            if id < self.pattern_meta.len() && s <= e && text.is_char_boundary(s)
                && text.is_char_boundary(e) {
                let meta = &self.pattern_meta[id];
                let piece = str_slice(text, s, e);
                let m = ImplicitMention {
                    entity_id: meta.entity_id.clone(),
                    entity_label: meta.entity_label.clone(),
                    entity_kind: meta.entity_kind.clone(),
                    matched_text: piece.to_owned(),
                    start: s,
                    end: e,
                    is_alias_match: meta.is_alias,
                    confidence: meta.confidence,
                };
                let ghost before = cands@;
                cands.push(m);
                proof {
                    assert(cands@.drop_last() =~= before);
                    assert(ps[id as int] == meta_model(self.pattern_meta@[id as int]));
                    assert(usable_match(raws@[k as int], ps.len() as int, text));
                    assert(mention_for(cands@.last(), ps[id as int], text, raws@[k as int]));
                }
            } else {
                assert(!usable_match(raws@[k as int], ps.len() as int, text));
            }
            k = k + 1;
        }
        assert(raws@.take(raws@.len() as int) =~= raws@);
        let ghost cv = cands@;
        let out = dedupe_ranked(cands);
        assert(candidates_for(cv, ps, text, raws@) && out@ == resolve_overlaps(cv));
        out
    }

    /// Add a single entity (for incremental updates)
    pub fn add_entity(&mut self, entity: EntityDefinition)
        ensures
            final(self).patterns() == add_entity_model(old(self).patterns(), entity),
            final(self).automaton() == old(self).automaton(),
    {
        self.push_entity(&entity);
        self.needs_rebuild = true;
    }

    /// Clear all patterns
    pub fn clear(&mut self)
        ensures
            final(self).patterns().len() == 0,
            final(self).automaton() is None,
    {
        self.pattern_meta = Vec::new();
        self.automaton = None;
        self.needs_rebuild = true;
    }
}

proof fn lemma_candidates_spans(
    cands: Seq<ImplicitMention>,
    ps: Seq<PatternModel>,
    text: &str,
    raws: Seq<(usize, usize, usize)>,
)
    requires
        candidates_for(cands, ps, text, raws),
    ensures
        forall|i: int| 0 <= i < cands.len() ==> (#[trigger] cands[i]).start <= cands[i].end <= text.spec_bytes().len(),
    decreases raws.len(),
{
    if raws.len() > 0 {
        let r = raws.last();
        if usable_match(r, ps.len() as int, text) {
            lemma_candidates_spans(cands.drop_last(), ps, text, raws.drop_last());
            assert forall|i: int| 0 <= i < cands.len() implies (#[trigger] cands[i]).start <= cands[i].end
                <= text.spec_bytes().len() by {
                if i < cands.len() - 1 {
                    assert(cands[i] == cands.drop_last()[i]);
                }
            }
        } else {
            lemma_candidates_spans(cands, ps, text, raws.drop_last());
        }
    }
}

/// The mentions found in a text never overlap: each lies within the text
/// and ends at or before the start of the next, and each is one of the
/// candidate mentions of the automaton's matches.
pub proof fn law_mentions_disjoint(
    cands: Seq<ImplicitMention>,
    ps: Seq<PatternModel>,
    text: &str,
    raws: Seq<(usize, usize, usize)>,
)
    requires
        candidates_for(cands, ps, text, raws),
    ensures
        forall|k: int|
            0 <= k < resolve_overlaps(cands).len() ==> cands.contains(#[trigger] resolve_overlaps(cands)[k])
                && resolve_overlaps(cands)[k].start <= resolve_overlaps(cands)[k].end <= text.spec_bytes().len(),
        forall|a: int, b: int|
            0 <= a < b < resolve_overlaps(cands).len() ==> (#[trigger] resolve_overlaps(cands)[a]).end <= (
            #[trigger] resolve_overlaps(cands)[b]).start,
{
    lemma_candidates_spans(cands, ps, text, raws);
    law_resolved_disjoint(cands);
    let out = resolve_overlaps(cands);
    assert forall|k: int| 0 <= k < out.len() implies cands.contains(#[trigger] out[k]) && out[k].start
        <= out[k].end <= text.spec_bytes().len() by {
        let i = choose|i: int| 0 <= i < cands.len() && cands[i] == out[k];
    }
    assert forall|a: int, b: int| 0 <= a < b < out.len() implies (#[trigger] out[a]).end <= (#[trigger] out[b]).start by {
        assert(out[a].rank_key().1 <= out[b].rank_key().0);
    }
}

} // verus!
