//! One mention type for every extractor (user tags, implicit matching,
//! rule/gazetteer/orthographic recognition, ML suggestions, temporal
//! expressions), with overlap resolution and grouping into suggestions.
//!
//! Scores are in thousandths (950 is 0.95).

use vstd::prelude::*;

use crate::implicit::ImplicitMention;
use crate::pipeline::{EntityMatch, MatchSource};
use crate::ranking::{dedupe_ranked, resolve_overlaps, SpanRanked};
use crate::text::{clone_opt_string, opt_view, str_to_lowercase, unicode_lower_text};

verus! {

// =============================================================================
// Mention Source
// =============================================================================

/// Source of a mention detection
#[derive(Debug, Clone, Copy, PartialEq, Eq, Hash, Structural)]
pub enum MentionSource {
    /// User-typed syntax: [CHARACTER|Jon]
    UserTag,
    /// Aho-Corasick match on registered entity name/alias
    Implicit,
    /// FST-NER gazetteer match (registered entity)
    FstGazetteer,
    /// FST-NER rule match (contextual pattern)
    FstRule,
    /// FST-NER orthographic match (shape-based heuristic)
    FstOrthographic,
    /// ML model inference (GLiNER, etc.)
    MlNer,
    /// Temporal expression (not an entity, but uses same pipeline)
    Temporal,
}

/// Conflict-resolution priority of each source (higher wins).
pub open spec fn source_priority(s: MentionSource) -> u8 {
    match s {
        MentionSource::UserTag => 100,
        MentionSource::Implicit => 80,
        MentionSource::FstGazetteer => 70,
        MentionSource::FstRule => 60,
        MentionSource::MlNer => 50,
        MentionSource::FstOrthographic => 40,
        MentionSource::Temporal => 30,
    }
}

/// The name of each source.
pub open spec fn source_name(s: MentionSource) -> Seq<char> {
    match s {
        MentionSource::UserTag => "user_tag"@,
        MentionSource::Implicit => "implicit"@,
        MentionSource::FstGazetteer => "fst_gazetteer"@,
        MentionSource::FstRule => "fst_rule"@,
        MentionSource::FstOrthographic => "fst_orthographic"@,
        MentionSource::MlNer => "ml_ner"@,
        MentionSource::Temporal => "temporal"@,
    }
}

impl MentionSource {
    /// Priority for conflict resolution (higher = wins)
    pub fn priority(&self) -> (p: u8)
        ensures
            p == source_priority(*self),
    {
        match self {
            MentionSource::UserTag => 100,
            MentionSource::Implicit => 80,
            MentionSource::FstGazetteer => 70,
            MentionSource::FstRule => 60,
            MentionSource::MlNer => 50,
            MentionSource::FstOrthographic => 40,
            MentionSource::Temporal => 30,
        }
    }

    /// Human-readable name
    pub fn as_str(&self) -> (r: &'static str)
        ensures
            r@ == source_name(*self),
    {
        match self {
            MentionSource::UserTag => "user_tag",
            MentionSource::Implicit => "implicit",
            MentionSource::FstGazetteer => "fst_gazetteer",
            MentionSource::FstRule => "fst_rule",
            MentionSource::FstOrthographic => "fst_orthographic",
            MentionSource::MlNer => "ml_ner",
            MentionSource::Temporal => "temporal",
        }
    }
}

/// Distinct sources have distinct priorities, so the priority order is total.
pub proof fn law_source_priorities_distinct(a: MentionSource, b: MentionSource)
    ensures
        source_priority(a) == source_priority(b) ==> a == b,
{
}

// =============================================================================
// Mention
// =============================================================================

/// A single detected entity mention in a document: the contract every
/// extractor's output is converted to.
#[derive(Debug, Clone, PartialEq)]
pub struct Mention {
    /// Document/note ID where this mention was found
    pub doc_id: String,
    /// Start byte offset in the document
    pub start: usize,
    /// End byte offset in the document (exclusive)
    pub end: usize,
    /// The actual surface text that was matched
    pub surface: String,
    /// Entity kind/label (CHARACTER, LOCATION, etc.)
    pub label: String,
    /// How this mention was detected
    pub source: MentionSource,
    /// Confidence score in thousandths, if available
    pub score: Option<u32>,
    /// Rule ID that triggered this match (for FST rules)
    pub rule_id: Option<String>,
    /// Canonical entity ID if this mention is linked to a known entity
    pub entity_id: Option<String>,
    /// Canonical label if different from surface text
    pub canonical: Option<String>,
}

/// The label a mention stands for: its canonical label, else its surface.
pub open spec fn effective(m: Mention) -> Seq<char> {
    match m.canonical {
        Some(c) => c@,
        None => m.surface@,
    }
}

/// Two mentions share at least one byte.
pub open spec fn spans_overlap(a: Mention, b: Mention) -> bool {
    a.start < b.end && b.start < a.end
}

impl Mention {
    /// Create a new mention with required fields
    pub fn new(
        doc_id: &str,
        start: usize,
        end: usize,
        surface: &str,
        label: &str,
        source: MentionSource,
    ) -> (m: Self)
        ensures
            m.doc_id@ == doc_id@,
            m.start == start,
            m.end == end,
            m.surface@ == surface@,
            m.label@ == label@,
            m.source == source,
            m.score is None,
            m.rule_id is None,
            m.entity_id is None,
            m.canonical is None,
    {
        Mention {
            doc_id: doc_id.to_owned(),
            start,
            end,
            surface: surface.to_owned(),
            label: label.to_owned(),
            source,
            score: None,
            rule_id: None,
            entity_id: None,
            canonical: None,
        }
    }

    /// Builder: set confidence score
    pub fn with_score(self, score: u32) -> (m: Self)
        ensures
            m == (Mention { score: Some(score), ..self }),
    {
        let mut m = self;
        m.score = Some(score);
        m
    }

    /// Builder: set rule ID
    pub fn with_rule_id(self, rule_id: &str) -> (m: Self)
        ensures
            m.rule_id matches Some(r) && r@ == rule_id@,
            m == (Mention { rule_id: m.rule_id, ..self }),
    {
        let mut m = self;
        m.rule_id = Some(rule_id.to_owned());
        m
    }

    /// Builder: link to entity
    pub fn with_entity(self, entity_id: &str, canonical: &str) -> (m: Self)
        ensures
            m.entity_id matches Some(e) && e@ == entity_id@,
            m.canonical matches Some(c) && c@ == canonical@,
            m == (Mention { entity_id: m.entity_id, canonical: m.canonical, ..self }),
    {
        let mut m = self;
        m.entity_id = Some(entity_id.to_owned());
        m.canonical = Some(canonical.to_owned());
        m
    }

    /// Get effective label (canonical if available, else surface)
    pub fn effective_label(&self) -> (r: &str)
        ensures
            r@ == effective(*self),
    {
        match &self.canonical {
            Some(c) => c.as_str(),
            None => self.surface.as_str(),
        }
    }

    /// Check if this mention overlaps with another
    pub fn overlaps(&self, other: &Mention) -> (b: bool)
        ensures
            b == spans_overlap(*self, *other),
    {
        self.start < other.end && other.start < self.end
    }

    /// Length in bytes
    pub fn len(&self) -> (n: usize)
        ensures
            n == if self.end >= self.start {
                self.end - self.start
            } else {
                0
            },
    {
        self.end.saturating_sub(self.start)
    }

    /// Is this mention empty?
    pub fn is_empty(&self) -> (b: bool)
        ensures
            b == (self.start >= self.end),
    {
        self.start >= self.end
    }

    /// A copy of the mention.
    pub fn duplicate(&self) -> (m: Self)
        ensures
            m == *self,
    {
        Mention {
            doc_id: self.doc_id.clone(),
            start: self.start,
            end: self.end,
            surface: self.surface.clone(),
            label: self.label.clone(),
            source: self.source,
            score: self.score,
            rule_id: clone_opt_string(&self.rule_id),
            entity_id: clone_opt_string(&self.entity_id),
            canonical: clone_opt_string(&self.canonical),
        }
    }
}

impl SpanRanked for Mention {
    open spec fn rank_key(&self) -> (usize, usize, u64, u64) {
        (self.start, self.end, source_priority(self.source) as u64, 0)
    }

    fn rank(&self) -> (r: (usize, usize, u64, u64)) {
        (self.start, self.end, self.source.priority() as u64, 0)
    }
}

// =============================================================================
// Suggestion
// =============================================================================

/// A grouped view of the mentions of one entity (one row of the suggestion
/// panel).
#[derive(Debug, Clone)]
pub struct Suggestion {
    /// Canonical label for this entity
    pub canonical: String,
    /// Entity kind (CHARACTER, LOCATION, etc.)
    pub label: String,
    /// Entity ID if already registered in the graph
    pub entity_id: Option<String>,
    /// All mentions of this entity in the document
    pub mentions: Vec<Mention>,
    /// Mean of priority times confidence (in thousandths) over the mentions
    pub rank_score: u64,
}

/// A mention's weight when choosing the representative: source priority,
/// then score.
pub open spec fn best_key_le(a: Mention, b: Mention) -> bool {
    let sa = match a.score {
        Some(s) => s as int,
        None => 0,
    };
    let sb = match b.score {
        Some(s) => s as int,
        None => 0,
    };
    source_priority(a.source) < source_priority(b.source) || (source_priority(a.source)
        == source_priority(b.source) && sa <= sb)
}

/// Index of the representative mention: the last one of greatest weight.
pub open spec fn best_index(ms: Seq<Mention>) -> int
    decreases ms.len(),
{
    if ms.len() <= 1 {
        0
    } else {
        let b = best_index(ms.drop_last());
        if best_key_le(ms[b], ms.last()) {
            ms.len() - 1
        } else {
            b
        }
    }
}

/// The first entity ID among the mentions.
pub open spec fn first_entity_id(ms: Seq<Mention>) -> Option<Seq<char>>
    decreases ms.len(),
{
    if ms.len() == 0 {
        None
    } else {
        match ms[0].entity_id {
            Some(e) => Some(e@),
            None => first_entity_id(ms.drop_first()),
        }
    }
}

/// Priority times confidence (0.8 when the score is missing), in thousandths.
pub open spec fn mention_weight(m: Mention) -> int {
    source_priority(m.source) * match m.score {
        Some(s) => s as int,
        None => 800,
    }
}

pub open spec fn weight_sum(ms: Seq<Mention>) -> int
    decreases ms.len(),
{
    if ms.len() == 0 {
        0
    } else {
        weight_sum(ms.drop_last()) + mention_weight(ms.last())
    }
}

/// The rank of a group: its mean weight (rounded down).
pub open spec fn group_rank(ms: Seq<Mention>) -> int {
    if ms.len() == 0 {
        0
    } else {
        weight_sum(ms) / (ms.len() as int)
    }
}

/// `s` is the suggestion made from the mentions `ms`.
pub open spec fn suggestion_of(s: Suggestion, ms: Seq<Mention>) -> bool {
    let best = ms[best_index(ms)];
    &&& s.canonical@ == effective(best)
    &&& s.label@ == best.label@
    &&& opt_view(s.entity_id) == first_entity_id(ms)
    &&& s.mentions@ == ms
    &&& s.rank_score == group_rank(ms)
}

proof fn lemma_weight_bounds(ms: Seq<Mention>)
    ensures
        0 <= weight_sum(ms) <= ms.len() * (100 * 0xffff_ffff),
    decreases ms.len(),
{
    if ms.len() > 0 {
        lemma_weight_bounds(ms.drop_last());
        let m = ms.last();
        let s: int = match m.score {
            Some(s) => s as int,
            None => 800,
        };
        assert(0 <= source_priority(m.source) * s <= 100 * 0xffff_ffff) by (nonlinear_arith)
            requires
                0 <= source_priority(m.source) <= 100,
                0 <= s <= 0xffff_ffff,
        ;
        let n = ms.len() as int;
        assert((n - 1) * (100 * 0xffff_ffff) + 100 * 0xffff_ffff == n * (100 * 0xffff_ffff))
            by (nonlinear_arith);
    }
}

proof fn lemma_first_entity_push(s: Seq<Mention>, x: Mention)
    ensures
        first_entity_id(s.push(x)) == match first_entity_id(s) {
            Some(e) => Some(e),
            None => opt_view(x.entity_id),
        },
    decreases s.len(),
{
    if s.len() == 0 {
        assert(s.push(x).drop_first() =~= Seq::<Mention>::empty());
        assert(s.push(x)[0] == x);
        assert(first_entity_id(Seq::<Mention>::empty()) == None::<Seq<char>>);
    } else {
        assert(s.push(x).drop_first() =~= s.drop_first().push(x));
        assert(s.push(x)[0] == s[0]);
        lemma_first_entity_push(s.drop_first(), x);
    }
}

proof fn lemma_sort_by_rank_len(gs: Seq<Seq<Mention>>)
    ensures
        sort_by_rank(gs).len() == gs.len(),
    decreases gs.len(),
{
    if gs.len() > 0 {
        lemma_sort_by_rank_len(gs.drop_last());
        lemma_rank_place_bound(sort_by_rank(gs.drop_last()), gs.last());
    }
}

proof fn lemma_rank_place_bound(gs: Seq<Seq<Mention>>, g: Seq<Mention>)
    ensures
        0 <= rank_place(gs, g) <= gs.len(),
    decreases gs.len(),
{
    if gs.len() > 0 {
        lemma_rank_place_bound(gs.drop_first(), g);
    }
}

impl Suggestion {
    /// Create a new suggestion from a set of mentions (`None` when empty)
    pub fn from_mentions(mentions: Vec<Mention>) -> (r: Option<Self>)
        ensures
            mentions@.len() == 0 <==> r is None,
            r matches Some(s) ==> suggestion_of(s, mentions@),
    {
        if mentions.len() == 0 {
            return None;
        }
        let ghost ms = mentions@;
        let n = mentions.len();
        let mut b: usize = 0;
        let mut first_id: Option<String> = None;
        let mut sum: u128 = 0;
        let mut k: usize = 0;
        while k < n
            invariant
                k <= n == ms.len(),
                ms == mentions@,
                n > 0,
                k > 0 ==> b == best_index(ms.take(k as int)),
                b < n,
                k > 0 ==> b < k,
                opt_view(first_id) == first_entity_id(ms.take(k as int)),
                sum == weight_sum(ms.take(k as int)),
                sum <= k * (100 * 0xffff_ffff),
            decreases n - k,
        {
            let m = &mentions[k];
            proof {
                let t = ms.take(k + 1);
                assert(t.drop_last() =~= ms.take(k as int));
                assert(t.last() == ms[k as int]);
                lemma_weight_bounds(ms.take(k as int));
                lemma_first_entity_push(ms.take(k as int), ms[k as int]);
                assert(ms.take(k as int).push(ms[k as int]) =~= t);
            }
            if k == 0 {
                b = 0;
            } else {
                let mb = &mentions[b];
                let sb: u32 = match mb.score {
                    Some(s) => s,
                    None => 0,
                };
                let sm: u32 = match m.score {
                    Some(s) => s,
                    None => 0,
                };
                if mb.source.priority() < m.source.priority() || (mb.source.priority()
                    == m.source.priority() && sb <= sm) {
                    b = k;
                }
            }
            if first_id.is_none() {
                first_id = clone_opt_string(&m.entity_id);
            }
            let conf: u128 = match m.score {
                Some(s) => s as u128,
                None => 800,
            };
            let pr = m.source.priority() as u128;
            assert(pr * conf <= 100 * 0xffff_ffff) by (nonlinear_arith)
                requires
                    pr <= 100,
                    conf <= 0xffff_ffff,
            ;
            assert(k * (100 * 0xffff_ffff) + 100 * 0xffff_ffff <= (k + 1) * (100 * 0xffff_ffff))
                by (nonlinear_arith);
            assert((k + 1) * (100 * 0xffff_ffff) <= 0x1_0000_0000_0000_0000 * (100 * 0xffff_ffff))
                by (nonlinear_arith)
                requires
                    k + 1 <= 0x1_0000_0000_0000_0000,
            ;
            sum = sum + pr * conf;
            k = k + 1;
        }
        assert(ms.take(n as int) =~= ms);
        let best = &mentions[b];
        let canonical = match &best.canonical {
            Some(c) => c.clone(),
            None => best.surface.clone(),
        };
        let label = best.label.clone();
        let rank: u128 = sum / (n as u128);
        assert(rank <= sum);
        proof {
            lemma_weight_bounds(ms);
            assert(weight_sum(ms) / (n as int) <= 100 * 0xffff_ffff) by (nonlinear_arith)
                requires
                    0 <= weight_sum(ms) <= n * (100 * 0xffff_ffff),
                    n > 0,
            ;
        }
        Some(
            Suggestion {
                canonical,
                label,
                entity_id: first_id,
                mentions,
                rank_score: rank as u64,
            },
        )
    }

    /// Number of times this entity is mentioned
    pub fn mention_count(&self) -> (n: usize)
        ensures
            n == self.mentions@.len(),
    {
        self.mentions.len()
    }

    /// Is this entity already registered?
    pub fn is_registered(&self) -> (b: bool)
        ensures
            b == self.entity_id is Some,
    {
        self.entity_id.is_some()
    }

    /// Get all unique sources that detected this entity, highest priority
    /// first
    pub fn sources(&self) -> (out: Vec<MentionSource>)
        ensures
            out@ == present_sources(self.mentions@),
    {
        let order = [
            MentionSource::UserTag,
            MentionSource::Implicit,
            MentionSource::FstGazetteer,
            MentionSource::FstRule,
            MentionSource::MlNer,
            MentionSource::FstOrthographic,
            MentionSource::Temporal,
        ];
        let mut out: Vec<MentionSource> = Vec::new();
        let mut j: usize = 0;
        while j < 7
            invariant
                j <= 7,
                order@ == sources_by_priority(),
                out@ == filter_present(sources_by_priority().take(j as int), self.mentions@),
            decreases 7 - j,
        {
            let s = order[j];
            let mut found = false;
            let mut k: usize = 0;
            while k < self.mentions.len()
                invariant
                    k <= self.mentions@.len(),
                    found == (exists|i: int| 0 <= i < k && (#[trigger] self.mentions@[i]).source == s),
                decreases self.mentions@.len() - k,
            {
                if self.mentions[k].source == s {
                    found = true;
                }
                k = k + 1;
            }
            proof {
                let t = sources_by_priority().take(j + 1);
                assert(t.drop_last() =~= sources_by_priority().take(j as int));
                assert(t.last() == s);
            }
            if found {
                out.push(s);
            }
            j = j + 1;
        }
        assert(sources_by_priority().take(7) =~= sources_by_priority());
        out
    }
}

/// All sources, highest priority first.
pub open spec fn sources_by_priority() -> Seq<MentionSource> {
    seq![
        MentionSource::UserTag,
        MentionSource::Implicit,
        MentionSource::FstGazetteer,
        MentionSource::FstRule,
        MentionSource::MlNer,
        MentionSource::FstOrthographic,
        MentionSource::Temporal,
    ]
}

pub open spec fn filter_present(srcs: Seq<MentionSource>, ms: Seq<Mention>) -> Seq<MentionSource>
    decreases srcs.len(),
{
    if srcs.len() == 0 {
        seq![]
    } else {
        let r = filter_present(srcs.drop_last(), ms);
        if exists|i: int| 0 <= i < ms.len() && (#[trigger] ms[i]).source == srcs.last() {
            r.push(srcs.last())
        } else {
            r
        }
    }
}

/// The distinct sources among the mentions, by descending priority.
pub open spec fn present_sources(ms: Seq<Mention>) -> Seq<MentionSource> {
    filter_present(sources_by_priority(), ms)
}

// =============================================================================
// Mention Merger
// =============================================================================

/// The grouping key of a mention: its effective label, lowercased.
pub open spec fn group_key(m: Mention) -> Seq<char> {
    unicode_lower_text(effective(m))
}

/// Index of the group with key `k` (or the number of groups).
pub open spec fn group_index(gs: Seq<Seq<Mention>>, k: Seq<char>) -> int
    decreases gs.len(),
{
    if gs.len() == 0 {
        0
    } else if gs[0].len() > 0 && group_key(gs[0][0]) == k {
        0
    } else {
        1 + group_index(gs.drop_first(), k)
    }
}

/// Mentions grouped by key, groups in order of first appearance.
pub open spec fn group_mentions(ms: Seq<Mention>) -> Seq<Seq<Mention>>
    decreases ms.len(),
{
    if ms.len() == 0 {
        seq![]
    } else {
        let gs = group_mentions(ms.drop_last());
        let m = ms.last();
        let i = group_index(gs, group_key(m));
        if i < gs.len() {
            gs.update(i, gs[i].push(m))
        } else {
            gs.push(seq![m])
        }
    }
}

/// Where a stable insertion by descending rank puts group `g`.
pub open spec fn rank_place(gs: Seq<Seq<Mention>>, g: Seq<Mention>) -> int
    decreases gs.len(),
{
    if gs.len() == 0 || group_rank(g) > group_rank(gs[0]) {
        0
    } else {
        1 + rank_place(gs.drop_first(), g)
    }
}

/// Groups stably sorted by descending rank.
pub open spec fn sort_by_rank(gs: Seq<Seq<Mention>>) -> Seq<Seq<Mention>>
    decreases gs.len(),
{
    if gs.len() == 0 {
        seq![]
    } else {
        let r = sort_by_rank(gs.drop_last());
        r.insert(rank_place(r, gs.last()), gs.last())
    }
}

/// Utilities for merging mentions from multiple sources
pub struct MentionMerger;

impl MentionMerger {
    /// Merge overlapping mentions, keeping higher-priority source
    pub fn dedupe_overlapping(mentions: Vec<Mention>) -> (out: Vec<Mention>)
        ensures
            out@ == resolve_overlaps(mentions@),
    {
        dedupe_ranked(mentions)
    }

    /// Group mentions by canonical label into Suggestions, highest rank first
    pub fn group_into_suggestions(mentions: Vec<Mention>) -> (out: Vec<Suggestion>)
        ensures
            out@.len() == group_mentions(mentions@).len(),
            forall|i: int|
                0 <= i < out@.len() ==> suggestion_of(
                    #[trigger] out@[i],
                    sort_by_rank(group_mentions(mentions@))[i],
                ),
    {
        let ghost orig = mentions@;
        let mut mentions = mentions;
        let mut groups: Vec<Vec<Mention>> = Vec::new();
        let mut keys: Vec<String> = Vec::new();
        let ghost mut k: int = 0;
        while mentions.len() > 0
            invariant
                0 <= k <= orig.len(),
                mentions@ == orig.subrange(k, orig.len() as int),
                groups_view(groups@) == group_mentions(orig.take(k)),
                keys@.len() == groups@.len(),
                forall|i: int|
                    0 <= i < groups@.len() ==> (#[trigger] groups@[i])@.len() > 0 && keys@[i]@
                        == group_key(groups@[i]@[0]),
            decreases mentions@.len(),
        {
            let m = mentions.remove(0);
            let key = str_to_lowercase(m.effective_label());
            let ghost gs = groups_view(groups@);
            let mut i: usize = 0;
            while i < keys.len() && keys[i] != key
                invariant
                    i <= keys@.len(),
                    keys@.len() == groups@.len(),
                    gs == groups_view(groups@),
                    forall|j: int|
                        0 <= j < groups@.len() ==> (#[trigger] groups@[j])@.len() > 0 && keys@[j]@
                            == group_key(groups@[j]@[0]),
                    forall|j: int| 0 <= j < i ==> (#[trigger] keys@[j])@ != key@,
                decreases keys@.len() - i,
            {
                i = i + 1;
            }
            proof {
                lemma_group_index(gs, key@, i as int);
                let t = orig.take(k + 1);
                assert(t.drop_last() =~= orig.take(k));
                assert(t.last() == m);
            }
            if i < keys.len() {
                let mut g = groups.remove(i);
                g.push(m);
                groups.insert(i, g);
                proof {
                    assert(groups_view(groups@) =~= gs.update(i as int, gs[i as int].push(m)));
                }
            } else {
                let mut g: Vec<Mention> = Vec::new();
                g.push(m);
                groups.push(g);
                keys.push(key);
                proof {
                    assert(groups_view(groups@) =~= gs.push(seq![m]));
                }
            }
            proof {
                k = k + 1;
                assert(mentions@ =~= orig.subrange(k, orig.len() as int));
            }
        }
        assert(orig.take(orig.len() as int) =~= orig);
        let ghost all = groups_view(groups@);
        let mut out: Vec<Suggestion> = Vec::new();
        let ghost mut done: Seq<Seq<Mention>> = seq![];
        let ghost mut c: int = 0;
        while groups.len() > 0
            invariant
                0 <= c <= all.len(),
                groups_view(groups@) == all.subrange(c, all.len() as int),
                forall|i: int| 0 <= i < groups@.len() ==> (#[trigger] groups@[i])@.len() > 0,
                done == sort_by_rank(all.take(c)),
                out@.len() == done.len(),
                forall|i: int| 0 <= i < out@.len() ==> suggestion_of(#[trigger] out@[i], done[i]),
            decreases groups@.len(),
        {
            let ghost gs_before = groups@;
            let g = groups.remove(0);
            let ghost gv = g@;
            proof {
                assert(groups_view(gs_before).len() == gs_before.len());
                assert(c < all.len());
                assert(groups_view(gs_before)[0] == gs_before[0]@);
                assert(all.subrange(c, all.len() as int)[0] == all[c]);
                assert(gv == all[c]);
                assert(groups_view(groups@) =~= groups_view(gs_before).drop_first());
            }
            let s = match Suggestion::from_mentions(g) {
                Some(s) => s,
                None => {
                    assert(false);
                    return out;
                },
            };
            let rank = s.rank_score;
            let mut j: usize = 0;
            while j < out.len() && !(rank > out[j].rank_score)
                invariant
                    j <= out@.len(),
                    out@.len() == done.len(),
                    rank == group_rank(gv),
                    forall|i: int| 0 <= i < out@.len() ==> suggestion_of(#[trigger] out@[i], done[i]),
                    forall|i: int| 0 <= i < j ==> !(group_rank(gv) > group_rank(#[trigger] done[i])),
                decreases out@.len() - j,
            {
                assert(suggestion_of(out@[j as int], done[j as int]));
                j = j + 1;
            }
            proof {
                if j < out@.len() {
                    assert(suggestion_of(out@[j as int], done[j as int]));
                }
                lemma_rank_place(done, gv, j as int);
                let t = all.take(c + 1);
                assert(t.drop_last() =~= all.take(c));
                assert(t.last() == gv);
            }
            let ghost before = out@;
            out.insert(j, s);
            proof {
                let nd = done.insert(j as int, gv);
                assert forall|i: int| 0 <= i < out@.len() implies suggestion_of(
                    #[trigger] out@[i],
                    nd[i],
                ) by {
                    if i < j {
                        assert(out@[i] == before[i]);
                    } else if i > j {
                        assert(out@[i] == before[i - 1]);
                        assert(nd[i] == done[i - 1]);
                    }
                }
                done = nd;
                c = c + 1;
                assert(groups_view(groups@) =~= all.subrange(c, all.len() as int));
            }
        }
        assert(all.take(all.len() as int) =~= all);
        proof {
            lemma_sort_by_rank_len(all);
        }
        out
    }
}

/// The mention sequences held by the groups.
pub open spec fn groups_view(gs: Seq<Vec<Mention>>) -> Seq<Seq<Mention>> {
    Seq::new(gs.len(), |i: int| gs[i]@)
}

proof fn lemma_group_index(gs: Seq<Seq<Mention>>, k: Seq<char>, i: int)
    requires
        0 <= i <= gs.len(),
        forall|j: int| 0 <= j < gs.len() ==> (#[trigger] gs[j]).len() > 0,
        forall|j: int| 0 <= j < i ==> group_key((#[trigger] gs[j])[0]) != k,
        i < gs.len() ==> group_key(gs[i][0]) == k,
    ensures
        group_index(gs, k) == i,
    decreases gs.len(),
{
    if gs.len() > 0 && i > 0 {
        assert(group_key(gs[0][0]) != k);
        let t = gs.drop_first();
        assert forall|j: int| 0 <= j < i - 1 implies group_key((#[trigger] t[j])[0]) != k by {
            assert(t[j] == gs[j + 1]);
        }
        if i - 1 < t.len() {
            assert(t[i - 1] == gs[i]);
        }
        lemma_group_index(t, k, i - 1);
    }
}

proof fn lemma_rank_place(gs: Seq<Seq<Mention>>, g: Seq<Mention>, j: int)
    requires
        0 <= j <= gs.len(),
        forall|i: int| 0 <= i < j ==> !(group_rank(g) > group_rank(#[trigger] gs[i])),
        j < gs.len() ==> group_rank(g) > group_rank(gs[j]),
    ensures
        rank_place(gs, g) == j,
    decreases gs.len(),
{
    if gs.len() > 0 && j > 0 {
        assert(!(group_rank(g) > group_rank(gs[0])));
        let t = gs.drop_first();
        assert forall|i: int| 0 <= i < j - 1 implies !(group_rank(g) > group_rank(#[trigger] t[i])) by {
            assert(t[i] == gs[i + 1]);
        }
        if j - 1 < t.len() {
            assert(t[j - 1] == gs[j]);
        }
        lemma_rank_place(t, g, j - 1);
    }
}

// =============================================================================
// Conversions from extractor outputs
// =============================================================================

/// The mention source of each pipeline match source.
pub open spec fn source_of_match(s: MatchSource) -> MentionSource {
    match s {
        MatchSource::Gazetteer => MentionSource::FstGazetteer,
        MatchSource::Rule => MentionSource::FstRule,
        MatchSource::Orthographic => MentionSource::FstOrthographic,
    }
}

impl Mention {
    /// The mention of an implicit match (document ID left empty, to be set
    /// by the caller).
    pub fn from_implicit(m: &ImplicitMention) -> (r: Mention)
        ensures
            r.doc_id@.len() == 0,
            r.start == m.start,
            r.end == m.end,
            r.surface == m.matched_text,
            r.label == m.entity_kind,
            r.source == MentionSource::Implicit,
            r.score == Some(m.confidence),
            r.rule_id is None,
            r.entity_id == Some(m.entity_id),
            r.canonical == Some(m.entity_label),
    {
        Mention {
            doc_id: String::new(),
            start: m.start,
            end: m.end,
            surface: m.matched_text.clone(),
            label: m.entity_kind.clone(),
            source: MentionSource::Implicit,
            score: Some(m.confidence),
            rule_id: None,
            entity_id: Some(m.entity_id.clone()),
            canonical: Some(m.entity_label.clone()),
        }
    }

    /// The mention of a pipeline match (document ID left empty, to be set by
    /// the caller).
    pub fn from_entity_match(m: &EntityMatch) -> (r: Mention)
        ensures
            r.doc_id@.len() == 0,
            r.start == m.byte_start,
            r.end == m.byte_end,
            r.surface == m.text,
            r.label == m.kind,
            r.source == source_of_match(m.source),
            r.score == Some(m.confidence),
            r.rule_id is None,
            r.entity_id == m.entity_id,
            r.canonical == m.canonical_label,
    {
        let source = match m.source {
            MatchSource::Gazetteer => MentionSource::FstGazetteer,
            MatchSource::Rule => MentionSource::FstRule,
            MatchSource::Orthographic => MentionSource::FstOrthographic,
        };
        Mention {
            doc_id: String::new(),
            start: m.byte_start,
            end: m.byte_end,
            surface: m.text.clone(),
            label: m.kind.clone(),
            source,
            score: Some(m.confidence),
            rule_id: None,
            entity_id: clone_opt_string(&m.entity_id),
            canonical: clone_opt_string(&m.canonical_label),
        }
    }
}

proof fn lemma_group_index_found(gs: Seq<Seq<Mention>>, k: Seq<char>)
    ensures
        0 <= group_index(gs, k) <= gs.len(),
        group_index(gs, k) < gs.len() ==> gs[group_index(gs, k)].len() > 0 && group_key(
            gs[group_index(gs, k)][0],
        ) == k,
        group_index(gs, k) == gs.len() ==> forall|j: int|
            0 <= j < gs.len() ==> !((#[trigger] gs[j]).len() > 0 && group_key(gs[j][0]) == k),
    decreases gs.len(),
{
    if gs.len() > 0 && !(gs[0].len() > 0 && group_key(gs[0][0]) == k) {
        let t = gs.drop_first();
        lemma_group_index_found(t, k);
        if group_index(gs, k) == gs.len() {
            assert forall|j: int| 0 <= j < gs.len() implies !((#[trigger] gs[j]).len() > 0 && group_key(gs[j][0])
                == k) by {
                if j > 0 {
                    assert(gs[j] == t[j - 1]);
                }
            }
        } else {
            assert(gs[group_index(gs, k)] == t[group_index(t, k)]);
        }
    }
}

/// The groups are non-empty, each holds the mentions of one key, no two
/// share a key, and together they hold exactly the mentions.
proof fn lemma_groups(ms: Seq<Mention>)
    ensures
        uniform_groups(group_mentions(ms)),
        keys_distinct(group_mentions(ms)),
        covers(group_mentions(ms), ms),
        drawn_from(group_mentions(ms), ms),
    decreases ms.len(),
{
    if ms.len() > 0 {
        let init = ms.drop_last();
        lemma_groups(init);
        let gs = group_mentions(init);
        let m = ms.last();
        let key = group_key(m);
        lemma_group_index_found(gs, key);
        let i = group_index(gs, key);
        let out = group_mentions(ms);
        assert(m == ms[ms.len() - 1]);
        if i < gs.len() {
            assert(out == gs.update(i, gs[i].push(m)));
            assert forall|q: int| 0 <= q < out.len() implies (#[trigger] out[q]).len() > 0 && forall|j: int|
                0 <= j < out[q].len() ==> group_key(#[trigger] out[q][j]) == group_key(out[q][0]) by {
                if q == i {
                    assert forall|j: int| 0 <= j < out[q].len() implies group_key(#[trigger] out[q][j]) == group_key(
                        out[q][0],
                    ) by {
                        if j < gs[i].len() {
                            assert(out[q][j] == gs[i][j]);
                        }
                        assert(out[q][0] == gs[i][0]);
                    }
                }
            }
            assert forall|a: int, b: int| 0 <= a < b < out.len() implies group_key((#[trigger] out[a])[0])
                != group_key((#[trigger] out[b])[0]) by {
                assert(out[a][0] == gs[a][0]);
                assert(out[b][0] == gs[b][0]);
            }
            assert forall|k: int| 0 <= k < ms.len() implies exists|q: int|
                0 <= q < out.len() && (#[trigger] out[q]).contains(#[trigger] ms[k]) by {
                if k < init.len() {
                    assert(init[k] == ms[k]);
                    let q = choose|q: int| 0 <= q < gs.len() && (#[trigger] gs[q]).contains(init[k]);
                    let j = choose|j: int| 0 <= j < gs[q].len() && gs[q][j] == init[k];
                    if q == i {
                        assert(out[q][j] == gs[q][j]);
                    }
                    assert(out[q].contains(ms[k]));
                } else {
                    assert(out[i][gs[i].len() as int] == m);
                    assert(out[i].contains(ms[k]));
                }
            }
            assert forall|q: int, j: int| 0 <= q < out.len() && 0 <= j < out[q].len() implies ms.contains(
                #[trigger] out[q][j],
            ) by {
                if q == i && j == gs[i].len() {
                    assert(out[q][j] == m);
                } else {
                    assert(out[q][j] == gs[q][j]);
                    assert(init.contains(gs[q][j]));
                    let x = choose|x: int| 0 <= x < init.len() && init[x] == gs[q][j];
                    assert(ms[x] == init[x]);
                }
            }
        } else {
            assert(out == gs.push(seq![m]));
            assert forall|q: int| 0 <= q < out.len() implies (#[trigger] out[q]).len() > 0 && forall|j: int|
                0 <= j < out[q].len() ==> group_key(#[trigger] out[q][j]) == group_key(out[q][0]) by {
                if q < gs.len() {
                    assert(out[q] == gs[q]);
                }
            }
            assert forall|a: int, b: int| 0 <= a < b < out.len() implies group_key((#[trigger] out[a])[0])
                != group_key((#[trigger] out[b])[0]) by {
                assert(out[a] == gs[a]);
                if b < gs.len() {
                    assert(out[b] == gs[b]);
                } else {
                    assert(out[b][0] == m);
                    assert(!((gs[a]).len() > 0 && group_key(gs[a][0]) == key));
                }
            }
            assert forall|k: int| 0 <= k < ms.len() implies exists|q: int|
                0 <= q < out.len() && (#[trigger] out[q]).contains(#[trigger] ms[k]) by {
                if k < init.len() {
                    assert(init[k] == ms[k]);
                    let q = choose|q: int| 0 <= q < gs.len() && (#[trigger] gs[q]).contains(init[k]);
                    assert(out[q] == gs[q]);
                } else {
                    assert(out[gs.len() as int][0] == m);
                    assert(out[gs.len() as int].contains(ms[k]));
                }
            }
            assert forall|q: int, j: int| 0 <= q < out.len() && 0 <= j < out[q].len() implies ms.contains(
                #[trigger] out[q][j],
            ) by {
                if q == gs.len() {
                    assert(out[q][j] == m);
                } else {
                    assert(out[q] == gs[q]);
                    assert(init.contains(gs[q][j]));
                    let x = choose|x: int| 0 <= x < init.len() && init[x] == gs[q][j];
                    assert(ms[x] == init[x]);
                }
            }
        }
    }
}

/// Sorting the groups by rank reorders them: each sorted group is one of
/// the groups, and each group is among the sorted ones at a place of its
/// own.
proof fn lemma_sort_by_rank_perm(gs: Seq<Seq<Mention>>)
    ensures
        sort_by_rank(gs).len() == gs.len(),
        forall|i: int| 0 <= i < gs.len() ==> exists|p: int| 0 <= p < gs.len() && (#[trigger] sort_by_rank(gs)[p]) == #[trigger] gs[i],
        forall|p: int| 0 <= p < gs.len() ==> exists|i: int| 0 <= i < gs.len() && #[trigger] sort_by_rank(gs)[p] == gs[i],
    decreases gs.len(),
{
    lemma_sort_by_rank_len(gs);
    if gs.len() > 0 {
        let d = gs.drop_last();
        lemma_sort_by_rank_perm(d);
        let r = sort_by_rank(d);
        let g = gs.last();
        lemma_rank_place_bound(r, g);
        let pl = rank_place(r, g);
        r.insert_ensures(pl, g);
        let out = r.insert(pl, g);
        assert(sort_by_rank(gs) == out);
        assert forall|i: int| 0 <= i < gs.len() implies exists|p: int| 0 <= p < gs.len() && (#[trigger] out[p]) == #[trigger] gs[i] by {
            if i < d.len() {
                assert(d[i] == gs[i]);
                let p = choose|p: int| 0 <= p < d.len() && (#[trigger] r[p]) == d[i];
                if p < pl {
                    assert(out[p] == r[p]);
                } else {
                    assert(out[p + 1] == r[p]);
                }
            } else {
                assert(out[pl] == g);
            }
        }
        assert forall|p: int| 0 <= p < gs.len() implies exists|i: int| 0 <= i < gs.len() && #[trigger] out[p] == gs[i] by {
            if p < pl {
                let i = choose|i: int| 0 <= i < d.len() && #[trigger] r[p] == d[i];
                assert(out[p] == r[p]);
                assert(gs[i] == d[i]);
            } else if p == pl {
                assert(out[p] == gs[gs.len() - 1]);
            } else {
                let i = choose|i: int| 0 <= i < d.len() && #[trigger] r[p - 1] == d[i];
                assert(out[p] == r[p - 1]);
                assert(gs[i] == d[i]);
            }
        }
    }
}

/// Groups with pairwise distinct keys (compared on their first mentions).
pub open spec fn keys_distinct(gs: Seq<Seq<Mention>>) -> bool {
    forall|a: int, b: int|
        0 <= a < b < gs.len() ==> group_key((#[trigger] gs[a])[0]) != group_key((#[trigger] gs[b])[0])
}

proof fn lemma_insert_keys(r: Seq<Seq<Mention>>, g: Seq<Mention>, pl: int)
    requires
        keys_distinct(r),
        0 <= pl <= r.len(),
        forall|q: int| 0 <= q < r.len() ==> group_key((#[trigger] r[q])[0]) != group_key(g[0]),
    ensures
        keys_distinct(r.insert(pl, g)),
{
    r.insert_ensures(pl, g);
    let out = r.insert(pl, g);
    assert forall|a: int, b: int| 0 <= a < b < out.len() implies group_key((#[trigger] out[a])[0]) != group_key(
        (#[trigger] out[b])[0],
    ) by {
        if b < pl {
            assert(out[a] == r[a] && out[b] == r[b]);
        } else if b == pl {
            assert(out[a] == r[a]);
        } else if a < pl {
            assert(out[a] == r[a] && out[b] == r[b - 1]);
        } else if a == pl {
            assert(out[b] == r[b - 1]);
        } else {
            assert(out[a] == r[a - 1] && out[b] == r[b - 1]);
        }
    }
}

/// Every sorted group is one of the groups.
proof fn lemma_sort_from(gs: Seq<Seq<Mention>>)
    ensures
        forall|p: int| 0 <= p < sort_by_rank(gs).len() ==> gs.contains(#[trigger] sort_by_rank(gs)[p]),
    decreases gs.len(),
{
    if gs.len() > 0 {
        let d = gs.drop_last();
        lemma_sort_from(d);
        let r = sort_by_rank(d);
        let g = gs.last();
        lemma_rank_place_bound(r, g);
        let pl = rank_place(r, g);
        r.insert_ensures(pl, g);
        let out = r.insert(pl, g);
        assert(sort_by_rank(gs) == out);
        assert forall|p: int| 0 <= p < out.len() implies gs.contains(#[trigger] out[p]) by {
            if p == pl {
                assert(gs[gs.len() - 1] == g);
            } else {
                let y = if p < pl {
                    r[p]
                } else {
                    r[p - 1]
                };
                assert(out[p] == y);
                assert(d.contains(y));
                let i = choose|i: int| 0 <= i < d.len() && d[i] == y;
                assert(gs[i] == d[i]);
            }
        }
    }
}

/// Sorting keeps the groups' keys distinct.
proof fn lemma_sort_keys_distinct(gs: Seq<Seq<Mention>>)
    requires
        forall|i: int| 0 <= i < gs.len() ==> (#[trigger] gs[i]).len() > 0,
        keys_distinct(gs),
    ensures
        keys_distinct(sort_by_rank(gs)),
    decreases gs.len(),
{
    if gs.len() > 0 {
        let d = gs.drop_last();
        assert forall|i: int| 0 <= i < d.len() implies (#[trigger] d[i]).len() > 0 by {
            assert(d[i] == gs[i]);
        }
        assert(keys_distinct(d)) by {
            assert forall|a: int, b: int| 0 <= a < b < d.len() implies group_key((#[trigger] d[a])[0]) != group_key(
                (#[trigger] d[b])[0],
            ) by {
                assert(d[a] == gs[a] && d[b] == gs[b]);
            }
        }
        lemma_sort_keys_distinct(d);
        lemma_sort_from(d);
        let r = sort_by_rank(d);
        let g = gs.last();
        lemma_rank_place_bound(r, g);
        assert forall|q: int| 0 <= q < r.len() implies group_key((#[trigger] r[q])[0]) != group_key(g[0]) by {
            assert(d.contains(r[q]));
            let i = choose|i: int| 0 <= i < d.len() && d[i] == r[q];
            assert(d[i] == gs[i]);
            assert(gs[gs.len() - 1] == g);
        }
        lemma_insert_keys(r, g, rank_place(r, g));
    }
}

/// Every group is non-empty and its mentions share one key.
pub open spec fn uniform_groups(gs: Seq<Seq<Mention>>) -> bool {
    forall|i: int|
        0 <= i < gs.len() ==> (#[trigger] gs[i]).len() > 0 && forall|j: int|
            0 <= j < gs[i].len() ==> group_key(#[trigger] gs[i][j]) == group_key(gs[i][0])
}

/// Every mention of `ms` is in some group.
pub open spec fn covers(gs: Seq<Seq<Mention>>, ms: Seq<Mention>) -> bool {
    forall|k: int| 0 <= k < ms.len() ==> exists|i: int| 0 <= i < gs.len() && (#[trigger] gs[i]).contains(#[trigger] ms[k])
}

/// Every grouped mention is a mention of `ms`.
pub open spec fn drawn_from(gs: Seq<Seq<Mention>>, ms: Seq<Mention>) -> bool {
    forall|i: int, j: int| 0 <= i < gs.len() && 0 <= j < gs[i].len() ==> ms.contains(#[trigger] gs[i][j])
}

proof fn lemma_sorted_uniform(g0: Seq<Seq<Mention>>)
    requires
        uniform_groups(g0),
    ensures
        uniform_groups(sort_by_rank(g0)),
{
    lemma_sort_from(g0);
    let gs = sort_by_rank(g0);
    assert forall|i: int|
        0 <= i < gs.len() implies (#[trigger] gs[i]).len() > 0 && forall|j: int|
            0 <= j < gs[i].len() ==> group_key(#[trigger] gs[i][j]) == group_key(gs[i][0]) by {
        assert(g0.contains(gs[i]));
        let q = choose|q: int| 0 <= q < g0.len() && g0[q] == gs[i];
    }
}

proof fn lemma_sorted_covers(g0: Seq<Seq<Mention>>, ms: Seq<Mention>)
    requires
        covers(g0, ms),
    ensures
        covers(sort_by_rank(g0), ms),
{
    lemma_sort_by_rank_perm(g0);
    let gs = sort_by_rank(g0);
    assert forall|k: int| 0 <= k < ms.len() implies exists|i: int| 0 <= i < gs.len() && (#[trigger] gs[i]).contains(
        #[trigger] ms[k],
    ) by {
        let q = choose|q: int| 0 <= q < g0.len() && (#[trigger] g0[q]).contains(ms[k]);
        let p = choose|p: int| 0 <= p < g0.len() && (#[trigger] gs[p]) == g0[q];
        assert(gs[p].contains(ms[k]));
    }
}

proof fn lemma_sorted_drawn(g0: Seq<Seq<Mention>>, ms: Seq<Mention>)
    requires
        drawn_from(g0, ms),
    ensures
        drawn_from(sort_by_rank(g0), ms),
{
    lemma_sort_from(g0);
    let gs = sort_by_rank(g0);
    assert forall|i: int, j: int| 0 <= i < gs.len() && 0 <= j < gs[i].len() implies ms.contains(#[trigger] gs[i][j]) by {
        assert(g0.contains(gs[i]));
        let q = choose|q: int| 0 <= q < g0.len() && g0[q] == gs[i];
        assert(g0[q][j] == gs[i][j]);
    }
}

/// Grouping into suggestions partitions the mentions by their lowercased
/// effective label: each suggestion's mentions share one key, no two
/// suggestions share a key, every mention is in a suggestion, and every
/// suggestion's mention is one of the mentions.
pub proof fn law_suggestions_partition(ms: Seq<Mention>)
    ensures
        uniform_groups(sort_by_rank(group_mentions(ms))),
        keys_distinct(sort_by_rank(group_mentions(ms))),
        covers(sort_by_rank(group_mentions(ms)), ms),
        drawn_from(sort_by_rank(group_mentions(ms)), ms),
{
    let g0 = group_mentions(ms);
    lemma_groups(ms);
    lemma_sorted_uniform(g0);
    lemma_sort_keys_distinct(g0);
    lemma_sorted_covers(g0, ms);
    lemma_sorted_drawn(g0, ms);
}

} // verus!
