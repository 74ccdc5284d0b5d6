//! Gazetteer: known entity names and aliases matched in text (ASCII case
//! insensitive, at word boundaries), overlaps resolved in favour of the
//! earlier, longer, then higher-priority match.
//!
//! Confidences are in thousandths.

use aho_corasick::AhoCorasick;
use vstd::prelude::*;
use vstd::string::StringSliceAdditionalSpecFns;
use vstd::utf8::*;

use crate::matcher::{
    automaton_builds, automaton_find, automaton_patterns, build_automaton, leftmost_longest_matches,
};
use crate::ranking::{dedupe_ranked, resolve_overlaps, SpanRanked};
use crate::text::{
    at_word_boundaries, clone_opt_string, is_word_boundary, opt_view, str_eq, str_slice,
    str_to_lowercase, string_views, unicode_lower_text,
};

verus! {

// =============================================================================
// Types
// =============================================================================

/// Priority levels for gazetteer matches
#[derive(Debug, Clone, Copy, PartialEq, Eq, PartialOrd, Ord, Hash, Structural)]
pub enum MatchPriority {
    /// Low priority (auto-generated aliases)
    Low,
    /// Medium priority (user-defined aliases)
    Medium,
    /// High priority (canonical entity names)
    High,
    /// Exact match from registry
    Exact,
}

/// The rank of each priority level (1 to 4).
pub open spec fn priority_rank(p: MatchPriority) -> u8 {
    match p {
        MatchPriority::Low => 1,
        MatchPriority::Medium => 2,
        MatchPriority::High => 3,
        MatchPriority::Exact => 4,
    }
}

impl MatchPriority {
    /// The rank of the level: Low 1, Medium 2, High 3, Exact 4.
    pub fn rank(&self) -> (r: u8)
        ensures
            r == priority_rank(*self),
    {
        match self {
            MatchPriority::Low => 1,
            MatchPriority::Medium => 2,
            MatchPriority::High => 3,
            MatchPriority::Exact => 4,
        }
    }
}

/// A gazetteer match result
#[derive(Debug, Clone, PartialEq)]
pub struct GazetteerMatch {
    /// Matched text from source
    pub text: String,
    /// Entity kind (CHARACTER, LOCATION, etc.)
    pub kind: String,
    /// Canonical entity label (resolved from alias)
    pub canonical_label: String,
    /// Entity ID (if known)
    pub entity_id: Option<String>,
    /// Match priority
    pub priority: MatchPriority,
    /// Confidence score in thousandths
    pub confidence: u32,
    /// Start byte offset
    pub byte_start: usize,
    /// End byte offset
    pub byte_end: usize,
}

impl SpanRanked for GazetteerMatch {
    open spec fn rank_key(&self) -> (usize, usize, u64, u64) {
        (self.byte_start, self.byte_end, priority_rank(self.priority) as u64, 0)
    }

    fn rank(&self) -> (r: (usize, usize, u64, u64)) {
        (self.byte_start, self.byte_end, self.priority.rank() as u64, 0)
    }
}

/// Entry in the gazetteer
struct GazetteerEntry {
    pattern: String,
    kind: String,
    canonical_label: String,
    entity_id: Option<String>,
    priority: MatchPriority,
    confidence: u32,
}

/// An entry as plain values.
pub struct EntryModel {
    pub pattern: Seq<char>,
    pub kind: Seq<char>,
    pub canonical_label: Seq<char>,
    pub entity_id: Option<Seq<char>>,
    pub priority: MatchPriority,
    pub confidence: u32,
}

spec fn entry_model(e: GazetteerEntry) -> EntryModel {
    EntryModel {
        pattern: e.pattern@,
        kind: e.kind@,
        canonical_label: e.canonical_label@,
        entity_id: opt_view(e.entity_id),
        priority: e.priority,
        confidence: e.confidence,
    }
}

/// The entries not belonging to entity `id`.
pub open spec fn without_entity(es: Seq<EntryModel>, id: Seq<char>) -> Seq<EntryModel>
    decreases es.len(),
{
    if es.len() == 0 {
        seq![]
    } else {
        let r = without_entity(es.drop_last(), id);
        if es.last().entity_id == Some(id) {
            r
        } else {
            r.push(es.last())
        }
    }
}

/// The entry of an alias of entity `id`.
pub open spec fn alias_entry(id: Seq<char>, label: Seq<char>, kind: Seq<char>, alias: Seq<char>) -> EntryModel {
    EntryModel {
        pattern: unicode_lower_text(alias),
        kind,
        canonical_label: label,
        entity_id: Some(id),
        priority: MatchPriority::Medium,
        confidence: 900,
    }
}

/// The entries an entity adds: its label, then its aliases.
pub open spec fn entity_entries(id: Seq<char>, label: Seq<char>, kind: Seq<char>, aliases: Seq<String>) -> Seq<
    EntryModel,
> {
    seq![
        EntryModel {
            pattern: unicode_lower_text(label),
            kind,
            canonical_label: label,
            entity_id: Some(id),
            priority: MatchPriority::High,
            confidence: 1000,
        },
    ] + Seq::new(aliases.len(), |j: int| alias_entry(id, label, kind, aliases[j]@))
}

pub open spec fn entry_patterns(es: Seq<EntryModel>) -> Seq<Seq<char>> {
    Seq::new(es.len(), |i: int| es[i].pattern)
}

/// An automaton match that can be reported: a known pattern at word
/// boundaries of the lowercased text, whose range is a valid slice of both
/// texts.
pub open spec fn usable_gaz_match(
    r: (usize, usize, usize),
    n: int,
    text: &str,
    lower: &str,
) -> bool {
    &&& r.0 < n
    &&& r.1 <= r.2
    &&& is_char_boundary(lower.spec_bytes(), r.1 as int)
    &&& is_char_boundary(lower.spec_bytes(), r.2 as int)
    &&& at_word_boundaries(lower@, r.1 as int, r.2 as int)
    &&& is_char_boundary(text.spec_bytes(), r.1 as int)
    &&& is_char_boundary(text.spec_bytes(), r.2 as int)
}

/// The match reported for the range `[start, end)` of entry `e`: the original
/// text of the range, with the entry's data.
pub open spec fn gaz_match_for(m: GazetteerMatch, e: EntryModel, text: &str, start: usize, end: usize) -> bool {
    &&& encode_utf8(m.text@) == text.spec_bytes().subrange(start as int, end as int)
    &&& m.kind@ == e.kind
    &&& m.canonical_label@ == e.canonical_label
    &&& opt_view(m.entity_id) == e.entity_id
    &&& m.priority == e.priority
    &&& m.confidence == e.confidence
    &&& m.byte_start == start
    &&& m.byte_end == end
}

/// The entries among the first `k` whose pattern is `p`, in order.
pub open spec fn entries_like(es: Seq<EntryModel>, p: Seq<char>, k: int) -> Seq<int>
    decreases k,
{
    if k <= 0 || k > es.len() {
        seq![]
    } else {
        let r = entries_like(es, p, k - 1);
        if es[k - 1].pattern == p {
            r.push(k - 1)
        } else {
            r
        }
    }
}

/// The range `r` reported once for each entry among `idx`.
pub open spec fn descs_for(idx: Seq<int>, r: (usize, usize, usize)) -> Seq<(int, usize, usize)> {
    Seq::new(idx.len(), |i: int| (idx[i], r.1, r.2))
}

/// The candidate matches of the usable automaton matches among `raws`, as
/// (entry, start, end): a match stands for every entry with the same pattern
/// (the automaton reports one pattern of a set of equal ones), so that
/// overlap resolution can prefer the highest priority among them.
pub open spec fn gaz_descs(
    es: Seq<EntryModel>,
    text: &str,
    lower: &str,
    raws: Seq<(usize, usize, usize)>,
) -> Seq<(int, usize, usize)>
    decreases raws.len(),
{
    if raws.len() == 0 {
        seq![]
    } else {
        let r = raws.last();
        let prev = gaz_descs(es, text, lower, raws.drop_last());
        if usable_gaz_match(r, es.len() as int, text, lower) {
            prev + descs_for(entries_like(es, es[r.0 as int].pattern, es.len() as int), r)
        } else {
            prev
        }
    }
}

pub proof fn lemma_candidates_push(
    cands: Seq<GazetteerMatch>,
    es: Seq<EntryModel>,
    text: &str,
    ds: Seq<(int, usize, usize)>,
    m: GazetteerMatch,
    d: (int, usize, usize),
)
    requires
        gaz_candidates(cands, es, text, ds),
        0 <= d.0 < es.len(),
        gaz_match_for(m, es[d.0], text, d.1, d.2),
    ensures
        gaz_candidates(cands.push(m), es, text, ds.push(d)),
{
    let c2 = cands.push(m);
    let d2 = ds.push(d);
    assert forall|i: int| 0 <= i < c2.len() implies desc_ok(#[trigger] c2[i], es, text, d2[i]) by {
        if i < cands.len() {
            assert(c2[i] == cands[i]);
            assert(d2[i] == ds[i]);
        }
    }
}

/// `cands` are the matches described by `ds`.
pub open spec fn gaz_candidates(
    cands: Seq<GazetteerMatch>,
    es: Seq<EntryModel>,
    text: &str,
    ds: Seq<(int, usize, usize)>,
) -> bool {
    &&& cands.len() == ds.len()
    &&& forall|i: int| 0 <= i < cands.len() ==> desc_ok(#[trigger] cands[i], es, text, ds[i])
}

/// `m` is the match described by `d`.
pub open spec fn desc_ok(m: GazetteerMatch, es: Seq<EntryModel>, text: &str, d: (int, usize, usize)) -> bool {
    0 <= d.0 < es.len() && gaz_match_for(m, es[d.0], text, d.1, d.2)
}

// =============================================================================
// Gazetteer
// =============================================================================

/// Gazetteer matcher using Aho-Corasick
pub struct Gazetteer {
    /// Pattern entries (indexed by pattern ID from the automaton)
    entries: Vec<GazetteerEntry>,
    /// Aho-Corasick automaton
    automaton: Option<AhoCorasick>,
    /// Whether the automaton needs a rebuild
    dirty: bool,
}

impl Default for Gazetteer {
    fn default() -> (g: Self)
        ensures
            g.entries().len() == 0,
            g.automaton() is None,
            !g.is_dirty(),
    {
        Self::new()
    }
}

/// What building does to gazetteer `g0`, giving `g` and `r`: the entries
/// stay; nothing changes when they are unchanged since the last successful
/// build; with no entries there is no automaton; else on success the
/// automaton holds the entries' patterns in order, and on failure the
/// automaton and the change flag stay as they were.
pub open spec fn built(g0: Gazetteer, g: Gazetteer, r: Result<(), String>) -> bool {
    &&& g.entries() == g0.entries()
    &&& !g0.is_dirty() && g0.automaton() is Some ==> r is Ok && g == g0
    &&& (g0.is_dirty() || g0.automaton() is None) && g0.entries().len() == 0 ==> r is Ok
        && g.automaton() is None && !g.is_dirty()
    &&& (g0.is_dirty() || g0.automaton() is None) && g0.entries().len() > 0 ==> (r is Ok
        <==> automaton_builds(entry_patterns(g0.entries())))
    &&& (g0.is_dirty() || g0.automaton() is None) && g0.entries().len() > 0 ==> match r {
        Ok(()) => g.automaton() matches Some(ac) && automaton_patterns(ac) == entry_patterns(g0.entries())
            && !g.is_dirty(),
        Err(m) => g.automaton() == g0.automaton() && g.is_dirty() == g0.is_dirty()
            && "Failed to build gazetteer: "@.is_prefix_of(m@),
    }
}

impl Gazetteer {
    /// The entries, in pattern-ID order.
    pub closed spec fn entries(self) -> Seq<EntryModel> {
        Seq::new(self.entries@.len(), |i: int| entry_model(self.entries@[i]))
    }

    /// The automaton of the last build, if any.
    pub closed spec fn automaton(self) -> Option<AhoCorasick> {
        self.automaton
    }

    /// Entries changed since the last build.
    pub closed spec fn is_dirty(self) -> bool {
        self.dirty
    }

    pub fn new() -> (g: Self)
        ensures
            g.entries().len() == 0,
            g.automaton() is None,
            !g.is_dirty(),
    {
        Gazetteer { entries: Vec::new(), automaton: None, dirty: false }
    }

    /// Add an entry; its pattern is stored lowercased
    pub fn add(
        &mut self,
        pattern: &str,
        kind: &str,
        canonical_label: &str,
        entity_id: Option<&str>,
        priority: MatchPriority,
        confidence: u32,
    )
        ensures
            final(self).entries() == old(self).entries().push(
                EntryModel {
                    pattern: unicode_lower_text(pattern@),
                    kind: kind@,
                    canonical_label: canonical_label@,
                    entity_id: match entity_id {
                        Some(s) => Some(s@),
                        None => None,
                    },
                    priority,
                    confidence,
                },
            ),
            final(self).automaton() == old(self).automaton(),
            final(self).is_dirty(),
    {
        let lower_pattern = str_to_lowercase(pattern);
        let id = match entity_id {
            Some(s) => Some(s.to_owned()),
            None => None,
        };
        self.entries.push(
            GazetteerEntry {
                pattern: lower_pattern,
                kind: kind.to_owned(),
                canonical_label: canonical_label.to_owned(),
                entity_id: id,
                priority,
                confidence,
            },
        );
        self.dirty = true;
        assert(self.entries() =~= old(self).entries().push(
            EntryModel {
                pattern: unicode_lower_text(pattern@),
                kind: kind@,
                canonical_label: canonical_label@,
                entity_id: match entity_id {
                    Some(s) => Some(s@),
                    None => None,
                },
                priority,
                confidence,
            },
        ));
    }

    /// Add an entity: its label at high priority (confidence 1.0), then each
    /// alias at medium priority (confidence 0.9)
    pub fn add_entity(&mut self, id: &str, label: &str, kind: &str, aliases: &[String])
        ensures
            final(self).entries() == old(self).entries() + entity_entries(
                id@,
                label@,
                kind@,
                aliases@,
            ),
            final(self).automaton() == old(self).automaton(),
            final(self).is_dirty(),
    {
        let ghost e0 = self.entries();
        self.add(label, kind, label, Some(id), MatchPriority::High, 1000);
        let mut j: usize = 0;
        while j < aliases.len()
            invariant
                j <= aliases@.len(),
                self.entries() == e0 + entity_entries(id@, label@, kind@, aliases@.take(j as int)),
                self.automaton() == old(self).automaton(),
                self.is_dirty(),
            decreases aliases@.len() - j,
        {
            self.add(aliases[j].as_str(), kind, label, Some(id), MatchPriority::Medium, 900);
            assert(entity_entries(id@, label@, kind@, aliases@.take(j + 1)) =~= entity_entries(
                id@,
                label@,
                kind@,
                aliases@.take(j as int),
            ).push(alias_entry(id@, label@, kind@, aliases@[j as int]@)));
            j = j + 1;
        }
        assert(aliases@.take(aliases@.len() as int) =~= aliases@);
    }

    /// Build the automaton (must be called before matching); nothing to do
    /// when the entries are unchanged since the last successful build
    pub fn build(&mut self) -> (r: Result<(), String>)
        ensures
            built(*old(self), *final(self), r),
    {
        if !self.dirty && self.automaton.is_some() {
            return Ok(());
        }
        if self.entries.len() == 0 {
            self.automaton = None;
            self.dirty = false;
            return Ok(());
        }
        let mut texts: Vec<String> = Vec::new();
        let mut i: usize = 0;
        while i < self.entries.len()
            invariant
                i <= self.entries@.len(),
                texts@.len() == i,
                string_views(texts@) == entry_patterns(self.entries()).take(i as int),
            decreases self.entries@.len() - i,
        {
            assert(entry_patterns(self.entries())[i as int] == self.entries@[i as int].pattern@);
            texts.push(self.entries[i].pattern.clone());
            assert(string_views(texts@)[i as int] == texts@[i as int]@);
            assert(string_views(texts@) =~= entry_patterns(self.entries()).take(i + 1));
            i = i + 1;
        }
        assert(string_views(texts@) =~= entry_patterns(self.entries()));
        match build_automaton(&texts) {
            Ok(ac) => {
                self.automaton = Some(ac);
                self.dirty = false;
                Ok(())
            },
            Err(e) => {
                let mut msg = "Failed to build gazetteer: ".to_owned();
                msg.append(e.as_str());
                proof {
                    reveal_strlit("Failed to build gazetteer: ");
                    assert("Failed to build gazetteer: "@.is_prefix_of(msg@));
                }
                Err(msg)
            },
        }
    }

    /// What `find_matches` reports for `text`: nothing without an automaton;
    /// else the usable automaton matches on the lowercased text, overlaps
    /// resolved.
    pub open spec fn found_matches(self, text: &str, out: Seq<GazetteerMatch>) -> bool {
        match self.automaton() {
            None => out.len() == 0,
            Some(ac) => exists|lower: &str, cands: Seq<GazetteerMatch>|
                lower@ == unicode_lower_text(text@) && gaz_candidates(
                    cands,
                    self.entries(),
                    text,
                    gaz_descs(
                        self.entries(),
                        text,
                        lower,
                        leftmost_longest_matches(automaton_patterns(ac), unicode_lower_text(text@)),
                    ),
                ) && out == resolve_overlaps(cands),
        }
    }

    /// Find all gazetteer matches in text: the automaton's matches on the
    /// lowercased text, resolved by `matches_from`
    pub fn find_matches(&self, text: &str) -> (out: Vec<GazetteerMatch>)
        ensures
            self.found_matches(text, out@),
    {
        let ac = match &self.automaton {
            Some(ac) => ac,
            None => return Vec::new(),
        };
        let lower_text = str_to_lowercase(text);
        let raws = automaton_find(ac, lower_text.as_str());
        self.matches_from(text, lower_text.as_str(), &raws)
    }

    /// The matches for automaton matches `raws` found in `lower` (the
    /// lowercased `text`): each match of a known pattern at word boundaries
    /// gives the original text of its range, once for every entry with that
    /// pattern; overlaps are then resolved
    pub fn matches_from(&self, text: &str, lower: &str, raws: &Vec<(usize, usize, usize)>) -> (out:
        Vec<GazetteerMatch>)
        ensures
            exists|cands: Seq<GazetteerMatch>|
                gaz_candidates(cands, self.entries(), text, gaz_descs(self.entries(), text, lower, raws@))
                    && out@ == resolve_overlaps(cands),
    {
        let ghost es = self.entries();
        let mut cands: Vec<GazetteerMatch> = Vec::new();
        let mut k: usize = 0;
        proof {
            encode_utf8_valid_utf8(text@);
            encode_utf8_valid_utf8(lower@);
        }
        while k < raws.len()
            invariant
                k <= raws@.len(),
                es == self.entries(),
                es.len() == self.entries@.len(),
                valid_utf8(text.spec_bytes()),
                valid_utf8(lower.spec_bytes()),
                gaz_candidates(cands@, es, text, gaz_descs(es, text, lower, raws@.take(k as int))),
            decreases raws@.len() - k,
        {
            let (id, s, e) = raws[k];
            let ghost prev = gaz_descs(es, text, lower, raws@.take(k as int));
            proof {
                let t = raws@.take(k + 1);
                assert(t.drop_last() =~= raws@.take(k as int));
                assert(t.last() == raws@[k as int]);
            }
            if id < self.entries.len() && s <= e && lower.is_char_boundary(s)
                && lower.is_char_boundary(e) && is_word_boundary(lower, s, e)
                && text.is_char_boundary(s) && text.is_char_boundary(e) {
                assert(usable_gaz_match(raws@[k as int], es.len() as int, text, lower));
                let piece = str_slice(text, s, e);
                let ghost p = es[id as int].pattern;
                assert(es[id as int] == entry_model(self.entries@[id as int]));
                let mut j: usize = 0;
                while j < self.entries.len()
                    invariant
                        j <= self.entries@.len(),
                        es == self.entries(),
                        es.len() == self.entries@.len(),
                        id < es.len(),
                        k < raws@.len(),
                        raws@[k as int] == (id, s, e),
                        p == es[id as int].pattern,
                        p == self.entries@[id as int].pattern@,
                        piece.spec_bytes() == text.spec_bytes().subrange(s as int, e as int),
                        gaz_candidates(
                            cands@,
                            es,
                            text,
                            prev + descs_for(entries_like(es, p, j as int), raws@[k as int]),
                        ),
                    decreases self.entries@.len() - j,
                {
                    let ghost before = cands@;
                    let ghost dj = prev + descs_for(entries_like(es, p, j as int), raws@[k as int]);
                    assert(es[j as int] == entry_model(self.entries@[j as int]));
                    if self.entries[j].pattern == self.entries[id].pattern {
                        let entry = &self.entries[j];
                        let m = GazetteerMatch {
                            text: piece.to_owned(),
                            kind: entry.kind.clone(),
                            canonical_label: entry.canonical_label.clone(),
                            entity_id: clone_opt_string(&entry.entity_id),
                            priority: entry.priority,
                            confidence: entry.confidence,
                            byte_start: s,
                            byte_end: e,
                        };
                        cands.push(m);
                        proof {
                            let nd = prev + descs_for(entries_like(es, p, j + 1), raws@[k as int]);
                            assert(entries_like(es, p, j + 1) == entries_like(es, p, j as int).push(
                                j as int,
                            ));
                            let xs = entries_like(es, p, j as int);
                            assert(raws@[k as int].1 == s && raws@[k as int].2 == e);
                            assert(descs_for(xs.push(j as int), raws@[k as int]) =~= descs_for(
                                xs,
                                raws@[k as int],
                            ).push((j as int, s, e)));
                            assert(nd =~= dj.push((j as int, s, e)));
                            assert(cands@ == before.push(cands@.last()));
                            lemma_candidates_push(before, es, text, dj, cands@.last(), (j as int, s, e));
                        }
                    } else {
                        proof {
                            assert(entries_like(es, p, j + 1) == entries_like(es, p, j as int));
                            assert(gaz_candidates(cands@, es, text, prev + descs_for(entries_like(es, p, j + 1), raws@[k as int])));
                        }
                    }
                    j = j + 1;
                }
            } else {
                assert(!usable_gaz_match(raws@[k as int], es.len() as int, text, lower));
            }
            k = k + 1;
        }
        assert(raws@.take(raws@.len() as int) =~= raws@);
        let ghost cv = cands@;
        let out = dedupe_ranked(cands);
        assert(gaz_candidates(cv, es, text, gaz_descs(es, text, lower, raws@)) && out@
            == resolve_overlaps(cv));
        out
    }

    /// Get pattern count
    pub fn pattern_count(&self) -> (n: usize)
        ensures
            n == self.entries().len(),
    {
        self.entries.len()
    }

    /// Clear all patterns
    pub fn clear(&mut self)
        ensures
            final(self).entries().len() == 0,
            final(self).automaton() is None,
            !final(self).is_dirty(),
    {
        self.entries = Vec::new();
        self.automaton = None;
        self.dirty = false;
    }

    /// Remove all entries for a specific entity ID; when any is removed the
    /// automaton must be rebuilt
    pub fn remove_entity(&mut self, id: &str)
        ensures
            final(self).entries() == without_entity(old(self).entries(), id@),
            final(self).automaton() == old(self).automaton(),
            final(self).is_dirty() == (old(self).is_dirty() || final(self).entries().len()
                < old(self).entries().len()),
    {
        let ghost es = self.entries();
        let before_count = self.entries.len();
        let mut old_entries: Vec<GazetteerEntry> = Vec::new();
        std::mem::swap(&mut old_entries, &mut self.entries);
        let ghost olds = old_entries@;
        assert(Seq::new(olds.len(), |i: int| entry_model(olds[i])) =~= es);
        let mut kept: Vec<GazetteerEntry> = Vec::new();
        let ghost mut k: int = 0;
        while old_entries.len() > 0
            invariant
                0 <= k <= olds.len(),
                es.len() == olds.len(),
                forall|i: int| 0 <= i < olds.len() ==> es[i] == entry_model(#[trigger] olds[i]),
                old_entries@ == olds.subrange(k, olds.len() as int),
                Seq::new(kept@.len(), |i: int| entry_model(kept@[i])) == without_entity(
                    es.take(k),
                    id@,
                ),
                kept@.len() <= k,
            decreases old_entries@.len(),
        {
            let x = old_entries.remove(0);
            proof {
                let t = es.take(k + 1);
                assert(t.drop_last() =~= es.take(k));
                assert(t.last() == es[k]);
                assert(es[k] == entry_model(x));
            }
            let is_target = match &x.entity_id {
                Some(e) => str_eq(e.as_str(), id),
                None => false,
            };
            let ghost kb = kept@;
            if !is_target {
                kept.push(x);
                assert(Seq::new(kept@.len(), |i: int| entry_model(kept@[i])) =~= Seq::new(
                    kb.len(),
                    |i: int| entry_model(kb[i]),
                ).push(entry_model(x)));
            }
            proof {
                k = k + 1;
                assert(old_entries@ =~= olds.subrange(k, olds.len() as int));
            }
        }
        assert(es.take(es.len() as int) =~= es);
        self.entries = kept;
        if self.entries.len() < before_count {
            self.dirty = true;
        }
    }

    /// Check if gazetteer is empty
    pub fn is_empty(&self) -> (b: bool)
        ensures
            b == (self.entries().len() == 0),
    {
        self.entries.len() == 0
    }
}

/// The range of a usable match: well formed, on character boundaries of the
/// text, at word boundaries of the lowercased text.
pub open spec fn usable_range(d: (int, usize, usize), text: &str, lower: &str) -> bool {
    &&& d.1 <= d.2
    &&& is_char_boundary(text.spec_bytes(), d.1 as int)
    &&& is_char_boundary(text.spec_bytes(), d.2 as int)
    &&& at_word_boundaries(lower@, d.1 as int, d.2 as int)
}

/// Every described match has a well-formed byte range, on character
/// boundaries of the text and at word boundaries of the lowercased text.
pub proof fn lemma_descs_well_formed(
    es: Seq<EntryModel>,
    text: &str,
    lower: &str,
    raws: Seq<(usize, usize, usize)>,
)
    ensures
        forall|k: int|
            0 <= k < gaz_descs(es, text, lower, raws).len() ==> usable_range(
                #[trigger] gaz_descs(es, text, lower, raws)[k],
                text,
                lower,
            ),
    decreases raws.len(),
{
    if raws.len() > 0 {
        lemma_descs_well_formed(es, text, lower, raws.drop_last());
        let r = raws.last();
        let prev = gaz_descs(es, text, lower, raws.drop_last());
        if usable_gaz_match(r, es.len() as int, text, lower) {
            let ds = gaz_descs(es, text, lower, raws);
            let add = descs_for(entries_like(es, es[r.0 as int].pattern, es.len() as int), r);
            assert(ds == prev + add);
            assert forall|k: int| 0 <= k < ds.len() implies usable_range(#[trigger] ds[k], text, lower) by {
                if k >= prev.len() {
                    assert(ds[k] == add[k - prev.len()]);
                } else {
                    assert(ds[k] == prev[k]);
                }
            }
        }
    }
}

/// Matches reported by the gazetteer have well-formed byte ranges.
pub proof fn lemma_found_well_formed(g: Gazetteer, text: &str, out: Seq<GazetteerMatch>)
    requires
        g.found_matches(text, out),
    ensures
        forall|k: int| 0 <= k < out.len() ==> (#[trigger] out[k]).byte_start <= out[k].byte_end,
{
    match g.automaton() {
        None => {},
        Some(ac) => {
            let (lower, cands) = choose|lower: &str, cands: Seq<GazetteerMatch>|
                lower@ == unicode_lower_text(text@) && gaz_candidates(
                    cands,
                    g.entries(),
                    text,
                    gaz_descs(
                        g.entries(),
                        text,
                        lower,
                        leftmost_longest_matches(automaton_patterns(ac), unicode_lower_text(text@)),
                    ),
                ) && out == resolve_overlaps(cands);
            let raws = leftmost_longest_matches(automaton_patterns(ac), unicode_lower_text(text@));
            let ds = gaz_descs(g.entries(), text, lower, raws);
            lemma_descs_well_formed(g.entries(), text, lower, raws);
            assert forall|i: int| 0 <= i < cands.len() implies (#[trigger] cands[i]).rank_key().0
                <= cands[i].rank_key().1 by {
                assert(desc_ok(cands[i], g.entries(), text, ds[i]));
                assert(usable_range(ds[i], text, lower));
            }
            crate::ranking::law_resolved_disjoint(cands);
            assert forall|k: int| 0 <= k < out.len() implies (#[trigger] out[k]).byte_start
                <= out[k].byte_end by {
                assert(cands.contains(out[k]));
                let i = choose|i: int| 0 <= i < cands.len() && cands[i] == out[k];
                assert(cands[i].rank_key().0 <= cands[i].rank_key().1);
            }
        },
    }
}

/// What `find_matches` reports, as a whole: nothing without an automaton;
/// else matches in order of position that never overlap, each the text's
/// own bytes in its range, on character boundaries, at word boundaries of the
/// lowercased text, and carrying the data of an entry whose pattern it is.
pub proof fn law_found_matches(g: Gazetteer, text: &str, out: Seq<GazetteerMatch>)
    requires
        g.found_matches(text, out),
    ensures
        g.automaton() is None ==> out.len() == 0,
        forall|a: int, b: int| 0 <= a < b < out.len() ==> (#[trigger] out[a]).byte_end <= (#[trigger] out[b]).byte_start,
        forall|k: int|
            0 <= k < out.len() ==> {
                let m = #[trigger] out[k];
                &&& m.byte_start <= m.byte_end
                &&& encode_utf8(m.text@) == text.spec_bytes().subrange(m.byte_start as int, m.byte_end as int)
                &&& is_char_boundary(text.spec_bytes(), m.byte_start as int)
                &&& is_char_boundary(text.spec_bytes(), m.byte_end as int)
                &&& at_word_boundaries(unicode_lower_text(text@), m.byte_start as int, m.byte_end as int)
                &&& exists|e: int| 0 <= e < g.entries().len() && gaz_match_for(m, g.entries()[e], text, m.byte_start, m.byte_end)
            },
{
    match g.automaton() {
        None => {},
        Some(ac) => {
            let (lower, cands) = choose|lower: &str, cands: Seq<GazetteerMatch>|
                lower@ == unicode_lower_text(text@) && gaz_candidates(
                    cands,
                    g.entries(),
                    text,
                    gaz_descs(
                        g.entries(),
                        text,
                        lower,
                        leftmost_longest_matches(automaton_patterns(ac), unicode_lower_text(text@)),
                    ),
                ) && out == resolve_overlaps(cands);
            let raws = leftmost_longest_matches(automaton_patterns(ac), unicode_lower_text(text@));
            let ds = gaz_descs(g.entries(), text, lower, raws);
            lemma_descs_well_formed(g.entries(), text, lower, raws);
            assert forall|i: int| 0 <= i < cands.len() implies (#[trigger] cands[i]).rank_key().0
                <= cands[i].rank_key().1 by {
                assert(desc_ok(cands[i], g.entries(), text, ds[i]));
                assert(usable_range(ds[i], text, lower));
            }
            crate::ranking::law_resolved_disjoint(cands);
            assert forall|a: int, b: int| 0 <= a < b < out.len() implies (#[trigger] out[a]).byte_end <= (
            #[trigger] out[b]).byte_start by {
                assert(out[a].rank_key().1 <= out[b].rank_key().0);
            }
            assert forall|k: int| 0 <= k < out.len() implies {
                let m = #[trigger] out[k];
                &&& m.byte_start <= m.byte_end
                &&& encode_utf8(m.text@) == text.spec_bytes().subrange(m.byte_start as int, m.byte_end as int)
                &&& is_char_boundary(text.spec_bytes(), m.byte_start as int)
                &&& is_char_boundary(text.spec_bytes(), m.byte_end as int)
                &&& at_word_boundaries(unicode_lower_text(text@), m.byte_start as int, m.byte_end as int)
                &&& exists|e: int| 0 <= e < g.entries().len() && gaz_match_for(m, g.entries()[e], text, m.byte_start, m.byte_end)
            } by {
                assert(cands.contains(out[k]));
                let i = choose|i: int| 0 <= i < cands.len() && cands[i] == out[k];
                assert(desc_ok(cands[i], g.entries(), text, ds[i]));
                assert(usable_range(ds[i], text, lower));
                assert(gaz_match_for(cands[i], g.entries()[ds[i].0], text, ds[i].1, ds[i].2));
            }
        },
    }
}

/// Removing an entity leaves no entry of it and keeps every other entry, in
/// order.
pub proof fn law_remove_entity_exact(es: Seq<EntryModel>, id: Seq<char>)
    ensures
        forall|k: int|
            0 <= k < without_entity(es, id).len() ==> (#[trigger] without_entity(es, id)[k]).entity_id
                != Some(id) && es.contains(without_entity(es, id)[k]),
        forall|k: int|
            0 <= k < es.len() && (#[trigger] es[k]).entity_id != Some(id) ==> without_entity(
                es,
                id,
            ).contains(es[k]),
        (forall|k: int| 0 <= k < es.len() ==> (#[trigger] es[k]).entity_id != Some(id))
            ==> without_entity(es, id) == es,
    decreases es.len(),
{
    if es.len() > 0 {
        let init = es.drop_last();
        law_remove_entity_exact(init, id);
        let r = without_entity(init, id);
        let out = without_entity(es, id);
        assert forall|k: int| 0 <= k < r.len() implies es.contains(#[trigger] r[k]) by {
            let j = choose|j: int| 0 <= j < init.len() && init[j] == r[k];
            assert(es[j] == init[j]);
        }
        assert forall|k: int| 0 <= k < init.len() && (#[trigger] es[k]).entity_id != Some(id) implies out.contains(es[k]) by {
            assert(init[k] == es[k]);
            assert(r.contains(init[k]));
            let j = choose|j: int| 0 <= j < r.len() && r[j] == init[k];
            if es.last().entity_id != Some(id) {
                assert(out == r.push(es.last()));
                assert(out[j] == r[j]);
            }
        }
        if es.last().entity_id != Some(id) {
            assert(out == r.push(es.last()));
            assert(out[out.len() - 1] == es[es.len() - 1]);
            assert forall|k: int| 0 <= k < out.len() implies (#[trigger] out[k]).entity_id != Some(id)
                && es.contains(out[k]) by {
                if k < r.len() {
                    assert(out[k] == r[k]);
                }
            }
        }
        if forall|k: int| 0 <= k < es.len() ==> (#[trigger] es[k]).entity_id != Some(id) {
            assert forall|k: int| 0 <= k < init.len() implies (#[trigger] init[k]).entity_id != Some(id) by {
                assert(init[k] == es[k]);
            }
            assert(es.last().entity_id != Some(id));
            assert(es == init.push(es.last()));
        }
    }
}

/// Removing an entity after adding it gives back the entries as they were,
/// when none of them belonged to that entity.
pub proof fn law_add_then_remove_entity(
    es: Seq<EntryModel>,
    id: Seq<char>,
    label: Seq<char>,
    kind: Seq<char>,
    aliases: Seq<String>,
)
    requires
        forall|k: int| 0 <= k < es.len() ==> (#[trigger] es[k]).entity_id != Some(id),
    ensures
        without_entity(es + entity_entries(id, label, kind, aliases), id) == es,
{
    lemma_without_appended(es, entity_entries(id, label, kind, aliases), id);
    law_remove_entity_exact(es, id);
}

proof fn lemma_without_appended(es: Seq<EntryModel>, added: Seq<EntryModel>, id: Seq<char>)
    requires
        forall|k: int| 0 <= k < added.len() ==> (#[trigger] added[k]).entity_id == Some(id),
    ensures
        without_entity(es + added, id) == without_entity(es, id),
    decreases added.len(),
{
    if added.len() > 0 {
        let init = added.drop_last();
        assert forall|k: int| 0 <= k < init.len() implies (#[trigger] init[k]).entity_id == Some(id) by {
            assert(init[k] == added[k]);
        }
        lemma_without_appended(es, init, id);
        assert((es + added).drop_last() == es + init);
        assert((es + added).last() == added[added.len() - 1]);
    }
}

} // verus!
