//! The recognition operations offered to the editor: scan, hydrate, clear,
//! add and remove entities, statistics; each acts on the pipeline it is given.
//!
//! Confidences are in thousandths.

use vstd::prelude::*;

use crate::gazetteer::{built, entity_entries, without_entity, EntryModel, Gazetteer};
use crate::pipeline::{EntityMatch, MatchSource, Pipeline, PipelineResult};

verus! {

// =============================================================================
// Types
// =============================================================================

/// Entity definition for hydration
#[derive(Debug, Clone)]
pub struct EntityDef {
    pub id: String,
    pub label: String,
    pub kind: String,
    pub aliases: Vec<String>,
}

/// Scan result
#[derive(Debug)]
pub struct FstScanResult {
    pub matches: Vec<FstMatch>,
    pub timing_us: u64,
    pub token_count: usize,
}

/// Single match
#[derive(Debug, Clone)]
pub struct FstMatch {
    pub text: String,
    pub kind: String,
    /// Confidence in thousandths
    pub confidence: u32,
    pub byte_start: usize,
    pub byte_end: usize,
    pub source: String,
    pub entity_id: Option<String>,
    pub canonical_label: Option<String>,
}

/// Pipeline statistics
#[derive(Debug, Clone, Copy)]
pub struct FstStats {
    pub gazetteer_patterns: usize,
    pub rule_count: usize,
}

/// The name of each match source.
pub open spec fn source_label(s: MatchSource) -> Seq<char> {
    match s {
        MatchSource::Gazetteer => "gazetteer"@,
        MatchSource::Rule => "rule"@,
        MatchSource::Orthographic => "orthographic"@,
    }
}

/// `f` reports the entity match `m`.
pub open spec fn reports(f: FstMatch, m: EntityMatch) -> bool {
    &&& f.text == m.text
    &&& f.kind == m.kind
    &&& f.confidence == m.confidence
    &&& f.byte_start == m.byte_start
    &&& f.byte_end == m.byte_end
    &&& f.source@ == source_label(m.source)
    &&& f.entity_id == m.entity_id
    &&& f.canonical_label == m.canonical_label
}

impl FstMatch {
    /// The report of an entity match.
    pub fn from_entity_match(m: EntityMatch) -> (f: FstMatch)
        ensures
            reports(f, m),
    {
        let source = match m.source {
            MatchSource::Gazetteer => "gazetteer".to_owned(),
            MatchSource::Rule => "rule".to_owned(),
            MatchSource::Orthographic => "orthographic".to_owned(),
        };
        FstMatch {
            text: m.text,
            kind: m.kind,
            confidence: m.confidence,
            byte_start: m.byte_start,
            byte_end: m.byte_end,
            source,
            entity_id: m.entity_id,
            canonical_label: m.canonical_label,
        }
    }
}

/// The entries a list of entities adds, in order.
pub open spec fn hydrate_entries(es: Seq<EntityDef>) -> Seq<EntryModel>
    decreases es.len(),
{
    if es.len() == 0 {
        seq![]
    } else {
        let e = es.last();
        hydrate_entries(es.drop_last()) + entity_entries(e.id@, e.label@, e.kind@, e.aliases@)
    }
}

/// The pipeline's stages other than the gazetteer are unchanged.
pub open spec fn same_stages(a: Pipeline, b: Pipeline) -> bool {
    &&& a.rule_engine() == b.rule_engine()
    &&& a.tokenizer() == b.tokenizer()
    &&& a.threshold() == b.threshold()
}

// =============================================================================
// Operations
// =============================================================================

/// Scan text for entities (hot path, meant for keystroke-level speed)
pub fn fst_scan(pipeline: &Pipeline, text: &str) -> (r: FstScanResult)
    ensures
        exists|pr: PipelineResult|
            {
                &&& pipeline.processed(text, pr)
                &&& r.matches@.len() == pr.matches@.len()
                &&& forall|i: int| 0 <= i < r.matches@.len() ==> reports(#[trigger] r.matches@[i], pr.matches@[i])
                &&& r.timing_us == pr.timing_us
                &&& r.token_count == pr.token_count
            },
{
    let result = pipeline.process(text);
    let ghost pr = result;
    let PipelineResult { matches, timing_us, token_count } = result;
    let ghost ms = matches@;
    let mut matches = matches;
    let mut out: Vec<FstMatch> = Vec::new();
    let ghost mut k: int = 0;
    while matches.len() > 0
        invariant
            0 <= k <= ms.len(),
            matches@ == ms.subrange(k, ms.len() as int),
            out@.len() == k,
            forall|i: int| 0 <= i < k ==> reports(#[trigger] out@[i], ms[i]),
        decreases matches@.len(),
    {
        let m = matches.remove(0);
        out.push(FstMatch::from_entity_match(m));
        proof {
            k = k + 1;
            assert(matches@ =~= ms.subrange(k, ms.len() as int));
        }
    }
    FstScanResult { matches: out, timing_us, token_count }
}

/// The outcome of a count-returning step, with the count dropped.
pub open spec fn as_unit(r: Result<usize, String>) -> Result<(), String> {
    match r {
        Ok(_) => Ok(()),
        Err(e) => Err(e),
    }
}

/// Hydrate the pipeline with known entities, then rebuild it; returns the
/// number of entities
pub fn fst_hydrate(pipeline: &mut Pipeline, entities: Vec<EntityDef>) -> (r: Result<usize, String>)
    ensures
        same_stages(*final(pipeline), *old(pipeline)),
        r matches Ok(n) ==> n == entities@.len(),
        exists|g: Gazetteer|
            {
                &&& g.entries() == old(pipeline).gazetteer().entries() + hydrate_entries(entities@)
                &&& g.automaton() == old(pipeline).gazetteer().automaton()
                &&& entities@.len() > 0 ==> g.is_dirty()
                &&& entities@.len() == 0 ==> g == old(pipeline).gazetteer()
                &&& built(g, final(pipeline).gazetteer(), as_unit(r))
            },
{
    let count = entities.len();
    let ghost g0 = pipeline.gazetteer();
    let ghost e0 = g0.entries();
    let mut k: usize = 0;
    while k < entities.len()
        invariant
            k <= entities@.len(),
            pipeline.gazetteer().entries() == e0 + hydrate_entries(entities@.take(k as int)),
            pipeline.gazetteer().automaton() == g0.automaton(),
            k > 0 ==> pipeline.gazetteer().is_dirty(),
            k == 0 ==> pipeline.gazetteer() == g0,
            same_stages(*pipeline, *old(pipeline)),
        decreases entities@.len() - k,
    {
        let e = &entities[k];
        let gaz = pipeline.gazetteer_mut();
        gaz.add_entity(e.id.as_str(), e.label.as_str(), e.kind.as_str(), e.aliases.as_slice());
        proof {
            let t = entities@.take(k + 1);
            assert(t.drop_last() =~= entities@.take(k as int));
            assert(t.last() == entities@[k as int]);
        }
        assert(pipeline.gazetteer().entries() =~= e0 + hydrate_entries(entities@.take(k + 1)));
        k = k + 1;
    }
    assert(entities@.take(entities@.len() as int) =~= entities@);
    let ghost gmid = pipeline.gazetteer();
    proof {
        if entities@.len() == 0 {
            assert(hydrate_entries(entities@) =~= Seq::<EntryModel>::empty());
            assert(gmid.entries() =~= e0 + hydrate_entries(entities@));
        }
    }
    match pipeline.build() {
        Ok(()) => {
            Ok(count)
        },
        Err(e) => {
            Err(e)
        },
    }
}

/// Clear the gazetteer (for re-hydration)
pub fn fst_clear(pipeline: &mut Pipeline)
    ensures
        final(pipeline).gazetteer().entries().len() == 0,
        final(pipeline).gazetteer().automaton() is None,
        same_stages(*final(pipeline), *old(pipeline)),
{
    pipeline.gazetteer_mut().clear();
}

/// Add a single entity to the gazetteer, then rebuild
pub fn fst_add_entity(
    pipeline: &mut Pipeline,
    id: &str,
    label: &str,
    kind: &str,
    aliases: Vec<String>,
) -> (r: Result<(), String>)
    ensures
        same_stages(*final(pipeline), *old(pipeline)),
        exists|g: Gazetteer|
            {
                &&& g.entries() == old(pipeline).gazetteer().entries() + entity_entries(id@, label@, kind@, aliases@)
                &&& g.automaton() == old(pipeline).gazetteer().automaton()
                &&& g.is_dirty()
                &&& built(g, final(pipeline).gazetteer(), r)
            },
{
    pipeline.gazetteer_mut().add_entity(id, label, kind, aliases.as_slice());
    let ghost gmid = pipeline.gazetteer();
    pipeline.build()
}

/// Remove an entity (label and aliases) from the gazetteer, then rebuild
pub fn fst_remove_entity(pipeline: &mut Pipeline, id: &str) -> (r: Result<(), String>)
    ensures
        same_stages(*final(pipeline), *old(pipeline)),
        exists|g: Gazetteer|
            {
                &&& g.entries() == without_entity(old(pipeline).gazetteer().entries(), id@)
                &&& g.automaton() == old(pipeline).gazetteer().automaton()
                &&& g.is_dirty() == (old(pipeline).gazetteer().is_dirty() || g.entries().len()
                    < old(pipeline).gazetteer().entries().len())
                &&& built(g, final(pipeline).gazetteer(), r)
            },
{
    pipeline.gazetteer_mut().remove_entity(id);
    let ghost gmid = pipeline.gazetteer();
    pipeline.build()
}

/// Get pipeline stats
pub fn fst_stats(pipeline: &Pipeline) -> (s: FstStats)
    ensures
        s.gazetteer_patterns == pipeline.gazetteer().entries().len(),
        s.rule_count == pipeline.rule_engine().rule_list().len(),
{
    FstStats {
        gazetteer_patterns: pipeline.gazetteer_pattern_count(),
        rule_count: pipeline.rule_count(),
    }
}

} // verus!
