//! Knowledge-graph vocabulary (node kinds, creators, query options, errors)
//! and the bridge that decides when the scanner must be re-hydrated from the
//! graph's entity set.

use std::collections::hash_map::DefaultHasher;
use std::hash::Hasher;
use vstd::prelude::*;
use vstd::std_specs::hash::DefaultHasherAdditionalSpecFns;
use vstd::string::StringSliceAdditionalSpecFns;

use crate::text::{
    ascii_text, str_eq, str_to_lowercase, str_to_uppercase, trim_text, trimmed, unicode_lower_text,
    unicode_upper_text,
};

verus! {

// =============================================================================
// Node kinds and creators
// =============================================================================

/// Node kinds
#[derive(Debug, Clone, Copy, PartialEq, Eq, Hash, Structural)]
pub enum NodeKind {
    Character,
    Location,
    Item,
    Event,
    Concept,
    Organization,
    TimeUnit,
    Custom,
}

pub open spec fn kind_name(k: NodeKind) -> Seq<char> {
    match k {
        NodeKind::Character => "CHARACTER"@,
        NodeKind::Location => "LOCATION"@,
        NodeKind::Item => "ITEM"@,
        NodeKind::Event => "EVENT"@,
        NodeKind::Concept => "CONCEPT"@,
        NodeKind::Organization => "ORGANIZATION"@,
        NodeKind::TimeUnit => "TIME_UNIT"@,
        NodeKind::Custom => "CUSTOM"@,
    }
}

/// The kind named by `s` compared uppercased; unknown names are `Custom`.
pub open spec fn kind_of_name(s: Seq<char>) -> NodeKind {
    let u = unicode_upper_text(s);
    if u == "CHARACTER"@ {
        NodeKind::Character
    } else if u == "LOCATION"@ {
        NodeKind::Location
    } else if u == "ITEM"@ {
        NodeKind::Item
    } else if u == "EVENT"@ {
        NodeKind::Event
    } else if u == "CONCEPT"@ {
        NodeKind::Concept
    } else if u == "ORGANIZATION"@ {
        NodeKind::Organization
    } else if u == "TIME_UNIT"@ {
        NodeKind::TimeUnit
    } else {
        NodeKind::Custom
    }
}

impl NodeKind {
    pub fn as_str(&self) -> (r: &'static str)
        ensures
            r@ == kind_name(*self),
    {
        match self {
            NodeKind::Character => "CHARACTER",
            NodeKind::Location => "LOCATION",
            NodeKind::Item => "ITEM",
            NodeKind::Event => "EVENT",
            NodeKind::Concept => "CONCEPT",
            NodeKind::Organization => "ORGANIZATION",
            NodeKind::TimeUnit => "TIME_UNIT",
            NodeKind::Custom => "CUSTOM",
        }
    }

    pub fn from_str(s: &str) -> (k: Self)
        ensures
            k == kind_of_name(s@),
    {
        let upper = str_to_uppercase(s);
        let u = upper.as_str();
        if str_eq(u, "CHARACTER") {
            NodeKind::Character
        } else if str_eq(u, "LOCATION") {
            NodeKind::Location
        } else if str_eq(u, "ITEM") {
            NodeKind::Item
        } else if str_eq(u, "EVENT") {
            NodeKind::Event
        } else if str_eq(u, "CONCEPT") {
            NodeKind::Concept
        } else if str_eq(u, "ORGANIZATION") {
            NodeKind::Organization
        } else if str_eq(u, "TIME_UNIT") {
            NodeKind::TimeUnit
        } else {
            NodeKind::Custom
        }
    }
}

/// How a node was created
#[derive(Debug, Clone, Copy, PartialEq, Eq, Structural)]
pub enum CreatedBy {
    User,
    Extraction,
    Auto,
}

pub open spec fn creator_name(c: CreatedBy) -> Seq<char> {
    match c {
        CreatedBy::User => "user"@,
        CreatedBy::Extraction => "extraction"@,
        CreatedBy::Auto => "auto"@,
    }
}

/// The creator named by `s` compared lowercased; unknown names are `Auto`.
pub open spec fn creator_of_name(s: Seq<char>) -> CreatedBy {
    let l = unicode_lower_text(s);
    if l == "user"@ {
        CreatedBy::User
    } else if l == "extraction"@ {
        CreatedBy::Extraction
    } else {
        CreatedBy::Auto
    }
}

impl CreatedBy {
    pub fn as_str(&self) -> (r: &'static str)
        ensures
            r@ == creator_name(*self),
    {
        match self {
            CreatedBy::User => "user",
            CreatedBy::Extraction => "extraction",
            CreatedBy::Auto => "auto",
        }
    }

    pub fn from_str(s: &str) -> (c: Self)
        ensures
            c == creator_of_name(s@),
    {
        let lower = str_to_lowercase(s);
        let l = lower.as_str();
        if str_eq(l, "user") {
            CreatedBy::User
        } else if str_eq(l, "extraction") {
            CreatedBy::Extraction
        } else {
            CreatedBy::Auto
        }
    }
}

/// Reading a kind's name back gives the kind (`Custom`'s name, being no
/// known kind, reads back as `Custom` too).
pub proof fn law_kind_name_round_trip(k: NodeKind)
    ensures
        kind_of_name(kind_name(k)) == k,
{
    reveal_strlit("CHARACTER");
    reveal_strlit("LOCATION");
    reveal_strlit("ITEM");
    reveal_strlit("EVENT");
    reveal_strlit("CONCEPT");
    reveal_strlit("ORGANIZATION");
    reveal_strlit("TIME_UNIT");
    reveal_strlit("CUSTOM");
    let n = kind_name(k);
    assert(ascii_text(n));
    assert(unicode_upper_text(n) =~= n);
    if k != NodeKind::Character {
        assert(n != "CHARACTER"@) by {
            if n.len() == 9 {
                assert(n[0] != "CHARACTER"@[0]);
            }
        }
    }
    if k == NodeKind::Custom {
        assert(n != "TIME_UNIT"@);
        assert(n != "ORGANIZATION"@);
        assert(n != "CONCEPT"@);
        assert(n != "EVENT"@);
        assert(n != "ITEM"@);
        assert(n != "LOCATION"@);
    }
}

/// Reading a creator's name back gives the creator.
pub proof fn law_creator_name_round_trip(c: CreatedBy)
    ensures
        creator_of_name(creator_name(c)) == c,
{
    reveal_strlit("user");
    reveal_strlit("extraction");
    reveal_strlit("auto");
    let n = creator_name(c);
    assert(ascii_text(n));
    assert(unicode_lower_text(n) =~= n);
    if c != CreatedBy::User {
        assert(n != "user"@) by {
            if n.len() == 4 {
                assert(n[0] != "user"@[0]);
            }
        }
    }
    if c == CreatedBy::Auto {
        assert(n != "extraction"@);
    }
}

// =============================================================================
// Query options and results
// =============================================================================

/// Filters for querying nodes
#[derive(Debug, Clone)]
pub struct NodeFilter {
    pub kind: Option<NodeKind>,
    pub subtype: Option<String>,
    pub min_mentions: Option<i64>,
    pub label_contains: Option<String>,
}

impl Default for NodeFilter {
    fn default() -> (f: Self)
        ensures
            f.kind is None,
            f.subtype is None,
            f.min_mentions is None,
            f.label_contains is None,
    {
        NodeFilter { kind: None, subtype: None, min_mentions: None, label_contains: None }
    }
}

/// Direction for edge queries
#[derive(Debug, Clone, Copy, PartialEq, Eq, Structural)]
pub enum Direction {
    Outgoing,
    Incoming,
    Both,
}

/// Definition of an edge type (schema)
#[derive(Debug, Clone)]
pub struct EdgeTypeDef {
    pub edge_type: String,
    pub inverse_name: Option<String>,
    pub source_kinds: Vec<NodeKind>,
    pub target_kinds: Vec<NodeKind>,
    pub bidirectional: bool,
    pub color: Option<String>,
    pub description: Option<String>,
}

/// Result of batch operations
#[derive(Debug, Clone, Copy)]
pub struct BatchResult {
    pub nodes_created: usize,
    pub nodes_updated: usize,
    pub edges_created: usize,
    pub edges_updated: usize,
}

impl Default for BatchResult {
    fn default() -> (r: Self)
        ensures
            r == (BatchResult { nodes_created: 0, nodes_updated: 0, edges_created: 0, edges_updated: 0 }),
    {
        BatchResult { nodes_created: 0, nodes_updated: 0, edges_created: 0, edges_updated: 0 }
    }
}

/// Graph registry errors
#[derive(Debug, Clone)]
pub enum GraphError {
    NotInitialized,
    NodeNotFound(String),
    EdgeNotFound(String),
    DuplicateNode(String),
    InvalidEdge(String),
    QueryError(String),
    StorageError(String),
}

/// The message of each error.
pub open spec fn error_message(e: GraphError) -> Seq<char> {
    match e {
        GraphError::NotInitialized => "GraphRegistry not initialized"@,
        GraphError::NodeNotFound(id) => "Node not found: "@ + id@,
        GraphError::EdgeNotFound(id) => "Edge not found: "@ + id@,
        GraphError::DuplicateNode(label) => "Duplicate node: "@ + label@,
        GraphError::InvalidEdge(msg) => "Invalid edge: "@ + msg@,
        GraphError::QueryError(msg) => "Query error: "@ + msg@,
        GraphError::StorageError(msg) => "Storage error: "@ + msg@,
    }
}

fn prefixed(prefix: &str, rest: &String) -> (r: String)
    ensures
        r@ == prefix@ + rest@,
{
    let mut r = prefix.to_owned();
    r.append(rest.as_str());
    r
}

impl GraphError {
    /// The error's message (what `Display` shows).
    pub fn message(&self) -> (m: String)
        ensures
            m@ == error_message(*self),
    {
        match self {
            GraphError::NotInitialized => "GraphRegistry not initialized".to_owned(),
            GraphError::NodeNotFound(id) => prefixed("Node not found: ", id),
            GraphError::EdgeNotFound(id) => prefixed("Edge not found: ", id),
            GraphError::DuplicateNode(label) => prefixed("Duplicate node: ", label),
            GraphError::InvalidEdge(msg) => prefixed("Invalid edge: ", msg),
            GraphError::QueryError(msg) => prefixed("Query error: ", msg),
            GraphError::StorageError(msg) => prefixed("Storage error: ", msg),
        }
    }
}

// =============================================================================
// Scanner bridge
// =============================================================================

/// Entity definition for scanner hydration
#[derive(Debug, Clone)]
pub struct ScannerEntity {
    pub id: String,
    pub label: String,
    pub kind: String,
    pub aliases: Vec<String>,
}

/// Source of an extracted relation
#[derive(Debug, Clone, Copy, PartialEq, Eq, Structural)]
pub enum RelationSource {
    /// `[X] (REL) [Y]` syntax
    Explicit,
    /// Pattern matching on the syntax tree
    CstInference,
    /// Graph-based inference
    GraphInference,
}

/// Extracted entity mention from scan
#[derive(Debug, Clone)]
pub struct ScannedMention {
    pub entity_label: String,
    pub entity_kind: String,
    pub source_note: String,
}

/// A scanned relation with its two ends looked up by label: the ids found
/// (none when no entity has that label), its type and source, and the
/// (target id, type) of the edges already leaving the head entity.
#[derive(Debug, Clone)]
pub struct ResolvedRelation {
    pub head_id: Option<String>,
    pub tail_id: Option<String>,
    pub relation_type: String,
    pub source: RelationSource,
    pub existing: Vec<(String, String)>,
}

/// An edge to create for relation number `relation`.
#[derive(Debug, Clone)]
pub struct PlannedEdge {
    pub relation: usize,
    pub source_id: String,
    pub target_id: String,
    pub edge_type: String,
    pub created_by: CreatedBy,
}

/// A planned edge as plain values.
pub struct PlannedModel {
    pub relation: int,
    pub source_id: Seq<char>,
    pub target_id: Seq<char>,
    pub edge_type: Seq<char>,
    pub created_by: CreatedBy,
}

/// Who a relation's edge is credited to: the user for explicit syntax,
/// extraction otherwise.
pub open spec fn creator_for(src: RelationSource) -> CreatedBy {
    match src {
        RelationSource::Explicit => CreatedBy::User,
        _ => CreatedBy::Extraction,
    }
}

/// An edge from `head` to `tail` of type `ty` already exists: among the
/// head's edges before the scan, or planned earlier in this one.
pub open spec fn edge_known(
    r: ResolvedRelation,
    head: Seq<char>,
    tail: Seq<char>,
    planned: Seq<PlannedModel>,
) -> bool {
    ||| exists|i: int|
        0 <= i < r.existing@.len() && (#[trigger] r.existing@[i]).0@ == tail && r.existing@[i].1@
            == r.relation_type@
    ||| exists|i: int|
        0 <= i < planned.len() && (#[trigger] planned[i]).source_id == head && planned[i].target_id == tail
            && planned[i].edge_type == r.relation_type@
}

/// Ingesting relations `rels[0..k)`: the edges planned and the counts of
/// edges created and of relations whose edge already existed. A relation
/// with an end not found is skipped.
pub open spec fn relation_plan(rels: Seq<ResolvedRelation>, k: int) -> (Seq<PlannedModel>, int, int)
    decreases k,
{
    if k <= 0 || k > rels.len() {
        (seq![], 0, 0)
    } else {
        let (p, c, u) = relation_plan(rels, k - 1);
        let r = rels[k - 1];
        match (r.head_id, r.tail_id) {
            (Some(h), Some(t)) => if edge_known(r, h@, t@, p) {
                (p, c, u + 1)
            } else {
                (
                    p.push(
                        PlannedModel {
                            relation: k - 1,
                            source_id: h@,
                            target_id: t@,
                            edge_type: r.relation_type@,
                            created_by: creator_for(r.source),
                        },
                    ),
                    c + 1,
                    u,
                )
            },
            _ => (p, c, u),
        }
    }
}

pub open spec fn planned_model(e: PlannedEdge) -> PlannedModel {
    PlannedModel {
        relation: e.relation as int,
        source_id: e.source_id@,
        target_id: e.target_id@,
        edge_type: e.edge_type@,
        created_by: e.created_by,
    }
}

/// Result of ingesting scan results
#[derive(Debug, Clone, Copy)]
pub struct IngestResult {
    pub entities_created: usize,
    pub entities_updated: usize,
    pub edges_created: usize,
    pub edges_updated: usize,
}

impl Default for IngestResult {
    fn default() -> (r: Self)
        ensures
            r == (IngestResult { entities_created: 0, entities_updated: 0, edges_created: 0, edges_updated: 0 }),
    {
        IngestResult { entities_created: 0, entities_updated: 0, edges_created: 0, edges_updated: 0 }
    }
}

/// State tracking for smart hydration
#[derive(Debug)]
pub struct HydrationState {
    /// Hash of entity set for change detection
    entity_set_hash: u64,
    /// Number of entities at last hydration
    entity_count: usize,
}

impl Default for HydrationState {
    fn default() -> (s: Self)
        ensures
            s.hash() == 0,
            s.count() == 0,
    {
        HydrationState { entity_set_hash: 0, entity_count: 0 }
    }
}

impl HydrationState {
    /// Hash of the entity set at the last hydration.
    pub closed spec fn hash(self) -> u64 {
        self.entity_set_hash
    }

    /// Number of entities at the last hydration.
    pub closed spec fn count(self) -> usize {
        self.entity_count
    }
}

/// What the entity set's hash is computed over: for each entity its id,
/// label, kind and aliases, each as the bytes of the text then the byte
/// `0xff` (the way a `str` is fed to a hasher).
pub open spec fn entity_hash_input(es: Seq<ScannerEntity>) -> Seq<Seq<u8>>
    decreases es.len(),
{
    if es.len() == 0 {
        seq![]
    } else {
        let e = es.last();
        entity_hash_input(es.drop_last()) + text_parts(e.id@) + text_parts(e.label@) + text_parts(
            e.kind@,
        ) + alias_parts(e.aliases@)
    }
}

pub open spec fn text_parts(s: Seq<char>) -> Seq<Seq<u8>> {
    seq![vstd::utf8::encode_utf8(s), seq![0xffu8]]
}

pub open spec fn alias_parts(al: Seq<String>) -> Seq<Seq<u8>>
    decreases al.len(),
{
    if al.len() == 0 {
        seq![]
    } else {
        alias_parts(al.drop_last()) + text_parts(al.last()@)
    }
}

/// The hash of an entity set.
pub open spec fn entity_set_hash(es: Seq<ScannerEntity>) -> u64 {
    DefaultHasher::spec_finish(entity_hash_input(es))
}

fn hash_text(hasher: &mut DefaultHasher, s: &str)
    ensures
        final(hasher)@ == old(hasher)@ + text_parts(s@),
{
    hasher.write(s.as_bytes());
    let mut term: Vec<u8> = Vec::new();
    term.push(0xffu8);
    assert(term@ =~= seq![0xffu8]);
    hasher.write(term.as_slice());
    assert(hasher@ =~= old(hasher)@ + text_parts(s@));
}

/// Bridge between the graph registry and the scanner: decides, from the
/// registry's entity set, whether the scanner needs re-hydrating.
pub struct ScannerBridge {
    state: HydrationState,
}

impl Default for ScannerBridge {
    fn default() -> (b: Self)
        ensures
            b.state().hash() == 0,
            b.state().count() == 0,
    {
        Self::new()
    }
}

impl ScannerBridge {
    /// The hydration state.
    pub closed spec fn state(self) -> HydrationState {
        self.state
    }

    pub fn new() -> (b: Self)
        ensures
            b.state().hash() == 0,
            b.state().count() == 0,
    {
        ScannerBridge { state: HydrationState::default() }
    }

    /// The entities to hydrate the scanner with when the set changed since
    /// the last hydration (by hash and count), else `None`; the state then
    /// records the new set.
    pub fn entities_if_changed(&mut self, entities: Vec<ScannerEntity>) -> (r: Option<
        Vec<ScannerEntity>,
    >)
        ensures
            ({
                let h = entity_set_hash(entities@);
                let unchanged = h == old(self).state().hash() && entities@.len()
                    == old(self).state().count();
                &&& unchanged ==> r is None && final(self).state() == old(self).state()
                &&& !unchanged ==> (r matches Some(v) && v@ == entities@)
                &&& !unchanged ==> final(self).state().hash() == h && final(self).state().count() == entities@.len()
            }),
    {
        let mut hasher = DefaultHasher::new();
        let mut k: usize = 0;
        assert(hasher@ =~= entity_hash_input(entities@.take(0)));
        while k < entities.len()
            invariant
                k <= entities@.len(),
                hasher@ == entity_hash_input(entities@.take(k as int)),
            decreases entities@.len() - k,
        {
            let e = &entities[k];
            let ghost h0 = hasher@;
            hash_text(&mut hasher, e.id.as_str());
            hash_text(&mut hasher, e.label.as_str());
            hash_text(&mut hasher, e.kind.as_str());
            let mut j: usize = 0;
            while j < e.aliases.len()
                invariant
                    j <= e.aliases@.len(),
                    hasher@ == h0 + text_parts(e.id@) + text_parts(e.label@) + text_parts(e.kind@)
                        + alias_parts(e.aliases@.take(j as int)),
                decreases e.aliases@.len() - j,
            {
                hash_text(&mut hasher, e.aliases[j].as_str());
                proof {
                    let t = e.aliases@.take(j + 1);
                    assert(t.drop_last() =~= e.aliases@.take(j as int));
                    assert(t.last() == e.aliases@[j as int]);
                }
                assert(hasher@ =~= h0 + text_parts(e.id@) + text_parts(e.label@) + text_parts(
                    e.kind@,
                ) + alias_parts(e.aliases@.take(j + 1)));
                j = j + 1;
            }
            proof {
                assert(e.aliases@.take(e.aliases@.len() as int) =~= e.aliases@);
                let t = entities@.take(k + 1);
                assert(t.drop_last() =~= entities@.take(k as int));
                assert(t.last() == entities@[k as int]);
            }
            k = k + 1;
        }
        assert(entities@.take(entities@.len() as int) =~= entities@);
        let current_hash = hasher.finish();
        // No change: skip hydration
        if current_hash == self.state.entity_set_hash && entities.len() == self.state.entity_count {
            return None;
        }
        self.state = HydrationState { entity_set_hash: current_hash, entity_count: entities.len() };
        Some(entities)
    }

    /// Tally the registration outcomes of a scan's mentions (`true` when
    /// the entity was created, `false` when it existed); when any entity was
    /// created the next change check re-hydrates.
    pub fn record_mentions(&mut self, created: &[bool]) -> (r: IngestResult)
        ensures
            r.entities_created == count_true(created@),
            r.entities_updated == created@.len() - count_true(created@),
            r.edges_created == 0,
            r.edges_updated == 0,
            final(self).state().count() == old(self).state().count(),
            final(self).state().hash() == if count_true(created@) > 0 {
                0
            } else {
                old(self).state().hash()
            },
    {
        let mut result = IngestResult::default();
        let mut k: usize = 0;
        while k < created.len()
            invariant
                k <= created@.len(),
                result.entities_created == count_true(created@.take(k as int)),
                result.entities_updated == k - count_true(created@.take(k as int)),
                result.edges_created == 0,
                result.edges_updated == 0,
                count_true(created@.take(k as int)) <= k,
            decreases created@.len() - k,
        {
            proof {
                let t = created@.take(k + 1);
                assert(t.drop_last() =~= created@.take(k as int));
                assert(t.last() == created@[k as int]);
            }
            if created[k] {
                result.entities_created = result.entities_created + 1;
            } else {
                result.entities_updated = result.entities_updated + 1;
            }
            k = k + 1;
        }
        assert(created@.take(created@.len() as int) =~= created@);
        // Invalidate the cached hash since entities may have been added
        if result.entities_created > 0 {
            self.state.entity_set_hash = 0;
        }
        result
    }

    /// Ingest the relations of a scan: each relation whose two ends were
    /// found gets an edge unless one of its type already leads from its head
    /// to its tail; returns the edges to create, in order, and the counts
    /// (edges created, relations whose edge already existed).
    pub fn ingest_relations(&self, relations: &Vec<ResolvedRelation>) -> (r: (Vec<PlannedEdge>, IngestResult))
        ensures
            r.0@.len() == relation_plan(relations@, relations@.len() as int).0.len(),
            forall|k: int|
                0 <= k < r.0@.len() ==> planned_model(#[trigger] r.0@[k]) == relation_plan(
                    relations@,
                    relations@.len() as int,
                ).0[k],
            r.1.edges_created == relation_plan(relations@, relations@.len() as int).1,
            r.1.edges_updated == relation_plan(relations@, relations@.len() as int).2,
            r.1.entities_created == 0,
            r.1.entities_updated == 0,
    {
        let mut planned: Vec<PlannedEdge> = Vec::new();
        let mut result = IngestResult::default();
        let mut k: usize = 0;
        while k < relations.len()
            invariant
                k <= relations@.len(),
                ({
                    let (p, c, u) = relation_plan(relations@, k as int);
                    &&& planned@.len() == p.len()
                    &&& forall|q: int| 0 <= q < p.len() ==> planned_model(#[trigger] planned@[q]) == p[q]
                    &&& result.edges_created == c
                    &&& result.edges_updated == u
                }),
                relation_plan(relations@, k as int).0.len() <= k,
                result.edges_created + result.edges_updated <= k,
                result.entities_created == 0,
                result.entities_updated == 0,
            decreases relations@.len() - k,
        {
            let rel = &relations[k];
            let ghost prev = relation_plan(relations@, k as int);
            let ghost pm = Seq::new(planned@.len(), |q: int| planned_model(planned@[q]));
            proof {
                assert(pm =~= prev.0);
            }
            match (&rel.head_id, &rel.tail_id) {
                (Some(head), Some(tail)) => {
                    // Known among the head's edges before the scan?
                    let mut known = false;
                    let mut i: usize = 0;
                    while i < rel.existing.len() && !known
                        invariant
                            i <= rel.existing@.len(),
                            known ==> exists|x: int|
                                0 <= x < rel.existing@.len() && (#[trigger] rel.existing@[x]).0@ == tail@
                                    && rel.existing@[x].1@ == rel.relation_type@,
                            !known ==> forall|x: int|
                                0 <= x < i ==> !((#[trigger] rel.existing@[x]).0@ == tail@ && rel.existing@[x].1@
                                    == rel.relation_type@),
                        decreases rel.existing@.len() - i,
                    {
                        let (t, ty) = &rel.existing[i];
                        if str_eq(t.as_str(), tail.as_str()) && str_eq(ty.as_str(), rel.relation_type.as_str()) {
                            known = true;
                        }
                        i = i + 1;
                    }
                    // ... or planned earlier in this scan?
                    let mut q: usize = 0;
                    while q < planned.len() && !known
                        invariant
                            q <= planned@.len(),
                            pm == prev.0,
                            pm.len() == planned@.len(),
                            forall|x: int| 0 <= x < planned@.len() ==> planned_model(#[trigger] planned@[x]) == pm[x],
                            known ==> edge_known(*rel, head@, tail@, pm),
                            !known ==> forall|x: int|
                                0 <= x < q ==> !((#[trigger] pm[x]).source_id == head@ && pm[x].target_id == tail@
                                    && pm[x].edge_type == rel.relation_type@),
                            !known ==> forall|x: int|
                                0 <= x < rel.existing@.len() ==> !((#[trigger] rel.existing@[x]).0@ == tail@
                                    && rel.existing@[x].1@ == rel.relation_type@),
                        decreases planned@.len() - q,
                    {
                        let e = &planned[q];
                        assert(planned_model(planned@[q as int]) == pm[q as int]);
                        if str_eq(e.source_id.as_str(), head.as_str()) && str_eq(e.target_id.as_str(), tail.as_str())
                            && str_eq(e.edge_type.as_str(), rel.relation_type.as_str()) {
                            known = true;
                        }
                        q = q + 1;
                    }
                    proof {
                        assert(relations@[k as int] == *rel);
                        assert(known == edge_known(*rel, head@, tail@, prev.0));
                    }
                    if known {
                        result.edges_updated = result.edges_updated + 1;
                    } else {
                        let created_by = match rel.source {
                            RelationSource::Explicit => CreatedBy::User,
                            _ => CreatedBy::Extraction,
                        };
                        let ghost before = planned@;
                        planned.push(
                            PlannedEdge {
                                relation: k,
                                source_id: head.clone(),
                                target_id: tail.clone(),
                                edge_type: rel.relation_type.clone(),
                                created_by,
                            },
                        );
                        result.edges_created = result.edges_created + 1;
                        proof {
                            let p2 = relation_plan(relations@, k + 1).0;
                            assert forall|x: int| 0 <= x < p2.len() implies planned_model(#[trigger] planned@[x])
                                == p2[x] by {
                                if x < prev.0.len() {
                                    assert(planned@[x] == before[x]);
                                    assert(planned_model(before[x]) == pm[x]);
                                }
                            }
                        }
                    }
                },
                _ => {
                    proof {
                        assert(relations@[k as int] == *rel);
                    }
                },
            }
            k = k + 1;
        }
        (planned, result)
    }

    /// Ingest a whole scan: first the mentions' registration outcomes (see
    /// `record_mentions`), then the relations (see `ingest_relations`),
    /// looked up after the mentions were registered.
    pub fn ingest_scan_result(&mut self, created: &[bool], relations: &Vec<ResolvedRelation>) -> (r: (
        Vec<PlannedEdge>,
        IngestResult,
    ))
        ensures
            r.0@.len() == relation_plan(relations@, relations@.len() as int).0.len(),
            forall|k: int|
                0 <= k < r.0@.len() ==> planned_model(#[trigger] r.0@[k]) == relation_plan(
                    relations@,
                    relations@.len() as int,
                ).0[k],
            r.1.entities_created == count_true(created@),
            r.1.entities_updated == created@.len() - count_true(created@),
            r.1.edges_created == relation_plan(relations@, relations@.len() as int).1,
            r.1.edges_updated == relation_plan(relations@, relations@.len() as int).2,
            final(self).state().count() == old(self).state().count(),
            final(self).state().hash() == if count_true(created@) > 0 {
                0
            } else {
                old(self).state().hash()
            },
    {
        let mut result = self.record_mentions(created);
        let (planned, rel_result) = self.ingest_relations(relations);
        result.edges_created = result.edges_created + rel_result.edges_created;
        result.edges_updated = result.edges_updated + rel_result.edges_updated;
        (planned, result)
    }

    /// Check if hydration was already done and is still valid
    pub fn is_hydrated(&self) -> (b: bool)
        ensures
            b == (self.state().count() > 0),
    {
        self.state.entity_count > 0
    }

    /// Reset state (force next hydration)
    pub fn invalidate(&mut self)
        ensures
            final(self).state().hash() == 0,
            final(self).state().count() == 0,
    {
        self.state = HydrationState::default();
    }
}

/// Number of `true` values.
pub open spec fn count_true(v: Seq<bool>) -> int
    decreases v.len(),
{
    if v.len() == 0 {
        0
    } else {
        count_true(v.drop_last()) + if v.last() {
            1int
        } else {
            0
        }
    }
}

// =============================================================================
// Graph records and requests
// =============================================================================

/// Node data for upsert operations
#[derive(Debug, Clone)]
pub struct NodeData {
    pub id: String,
    pub label: String,
    pub normalized: String,
    pub kind: String,
    pub subtype: Option<String>,
    pub source_note: String,
    pub metadata: Option<String>,
}

impl NodeData {
    /// A node with the required fields; its normalized label is the label
    /// trimmed and lowercased
    pub fn new(id: &str, label: &str, kind: &str) -> (d: Self)
        ensures
            d.id@ == id@,
            d.label@ == label@,
            d.normalized@ == unicode_lower_text(trimmed(label@)),
            d.kind@ == kind@,
            d.subtype is None,
            d.source_note@.len() == 0,
            d.metadata is None,
    {
        let trimmed_label = trim_text(label);
        let normalized = str_to_lowercase(trimmed_label.as_str());
        NodeData {
            id: id.to_owned(),
            label: label.to_owned(),
            normalized,
            kind: kind.to_owned(),
            subtype: None,
            source_note: String::new(),
            metadata: None,
        }
    }
}

/// A community found by the graph backend
#[derive(Debug, Clone)]
pub struct DetectedCommunity {
    pub id: usize,
    pub members: Vec<String>,
    pub member_count: usize,
}

/// Neighbor query options
#[derive(Debug, Clone, Default)]
pub struct NeighborOptions {
    /// Maximum depth to traverse (0 is taken as 1)
    pub depth: usize,
    /// Filter by edge types (empty = all types)
    pub edge_types: Vec<String>,
    /// Include the starting node in results
    pub include_self: bool,
}

/// A node as the graph backend reports it
#[derive(Debug, Clone)]
pub struct GraphNode {
    pub id: String,
    pub label: String,
    pub kind: String,
}

/// A community as the graph backend reports it
#[derive(Debug, Clone)]
pub struct GraphCommunity {
    pub id: usize,
    pub members: Vec<String>,
}

/// Request to register a node
#[derive(Debug, Clone)]
pub struct RegisterNodeRequest {
    pub label: String,
    pub kind: String,
    pub source_note: String,
    pub subtype: Option<String>,
    pub aliases: Vec<String>,
    /// Defaults to "user"
    pub created_by: String,
}

/// A registered node
#[derive(Debug, Clone)]
pub struct NodeResponse {
    pub id: String,
    pub label: String,
    pub kind: String,
    pub mention_count: i64,
    pub aliases: Vec<String>,
    pub is_new: bool,
}

/// An entity mention to ingest
#[derive(Debug, Clone)]
pub struct MentionInput {
    pub entity_label: String,
    pub entity_kind: String,
}

/// Counts of an ingest
#[derive(Debug, Clone, Copy)]
pub struct IngestResponse {
    pub entities_created: usize,
    pub entities_updated: usize,
    pub edges_created: usize,
    pub edges_updated: usize,
}

/// Entity definition for scanner hydration
#[derive(Debug, Clone)]
pub struct EntityDef {
    pub id: String,
    pub label: String,
    pub kind: String,
    pub aliases: Vec<String>,
}

/// Whether the scanner needs hydrating, and with what
#[derive(Debug, Clone)]
pub struct HydrateResponse {
    pub entity_count: usize,
    pub needs_hydration: bool,
    pub entities: Option<Vec<EntityDef>>,
}

} // verus!
