//! Inputs for the world content store: notes, folders, networks, periods and
//! field bindings between entities.

use vstd::prelude::*;

verus! {

/// A new note
#[derive(Debug, Clone, Default)]
pub struct NoteInput {
    pub world_id: String,
    pub title: String,
    pub content: Option<String>,
    pub folder_id: Option<String>,
    pub entity_kind: Option<String>,
    pub entity_subtype: Option<String>,
    pub is_entity: Option<bool>,
}

/// Changes to a note (absent fields are kept)
#[derive(Debug, Clone, Default)]
pub struct NoteUpdate {
    pub title: Option<String>,
    pub content: Option<String>,
    pub folder_id: Option<String>,
    pub entity_kind: Option<String>,
    pub entity_subtype: Option<String>,
    pub is_entity: Option<bool>,
    pub is_pinned: Option<bool>,
    pub favorite: Option<bool>,
}

/// A new folder
#[derive(Debug, Clone, Default)]
pub struct FolderInput {
    pub world_id: String,
    pub name: String,
    pub parent_id: Option<String>,
    pub entity_kind: Option<String>,
    pub entity_subtype: Option<String>,
    pub color: Option<String>,
    pub is_typed_root: Option<bool>,
}

/// Changes to a folder (absent fields are kept)
#[derive(Debug, Clone, Default)]
pub struct FolderUpdate {
    pub name: Option<String>,
    pub parent_id: Option<String>,
    pub entity_kind: Option<String>,
    pub entity_subtype: Option<String>,
    pub color: Option<String>,
    pub collapsed: Option<bool>,
}

/// A new network
#[derive(Debug, Clone, Default)]
pub struct NetworkInput {
    pub world_id: String,
    pub name: String,
    pub schema_id: String,
    pub root_folder_id: Option<String>,
    pub root_entity_id: Option<String>,
    pub namespace: Option<String>,
    pub description: Option<String>,
    pub tags: Option<Vec<String>>,
}

/// A new timeline period
#[derive(Debug, Clone, Default)]
pub struct PeriodInput {
    pub world_id: String,
    pub calendar_id: String,
    pub name: String,
    pub description: Option<String>,
    pub start_year: i32,
    pub start_month: Option<i32>,
    pub end_year: Option<i32>,
    pub end_month: Option<i32>,
    pub parent_period_id: Option<String>,
    pub period_type: Option<String>,
    pub color: String,
    pub icon: Option<String>,
    pub abbreviation: Option<String>,
    pub direction: Option<String>,
    pub triggered_by: Option<String>,
    pub ends_when: Option<String>,
    pub arc_type: Option<String>,
    pub dominant_theme: Option<String>,
    pub protagonist_id: Option<String>,
    pub antagonist_id: Option<String>,
    pub summary: Option<String>,
    pub detailed_notes: Option<String>,
    pub show_on_timeline: Option<bool>,
    pub timeline_color: Option<String>,
    pub timeline_icon: Option<String>,
}

/// How a bound field follows its source
#[derive(Debug, Clone, Copy, PartialEq, Eq, Structural)]
pub enum BindingType {
    Mirror,
    Inherit,
    Aggregate,
}

impl Default for BindingType {
    fn default() -> (b: Self)
        ensures
            b == BindingType::Inherit,
    {
        BindingType::Inherit
    }
}

/// How aggregated values are combined
#[derive(Debug, Clone, Copy, PartialEq, Eq, Structural)]
pub enum AggregationFunction {
    Sum,
    Avg,
    Min,
    Max,
    Count,
    Concat,
    First,
    Last,
}

} // verus!
