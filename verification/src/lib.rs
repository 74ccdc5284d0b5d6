//! Text analysis core of a narrative writing assistant: incremental chunk
//! diffing, tokenization, rule/gazetteer/orthographic entity recognition,
//! and retrieval chunking, each stated over mathematical models.

pub mod text;
pub mod incremental;
pub mod tokenizer;
pub mod orthographic;
pub mod rules;
pub mod ranking;
pub mod mention;
pub mod matcher;
pub mod implicit;
pub mod gazetteer;
pub mod pipeline;
pub mod fst;
pub mod rag;
pub mod graph;
pub mod communities;
pub mod content;
pub mod traversal;
pub mod folders;
