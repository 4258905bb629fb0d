//! Deep research: searching the web, turning pages into markdown and writing a report.

use vstd::prelude::*;

pub mod dom;
pub mod extract;
pub mod research;
pub mod search;
pub mod synthesize;
pub mod text;

pub use synthesize::Synthesizer;

verus! {

/// A research request.
#[derive(Clone, Debug)]
pub struct ResearchQuery {
    pub question: String,
    pub max_sources: Option<usize>,
    pub depth: Option<SearchDepth>,
    pub include_synthesis: Option<bool>,
}

/// How far a search reaches.
#[derive(Clone, Copy, Debug, PartialEq, Eq, Structural)]
pub enum SearchDepth {
    Quick,
    Deep,
}

/// The answer to a research request.
#[derive(Clone, Debug)]
pub struct ResearchResult {
    pub question: String,
    pub sources: Vec<SourceResult>,
    pub synthesis: Option<String>,
    pub processing_time_ms: u64,
}

/// One source: a page, its title, its relevance and its content.
///
/// Relevance is held in percent: `relevance_percent` is the relevance score times 100
/// (a score of 0.95 is 95), so the scores the library computes, which step by 0.05, are
/// held exactly.
#[derive(Clone, Debug)]
pub struct SourceResult {
    pub url: String,
    pub title: String,
    pub relevance_percent: i128,
    pub content: String,
    pub extracted_at: String,
}

} // verus!
