use mcp_deep_research::research::{merge_search_metadata, research_result, top_urls};
use mcp_deep_research::{ResearchQuery, SearchDepth, SourceResult, Synthesizer};

fn source(url: &str, title: &str, relevance: i128) -> SourceResult {
    SourceResult {
        url: url.into(),
        title: title.into(),
        relevance_percent: relevance,
        content: format!("content of {url}"),
        extracted_at: "T00:00:00Z".into(),
    }
}

#[test]
fn test_search_depth_default() {
    let depth = SearchDepth::Quick;
    match depth {
        SearchDepth::Quick => {}
        SearchDepth::Deep => panic!("wrong variant"),
    }
}

#[test]
fn plan_fills_defaults() {
    let q = ResearchQuery {
        question: "q".into(),
        max_sources: None,
        depth: None,
        include_synthesis: None,
    };
    let plan = q.plan().unwrap();
    assert_eq!(plan.max_sources, 5);
    assert_eq!(plan.search_limit, 10);
    assert_eq!(plan.depth, SearchDepth::Quick);
    assert!(plan.include_synthesis);
    let q = ResearchQuery {
        question: "q".into(),
        max_sources: Some(3),
        depth: Some(SearchDepth::Deep),
        include_synthesis: Some(false),
    };
    let plan = q.plan().unwrap();
    assert_eq!((plan.max_sources, plan.search_limit), (3, 6));
    assert_eq!(plan.depth, SearchDepth::Deep);
    assert!(!plan.include_synthesis);
    let q = ResearchQuery {
        question: "q".into(),
        max_sources: Some(usize::MAX),
        depth: None,
        include_synthesis: None,
    };
    assert!(q.plan().is_none());
}

#[test]
fn top_urls_takes_a_prefix() {
    let hits = vec![source("a", "A", 100), source("b", "B", 95), source("c", "C", 90)];
    assert_eq!(top_urls(&hits, 2), vec!["a".to_string(), "b".to_string()]);
    assert_eq!(top_urls(&hits, 10).len(), 3);
    assert!(top_urls(&hits, 0).is_empty());
}

#[test]
fn merge_copies_title_and_relevance_of_first_hit() {
    let hits = vec![source("a", "A1", 100), source("b", "B", 95), source("a", "A2", 90)];
    let extracted = vec![source("a", "", 0), source("z", "Zed", 0), source("b", "old", 0)];
    let merged = merge_search_metadata(extracted, &hits);
    assert_eq!(merged.len(), 3);
    assert_eq!((merged[0].title.as_str(), merged[0].relevance_percent), ("A1", 100));
    assert_eq!((merged[1].title.as_str(), merged[1].relevance_percent), ("Zed", 0));
    assert_eq!((merged[2].title.as_str(), merged[2].relevance_percent), ("B", 95));
    assert_eq!(merged[0].content, "content of a");
    let again = merge_search_metadata(merged, &hits);
    assert_eq!(again[0].title, "A1");
    assert_eq!(again[2].relevance_percent, 95);
}

#[test]
fn research_result_holds_the_report_when_asked() {
    let sources = vec![source("a", "A", 100)];
    let r = research_result(&Synthesizer::new(), "q".into(), sources.clone(), true, 42);
    assert_eq!(r.question, "q");
    assert_eq!(r.sources.len(), 1);
    assert_eq!(r.processing_time_ms, 42);
    assert_eq!(r.synthesis, Some(Synthesizer::new().synthesize("q", &sources)));
    let r = research_result(&Synthesizer::new(), "q".into(), sources, false, 7);
    assert_eq!(r.synthesis, None);
}
