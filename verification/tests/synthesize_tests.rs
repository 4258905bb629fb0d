use mcp_deep_research::synthesize::total_content_bytes;
use mcp_deep_research::{SourceResult, Synthesizer};

#[test]
fn test_synthesize_empty_sources() {
    let synth = Synthesizer::new();
    let result = synth.synthesize("test", &[]);
    assert!(result.contains("No sources were found"));
}

#[test]
fn test_synthesize_with_source() {
    let synth = Synthesizer::new();
    let sources = vec![SourceResult {
        url: "https://example.com".into(),
        title: "Example".into(),
        relevance_percent: 90,
        content: "Content here".into(),
        extracted_at: "".into(),
    }];
    let result = synth.synthesize("test question", &sources);
    assert!(result.contains("test question"));
    assert!(result.contains("example.com"));
    assert!(result.contains("Example"));
}

#[test]
fn report_text_is_exact() {
    let synth = Synthesizer::default();
    assert_eq!(
        synth.synthesize("q?", &[]),
        "# Research Synthesis\n\n**Question:** q?\n\n**Sources consulted:** 0\n\n*No sources were found for this query.*\n"
    );
    let sources = vec![
        SourceResult {
            url: "https://a".into(),
            title: "".into(),
            relevance_percent: 95,
            content: "é".repeat(501),
            extracted_at: "".into(),
        },
        SourceResult {
            url: "https://b".into(),
            title: "B".into(),
            relevance_percent: -5,
            content: "bb".into(),
            extracted_at: "".into(),
        },
    ];
    let expected = format!(
        "# Research Synthesis\n\n**Question:** q\n\n**Sources consulted:** 2\n\n## Key Findings\n\n\
         ### 1. https://a\n\n**Source:** [https://a](https://a)\n\n**Relevance:** 95.0%\n\n{}\n\n---\n\n\
         ### 2. B\n\n**Source:** [https://b](https://b)\n\n**Relevance:** -5.0%\n\nbb\n\n---\n\n\
         ## Summary\n\nCollected 2 sources across the web. Total extracted content: 1004 characters.\n",
        "é".repeat(500)
    );
    assert_eq!(synth.synthesize("q", &sources), expected);
}

#[test]
fn relevance_is_written_as_the_float_would_be() {
    for rank in 0..30i128 {
        let percent = 100 - 5 * rank;
        let score = 1.0 - (rank as f64 * 0.05);
        let s = SourceResult {
            url: "u".into(),
            title: "t".into(),
            relevance_percent: percent,
            content: "".into(),
            extracted_at: "".into(),
        };
        let report = Synthesizer::new().synthesize("q", &[s]);
        let line = format!("**Relevance:** {:.1}%", score * 100.0);
        assert!(report.contains(&line), "rank {rank}: {line}");
    }
}

#[test]
fn total_content_bytes_counts_utf8_bytes() {
    let sources = vec![
        SourceResult {
            url: "u".into(),
            title: "t".into(),
            relevance_percent: 0,
            content: "héllo".into(),
            extracted_at: "".into(),
        },
        SourceResult {
            url: "v".into(),
            title: "".into(),
            relevance_percent: 0,
            content: "ab".into(),
            extracted_at: "".into(),
        },
    ];
    assert_eq!(total_content_bytes(&sources), Some(8));
    assert_eq!(total_content_bytes(&[]), Some(0));
    let report = Synthesizer::new().synthesize("which?", &sources);
    assert!(report.contains("which?"));
    assert!(report.contains("[u](u)") && report.contains("[v](v)"));
    assert!(report.ends_with("Total extracted content: 8 characters.\n"));
}

#[test]
fn report_ignores_time_stamps() {
    let make = |stamp: &str| SourceResult {
        url: "https://a".into(),
        title: "A".into(),
        relevance_percent: 95,
        content: "body".into(),
        extracted_at: stamp.into(),
    };
    let s = Synthesizer::new();
    assert_eq!(s.synthesize("q", &[make("T01:00:00Z")]), s.synthesize("q", &[make("")]));
}
