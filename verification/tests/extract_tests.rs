use mcp_deep_research::dom::DomEvent;
use mcp_deep_research::extract::{markdown_of_selection, title_of_selection, 
    collect_batch, extract_title, extracted_page, failed_extraction, html_to_markdown,
    http_status_error, page_source,
};
use mcp_deep_research::SourceResult;

#[test]
fn test_html_to_markdown_simple() {
    let html = "<h1>Hello</h1><p>World</p>";
    let md = html_to_markdown(html);
    assert!(md.contains("Hello"));
    assert!(md.contains("World"));
}

#[test]
fn test_extract_title() {
    let html = "<html><head><title>Test Page</title></head><body></body></html>";
    let title = extract_title(html);
    assert_eq!(title, "Test Page");
}

#[test]
fn markdown_of_each_element_kind() {
    let html = "<h1>Hello</h1><p>World</p>";
    assert_eq!(html_to_markdown(html), "\n\n# Hello\n\nWorld\n");
    let html = "<body><h3>  Three  </h3><ul><li> item </li></ul><p>   </p></body>";
    assert_eq!(html_to_markdown(html), "\n\n### Three\n\nitem\n");
    let html = r#"<p>see <a href="https://x.org">x</a></p><a href="">empty</a><a href="/y"></a>"#;
    assert_eq!(html_to_markdown(html), "\nsee x\n[x](https://x.org)");
    let html = r#"<img alt="cat" src="cat.png"><img>"#;
    assert_eq!(html_to_markdown(html), "![cat](cat.png)![]()");
    let html = "<pre>let x = 1;</pre>";
    assert_eq!(html_to_markdown(html), "\n```\nlet x = 1;\n```\n");
    let html = "<pre><code>a</code></pre>";
    assert_eq!(html_to_markdown(html), "\n```\na\n```\n\n```\na\n```\n");
}

#[test]
fn markdown_skips_template_contents_and_heads() {
    let html = "<html><head><title>T</title></head><body><template><p>hidden</p></template><p>shown</p></body></html>";
    assert_eq!(html_to_markdown(html), "\nshown\n");
    assert_eq!(html_to_markdown(""), "");
}

#[test]
fn title_is_trimmed_or_empty() {
    assert_eq!(extract_title("<title>  Spaced\n</title>"), "Spaced");
    assert_eq!(extract_title("<p>no title</p>"), "");
}

#[test]
fn page_source_fills_the_record() {
    let s = page_source("https://e.x/", "<title>T</title><p>Body</p>", "T01:02:03Z".to_string());
    assert_eq!(s.url, "https://e.x/");
    assert_eq!(s.title, "T");
    assert_eq!(s.relevance_percent, 0);
    assert_eq!(s.content, "\nBody\n");
    assert_eq!(s.extracted_at, "T01:02:03Z");
    let now = extracted_page("u", "<p>x</p>");
    assert_eq!(now.extracted_at.len(), 10);
}

#[test]
fn failure_record() {
    let s = failed_extraction("https://bad/", "HTTP 404 Not Found for https://bad/");
    assert_eq!(s.url, "https://bad/");
    assert_eq!(s.title, "");
    assert_eq!(s.relevance_percent, 0);
    assert_eq!(s.content, "Error extracting: HTTP 404 Not Found for https://bad/");
    assert_eq!(s.extracted_at, "");
}

#[test]
fn status_errors() {
    assert_eq!(http_status_error(200, "200 OK", "u"), None);
    assert_eq!(http_status_error(299, "299 <unknown status code>", "u"), None);
    assert_eq!(
        http_status_error(404, "404 Not Found", "https://x/"),
        Some("HTTP 404 Not Found for https://x/".to_string())
    );
    assert!(http_status_error(301, "301 Moved Permanently", "u").is_some());
}

#[test]
fn batch_keeps_order_and_records_failures() {
    let urls = vec!["a".to_string(), "b".to_string()];
    let ok = SourceResult {
        url: "a".into(),
        title: "A".into(),
        relevance_percent: 0,
        content: "x".into(),
        extracted_at: "T00:00:00Z".into(),
    };
    let out = collect_batch(&urls, vec![Ok(ok), Err("boom".to_string())]);
    assert_eq!(out.len(), 2);
    assert_eq!(out[0].title, "A");
    assert_eq!(out[1].url, "b");
    assert_eq!(out[1].content, "Error extracting: boom");
}

#[test]
fn selection_functions_read_given_walks() {
    let title = vec![vec![
        DomEvent::element("title", Vec::new(), None, None, None),
        DomEvent::text("  My page "),
        DomEvent::Close,
        DomEvent::Close,
    ]];
    assert_eq!(title_of_selection(&Some(title)), "My page");
    assert_eq!(title_of_selection(&None), "");
    assert_eq!(title_of_selection(&Some(Vec::new())), "");
    let body = vec![vec![
        DomEvent::element("body", Vec::new(), None, None, None),
        DomEvent::element("h2", Vec::new(), None, None, None),
        DomEvent::text("Head"),
        DomEvent::Close,
        DomEvent::Close,
        DomEvent::Other,
        DomEvent::element("p", Vec::new(), None, None, None),
        DomEvent::text("hidden"),
        DomEvent::Close,
        DomEvent::Close,
        DomEvent::Close,
        DomEvent::Close,
    ]];
    assert_eq!(markdown_of_selection(&Some(body)), "\n\n## Head\n");
    assert_eq!(markdown_of_selection(&None), "");
}
