use mcp_deep_research::dom::DomEvent;
use mcp_deep_research::search::{hits_of_blocks, 
    chrono_now, clean_url, parse_search_results, search_url, time_stamp, url_decode, urlencoding,
};

#[test]
fn test_url_encoding() {
    assert_eq!(urlencoding("hello world"), "hello%20world");
    assert_eq!(urlencoding("a&b=c"), "a%26b%3Dc");
}

#[test]
fn test_url_decoding() {
    assert_eq!(url_decode("hello%20world"), "hello world");
    assert_eq!(url_decode("a%26b%3Dc"), "a&b=c");
}

#[test]
fn test_parse_search_results_empty() {
    let results = parse_search_results("", 5);
    assert!(results.is_empty());
}

#[test]
fn urlencoding_keeps_unreserved_and_encodes_utf8_bytes() {
    assert_eq!(urlencoding("AZaz09-_.~"), "AZaz09-_.~");
    assert_eq!(urlencoding("é"), "%C3%A9");
    assert_eq!(urlencoding("\n/"), "%0A%2F");
    assert_eq!(urlencoding(""), "");
}

#[test]
fn url_decode_edge_cases() {
    // A byte stands for the character with the same code.
    assert_eq!(url_decode("%C3%A9"), "\u{c3}\u{a9}");
    // Invalid escapes are dropped with the characters they took.
    assert_eq!(url_decode("a%zzb"), "ab");
    assert_eq!(url_decode("a%"), "a");
    assert_eq!(url_decode("a%4"), "a\u{4}");
    // `from_str_radix` takes a leading plus sign.
    assert_eq!(url_decode("%+A!"), "\n!");
    assert_eq!(url_decode("%-A!"), "!");
    assert_eq!(url_decode("%e9"), "\u{e9}");
}

#[test]
fn url_decode_agrees_with_from_str_radix() {
    let candidates = ['0', '9', 'a', 'f', 'g', 'A', 'F', 'G', '+', '-', ' ', 'é'];
    for &x in &candidates {
        for &y in &candidates {
            let hex: String = [x, y].iter().collect();
            let expected: String = match u8::from_str_radix(&hex, 16) {
                Ok(b) => (b as char).to_string(),
                Err(_) => String::new(),
            };
            assert_eq!(url_decode(&format!("%{hex}")), expected, "hex {hex:?}");
        }
    }
}

#[test]
fn url_roundtrip_for_ascii() {
    for s in ["hello world", "a&b=c", "100% sure?", "~/path/to file#frag"] {
        assert_eq!(url_decode(&urlencoding(s)), s);
    }
    // Outside ASCII, the UTF-8 bytes come back one character each.
    assert_eq!(url_decode(&urlencoding("é")), "\u{c3}\u{a9}");
}

#[test]
fn clean_url_unwraps_redirects() {
    assert_eq!(
        clean_url("//duckduckgo.com/l/?uddg=https%3A%2F%2Fexample.com%2Fa&rut=abc"),
        "https://example.com/a"
    );
    assert_eq!(clean_url("/l/?uddg=https%3A%2F%2Fexample.org"), "https://example.org");
    assert_eq!(clean_url("https://plain.example/"), "https://plain.example/");
    assert_eq!(clean_url(""), "");
}

#[test]
fn search_url_encodes_the_query() {
    assert_eq!(search_url("rust verus"), "https://html.duckduckgo.com/html/?q=rust%20verus");
}

#[test]
fn time_stamp_formats_time_of_day() {
    assert_eq!(time_stamp(0), "T00:00:00Z");
    assert_eq!(time_stamp(86399), "T23:59:59Z");
    assert_eq!(time_stamp(86400 + 3600 * 5 + 60 * 7 + 9), "T05:07:09Z");
    assert_eq!(time_stamp(1767225600 + 45296), "T12:34:56Z");
}

#[test]
fn chrono_now_has_the_stamp_shape() {
    let now = chrono_now();
    let b = now.as_bytes();
    assert_eq!(b.len(), 10);
    assert_eq!(b[0], b'T');
    assert_eq!(b[3], b':');
    assert_eq!(b[6], b':');
    assert_eq!(b[9], b'Z');
}

const RESULTS_PAGE: &str = r#"
<div class="results">
  <div class="result results_links result__body">
    <a class="result__a" href="//duckduckgo.com/l/?uddg=https%3A%2F%2Fwww.rust-lang.org%2F&amp;rut=1">  Rust Programming Language </a>
    <a class="result__snippet" href="x"> A language empowering everyone. </a>
  </div>
  <div class="result__body">
    <a class="result__a">No link here</a>
  </div>
  <div class="result__body">
    <a class="result__a" href="https://doc.rust-lang.org/book/">The <b>Book</b></a>
  </div>
  <div class="result__body">
    <a class="result__a" href="https://example.com/third">Third</a>
    <div class="result__snippet">Snippet three</div>
  </div>
</div>
"#;

#[test]
fn parse_search_results_reads_blocks() {
    let results = parse_search_results(RESULTS_PAGE, 10);
    assert_eq!(results.len(), 3);
    assert_eq!(results[0].url, "https://www.rust-lang.org/");
    assert_eq!(results[0].title, "Rust Programming Language");
    assert_eq!(results[0].content, "A language empowering everyone.");
    assert_eq!(results[0].relevance_percent, 100);
    assert_eq!(results[1].url, "https://doc.rust-lang.org/book/");
    assert_eq!(results[1].title, "The Book");
    assert_eq!(results[1].content, "");
    assert_eq!(results[1].relevance_percent, 95);
    assert_eq!(results[2].url, "https://example.com/third");
    assert_eq!(results[2].content, "Snippet three");
    assert_eq!(results[2].relevance_percent, 90);
    for r in &results {
        assert_eq!(r.extracted_at.len(), 10);
    }
}

#[test]
fn parse_search_results_respects_limit() {
    let results = parse_search_results(RESULTS_PAGE, 2);
    assert_eq!(results.len(), 2);
    assert_eq!(results[1].url, "https://doc.rust-lang.org/book/");
    assert!(parse_search_results(RESULTS_PAGE, 0).is_empty());
}

#[test]
fn urlencoding_output_is_query_safe() {
    for s in ["hello world", "a&b=c?d#e", "é ü 日本", "\u{0}\u{7f}%+"] {
        let encoded = urlencoding(s);
        assert!(encoded
            .chars()
            .all(|c| c == '%' || c.is_ascii_alphanumeric() || "-_.~".contains(c)));
    }
}

fn open(name: &str, classes: &[&str], href: Option<&str>) -> DomEvent {
    DomEvent::element(name, classes.iter().map(|c| c.to_string()).collect(), href, None, None)
}

#[test]
fn hits_of_blocks_reads_given_walks() {
    let block = |href: Option<&str>, title: &str, snippet: &str| {
        vec![
            open("div", &["result__body"], None),
            open("a", &["result__a"], href),
            DomEvent::text(title),
            DomEvent::Close,
            DomEvent::Close,
            open("span", &["result__snippet"], None),
            DomEvent::text(snippet),
            DomEvent::Close,
            DomEvent::Close,
            DomEvent::Close,
        ]
    };
    let blocks = vec![
        block(Some("/l/?uddg=https%3A%2F%2Fa.example"), " First ", " one "),
        block(None, "No link", "none"),
        block(Some("https://c.example"), "Third", "three"),
    ];
    let hits = hits_of_blocks(&blocks, 5);
    assert_eq!(hits.len(), 2);
    assert_eq!((hits[0].url.as_str(), hits[0].title.as_str(), hits[0].content.as_str()), ("https://a.example", "First", "one"));
    assert_eq!((hits[1].url.as_str(), hits[1].relevance_percent), ("https://c.example", 95));
    assert_eq!(hits_of_blocks(&blocks, 1).len(), 1);
    assert!(hits_of_blocks(&Vec::new(), 5).is_empty());
}
