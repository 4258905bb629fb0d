# mcp_deep_research

The library behind an MCP server for deep research: it builds search queries, reads the
hits off a search results page, turns fetched pages into markdown, merges what it learned
and writes a research report. Its logic is written in Verus and proved against the
contracts it states.

Layout:

- `src/text.rs` — characters and strings: trimming as `str::trim` does, substring search,
  decimal notation.
- `src/dom.rs` — the walk of a parsed HTML subtree (`DomEvent`), as `scraper` hands it over,
  and what is read off it: the text of a node, elements by class.
- `src/search.rs` — query percent-encoding and decoding, redirect links, the hits of a
  results page, time-of-day stamps.
- `src/extract.rs` — page markdown and titles, and the records kept for fetched pages.
- `src/synthesize.rs` — the report.
- `src/research.rs` — the settings of a run, the urls to fetch, merging search metadata.
- `app/` — HTTP fetching with `reqwest`, the MCP server loop with `rmcp`, and the serde forms
  of the library's types.

Relevance scores are held as integers in percent (`relevance_percent`); the serde form in
`app/` carries them as the floating-point score.
