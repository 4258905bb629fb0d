use vstd::prelude::*;

use crate::dom::{close_index, close_index_from, texts_between, document_selection, select_in_document, selection_view, subtree_text, text_of, DomEvent, ElementData};
pub use crate::search::chrono_now;
use crate::search::time_of_day_stamp;
use crate::SourceResult;
use crate::text::{chars_eq, chars_of, push_chars, trim, trim_bounds, trimmed};

verus! {

/// The level of a heading tag `h1` to `h6`, or 0 for any other tag.
pub open spec fn heading_level(tag: Seq<char>) -> nat {
    if tag.len() == 2 && tag[0] == 'h' && '1' <= tag[1] && tag[1] <= '6' {
        (tag[1] as nat - 48) as nat
    } else {
        0
    }
}

/// `n` hash signs.
pub open spec fn hashes(n: nat) -> Seq<char> {
    Seq::new(n, |_i: int| '#')
}

/// The characters of an optional attribute value, or nothing when it is absent.
pub open spec fn attr_text(v: Option<String>) -> Seq<char> {
    match v {
        Some(s) => s@,
        None => Seq::empty(),
    }
}

/// The code fence line break pattern: a new line, three backticks, a new line.
pub open spec fn fence() -> Seq<char> {
    seq!['\n', '`', '`', '`', '\n']
}

/// The markdown that `extract_text` writes for one element, given the text of its subtree:
/// headings become `#` lines, paragraphs and list items their own lines, links `[text](href)`,
/// images `![alt](src)` and `pre` or `code` blocks fenced code. Other elements write nothing.
pub open spec fn rendered(d: ElementData, text: Seq<char>) -> Seq<char> {
    let tag = d.name@;
    let t = trimmed(text);
    if heading_level(tag) > 0 {
        if t.len() > 0 {
            seq!['\n', '\n'] + hashes(heading_level(tag)) + seq![' '] + t + seq!['\n']
        } else {
            Seq::empty()
        }
    } else if tag == seq!['p'] || tag == seq!['l', 'i'] {
        if t.len() > 0 {
            seq!['\n'] + t + seq!['\n']
        } else {
            Seq::empty()
        }
    } else if tag == seq!['a'] {
        let href = attr_text(d.href);
        if text.len() > 0 && href.len() > 0 {
            seq!['['] + text + seq![']', '('] + href + seq![')']
        } else {
            Seq::empty()
        }
    } else if tag == seq!['i', 'm', 'g'] {
        seq!['!', '['] + attr_text(d.alt) + seq![']', '('] + attr_text(d.src) + seq![')']
    } else if tag == seq!['p', 'r', 'e'] || tag == seq!['c', 'o', 'd', 'e'] {
        fence() + text + fence()
    } else {
        Seq::empty()
    }
}

/// The markdown of a walk from index `k`, where `hidden` counts the open nodes, entered at or
/// after the start, that are not elements: `extract_text` descends through element children
/// only, so nothing under a text, comment or template-content node is written.
pub open spec fn markdown_from(ev: Seq<DomEvent>, k: int, hidden: nat) -> Seq<char>
    decreases ev.len() - k,
{
    if k < 0 || k >= ev.len() {
        Seq::empty()
    } else {
        match ev[k] {
            DomEvent::Open(d) => if hidden == 0 {
                rendered(d, subtree_text(ev, k)) + markdown_from(ev, k + 1, 0)
            } else {
                markdown_from(ev, k + 1, hidden + 1)
            },
            DomEvent::Close => markdown_from(ev, k + 1, if hidden > 0 { (hidden - 1) as nat } else { 0 }),
            _ => markdown_from(ev, k + 1, hidden + 1),
        }
    }
}

/// The markdown `extract_text` writes for the element whose walk is `ev`: each element reached
/// from it through element children, in document order, rendered as `rendered` says.
pub open spec fn walk_markdown(ev: Seq<DomEvent>) -> Seq<char> {
    markdown_from(ev, 0, 0)
}

fn push_attr(out: &mut String, v: &Option<String>)
    ensures
        final(out)@ == old(out)@ + attr_text(*v),
{
    match v {
        Some(s) => out.push_str(s.as_str()),
        None => {},
    }
}

fn push_fence(out: &mut String)
    ensures
        final(out)@ == old(out)@ + fence(),
{
    out.push('\n');
    out.push('`');
    out.push('`');
    out.push('`');
    out.push('\n');
}

/// Writes the markdown of one element, given the text of its subtree; see `rendered`.
pub fn render_element(out: &mut String, d: &ElementData, text: &String)
    ensures
        final(out)@ == old(out)@ + rendered(*d, text@),
{
    let tag = chars_of(d.name.as_str());
    let text_chars = chars_of(text.as_str());
    let (start, end) = trim_bounds(&text_chars);
    let ghost t = trimmed(text@);
    assert(t == text_chars@.subrange(start as int, end as int));
    assert(t.len() == end - start);
    let p_tag = vec!['p'];
    let li_tag = vec!['l', 'i'];
    let a_tag = vec!['a'];
    let img_tag = vec!['i', 'm', 'g'];
    let pre_tag = vec!['p', 'r', 'e'];
    let code_tag = vec!['c', 'o', 'd', 'e'];
    assert(p_tag@ == seq!['p']);
    assert(li_tag@ == seq!['l', 'i']);
    assert(a_tag@ == seq!['a']);
    assert(img_tag@ == seq!['i', 'm', 'g']);
    assert(pre_tag@ == seq!['p', 'r', 'e']);
    assert(code_tag@ == seq!['c', 'o', 'd', 'e']);
    if tag.len() == 2 && tag[0] == 'h' && '1' <= tag[1] && tag[1] <= '6' {
        if end > start {
            let level = (tag[1] as u32 - 48) as usize;
            out.push('\n');
            out.push('\n');
            let mut i: usize = 0;
            while i < level
                invariant
                    i <= level,
                    out@ == old(out)@ + seq!['\n', '\n'] + hashes(i as nat),
                decreases level - i,
            {
                out.push('#');
                assert(hashes((i + 1) as nat) == hashes(i as nat).push('#'));
                i = i + 1;
            }
            out.push(' ');
            push_chars(out, &text_chars, start, end);
            out.push('\n');
            assert(level == heading_level(tag@));
        }
        return;
    }
    if chars_eq(&tag, &p_tag) || chars_eq(&tag, &li_tag) {
        if end > start {
            out.push('\n');
            push_chars(out, &text_chars, start, end);
            out.push('\n');
        }
    } else if chars_eq(&tag, &a_tag) {
        let href_len = match &d.href {
            Some(h) => chars_of(h.as_str()).len(),
            None => 0,
        };
        if text_chars.len() > 0 && href_len > 0 {
            out.push('[');
            out.push_str(text.as_str());
            out.push(']');
            out.push('(');
            push_attr(out, &d.href);
            out.push(')');
        }
    } else if chars_eq(&tag, &img_tag) {
        out.push('!');
        out.push('[');
        push_attr(out, &d.alt);
        out.push(']');
        out.push('(');
        push_attr(out, &d.src);
        out.push(')');
    } else if chars_eq(&tag, &pre_tag) || chars_eq(&tag, &code_tag) {
        push_fence(out);
        out.push_str(text.as_str());
        push_fence(out);
    }
}

/// Writes the markdown of a walk; see `walk_markdown`.
pub fn markdown_of_walk(ev: &Vec<DomEvent>) -> (md: String)
    ensures
        md@ == walk_markdown(ev@),
{
    let mut md = String::new();
    let mut k: usize = 0;
    let mut hidden: usize = 0;
    while k < ev.len()
        invariant
            k <= ev@.len(),
            hidden <= k,
            md@ + markdown_from(ev@, k as int, hidden as nat) == walk_markdown(ev@),
        decreases ev@.len() - k,
    {
        match &ev[k] {
            DomEvent::Open(d) => {
                if hidden == 0 {
                    let text = text_of(ev, k);
                    render_element(&mut md, d, &text);
                } else {
                    hidden = hidden + 1;
                }
            },
            DomEvent::Close => {
                if hidden > 0 {
                    hidden = hidden - 1;
                }
            },
            _ => {
                hidden = hidden + 1;
            },
        }
        k = k + 1;
    }
    md
}

/// The elements that `html_to_markdown` looks at: those that `body` selects in the parsed
/// document, or, should that selector not parse, those that `*` selects.
pub open spec fn body_selection(html: Seq<char>) -> Option<Seq<Seq<DomEvent>>> {
    match document_selection(html, "body"@) {
        Some(found) => Some(found),
        None => document_selection(html, "*"@),
    }
}

/// The markdown of a selection: that of its first element, or nothing without one.
pub open spec fn selection_markdown(found: Option<Seq<Seq<DomEvent>>>) -> Seq<char> {
    match found {
        Some(found) => if found.len() > 0 {
            walk_markdown(found[0])
        } else {
            Seq::empty()
        },
        None => Seq::empty(),
    }
}

/// The markdown of a page: that of the first selected body element, or nothing without one.
pub open spec fn page_markdown(html: Seq<char>) -> Seq<char> {
    selection_markdown(body_selection(html))
}

/// The title held by a selection of `title` elements: the trimmed text of the first, or
/// nothing without one.
pub open spec fn selection_title(found: Option<Seq<Seq<DomEvent>>>) -> Seq<char> {
    match found {
        Some(found) => if found.len() > 0 {
            trimmed(subtree_text(found[0], 0))
        } else {
            Seq::empty()
        },
        None => Seq::empty(),
    }
}

/// The title of a page: the trimmed text of the first `title` element, or nothing.
pub open spec fn page_title(html: Seq<char>) -> Seq<char> {
    selection_title(document_selection(html, "title"@))
}

/// The markdown of the first selected element; see `selection_markdown`.
pub fn markdown_of_selection(found: &Option<Vec<Vec<DomEvent>>>) -> (md: String)
    ensures
        md@ == selection_markdown(selection_view(*found)),
{
    match found {
        Some(found) => {
            if found.len() > 0 {
                markdown_of_walk(&found[0])
            } else {
                String::new()
            }
        },
        None => String::new(),
    }
}

/// The title held by a selection of `title` elements; see `selection_title`.
pub fn title_of_selection(found: &Option<Vec<Vec<DomEvent>>>) -> (title: String)
    ensures
        title@ == selection_title(selection_view(*found)),
{
    match found {
        Some(found) => {
            if found.len() > 0 && found[0].len() > 0 {
                let text = text_of(&found[0], 0);
                trim(text.as_str())
            } else {
                proof {
                    if found@.len() > 0 {
                        assert(found@[0]@.len() == 0);
                        assert(close_index(found@[0]@, 0) == 0);
                    }
                }
                String::new()
            }
        },
        None => String::new(),
    }
}

/// The markdown of the body of an HTML page; see `page_markdown`.
pub fn html_to_markdown(html: &str) -> (md: String)
    ensures
        md@ == page_markdown(html@),
{
    let found = match select_in_document(html, "body") {
        Some(found) => Some(found),
        None => select_in_document(html, "*"),
    };
    markdown_of_selection(&found)
}

/// The title of an HTML page; see `page_title`.
pub fn extract_title(html: &str) -> (title: String)
    ensures
        title@ == page_title(html@),
{
    let found = select_in_document(html, "title");
    title_of_selection(&found)
}

/// The record made of a fetched page: its url, its title, relevance 0, its markdown and the
/// time stamp given.
pub fn page_source(url: &str, html: &str, extracted_at: String) -> (source: SourceResult)
    ensures
        source.url@ == url@,
        source.title@ == page_title(html@),
        source.relevance_percent == 0,
        source.content@ == page_markdown(html@),
        source.extracted_at == extracted_at,
{
    let markdown = html_to_markdown(html);
    let title = extract_title(html);
    SourceResult { url: url.to_owned(), title, relevance_percent: 0, content: markdown, extracted_at }
}

/// The record made of a fetched page, stamped with the current time of day; see `page_source`.
pub fn extracted_page(url: &str, html: &str) -> (source: SourceResult)
    ensures
        source.url@ == url@,
        source.title@ == page_title(html@),
        source.relevance_percent == 0,
        source.content@ == page_markdown(html@),
        exists|secs: u64| source.extracted_at@ == time_of_day_stamp(secs as nat),
{
    page_source(url, html, chrono_now())
}

/// The text of the record made for a page that could not be extracted.
pub open spec fn failure_content(error: Seq<char>) -> Seq<char> {
    "Error extracting: "@ + error
}

/// The record `extract_batch` keeps for a page that could not be extracted: its url, an
/// empty title and time stamp, relevance 0, and the error as content.
pub fn failed_extraction(url: &str, error: &str) -> (source: SourceResult)
    ensures
        source.url@ == url@,
        source.title@ == Seq::<char>::empty(),
        source.relevance_percent == 0,
        source.content@ == failure_content(error@),
        source.extracted_at@ == Seq::<char>::empty(),
{
    let mut content = String::new();
    content.push_str("Error extracting: ");
    content.push_str(error);
    SourceResult {
        url: url.to_owned(),
        title: String::new(),
        relevance_percent: 0,
        content,
        extracted_at: String::new(),
    }
}

/// What `extract_single` fails with for a response whose status code is not a success
/// (2xx): `HTTP <status> for <url>`, where `status_text` is how the status displays.
pub fn http_status_error(status_code: u16, status_text: &str, url: &str) -> (error: Option<String>)
    ensures
        200 <= status_code <= 299 ==> error is None,
        !(200 <= status_code <= 299) ==> error is Some
            && error->0@ == "HTTP "@ + status_text@ + " for "@ + url@,
{
    if 200 <= status_code && status_code <= 299 {
        None
    } else {
        let mut message = String::new();
        message.push_str("HTTP ");
        message.push_str(status_text);
        message.push_str(" for ");
        message.push_str(url);
        Some(message)
    }
}

/// The record a batch keeps for one url: the extracted page, or the failure record.
pub open spec fn batch_entry(url: Seq<char>, outcome: Result<SourceResult, String>, kept: SourceResult) -> bool {
    match outcome {
        Ok(source) => kept == source,
        Err(e) => kept.url@ == url && kept.title@ == Seq::<char>::empty() && kept.relevance_percent == 0
            && kept.content@ == failure_content(e@) && kept.extracted_at@ == Seq::<char>::empty(),
    }
}

/// What `extract_batch` makes of the outcomes of extracting `urls`, one for each url in
/// order: every page that was extracted, and a failure record for each that was not.
pub fn collect_batch(urls: &Vec<String>, outcomes: Vec<Result<SourceResult, String>>) -> (sources: Vec<SourceResult>)
    requires
        urls@.len() == outcomes@.len(),
    ensures
        sources@.len() == urls@.len(),
        forall|i: int| 0 <= i < urls@.len() ==> batch_entry(urls@[i]@, outcomes@[i], #[trigger] sources@[i]),
{
    let mut sources: Vec<SourceResult> = Vec::new();
    let mut outcomes = outcomes;
    let ghost all = outcomes@;
    let mut i: usize = 0;
    assert(all.skip(0) == all);
    while i < urls.len()
        invariant
            urls@.len() == all.len(),
            i <= urls@.len(),
            sources@.len() == i,
            outcomes@ == all.skip(i as int),
            forall|j: int| 0 <= j < i ==> batch_entry(urls@[j]@, all[j], #[trigger] sources@[j]),
        decreases urls@.len() - i,
    {
        let outcome = outcomes.remove(0);
        assert(outcome == all[i as int]);
        assert(outcomes@ == all.skip(i + 1));
        let entry = match outcome {
            Ok(source) => source,
            Err(e) => failed_extraction(urls[i].as_str(), e.as_str()),
        };
        sources.push(entry);
        i = i + 1;
    }
    sources
}

/// A heading `h1` to `h6` whose text is not blank is written as a line of as many `#` as its
/// level, a space and its trimmed text, after a blank line; one with blank text writes nothing.
pub proof fn lemma_heading_markdown(d: ElementData, text: Seq<char>, level: nat)
    requires
        1 <= level <= 6,
        d.name@ == seq!['h', (48 + level) as char],
    ensures
        trimmed(text).len() > 0 ==> rendered(d, text) == seq!['\n', '\n'] + Seq::new(level, |_i: int| '#')
            + seq![' '] + trimmed(text) + seq!['\n'],
        trimmed(text).len() == 0 ==> rendered(d, text) == Seq::<char>::empty(),
{
    let tag = d.name@;
    assert(tag[1] == (48 + level) as char);
    assert(tag[1] as nat == 48 + level);
    assert(heading_level(tag) == level);
    assert(hashes(level) =~= Seq::new(level, |_i: int| '#'));
}

/// A body holding a single element with a single text node writes just what that element
/// writes for that text: the body itself adds nothing.
pub proof fn lemma_body_with_one_element(body: ElementData, d: ElementData, text: String)
    requires
        body.name@ == seq!['b', 'o', 'd', 'y'],
    ensures
        walk_markdown(seq![DomEvent::Open(body), DomEvent::Open(d), DomEvent::Text(text), DomEvent::Close,
            DomEvent::Close, DomEvent::Close]) == rendered(d, text@),
{
    let ev = seq![DomEvent::Open(body), DomEvent::Open(d), DomEvent::Text(text), DomEvent::Close,
        DomEvent::Close, DomEvent::Close];
    reveal_with_fuel(close_index_from, 6);
    reveal_with_fuel(texts_between, 5);
    assert(close_index(ev, 1) == 4);
    assert(texts_between(ev, 2, 3) == text@);
    assert(texts_between(ev, 2, 4) == text@);
    assert(subtree_text(ev, 1) == text@);
    assert(seq!['b', 'o', 'd', 'y'] != seq!['p']) by { assert(seq!['b', 'o', 'd', 'y'].len() != seq!['p'].len()); }
    assert(seq!['b', 'o', 'd', 'y'] != seq!['l', 'i']) by { assert(seq!['b', 'o', 'd', 'y'].len() != seq!['l', 'i'].len()); }
    assert(seq!['b', 'o', 'd', 'y'] != seq!['a']) by { assert(seq!['b', 'o', 'd', 'y'].len() != seq!['a'].len()); }
    assert(seq!['b', 'o', 'd', 'y'] != seq!['i', 'm', 'g']) by { assert(seq!['b', 'o', 'd', 'y'].len() != seq!['i', 'm', 'g'].len()); }
    assert(seq!['b', 'o', 'd', 'y'] != seq!['p', 'r', 'e']) by { assert(seq!['b', 'o', 'd', 'y'].len() != seq!['p', 'r', 'e'].len()); }
    assert(seq!['b', 'o', 'd', 'y'] != seq!['c', 'o', 'd', 'e']) by { assert(seq!['b', 'o', 'd', 'y'][0] != seq!['c', 'o', 'd', 'e'][0]); }
    assert(rendered(body, subtree_text(ev, 0)) == Seq::<char>::empty());
    assert(markdown_from(ev, 6, 0) == Seq::<char>::empty());
    assert(markdown_from(ev, 5, 0) == Seq::<char>::empty());
    assert(markdown_from(ev, 4, 0) == Seq::<char>::empty());
    assert(markdown_from(ev, 3, 1) == Seq::<char>::empty());
    assert(markdown_from(ev, 2, 0) == Seq::<char>::empty());
    assert(markdown_from(ev, 1, 0) == rendered(d, text@));
}

/// The title is the trimmed text of the first `title` element selected: elements selected
/// after it never change it.
pub proof fn lemma_title_is_first(found: Seq<Seq<DomEvent>>, more: Seq<Seq<DomEvent>>)
    requires
        found.len() > 0,
    ensures
        selection_title(Some(found)) == trimmed(subtree_text(found[0], 0)),
        selection_title(Some(found + more)) == selection_title(Some(found)),
{
    assert((found + more)[0] == found[0]);
}

/// The markdown of a page is that of the first body element selected: elements selected after
/// it never change it.
pub proof fn lemma_markdown_is_first(found: Seq<Seq<DomEvent>>, more: Seq<Seq<DomEvent>>)
    requires
        found.len() > 0,
    ensures
        selection_markdown(Some(found)) == walk_markdown(found[0]),
        selection_markdown(Some(found + more)) == selection_markdown(Some(found)),
{
    assert((found + more)[0] == found[0]);
}

/// Paragraphs and list items with non-blank text are written as their trimmed text on a line
/// of its own; links with text and a target as `[text](target)`; images as `![alt](src)`;
/// `pre` and `code` as the text between fences; and an element of any other name writes
/// nothing.
pub proof fn lemma_element_markdown(d: ElementData, text: Seq<char>)
    ensures
        (d.name@ == seq!['p'] || d.name@ == seq!['l', 'i']) && trimmed(text).len() > 0
            ==> rendered(d, text) == seq!['\n'] + trimmed(text) + seq!['\n'],
        d.name@ == seq!['a'] && text.len() > 0 && d.href is Some && d.href->0@.len() > 0
            ==> rendered(d, text) == seq!['['] + text + seq![']', '('] + d.href->0@ + seq![')'],
        d.name@ == seq!['a'] && (text.len() == 0 || d.href is None) ==> rendered(d, text) == Seq::<char>::empty(),
        d.name@ == seq!['i', 'm', 'g'] && d.alt is Some && d.src is Some
            ==> rendered(d, text) == seq!['!', '['] + d.alt->0@ + seq![']', '('] + d.src->0@ + seq![')'],
        d.name@ == seq!['p', 'r', 'e'] || d.name@ == seq!['c', 'o', 'd', 'e']
            ==> rendered(d, text) == seq!['\n', '`', '`', '`', '\n'] + text + seq!['\n', '`', '`', '`', '\n'],
        d.name@.len() != 1 && d.name@.len() != 2 && d.name@.len() != 3 && d.name@.len() != 4
            ==> rendered(d, text) == Seq::<char>::empty(),
{
    let tag = d.name@;
    if tag == seq!['p'] || tag == seq!['l', 'i'] || tag == seq!['a'] || tag == seq!['i', 'm', 'g']
        || tag == seq!['p', 'r', 'e'] || tag == seq!['c', 'o', 'd', 'e'] {
        assert(heading_level(tag) == 0) by {
            if tag.len() == 2 {
                assert(tag == seq!['l', 'i']);
                assert(tag[0] == 'l');
            }
        }
    }
    if tag == seq!['a'] {
        assert(tag != seq!['p']) by { assert(tag[0] != seq!['p'][0]); }
        assert(tag != seq!['l', 'i']) by { assert(tag.len() != seq!['l', 'i'].len()); }
    }
    if tag == seq!['p', 'r', 'e'] {
        assert(tag != seq!['p']);
        assert(tag != seq!['i', 'm', 'g']) by { assert(tag[0] != seq!['i', 'm', 'g'][0]); }
    }
}

} // verus!
