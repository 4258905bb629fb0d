use vstd::prelude::*;
use vstd::utf8::encode_utf8;

use crate::text::{chars_of, decimal, push_chars, push_decimal};
use crate::SourceResult;

verus! {

/// The synthesis engine: turns a question and its sources into a report.
pub struct Synthesizer;

impl Synthesizer {
    /// A synthesizer.
    pub fn new() -> (s: Synthesizer)
        ensures
            s == Synthesizer,
    {
        Synthesizer
    }
}

impl Default for Synthesizer {
    fn default() -> (s: Synthesizer)
        ensures
            s == Synthesizer,
    {
        Synthesizer::new()
    }
}

/// How a source is named in the report: its title, or its url when the title is empty.
pub open spec fn source_heading(s: SourceResult) -> Seq<char> {
    if s.title@.len() == 0 {
        s.url@
    } else {
        s.title@
    }
}

/// The first 500 characters of a source's content.
pub open spec fn preview(content: Seq<char>) -> Seq<char> {
    if content.len() <= 500 {
        content
    } else {
        content.take(500)
    }
}

/// The decimal notation of an integer, with a minus sign when it is negative.
pub open spec fn signed_decimal(n: int) -> Seq<char> {
    if n < 0 {
        seq!['-'] + decimal((-n) as nat)
    } else {
        decimal(n as nat)
    }
}

/// The section of the report on the source at position `i` (counted from 0).
pub open spec fn finding(i: nat, s: SourceResult) -> Seq<char> {
    "### "@ + decimal(i + 1) + ". "@ + source_heading(s) + "\n\n"@ + "**Source:** ["@ + s.url@ + "]("@
        + s.url@ + ")\n\n"@ + "**Relevance:** "@ + signed_decimal(s.relevance_percent as int)
        + ".0%\n\n"@ + preview(s.content@) + "\n\n---\n\n"@
}

/// The sections on all sources, in order.
pub open spec fn findings(sources: Seq<SourceResult>) -> Seq<char>
    decreases sources.len(),
{
    if sources.len() == 0 {
        Seq::empty()
    } else {
        findings(sources.drop_last()) + finding((sources.len() - 1) as nat, sources.last())
    }
}

/// The total length in bytes (UTF-8) of the contents of the sources.
pub open spec fn content_bytes(sources: Seq<SourceResult>) -> nat
    decreases sources.len(),
{
    if sources.len() == 0 {
        0
    } else {
        content_bytes(sources.drop_last()) + encode_utf8(sources.last().content@).len()
    }
}

/// The report on `question` drawn from `sources`: a header with the question and the number
/// of sources, then either a note that none were found or a section on each source and a
/// summary with the number of sources and the total size of their content in bytes.
pub open spec fn report(question: Seq<char>, sources: Seq<SourceResult>) -> Seq<char> {
    let header = "# Research Synthesis\n\n"@ + "**Question:** "@ + question + "\n\n"@
        + "**Sources consulted:** "@ + decimal(sources.len()) + "\n\n"@;
    if sources.len() == 0 {
        header + "*No sources were found for this query.*\n"@
    } else {
        header + "## Key Findings\n\n"@ + findings(sources) + "## Summary\n\n"@ + "Collected "@
            + decimal(sources.len()) + " sources across the web. "@ + "Total extracted content: "@
            + decimal(content_bytes(sources)) + " characters.\n"@
    }
}

fn push_signed_decimal(out: &mut String, n: i128)
    ensures
        final(out)@ == old(out)@ + signed_decimal(n as int),
{
    if n < 0 {
        out.push('-');
        let magnitude = ((-(n + 1)) as u128) + 1;
        push_decimal(out, magnitude);
    } else {
        push_decimal(out, n as u128);
    }
}

#[verifier::spinoff_prover]
#[verifier::rlimit(30)]
fn push_finding(out: &mut String, i: usize, s: &SourceResult)
    requires
        i < usize::MAX,
    ensures
        final(out)@ == old(out)@ + finding(i as nat, *s),
{
    out.push_str("### ");
    push_decimal(out, (i + 1) as u128);
    out.push_str(". ");
    let title = chars_of(s.title.as_str());
    if title.len() == 0 {
        out.push_str(s.url.as_str());
    } else {
        out.push_str(s.title.as_str());
    }
    out.push_str("\n\n");
    out.push_str("**Source:** [");
    out.push_str(s.url.as_str());
    out.push_str("](");
    out.push_str(s.url.as_str());
    out.push_str(")\n\n");
    out.push_str("**Relevance:** ");
    push_signed_decimal(out, s.relevance_percent);
    out.push_str(".0%\n\n");
    let content = chars_of(s.content.as_str());
    let shown = if content.len() <= 500 { content.len() } else { 500 };
    push_chars(out, &content, 0, shown);
    assert(content@.subrange(0, shown as int) == preview(s.content@));
    out.push_str("\n\n---\n\n");
}

impl Synthesizer {
    /// Writes the report on `question` drawn from `sources`; see `report`.
    pub fn synthesize(&self, question: &str, sources: &[SourceResult]) -> (output: String)
        requires
            content_bytes(sources@) <= usize::MAX,
        ensures
            output@ == report(question@, sources@),
    {
        let mut output = String::new();
        output.push_str("# Research Synthesis\n\n");
        output.push_str("**Question:** ");
        output.push_str(question);
        output.push_str("\n\n");
        output.push_str("**Sources consulted:** ");
        push_decimal(&mut output, sources.len() as u128);
        output.push_str("\n\n");
        if sources.len() == 0 {
            output.push_str("*No sources were found for this query.*\n");
            return output;
        }
        output.push_str("## Key Findings\n\n");
        let ghost before = output@;
        let mut total: usize = 0;
        let mut i: usize = 0;
        while i < sources.len()
            invariant
                i <= sources@.len(),
                content_bytes(sources@) <= usize::MAX,
                output@ == before + findings(sources@.take(i as int)),
                total == content_bytes(sources@.take(i as int)),
            decreases sources@.len() - i,
        {
            assert(sources@.take(i + 1).drop_last() == sources@.take(i as int));
            proof {
                lemma_content_bytes_prefix(sources@, i as int + 1);
            }
            push_finding(&mut output, i, &sources[i]);
            total = total + sources[i].content.as_str().len();
            i = i + 1;
        }
        assert(sources@.take(sources@.len() as int) == sources@);
        output.push_str("## Summary\n\n");
        output.push_str("Collected ");
        push_decimal(&mut output, sources.len() as u128);
        output.push_str(" sources across the web. ");
        output.push_str("Total extracted content: ");
        push_decimal(&mut output, total as u128);
        output.push_str(" characters.\n");
        output
    }
}

/// The total length in bytes of the contents of `sources`, or `None` when it does not fit in
/// a `usize` (where summing them would overflow).
pub fn total_content_bytes(sources: &[SourceResult]) -> (total: Option<usize>)
    ensures
        total is Some <==> content_bytes(sources@) <= usize::MAX,
        total matches Some(t) ==> t == content_bytes(sources@),
{
    let mut total: usize = 0;
    let mut i: usize = 0;
    while i < sources.len()
        invariant
            i <= sources@.len(),
            total == content_bytes(sources@.take(i as int)),
        decreases sources@.len() - i,
    {
        assert(sources@.take(i + 1).drop_last() == sources@.take(i as int));
        let size = sources[i].content.as_str().as_bytes().len();
        if size > usize::MAX - total {
            proof {
                lemma_content_bytes_prefix(sources@, i as int + 1);
            }
            return None;
        }
        total = total + size;
        assert(sources@.take(i + 1).last() == sources@[i as int]);
        i = i + 1;
    }
    assert(sources@.take(sources@.len() as int) == sources@);
    Some(total)
}

proof fn lemma_content_bytes_prefix(sources: Seq<SourceResult>, j: int)
    requires
        0 <= j <= sources.len(),
    ensures
        content_bytes(sources.take(j)) <= content_bytes(sources),
    decreases sources.len() - j,
{
    if j < sources.len() {
        lemma_content_bytes_prefix(sources, j + 1);
        assert(sources.take(j + 1).drop_last() == sources.take(j));
    } else {
        assert(sources.take(j) == sources);
    }
}

/// `needle` occurs somewhere in `hay`.
pub open spec fn contains(hay: Seq<char>, needle: Seq<char>) -> bool {
    exists|k: int| 0 <= k && k + needle.len() <= hay.len() && #[trigger] hay.subrange(k, k + needle.len()) == needle
}

proof fn lemma_contains_self(s: Seq<char>)
    ensures
        contains(s, s),
{
    let k: int = 0;
    assert(s.subrange(k, k + s.len()) == s);
}

proof fn lemma_contains_extend(a: Seq<char>, b: Seq<char>, needle: Seq<char>)
    requires
        contains(b, needle),
    ensures
        contains(a + b, needle),
        contains(b + a, needle),
{
    let k = choose|k: int| 0 <= k && k + needle.len() <= b.len() && #[trigger] b.subrange(k, k + needle.len()) == needle;
    assert((a + b).subrange(k + a.len(), k + a.len() + needle.len()) == b.subrange(k, k + needle.len()));
    assert((b + a).subrange(k, k + needle.len()) == b.subrange(k, k + needle.len()));
}

proof fn lemma_findings_contain(sources: Seq<SourceResult>, i: int)
    requires
        0 <= i < sources.len(),
    ensures
        contains(findings(sources), finding(i as nat, sources[i])),
    decreases sources.len(),
{
    let prev = findings(sources.drop_last());
    let last = finding((sources.len() - 1) as nat, sources.last());
    if i == sources.len() - 1 {
        lemma_contains_self(last);
        lemma_contains_extend(prev, last, last);
    } else {
        lemma_findings_contain(sources.drop_last(), i);
        lemma_contains_extend(last, prev, finding(i as nat, sources[i]));
    }
}

proof fn lemma_finding_cites_url(i: nat, s: SourceResult)
    ensures
        contains(finding(i, s), s.url@),
{
    let a = "### "@ + decimal(i + 1) + ". "@ + source_heading(s) + "\n\n"@ + "**Source:** ["@;
    let b = "]("@ + s.url@ + ")\n\n"@ + "**Relevance:** "@ + signed_decimal(s.relevance_percent as int)
        + ".0%\n\n"@ + preview(s.content@) + "\n\n---\n\n"@;
    lemma_contains_self(s.url@);
    lemma_contains_extend(a, s.url@, s.url@);
    lemma_contains_extend(b, a + s.url@, s.url@);
    assert(finding(i, s) == (a + s.url@) + b);
}

/// The report quotes the question and cites the url of every source.
pub proof fn lemma_report_cites(question: Seq<char>, sources: Seq<SourceResult>)
    ensures
        contains(report(question, sources), question),
        forall|i: int| 0 <= i < sources.len() ==> contains(report(question, sources), #[trigger] sources[i].url@),
{
    let head = "# Research Synthesis\n\n"@ + "**Question:** "@;
    let after = "\n\n"@ + "**Sources consulted:** "@ + decimal(sources.len()) + "\n\n"@;
    let header = "# Research Synthesis\n\n"@ + "**Question:** "@ + question + "\n\n"@
        + "**Sources consulted:** "@ + decimal(sources.len()) + "\n\n"@;
    assert(header == (head + question) + after);
    let rest = report(question, sources).subrange(header.len() as int, report(question, sources).len() as int);
    assert(report(question, sources) == header + rest);
    lemma_contains_self(question);
    lemma_contains_extend(head, question, question);
    lemma_contains_extend(after, head + question, question);
    lemma_contains_extend(rest, header, question);
    assert forall|i: int| 0 <= i < sources.len() implies contains(report(question, sources), #[trigger] sources[i].url@) by {
        let f = findings(sources);
        let front = header + "## Key Findings\n\n"@;
        let back = "## Summary\n\n"@ + "Collected "@ + decimal(sources.len()) + " sources across the web. "@
            + "Total extracted content: "@ + decimal(content_bytes(sources)) + " characters.\n"@;
        assert(report(question, sources) == (front + f) + back);
        lemma_findings_contain(sources, i);
        let fi = finding(i as nat, sources[i]);
        lemma_finding_cites_url(i as nat, sources[i]);
        let k = choose|k: int| 0 <= k && k + fi.len() <= f.len() && #[trigger] f.subrange(k, k + fi.len()) == fi;
        let j = choose|j: int| 0 <= j && j + sources[i].url@.len() <= fi.len() && #[trigger] fi.subrange(j, j + sources[i].url@.len()) == sources[i].url@;
        assert(f.subrange(k + j, k + j + sources[i].url@.len()) == fi.subrange(j, j + sources[i].url@.len()));
        lemma_contains_extend(front, f, sources[i].url@);
        lemma_contains_extend(back, front + f, sources[i].url@);
    }
}

/// Two lists of sources that agree, source by source, on url, title, relevance and content.
pub open spec fn same_report_fields(a: Seq<SourceResult>, b: Seq<SourceResult>) -> bool {
    &&& a.len() == b.len()
    &&& forall|i: int| 0 <= i < a.len() ==> {
        &&& (#[trigger] a[i]).url@ == b[i].url@
        &&& a[i].title@ == b[i].title@
        &&& a[i].relevance_percent == b[i].relevance_percent
        &&& a[i].content@ == b[i].content@
    }
}

proof fn lemma_same_fields_parts(a: Seq<SourceResult>, b: Seq<SourceResult>)
    requires
        same_report_fields(a, b),
    ensures
        findings(a) == findings(b),
        content_bytes(a) == content_bytes(b),
    decreases a.len(),
{
    if a.len() > 0 {
        assert(same_report_fields(a.drop_last(), b.drop_last())) by {
            assert forall|i: int| 0 <= i < a.drop_last().len() implies {
                &&& (#[trigger] a.drop_last()[i]).url@ == b.drop_last()[i].url@
                &&& a.drop_last()[i].title@ == b.drop_last()[i].title@
                &&& a.drop_last()[i].relevance_percent == b.drop_last()[i].relevance_percent
                &&& a.drop_last()[i].content@ == b.drop_last()[i].content@
            } by {
                assert(a.drop_last()[i] == a[i]);
                assert(b.drop_last()[i] == b[i]);
            }
        }
        lemma_same_fields_parts(a.drop_last(), b.drop_last());
        let k = a.len() - 1;
        assert(a.last() == a[k] && b.last() == b[k]);
        assert(a[k].url@ == b[k].url@);
    }
}

/// The report depends on the sources only through their urls, titles, relevance and
/// contents: the time stamps play no part.
pub proof fn lemma_report_ignores_stamps(question: Seq<char>, a: Seq<SourceResult>, b: Seq<SourceResult>)
    requires
        same_report_fields(a, b),
    ensures
        report(question, a) == report(question, b),
{
    lemma_same_fields_parts(a, b);
}

/// The preview of a content is its beginning: its first 500 characters, or all of it when it
/// is shorter.
pub proof fn lemma_preview_is_start(content: Seq<char>)
    ensures
        preview(content).len() == if content.len() < 500 { content.len() } else { 500 },
        forall|i: int| 0 <= i < preview(content).len() ==> #[trigger] preview(content)[i] == content[i],
{
}

/// The report shows the beginning of each source's content: its first 500 characters, or all
/// of it when it is shorter.
pub proof fn lemma_report_shows_content_start(question: Seq<char>, sources: Seq<SourceResult>, i: int)
    requires
        0 <= i < sources.len(),
    ensures
        contains(report(question, sources), sources[i].content@.take(
            if sources[i].content@.len() < 500 { sources[i].content@.len() as int } else { 500 },
        )),
{
    let c = sources[i].content@;
    let start = c.take(if c.len() < 500 { c.len() as int } else { 500 });
    lemma_preview_is_start(c);
    assert(preview(c) =~= start);
    let s = sources[i];
    let a = "### "@ + decimal((i + 1) as nat) + ". "@ + source_heading(s) + "\n\n"@ + "**Source:** ["@ + s.url@
        + "]("@ + s.url@ + ")\n\n"@ + "**Relevance:** "@ + signed_decimal(s.relevance_percent as int) + ".0%\n\n"@;
    let b = "\n\n---\n\n"@;
    let fi = finding(i as nat, s);
    assert(fi == (a + preview(c)) + b);
    lemma_contains_self(start);
    lemma_contains_extend(a, start, start);
    lemma_contains_extend(b, a + start, start);
    lemma_contains_within_report(question, sources, i, start);
}

proof fn lemma_contains_within_report(question: Seq<char>, sources: Seq<SourceResult>, i: int, needle: Seq<char>)
    requires
        0 <= i < sources.len(),
        contains(finding(i as nat, sources[i]), needle),
    ensures
        contains(report(question, sources), needle),
{
    let header = "# Research Synthesis\n\n"@ + "**Question:** "@ + question + "\n\n"@
        + "**Sources consulted:** "@ + decimal(sources.len()) + "\n\n"@;
    let f = findings(sources);
    let front = header + "## Key Findings\n\n"@;
    let back = "## Summary\n\n"@ + "Collected "@ + decimal(sources.len()) + " sources across the web. "@
        + "Total extracted content: "@ + decimal(content_bytes(sources)) + " characters.\n"@;
    assert(report(question, sources) == (front + f) + back);
    lemma_findings_contain(sources, i);
    let fi = finding(i as nat, sources[i]);
    let k = choose|k: int| 0 <= k && k + fi.len() <= f.len() && #[trigger] f.subrange(k, k + fi.len()) == fi;
    let j = choose|j: int| 0 <= j && j + needle.len() <= fi.len() && #[trigger] fi.subrange(j, j + needle.len()) == needle;
    assert(f.subrange(k + j, k + j + needle.len()) == fi.subrange(j, j + needle.len()));
    lemma_contains_extend(front, f, needle);
    lemma_contains_extend(back, front + f, needle);
}

/// The content size of a list of sources is the sum of the UTF-8 lengths of their contents:
/// that of one source is its content's length in bytes, and that of two lists put together is
/// the sum of theirs.
pub proof fn lemma_content_bytes_sum(a: Seq<SourceResult>, b: Seq<SourceResult>, s: SourceResult)
    ensures
        content_bytes(seq![s]) == encode_utf8(s.content@).len(),
        content_bytes(a + b) == content_bytes(a) + content_bytes(b),
    decreases b.len(),
{
    assert(seq![s].drop_last() =~= Seq::<SourceResult>::empty());
    assert(content_bytes(seq![s].drop_last()) == 0);
    assert(seq![s].last() == s);
    if b.len() == 0 {
        assert(a + b == a);
    } else {
        lemma_content_bytes_sum(a, b.drop_last(), s);
        assert((a + b).drop_last() == a + b.drop_last());
        assert((a + b).last() == b.last());
    }
}

/// The report states how many sources it drew on.
pub proof fn lemma_report_counts_sources(question: Seq<char>, sources: Seq<SourceResult>)
    ensures
        contains(report(question, sources), "**Sources consulted:** "@ + decimal(sources.len())),
{
    let needle = "**Sources consulted:** "@ + decimal(sources.len());
    let before = "# Research Synthesis\n\n"@ + "**Question:** "@ + question + "\n\n"@;
    let r = report(question, sources);
    assert(r == (before + needle) + r.subrange((before + needle).len() as int, r.len() as int));
    lemma_contains_self(needle);
    lemma_contains_extend(before, needle, needle);
    lemma_contains_extend(r.subrange((before + needle).len() as int, r.len() as int), before + needle, needle);
}

} // verus!
