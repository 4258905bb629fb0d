use vstd::prelude::*;

use crate::text::{chars_eq, chars_of};
use crate::synthesize::{content_bytes, report, Synthesizer};
use crate::{ResearchQuery, ResearchResult, SearchDepth, SourceResult};

verus! {

/// The settings of one research run, with the defaults filled in.
pub struct ResearchPlan {
    /// How many sources to extract.
    pub max_sources: usize,
    /// How many search hits to ask for: twice `max_sources`.
    pub search_limit: usize,
    pub depth: SearchDepth,
    pub include_synthesis: bool,
}

impl ResearchQuery {
    /// The number of sources asked for: `max_sources`, 5 by default.
    pub open spec fn source_count(&self) -> nat {
        match self.max_sources {
            Some(n) => n as nat,
            None => 5,
        }
    }

    /// The settings of a run for this query: `max_sources` (5 by default), a search for
    /// twice as many hits, `depth` (`Quick` by default) and `include_synthesis` (`true` by
    /// default). `None` exactly when twice `max_sources` does not fit in a `usize`.
    pub fn plan(&self) -> (plan: Option<ResearchPlan>)
        ensures
            plan is None <==> 2 * self.source_count() > usize::MAX,
            plan matches Some(p) ==> {
                &&& p.max_sources == self.source_count()
                &&& p.search_limit == 2 * self.source_count()
                &&& p.depth == match self.depth {
                    Some(d) => d,
                    None => SearchDepth::Quick,
                }
                &&& p.include_synthesis == match self.include_synthesis {
                    Some(b) => b,
                    None => true,
                }
            },
    {
        let max_sources = match self.max_sources {
            Some(n) => n,
            None => 5,
        };
        let depth = match self.depth {
            Some(d) => d,
            None => SearchDepth::Quick,
        };
        let include_synthesis = match self.include_synthesis {
            Some(b) => b,
            None => true,
        };
        if max_sources > usize::MAX / 2 {
            return None;
        }
        Some(ResearchPlan { max_sources, search_limit: max_sources * 2, depth, include_synthesis })
    }
}

/// The urls of the first `max_sources` search hits, in order.
pub fn top_urls(search_results: &[SourceResult], max_sources: usize) -> (urls: Vec<String>)
    ensures
        urls@.len() == if search_results@.len() < max_sources { search_results@.len() } else { max_sources as nat },
        forall|i: int| 0 <= i < urls@.len() ==> (#[trigger] urls@[i])@ == search_results@[i].url@,
{
    let mut urls: Vec<String> = Vec::new();
    let mut i: usize = 0;
    while i < search_results.len() && i < max_sources
        invariant
            i <= search_results@.len(),
            i <= max_sources,
            urls@.len() == i,
            forall|j: int| 0 <= j < i ==> (#[trigger] urls@[j])@ == search_results@[j].url@,
        decreases search_results@.len() - i,
    {
        urls.push(search_results[i].url.clone());
        i = i + 1;
    }
    urls
}

/// The index of the first search hit with the given url.
pub open spec fn first_hit_with_url(hits: Seq<SourceResult>, url: Seq<char>) -> Option<int>
    decreases hits.len(),
{
    if hits.len() == 0 {
        None
    } else {
        match first_hit_with_url(hits.drop_last(), url) {
            Some(i) => Some(i),
            None => if hits.last().url@ == url {
                Some(hits.len() - 1)
            } else {
                None
            },
        }
    }
}

/// A source with the title and relevance of the first search hit for its url, if any.
pub open spec fn with_hit_metadata(source: SourceResult, hits: Seq<SourceResult>) -> SourceResult {
    match first_hit_with_url(hits, source.url@) {
        Some(i) => SourceResult {
            title: hits[i].title,
            relevance_percent: hits[i].relevance_percent,
            ..source
        },
        None => source,
    }
}

proof fn lemma_first_hit_bounds(hits: Seq<SourceResult>, url: Seq<char>)
    ensures
        first_hit_with_url(hits, url) matches Some(i) ==> 0 <= i < hits.len() && hits[i].url@ == url,
    decreases hits.len(),
{
    if hits.len() > 0 {
        lemma_first_hit_bounds(hits.drop_last(), url);
    }
}

fn find_hit(hits: &[SourceResult], url: &String) -> (r: Option<usize>)
    ensures
        match r {
            Some(i) => first_hit_with_url(hits@, url@) == Some(i as int),
            None => first_hit_with_url(hits@, url@) is None,
        },
{
    let url_chars = chars_of(url.as_str());
    let mut i: usize = 0;
    while i < hits.len()
        invariant
            i <= hits@.len(),
            url_chars@ == url@,
            first_hit_with_url(hits@.take(i as int), url@) is None,
        decreases hits@.len() - i,
    {
        assert(hits@.take(i + 1).drop_last() == hits@.take(i as int));
        let hit_url = chars_of(hits[i].url.as_str());
        if chars_eq(&hit_url, &url_chars) {
            proof {
                lemma_first_hit_prefix(hits@, i as int + 1, url@);
            }
            return Some(i);
        }
        i = i + 1;
    }
    assert(hits@.take(hits@.len() as int) == hits@);
    None
}

proof fn lemma_first_hit_prefix(hits: Seq<SourceResult>, j: int, url: Seq<char>)
    requires
        0 <= j <= hits.len(),
        first_hit_with_url(hits.take(j), url) is Some,
    ensures
        first_hit_with_url(hits, url) == first_hit_with_url(hits.take(j), url),
    decreases hits.len() - j,
{
    if j < hits.len() {
        assert(hits.take(j + 1).drop_last() == hits.take(j));
        lemma_first_hit_prefix(hits, j + 1, url);
    } else {
        assert(hits.take(j) == hits);
    }
}

/// Gives each extracted source the title and relevance of the first search hit with its url;
/// see `with_hit_metadata`.
pub fn merge_search_metadata(sources: Vec<SourceResult>, search_results: &[SourceResult]) -> (merged: Vec<SourceResult>)
    ensures
        merged@.len() == sources@.len(),
        forall|i: int| 0 <= i < sources@.len() ==> #[trigger] merged@[i] == with_hit_metadata(sources@[i], search_results@),
{
    let ghost all = sources@;
    let mut rest = sources;
    let mut merged: Vec<SourceResult> = Vec::new();
    assert(all.skip(0) == all);
    while rest.len() > 0
        invariant
            merged@.len() + rest@.len() == all.len(),
            rest@ == all.skip(merged@.len() as int),
            forall|i: int| 0 <= i < merged@.len() ==> #[trigger] merged@[i] == with_hit_metadata(all[i], search_results@),
        decreases rest@.len(),
    {
        let ghost k = merged@.len() as int;
        let source = rest.remove(0);
        assert(source == all[k]);
        assert(rest@ == all.skip(k + 1));
        let updated = match find_hit(search_results, &source.url) {
            Some(j) => {
                proof {
                    lemma_first_hit_bounds(search_results@, source.url@);
                }
                SourceResult {
                    title: search_results[j].title.clone(),
                    relevance_percent: search_results[j].relevance_percent,
                    ..source
                }
            },
            None => source,
        };
        merged.push(updated);
    }
    merged
}

/// Merging the metadata of the same search hits a second time changes nothing.
pub proof fn lemma_merge_idempotent(source: SourceResult, hits: Seq<SourceResult>)
    ensures
        with_hit_metadata(with_hit_metadata(source, hits), hits) == with_hit_metadata(source, hits),
{
}

/// The answer to a research run: the question, the sources, the report on them when one is
/// asked for, and the time the run took.
pub fn research_result(
    synthesizer: &Synthesizer,
    question: String,
    sources: Vec<SourceResult>,
    include_synthesis: bool,
    processing_time_ms: u64,
) -> (r: ResearchResult)
    requires
        include_synthesis ==> content_bytes(sources@) <= usize::MAX,
    ensures
        r.question == question,
        r.sources == sources,
        r.processing_time_ms == processing_time_ms,
        include_synthesis ==> r.synthesis is Some && r.synthesis->0@ == report(question@, sources@),
        !include_synthesis ==> r.synthesis is None,
{
    let synthesis = if include_synthesis {
        Some(synthesizer.synthesize(question.as_str(), sources.as_slice()))
    } else {
        None
    };
    ResearchResult { question, sources, synthesis, processing_time_ms }
}

/// Merging changes only the title and the relevance of a source: its url, content and time
/// stamp stay. When some search hit has the source's url, the title and relevance are those
/// of the first such hit; when none has, the source stays as it was.
pub proof fn lemma_merge_keeps_page(source: SourceResult, hits: Seq<SourceResult>)
    ensures
        with_hit_metadata(source, hits).url == source.url,
        with_hit_metadata(source, hits).content == source.content,
        with_hit_metadata(source, hits).extracted_at == source.extracted_at,
        (forall|j: int| 0 <= j < hits.len() ==> (#[trigger] hits[j]).url@ != source.url@)
            ==> with_hit_metadata(source, hits) == source,
        (exists|j: int| 0 <= j < hits.len() && (#[trigger] hits[j]).url@ == source.url@) ==> exists|j: int|
            0 <= j < hits.len() && (#[trigger] hits[j]).url@ == source.url@
            && (forall|k: int| 0 <= k < j ==> (#[trigger] hits[k]).url@ != source.url@)
            && with_hit_metadata(source, hits).title == hits[j].title
            && with_hit_metadata(source, hits).relevance_percent == hits[j].relevance_percent,
{
    lemma_first_hit_is_first(hits, source.url@);
}

proof fn lemma_first_hit_is_first(hits: Seq<SourceResult>, url: Seq<char>)
    ensures
        first_hit_with_url(hits, url) is None <==> (forall|j: int| 0 <= j < hits.len() ==> (#[trigger] hits[j]).url@ != url),
        first_hit_with_url(hits, url) matches Some(i) ==> 0 <= i < hits.len() && hits[i].url@ == url
            && (forall|k: int| 0 <= k < i ==> (#[trigger] hits[k]).url@ != url),
    decreases hits.len(),
{
    if hits.len() > 0 {
        let prev = hits.drop_last();
        lemma_first_hit_is_first(prev, url);
        assert forall|j: int| 0 <= j < prev.len() implies #[trigger] prev[j] == hits[j] by {}
        if let Some(i) = first_hit_with_url(prev, url) {
            assert forall|k: int| 0 <= k < i implies (#[trigger] hits[k]).url@ != url by {
                assert(prev[k] == hits[k]);
            }
            assert(hits[i] == prev[i]);
        } else {
            if hits.last().url@ == url {
                assert forall|k: int| 0 <= k < hits.len() - 1 implies (#[trigger] hits[k]).url@ != url by {
                    assert(prev[k] == hits[k]);
                }
            } else {
                assert forall|j: int| 0 <= j < hits.len() implies (#[trigger] hits[j]).url@ != url by {
                    if j < prev.len() {
                        assert(prev[j] == hits[j]);
                    }
                }
            }
        }
    }
}

} // verus!
