use vstd::prelude::*;

use ego_tree::iter::Edge;
use scraper::{Html, Node, Selector};

use crate::text::{chars_eq, chars_of};

verus! {

/// What the library reads of an HTML element: its local name, its classes (as
/// `Element::classes` lists them) and the values of its `href`, `alt` and `src` attributes
/// (as `Element::attr` gives them).
pub struct ElementData {
    pub name: String,
    pub classes: Vec<String>,
    pub href: Option<String>,
    pub alt: Option<String>,
    pub src: Option<String>,
}

/// One step of a depth-first walk over a subtree of a parsed page. Each node is entered once
/// (`Open` for an element, `Text` for a text node, `Other` for any other node) and left once
/// (`Close`); the nodes entered in between are its descendants.
pub enum DomEvent {
    Open(ElementData),
    Text(String),
    Other,
    Close,
}

fn owned(s: Option<&str>) -> (r: Option<String>)
    ensures
        match s {
            Some(v) => r is Some && r->0@ == v@,
            None => r is None,
        },
{
    match s {
        Some(v) => Some(v.to_owned()),
        None => None,
    }
}

impl DomEvent {
    /// The event that enters an element with the given name, classes and attributes.
    pub fn element(name: &str, classes: Vec<String>, href: Option<&str>, alt: Option<&str>, src: Option<&str>) -> (ev: DomEvent)
        ensures
            ev matches DomEvent::Open(d) && d.name@ == name@ && d.classes == classes
                && (match href { Some(v) => d.href is Some && d.href->0@ == v@, None => d.href is None })
                && (match alt { Some(v) => d.alt is Some && d.alt->0@ == v@, None => d.alt is None })
                && (match src { Some(v) => d.src is Some && d.src->0@ == v@, None => d.src is None }),
    {
        DomEvent::Open(ElementData { name: name.to_owned(), classes, href: owned(href), alt: owned(alt), src: owned(src) })
    }

    /// The event that enters a text node.
    pub fn text(t: &str) -> (ev: DomEvent)
        ensures
            ev matches DomEvent::Text(s) && s@ == t@,
    {
        DomEvent::Text(t.to_owned())
    }
}

/// The walks of the elements that `selector` selects in `html` parsed as a document, in the
/// order `Html::select` yields them, or `None` when `selector` does not parse.
pub uninterp spec fn document_selection(html: Seq<char>, selector: Seq<char>) -> Option<Seq<Seq<DomEvent>>>;

/// The walks of the elements that `selector` selects in `html` parsed as a fragment, in the
/// order `Html::select` yields them, or `None` when `selector` does not parse.
pub uninterp spec fn fragment_selection(html: Seq<char>, selector: Seq<char>) -> Option<Seq<Seq<DomEvent>>>;

/// The walks held by a selection result.
pub open spec fn selection_view(found: Option<Vec<Vec<DomEvent>>>) -> Option<Seq<Seq<DomEvent>>> {
    match found {
        Some(walks) => Some(walks@.map_values(|w: Vec<DomEvent>| w@)),
        None => None,
    }
}

/// `scraper`: `Html::parse_document(html)`, then `Html::select` with `Selector::parse(selector)`;
/// each selected element is handed back as the walk `traverse` makes of its subtree. The
/// contract names the result, a function of `html` and `selector` alone; how the page is
/// parsed and how the selector matches are not stated.
#[verifier::external_body]
pub(crate) fn select_in_document(html: &str, selector: &str) -> (found: Option<Vec<Vec<DomEvent>>>)
    ensures
        selection_view(found) == document_selection(html@, selector@),
{
    let selector = Selector::parse(selector).ok()?;
    let document = Html::parse_document(html);
    Some(document.select(&selector).map(|e| e.traverse().map(|edge| match edge {
        Edge::Open(node) => match node.value() {
            Node::Element(e) => DomEvent::element(e.name(), e.classes().map(String::from).collect(),
                e.attr("href"), e.attr("alt"), e.attr("src")),
            Node::Text(t) => DomEvent::text(t),
            Node::Document | Node::Fragment | Node::Doctype(_) | Node::Comment(_) | Node::ProcessingInstruction(_) => DomEvent::Other,
        },
        Edge::Close(_) => DomEvent::Close,
    }).collect()).collect())
}

/// `scraper`: `Html::parse_fragment(html)`, then `Html::select` with `Selector::parse(selector)`;
/// each selected element is handed back as the walk `traverse` makes of its subtree. The
/// contract names the result, a function of `html` and `selector` alone; how the page is
/// parsed and how the selector matches are not stated.
#[verifier::external_body]
pub(crate) fn select_in_fragment(html: &str, selector: &str) -> (found: Option<Vec<Vec<DomEvent>>>)
    ensures
        selection_view(found) == fragment_selection(html@, selector@),
{
    let selector = Selector::parse(selector).ok()?;
    let fragment = Html::parse_fragment(html);
    Some(fragment.select(&selector).map(|e| e.traverse().map(|edge| match edge {
        Edge::Open(node) => match node.value() {
            Node::Element(e) => DomEvent::element(e.name(), e.classes().map(String::from).collect(),
                e.attr("href"), e.attr("alt"), e.attr("src")),
            Node::Text(t) => DomEvent::text(t),
            Node::Document | Node::Fragment | Node::Doctype(_) | Node::Comment(_) | Node::ProcessingInstruction(_) => DomEvent::Other,
        },
        Edge::Close(_) => DomEvent::Close,
    }).collect()).collect())
}

/// The text a single event contributes: the characters of a text node, else nothing.
pub open spec fn text_piece(e: DomEvent) -> Seq<char> {
    match e {
        DomEvent::Text(t) => t@,
        _ => Seq::empty(),
    }
}

/// The texts of the text nodes entered among `ev[from..to]`, concatenated in order.
pub open spec fn texts_between(ev: Seq<DomEvent>, from: int, to: int) -> Seq<char>
    decreases to - from,
{
    if to <= from {
        Seq::empty()
    } else {
        texts_between(ev, from, to - 1) + text_piece(ev[to - 1])
    }
}

/// Scanning from `from` with `depth` nodes still open, the index of the event that closes
/// the outermost of them, or `ev.len()` when the walk ends first.
pub open spec fn close_index_from(ev: Seq<DomEvent>, from: int, depth: nat) -> int
    decreases ev.len() - from,
{
    if from < 0 || from >= ev.len() {
        ev.len() as int
    } else if ev[from] is Close {
        if depth <= 1 {
            from
        } else {
            close_index_from(ev, from + 1, (depth - 1) as nat)
        }
    } else {
        close_index_from(ev, from + 1, depth + 1)
    }
}

/// The index of the event that leaves the node entered at `k`.
pub open spec fn close_index(ev: Seq<DomEvent>, k: int) -> int {
    close_index_from(ev, k + 1, 1)
}

/// What `ElementRef::text` yields for the node entered at `k`, concatenated: the texts of the
/// text nodes among its descendants, in document order.
pub open spec fn subtree_text(ev: Seq<DomEvent>, k: int) -> Seq<char> {
    texts_between(ev, k + 1, close_index(ev, k))
}

proof fn lemma_close_index_from_bounds(ev: Seq<DomEvent>, from: int, depth: nat)
    requires
        0 <= from,
    ensures
        from <= close_index_from(ev, from, depth) <= ev.len() || (from > ev.len() && close_index_from(ev, from, depth) == ev.len()),
    decreases ev.len() - from,
{
    if from < ev.len() {
        if ev[from] is Close {
            if depth > 1 {
                lemma_close_index_from_bounds(ev, from + 1, (depth - 1) as nat);
            }
        } else {
            lemma_close_index_from_bounds(ev, from + 1, depth + 1);
        }
    }
}

/// The index of the event that leaves the node entered at `k`; see `close_index`.
pub fn close_of(ev: &Vec<DomEvent>, k: usize) -> (j: usize)
    requires
        k < ev@.len(),
    ensures
        j == close_index(ev@, k as int),
        k < j <= ev@.len(),
{
    proof {
        lemma_close_index_from_bounds(ev@, k + 1, 1);
    }
    let n = ev.len();
    let mut from = k + 1;
    let mut depth: usize = 1;
    while from < n
        invariant
            n == ev@.len(),
            k < from <= n,
            1 <= depth <= from - k,
            close_index_from(ev@, from as int, depth as nat) == close_index(ev@, k as int),
        decreases n - from,
    {
        match &ev[from] {
            DomEvent::Close => {
                if depth <= 1 {
                    return from;
                }
                depth = depth - 1;
            },
            _ => {
                depth = depth + 1;
            },
        }
        from = from + 1;
    }
    from
}

/// The text of the node entered at `k`; see `subtree_text`.
pub fn text_of(ev: &Vec<DomEvent>, k: usize) -> (t: String)
    requires
        k < ev@.len(),
    ensures
        t@ == subtree_text(ev@, k as int),
{
    let end = close_of(ev, k);
    let mut t = String::new();
    let mut i = k + 1;
    while i < end
        invariant
            k + 1 <= i <= end,
            end <= ev@.len(),
            k < end,
            t@ == texts_between(ev@, k + 1, i as int),
        decreases end - i,
    {
        match &ev[i] {
            DomEvent::Text(s) => {
                t.push_str(s.as_str());
            },
            _ => {},
        }
        i = i + 1;
    }
    t
}

/// The element has `class` among its classes.
pub open spec fn has_class(d: ElementData, class: Seq<char>) -> bool {
    exists|i: int| 0 <= i < d.classes@.len() && #[trigger] d.classes@[i]@ == class
}

/// The first index at or after `k` where the walk enters an element with class `class`.
pub open spec fn first_with_class_from(ev: Seq<DomEvent>, k: int, class: Seq<char>) -> Option<int>
    decreases ev.len() - k,
{
    if k < 0 || k >= ev.len() {
        None
    } else if ev[k] matches DomEvent::Open(d) && has_class(d, class) {
        Some(k)
    } else {
        first_with_class_from(ev, k + 1, class)
    }
}

/// The first descendant element with class `class` in document order, as the selector
/// `.class` finds it with `ElementRef::select` on the element whose walk is `ev` (the
/// element itself is not among the candidates).
pub open spec fn first_with_class(ev: Seq<DomEvent>, class: Seq<char>) -> Option<int> {
    first_with_class_from(ev, 1, class)
}

fn element_has_class(d: &ElementData, class: &Vec<char>) -> (b: bool)
    ensures
        b == has_class(*d, class@),
{
    let mut i: usize = 0;
    while i < d.classes.len()
        invariant
            i <= d.classes@.len(),
            forall|j: int| 0 <= j < i ==> d.classes@[j]@ != class@,
        decreases d.classes@.len() - i,
    {
        let c = chars_of(d.classes[i].as_str());
        if chars_eq(&c, class) {
            return true;
        }
        i = i + 1;
    }
    false
}

/// The first descendant element with the given class; see `first_with_class`.
pub fn find_with_class(ev: &Vec<DomEvent>, class: &str) -> (r: Option<usize>)
    ensures
        match r {
            Some(k) => first_with_class(ev@, class@) == Some(k as int) && 0 < k < ev@.len(),
            None => first_with_class(ev@, class@) is None,
        },
{
    let class_chars = chars_of(class);
    let mut k: usize = 1;
    while k < ev.len()
        invariant
            1 <= k,
            class_chars@ == class@,
            first_with_class_from(ev@, k as int, class@) == first_with_class(ev@, class@),
        decreases ev@.len() - k,
    {
        match &ev[k] {
            DomEvent::Open(d) => {
                if element_has_class(d, &class_chars) {
                    return Some(k);
                }
            },
            _ => {},
        }
        k = k + 1;
    }
    None
}

proof fn lemma_first_with_class_from(ev: Seq<DomEvent>, k: int, class: Seq<char>)
    requires
        0 <= k,
    ensures
        first_with_class_from(ev, k, class) matches Some(j) ==> k <= j < ev.len()
            && (ev[j] matches DomEvent::Open(d) && has_class(d, class))
            && forall|i: int| k <= i < j ==> !(#[trigger] ev[i] matches DomEvent::Open(d) && has_class(d, class)),
        first_with_class_from(ev, k, class) is None ==> forall|i: int|
            k <= i < ev.len() ==> !(#[trigger] ev[i] matches DomEvent::Open(d) && has_class(d, class)),
    decreases ev.len() - k,
{
    if k < ev.len() && !(ev[k] matches DomEvent::Open(d) && has_class(d, class)) {
        lemma_first_with_class_from(ev, k + 1, class);
    }
}

/// `first_with_class` finds the first element with the class after the walk's own element:
/// what it finds has the class, and nothing between has; when it finds nothing, no element
/// after the first has the class.
pub proof fn lemma_first_with_class(ev: Seq<DomEvent>, class: Seq<char>)
    ensures
        first_with_class(ev, class) matches Some(j) ==> 1 <= j < ev.len()
            && (ev[j] matches DomEvent::Open(d) && has_class(d, class))
            && forall|i: int| 1 <= i < j ==> !(#[trigger] ev[i] matches DomEvent::Open(d) && has_class(d, class)),
        first_with_class(ev, class) is None ==> forall|i: int|
            1 <= i < ev.len() ==> !(#[trigger] ev[i] matches DomEvent::Open(d) && has_class(d, class)),
{
    lemma_first_with_class_from(ev, 1, class);
}

} // verus!
