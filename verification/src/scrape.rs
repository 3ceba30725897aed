//! HTML documents through scraper: the parsed document as a flat list of its nodes in document
//! order, each with its number of ancestors; from that list the child nodes of `<body>` as the
//! node tree that `parse_body` reads, and the stylesheet sources of a component page.
use vstd::prelude::*;
use crate::dom::{ElementTree, ElementId, ElemView, attrs_view, elems_view, tree_wf};
use crate::html::{RawNode, RawElement, spec_build_forest, parse_body, clone_attrs};
use crate::text::{chars_of, chars_eq, string_of};
use crate::html::{attr_value, attr_lookup};
use crate::inline_css::{stylesheet_at, rel_is_stylesheet};

verus! {

/// One node of a parsed document: an element (tag and attributes in order), a text, or any
/// other node.
pub enum ScrapedNode {
    Element(String, Vec<(String, String)>),
    Text(String),
    Other,
}

/// Mathematical model of a `ScrapedNode`.
pub enum ScrapedView {
    Element(Seq<char>, Seq<(Seq<char>, Seq<char>)>),
    Text(Seq<char>),
    Other,
}

pub open spec fn scraped_view(n: ScrapedNode) -> ScrapedView {
    match n {
        ScrapedNode::Element(t, a) => ScrapedView::Element(t@, attrs_view(a@)),
        ScrapedNode::Text(s) => ScrapedView::Text(s@),
        ScrapedNode::Other => ScrapedView::Other,
    }
}

pub open spec fn flat_view(v: Seq<(usize, ScrapedNode)>) -> Seq<(usize, ScrapedView)> {
    Seq::new(v.len(), |i: int| (v[i].0, scraped_view(v[i].1)))
}

/// What scraper makes of an HTML text: every node of the document from the document node down,
/// in document order, each with its number of ancestors.
pub uninterp spec fn scraped_document(html: Seq<char>) -> Seq<(usize, ScrapedView)>;

/// Calls `scraper::Html::parse_document` and walks the document tree (`descendants`, with
/// `ancestors().count()` for each node), turning each node into a `ScrapedNode`. The contract
/// names the result `scraped_document(html)`: it depends on the text alone.
#[verifier::external_body]
fn scrape_document(html: &str) -> (r: Vec<(usize, ScrapedNode)>)
    ensures
        flat_view(r@) == scraped_document(html@),
{
    let doc = scraper::Html::parse_document(html);
    doc.tree.root().descendants().map(|n| (n.ancestors().count(), match n.value() {
        scraper::Node::Element(e) => ScrapedNode::Element(
            e.name().to_string(),
            e.attrs().map(|(k, v)| (k.to_string(), v.to_string())).collect(),
        ),
        scraper::Node::Text(t) => ScrapedNode::Text(t.text.to_string()),
        _ => ScrapedNode::Other,
    })).collect()
}

// ---------------------------------------------------------------------------
// Raw nodes as values.
// ---------------------------------------------------------------------------

/// Mathematical model of a `RawNode`.
pub enum RawNodeView {
    Element(RawElemView),
    Text(Seq<char>),
    Other,
}

/// Mathematical model of a `RawElement`.
pub struct RawElemView {
    pub tag: Seq<char>,
    pub attrs: Seq<(Seq<char>, Seq<char>)>,
    pub children: Seq<RawNodeView>,
}

pub open spec fn raw_node_model(n: RawNode) -> RawNodeView
    decreases n, 0int,
{
    match n {
        RawNode::Element(e) => RawNodeView::Element(raw_element_model(e)),
        RawNode::Text(t) => RawNodeView::Text(t@),
        RawNode::Other => RawNodeView::Other,
    }
}

pub open spec fn raw_element_model(e: RawElement) -> RawElemView
    decreases e, 0int,
{
    proof {
        assert(decreases_to!(e => e.children));
        assert(decreases_to!(e.children => e.children@));
    }
    RawElemView { tag: e.tag@, attrs: attrs_view(e.attrs@), children: raw_nodes_model(e.children@, e.children@.len() as int) }
}

/// The models of the first `k` nodes.
pub open spec fn raw_nodes_model(cs: Seq<RawNode>, k: int) -> Seq<RawNodeView>
    decreases cs, k,
{
    if k <= 0 || k > cs.len() {
        Seq::empty()
    } else {
        raw_nodes_model(cs, k - 1).push(raw_node_model(cs[k - 1]))
    }
}

proof fn lemma_nodes_model_prefix(s: Seq<RawNode>, x: RawNode, k: int)
    requires
        0 <= k <= s.len(),
    ensures
        raw_nodes_model(s.push(x), k) == raw_nodes_model(s, k),
    decreases k,
{
    if k > 0 {
        lemma_nodes_model_prefix(s, x, k - 1);
        assert(s.push(x)[k - 1] == s[k - 1]);
    }
}

proof fn lemma_nodes_model_push(s: Seq<RawNode>, x: RawNode)
    ensures
        raw_nodes_model(s.push(x), (s.len() + 1) as int) == raw_nodes_model(s, s.len() as int).push(raw_node_model(x)),
{
    lemma_nodes_model_prefix(s, x, s.len() as int);
    assert(s.push(x)[s.len() as int] == x);
}

proof fn lemma_nodes_model_len(s: Seq<RawNode>, k: int)
    requires
        0 <= k <= s.len(),
    ensures
        raw_nodes_model(s, k).len() == k,
    decreases k,
{
    if k > 0 {
        lemma_nodes_model_len(s, k - 1);
    }
}

// ---------------------------------------------------------------------------
// From the flat list to the node tree.
// ---------------------------------------------------------------------------

/// The end of the subtree of node `i`: the first position from `j` on whose node has no more
/// ancestors than node `i`.
pub open spec fn sub_end(f: Seq<(usize, ScrapedView)>, i: int, j: int) -> int
    decreases f.len() - j,
{
    if 0 <= j < f.len() && 0 <= i < f.len() && f[j].0 > f[i].0 {
        sub_end(f, i, j + 1)
    } else {
        j
    }
}

/// Node `j` of the list with its subtree.
pub open spec fn node_at(f: Seq<(usize, ScrapedView)>, j: int) -> RawNodeView
    decreases f.len() - j, 0int,
{
    if j < 0 || j >= f.len() {
        RawNodeView::Other
    } else {
        match f[j].1 {
            ScrapedView::Element(t, a) => RawNodeView::Element(
                RawElemView { tag: t, attrs: a, children: kids(f, j + 1, sub_end(f, j, j + 1)) },
            ),
            ScrapedView::Text(s) => RawNodeView::Text(s),
            ScrapedView::Other => RawNodeView::Other,
        }
    }
}

/// The nodes from position `j` up to `end` that are not inside an earlier one of them, each with
/// its subtree.
pub open spec fn kids(f: Seq<(usize, ScrapedView)>, j: int, end: int) -> Seq<RawNodeView>
    decreases f.len() - j, 1int,
{
    if j < 0 || j >= end || j >= f.len() {
        Seq::empty()
    } else {
        let e = sub_end(f, j, j + 1);
        if j < e <= f.len() {
            seq![node_at(f, j)] + kids(f, e, end)
        } else {
            seq![node_at(f, j)]
        }
    }
}

/// The position of the first `<body>` element from `i` on.
pub open spec fn find_body(f: Seq<(usize, ScrapedView)>, i: int) -> Option<int>
    decreases f.len() - i,
{
    if i < 0 || i >= f.len() {
        None
    } else if f[i].1 matches ScrapedView::Element(t, _) && t == "body"@ {
        Some(i)
    } else {
        find_body(f, i + 1)
    }
}

/// The child nodes of the first `<body>` element of a flat list, or none without one.
pub open spec fn flat_body(f: Seq<(usize, ScrapedView)>) -> Option<Seq<RawNodeView>> {
    match find_body(f, 0) {
        Some(b) => Some(kids(f, b + 1, sub_end(f, b, b + 1))),
        None => None,
    }
}

/// The child nodes of the first `<body>` element of the document, or none without one.
pub open spec fn body_nodes(html: Seq<char>) -> Option<Seq<RawNodeView>> {
    flat_body(scraped_document(html))
}

proof fn lemma_sub_end(f: Seq<(usize, ScrapedView)>, i: int, j: int)
    requires
        0 <= j <= f.len(),
    ensures
        j <= sub_end(f, i, j) <= f.len(),
    decreases f.len() - j,
{
    if 0 <= j < f.len() && 0 <= i < f.len() && f[j].0 > f[i].0 {
        lemma_sub_end(f, i, j + 1);
    }
}

fn sub_end_exec(f: &Vec<(usize, ScrapedNode)>, i: usize) -> (e: usize)
    requires
        i < f@.len(),
    ensures
        e as int == sub_end(flat_view(f@), i as int, i + 1),
        i < e <= f@.len(),
{
    let ghost fv = flat_view(f@);
    let n = f.len();
    let mut j = i + 1;
    while j < f.len() && f[j].0 > f[i].0
        invariant
            i < j <= f@.len(),
            fv == flat_view(f@),
            sub_end(fv, i as int, i + 1) == sub_end(fv, i as int, j as int),
        decreases f@.len() - j,
    {
        j = j + 1;
    }
    j
}

fn build_node(f: &Vec<(usize, ScrapedNode)>, j: usize) -> (n: RawNode)
    requires
        j < f@.len(),
    ensures
        raw_node_model(n) == node_at(flat_view(f@), j as int),
    decreases f@.len() - j, 0int,
{
    let ghost fv = flat_view(f@);
    assert(fv[j as int].1 == scraped_view(f@[j as int].1));
    match &f[j].1 {
        ScrapedNode::Element(t, a) => {
            let e = sub_end_exec(f, j);
            let cs = build_kids(f, j + 1, e);
            let el = RawElement { tag: t.clone(), attrs: clone_attrs(a), children: cs };
            proof {
                lemma_nodes_model_len(cs@, cs@.len() as int);
            }
            RawNode::Element(el)
        },
        ScrapedNode::Text(s) => RawNode::Text(s.clone()),
        ScrapedNode::Other => RawNode::Other,
    }
}

fn build_kids(f: &Vec<(usize, ScrapedNode)>, j: usize, end: usize) -> (v: Vec<RawNode>)
    requires
        end <= f@.len(),
    ensures
        raw_nodes_model(v@, v@.len() as int) == kids(flat_view(f@), j as int, end as int),
    decreases f@.len() - j, 1int,
{
    let ghost fv = flat_view(f@);
    let mut v: Vec<RawNode> = Vec::new();
    let mut pos = j;
    proof {
        assert(raw_nodes_model(v@, 0) + kids(fv, j as int, end as int) =~= kids(fv, j as int, end as int));
    }
    while pos < end
        invariant
            j <= pos,
            end <= f@.len(),
            fv == flat_view(f@),
            raw_nodes_model(v@, v@.len() as int) + kids(fv, pos as int, end as int) == kids(fv, j as int, end as int),
        decreases f@.len() - pos,
    {
        let n = build_node(f, pos);
        let e = sub_end_exec(f, pos);
        let ghost v0 = v@;
        v.push(n);
        proof {
            lemma_nodes_model_push(v0, n);
            assert(kids(fv, pos as int, end as int) == seq![node_at(fv, pos as int)] + kids(fv, e as int, end as int));
            assert(raw_nodes_model(v@, v@.len() as int) + kids(fv, e as int, end as int)
                =~= raw_nodes_model(v0, v0.len() as int) + (seq![node_at(fv, pos as int)] + kids(fv, e as int, end as int)));
        }
        pos = e;
    }
    proof {
        assert(kids(fv, pos as int, end as int) =~= Seq::<RawNodeView>::empty());
        assert(raw_nodes_model(v@, v@.len() as int) + Seq::<RawNodeView>::empty() =~= raw_nodes_model(v@, v@.len() as int));
    }
    v
}

/// What `parse_body` gives on `b`, as `r` shows it.
pub open spec fn forest_result(b: Seq<RawNode>, r: Result<ElementTree, String>) -> bool {
    match r {
        Ok(t) => spec_build_forest(b, b.len(), 0) == Ok::<(Seq<ElemView>, Seq<ElementId>), Seq<char>>(
            (elems_view(t.nodes@), t.roots@),
        ) && tree_wf(t),
        Err(m) => spec_build_forest(b, b.len(), 0) == Err::<(Seq<ElemView>, Seq<ElementId>), Seq<char>>(m@),
    }
}

/// The child nodes of the first `<body>` element of a flat document list (see `flat_body`), each
/// with its subtree; `None` without a `<body>`.
pub fn body_children(f: &Vec<(usize, ScrapedNode)>) -> (r: Option<Vec<RawNode>>)
    ensures
        flat_body(flat_view(f@)) is None ==> r is None,
        flat_body(flat_view(f@)) matches Some(bv) ==> (r matches Some(v) && raw_nodes_model(v@, v@.len() as int) == bv),
{
    let ghost fv = flat_view(f@);
    let body = chars_of("body");
    proof {
        reveal_strlit("body");
    }
    let mut i: usize = 0;
    while i < f.len()
        invariant
            i <= f@.len(),
            fv == flat_view(f@),
            body@ == "body"@,
            find_body(fv, 0) == find_body(fv, i as int),
        decreases f@.len() - i,
    {
        let is_body = match &f[i].1 {
            ScrapedNode::Element(t, _) => {
                let tc = chars_of(t.as_str());
                chars_eq(tc.as_slice(), body.as_slice())
            },
            _ => false,
        };
        proof {
            assert(fv[i as int].1 == scraped_view(f@[i as int].1));
        }
        if is_body {
            let e = sub_end_exec(f, i);
            let nodes = build_kids(f, i + 1, e);
            proof {
                assert(find_body(fv, i as int) == Some(i as int));
            }
            return Some(nodes);
        }
        i = i + 1;
    }
    None
}

/// The element tree of an HTML document: `no body` without a `<body>` element; else what
/// `parse_body` gives on the child nodes of the first `<body>` (see `body_nodes`).
pub fn parse_html(html: &str) -> (r: Result<ElementTree, String>)
    ensures
        body_nodes(html@) is None ==> (r matches Err(e) && e@ == "no body"@),
        body_nodes(html@) matches Some(bv) ==> exists|b: Seq<RawNode>|
            #[trigger] raw_nodes_model(b, b.len() as int) == bv && forest_result(b, r),
{
    let f = scrape_document(html);
    match body_children(&f) {
        Some(nodes) => parse_body(&nodes),
        None => {
            proof {
                reveal_strlit("no body");
            }
            Err(String::from_str("no body"))
        },
    }
}

// ---------------------------------------------------------------------------
// Stylesheet sources of a component page.
// ---------------------------------------------------------------------------

/// The texts of the nodes from `j` up to `end`, joined.
pub open spec fn text_in(f: Seq<(usize, ScrapedView)>, j: int, end: int) -> Seq<char>
    decreases end - j,
{
    if j < 0 || j >= end || j >= f.len() {
        Seq::empty()
    } else {
        (match f[j].1 {
            ScrapedView::Text(s) => s,
            _ => Seq::empty(),
        }) + text_in(f, j + 1, end)
    }
}

/// Node `i` is an element with tag `tag`.
pub open spec fn element_named(f: Seq<(usize, ScrapedView)>, i: int, tag: Seq<char>) -> bool {
    f[i].1 matches ScrapedView::Element(t, _) && t == tag
}

pub open spec fn attrs_at(f: Seq<(usize, ScrapedView)>, i: int) -> Seq<(Seq<char>, Seq<char>)> {
    match f[i].1 {
        ScrapedView::Element(_, a) => a,
        _ => Seq::empty(),
    }
}

/// The text of every `<style>` element from position `i` on, in document order: all text in
/// its subtree.
pub open spec fn style_texts(f: Seq<(usize, ScrapedView)>, i: int) -> Seq<Seq<char>>
    decreases f.len() - i,
{
    if i < 0 || i >= f.len() {
        Seq::empty()
    } else if element_named(f, i, "style"@) {
        seq![text_in(f, i + 1, sub_end(f, i, i + 1))] + style_texts(f, i + 1)
    } else {
        style_texts(f, i + 1)
    }
}

/// The `href` of every `<link>` element from position `i` on whose `rel` names a stylesheet
/// (see `rel_is_stylesheet`) and which has an `href`, in document order.
pub open spec fn link_hrefs(f: Seq<(usize, ScrapedView)>, i: int) -> Seq<Seq<char>>
    decreases f.len() - i,
{
    if i < 0 || i >= f.len() {
        Seq::empty()
    } else if element_named(f, i, "link"@) && rel_names_stylesheet(attrs_at(f, i))
        && attr_value(attrs_at(f, i), "href"@) is Some {
        seq![attr_value(attrs_at(f, i), "href"@).unwrap()] + link_hrefs(f, i + 1)
    } else {
        link_hrefs(f, i + 1)
    }
}

/// The attributes have a `rel` that names a stylesheet.
pub open spec fn rel_names_stylesheet(a: Seq<(Seq<char>, Seq<char>)>) -> bool {
    match attr_value(a, "rel"@) {
        Some(r) => sheet_word_in(r),
        None => false,
    }
}

/// Some word of `r` is `stylesheet` up to ASCII case (see `stylesheet_at`).
pub open spec fn sheet_word_in(r: Seq<char>) -> bool {
    exists|k: int| stylesheet_at(r, k)
}

pub open spec fn strings_model(v: Seq<String>) -> Seq<Seq<char>> {
    v.map_values(|s: String| s@)
}

fn text_between(f: &Vec<(usize, ScrapedNode)>, a: usize, e: usize) -> (out: String)
    requires
        e <= f@.len(),
    ensures
        out@ == text_in(flat_view(f@), a as int, e as int),
{
    let ghost fv = flat_view(f@);
    let mut acc: Vec<char> = Vec::new();
    let mut j = a;
    while j < e
        invariant
            a <= j,
            e <= f@.len(),
            fv == flat_view(f@),
            acc@ + text_in(fv, j as int, e as int) == text_in(fv, a as int, e as int),
        decreases e - j,
    {
        proof {
            assert(fv[j as int].1 == scraped_view(f@[j as int].1));
        }
        let ghost acc0 = acc@;
        match &f[j].1 {
            ScrapedNode::Text(s) => {
                let cs = chars_of(s.as_str());
                let mut k: usize = 0;
                while k < cs.len()
                    invariant
                        k <= cs@.len(),
                        acc@ == acc0 + cs@.take(k as int),
                    decreases cs@.len() - k,
                {
                    acc.push(cs[k]);
                    proof {
                        assert(cs@.take(k + 1) =~= cs@.take(k as int).push(cs@[k as int]));
                    }
                    k = k + 1;
                }
                proof {
                    assert(cs@.take(cs@.len() as int) =~= cs@);
                }
            },
            _ => {},
        }
        proof {
            let piece = match fv[j as int].1 {
                ScrapedView::Text(s) => s,
                _ => Seq::empty(),
            };
            assert(acc@ == acc0 + piece);
            assert(acc0 + (piece + text_in(fv, j + 1, e as int)) =~= acc@ + text_in(fv, j + 1, e as int));
        }
        j = j + 1;
    }
    proof {
        assert(acc@ + Seq::<char>::empty() =~= acc@);
    }
    string_of(acc.as_slice())
}

fn named(f: &Vec<(usize, ScrapedNode)>, i: usize, tag: &str) -> (b: bool)
    requires
        i < f@.len(),
    ensures
        b == element_named(flat_view(f@), i as int, tag@),
{
    proof {
        assert(flat_view(f@)[i as int].1 == scraped_view(f@[i as int].1));
    }
    match &f[i].1 {
        ScrapedNode::Element(t, _) => {
            let tc = chars_of(t.as_str());
            let want = chars_of(tag);
            chars_eq(tc.as_slice(), want.as_slice())
        },
        _ => false,
    }
}

/// The stylesheet sources of a component page: the texts of its `<style>` elements (see
/// `style_texts`) and the `href`s of its stylesheet `<link>`s (see `link_hrefs`), both in
/// document order.
pub fn component_css_sources(html: &str) -> (r: (Vec<String>, Vec<String>))
    ensures
        strings_model(r.0@) == style_texts(scraped_document(html@), 0),
        strings_model(r.1@) == link_hrefs(scraped_document(html@), 0),
{
    let f = scrape_document(html);
    stylesheet_sources(&f)
}

/// The stylesheet sources of a flat document list: the texts of its `<style>` elements (see
/// `style_texts`) and the `href`s of its stylesheet `<link>`s (see `link_hrefs`), both in
/// document order.
pub fn stylesheet_sources(f: &Vec<(usize, ScrapedNode)>) -> (r: (Vec<String>, Vec<String>))
    ensures
        strings_model(r.0@) == style_texts(flat_view(f@), 0),
        strings_model(r.1@) == link_hrefs(flat_view(f@), 0),
{
    let ghost fv = flat_view(f@);
    let mut styles: Vec<String> = Vec::new();
    let mut hrefs: Vec<String> = Vec::new();
    let mut i: usize = 0;
    proof {
        assert(strings_model(styles@) + style_texts(fv, 0) =~= style_texts(fv, 0));
        assert(strings_model(hrefs@) + link_hrefs(fv, 0) =~= link_hrefs(fv, 0));
    }
    while i < f.len()
        invariant
            i <= f@.len(),
            fv == flat_view(f@),
            strings_model(styles@) + style_texts(fv, i as int) == style_texts(fv, 0),
            strings_model(hrefs@) + link_hrefs(fv, i as int) == link_hrefs(fv, 0),
        decreases f@.len() - i,
    {
        proof {
            reveal_strlit("style");
            reveal_strlit("link");
            assert(fv[i as int].1 == scraped_view(f@[i as int].1));
        }
        let ghost s0 = styles@;
        let ghost h0 = hrefs@;
        if named(f, i, "style") {
            let e = sub_end_exec(f, i);
            let t = text_between(f, i + 1, e);
            styles.push(t);
            proof {
                assert(strings_model(styles@) =~= strings_model(s0).push(t@));
                assert(strings_model(s0).push(t@) + style_texts(fv, i + 1) =~= strings_model(s0) + (seq![t@] + style_texts(fv, i + 1)));
            }
        }
        let is_link = named(f, i, "link");
        let mut took = false;
        if is_link {
            match &f[i].1 {
                ScrapedNode::Element(_, a) => {
                    proof {
                        assert(attrs_at(fv, i as int) == attrs_view(a@));
                    }
                    let rel = attr_lookup(a, "rel");
                    let href = attr_lookup(a, "href");
                    let rel_ok = match &rel {
                        Some(rv) => {
                            let rs = rv.as_str();
                            let b = rel_is_stylesheet(rs);
                            proof {
                                assert(attr_value(attrs_at(fv, i as int), "rel"@) == Some(rv@));
                                assert(b == sheet_word_in(rv@));
                                assert(b == rel_names_stylesheet(attrs_at(fv, i as int)));
                            }
                            b
                        },
                        None => {
                            proof {
                                assert(attr_value(attrs_at(fv, i as int), "rel"@) is None);
                                assert(!rel_names_stylesheet(attrs_at(fv, i as int)));
                            }
                            false
                        },
                    };
                    proof {
                        assert(rel_ok == rel_names_stylesheet(attrs_at(fv, i as int)));
                    }
                    if rel_ok {
                        if let Some(h) = href {
                            hrefs.push(h);
                            took = true;
                            proof {
                                assert(strings_model(hrefs@) =~= strings_model(h0).push(h@));
                                assert(link_hrefs(fv, i as int) == seq![h@] + link_hrefs(fv, i + 1));
                                assert(strings_model(h0).push(h@) + link_hrefs(fv, i + 1) =~= strings_model(h0) + (seq![h@] + link_hrefs(fv, i + 1)));
                            }
                        }
                    }
                },
                _ => {},
            }
        }
        proof {
            if !took {
                assert(link_hrefs(fv, i as int) == link_hrefs(fv, i + 1));
                assert(hrefs@ == h0);
            }
        }
        i = i + 1;
    }
    proof {
        assert(strings_model(styles@) + Seq::<Seq<char>>::empty() =~= strings_model(styles@));
        assert(strings_model(hrefs@) + Seq::<Seq<char>>::empty() =~= strings_model(hrefs@));
    }
    (styles, hrefs)
}

} // verus!
