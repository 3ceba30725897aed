//! From the nodes of an HTML document body to the element tree: the tag whitelist, text
//! merging, and the rule that an element holds either text or child elements.
use vstd::prelude::*;
use crate::dom::{ElementId, ElementData, ElementTree, ElemView, attrs_view, elems_view, string_seq_view, tree_wf, ranked_by};
use crate::text::{is_ws, is_whitespace, trim, chars_of, string_of, trim_chars, chars_between, chars_eq};

verus! {

/// A node of a parsed HTML document, as the HTML parser hands it over.
pub enum RawNode {
    Element(RawElement),
    Text(String),
    Other,
}

/// An element of a parsed HTML document: tag name, attributes in source order, child nodes.
pub struct RawElement {
    pub tag: String,
    pub attrs: Vec<(String, String)>,
    pub children: Vec<RawNode>,
}

// ---------------------------------------------------------------------------
// What an element reads as.
// ---------------------------------------------------------------------------

/// The tags of the whitelist.
pub open spec fn fence_tag(t: Seq<char>) -> bool {
    t == "div"@ || t == "span"@ || t == "img"@ || t == "button"@ || t == "l-container"@
}

pub open spec fn fence_message(tag: Seq<char>) -> Seq<char> {
    "围栏外元素 <"@ + tag + "> 不支持，用 div/span/img/button 或 l-rich"@
}

pub open spec fn mix_message(tag: Seq<char>) -> Seq<char> {
    "行内混排不支持（div 只装 flex item）：元素 <"@ + tag + "> 同时含文本与子元素，改用单个文本或 l-rich"@
}

/// The value of the first attribute named `key`.
pub open spec fn attr_value(a: Seq<(Seq<char>, Seq<char>)>, key: Seq<char>) -> Option<Seq<char>>
    decreases a.len(),
{
    if a.len() == 0 {
        None
    } else if a[0].0 == key {
        Some(a[0].1)
    } else {
        attr_value(a.drop_first(), key)
    }
}

/// End of the whitespace run starting at `i`.
pub open spec fn ws_skip(s: Seq<char>, i: int) -> int
    decreases s.len() - i,
{
    if 0 <= i < s.len() && is_ws(s[i]) {
        ws_skip(s, i + 1)
    } else {
        i
    }
}

/// End of the run of non-whitespace starting at `i`.
pub open spec fn word_end(s: Seq<char>, i: int) -> int
    decreases s.len() - i,
{
    if 0 <= i < s.len() && !is_ws(s[i]) {
        word_end(s, i + 1)
    } else {
        i
    }
}

pub proof fn lemma_ws_skip(s: Seq<char>, i: int)
    requires
        0 <= i <= s.len(),
    ensures
        i <= ws_skip(s, i) <= s.len(),
        ws_skip(s, i) < s.len() ==> !is_ws(s[ws_skip(s, i)]),
    decreases s.len() - i,
{
    if i < s.len() && is_ws(s[i]) {
        lemma_ws_skip(s, i + 1);
    }
}

pub proof fn lemma_word_end(s: Seq<char>, i: int)
    requires
        0 <= i <= s.len(),
    ensures
        i <= word_end(s, i) <= s.len(),
        i < s.len() && !is_ws(s[i]) ==> i < word_end(s, i),
    decreases s.len() - i,
{
    if i < s.len() && !is_ws(s[i]) {
        lemma_word_end(s, i + 1);
    }
}

/// The whitespace-separated words of `s` from position `i` on.
pub open spec fn words_from(s: Seq<char>, i: int) -> Seq<Seq<char>>
    decreases s.len() - i,
{
    if i < 0 || i >= s.len() {
        Seq::empty()
    } else {
        let a = ws_skip(s, i);
        if a >= s.len() {
            Seq::empty()
        } else {
            let b = word_end(s, a);
            proof {
                lemma_ws_skip(s, i);
                lemma_word_end(s, a);
            }
            seq![s.subrange(a, b)] + words_from(s, b)
        }
    }
}

/// The words of a `class` attribute (none without one).
pub open spec fn classes_of(a: Seq<(Seq<char>, Seq<char>)>) -> Seq<Seq<char>> {
    match attr_value(a, "class"@) {
        Some(v) => words_from(v, 0),
        None => Seq::empty(),
    }
}

/// The trimmed, non-empty texts among the nodes, in order.
pub open spec fn text_parts(cs: Seq<RawNode>) -> Seq<Seq<char>>
    decreases cs.len(),
{
    if cs.len() == 0 {
        Seq::empty()
    } else {
        let p = text_parts(cs.drop_last());
        match cs.last() {
            RawNode::Text(t) => if trim(t@).len() > 0 {
                p.push(trim(t@))
            } else {
                p
            },
            _ => p,
        }
    }
}

/// Some node is an element.
pub open spec fn has_element(cs: Seq<RawNode>) -> bool {
    exists|i: int| 0 <= i < cs.len() && (#[trigger] cs[i]) is Element
}

/// The parts joined by single spaces.
pub open spec fn join_space(p: Seq<Seq<char>>) -> Seq<char>
    decreases p.len(),
{
    if p.len() == 0 {
        Seq::empty()
    } else if p.len() == 1 {
        p[0]
    } else {
        join_space(p.drop_last()) + seq![' '] + p.last()
    }
}

pub open spec fn text_of(cs: Seq<RawNode>) -> Option<Seq<char>> {
    if text_parts(cs).len() > 0 {
        Some(join_space(text_parts(cs)))
    } else {
        None
    }
}

/// The element that a raw element becomes, with the given parent and child ids.
pub open spec fn raw_elem_view(e: RawElement, parent: Option<ElementId>, ids: Seq<ElementId>) -> ElemView {
    ElemView {
        tag: e.tag@,
        classes: classes_of(attrs_view(e.attrs@)),
        id: attr_value(attrs_view(e.attrs@), "id"@),
        attrs: attrs_view(e.attrs@),
        text: text_of(e.children@),
        children: ids,
        parent,
    }
}

/// The elements of an element's subtree in the order they are numbered (the element first,
/// then each child element's subtree in order), numbering from `start`; or the message of the
/// first element, in that order, whose tag is outside the whitelist or which holds both text
/// and child elements.
pub open spec fn spec_build(e: RawElement, parent: Option<ElementId>, start: nat) -> Result<Seq<ElemView>, Seq<char>>
    decreases e, 1nat, 0nat,
{
    if !fence_tag(e.tag@) {
        Err(fence_message(e.tag@))
    } else if text_parts(e.children@).len() > 0 && has_element(e.children@) {
        Err(mix_message(e.tag@))
    } else {
        match spec_build_children(e, e.children@.len(), start, start + 1) {
            Err(m) => Err(m),
            Ok((vs, ids)) => Ok(seq![raw_elem_view(e, parent, ids)] + vs),
        }
    }
}

/// The subtrees of the child elements among the first `k` children of `e`, whose parent is
/// element `pidx`, numbered from `first`, with the ids of those children.
pub open spec fn spec_build_children(e: RawElement, k: nat, pidx: nat, first: nat) -> Result<(Seq<ElemView>, Seq<ElementId>), Seq<char>>
    decreases e, 0nat, k,
{
    if k == 0 || k > e.children@.len() {
        Ok((Seq::empty(), Seq::empty()))
    } else {
        match spec_build_children(e, (k - 1) as nat, pidx, first) {
            Err(m) => Err(m),
            Ok((vs, ids)) => match e.children@[k - 1] {
                RawNode::Element(c) => {
                    proof {
                        assert(decreases_to!(e => e.children));
                        assert(decreases_to!(e.children => e.children@));
                        assert(decreases_to!(e.children@ => e.children@[k - 1]));
                    }
                    match spec_build(c, Some(ElementId(pidx as usize)), first + vs.len()) {
                        Err(m) => Err(m),
                        Ok(cvs) => Ok((vs + cvs, ids.push(ElementId((first + vs.len()) as usize)))),
                    }
                },
                _ => Ok((vs, ids)),
            },
        }
    }
}

/// The trees of the element nodes among the first `k` body nodes, numbered from `first`,
/// with the ids of their roots.
pub open spec fn spec_build_forest(body: Seq<RawNode>, k: nat, first: nat) -> Result<(Seq<ElemView>, Seq<ElementId>), Seq<char>>
    decreases k,
{
    if k == 0 || k > body.len() {
        Ok((Seq::empty(), Seq::empty()))
    } else {
        match spec_build_forest(body, (k - 1) as nat, first) {
            Err(m) => Err(m),
            Ok((vs, ids)) => match body[k - 1] {
                RawNode::Element(c) => match spec_build(c, None, first + vs.len()) {
                    Err(m) => Err(m),
                    Ok(cvs) => Ok((vs + cvs, ids.push(ElementId((first + vs.len()) as usize)))),
                },
                _ => Ok((vs, ids)),
            },
        }
    }
}

proof fn lemma_children_err_stays(e: RawElement, k: nat, j: nat, pidx: nat, first: nat)
    requires
        k <= j <= e.children@.len(),
        spec_build_children(e, k, pidx, first) is Err,
    ensures
        spec_build_children(e, j, pidx, first) == spec_build_children(e, k, pidx, first),
    decreases j - k,
{
    if j > k {
        lemma_children_err_stays(e, k, (j - 1) as nat, pidx, first);
    }
}

proof fn lemma_forest_err_stays(body: Seq<RawNode>, k: nat, j: nat, first: nat)
    requires
        k <= j <= body.len(),
        spec_build_forest(body, k, first) is Err,
    ensures
        spec_build_forest(body, j, first) == spec_build_forest(body, k, first),
    decreases j - k,
{
    if j > k {
        lemma_forest_err_stays(body, k, (j - 1) as nat, first);
    }
}


// ---------------------------------------------------------------------------
// Building.
// ---------------------------------------------------------------------------

fn is_fence_tag(tag: &String) -> (b: bool)
    ensures
        b == fence_tag(tag@),
{
    let t = chars_of(tag.as_str());
    let div = chars_of("div");
    let span = chars_of("span");
    let img = chars_of("img");
    let button = chars_of("button");
    let lc = chars_of("l-container");
    chars_eq(t.as_slice(), div.as_slice()) || chars_eq(t.as_slice(), span.as_slice()) || chars_eq(
        t.as_slice(),
        img.as_slice(),
    ) || chars_eq(t.as_slice(), button.as_slice()) || chars_eq(t.as_slice(), lc.as_slice())
}

fn fence_error(tag: &String) -> (m: String)
    ensures
        m@ == fence_message(tag@),
{
    let mut m = String::from_str("围栏外元素 <");
    m.append(tag.as_str());
    m.append("> 不支持，用 div/span/img/button 或 l-rich");
    m
}

fn mix_error(tag: &String) -> (m: String)
    ensures
        m@ == mix_message(tag@),
{
    let mut m = String::from_str("行内混排不支持（div 只装 flex item）：元素 <");
    m.append(tag.as_str());
    m.append("> 同时含文本与子元素，改用单个文本或 l-rich");
    m
}

/// The value of the first attribute named `key`.
pub(crate) fn attr_lookup(attrs: &Vec<(String, String)>, key: &str) -> (r: Option<String>)
    ensures
        r matches Some(v) ==> attr_value(attrs_view(attrs@), key@) == Some(v@),
        r is None ==> attr_value(attrs_view(attrs@), key@) is None,
{
    let k = String::from_str(key);
    assert(attrs_view(attrs@).skip(0) =~= attrs_view(attrs@));
    let mut i: usize = 0;
    while i < attrs.len()
        invariant
            i <= attrs@.len(),
            k@ == key@,
            attr_value(attrs_view(attrs@), key@) == attr_value(attrs_view(attrs@).skip(i as int), key@),
        decreases attrs@.len() - i,
    {
        proof {
            let a = attrs_view(attrs@).skip(i as int);
            assert(a[0] == (attrs@[i as int].0@, attrs@[i as int].1@));
            assert(a.drop_first() =~= attrs_view(attrs@).skip(i + 1));
        }
        if attrs[i].0 == k {
            return Some(attrs[i].1.clone());
        }
        i = i + 1;
    }
    None
}

/// The whitespace-separated words of a string.
fn split_words(s: &String) -> (out: Vec<String>)
    ensures
        string_seq_view(out@) == words_from(s@, 0),
{
    let cs = chars_of(s.as_str());
    let ghost sv = cs@;
    let mut out: Vec<String> = Vec::new();
    let mut i: usize = 0;
    while i < cs.len()
        invariant
            i <= cs@.len(),
            sv == cs@,
            sv == s@,
            words_from(sv, 0) == string_seq_view(out@) + words_from(sv, i as int),
        ensures
            words_from(sv, 0) == string_seq_view(out@),
        decreases cs@.len() - i,
    {
        let mut a = i;
        while a < cs.len() && is_whitespace(cs[a])
            invariant
                i <= a <= cs@.len(),
                ws_skip(cs@, i as int) == ws_skip(cs@, a as int),
            decreases cs@.len() - a,
        {
            a = a + 1;
        }
        proof {
            lemma_ws_skip(sv, i as int);
        }
        if a >= cs.len() {
            assert(string_seq_view(out@) + words_from(sv, i as int) =~= string_seq_view(out@));
            break;
        }
        let mut b = a;
        while b < cs.len() && !is_whitespace(cs[b])
            invariant
                a <= b <= cs@.len(),
                word_end(cs@, a as int) == word_end(cs@, b as int),
            decreases cs@.len() - b,
        {
            b = b + 1;
        }
        proof {
            lemma_word_end(sv, a as int);
        }
        let w = string_of(chars_between(cs.as_slice(), a, b).as_slice());
        let ghost before = string_seq_view(out@);
        out.push(w);
        proof {
            assert(string_seq_view(out@) =~= before.push(sv.subrange(a as int, b as int)));
            assert(before.push(sv.subrange(a as int, b as int)) + words_from(sv, b as int) =~= before + (seq![sv.subrange(a as int, b as int)] + words_from(sv, b as int)));
        }
        i = b;
        if i >= cs.len() {
            assert(string_seq_view(out@) + words_from(sv, i as int) =~= string_seq_view(out@));
        }
    }
    out
}

/// The trimmed non-empty text parts of the children, and whether a child is an element.
fn scan_children(cs: &Vec<RawNode>) -> (r: (Vec<Vec<char>>, bool))
    ensures
        r.0@.map_values(|p: Vec<char>| p@) == text_parts(cs@),
        r.1 == has_element(cs@),
{
    let mut parts: Vec<Vec<char>> = Vec::new();
    let mut has_el = false;
    let mut k: usize = 0;
    while k < cs.len()
        invariant
            k <= cs@.len(),
            parts@.map_values(|p: Vec<char>| p@) == text_parts(cs@.take(k as int)),
            has_el == has_element(cs@.take(k as int)),
        decreases cs@.len() - k,
    {
        let ghost before = parts@.map_values(|p: Vec<char>| p@);
        proof {
            assert(cs@.take(k + 1).drop_last() =~= cs@.take(k as int));
            assert(cs@.take(k + 1).last() == cs@[k as int]);
        }
        match &cs[k] {
            RawNode::Text(t) => {
                let tc = chars_of(t.as_str());
                let tt = trim_chars(tc.as_slice());
                if tt.len() > 0 {
                    parts.push(tt);
                    assert(parts@.map_values(|p: Vec<char>| p@) =~= before.push(trim(t@)));
                }
            },
            RawNode::Element(_) => {
                has_el = true;
            },
            RawNode::Other => {},
        }
        proof {
            let t1 = cs@.take(k + 1);
            if has_element(t1) && !(cs@[k as int] is Element) {
                let i = choose|i: int| 0 <= i < t1.len() && (#[trigger] t1[i]) is Element;
                assert(cs@.take(k as int)[i] == t1[i]);
            }
            if has_element(cs@.take(k as int)) {
                let i = choose|i: int| 0 <= i < cs@.take(k as int).len() && (#[trigger] cs@.take(k as int)[i]) is Element;
                assert(t1[i] == cs@.take(k as int)[i]);
            }
            if cs@[k as int] is Element {
                assert(t1[k as int] is Element);
            }
        }
        k = k + 1;
    }
    assert(cs@.take(cs@.len() as int) =~= cs@);
    (parts, has_el)
}

/// The parts joined by single spaces.
fn join_parts(parts: &Vec<Vec<char>>) -> (s: String)
    ensures
        s@ == join_space(parts@.map_values(|p: Vec<char>| p@)),
{
    let ghost pv = parts@.map_values(|p: Vec<char>| p@);
    let mut out: Vec<char> = Vec::new();
    let mut k: usize = 0;
    while k < parts.len()
        invariant
            k <= parts@.len(),
            pv == parts@.map_values(|p: Vec<char>| p@),
            out@ == join_space(pv.take(k as int)),
        decreases parts@.len() - k,
    {
        let ghost before = out@;
        if k > 0 {
            out.push(' ');
        }
        let p = &parts[k];
        let mut j: usize = 0;
        let ghost mid = out@;
        while j < p.len()
            invariant
                j <= p@.len(),
                out@ == mid + p@.take(j as int),
            decreases p@.len() - j,
        {
            out.push(p[j]);
            assert(p@.take(j + 1) =~= p@.take(j as int).push(p@[j as int]));
            j = j + 1;
        }
        proof {
            assert(p@.take(p@.len() as int) =~= p@);
            let t = pv.take(k + 1);
            assert(t.drop_last() =~= pv.take(k as int));
            assert(t.last() == p@);
            if k == 0 {
                assert(t.len() == 1 && t[0] == p@);
                assert(out@ =~= p@);
            } else {
                assert(out@ =~= before + seq![' '] + p@);
            }
        }
        k = k + 1;
    }
    assert(pv.take(pv.len() as int) =~= pv);
    string_of(out.as_slice())
}

pub(crate) fn clone_attrs(a: &Vec<(String, String)>) -> (out: Vec<(String, String)>)
    ensures
        attrs_view(out@) == attrs_view(a@),
{
    let mut out: Vec<(String, String)> = Vec::new();
    let mut i: usize = 0;
    while i < a.len()
        invariant
            i <= a@.len(),
            attrs_view(out@) == attrs_view(a@).take(i as int),
        decreases a@.len() - i,
    {
        let ghost before = attrs_view(out@);
        out.push((a[i].0.clone(), a[i].1.clone()));
        assert(attrs_view(out@) =~= before.push((a@[i as int].0@, a@[i as int].1@)));
        assert(attrs_view(a@).take(i + 1) =~= attrs_view(a@).take(i as int).push((a@[i as int].0@, a@[i as int].1@)));
        i = i + 1;
    }
    assert(attrs_view(a@).take(a@.len() as int) =~= attrs_view(a@));
    out
}


/// Adds the subtree of `el` to the tree, with parent `parent`: the element itself, numbered
/// next, then its child elements' subtrees in order. Fails on a tag outside the whitelist or
/// on an element holding both text and child elements.
pub fn build_element(tree: &mut ElementTree, el: &RawElement, parent: Option<ElementId>) -> (r: Result<ElementId, String>)
    ensures
        r matches Ok(id) ==> {
            &&& id.0 == old(tree).nodes@.len()
            &&& old(tree).nodes@.len() < final(tree).nodes@.len()
            &&& elems_view(final(tree).nodes@).take(old(tree).nodes@.len() as int) == elems_view(old(tree).nodes@)
            &&& spec_build(*el, parent, old(tree).nodes@.len()) == Ok::<Seq<ElemView>, Seq<char>>(
                elems_view(final(tree).nodes@).skip(old(tree).nodes@.len() as int),
            )
        },
        r matches Err(m) ==> spec_build(*el, parent, old(tree).nodes@.len()) == Err::<Seq<ElemView>, Seq<char>>(m@),
        final(tree).roots@ == old(tree).roots@,
    decreases el,
{
    if !is_fence_tag(&el.tag) {
        return Err(fence_error(&el.tag));
    }
    let (parts, has_el) = scan_children(&el.children);
    if parts.len() > 0 && has_el {
        return Err(mix_error(&el.tag));
    }
    let id_attr = attr_lookup(&el.attrs, "id");
    let classes = match attr_lookup(&el.attrs, "class") {
        Some(c) => split_words(&c),
        None => Vec::new(),
    };
    let attrs = clone_attrs(&el.attrs);
    let text = if parts.len() > 0 {
        Some(join_parts(&parts))
    } else {
        None
    };
    let idx = tree.nodes.len();
    let ghost old_view = elems_view(tree.nodes@);
    tree.nodes.push(ElementData {
        tag: String::new(),
        classes: Vec::new(),
        id: None,
        attrs: Vec::new(),
        text: None,
        children: Vec::new(),
        parent,
    });
    let my_id = ElementId(idx);
    let mut children_ids: Vec<ElementId> = Vec::new();
    proof {
        assert(elems_view(tree.nodes@).skip(idx + 1) =~= Seq::<ElemView>::empty());
        assert(elems_view(tree.nodes@).take(idx as int) =~= old_view);
    }
    let mut k: usize = 0;
    while k < el.children.len()
        invariant
            k <= el.children@.len(),
            idx == old(tree).nodes@.len(),
            old_view == elems_view(old(tree).nodes@),
            my_id.0 == idx,
            tree.nodes@.len() >= idx + 1,
            tree.roots@ == old(tree).roots@,
            fence_tag(el.tag@),
            !(text_parts(el.children@).len() > 0 && has_element(el.children@)),
            elems_view(tree.nodes@).take(idx as int) == old_view,
            spec_build_children(*el, k as nat, idx as nat, (idx + 1) as nat) == Ok::<(Seq<ElemView>, Seq<ElementId>), Seq<char>>(
                (elems_view(tree.nodes@).skip(idx + 1), children_ids@),
            ),
        decreases el.children@.len() - k,
    {
        match &el.children[k] {
            RawNode::Element(c) => {
                proof {
                    assert(decreases_to!(el => el.children));
                    assert(decreases_to!(el.children => el.children@));
                    assert(decreases_to!(el.children@ => el.children@[k as int]));
                }
                let ghost before = elems_view(tree.nodes@);
                let ghost len0 = tree.nodes@.len();
                let r = build_element(tree, c, Some(my_id));
                match r {
                    Ok(cid) => {
                        proof {
                            assert(len0 >= idx + 1);
                            let after = elems_view(tree.nodes@);
                            assert(after.take(idx as int) =~= after.take(len0 as int).take(idx as int));
                            assert(after.skip(idx + 1) =~= before.skip(idx + 1) + after.skip(len0 as int)) by {
                                assert(after.take(len0 as int) == before);
                            }
                        }
                        children_ids.push(cid);
                    },
                    Err(m) => {
                        proof {
                            lemma_children_err_stays(*el, (k + 1) as nat, el.children@.len(), idx as nat, (idx + 1) as nat);
                        }
                        return Err(m);
                    },
                }
            },
            _ => {},
        }
        k = k + 1;
    }
    let node = ElementData {
        tag: el.tag.clone(),
        classes,
        id: id_attr,
        attrs,
        text,
        children: children_ids,
        parent,
    };
    let ghost nv = node@;
    let ghost before = elems_view(tree.nodes@);
    tree.nodes.set(idx, node);
    proof {
        let after = elems_view(tree.nodes@);
        assert(after =~= before.update(idx as int, nv));
        assert(after.take(idx as int) =~= before.take(idx as int));
        assert(after.skip(idx as int) =~= seq![nv] + before.skip(idx + 1));
        let rv = raw_elem_view(*el, parent, nv.children);
        assert(nv.tag == rv.tag);
        assert(nv.classes == rv.classes);
        assert(nv.id == rv.id);
        assert(nv.attrs == rv.attrs);
        assert(nv.text == rv.text);
        assert(nv.parent == rv.parent);
        assert(nv == rv);
    }
    Ok(my_id)
}

/// The element tree of a document body: each element node of the body becomes a root, numbered
/// in document order. Fails as `build_element` does.
pub fn parse_body(body: &Vec<RawNode>) -> (r: Result<ElementTree, String>)
    ensures
        r matches Ok(t) ==> spec_build_forest(body@, body@.len(), 0) == Ok::<(Seq<ElemView>, Seq<ElementId>), Seq<char>>(
            (elems_view(t.nodes@), t.roots@),
        ),
        r matches Ok(t) ==> tree_wf(t),
        r matches Err(m) ==> spec_build_forest(body@, body@.len(), 0) == Err::<(Seq<ElemView>, Seq<ElementId>), Seq<char>>(m@),
{
    let mut tree = ElementTree { roots: Vec::new(), nodes: Vec::new() };
    assert(elems_view(tree.nodes@) =~= Seq::<ElemView>::empty());
    let mut k: usize = 0;
    while k < body.len()
        invariant
            k <= body@.len(),
            spec_build_forest(body@, k as nat, 0) == Ok::<(Seq<ElemView>, Seq<ElementId>), Seq<char>>(
                (elems_view(tree.nodes@), tree.roots@),
            ),
        decreases body@.len() - k,
    {
        match &body[k] {
            RawNode::Element(c) => {
                let ghost before = elems_view(tree.nodes@);
                let ghost len0 = tree.nodes@.len();
                match build_element(&mut tree, c, None) {
                    Ok(id) => {
                        proof {
                            let after = elems_view(tree.nodes@);
                            assert(after =~= before + after.skip(len0 as int)) by {
                                assert(after.take(len0 as int) == before);
                            }
                        }
                        tree.roots.push(id);
                    },
                    Err(m) => {
                        proof {
                            lemma_forest_err_stays(body@, (k + 1) as nat, body@.len(), 0);
                        }
                        return Err(m);
                    },
                }
            },
            _ => {},
        }
        k = k + 1;
    }
    let n = tree.nodes.len();
    proof {
        law_parsed_tree_fenced(body@, tree);
    }
    Ok(tree)
}


// ---------------------------------------------------------------------------
// What every built tree satisfies.
// ---------------------------------------------------------------------------

/// Element `i` of `vs`, numbered `first + i`, has a whitelisted tag, does not hold both text and
/// child elements, and has its parent numbered before itself.
pub open spec fn built_ok(vs: Seq<ElemView>, first: int, i: int) -> bool {
    &&& fence_tag(vs[i].tag)
    &&& !(vs[i].text is Some && vs[i].children.len() > 0)
    &&& (vs[i].parent matches Some(p) ==> p.0 < first + i)
}

pub open spec fn all_built_ok(vs: Seq<ElemView>, first: int) -> bool {
    forall|i: int| 0 <= i < vs.len() ==> #[trigger] built_ok(vs, first, i)
}

proof fn lemma_concat_ok(a: Seq<ElemView>, b: Seq<ElemView>, first: int)
    requires
        all_built_ok(a, first),
        all_built_ok(b, first + a.len()),
    ensures
        all_built_ok(a + b, first),
{
    assert forall|i: int| 0 <= i < (a + b).len() implies #[trigger] built_ok(a + b, first, i) by {
        if i < a.len() {
            assert((a + b)[i] == a[i]);
            assert(built_ok(a, first, i));
        } else {
            assert((a + b)[i] == b[i - a.len()]);
            assert(built_ok(b, first + a.len(), i - a.len()));
        }
    }
}

proof fn lemma_build_ok(e: RawElement, parent: Option<ElementId>, start: nat, vs: Seq<ElemView>)
    requires
        spec_build(e, parent, start) == Ok::<Seq<ElemView>, Seq<char>>(vs),
        parent matches Some(p) ==> p.0 < start,
        start + vs.len() <= usize::MAX,
    ensures
        all_built_ok(vs, start as int),
        vs.len() >= 1,
    decreases e, 1nat, 0nat,
{
    match spec_build_children(e, e.children@.len(), start, start + 1) {
        Ok((cvs, ids)) => {
            lemma_build_children_ok(e, e.children@.len(), start, start + 1, cvs, ids);
            let v0 = raw_elem_view(e, parent, ids);
            assert(vs == seq![v0] + cvs);
            if v0.text is Some && ids.len() > 0 {
                assert(has_element(e.children@));
            }
            assert(built_ok(seq![v0], start as int, 0));
            lemma_concat_ok(seq![v0], cvs, start as int);
        },
        Err(_) => {},
    }
}

proof fn lemma_build_children_ok(e: RawElement, k: nat, pidx: nat, first: nat, vs: Seq<ElemView>, ids: Seq<ElementId>)
    requires
        spec_build_children(e, k, pidx, first) == Ok::<(Seq<ElemView>, Seq<ElementId>), Seq<char>>((vs, ids)),
        pidx < first,
        first + vs.len() <= usize::MAX,
    ensures
        all_built_ok(vs, first as int),
        ids.len() > 0 ==> has_element(e.children@),
    decreases e, 0nat, k,
{
    if k == 0 || k > e.children@.len() {
    } else {
        match spec_build_children(e, (k - 1) as nat, pidx, first) {
            Ok((pvs, pids)) => {
                match e.children@[k - 1] {
                    RawNode::Element(c) => {
                        assert(decreases_to!(e => e.children));
                        assert(decreases_to!(e.children => e.children@));
                        assert(decreases_to!(e.children@ => e.children@[k - 1]));
                        match spec_build(c, Some(ElementId(pidx as usize)), first + pvs.len()) {
                            Ok(cvs) => {
                                assert(vs == pvs + cvs);
                                lemma_build_children_ok(e, (k - 1) as nat, pidx, first, pvs, pids);
                                lemma_build_ok(c, Some(ElementId(pidx as usize)), first + pvs.len(), cvs);
                                lemma_concat_ok(pvs, cvs, first as int);
                                assert(e.children@[k - 1] is Element);
                            },
                            Err(_) => {},
                        }
                    },
                    _ => {
                        lemma_build_children_ok(e, (k - 1) as nat, pidx, first, pvs, pids);
                    },
                }
            },
            Err(_) => {},
        }
    }
}

proof fn lemma_forest_ok(body: Seq<RawNode>, k: nat, vs: Seq<ElemView>, ids: Seq<ElementId>)
    requires
        spec_build_forest(body, k, 0) == Ok::<(Seq<ElemView>, Seq<ElementId>), Seq<char>>((vs, ids)),
        vs.len() <= usize::MAX,
    ensures
        all_built_ok(vs, 0),
    decreases k,
{
    if k == 0 || k > body.len() {
    } else {
        match spec_build_forest(body, (k - 1) as nat, 0) {
            Ok((pvs, pids)) => {
                match body[k - 1] {
                    RawNode::Element(c) => {
                        match spec_build(c, None, pvs.len()) {
                            Ok(cvs) => {
                                assert(vs == pvs + cvs);
                                lemma_forest_ok(body, (k - 1) as nat, pvs, pids);
                                lemma_build_ok(c, None, pvs.len(), cvs);
                                lemma_concat_ok(pvs, cvs, 0);
                            },
                            Err(_) => {},
                        }
                    },
                    _ => {
                        lemma_forest_ok(body, (k - 1) as nat, pvs, pids);
                    },
                }
            },
            Err(_) => {},
        }
    }
}

/// A tree read from a document body: every element's tag is on the whitelist, no element
/// holds both text and child elements, and parent links go to earlier elements, so the tree is
/// well formed.
pub proof fn law_parsed_tree_fenced(body: Seq<RawNode>, t: ElementTree)
    requires
        spec_build_forest(body, body.len(), 0) == Ok::<(Seq<ElemView>, Seq<ElementId>), Seq<char>>(
            (elems_view(t.nodes@), t.roots@),
        ),
        t.nodes@.len() <= usize::MAX,
    ensures
        tree_wf(t),
        forall|i: int|
            0 <= i < t.nodes@.len() ==> fence_tag(#[trigger] t.nodes@[i].tag@) && !(t.nodes@[i].text is Some
                && t.nodes@[i].children@.len() > 0),
{
    let vs = elems_view(t.nodes@);
    lemma_forest_ok(body, body.len(), vs, t.roots@);
    assert forall|i: int| 0 <= i < t.nodes@.len() implies fence_tag(#[trigger] t.nodes@[i].tag@) && !(t.nodes@[i].text is Some
        && t.nodes@[i].children@.len() > 0) by {
        assert(built_ok(vs, 0, i));
        assert(vs[i] == t.nodes@[i]@);
    }
    let rank = |i: int| i as nat;
    assert forall|i: int| 0 <= i < t.nodes@.len() implies match #[trigger] t.nodes@[i].parent {
        Some(p) => p.0 < t.nodes@.len(),
        None => true,
    } by {
        assert(built_ok(vs, 0, i));
        assert(vs[i] == t.nodes@[i]@);
    }
    assert(ranked_by(t, rank)) by {
        assert forall|i: int| 0 <= i < t.nodes@.len() implies match #[trigger] t.nodes@[i].parent {
            Some(p) => rank(p.0 as int) < rank(i),
            None => true,
        } by {
            assert(built_ok(vs, 0, i));
            assert(vs[i] == t.nodes@[i]@);
        }
    }
}

} // verus!
