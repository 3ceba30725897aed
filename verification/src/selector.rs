//! Selector model, parsing and matching against an element tree.
use vstd::prelude::*;
use vstd::utf8::encode_utf8;
use crate::dom::{ElementData, ElementId, ElementTree, tree_wf, ranked_by, parent_of, nth_ancestor, lemma_nth_ancestor_none, lemma_nth_ancestor_in_bounds};
use crate::css::Rule;
use crate::text::{is_ws, is_whitespace, trim, trim_bounds, string_of, chars_of};

verus! {

/// How a compound relates to the compound before it.
#[derive(Debug, Clone, Copy, PartialEq, Eq)]
pub enum Combinator {
    Descendant,
    Child,
}

/// Specificity as (number of ids, number of classes, number of tags).
#[derive(Debug, Clone, Copy, PartialEq, Eq, PartialOrd, Ord)]
pub struct Specificity(pub u32, pub u32, pub u32);

/// One compound selector: optional tag, classes, optional id, and pseudo-class gates.
#[derive(Debug, Clone)]
pub struct Compound {
    pub tag: Option<String>,
    pub classes: Vec<String>,
    pub id: Option<String>,
    pub combinator: Combinator,
    pub pseudo_hover: bool,
    pub pseudo_active: bool,
    pub pseudo_disabled: bool,
    pub pseudo_focus: bool,
}

/// A parsed selector: the trimmed source text, the compound chain and its specificity.
#[derive(Debug, Clone)]
pub struct ParsedSelector {
    pub raw: String,
    pub compound: Vec<Compound>,
    pub specificity: Specificity,
}

/// Mathematical model of a compound.
pub struct CompoundModel {
    pub tag: Option<Seq<char>>,
    pub classes: Seq<Seq<char>>,
    pub id: Option<Seq<char>>,
    pub combinator: Combinator,
    pub pseudo_hover: bool,
    pub pseudo_active: bool,
    pub pseudo_disabled: bool,
    pub pseudo_focus: bool,
}

/// Mathematical model of a parsed selector.
pub struct SelectorModel {
    pub raw: Seq<char>,
    pub compound: Seq<CompoundModel>,
    pub specificity: Specificity,
}

pub open spec fn opt_view(o: Option<String>) -> Option<Seq<char>> {
    match o {
        Some(s) => Some(s@),
        None => None,
    }
}

pub open spec fn strings_view(v: Seq<String>) -> Seq<Seq<char>> {
    v.map_values(|s: String| s@)
}

impl View for Compound {
    type V = CompoundModel;

    open spec fn view(&self) -> CompoundModel {
        CompoundModel {
            tag: opt_view(self.tag),
            classes: strings_view(self.classes@),
            id: opt_view(self.id),
            combinator: self.combinator,
            pseudo_hover: self.pseudo_hover,
            pseudo_active: self.pseudo_active,
            pseudo_disabled: self.pseudo_disabled,
            pseudo_focus: self.pseudo_focus,
        }
    }
}

impl View for ParsedSelector {
    type V = SelectorModel;

    open spec fn view(&self) -> SelectorModel {
        SelectorModel {
            raw: self.raw@,
            compound: self.compound@.map_values(|c: Compound| c@),
            specificity: self.specificity,
        }
    }
}

// ---------------------------------------------------------------------------
// Splitting the selector text into compound texts.
// ---------------------------------------------------------------------------

/// Characters that separate compounds: whitespace and `>`.
pub open spec fn is_sep(c: char) -> bool {
    c == '>' || is_ws(c)
}

/// Length of the leading run of characters satisfying (`sep`) or not satisfying (`!sep`) `is_sep`.
pub open spec fn run_len(s: Seq<char>, sep: bool) -> nat
    decreases s.len(),
{
    if s.len() == 0 || is_sep(s[0]) != sep {
        0
    } else {
        1 + run_len(s.drop_first(), sep)
    }
}

pub proof fn lemma_run_len(s: Seq<char>, sep: bool)
    ensures
        run_len(s, sep) <= s.len(),
        forall|k: int| 0 <= k < run_len(s, sep) ==> is_sep(#[trigger] s[k]) == sep,
        run_len(s, sep) < s.len() ==> is_sep(s[run_len(s, sep) as int]) != sep,
    decreases s.len(),
{
    if s.len() > 0 && is_sep(s[0]) == sep {
        lemma_run_len(s.drop_first(), sep);
        assert forall|k: int| 0 <= k < run_len(s, sep) implies is_sep(#[trigger] s[k]) == sep by {
            if k > 0 {
                assert(s[k] == s.drop_first()[k - 1]);
            }
        }
    }
}

pub proof fn lemma_run_len_exact(s: Seq<char>, sep: bool, n: int)
    requires
        0 <= n <= s.len(),
        forall|k: int| 0 <= k < n ==> is_sep(#[trigger] s[k]) == sep,
        n < s.len() ==> is_sep(s[n]) != sep,
    ensures
        run_len(s, sep) == n,
    decreases n,
{
    if n > 0 {
        let d = s.drop_first();
        assert forall|k: int| 0 <= k < n - 1 implies is_sep(#[trigger] d[k]) == sep by {
            assert(d[k] == s[k + 1]);
        }
        if n - 1 < d.len() {
            assert(d[n - 1] == s[n]);
        }
        lemma_run_len_exact(d, sep, n - 1);
    }
}

/// The compound texts of `s` with their combinators. Compound texts are the maximal runs of
/// non-separator characters; a compound after the first is a `Child` exactly when the separator
/// run before it holds a `>`, else a `Descendant`; the first is always `Descendant`.
pub open spec fn parts_from(s: Seq<char>, first: bool) -> Seq<(Seq<char>, Combinator)>
    decreases s.len(),
{
    let k = run_len(s, true);
    let rest = s.skip(k as int);
    if rest.len() == 0 {
        seq![]
    } else {
        let m = run_len(rest, false);
        let comb = if !first && s.take(k as int).contains('>') {
            Combinator::Child
        } else {
            Combinator::Descendant
        };
        if m == 0 {
            seq![]
        } else {
            proof {
                lemma_run_len(s, true);
                lemma_run_len(rest, false);
            }
            seq![(rest.take(m as int), comb)] + parts_from(rest.skip(m as int), false)
        }
    }
}


pub open spec fn parts_view(v: Seq<(Vec<char>, Combinator)>) -> Seq<(Seq<char>, Combinator)> {
    v.map_values(|p: (Vec<char>, Combinator)| (p.0@, p.1))
}

fn is_sep_exec(c: char) -> (b: bool)
    ensures
        b == is_sep(c),
{
    c == '>' || is_whitespace(c)
}

/// Splits selector text into compound texts and their combinators.
fn split_parts(s: &[char]) -> (out: Vec<(Vec<char>, Combinator)>)
    ensures
        parts_view(out@) == parts_from(s@, true),
{
    let mut out: Vec<(Vec<char>, Combinator)> = Vec::new();
    let mut i: usize = 0;
    let mut first = true;
    proof {
        assert(s@.skip(0) =~= s@);
        assert(parts_view(out@) + parts_from(s@, true) =~= parts_from(s@, true));
    }
    loop
        invariant
            i <= s@.len(),
            parts_view(out@) + parts_from(s@.skip(i as int), first) == parts_from(s@, true),
            first ==> out@.len() == 0,
        decreases s@.len() - i,
    {
        let start = i;
        let mut gt = false;
        while i < s.len() && is_sep_exec(s[i])
            invariant
                start <= i <= s@.len(),
                forall|k: int| start <= k < i ==> is_sep(#[trigger] s@[k]),
                gt == s@.subrange(start as int, i as int).contains('>'),
            decreases s@.len() - i,
        {
            let ghost prev = s@.subrange(start as int, i as int);
            proof {
                assert(s@.subrange(start as int, i + 1) =~= prev.push(s@[i as int]));
                let nxt = prev.push(s@[i as int]);
                if s@[i as int] == '>' {
                    assert(nxt[nxt.len() - 1] == '>');
                } else if prev.contains('>') {
                    let w = choose|w: int| 0 <= w < prev.len() && prev[w] == '>';
                    assert(nxt[w] == '>');
                } else {
                    assert forall|w: int| 0 <= w < nxt.len() implies nxt[w] != '>' by {
                        if w < prev.len() {
                            assert(nxt[w] == prev[w]);
                        }
                    }
                }
            }
            if s[i] == '>' {
                gt = true;
            }
            i = i + 1;
        }
        let ghost u = s@.skip(start as int);
        proof {
            lemma_run_len_exact(u, true, (i - start) as int);
            assert(u.skip((i - start) as int) =~= s@.skip(i as int));
            assert(u.take((i - start) as int) =~= s@.subrange(start as int, i as int));
        }
        if i == s.len() {
            proof {
                assert(parts_from(u, first) =~= Seq::<(Seq<char>, Combinator)>::empty());
                assert(parts_view(out@) + parts_from(u, first) =~= parts_view(out@));
            }
            return out;
        }
        let tstart = i;
        let mut token: Vec<char> = Vec::new();
        while i < s.len() && !is_sep_exec(s[i])
            invariant
                tstart <= i <= s@.len(),
                forall|k: int| tstart <= k < i ==> !is_sep(#[trigger] s@[k]),
                token@ == s@.subrange(tstart as int, i as int),
            decreases s@.len() - i,
        {
            token.push(s[i]);
            proof {
                assert(s@.subrange(tstart as int, i + 1) =~= s@.subrange(tstart as int, i as int).push(s@[i as int]));
            }
            i = i + 1;
        }
        let comb = if !first && gt {
            Combinator::Child
        } else {
            Combinator::Descendant
        };
        let ghost rest = s@.skip(tstart as int);
        proof {
            lemma_run_len_exact(rest, false, (i - tstart) as int);
            assert(rest.take((i - tstart) as int) =~= token@);
            assert(rest.skip((i - tstart) as int) =~= s@.skip(i as int));
            assert(parts_from(u, first) == seq![(token@, comb)] + parts_from(s@.skip(i as int), false));
        }
        let ghost old_out = out@;
        out.push((token, comb));
        proof {
            assert(parts_view(out@) =~= parts_view(old_out).push((token@, comb)));
            assert(parts_view(out@) + parts_from(s@.skip(i as int), false) =~= parts_view(old_out)
                + parts_from(u, first));
        }
        first = false;
    }
}


// ---------------------------------------------------------------------------
// Reading one compound text: segments between `.`, `#` and `:`.
// ---------------------------------------------------------------------------

pub open spec fn is_delim(b: u8) -> bool {
    b == 46 || b == 35 || b == 58
}

/// Kind byte of the segment before the first delimiter (the tag).
pub open spec fn tag_kind() -> u8 {
    116
}

/// Length of the leading run of non-delimiter bytes.
pub open spec fn free_len(bs: Seq<u8>) -> nat
    decreases bs.len(),
{
    if bs.len() == 0 || is_delim(bs[0]) {
        0
    } else {
        1 + free_len(bs.drop_first())
    }
}

pub proof fn lemma_free_len_exact(bs: Seq<u8>, n: int)
    requires
        0 <= n <= bs.len(),
        forall|k: int| 0 <= k < n ==> !is_delim(#[trigger] bs[k]),
        n < bs.len() ==> is_delim(bs[n]),
    ensures
        free_len(bs) == n,
    decreases n,
{
    if n > 0 {
        let d = bs.drop_first();
        assert forall|k: int| 0 <= k < n - 1 implies !is_delim(#[trigger] d[k]) by {
            assert(d[k] == bs[k + 1]);
        }
        if n - 1 < d.len() {
            assert(d[n - 1] == bs[n]);
        }
        lemma_free_len_exact(d, n - 1);
    }
}

pub proof fn lemma_free_len_bound(bs: Seq<u8>)
    ensures
        free_len(bs) <= bs.len(),
    decreases bs.len(),
{
    if bs.len() > 0 && !is_delim(bs[0]) {
        lemma_free_len_bound(bs.drop_first());
    }
}

/// The segments of a compound's bytes: each delimiter starts a segment whose kind is that
/// delimiter; the part before the first delimiter has kind `kind`.
pub open spec fn segs_from(bs: Seq<u8>, kind: u8) -> Seq<(u8, Seq<u8>)>
    decreases bs.len(),
{
    let m = free_len(bs);
    if m >= bs.len() {
        seq![(kind, bs)]
    } else {
        seq![(kind, bs.take(m as int))] + segs_from(bs.skip(m + 1 as int), bs[m as int])
    }
}

/// The last non-empty segment of the given kind.
pub open spec fn seg_last(segs: Seq<(u8, Seq<u8>)>, kind: u8) -> Option<Seq<u8>>
    decreases segs.len(),
{
    if segs.len() == 0 {
        None
    } else if segs.last().0 == kind && segs.last().1.len() > 0 {
        Some(segs.last().1)
    } else {
        seg_last(segs.drop_last(), kind)
    }
}

/// The non-empty class segments, in order.
pub open spec fn seg_classes(segs: Seq<(u8, Seq<u8>)>) -> Seq<Seq<u8>>
    decreases segs.len(),
{
    if segs.len() == 0 {
        seq![]
    } else if segs.last().0 == 46 && segs.last().1.len() > 0 {
        seg_classes(segs.drop_last()).push(segs.last().1)
    } else {
        seg_classes(segs.drop_last())
    }
}

/// Some pseudo-class segment names `name`.
pub open spec fn seg_has(segs: Seq<(u8, Seq<u8>)>, name: Seq<u8>) -> bool {
    exists|i: int| 0 <= i < segs.len() && segs[i].0 == 58 && #[trigger] segs[i].1 == name
}

/// Bytes read one byte per character.
pub open spec fn latin1(bs: Seq<u8>) -> Seq<char> {
    bs.map_values(|b: u8| b as char)
}

pub open spec fn opt_latin1(o: Option<Seq<u8>>) -> Option<Seq<char>> {
    match o {
        Some(b) => Some(latin1(b)),
        None => None,
    }
}

pub open spec fn name_hover() -> Seq<u8> {
    seq![104u8, 111, 118, 101, 114]
}

pub open spec fn name_active() -> Seq<u8> {
    seq![97u8, 99, 116, 105, 118, 101]
}

pub open spec fn name_disabled() -> Seq<u8> {
    seq![100u8, 105, 115, 97, 98, 108, 101, 100]
}

pub open spec fn name_focus() -> Seq<u8> {
    seq![102u8, 111, 99, 117, 115]
}

/// The compound that a compound text reads as. The text is read byte by byte over its UTF-8
/// encoding, each byte standing for one character.
pub open spec fn compound_of(t: Seq<char>, comb: Combinator) -> CompoundModel {
    let segs = segs_from(encode_utf8(t), tag_kind());
    CompoundModel {
        tag: opt_latin1(seg_last(segs, tag_kind())),
        classes: seg_classes(segs).map_values(|b: Seq<u8>| latin1(b)),
        id: opt_latin1(seg_last(segs, 35)),
        combinator: comb,
        pseudo_hover: seg_has(segs, name_hover()),
        pseudo_active: seg_has(segs, name_active()),
        pseudo_disabled: seg_has(segs, name_disabled()),
        pseudo_focus: seg_has(segs, name_focus()),
    }
}

pub open spec fn segs_view(v: Seq<(u8, Vec<u8>)>) -> Seq<(u8, Seq<u8>)> {
    v.map_values(|p: (u8, Vec<u8>)| (p.0, p.1@))
}

/// Splits a compound's bytes into segments.
fn split_segments(bs: &[u8]) -> (out: Vec<(u8, Vec<u8>)>)
    ensures
        segs_view(out@) == segs_from(bs@, tag_kind()),
{
    let mut out: Vec<(u8, Vec<u8>)> = Vec::new();
    let mut i: usize = 0;
    let mut kind: u8 = 116;
    proof {
        assert(bs@.skip(0) =~= bs@);
        assert(segs_view(out@) + segs_from(bs@, tag_kind()) =~= segs_from(bs@, tag_kind()));
    }
    loop
        invariant
            i <= bs@.len(),
            segs_view(out@) + segs_from(bs@.skip(i as int), kind) == segs_from(bs@, tag_kind()),
        decreases bs@.len() - i,
    {
        let start = i;
        let mut cur: Vec<u8> = Vec::new();
        while i < bs.len() && !(bs[i] == 46 || bs[i] == 35 || bs[i] == 58)
            invariant
                start <= i <= bs@.len(),
                forall|k: int| start <= k < i ==> !is_delim(#[trigger] bs@[k]),
                cur@ == bs@.subrange(start as int, i as int),
            decreases bs@.len() - i,
        {
            cur.push(bs[i]);
            proof {
                assert(bs@.subrange(start as int, i + 1) =~= bs@.subrange(start as int, i as int).push(bs@[i as int]));
            }
            i = i + 1;
        }
        let ghost u = bs@.skip(start as int);
        proof {
            lemma_free_len_exact(u, (i - start) as int);
            assert(u.take((i - start) as int) =~= cur@);
        }
        let ghost old_out = out@;
        if i == bs.len() {
            proof {
                assert(u =~= cur@);
                assert(segs_from(u, kind) == seq![(kind, cur@)]);
            }
            out.push((kind, cur));
            proof {
                assert(segs_view(out@) =~= segs_view(old_out).push((kind, u)));
                assert(segs_view(out@) =~= segs_view(old_out) + segs_from(u, kind));
            }
            return out;
        }
        let d = bs[i];
        proof {
            assert(u.skip(i - start + 1) =~= bs@.skip(i + 1));
            assert(u[(i - start) as int] == d);
            assert(segs_from(u, kind) == seq![(kind, cur@)] + segs_from(bs@.skip(i + 1), d));
        }
        out.push((kind, cur));
        proof {
            assert(segs_view(out@) =~= segs_view(old_out).push((kind, u.take((i - start) as int))));
            assert(segs_view(out@) + segs_from(bs@.skip(i + 1), d) =~= segs_view(old_out)
                + segs_from(u, kind));
        }
        kind = d;
        i = i + 1;
    }
}


/// Reads bytes as characters, one per byte.
fn latin1_string(bs: &[u8]) -> (out: String)
    ensures
        out@ == latin1(bs@),
{
    let mut cs: Vec<char> = Vec::new();
    let mut i: usize = 0;
    while i < bs.len()
        invariant
            i <= bs@.len(),
            cs@ == latin1(bs@.take(i as int)),
        decreases bs@.len() - i,
    {
        cs.push(bs[i] as char);
        proof {
            assert(latin1(bs@.take(i + 1)) =~= latin1(bs@.take(i as int)).push(bs@[i as int] as char));
        }
        i = i + 1;
    }
    proof {
        assert(bs@.take(bs@.len() as int) =~= bs@);
    }
    string_of(cs.as_slice())
}

fn bytes_eq(a: &[u8], b: &[u8]) -> (r: bool)
    ensures
        r == (a@ == b@),
{
    if a.len() != b.len() {
        return false;
    }
    let mut i: usize = 0;
    while i < a.len()
        invariant
            i <= a@.len(),
            a@.len() == b@.len(),
            forall|k: int| 0 <= k < i ==> a@[k] == b@[k],
        decreases a@.len() - i,
    {
        if a[i] != b[i] {
            return false;
        }
        i = i + 1;
    }
    proof {
        assert(a@ =~= b@);
    }
    true
}

proof fn lemma_seg_has_push(segs: Seq<(u8, Seq<u8>)>, k: int, name: Seq<u8>)
    requires
        0 <= k < segs.len(),
    ensures
        seg_has(segs.take(k + 1), name) == (seg_has(segs.take(k), name) || (segs[k].0 == 58
            && segs[k].1 == name)),
{
    let a = segs.take(k);
    let b = segs.take(k + 1);
    if seg_has(a, name) {
        let w = choose|w: int| 0 <= w < a.len() && a[w].0 == 58 && #[trigger] a[w].1 == name;
        assert(b[w] == a[w]);
    }
    if segs[k].0 == 58 && segs[k].1 == name {
        assert(b[k] == segs[k]);
    }
    if seg_has(b, name) {
        let w = choose|w: int| 0 <= w < b.len() && b[w].0 == 58 && #[trigger] b[w].1 == name;
        if w < k {
            assert(a[w] == b[w]);
        }
    }
}

/// Reads one compound text.
fn compound_from_text(token: &[char], comb: Combinator) -> (c: Compound)
    ensures
        c@ == compound_of(token@, comb),
{
    let st = string_of(token);
    let bs = st.as_str().as_bytes();
    let segs = split_segments(bs);
    let ghost sv = segs_view(segs@);
    let mut tag: Option<Vec<u8>> = None;
    let mut id: Option<Vec<u8>> = None;
    let mut classes: Vec<Vec<u8>> = Vec::new();
    let mut hover = false;
    let mut active = false;
    let mut disabled = false;
    let mut focus = false;
    let mut k: usize = 0;
    proof {
        assert(sv.take(0) =~= Seq::<(u8, Seq<u8>)>::empty());
    }
    while k < segs.len()
        invariant
            k <= segs@.len(),
            sv == segs_view(segs@),
            sv.len() == segs@.len(),
            (match tag { Some(v) => Some(v@), None => None }) == seg_last(sv.take(k as int), 116),
            (match id { Some(v) => Some(v@), None => None }) == seg_last(sv.take(k as int), 35),
            classes@.map_values(|v: Vec<u8>| v@) == seg_classes(sv.take(k as int)),
            hover == seg_has(sv.take(k as int), name_hover()),
            active == seg_has(sv.take(k as int), name_active()),
            disabled == seg_has(sv.take(k as int), name_disabled()),
            focus == seg_has(sv.take(k as int), name_focus()),
        decreases segs@.len() - k,
    {
        let kind = segs[k].0;
        let val = &segs[k].1;
        let ghost pre = sv.take(k as int);
        let ghost post = sv.take(k + 1);
        proof {
            assert(post.drop_last() =~= pre);
            assert(post.last() == sv[k as int]);
            assert(sv[k as int] == (kind, val@));
            lemma_seg_has_push(sv, k as int, name_hover());
            lemma_seg_has_push(sv, k as int, name_active());
            lemma_seg_has_push(sv, k as int, name_disabled());
            lemma_seg_has_push(sv, k as int, name_focus());
        }
        if val.len() > 0 {
            if kind == 116 {
                tag = Some(val.clone());
            } else if kind == 35 {
                id = Some(val.clone());
            } else if kind == 46 {
                let ghost old_classes = classes@;
                classes.push(val.clone());
                proof {
                    assert(classes@.map_values(|v: Vec<u8>| v@) =~= old_classes.map_values(
                        |v: Vec<u8>| v@,
                    ).push(val@));
                }
            }
        }
        if kind == 58 {
            if bytes_eq(val.as_slice(), &[104u8, 111, 118, 101, 114]) {
                hover = true;
            }
            if bytes_eq(val.as_slice(), &[97u8, 99, 116, 105, 118, 101]) {
                active = true;
            }
            if bytes_eq(val.as_slice(), &[100u8, 105, 115, 97, 98, 108, 101, 100]) {
                disabled = true;
            }
            if bytes_eq(val.as_slice(), &[102u8, 111, 99, 117, 115]) {
                focus = true;
            }
        }
        k = k + 1;
    }
    proof {
        assert(sv.take(segs@.len() as int) =~= sv);
    }
    let tag_s = match &tag {
        Some(v) => Some(latin1_string(v.as_slice())),
        None => None,
    };
    let id_s = match &id {
        Some(v) => Some(latin1_string(v.as_slice())),
        None => None,
    };
    let mut class_s: Vec<String> = Vec::new();
    let mut j: usize = 0;
    while j < classes.len()
        invariant
            j <= classes@.len(),
            strings_view(class_s@) == classes@.take(j as int).map_values(|v: Vec<u8>| latin1(v@)),
        decreases classes@.len() - j,
    {
        let s1 = latin1_string(classes[j].as_slice());
        let ghost old_cs = class_s@;
        class_s.push(s1);
        proof {
            assert(strings_view(class_s@) =~= strings_view(old_cs).push(s1@));
            assert(classes@.take(j + 1).map_values(|v: Vec<u8>| latin1(v@)) =~= classes@.take(
                j as int,
            ).map_values(|v: Vec<u8>| latin1(v@)).push(latin1(classes@[j as int]@)));
        }
        j = j + 1;
    }
    proof {
        assert(classes@.take(classes@.len() as int) =~= classes@);
        let segs_c = seg_classes(sv);
        assert(classes@.map_values(|v: Vec<u8>| latin1(v@)) =~= segs_c.map_values(
            |b: Seq<u8>| latin1(b),
        ));
    }
    Compound {
        tag: tag_s,
        classes: class_s,
        id: id_s,
        combinator: comb,
        pseudo_hover: hover,
        pseudo_active: active,
        pseudo_disabled: disabled,
        pseudo_focus: focus,
    }
}


// ---------------------------------------------------------------------------
// The whole selector.
// ---------------------------------------------------------------------------

/// (ids, classes, tags) summed over the compounds.
pub open spec fn spec_counts(comps: Seq<CompoundModel>) -> (int, int, int)
    decreases comps.len(),
{
    if comps.len() == 0 {
        (0, 0, 0)
    } else {
        let r = spec_counts(comps.drop_last());
        let c = comps.last();
        (
            r.0 + if c.id is Some { 1int } else { 0int },
            r.1 + c.classes.len(),
            r.2 + if c.tag is Some { 1int } else { 0int },
        )
    }
}

/// The compounds that selector text reads as.
pub open spec fn spec_compounds(raw: Seq<char>) -> Seq<CompoundModel> {
    parts_from(trim(raw), true).map_values(|p: (Seq<char>, Combinator)| compound_of(p.0, p.1))
}

/// What `parse_selector` gives for `raw`: the trimmed text, its compounds, and the
/// specificity summed over them.
pub open spec fn spec_parse_selector(raw: Seq<char>) -> SelectorModel {
    let comps = spec_compounds(raw);
    let n = spec_counts(comps);
    SelectorModel {
        raw: trim(raw),
        compound: comps,
        specificity: Specificity(n.0 as u32, n.1 as u32, n.2 as u32),
    }
}

/// The id, class and tag counts of the selector text each fit in `u32`, the width of the
/// specificity counters.
#[verifier::opaque]
pub open spec fn counts_fit(raw: Seq<char>) -> bool {
    let n = spec_counts(spec_compounds(raw));
    n.0 <= u32::MAX && n.1 <= u32::MAX && n.2 <= u32::MAX
}

/// The counts over a first part of the compounds are at most those over all of them.
proof fn lemma_counts_prefix(comps: Seq<CompoundModel>, k: int)
    requires
        0 <= k <= comps.len(),
    ensures
        0 <= spec_counts(comps.take(k)).0 <= spec_counts(comps).0,
        0 <= spec_counts(comps.take(k)).1 <= spec_counts(comps).1,
        0 <= spec_counts(comps.take(k)).2 <= spec_counts(comps).2,
    decreases comps.len() - k,
{
    if k < comps.len() {
        lemma_counts_prefix(comps, k + 1);
        lemma_counts_nonneg(comps.take(k));
        assert(comps.take(k + 1).drop_last() =~= comps.take(k));
    } else {
        assert(comps.take(k) =~= comps);
        lemma_counts_nonneg(comps);
    }
}

proof fn lemma_counts_nonneg(comps: Seq<CompoundModel>)
    ensures
        spec_counts(comps).0 >= 0 && spec_counts(comps).1 >= 0 && spec_counts(comps).2 >= 0,
    decreases comps.len(),
{
    if comps.len() > 0 {
        lemma_counts_nonneg(comps.drop_last());
    }
}

/// Whether the selector text's id, class and tag counts each fit the specificity counters (see
/// `counts_fit`), so that `parse_selector` can take it.
pub fn selector_counts_fit(raw: &str) -> (b: bool)
    ensures
        b == counts_fit(raw@),
{
    proof {
        reveal(counts_fit);
    }
    let cs = chars_of(raw);
    let (a, e) = trim_bounds(cs.as_slice());
    let mut tv: Vec<char> = Vec::new();
    let mut i: usize = a;
    while i < e
        invariant
            a <= i <= e <= cs@.len(),
            tv@ == cs@.subrange(a as int, i as int),
        decreases e - i,
    {
        tv.push(cs[i]);
        proof {
            assert(cs@.subrange(a as int, i + 1) =~= cs@.subrange(a as int, i as int).push(cs@[i as int]));
        }
        i = i + 1;
    }
    let ghost t = trim(raw@);
    assert(tv@ == t);
    let parts = split_parts(tv.as_slice());
    let ghost pv = parts_view(parts@);
    let ghost target = spec_compounds(raw@);
    let mut n_id: u32 = 0;
    let mut n_class: u32 = 0;
    let mut n_tag: u32 = 0;
    let mut k: usize = 0;
    proof {
        assert(target.len() == pv.len());
        assert(target.take(0) =~= Seq::<CompoundModel>::empty());
    }
    while k < parts.len()
        invariant
            k <= parts@.len(),
            pv == parts_view(parts@),
            pv == parts_from(t, true),
            target == pv.map_values(|p: (Seq<char>, Combinator)| compound_of(p.0, p.1)),
            target == spec_compounds(raw@),
            n_id as int == spec_counts(target.take(k as int)).0,
            n_class as int == spec_counts(target.take(k as int)).1,
            n_tag as int == spec_counts(target.take(k as int)).2,
        decreases parts@.len() - k,
    {
        let c = compound_from_text(parts[k].0.as_slice(), parts[k].1);
        proof {
            assert(pv[k as int] == (parts@[k as int].0@, parts@[k as int].1));
            assert(target.take(k + 1).drop_last() =~= target.take(k as int));
            assert(target.take(k + 1).last() == c@);
            lemma_counts_prefix(target, k + 1);
            reveal(counts_fit);
        }
        let more_id: u32 = if c.id.is_some() { 1 } else { 0 };
        let more_tag: u32 = if c.tag.is_some() { 1 } else { 0 };
        if n_id > u32::MAX - more_id || n_tag > u32::MAX - more_tag || c.classes.len() > (u32::MAX - n_class) as usize {
            return false;
        }
        n_id = n_id + more_id;
        n_tag = n_tag + more_tag;
        n_class = n_class + c.classes.len() as u32;
        k = k + 1;
    }
    proof {
        assert(target.take(parts@.len() as int) =~= target);
    }
    true
}

/// Parses selector text: whitespace splits descendant compounds and `>` child compounds; within
/// a compound a tag, `.class`, `#id` and `:pseudo` parts. Parsing always succeeds.
pub fn parse_selector(raw: &str) -> (r: Result<ParsedSelector, String>)
    requires
        counts_fit(raw@),
    ensures
        r matches Ok(sel) && sel@ == spec_parse_selector(raw@),
{
    proof {
        reveal(counts_fit);
    }
    let cs = chars_of(raw);
    let (a, b) = trim_bounds(cs.as_slice());
    let mut tv: Vec<char> = Vec::new();
    let mut i: usize = a;
    while i < b
        invariant
            a <= i <= b <= cs@.len(),
            tv@ == cs@.subrange(a as int, i as int),
        decreases b - i,
    {
        tv.push(cs[i]);
        proof {
            assert(cs@.subrange(a as int, i + 1) =~= cs@.subrange(a as int, i as int).push(cs@[i as int]));
        }
        i = i + 1;
    }
    let ghost t = trim(raw@);
    assert(tv@ == t);
    let raw_trimmed = string_of(tv.as_slice());
    let parts = split_parts(tv.as_slice());
    let ghost pv = parts_view(parts@);
    let mut comps: Vec<Compound> = Vec::new();
    let mut n_id: u32 = 0;
    let mut n_class: u32 = 0;
    let mut n_tag: u32 = 0;
    let mut k: usize = 0;
    let ghost target = spec_compounds(raw@);
    proof {
        assert(target.len() == pv.len());
        assert(comps@.map_values(|c: Compound| c@) =~= target.take(0));
        assert(target.take(0) =~= Seq::<CompoundModel>::empty());
    }
    while k < parts.len()
        invariant
            k <= parts@.len(),
            pv == parts_view(parts@),
            pv == parts_from(t, true),
            target == pv.map_values(|p: (Seq<char>, Combinator)| compound_of(p.0, p.1)),
            target == spec_compounds(raw@),
            counts_fit(raw@),
            comps@.map_values(|c: Compound| c@) == target.take(k as int),
            n_id as int == spec_counts(target.take(k as int)).0,
            n_class as int == spec_counts(target.take(k as int)).1,
            n_tag as int == spec_counts(target.take(k as int)).2,
        decreases parts@.len() - k,
    {
        let c = compound_from_text(parts[k].0.as_slice(), parts[k].1);
        let ghost pre = target.take(k as int);
        proof {
            assert(pv[k as int] == (parts@[k as int].0@, parts@[k as int].1));
            assert(target.take(k + 1).drop_last() =~= pre);
            assert(target.take(k + 1).last() == c@);
            lemma_counts_prefix(target, k + 1);
            reveal(counts_fit);
        }
        if c.id.is_some() {
            n_id = n_id + 1;
        }
        if c.tag.is_some() {
            n_tag = n_tag + 1;
        }
        n_class = n_class + c.classes.len() as u32;
        let ghost old_comps = comps@;
        comps.push(c);
        proof {
            assert(comps@.map_values(|c: Compound| c@) =~= old_comps.map_values(|c: Compound| c@).push(
                c@,
            ));
        }
        k = k + 1;
    }
    proof {
        assert(target.take(parts@.len() as int) =~= target);
    }
    Ok(ParsedSelector {
        raw: raw_trimmed,
        compound: comps,
        specificity: Specificity(n_id, n_class, n_tag),
    })
}


// ---------------------------------------------------------------------------
// Matching against an element tree.
// ---------------------------------------------------------------------------

/// The compound carries a pseudo-class.
pub open spec fn has_pseudo(c: CompoundModel) -> bool {
    c.pseudo_hover || c.pseudo_active || c.pseudo_disabled || c.pseudo_focus
}

/// A compound without pseudo-classes whose tag, id and classes all hold of the element.
/// Compounds with a pseudo-class never match here: the static cascade leaves them to the
/// runtime state match.
pub open spec fn el_matches(c: CompoundModel, el: ElementData) -> bool {
    &&& !has_pseudo(c)
    &&& (c.tag matches Some(t) ==> el.tag@ == t)
    &&& (c.id matches Some(i) ==> opt_view(el.id) == Some(i))
    &&& forall|j: int| 0 <= j < c.classes.len() ==> strings_view(el.classes@).contains(#[trigger] c.classes[j])
}

/// `comps[0..end]` match along the ancestors of `e`, `e` having matched `comps[end]`:
/// a `Child` compound needs the direct parent, a `Descendant` compound some proper ancestor.
pub open spec fn chain_matches(tree: ElementTree, comps: Seq<CompoundModel>, end: int, e: int) -> bool
    decreases end,
{
    if end <= 0 {
        true
    } else {
        let tc = comps[end - 1];
        match comps[end].combinator {
            Combinator::Child => match parent_of(tree, e) {
                Some(p) => el_matches(tc, tree.nodes@[p]) && chain_matches(tree, comps, end - 1, p),
                None => false,
            },
            Combinator::Descendant => exists|k: nat|
                k >= 1 && match #[trigger] nth_ancestor(tree, e, k) {
                    Some(a) => el_matches(tc, tree.nodes@[a]) && chain_matches(tree, comps, end - 1, a),
                    None => false,
                },
        }
    }
}

/// The `k`-th ancestor of `e` matches `comps[end - 1]` and the chain before it.
pub open spec fn anc_step_matches(tree: ElementTree, comps: Seq<CompoundModel>, end: int, e: int, k: nat) -> bool {
    match nth_ancestor(tree, e, k) {
        Some(a) => el_matches(comps[end - 1], tree.nodes@[a]) && chain_matches(tree, comps, end - 1, a),
        None => false,
    }
}

/// The selector (as compounds) matches element `e`: the last compound matches `e` and the rest
/// match along its ancestors.
pub open spec fn sel_matches(tree: ElementTree, comps: Seq<CompoundModel>, e: int) -> bool {
    comps.len() > 0 && el_matches(comps.last(), tree.nodes@[e]) && chain_matches(tree, comps, comps.len() - 1, e)
}

pub open spec fn comps_view(v: Seq<Compound>) -> Seq<CompoundModel> {
    v.map_values(|c: Compound| c@)
}

pub(crate) fn string_in(v: &Vec<String>, x: &String) -> (b: bool)
    ensures
        b == strings_view(v@).contains(x@),
{
    let mut i: usize = 0;
    while i < v.len()
        invariant
            i <= v@.len(),
            forall|k: int| 0 <= k < i ==> v@[k]@ != x@,
        decreases v@.len() - i,
    {
        if v[i] == *x {
            proof {
                assert(strings_view(v@)[i as int] == x@);
            }
            return true;
        }
        i = i + 1;
    }
    proof {
        if strings_view(v@).contains(x@) {
            let w = choose|w: int| 0 <= w < strings_view(v@).len() && strings_view(v@)[w] == x@;
            assert(v@[w]@ == x@);
        }
    }
    false
}

fn compound_matches(c: &Compound, el: &ElementData) -> (b: bool)
    ensures
        b == el_matches(c@, *el),
{
    if c.pseudo_hover || c.pseudo_active || c.pseudo_disabled || c.pseudo_focus {
        return false;
    }
    match &c.tag {
        Some(t) => {
            if el.tag != *t {
                return false;
            }
        },
        None => {},
    }
    match &c.id {
        Some(i) => {
            match &el.id {
                Some(e) => {
                    if *e != *i {
                        return false;
                    }
                },
                None => {
                    return false;
                },
            }
        },
        None => {},
    }
    let mut j: usize = 0;
    while j < c.classes.len()
        invariant
            j <= c.classes@.len(),
            forall|k: int| 0 <= k < j ==> strings_view(el.classes@).contains(#[trigger] c@.classes[k]),
        decreases c.classes@.len() - j,
    {
        proof {
            assert(c@.classes[j as int] == c.classes@[j as int]@);
        }
        if !string_in(&el.classes, &c.classes[j]) {
            return false;
        }
        j = j + 1;
    }
    true
}

fn match_compound_chain(comps: &Vec<Compound>, end_idx: usize, start_el: ElementId, tree: &ElementTree) -> (b: bool)
    requires
        tree_wf(*tree),
        start_el.0 < tree.nodes@.len(),
        end_idx < comps@.len(),
    ensures
        b == chain_matches(*tree, comps_view(comps@), end_idx as int, start_el.0 as int),
    decreases end_idx,
{
    let ghost cv = comps_view(comps@);
    if end_idx == 0 {
        return true;
    }
    let target_comp = &comps[end_idx - 1];
    proof {
        assert(cv[end_idx - 1] == target_comp@);
        assert(cv[end_idx as int] == comps@[end_idx as int]@);
        let _ = tree.nodes@[start_el.0 as int].parent;
    }
    let result = match comps[end_idx].combinator {
        Combinator::Child => {
            match tree.nodes[start_el.0].parent {
                Some(parent) => {
                    let r = compound_matches(target_comp, &tree.nodes[parent.0]) && match_compound_chain(
                        comps,
                        end_idx - 1,
                        parent,
                        tree,
                    );
                    proof {
                        assert(cv[end_idx as int].combinator == Combinator::Child);
                        assert(parent_of(*tree, start_el.0 as int) == Some(parent.0 as int));
                        assert(r == chain_matches(*tree, cv, end_idx as int, start_el.0 as int));
                    }
                    r
                },
                None => {
                    proof {
                        assert(cv[end_idx as int].combinator == Combinator::Child);
                        assert(!chain_matches(*tree, cv, end_idx as int, start_el.0 as int));
                    }
                    false
                },
            }
        },
        Combinator::Descendant => {
            let ghost rank = choose|rank: spec_fn(int) -> nat| #[trigger] ranked_by(*tree, rank);
            let mut cur = tree.nodes[start_el.0].parent;
            let ghost mut k: nat = 1;
            proof {
                assert(nth_ancestor(*tree, start_el.0 as int, 0) == Some(start_el.0 as int));
            }
            while cur.is_some()
                invariant
                    tree_wf(*tree),
                    ranked_by(*tree, rank),
                    start_el.0 < tree.nodes@.len(),
                    end_idx < comps@.len(),
                    end_idx > 0,
                    cv == comps_view(comps@),
                    target_comp@ == cv[end_idx - 1],
                    cv[end_idx as int].combinator == Combinator::Descendant,
                    k >= 1,
                    nth_ancestor(*tree, start_el.0 as int, k) == (match cur {
                        Some(a) => Some(a.0 as int),
                        None => None,
                    }),
                    cur matches Some(a) ==> a.0 < tree.nodes@.len(),
                    forall|j: nat| 1 <= j < k ==> !#[trigger] anc_step_matches(*tree, cv, end_idx as int, start_el.0 as int, j),
                decreases (match cur {
                    Some(a) => rank(a.0 as int) + 1,
                    None => 0,
                }),
            {
                let ancestor = cur.unwrap();
                proof {
                    let _ = tree.nodes@[ancestor.0 as int].parent;
                }
                if compound_matches(target_comp, &tree.nodes[ancestor.0]) {
                    if match_compound_chain(comps, end_idx - 1, ancestor, tree) {
                        proof {
                            assert(anc_step_matches(*tree, cv, end_idx as int, start_el.0 as int, k));
                            assert(cv[end_idx as int].combinator == Combinator::Descendant);
                            assert(chain_matches(*tree, cv, end_idx as int, start_el.0 as int));
                        }
                        return true;
                    }
                }
                proof {
                    assert(!anc_step_matches(*tree, cv, end_idx as int, start_el.0 as int, k));
                }
                cur = tree.nodes[ancestor.0].parent;
                proof {
                    k = k + 1;
                }
            }
            proof {
                assert forall|j: nat| j >= 1 implies !#[trigger] anc_step_matches(*tree, cv, end_idx as int, start_el.0 as int, j) by {
                    if j >= k {
                        lemma_nth_ancestor_none(*tree, start_el.0 as int, k, j);
                    }
                }
                assert forall|j: nat| j >= 1 implies !(match #[trigger] nth_ancestor(*tree, start_el.0 as int, j) {
                    Some(a) => el_matches(cv[end_idx - 1], tree.nodes@[a]) && chain_matches(*tree, cv, end_idx - 1, a),
                    None => false,
                }) by {
                    assert(!anc_step_matches(*tree, cv, end_idx as int, start_el.0 as int, j));
                }
                assert(!chain_matches(*tree, cv, end_idx as int, start_el.0 as int));
            }
            false
        },
    };
    proof {
        assert(cv == comps_view(comps@));
        assert(result == chain_matches(*tree, cv, end_idx as int, start_el.0 as int));
    }
    result
}

/// Whether the selector matches the element `el_id` of the tree.
fn matches(sel: &ParsedSelector, el_id: ElementId, tree: &ElementTree) -> (b: bool)
    requires
        tree_wf(*tree),
        el_id.0 < tree.nodes@.len(),
    ensures
        b == sel_matches(*tree, sel@.compound, el_id.0 as int),
{
    let comps = &sel.compound;
    if comps.len() == 0 {
        return false;
    }
    let last = &comps[comps.len() - 1];
    proof {
        assert(sel@.compound == comps_view(comps@));
        assert(sel@.compound.last() == last@);
    }
    if !compound_matches(last, &tree.nodes[el_id.0]) {
        return false;
    }
    if comps.len() == 1 {
        return true;
    }
    match_compound_chain(comps, comps.len() - 1, el_id, tree)
}


// ---------------------------------------------------------------------------
// Which rules match an element, and in which order.
// ---------------------------------------------------------------------------

/// Strict lexicographic order on specificities.
pub open spec fn sp_lt(a: Specificity, b: Specificity) -> bool {
    a.0 < b.0 || (a.0 == b.0 && (a.1 < b.1 || (a.1 == b.1 && a.2 < b.2)))
}

/// Every rule's selector has id, class and tag counts that fit the specificity counters.
pub open spec fn rules_parsable(rules: Seq<Rule>) -> bool {
    forall|i: int| 0 <= i < rules.len() ==> counts_fit((#[trigger] rules[i]).selector_text@)
}

/// The parsed selector of rule `i`.
pub open spec fn rule_sel(rules: Seq<Rule>, i: int) -> SelectorModel {
    spec_parse_selector(rules[i].selector_text@)
}

/// Rule `i` matches element `e`.
pub open spec fn rule_matches(tree: ElementTree, rules: Seq<Rule>, e: int, i: int) -> bool {
    sel_matches(tree, rule_sel(rules, i).compound, e)
}

/// Rule `i` comes before rule `j`: by specificity (descending when `desc`, else ascending),
/// then by source order.
pub open spec fn rule_before(rules: Seq<Rule>, desc: bool, i: int, j: int) -> bool {
    let si = rule_sel(rules, i).specificity;
    let sj = rule_sel(rules, j).specificity;
    if desc {
        sp_lt(sj, si) || (si == sj && i < j)
    } else {
        sp_lt(si, sj) || (si == sj && i < j)
    }
}

/// `idx` lists exactly the rules matching `e`, each once, in `rule_before` order.
pub open spec fn is_match_order(tree: ElementTree, rules: Seq<Rule>, e: int, desc: bool, idx: Seq<usize>) -> bool {
    &&& forall|k: int| 0 <= k < idx.len() ==> (#[trigger] idx[k]) < rules.len()
    &&& forall|a: int, b: int| 0 <= a < b < idx.len() ==> rule_before(rules, desc, #[trigger] idx[a] as int, #[trigger] idx[b] as int)
    &&& forall|i: int| 0 <= i < rules.len() ==> (idx.contains(i as usize) <==> rule_matches(tree, rules, e, i))
}

/// A rule of specificity `a` goes after one of specificity `b` whatever their source order.
fn strictly_after(a: Specificity, b: Specificity, desc: bool) -> (r: bool)
    ensures
        r == (if desc { sp_lt(a, b) } else { sp_lt(b, a) }),
{
    if desc {
        sp_less(a, b)
    } else {
        sp_less(b, a)
    }
}

pub(crate) fn sp_less(a: Specificity, b: Specificity) -> (r: bool)
    ensures
        r == sp_lt(a, b),
{
    a.0 < b.0 || (a.0 == b.0 && (a.1 < b.1 || (a.1 == b.1 && a.2 < b.2)))
}

/// Indices of the rules that match element `el_id`, ordered by specificity (descending when
/// `desc`, ascending otherwise) and then by source order.
#[verifier::rlimit(40)]
pub fn matched_rule_order(el_id: ElementId, tree: &ElementTree, rules: &[Rule], desc: bool) -> (idx: Vec<usize>)
    requires
        tree_wf(*tree),
        el_id.0 < tree.nodes@.len(),
        rules_parsable(rules@),
    ensures
        is_match_order(*tree, rules@, el_id.0 as int, desc, idx@),
{
    let mut res: Vec<usize> = Vec::new();
    let mut specs: Vec<Specificity> = Vec::new();
    let mut i: usize = 0;
    while i < rules.len()
        invariant
            i <= rules@.len(),
            tree_wf(*tree),
            el_id.0 < tree.nodes@.len(),
            rules_parsable(rules@),
            specs@.len() == i,
            forall|j: int| 0 <= j < i ==> specs@[j] == #[trigger] rule_sel(rules@, j).specificity,
            forall|k: int| 0 <= k < res@.len() ==> (#[trigger] res@[k]) < i,
            forall|a: int, b: int| 0 <= a < b < res@.len() ==> rule_before(rules@, desc, #[trigger] res@[a] as int, #[trigger] res@[b] as int),
            forall|j: int| 0 <= j < i ==> (res@.contains(j as usize) <==> rule_matches(*tree, rules@, el_id.0 as int, j)),
        decreases rules@.len() - i,
    {
        proof {
            assert(counts_fit(rules@[i as int].selector_text@));
        }
        let parsed = parse_selector(rules[i].selector_text.as_str());
        let sel = match parsed {
            Ok(s) => s,
            Err(_) => {
                proof {
                    assert(false);
                }
                return res;
            },
        };
        let sp = sel.specificity;
        specs.push(sp);
        let ghost old_res = res@;
        if matches(&sel, el_id, tree) {
            // position: after every listed rule that comes before rule i
            let mut p: usize = 0;
            while p < res.len() && !strictly_after(specs[res[p]], sp, desc)
                invariant
                    p <= res@.len(),
                    res@ == old_res,
                    specs@.len() == i + 1,
                    specs@[i as int] == sp,
                    forall|k: int| 0 <= k < res@.len() ==> (#[trigger] res@[k]) < i,
                    forall|j: int| 0 <= j <= i ==> specs@[j] == #[trigger] rule_sel(rules@, j).specificity,
                    forall|k: int| 0 <= k < p ==> rule_before(rules@, desc, #[trigger] res@[k] as int, i as int),
                decreases res@.len() - p,
            {
                p = p + 1;
            }
            proof {
                // every listed rule from p on comes after rule i
                assert forall|k: int| p <= k < old_res.len() implies rule_before(rules@, desc, i as int, #[trigger] old_res[k] as int) by {
                    let sk = rule_sel(rules@, old_res[k] as int).specificity;
                    let sp0 = rule_sel(rules@, old_res[p as int] as int).specificity;
                    if k > p {
                        assert(rule_before(rules@, desc, old_res[p as int] as int, old_res[k] as int));
                    }
                }
            }
            res.insert(p, i);
            proof {
                assert forall|a: int, b: int| 0 <= a < b < res@.len() implies rule_before(rules@, desc, #[trigger] res@[a] as int, #[trigger] res@[b] as int) by {
                    if b < p {
                        assert(res@[a] == old_res[a] && res@[b] == old_res[b]);
                    } else if b == p {
                        assert(res@[a] == old_res[a]);
                    } else if a == p {
                        assert(res@[b] == old_res[b - 1]);
                    } else if a < p {
                        assert(res@[a] == old_res[a] && res@[b] == old_res[b - 1]);
                    } else {
                        assert(res@[a] == old_res[a - 1] && res@[b] == old_res[b - 1]);
                    }
                }
                assert forall|j: int| 0 <= j <= i implies (res@.contains(j as usize) <==> rule_matches(*tree, rules@, el_id.0 as int, j)) by {
                    if j < i {
                        if old_res.contains(j as usize) {
                            let w = choose|w: int| 0 <= w < old_res.len() && old_res[w] == j as usize;
                            if w < p {
                                assert(res@[w] == j as usize);
                            } else {
                                assert(res@[w + 1] == j as usize);
                            }
                        }
                        if res@.contains(j as usize) {
                            let w = choose|w: int| 0 <= w < res@.len() && res@[w] == j as usize;
                            if w < p {
                                assert(old_res[w] == j as usize);
                            } else if w > p {
                                assert(old_res[w - 1] == j as usize);
                            }
                        }
                    } else {
                        assert(res@[p as int] == i);
                    }
                }
                assert forall|k: int| 0 <= k < res@.len() implies (#[trigger] res@[k]) < i + 1 by {
                    if k < p {
                        assert(res@[k] == old_res[k]);
                    } else if k > p {
                        assert(res@[k] == old_res[k - 1]);
                    }
                }
            }
        } else {
            proof {
                assert(!res@.contains(i as usize));
            }
        }
        i = i + 1;
    }
    res
}

/// The rules that match element `el_id`, most specific first, equal specificity in source order.
pub fn match_element<'a>(el_id: ElementId, tree: &'a ElementTree, rules: &'a [Rule]) -> (out: Vec<&'a Rule>)
    requires
        tree_wf(*tree),
        el_id.0 < tree.nodes@.len(),
        rules_parsable(rules@),
    ensures
        exists|idx: Seq<usize>|
            #[trigger] is_match_order(*tree, rules@, el_id.0 as int, true, idx) && out@.len() == idx.len()
                && forall|k: int| 0 <= k < idx.len() ==> *out@[k] == rules@[idx[k] as int],
{
    let idx = matched_rule_order(el_id, tree, rules, true);
    let mut out: Vec<&'a Rule> = Vec::new();
    let mut k: usize = 0;
    while k < idx.len()
        invariant
            k <= idx@.len(),
            is_match_order(*tree, rules@, el_id.0 as int, true, idx@),
            out@.len() == k,
            forall|m: int| 0 <= m < k ==> *out@[m] == rules@[idx@[m] as int],
        decreases idx@.len() - k,
    {
        proof {
            assert(idx@[k as int] < rules@.len());
        }
        out.push(&rules[idx[k]]);
        k = k + 1;
    }
    out
}


/// The specificity of a rule's selector.
pub fn specificity_of(rule: &Rule) -> (sp: Specificity)
    requires
        counts_fit(rule.selector_text@),
    ensures
        sp == spec_parse_selector(rule.selector_text@).specificity,
{
    match parse_selector(rule.selector_text.as_str()) {
        Ok(sel) => sel.specificity,
        Err(_) => Specificity(0, 0, 0),
    }
}

// ---------------------------------------------------------------------------
// Pseudo-class rules stay out of the static cascade.
// ---------------------------------------------------------------------------

proof fn lemma_chain_pseudo(tree: ElementTree, comps: Seq<CompoundModel>, end: int, e: int, j: int)
    requires
        0 <= j < end < comps.len(),
        has_pseudo(comps[j]),
    ensures
        !chain_matches(tree, comps, end, e),
    decreases end,
{
    match comps[end].combinator {
        Combinator::Child => {
            if let Some(p) = parent_of(tree, e) {
                if j < end - 1 {
                    lemma_chain_pseudo(tree, comps, end - 1, p, j);
                }
            }
        },
        Combinator::Descendant => {
            assert forall|k: nat| k >= 1 implies !(match #[trigger] nth_ancestor(tree, e, k) {
                Some(a) => el_matches(comps[end - 1], tree.nodes@[a]) && chain_matches(tree, comps, end - 1, a),
                None => false,
            }) by {
                if let Some(a) = nth_ancestor(tree, e, k) {
                    if j < end - 1 {
                        lemma_chain_pseudo(tree, comps, end - 1, a, j);
                    }
                }
            }
        },
    }
}

/// A rule whose selector has a compound with a pseudo-class (hover, active, disabled, focus)
/// matches no element in the static cascade: such rules are left to the run-time state match.
pub proof fn law_pseudo_rules_never_match(tree: ElementTree, rules: Seq<Rule>, e: int, i: int, j: int)
    requires
        0 <= i < rules.len(),
        0 <= j < rule_sel(rules, i).compound.len(),
        has_pseudo(rule_sel(rules, i).compound[j]),
    ensures
        !rule_matches(tree, rules, e, i),
{
    let comps = rule_sel(rules, i).compound;
    if j < comps.len() - 1 {
        lemma_chain_pseudo(tree, comps, comps.len() - 1, e, j);
    }
}

} // verus!
