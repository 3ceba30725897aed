//! Reading a written package gives back what was written.
use vstd::prelude::*;
use vstd::utf8::{encode_utf8, decode_utf8, valid_utf8, encode_utf8_valid_utf8, encode_utf8_decode_utf8};
use crate::package::{
    PkgErrorView, CompView, NULL_IDX, le16, le32, lei32, ser_strings, ser_comp_table, ser_idx_list, str_idx,
    node_total, lemma_str_idx_in, lemma_node_total_nonneg, NodeView, KindView, ser_node, ser_node_head, ser_node_tail, node_strings,
    kind_strings, opt_strings, parent_code, tab_code, flag_byte, kind_tag, text_idx, src_idx, id_idx,
    lemma_node_string_parts, ser_nodes, ser_node_block, ser_dynamic, PackageView, string_table, roots_first,
    offsets_fit, spec_write_package, ser_header, lemma_node_string_in_table, comps_strings, dedup, lemma_dedup, no_dup,
    lemma_name_in_table, lemma_manifest_in_table, lemma_node_total_prefix, PKG_MAGIC, PKG_FORMAT_VERSION,
};
use crate::package_read::{
    CompEntry, rd16, rd32, fits, cons, prepend, lemma_prepend_cons, lemma_prepend_empty, spec_read_strings,
    spec_read_comp_table, spec_read_idx_strings, spec_string_at, spec_read_node, decode_kind, decode_id,
    decode_parent, decode_tab, spec_read_nodes, spec_localize, localize_parent, parent_before, spec_build_comps,
    name_taken, spec_read_head, table_total, read_counts_fit, spec_read_package,
};
use crate::package_prefix::{package_end, lemma_package_prefix, lemma_prefix_counts_fit};

verus! {

// ---------------------------------------------------------------------------
// Byte windows.
// ---------------------------------------------------------------------------

/// The bytes of `b` from `p` on start with `x`.
pub open spec fn at(b: Seq<u8>, p: int, x: Seq<u8>) -> bool {
    0 <= p && p + x.len() <= b.len() && b.subrange(p, p + x.len()) == x
}

proof fn lemma_at_split(b: Seq<u8>, p: int, x: Seq<u8>, y: Seq<u8>)
    requires
        at(b, p, x + y),
    ensures
        at(b, p, x),
        at(b, p + x.len(), y),
{
    let w = b.subrange(p, p + (x + y).len());
    assert(w == x + y);
    assert(b.subrange(p, p + x.len()) =~= w.subrange(0, x.len() as int));
    assert((x + y).subrange(0, x.len() as int) =~= x);
    assert(b.subrange(p + x.len(), p + x.len() + y.len()) =~= w.subrange(x.len() as int, w.len() as int));
    assert((x + y).subrange(x.len() as int, (x + y).len() as int) =~= y);
}

/// With `f` built by appending `g` of each longer prefix, the piece `g` of prefix `k + 1`
/// lies right after `f` of prefix `k`.
proof fn lemma_prefix_at<T>(f: spec_fn(Seq<T>) -> Seq<u8>, g: spec_fn(Seq<T>) -> Seq<u8>, s: Seq<T>, j: int, b: Seq<u8>, p: int)
    requires
        forall|x: Seq<T>| x.len() > 0 ==> f(x) == f(x.drop_last()) + #[trigger] g(x),
        0 <= j <= s.len(),
        at(b, p, f(s)),
    ensures
        at(b, p, f(s.take(j))),
    decreases s.len() - j,
{
    if j == s.len() {
        assert(s.take(j) =~= s);
    } else {
        lemma_prefix_at(f, g, s, j + 1, b, p);
        let x = s.take(j + 1);
        assert(x.drop_last() =~= s.take(j));
        assert(f(x) == f(s.take(j)) + g(x));
        lemma_at_split(b, p, f(s.take(j)), g(x));
    }
}

proof fn lemma_piece<T>(f: spec_fn(Seq<T>) -> Seq<u8>, g: spec_fn(Seq<T>) -> Seq<u8>, s: Seq<T>, k: int, b: Seq<u8>, p: int)
    requires
        forall|x: Seq<T>| x.len() > 0 ==> f(x) == f(x.drop_last()) + #[trigger] g(x),
        0 <= k < s.len(),
        at(b, p, f(s)),
    ensures
        at(b, p + f(s.take(k)).len(), g(s.take(k + 1))),
        f(s.take(k + 1)) == f(s.take(k)) + g(s.take(k + 1)),
{
    lemma_prefix_at(f, g, s, k + 1, b, p);
    let x = s.take(k + 1);
    assert(x.drop_last() =~= s.take(k));
    assert(f(x) == f(s.take(k)) + g(x));
    lemma_at_split(b, p, f(s.take(k)), g(x));
}

proof fn lemma_rd16(b: Seq<u8>, p: int, x: u16)
    requires
        at(b, p, le16(x)),
    ensures
        fits(b, p, 2),
        rd16(b, p) == x,
{
    assert(b[p] == b.subrange(p, p + 2)[0]);
    assert(b[p + 1] == b.subrange(p, p + 2)[1]);
    let b0 = b[p];
    let b1 = b[p + 1];
    assert(((b0 as u16) | ((b1 as u16) << 8u16)) == x) by (bit_vector)
        requires
            b0 == (x & 0xff) as u8,
            b1 == (x >> 8u16) as u8,
    ;
}

proof fn lemma_rd32(b: Seq<u8>, p: int, x: u32)
    requires
        at(b, p, le32(x)),
    ensures
        fits(b, p, 4),
        rd32(b, p) == x,
{
    assert(b[p] == b.subrange(p, p + 4)[0]);
    assert(b[p + 1] == b.subrange(p, p + 4)[1]);
    assert(b[p + 2] == b.subrange(p, p + 4)[2]);
    assert(b[p + 3] == b.subrange(p, p + 4)[3]);
    let b0 = b[p];
    let b1 = b[p + 1];
    let b2 = b[p + 2];
    let b3 = b[p + 3];
    assert(((b0 as u32) | ((b1 as u32) << 8u32) | ((b2 as u32) << 16u32) | ((b3 as u32) << 24u32)) == x) by (bit_vector)
        requires
            b0 == (x & 0xff) as u8,
            b1 == ((x >> 8u32) & 0xff) as u8,
            b2 == ((x >> 16u32) & 0xff) as u8,
            b3 == (x >> 24u32) as u8,
    ;
}

proof fn lemma_rdi32(b: Seq<u8>, p: int, x: i32)
    requires
        at(b, p, lei32(x)),
    ensures
        fits(b, p, 4),
        rd32(b, p) as i32 == x,
{
    lemma_rd32(b, p, x as u32);
    let u = rd32(b, p);
    assert((u as i32) == x) by (bit_vector)
        requires
            u == x as u32,
    ;
}

proof fn lemma_prepend_nil<T>(r: Result<(Seq<T>, int), PkgErrorView>)
    ensures
        prepend(Seq::<T>::empty(), r) == r,
{
    match r {
        Ok((rest, q)) => {
            assert(Seq::<T>::empty() + rest =~= rest);
        },
        Err(_) => {},
    }
}

// ---------------------------------------------------------------------------
// String table.
// ---------------------------------------------------------------------------

pub open spec fn str_entry(x: Seq<Seq<char>>) -> Seq<u8> {
    le16(encode_utf8(x.last()).len() as u16) + encode_utf8(x.last())
}

/// Every string's UTF-8 form fits a `u16` length.
pub open spec fn strings_short(t: Seq<Seq<char>>) -> bool {
    forall|i: int| 0 <= i < t.len() ==> encode_utf8(#[trigger] t[i]).len() <= u16::MAX
}

proof fn lemma_read_strings_step(b: Seq<u8>, p: int, t: Seq<Seq<char>>, k: int)
    requires
        at(b, p, ser_strings(t)),
        strings_short(t),
        0 <= k <= t.len(),
    ensures
        spec_read_strings(b, p, t.len()) == prepend(t.take(k), spec_read_strings(b, p + ser_strings(t.take(k)).len(), (t.len() - k) as nat)),
    decreases k,
{
    let f = |x: Seq<Seq<char>>| ser_strings(x);
    let g = |x: Seq<Seq<char>>| str_entry(x);
    assert forall|x: Seq<Seq<char>>| x.len() > 0 implies f(x) == f(x.drop_last()) + #[trigger] g(x) by {}
    if k == 0 {
        assert(t.take(0) =~= Seq::<Seq<char>>::empty());
        lemma_prepend_nil(spec_read_strings(b, p, t.len()));
    } else {
        lemma_read_strings_step(b, p, t, k - 1);
        lemma_piece(f, g, t, k - 1, b, p);
        let q = p + ser_strings(t.take(k - 1)).len();
        let s = t[k - 1];
        assert(t.take(k).last() == s);
        let e = encode_utf8(s);
        assert(e.len() <= u16::MAX);
        lemma_at_split(b, q, le16(e.len() as u16), e);
        lemma_rd16(b, q, e.len() as u16);
        encode_utf8_valid_utf8(s);
        encode_utf8_decode_utf8(s);
        assert(b.subrange(q + 2, q + 2 + e.len()) == e);
        assert(spec_read_strings(b, q, (t.len() - k + 1) as nat) == cons(s, spec_read_strings(b, q + 2 + e.len(), (t.len() - k) as nat)));
        lemma_prepend_cons(t.take(k - 1), s, spec_read_strings(b, q + 2 + e.len(), (t.len() - k) as nat));
        assert(t.take(k - 1).push(s) =~= t.take(k));
    }
}

proof fn lemma_read_strings(b: Seq<u8>, p: int, t: Seq<Seq<char>>)
    requires
        at(b, p, ser_strings(t)),
        strings_short(t),
    ensures
        spec_read_strings(b, p, t.len()) == Ok::<(Seq<Seq<char>>, int), PkgErrorView>((t, p + ser_strings(t).len())),
{
    lemma_read_strings_step(b, p, t, t.len() as int);
    assert(t.take(t.len() as int) =~= t);
    lemma_prepend_empty(t, p + ser_strings(t).len());
}


// ---------------------------------------------------------------------------
// Component table.
// ---------------------------------------------------------------------------

/// The table entry written for the last component of `cs`.
pub open spec fn comp_entry(t: Seq<Seq<char>>, cs: Seq<CompView>) -> CompEntry {
    (
        str_idx(t, cs.last().name),
        node_total(cs.drop_last()) as u32,
        cs.last().nodes.len() as u32,
        cs.last().dynamic_rules.len() as u32,
    )
}

pub open spec fn comp_entries(t: Seq<Seq<char>>, cs: Seq<CompView>) -> Seq<CompEntry> {
    Seq::new(cs.len(), |k: int| comp_entry(t, cs.take(k + 1)))
}

pub open spec fn ser_entry(e: CompEntry) -> Seq<u8> {
    le16(e.0) + le32(e.1) + le32(e.2) + le32(e.3)
}

proof fn lemma_comp_table_unfold(b: Seq<u8>, q: int, n: nat, e: CompEntry)
    requires
        n > 0,
        at(b, q, ser_entry(e)),
    ensures
        spec_read_comp_table(b, q, n) == cons(e, spec_read_comp_table(b, q + 14, (n - 1) as nat)),
{
    lemma_at_split(b, q, le16(e.0) + le32(e.1) + le32(e.2), le32(e.3));
    lemma_at_split(b, q, le16(e.0) + le32(e.1), le32(e.2));
    lemma_at_split(b, q, le16(e.0), le32(e.1));
    lemma_rd16(b, q, e.0);
    lemma_rd32(b, q + 2, e.1);
    lemma_rd32(b, q + 6, e.2);
    lemma_rd32(b, q + 10, e.3);
}

proof fn lemma_read_comp_table_step(b: Seq<u8>, p: int, t: Seq<Seq<char>>, cs: Seq<CompView>, k: int)
    requires
        at(b, p, ser_comp_table(t, cs)),
        0 <= k <= cs.len(),
    ensures
        spec_read_comp_table(b, p, cs.len()) == prepend(
            comp_entries(t, cs).take(k),
            spec_read_comp_table(b, p + ser_comp_table(t, cs.take(k)).len(), (cs.len() - k) as nat),
        ),
    decreases k,
{
    let f = |x: Seq<CompView>| ser_comp_table(t, x);
    let g = |x: Seq<CompView>| ser_entry(comp_entry(t, x));
    assert forall|x: Seq<CompView>| x.len() > 0 implies f(x) == f(x.drop_last()) + #[trigger] g(x) by {
        assert(f(x) =~= f(x.drop_last()) + g(x));
    }
    let es = comp_entries(t, cs);
    if k == 0 {
        assert(es.take(0) =~= Seq::<CompEntry>::empty());
        lemma_prepend_nil(spec_read_comp_table(b, p, cs.len()));
    } else {
        lemma_read_comp_table_step(b, p, t, cs, k - 1);
        lemma_piece(f, g, cs, k - 1, b, p);
        let q = p + ser_comp_table(t, cs.take(k - 1)).len();
        let e = comp_entry(t, cs.take(k));
        assert(es[k - 1] == e);
        lemma_comp_table_unfold(b, q, (cs.len() - k + 1) as nat, e);
        lemma_prepend_cons(es.take(k - 1), e, spec_read_comp_table(b, q + 14, (cs.len() - k) as nat));
        assert(es.take(k - 1).push(e) =~= es.take(k));
    }
}

proof fn lemma_read_comp_table(b: Seq<u8>, p: int, t: Seq<Seq<char>>, cs: Seq<CompView>)
    requires
        at(b, p, ser_comp_table(t, cs)),
    ensures
        spec_read_comp_table(b, p, cs.len()) == Ok::<(Seq<CompEntry>, int), PkgErrorView>((comp_entries(t, cs), p + ser_comp_table(t, cs).len())),
{
    lemma_read_comp_table_step(b, p, t, cs, cs.len() as int);
    assert(cs.take(cs.len() as int) =~= cs);
    assert(comp_entries(t, cs).take(cs.len() as int) =~= comp_entries(t, cs));
    lemma_prepend_empty(comp_entries(t, cs), p + ser_comp_table(t, cs).len());
}

// ---------------------------------------------------------------------------
// String index lists.
// ---------------------------------------------------------------------------

/// Every string of the table gets an index other than "no string".
pub open spec fn table_indexable(t: Seq<Seq<char>>) -> bool {
    t.len() <= 0xFFFF
}

proof fn lemma_str_idx(t: Seq<Seq<char>>, s: Seq<char>)
    requires
        t.contains(s),
        table_indexable(t),
    ensures
        str_idx(t, s) != NULL_IDX,
        spec_string_at(t, str_idx(t, s)) == Ok::<Seq<char>, PkgErrorView>(s),
{
    let c = choose|i: int| 0 <= i < t.len() && t[i] == s;
    assert(0 <= c < t.len() && t[c] == s);
    lemma_str_idx_in(t, s);
}

proof fn lemma_idx_unfold(b: Seq<u8>, q: int, n: nat, t: Seq<Seq<char>>, s: Seq<char>, ctx: Seq<char>)
    requires
        n > 0,
        at(b, q, le16(str_idx(t, s))),
        t.contains(s),
        table_indexable(t),
    ensures
        spec_read_idx_strings(b, q, n, t, ctx) == cons(s, spec_read_idx_strings(b, q + 2, (n - 1) as nat, t, ctx)),
{
    lemma_rd16(b, q, str_idx(t, s));
    lemma_str_idx(t, s);
}

proof fn lemma_read_idx_step(b: Seq<u8>, p: int, t: Seq<Seq<char>>, ss: Seq<Seq<char>>, ctx: Seq<char>, k: int)
    requires
        at(b, p, ser_idx_list(t, ss)),
        table_indexable(t),
        forall|i: int| 0 <= i < ss.len() ==> t.contains(#[trigger] ss[i]),
        0 <= k <= ss.len(),
    ensures
        spec_read_idx_strings(b, p, ss.len(), t, ctx) == prepend(
            ss.take(k),
            spec_read_idx_strings(b, p + ser_idx_list(t, ss.take(k)).len(), (ss.len() - k) as nat, t, ctx),
        ),
    decreases k,
{
    let f = |x: Seq<Seq<char>>| ser_idx_list(t, x);
    let g = |x: Seq<Seq<char>>| le16(str_idx(t, x.last()));
    assert forall|x: Seq<Seq<char>>| x.len() > 0 implies f(x) == f(x.drop_last()) + #[trigger] g(x) by {}
    if k == 0 {
        assert(ss.take(0) =~= Seq::<Seq<char>>::empty());
        lemma_prepend_nil(spec_read_idx_strings(b, p, ss.len(), t, ctx));
    } else {
        lemma_read_idx_step(b, p, t, ss, ctx, k - 1);
        lemma_piece(f, g, ss, k - 1, b, p);
        let q = p + ser_idx_list(t, ss.take(k - 1)).len();
        let s = ss[k - 1];
        assert(ss.take(k).last() == s);
        assert(t.contains(ss[k - 1]));
        lemma_idx_unfold(b, q, (ss.len() - k + 1) as nat, t, s, ctx);
        lemma_prepend_cons(ss.take(k - 1), s, spec_read_idx_strings(b, q + 2, (ss.len() - k) as nat, t, ctx));
        assert(ss.take(k - 1).push(s) =~= ss.take(k));
    }
}

proof fn lemma_read_idx(b: Seq<u8>, p: int, t: Seq<Seq<char>>, ss: Seq<Seq<char>>, ctx: Seq<char>)
    requires
        at(b, p, ser_idx_list(t, ss)),
        table_indexable(t),
        forall|i: int| 0 <= i < ss.len() ==> t.contains(#[trigger] ss[i]),
    ensures
        spec_read_idx_strings(b, p, ss.len(), t, ctx) == Ok::<(Seq<Seq<char>>, int), PkgErrorView>((ss, p + ser_idx_list(t, ss).len())),
{
    lemma_read_idx_step(b, p, t, ss, ctx, ss.len() as int);
    assert(ss.take(ss.len() as int) =~= ss);
    lemma_prepend_empty(ss, p + ser_idx_list(t, ss).len());
}


// ---------------------------------------------------------------------------
// Node records.
// ---------------------------------------------------------------------------

/// A node record reads back as the node: its global parent fits `i32`, its style blob `u32`,
/// its class count `u16`, its tab index is not the "none" code, and its strings are in the table.
pub open spec fn node_fits(t: Seq<Seq<char>>, n: NodeView) -> bool {
    &&& (n.parent_idx matches Some(q) ==> q <= i32::MAX)
    &&& n.style.len() <= u32::MAX
    &&& n.classes.len() <= u16::MAX
    &&& n.tabindex != Some(i32::MIN)
    &&& forall|x: Seq<char>| node_strings(n).contains(x) ==> t.contains(x)
}

proof fn lemma_decode_kind(t: Seq<Seq<char>>, n: NodeView)
    requires
        table_indexable(t),
        node_fits(t, n),
    ensures
        decode_kind(kind_tag(n.kind), text_idx(t, n.kind), src_idx(t, n.kind), t) == Ok::<KindView, PkgErrorView>(n.kind),
        decode_id(id_idx(t, n.id_attr), t) == Ok::<Option<Seq<char>>, PkgErrorView>(n.id_attr),
{
    match n.kind {
        KindView::Image(s) => {
            assert(kind_strings(n.kind)[0] == s);
            lemma_node_string_parts(n, s);
            lemma_str_idx(t, s);
        },
        KindView::Text(s) => {
            assert(kind_strings(n.kind)[0] == s);
            lemma_node_string_parts(n, s);
            lemma_str_idx(t, s);
        },
        _ => {},
    }
    match n.id_attr {
        Some(s) => {
            assert(opt_strings(n.id_attr)[0] == s);
            lemma_node_string_parts(n, s);
            lemma_str_idx(t, s);
        },
        None => {},
    }
}

proof fn lemma_decode_fields(n: NodeView)
    requires
        n.parent_idx matches Some(q) ==> q <= i32::MAX,
        n.tabindex != Some(i32::MIN),
    ensures
        decode_parent(parent_code(n.parent_idx, 0)) == n.parent_idx,
        decode_tab(tab_code(n.tabindex)) == n.tabindex,
        (flag_byte(n.draggable) & 1 != 0) == n.draggable,
{
    match n.parent_idx {
        Some(q) => {
            let c = parent_code(n.parent_idx, 0);
            assert(c == q as i32);
            assert(c >= 0 && (c as usize) == q) by (bit_vector)
                requires
                    c == q as i32,
                    q <= 0x7fff_ffff,
            ;
        },
        None => {},
    }
    assert((1u8 & 1u8) != 0u8 && (0u8 & 1u8) == 0u8) by (bit_vector);
}

proof fn lemma_read_node(b: Seq<u8>, p: int, t: Seq<Seq<char>>, n: NodeView)
    requires
        at(b, p, ser_node(t, n, 0)),
        table_indexable(t),
        node_fits(t, n),
    ensures
        spec_read_node(b, p, t) == Ok::<(NodeView, int), PkgErrorView>((n, p + ser_node(t, n, 0).len())),
{
    let pc = parent_code(n.parent_idx, 0);
    let tag = kind_tag(n.kind);
    let ti = text_idx(t, n.kind);
    let si = src_idx(t, n.kind);
    let head = ser_node_head(t, n, 0);
    let l = ser_idx_list(t, n.classes);
    let tail = ser_node_tail(t, n);
    lemma_at_split(b, p, head + l, tail);
    lemma_at_split(b, p, head, l);
    let x6 = le16(n.classes.len() as u16);
    let x5 = le16(si);
    let x4 = le16(ti);
    let x3 = n.style;
    let x2 = le32(n.style.len() as u32);
    let x1 = seq![tag];
    let x0 = lei32(pc);
    assert(head == x0 + x1 + x2 + x3 + x4 + x5 + x6);
    lemma_at_split(b, p, x0 + x1 + x2 + x3 + x4 + x5, x6);
    lemma_at_split(b, p, x0 + x1 + x2 + x3 + x4, x5);
    lemma_at_split(b, p, x0 + x1 + x2 + x3, x4);
    lemma_at_split(b, p, x0 + x1 + x2, x3);
    lemma_at_split(b, p, x0 + x1, x2);
    lemma_at_split(b, p, x0, x1);
    lemma_rdi32(b, p, pc);
    assert(b[p + 4] == b.subrange(p + 4, p + 5)[0]);
    lemma_rd32(b, p + 5, n.style.len() as u32);
    let q = p + 9 + n.style.len();
    lemma_rd16(b, q, ti);
    lemma_rd16(b, q + 2, si);
    lemma_rd16(b, q + 4, n.classes.len() as u16);
    assert forall|i: int| 0 <= i < n.classes.len() implies t.contains(#[trigger] n.classes[i]) by {
        assert(n.classes.contains(n.classes[i]));
        lemma_node_string_parts(n, n.classes[i]);
    }
    lemma_read_idx(b, q + 6, t, n.classes, "class_idx"@);
    let r = q + 6 + l.len();
    let y0 = le16(id_idx(t, n.id_attr));
    let y1 = seq![flag_byte(n.draggable)];
    let y2 = lei32(tab_code(n.tabindex));
    assert(tail == y0 + y1 + y2);
    lemma_at_split(b, r, y0 + y1, y2);
    lemma_at_split(b, r, y0, y1);
    lemma_rd16(b, r, id_idx(t, n.id_attr));
    assert(b[r + 2] == b.subrange(r + 2, r + 3)[0]);
    lemma_rdi32(b, r + 3, tab_code(n.tabindex));
    lemma_decode_kind(t, n);
    lemma_decode_fields(n);
    assert(b.subrange(p + 9, q) == n.style);
}


// ---------------------------------------------------------------------------
// Node block: the nodes of all components with global parents.
// ---------------------------------------------------------------------------

/// A node with its parent moved from component position to global position.
pub open spec fn globalize(n: NodeView, base: int) -> NodeView {
    NodeView {
        kind: n.kind,
        style: n.style,
        parent_idx: match n.parent_idx {
            Some(q) => Some((base + q) as usize),
            None => None,
        },
        classes: n.classes,
        id_attr: n.id_attr,
        draggable: n.draggable,
        tabindex: n.tabindex,
    }
}

pub open spec fn glob_nodes(ns: Seq<NodeView>, base: int) -> Seq<NodeView> {
    ns.map_values(|n: NodeView| globalize(n, base))
}

/// All nodes of the components in order, parents global.
pub open spec fn glob_all(cs: Seq<CompView>) -> Seq<NodeView>
    decreases cs.len(),
{
    if cs.len() == 0 {
        Seq::empty()
    } else {
        glob_all(cs.drop_last()) + glob_nodes(cs.last().nodes, node_total(cs.drop_last()))
    }
}

/// Parents of the nodes of `ns` stay within `usize` when moved to base `base`.
pub open spec fn parents_fit(ns: Seq<NodeView>, base: int, limit: int) -> bool {
    forall|j: int| 0 <= j < ns.len() && (#[trigger] ns[j]).parent_idx is Some ==> base + ns[j].parent_idx.unwrap() <= limit
}

proof fn lemma_ser_node_glob(t: Seq<Seq<char>>, n: NodeView, base: int)
    requires
        base >= 0,
        n.parent_idx matches Some(q) ==> base + q <= usize::MAX,
    ensures
        ser_node(t, n, base) == ser_node(t, globalize(n, base), 0),
{
    assert(parent_code(n.parent_idx, base) == parent_code(globalize(n, base).parent_idx, 0));
    assert(ser_node_head(t, n, base) == ser_node_head(t, globalize(n, base), 0));
}

proof fn lemma_ser_nodes_glob(t: Seq<Seq<char>>, ns: Seq<NodeView>, base: int)
    requires
        base >= 0,
        parents_fit(ns, base, usize::MAX as int),
    ensures
        ser_nodes(t, ns, base) == ser_nodes(t, glob_nodes(ns, base), 0),
    decreases ns.len(),
{
    if ns.len() > 0 {
        let d = ns.drop_last();
        assert(parents_fit(d, base, usize::MAX as int)) by {
            assert forall|j: int| 0 <= j < d.len() && (#[trigger] d[j]).parent_idx is Some implies base + d[j].parent_idx.unwrap() <= usize::MAX by {
                assert(d[j] == ns[j]);
            }
        }
        lemma_ser_nodes_glob(t, d, base);
        assert(glob_nodes(ns, base).drop_last() =~= glob_nodes(d, base));
        assert(ns[ns.len() - 1] == ns.last());
        lemma_ser_node_glob(t, ns.last(), base);
    }
}

proof fn lemma_ser_nodes_concat(t: Seq<Seq<char>>, a: Seq<NodeView>, c: Seq<NodeView>)
    ensures
        ser_nodes(t, a + c, 0) == ser_nodes(t, a, 0) + ser_nodes(t, c, 0),
    decreases c.len(),
{
    if c.len() == 0 {
        assert(a + c =~= a);
        assert(ser_nodes(t, a, 0) + ser_nodes(t, c, 0) =~= ser_nodes(t, a, 0));
    } else {
        lemma_ser_nodes_concat(t, a, c.drop_last());
        assert((a + c).drop_last() =~= a + c.drop_last());
        assert((a + c).last() == c.last());
        assert(ser_nodes(t, a + c, 0) =~= ser_nodes(t, a, 0) + ser_nodes(t, c, 0));
    }
}

/// Global parent positions of every component fit `limit`.
pub open spec fn comps_parents_fit(cs: Seq<CompView>, limit: int) -> bool {
    forall|k: int| 0 <= k < cs.len() ==> parents_fit(#[trigger] cs[k].nodes, node_total(cs.take(k)), limit)
}

proof fn lemma_comps_parents_fit_drop(cs: Seq<CompView>, limit: int)
    requires
        cs.len() > 0,
        comps_parents_fit(cs, limit),
    ensures
        comps_parents_fit(cs.drop_last(), limit),
        parents_fit(cs.last().nodes, node_total(cs.drop_last()), limit),
{
    let d = cs.drop_last();
    assert forall|k: int| 0 <= k < d.len() implies parents_fit(#[trigger] d[k].nodes, node_total(d.take(k)), limit) by {
        assert(d[k] == cs[k]);
        assert(d.take(k) =~= cs.take(k));
        assert(parents_fit(cs[k].nodes, node_total(cs.take(k)), limit));
    }
    assert(cs.take(cs.len() - 1) =~= d);
    assert(parents_fit(cs[cs.len() - 1].nodes, node_total(cs.take(cs.len() - 1)), limit));
}

proof fn lemma_glob_all_len(cs: Seq<CompView>)
    ensures
        glob_all(cs).len() == node_total(cs),
    decreases cs.len(),
{
    if cs.len() > 0 {
        lemma_glob_all_len(cs.drop_last());
    }
}

proof fn lemma_node_block_flat(t: Seq<Seq<char>>, cs: Seq<CompView>)
    requires
        comps_parents_fit(cs, usize::MAX as int),
    ensures
        ser_node_block(t, cs) == ser_nodes(t, glob_all(cs), 0),
    decreases cs.len(),
{
    if cs.len() > 0 {
        let d = cs.drop_last();
        lemma_comps_parents_fit_drop(cs, usize::MAX as int);
        lemma_node_block_flat(t, d);
        lemma_node_total_nonneg(d);
        lemma_ser_nodes_glob(t, cs.last().nodes, node_total(d));
        lemma_ser_nodes_concat(t, glob_all(d), glob_nodes(cs.last().nodes, node_total(d)));
    }
}


/// Sizes of each node's fields fit their stored widths and no tab index is the "none" code.
pub open spec fn node_fields_fit(n: NodeView) -> bool {
    &&& n.style.len() <= u32::MAX
    &&& n.classes.len() <= u16::MAX
    &&& n.tabindex != Some(i32::MIN)
}

pub open spec fn comps_fields_fit(cs: Seq<CompView>) -> bool {
    forall|k: int, j: int| 0 <= k < cs.len() && 0 <= j < cs[k].nodes.len() ==> node_fields_fit(#[trigger] cs[k].nodes[j])
}

/// Every string a node uses is in the table.
pub open spec fn comps_strings_in(t: Seq<Seq<char>>, cs: Seq<CompView>) -> bool {
    forall|k: int, j: int, x: Seq<char>|
        #![trigger node_strings(cs[k].nodes[j]).contains(x)]
        0 <= k < cs.len() && 0 <= j < cs[k].nodes.len() && node_strings(cs[k].nodes[j]).contains(x) ==> t.contains(x)
}

proof fn lemma_glob_nodes_fit(t: Seq<Seq<char>>, cs: Seq<CompView>)
    requires
        comps_parents_fit(cs, i32::MAX as int),
        comps_fields_fit(cs),
        comps_strings_in(t, cs),
    ensures
        forall|i: int| 0 <= i < glob_all(cs).len() ==> node_fits(t, #[trigger] glob_all(cs)[i]),
    decreases cs.len(),
{
    if cs.len() > 0 {
        let d = cs.drop_last();
        let base = node_total(d);
        lemma_comps_parents_fit_drop(cs, i32::MAX as int);
        assert(comps_fields_fit(d)) by {
            assert forall|k: int, j: int| 0 <= k < d.len() && 0 <= j < d[k].nodes.len() implies node_fields_fit(#[trigger] d[k].nodes[j]) by {
                assert(d[k] == cs[k]);
            }
        }
        assert(comps_strings_in(t, d)) by {
            assert forall|k: int, j: int, x: Seq<char>| 0 <= k < d.len() && 0 <= j < d[k].nodes.len() && #[trigger] node_strings(d[k].nodes[j]).contains(x) implies t.contains(x) by {
                assert(d[k] == cs[k]);
            }
        }
        lemma_glob_nodes_fit(t, d);
        lemma_glob_all_len(d);
        lemma_node_total_nonneg(d);
        let last = cs.last();
        assert(cs[cs.len() - 1] == last);
        assert forall|i: int| 0 <= i < glob_all(cs).len() implies node_fits(t, #[trigger] glob_all(cs)[i]) by {
            if i < glob_all(d).len() {
                assert(glob_all(cs)[i] == glob_all(d)[i]);
            } else {
                let j = i - glob_all(d).len();
                let n = last.nodes[j];
                assert(glob_all(cs)[i] == globalize(n, base));
                assert(node_fields_fit(cs[cs.len() - 1].nodes[j]));
                assert(parents_fit(last.nodes, base, i32::MAX as int));
                assert(last.nodes[j] == n);
                assert forall|x: Seq<char>| node_strings(globalize(n, base)).contains(x) implies t.contains(x) by {
                    assert(node_strings(globalize(n, base)) == node_strings(n));
                    assert(node_strings(cs[cs.len() - 1].nodes[j]).contains(x));
                }
            }
        }
    }
}

proof fn lemma_read_nodes_step(b: Seq<u8>, p: int, t: Seq<Seq<char>>, a: Seq<NodeView>, k: int)
    requires
        at(b, p, ser_nodes(t, a, 0)),
        table_indexable(t),
        forall|i: int| 0 <= i < a.len() ==> node_fits(t, #[trigger] a[i]),
        0 <= k <= a.len(),
    ensures
        spec_read_nodes(b, p, a.len(), t) == prepend(a.take(k), spec_read_nodes(b, p + ser_nodes(t, a.take(k), 0).len(), (a.len() - k) as nat, t)),
    decreases k,
{
    let f = |x: Seq<NodeView>| ser_nodes(t, x, 0);
    let g = |x: Seq<NodeView>| ser_node(t, x.last(), 0);
    assert forall|x: Seq<NodeView>| x.len() > 0 implies f(x) == f(x.drop_last()) + #[trigger] g(x) by {}
    if k == 0 {
        assert(a.take(0) =~= Seq::<NodeView>::empty());
        lemma_prepend_nil(spec_read_nodes(b, p, a.len(), t));
    } else {
        lemma_read_nodes_step(b, p, t, a, k - 1);
        lemma_piece(f, g, a, k - 1, b, p);
        let q = p + ser_nodes(t, a.take(k - 1), 0).len();
        let n = a[k - 1];
        assert(a.take(k).last() == n);
        lemma_read_node(b, q, t, n);
        assert(spec_read_nodes(b, q, (a.len() - k + 1) as nat, t) == cons(n, spec_read_nodes(b, q + ser_node(t, n, 0).len(), (a.len() - k) as nat, t)));
        lemma_prepend_cons(a.take(k - 1), n, spec_read_nodes(b, q + ser_node(t, n, 0).len(), (a.len() - k) as nat, t));
        assert(a.take(k - 1).push(n) =~= a.take(k));
    }
}

proof fn lemma_read_nodes(b: Seq<u8>, p: int, t: Seq<Seq<char>>, a: Seq<NodeView>)
    requires
        at(b, p, ser_nodes(t, a, 0)),
        table_indexable(t),
        forall|i: int| 0 <= i < a.len() ==> node_fits(t, #[trigger] a[i]),
    ensures
        spec_read_nodes(b, p, a.len(), t) == Ok::<(Seq<NodeView>, int), PkgErrorView>((a, p + ser_nodes(t, a, 0).len())),
{
    lemma_read_nodes_step(b, p, t, a, a.len() as int);
    assert(a.take(a.len() as int) =~= a);
    lemma_prepend_empty(a, p + ser_nodes(t, a, 0).len());
}


// ---------------------------------------------------------------------------
// Components.
// ---------------------------------------------------------------------------

proof fn lemma_glob_all_prefix(cs: Seq<CompView>, k: int)
    requires
        0 <= k <= cs.len(),
    ensures
        glob_all(cs.take(k)).len() <= glob_all(cs).len(),
        glob_all(cs).subrange(0, glob_all(cs.take(k)).len() as int) == glob_all(cs.take(k)),
    decreases cs.len(),
{
    if k == cs.len() {
        assert(cs.take(k) =~= cs);
        assert(glob_all(cs).subrange(0, glob_all(cs).len() as int) =~= glob_all(cs));
    } else {
        let d = cs.drop_last();
        assert(d.take(k) =~= cs.take(k));
        lemma_glob_all_prefix(d, k);
        let g = glob_all(cs.take(k));
        assert(glob_all(cs).subrange(0, g.len() as int) =~= glob_all(d).subrange(0, g.len() as int));
    }
}

proof fn lemma_glob_all_slice(cs: Seq<CompView>, k: int)
    requires
        0 <= k < cs.len(),
    ensures
        node_total(cs.take(k)) + cs[k].nodes.len() <= node_total(cs),
        glob_all(cs).subrange(node_total(cs.take(k)), node_total(cs.take(k)) + cs[k].nodes.len()) == glob_nodes(cs[k].nodes, node_total(cs.take(k))),
{
    let x = cs.take(k + 1);
    assert(x.drop_last() =~= cs.take(k));
    assert(x.last() == cs[k]);
    lemma_glob_all_prefix(cs, k + 1);
    lemma_glob_all_len(x);
    lemma_glob_all_len(cs.take(k));
    lemma_glob_all_len(cs);
    let s0 = node_total(cs.take(k));
    let n = cs[k].nodes.len();
    assert(glob_all(x) == glob_all(cs.take(k)) + glob_nodes(cs[k].nodes, s0));
    assert(glob_all(cs).subrange(s0, s0 + n) =~= glob_all(x).subrange(s0, s0 + n));
    assert(glob_all(x).subrange(s0, s0 + n) =~= glob_nodes(cs[k].nodes, s0));
}

proof fn lemma_localize_glob(ns: Seq<NodeView>, base: int)
    requires
        base >= 0,
        parents_fit(ns, base, usize::MAX as int),
    ensures
        spec_localize(glob_nodes(ns, base), base) == Ok::<Seq<NodeView>, PkgErrorView>(ns),
{
    let g = glob_nodes(ns, base);
    assert forall|i: int| 0 <= i < g.len() implies !parent_before(#[trigger] g[i], base) by {
        assert(g[i] == globalize(ns[i], base));
    }
    assert(g.map_values(|n: NodeView| localize_parent(n, base)) =~= ns) by {
        assert forall|i: int| 0 <= i < ns.len() implies g.map_values(|n: NodeView| localize_parent(n, base))[i] == ns[i] by {
            assert(g[i] == globalize(ns[i], base));
        }
    }
}

/// Component names are pairwise distinct.
pub open spec fn names_distinct(cs: Seq<CompView>) -> bool {
    forall|a: int, c: int| 0 <= a < c < cs.len() ==> (#[trigger] cs[a]).name != (#[trigger] cs[c]).name
}

pub open spec fn dynamic_fit(cs: Seq<CompView>) -> bool {
    forall|k: int| 0 <= k < cs.len() ==> (#[trigger] cs[k]).dynamic_rules.len() <= u32::MAX
}

#[verifier::rlimit(60)]
proof fn lemma_build_comps(b: Seq<u8>, p3: int, t: Seq<Seq<char>>, cs: Seq<CompView>, m: Seq<Seq<char>>, k: int)
    requires
        t == string_table(cs, m),
        at(b, p3, ser_dynamic(cs)),
        table_indexable(t),
        names_distinct(cs),
        dynamic_fit(cs),
        node_total(cs) <= u32::MAX,
        comps_parents_fit(cs, usize::MAX as int),
        0 <= k <= cs.len(),
    ensures
        spec_build_comps(
            b,
            p3 + ser_dynamic(cs.take(k)).len(),
            comp_entries(t, cs).skip(k),
            glob_all(cs),
            t,
            cs.take(k),
        ) == Ok::<(Seq<CompView>, int), PkgErrorView>((cs, p3 + ser_dynamic(cs).len())),
    decreases cs.len() - k,
{
    let es = comp_entries(t, cs);
    let a = glob_all(cs);
    if k == cs.len() {
        assert(es.skip(k) =~= Seq::<CompEntry>::empty());
        assert(cs.take(k) =~= cs);
    } else {
        lemma_build_comps(b, p3, t, cs, m, k + 1);
        let c = cs[k];
        let e = es.skip(k)[0];
        assert(e == es[k]);
        assert(es.skip(k).drop_first() =~= es.skip(k + 1));
        let x = cs.take(k + 1);
        assert(x.drop_last() =~= cs.take(k));
        assert(x.last() == c);
        assert(e == comp_entry(t, x));
        lemma_name_in_table(cs, m, k);
        lemma_str_idx(t, c.name);
        lemma_node_total_prefix(cs, k);
        lemma_node_total_nonneg(cs.take(k));
        lemma_glob_all_slice(cs, k);
        lemma_glob_all_len(cs);
        let start = node_total(cs.take(k));
        assert(e.1 as int == start);
        assert(e.2 as int == c.nodes.len());
        assert(parents_fit(cs[k].nodes, node_total(cs.take(k)), usize::MAX as int));
        lemma_localize_glob(c.nodes, start);
        let f = |y: Seq<CompView>| ser_dynamic(y);
        let g = |y: Seq<CompView>| y.last().dynamic_rules;
        assert forall|y: Seq<CompView>| y.len() > 0 implies f(y) == f(y.drop_last()) + #[trigger] g(y) by {}
        lemma_piece(f, g, cs, k, b, p3);
        let q = p3 + ser_dynamic(cs.take(k)).len();
        assert(dynamic_fit(cs));
        assert(cs[k].dynamic_rules.len() <= u32::MAX);
        assert(e.3 as int == c.dynamic_rules.len());
        assert(b.subrange(q, q + c.dynamic_rules.len()) == c.dynamic_rules);
        assert(!name_taken(cs.take(k), c.name)) by {
            if name_taken(cs.take(k), c.name) {
                let i = choose|i: int| 0 <= i < cs.take(k).len() && (#[trigger] cs.take(k)[i]).name == c.name;
                assert(cs.take(k)[i] == cs[i]);
            }
        }
        let cv = CompView { name: c.name, nodes: c.nodes, dynamic_rules: c.dynamic_rules };
        assert(cv == c);
        assert(cs.take(k).push(cv) =~= cs.take(k + 1));
    }
}

proof fn lemma_table_total_entries(t: Seq<Seq<char>>, cs: Seq<CompView>)
    requires
        node_total(cs) <= u32::MAX,
    ensures
        table_total(comp_entries(t, cs)) == node_total(cs),
    decreases cs.len(),
{
    if cs.len() > 0 {
        let d = cs.drop_last();
        lemma_node_total_nonneg(d);
        lemma_table_total_entries(t, d);
        assert(comp_entries(t, cs).drop_last() =~= comp_entries(t, d)) by {
            assert forall|i: int| 0 <= i < d.len() implies comp_entries(t, cs).drop_last()[i] == comp_entries(t, d)[i] by {
                assert(cs.take(i + 1) =~= d.take(i + 1));
            }
        }
        assert(cs.take(cs.len() as int) =~= cs);
        assert(comp_entries(t, cs).last() == comp_entry(t, cs));
    }
}


// ---------------------------------------------------------------------------
// The round trip.
// ---------------------------------------------------------------------------

/// A package that its bytes can carry: every component's first node is its root; strings,
/// counts, sizes and global parent positions fit their stored widths (at most 65535 distinct
/// strings, each under 64 KiB of UTF-8; parents within `i32`); no tab index is `i32::MIN`
/// (the stored "none"); component names are distinct.
pub open spec fn package_fits(cs: Seq<CompView>, m: Seq<Seq<char>>) -> bool {
    let t = string_table(cs, m);
    &&& roots_first(cs)
    &&& node_total(cs) <= u32::MAX
    &&& comps_parents_fit(cs, i32::MAX as int)
    &&& comps_fields_fit(cs)
    &&& dynamic_fit(cs)
    &&& cs.len() <= u32::MAX
    &&& m.len() <= u32::MAX
    &&& table_indexable(t)
    &&& strings_short(t)
    &&& names_distinct(cs)
}

proof fn lemma_parents_widen(cs: Seq<CompView>)
    requires
        comps_parents_fit(cs, i32::MAX as int),
    ensures
        comps_parents_fit(cs, usize::MAX as int),
        forall|k: int, j: int|
            0 <= k < cs.len() && 0 <= j < cs[k].nodes.len() && (#[trigger] cs[k].nodes[j]).parent_idx is Some
                ==> node_total(cs.take(k)) + cs[k].nodes[j].parent_idx.unwrap() <= usize::MAX,
{
    assert forall|k: int, j: int|
        0 <= k < cs.len() && 0 <= j < cs[k].nodes.len() && (#[trigger] cs[k].nodes[j]).parent_idx is Some
            implies node_total(cs.take(k)) + cs[k].nodes[j].parent_idx.unwrap() <= usize::MAX by {
        assert(parents_fit(cs[k].nodes, node_total(cs.take(k)), i32::MAX as int));
    }
}

/// Where each section of a written package starts (the string table at 20).
pub open spec fn table_at(cs: Seq<CompView>, m: Seq<Seq<char>>) -> int {
    20 + ser_strings(string_table(cs, m)).len() as int
}

pub open spec fn nodes_at(cs: Seq<CompView>, m: Seq<Seq<char>>) -> int {
    table_at(cs, m) + ser_comp_table(string_table(cs, m), cs).len()
}

pub open spec fn dynamic_at(cs: Seq<CompView>, m: Seq<Seq<char>>) -> int {
    nodes_at(cs, m) + ser_node_block(string_table(cs, m), cs).len()
}

pub open spec fn manifest_at(cs: Seq<CompView>, m: Seq<Seq<char>>) -> int {
    dynamic_at(cs, m) + ser_dynamic(cs).len()
}

proof fn lemma_layout(cs: Seq<CompView>, m: Seq<Seq<char>>)
    ensures
        ({
            let t = string_table(cs, m);
            let b = spec_write_package(cs, m);
            &&& at(b, 0, le32(PKG_MAGIC))
            &&& at(b, 4, le32(PKG_FORMAT_VERSION))
            &&& at(b, 8, le32(0))
            &&& at(b, 12, le32(cs.len() as u32))
            &&& at(b, 16, le32(t.len() as u32))
            &&& at(b, 20, ser_strings(t))
            &&& at(b, table_at(cs, m), ser_comp_table(t, cs))
            &&& at(b, nodes_at(cs, m), ser_node_block(t, cs))
            &&& at(b, dynamic_at(cs, m), ser_dynamic(cs))
            &&& at(b, manifest_at(cs, m), le32(m.len() as u32))
            &&& at(b, manifest_at(cs, m) + 4, ser_idx_list(t, m))
        }),
{
    let t = string_table(cs, m);
    let b = spec_write_package(cs, m);
    let h0 = le32(PKG_MAGIC);
    let h1 = le32(PKG_FORMAT_VERSION);
    let h2 = le32(0);
    let h3 = le32(cs.len() as u32);
    let h4 = le32(t.len() as u32);
    let sv = ser_strings(t);
    let ct = ser_comp_table(t, cs);
    let nb = ser_node_block(t, cs);
    let dy = ser_dynamic(cs);
    let mc = le32(m.len() as u32);
    let ml = ser_idx_list(t, m);
    let hd = ser_header(cs.len() as u32, t.len() as u32);
    assert(hd == h0 + h1 + h2 + h3 + h4);
    assert(b == hd + sv + ct + nb + dy + mc + ml);
    assert(at(b, 0, b)) by {
        assert(b.subrange(0, b.len() as int) =~= b);
    }
    lemma_at_split(b, 0, hd + sv + ct + nb + dy + mc, ml);
    lemma_at_split(b, 0, hd + sv + ct + nb + dy, mc);
    lemma_at_split(b, 0, hd + sv + ct + nb, dy);
    lemma_at_split(b, 0, hd + sv + ct, nb);
    lemma_at_split(b, 0, hd + sv, ct);
    lemma_at_split(b, 0, hd, sv);
    lemma_at_split(b, 0, h0 + h1 + h2 + h3, h4);
    lemma_at_split(b, 0, h0 + h1 + h2, h3);
    lemma_at_split(b, 0, h0 + h1, h2);
    lemma_at_split(b, 0, h0, h1);
}

proof fn lemma_head(cs: Seq<CompView>, m: Seq<Seq<char>>)
    requires
        package_fits(cs, m),
    ensures
        spec_read_head(spec_write_package(cs, m)) == Ok::<(Seq<Seq<char>>, Seq<CompEntry>, int), PkgErrorView>(
            (string_table(cs, m), comp_entries(string_table(cs, m), cs), nodes_at(cs, m)),
        ),
        table_total(comp_entries(string_table(cs, m), cs)) == node_total(cs),
{
    let t = string_table(cs, m);
    let b = spec_write_package(cs, m);
    lemma_layout(cs, m);
    lemma_rd32(b, 0, PKG_MAGIC);
    lemma_rd32(b, 4, PKG_FORMAT_VERSION);
    lemma_rd32(b, 8, 0);
    lemma_rd32(b, 12, cs.len() as u32);
    lemma_rd32(b, 16, t.len() as u32);
    lemma_read_strings(b, 20, t);
    lemma_read_comp_table(b, table_at(cs, m), t, cs);
    lemma_table_total_entries(t, cs);
}

proof fn lemma_layout_nodes(cs: Seq<CompView>, m: Seq<Seq<char>>)
    ensures
        at(spec_write_package(cs, m), nodes_at(cs, m), ser_node_block(string_table(cs, m), cs)),
{
    lemma_layout(cs, m);
}

proof fn lemma_layout_dynamic(cs: Seq<CompView>, m: Seq<Seq<char>>)
    ensures
        at(spec_write_package(cs, m), dynamic_at(cs, m), ser_dynamic(cs)),
{
    lemma_layout(cs, m);
}

proof fn lemma_layout_manifest(cs: Seq<CompView>, m: Seq<Seq<char>>)
    ensures
        at(spec_write_package(cs, m), manifest_at(cs, m), le32(m.len() as u32)),
        at(spec_write_package(cs, m), manifest_at(cs, m) + 4, ser_idx_list(string_table(cs, m), m)),
{
    lemma_layout(cs, m);
}

proof fn lemma_body_nodes(cs: Seq<CompView>, m: Seq<Seq<char>>)
    requires
        package_fits(cs, m),
    ensures
        spec_read_nodes(spec_write_package(cs, m), nodes_at(cs, m), node_total(cs) as nat, string_table(cs, m))
            == Ok::<(Seq<NodeView>, int), PkgErrorView>((glob_all(cs), dynamic_at(cs, m))),
{
    let t = string_table(cs, m);
    let b = spec_write_package(cs, m);
    lemma_layout_nodes(cs, m);
    lemma_parents_widen(cs);
    lemma_node_block_flat(t, cs);
    lemma_glob_all_len(cs);
    assert(comps_strings_in(t, cs)) by {
        assert forall|k: int, j: int, x: Seq<char>|
            0 <= k < cs.len() && 0 <= j < cs[k].nodes.len() && #[trigger] node_strings(cs[k].nodes[j]).contains(x) implies t.contains(x) by {
            lemma_node_string_in_table(cs, m, k, j, x);
        }
    }
    lemma_glob_nodes_fit(t, cs);
    lemma_read_nodes(b, nodes_at(cs, m), t, glob_all(cs));
}

#[verifier::rlimit(40)]
proof fn lemma_body_comps(cs: Seq<CompView>, m: Seq<Seq<char>>)
    requires
        package_fits(cs, m),
    ensures
        spec_build_comps(spec_write_package(cs, m), dynamic_at(cs, m), comp_entries(string_table(cs, m), cs), glob_all(cs), string_table(cs, m), Seq::empty())
            == Ok::<(Seq<CompView>, int), PkgErrorView>((cs, manifest_at(cs, m))),
{
    let t = string_table(cs, m);
    let b = spec_write_package(cs, m);
    lemma_layout_dynamic(cs, m);
    lemma_parents_widen(cs);
    lemma_build_comps(b, dynamic_at(cs, m), t, cs, m, 0);
    assert(comp_entries(t, cs).skip(0) =~= comp_entries(t, cs));
    assert(cs.take(0) =~= Seq::<CompView>::empty());
    assert(ser_dynamic(cs.take(0)).len() == 0);
}

proof fn lemma_body_manifest(cs: Seq<CompView>, m: Seq<Seq<char>>)
    requires
        package_fits(cs, m),
    ensures
        fits(spec_write_package(cs, m), manifest_at(cs, m), 4),
        rd32(spec_write_package(cs, m), manifest_at(cs, m)) == m.len(),
        spec_read_idx_strings(spec_write_package(cs, m), manifest_at(cs, m) + 4, m.len(), string_table(cs, m), "manifest_path_idx"@)
            == Ok::<(Seq<Seq<char>>, int), PkgErrorView>((m, spec_write_package(cs, m).len() as int)),
{
    let t = string_table(cs, m);
    let b = spec_write_package(cs, m);
    lemma_layout_manifest(cs, m);
    lemma_rd32(b, manifest_at(cs, m), m.len() as u32);
    assert forall|i: int| 0 <= i < m.len() implies t.contains(#[trigger] m[i]) by {
        lemma_manifest_in_table(cs, m, i);
    }
    lemma_read_idx(b, manifest_at(cs, m) + 4, t, m, "manifest_path_idx"@);
    lemma_write_len(cs, m);
}

/// A written package ends with its asset-path list.
proof fn lemma_write_len(cs: Seq<CompView>, m: Seq<Seq<char>>)
    ensures
        spec_write_package(cs, m).len() == manifest_at(cs, m) + 4 + ser_idx_list(string_table(cs, m), m).len(),
{
    let t = string_table(cs, m);
    assert(ser_header(cs.len() as u32, t.len() as u32).len() == 20);
    assert(le32(m.len() as u32).len() == 4);
}

/// Writing a package and reading the bytes back gives the same components, in the same order,
/// with the same nodes (kinds, styles, parents, classes, ids, flags, tab indices) and dynamic
/// rules, and the same asset paths; the name read back is empty. The writer accepts every such
/// package, and the reader's node-count condition holds for what it writes.
#[verifier::rlimit(40)]
pub proof fn law_read_of_write(cs: Seq<CompView>, m: Seq<Seq<char>>)
    requires
        package_fits(cs, m),
    ensures
        roots_first(cs),
        offsets_fit(cs),
        read_counts_fit(spec_write_package(cs, m)),
        spec_read_package(spec_write_package(cs, m)) == Ok::<PackageView, PkgErrorView>(
            PackageView { name: Seq::empty(), components: cs, asset_manifest: m },
        ),
{
    lemma_parents_widen(cs);
    lemma_head(cs, m);
    lemma_body_nodes(cs, m);
    lemma_body_comps(cs, m);
    lemma_body_manifest(cs, m);
}

/// Every proper beginning of a written package reads as a truncation error: the reader never
/// gives a partial package, and it stops only where its bytes run out. The beginning also keeps
/// the reader's node-count condition, so `read_package` takes it as it is.
pub proof fn law_written_prefix_truncated(cs: Seq<CompView>, m: Seq<Seq<char>>, k: int)
    requires
        package_fits(cs, m),
        0 <= k < spec_write_package(cs, m).len(),
    ensures
        spec_read_package(spec_write_package(cs, m).take(k)) matches Err(PkgErrorView::Truncated(_)),
        read_counts_fit(spec_write_package(cs, m).take(k)),
{
    let b = spec_write_package(cs, m);
    lemma_parents_widen(cs);
    lemma_head(cs, m);
    lemma_body_nodes(cs, m);
    lemma_body_comps(cs, m);
    lemma_body_manifest(cs, m);
    assert(package_end(b) == Some(b.len() as int));
    lemma_package_prefix(b, k, b.len() as int);
    law_read_of_write(cs, m);
    lemma_prefix_counts_fit(b, k);
}

/// The string count in the header of a written package (bytes 16 to 20) is the number of
/// distinct strings among its component names, text contents, image sources, classes, ids and
/// asset paths: each string is stored once.
pub proof fn law_string_count_distinct(cs: Seq<CompView>, m: Seq<Seq<char>>)
    requires
        (comps_strings(cs) + m).to_set().len() <= u32::MAX,
    ensures
        rd32(spec_write_package(cs, m), 16) == (comps_strings(cs) + m).to_set().len(),
{
    let s = comps_strings(cs) + m;
    let t = string_table(cs, m);
    lemma_dedup(s);
    assert(t.to_set() =~= s.to_set()) by {
        assert forall|x: Seq<char>| t.to_set().contains(x) <==> s.to_set().contains(x) by {
            assert(t.to_set().contains(x) <==> t.contains(x));
            assert(s.to_set().contains(x) <==> s.contains(x));
        }
    }
    assert(t.no_duplicates()) by {
        assert forall|i: int, j: int| 0 <= i < t.len() && 0 <= j < t.len() && i != j implies t[i] != t[j] by {
            if i < j {
                assert(no_dup(t));
            } else {
                assert(no_dup(t));
            }
        }
    }
    t.unique_seq_to_set();
    lemma_layout(cs, m);
    lemma_rd32(spec_write_package(cs, m), 16, t.len() as u32);
}

} // verus!
