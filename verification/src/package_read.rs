//! Reading packages back: what each byte sequence reads as, and the reader.
use vstd::prelude::*;
use vstd::utf8::{decode_utf8, valid_utf8};
use vstd::slice::{slice_subrange, slice_to_vec};
use crate::node::NodeKind;
use crate::selector::strings_view;
use crate::package::{
    PKG_MAGIC, MIN_VERSION, MAX_VERSION, NULL_IDX, KIND_CONTAINER, KIND_BUTTON, KIND_IMAGE, KIND_TEXT,
    TemplateNode, ComponentTemplate, Package, PkgError, KindView, NodeView, CompView, PackageView,
    PkgErrorView, nodes_view, comps_view,
};

verus! {

// ---------------------------------------------------------------------------
// What a byte sequence reads as.
// ---------------------------------------------------------------------------

/// Little-endian `u16` at `p`.
pub open spec fn rd16(b: Seq<u8>, p: int) -> u16 {
    (b[p] as u16) | ((b[p + 1] as u16) << 8u16)
}

/// Little-endian `u32` at `p`.
pub open spec fn rd32(b: Seq<u8>, p: int) -> u32 {
    (b[p] as u32) | ((b[p + 1] as u32) << 8u32) | ((b[p + 2] as u32) << 16u32) | ((b[p + 3] as u32) << 24u32)
}

/// `n` bytes are there at `p`.
pub open spec fn fits(b: Seq<u8>, p: int, n: int) -> bool {
    p + n <= b.len()
}

pub open spec fn trunc(ctx: Seq<char>) -> PkgErrorView {
    PkgErrorView::Truncated(ctx)
}

/// `x` in front of what a read gives.
pub open spec fn cons<T>(x: T, r: Result<(Seq<T>, int), PkgErrorView>) -> Result<(Seq<T>, int), PkgErrorView> {
    match r {
        Ok((rest, q)) => Ok((seq![x] + rest, q)),
        Err(e) => Err(e),
    }
}

/// `acc` in front of what a read gives.
pub open spec fn prepend<T>(acc: Seq<T>, r: Result<(Seq<T>, int), PkgErrorView>) -> Result<(Seq<T>, int), PkgErrorView> {
    match r {
        Ok((rest, q)) => Ok((acc + rest, q)),
        Err(e) => Err(e),
    }
}

pub proof fn lemma_prepend_cons<T>(acc: Seq<T>, x: T, r: Result<(Seq<T>, int), PkgErrorView>)
    ensures
        prepend(acc, cons(x, r)) == prepend(acc.push(x), r),
{
    match r {
        Ok((rest, q)) => {
            assert(acc + (seq![x] + rest) =~= acc.push(x) + rest);
        },
        Err(e) => {},
    }
}

pub proof fn lemma_prepend_empty<T>(acc: Seq<T>, q: int)
    ensures
        prepend(acc, Ok((Seq::<T>::empty(), q))) == Ok::<(Seq<T>, int), PkgErrorView>((acc, q)),
{
    assert(acc + Seq::<T>::empty() =~= acc);
}

/// A string-table lookup: index `0xFFFF` is the empty string, an index past the table an error.
pub open spec fn spec_string_at(strings: Seq<Seq<char>>, idx: u16) -> Result<Seq<char>, PkgErrorView> {
    if idx == NULL_IDX {
        Ok(Seq::empty())
    } else if (idx as int) < strings.len() {
        Ok(strings[idx as int])
    } else {
        Err(PkgErrorView::OobString(idx))
    }
}

/// `n` strings, each a `u16` byte length and UTF-8 bytes.
pub open spec fn spec_read_strings(b: Seq<u8>, p: int, n: nat) -> Result<(Seq<Seq<char>>, int), PkgErrorView>
    decreases n,
{
    if n == 0 {
        Ok((Seq::empty(), p))
    } else if !fits(b, p, 2) {
        Err(trunc("str_len"@))
    } else {
        let len = rd16(b, p) as int;
        if !fits(b, p + 2, len) {
            Err(trunc("str_bytes"@))
        } else if !valid_utf8(b.subrange(p + 2, p + 2 + len)) {
            Err(trunc("str_bytes"@))
        } else {
            cons(decode_utf8(b.subrange(p + 2, p + 2 + len)), spec_read_strings(b, p + 2 + len, (n - 1) as nat))
        }
    }
}

/// One component-table entry: name index, first node, node count, dynamic-rule blob length.
pub type CompEntry = (u16, u32, u32, u32);

pub open spec fn spec_read_comp_table(b: Seq<u8>, p: int, n: nat) -> Result<(Seq<CompEntry>, int), PkgErrorView>
    decreases n,
{
    if n == 0 {
        Ok((Seq::empty(), p))
    } else if !fits(b, p, 2) {
        Err(trunc("comp_name_idx"@))
    } else if !fits(b, p + 2, 4) {
        Err(trunc("comp_root_node_idx"@))
    } else if !fits(b, p + 6, 4) {
        Err(trunc("comp_node_count"@))
    } else if !fits(b, p + 10, 4) {
        Err(trunc("comp_dynamic_len"@))
    } else {
        cons((rd16(b, p), rd32(b, p + 2), rd32(b, p + 6), rd32(b, p + 10)), spec_read_comp_table(b, p + 14, (n - 1) as nat))
    }
}

/// `n` string indices, each looked up (`ctx` names the field when bytes run out).
pub open spec fn spec_read_idx_strings(b: Seq<u8>, p: int, n: nat, strings: Seq<Seq<char>>, ctx: Seq<char>) -> Result<(Seq<Seq<char>>, int), PkgErrorView>
    decreases n,
{
    if n == 0 {
        Ok((Seq::empty(), p))
    } else if !fits(b, p, 2) {
        Err(trunc(ctx))
    } else {
        match spec_string_at(strings, rd16(b, p)) {
            Err(e) => Err(e),
            Ok(s) => cons(s, spec_read_idx_strings(b, p + 2, (n - 1) as nat, strings, ctx)),
        }
    }
}

pub open spec fn decode_kind(tag: u8, ti: u16, si: u16, strings: Seq<Seq<char>>) -> Result<KindView, PkgErrorView> {
    if tag == KIND_CONTAINER {
        Ok(KindView::Container)
    } else if tag == KIND_BUTTON {
        Ok(KindView::Button)
    } else if tag == KIND_IMAGE {
        match spec_string_at(strings, si) {
            Ok(s) => Ok(KindView::Image(s)),
            Err(e) => Err(e),
        }
    } else if tag == KIND_TEXT {
        match spec_string_at(strings, ti) {
            Ok(s) => Ok(KindView::Text(s)),
            Err(e) => Err(e),
        }
    } else {
        Err(PkgErrorView::BadKind(tag))
    }
}

pub open spec fn decode_id(id: u16, strings: Seq<Seq<char>>) -> Result<Option<Seq<char>>, PkgErrorView> {
    if id == NULL_IDX {
        Ok(None)
    } else {
        match spec_string_at(strings, id) {
            Ok(s) => Ok(Some(s)),
            Err(e) => Err(e),
        }
    }
}

pub open spec fn decode_parent(code: i32) -> Option<usize> {
    if code < 0 {
        None
    } else {
        Some(code as usize)
    }
}

pub open spec fn decode_tab(code: i32) -> Option<i32> {
    if code == i32::MIN {
        None
    } else {
        Some(code)
    }
}

/// One node record; its parent is still the global position.
pub open spec fn spec_read_node(b: Seq<u8>, p: int, strings: Seq<Seq<char>>) -> Result<(NodeView, int), PkgErrorView> {
    if !fits(b, p, 4) {
        Err(trunc("parent_idx"@))
    } else if !fits(b, p + 4, 1) {
        Err(trunc("kind"@))
    } else if !fits(b, p + 5, 4) {
        Err(trunc("style_len"@))
    } else if !fits(b, p + 9, rd32(b, p + 5) as int) {
        Err(trunc("style_blob"@))
    } else {
        let q = p + 9 + rd32(b, p + 5) as int;
        if !fits(b, q, 2) {
            Err(trunc("text_idx"@))
        } else if !fits(b, q + 2, 2) {
            Err(trunc("src_idx"@))
        } else if !fits(b, q + 4, 2) {
            Err(trunc("class_count"@))
        } else {
            match spec_read_idx_strings(b, q + 6, rd16(b, q + 4) as nat, strings, "class_idx"@) {
                Err(e) => Err(e),
                Ok((classes, r)) => if !fits(b, r, 2) {
                    Err(trunc("id_idx"@))
                } else {
                    match decode_id(rd16(b, r), strings) {
                        Err(e) => Err(e),
                        Ok(id_attr) => if !fits(b, r + 2, 1) {
                            Err(trunc("flags"@))
                        } else if !fits(b, r + 3, 4) {
                            Err(trunc("tabindex"@))
                        } else {
                            match decode_kind(b[p + 4], rd16(b, q), rd16(b, q + 2), strings) {
                                Err(e) => Err(e),
                                Ok(kind) => Ok((
                                    NodeView {
                                        kind,
                                        style: b.subrange(p + 9, q),
                                        parent_idx: decode_parent(rd32(b, p) as i32),
                                        classes,
                                        id_attr,
                                        draggable: b[r + 2] & 1 != 0,
                                        tabindex: decode_tab(rd32(b, r + 3) as i32),
                                    },
                                    r + 7,
                                )),
                            }
                        },
                    }
                },
            }
        }
    }
}

pub open spec fn spec_read_nodes(b: Seq<u8>, p: int, n: nat, strings: Seq<Seq<char>>) -> Result<(Seq<NodeView>, int), PkgErrorView>
    decreases n,
{
    if n == 0 {
        Ok((Seq::empty(), p))
    } else {
        match spec_read_node(b, p, strings) {
            Err(e) => Err(e),
            Ok((node, q)) => cons(node, spec_read_nodes(b, q, (n - 1) as nat, strings)),
        }
    }
}

pub open spec fn localize_parent(n: NodeView, base: int) -> NodeView {
    NodeView {
        kind: n.kind,
        style: n.style,
        parent_idx: match n.parent_idx {
            Some(q) => Some((q - base) as usize),
            None => None,
        },
        classes: n.classes,
        id_attr: n.id_attr,
        draggable: n.draggable,
        tabindex: n.tabindex,
    }
}

/// A node's parent lies before the component's first node.
pub open spec fn parent_before(n: NodeView, base: int) -> bool {
    n.parent_idx matches Some(q) && q < base
}

/// The nodes of a component starting at global position `base`, with parents made local.
pub open spec fn spec_localize(ns: Seq<NodeView>, base: int) -> Result<Seq<NodeView>, PkgErrorView> {
    if exists|i: int| 0 <= i < ns.len() && parent_before(#[trigger] ns[i], base) {
        Err(trunc("cross_comp_parent"@))
    } else {
        Ok(ns.map_values(|n: NodeView| localize_parent(n, base)))
    }
}

pub open spec fn name_taken(acc: Seq<CompView>, name: Seq<char>) -> bool {
    exists|k: int| 0 <= k < acc.len() && (#[trigger] acc[k]).name == name
}

/// The components of the table, after `acc`, cut from the node block, each with its dynamic-rule
/// blob read at `p`.
pub open spec fn spec_build_comps(
    b: Seq<u8>,
    p: int,
    table: Seq<CompEntry>,
    all: Seq<NodeView>,
    strings: Seq<Seq<char>>,
    acc: Seq<CompView>,
) -> Result<(Seq<CompView>, int), PkgErrorView>
    decreases table.len(),
{
    if table.len() == 0 {
        Ok((acc, p))
    } else {
        let e = table[0];
        match spec_string_at(strings, e.0) {
            Err(err) => Err(err),
            Ok(name) => {
                let start = e.1 as int;
                let end = start + e.2 as int;
                if start > all.len() || end > all.len() {
                    Err(trunc("comp_node_slice"@))
                } else {
                    match spec_localize(all.subrange(start, end), start) {
                        Err(err) => Err(err),
                        Ok(nodes) => if !fits(b, p, e.3 as int) {
                            Err(trunc("comp_dynamic_blob"@))
                        } else if name_taken(acc, name) {
                            Err(PkgErrorView::DupComponent(name))
                        } else {
                            spec_build_comps(
                                b,
                                p + e.3 as int,
                                table.drop_first(),
                                all,
                                strings,
                                acc.push(CompView { name, nodes, dynamic_rules: b.subrange(p, p + e.3 as int) }),
                            )
                        },
                    }
                }
            },
        }
    }
}

/// Header, string table and component table.
pub open spec fn spec_read_head(b: Seq<u8>) -> Result<(Seq<Seq<char>>, Seq<CompEntry>, int), PkgErrorView> {
    if !fits(b, 0, 4) {
        Err(trunc("magic"@))
    } else if rd32(b, 0) != PKG_MAGIC {
        Err(PkgErrorView::BadMagic)
    } else if !fits(b, 4, 4) {
        Err(trunc("version"@))
    } else if rd32(b, 4) < MIN_VERSION {
        Err(PkgErrorView::TooOld(rd32(b, 4)))
    } else if rd32(b, 4) > MAX_VERSION {
        Err(PkgErrorView::TooNew(rd32(b, 4)))
    } else if !fits(b, 8, 4) {
        Err(trunc("flags"@))
    } else if !fits(b, 12, 4) {
        Err(trunc("component_count"@))
    } else if !fits(b, 16, 4) {
        Err(trunc("string_count"@))
    } else {
        match spec_read_strings(b, 20, rd32(b, 16) as nat) {
            Err(e) => Err(e),
            Ok((strings, p1)) => match spec_read_comp_table(b, p1, rd32(b, 12) as nat) {
                Err(e) => Err(e),
                Ok((table, p2)) => Ok((strings, table, p2)),
            },
        }
    }
}

/// Total node count of a component table.
pub open spec fn table_total(t: Seq<CompEntry>) -> int
    decreases t.len(),
{
    if t.len() == 0 {
        0
    } else {
        table_total(t.drop_last()) + t.last().2
    }
}

/// The node counts of the component table add up within `u32`.
pub open spec fn read_counts_fit(b: Seq<u8>) -> bool {
    match spec_read_head(b) {
        Ok((_, t, _)) => table_total(t) <= u32::MAX,
        Err(_) => true,
    }
}

/// What a byte sequence reads as.
pub open spec fn spec_read_package(b: Seq<u8>) -> Result<PackageView, PkgErrorView> {
    match spec_read_head(b) {
        Err(e) => Err(e),
        Ok((strings, table, p2)) => match spec_read_nodes(b, p2, table_total(table) as nat, strings) {
            Err(e) => Err(e),
            Ok((all, p3)) => match spec_build_comps(b, p3, table, all, strings, Seq::empty()) {
                Err(e) => Err(e),
                Ok((comps, p4)) => if !fits(b, p4, 4) {
                    Err(trunc("manifest_path_count"@))
                } else {
                    match spec_read_idx_strings(b, p4 + 4, rd32(b, p4) as nat, strings, "manifest_path_idx"@) {
                        Err(e) => Err(e),
                        Ok((m, _)) => Ok(PackageView { name: Seq::empty(), components: comps, asset_manifest: m }),
                    }
                },
            },
        },
    }
}


// ---------------------------------------------------------------------------
// The blobs the reader takes, in order.
// ---------------------------------------------------------------------------

/// A blob taken by the reader: its byte range and whether it is a node's style blob (else a
/// component's dynamic-rule blob).
pub open spec fn blobs_model(v: Seq<(usize, usize, bool)>) -> Seq<(int, int, bool)> {
    Seq::new(v.len(), |i: int| (v[i].0 as int, v[i].1 as int, v[i].2))
}

/// The style blob of the node record at `p`, once its bytes are there (whatever comes after it).
pub open spec fn node_blob(b: Seq<u8>, p: int) -> Seq<(int, int, bool)> {
    if fits(b, p, 4) && fits(b, p + 4, 1) && fits(b, p + 5, 4) && fits(b, p + 9, rd32(b, p + 5) as int) {
        seq![(p + 9, p + 9 + rd32(b, p + 5) as int, true)]
    } else {
        Seq::empty()
    }
}

/// The style blobs of `n` node records from `p`, up to the record where the read stops.
pub open spec fn nodes_blobs(b: Seq<u8>, p: int, n: nat, strings: Seq<Seq<char>>) -> Seq<(int, int, bool)>
    decreases n,
{
    if n == 0 {
        Seq::empty()
    } else {
        node_blob(b, p) + match spec_read_node(b, p, strings) {
            Ok((_, q)) => nodes_blobs(b, q, (n - 1) as nat, strings),
            Err(_) => Seq::empty(),
        }
    }
}

/// The dynamic-rule blobs of the components (see `spec_build_comps`), up to where the read stops.
pub open spec fn comps_blobs(
    b: Seq<u8>,
    p: int,
    table: Seq<CompEntry>,
    all: Seq<NodeView>,
    strings: Seq<Seq<char>>,
    acc: Seq<CompView>,
) -> Seq<(int, int, bool)>
    decreases table.len(),
{
    if table.len() == 0 {
        Seq::empty()
    } else {
        let e = table[0];
        match spec_string_at(strings, e.0) {
            Err(_) => Seq::empty(),
            Ok(name) => {
                let start = e.1 as int;
                let end = start + e.2 as int;
                if start > all.len() || end > all.len() {
                    Seq::empty()
                } else {
                    match spec_localize(all.subrange(start, end), start) {
                        Err(_) => Seq::empty(),
                        Ok(nodes) => if !fits(b, p, e.3 as int) {
                            Seq::empty()
                        } else {
                            seq![(p, p + e.3 as int, false)] + if name_taken(acc, name) {
                                Seq::empty()
                            } else {
                                comps_blobs(
                                    b,
                                    p + e.3 as int,
                                    table.drop_first(),
                                    all,
                                    strings,
                                    acc.push(CompView { name, nodes, dynamic_rules: b.subrange(p, p + e.3 as int) }),
                                )
                            }
                        },
                    }
                }
            },
        }
    }
}

/// Every blob the reader takes from a byte sequence, in the order it takes them, up to where it
/// stops: the style blobs of the node records, then the dynamic-rule blobs of the components.
pub open spec fn package_blobs(b: Seq<u8>) -> Seq<(int, int, bool)> {
    match spec_read_head(b) {
        Err(_) => Seq::empty(),
        Ok((strings, table, p2)) => nodes_blobs(b, p2, table_total(table) as nat, strings)
            + match spec_read_nodes(b, p2, table_total(table) as nat, strings) {
            Err(_) => Seq::empty(),
            Ok((all, p3)) => comps_blobs(b, p3, table, all, strings, Seq::empty()),
        },
    }
}


// ---------------------------------------------------------------------------
// The reader.
// ---------------------------------------------------------------------------

/// The characters of a byte slice, where it is valid UTF-8.
/// Wraps `std::str::from_utf8`, which std documents as succeeding exactly on valid UTF-8.
#[verifier::external_body]
fn utf8_to_string(bytes: &[u8]) -> (r: Option<String>)
    ensures
        r is Some <==> valid_utf8(bytes@),
        r matches Some(s) ==> s@ == decode_utf8(bytes@),
{
    match std::str::from_utf8(bytes) {
        Ok(s) => Some(s.to_string()),
        Err(_) => None,
    }
}

/// A cursor over the package bytes; every read checks that the bytes are there.
pub(crate) struct Reader<'a> {
    buf: &'a [u8],
    pos: usize,
}

impl<'a> Reader<'a> {
    pub(crate) closed spec fn bytes(&self) -> Seq<u8> {
        self.buf@
    }

    pub(crate) closed spec fn at(&self) -> int {
        self.pos as int
    }

    pub(crate) closed spec fn wf(&self) -> bool {
        self.pos <= self.buf@.len()
    }

    fn new(buf: &'a [u8]) -> (r: Reader<'a>)
        ensures
            r.bytes() == buf@,
            r.at() == 0,
            r.wf(),
    {
        Reader { buf, pos: 0 }
    }

    /// The next `n` bytes.
    fn need(&mut self, n: usize, ctx: &'static str) -> (r: Result<&'a [u8], PkgError>)
        requires
            old(self).wf(),
        ensures
            final(self).wf(),
            final(self).bytes() == old(self).bytes(),
            fits(old(self).bytes(), old(self).at(), n as int) ==> (r matches Ok(s) && s@ == old(self).bytes().subrange(
                old(self).at(),
                old(self).at() + n,
            ) && final(self).at() == old(self).at() + n),
            !fits(old(self).bytes(), old(self).at(), n as int) ==> (r matches Err(e) && e@ == trunc(ctx@)),
    {
        if n > self.buf.len() - self.pos {
            return Err(PkgError::Truncated(ctx));
        }
        let s = slice_subrange(self.buf, self.pos, self.pos + n);
        self.pos = self.pos + n;
        Ok(s)
    }

    fn u8(&mut self, ctx: &'static str) -> (r: Result<u8, PkgError>)
        requires
            old(self).wf(),
        ensures
            final(self).wf(),
            final(self).bytes() == old(self).bytes(),
            fits(old(self).bytes(), old(self).at(), 1) ==> (r matches Ok(v) && v == old(self).bytes()[old(self).at()]
                && final(self).at() == old(self).at() + 1),
            !fits(old(self).bytes(), old(self).at(), 1) ==> (r matches Err(e) && e@ == trunc(ctx@)),
    {
        let s = self.need(1, ctx)?;
        Ok(s[0])
    }

    fn u16(&mut self, ctx: &'static str) -> (r: Result<u16, PkgError>)
        requires
            old(self).wf(),
        ensures
            final(self).wf(),
            final(self).bytes() == old(self).bytes(),
            fits(old(self).bytes(), old(self).at(), 2) ==> (r matches Ok(v) && v == rd16(old(self).bytes(), old(self).at())
                && final(self).at() == old(self).at() + 2),
            !fits(old(self).bytes(), old(self).at(), 2) ==> (r matches Err(e) && e@ == trunc(ctx@)),
    {
        let s = self.need(2, ctx)?;
        Ok((s[0] as u16) | ((s[1] as u16) << 8u16))
    }

    fn u32(&mut self, ctx: &'static str) -> (r: Result<u32, PkgError>)
        requires
            old(self).wf(),
        ensures
            final(self).wf(),
            final(self).bytes() == old(self).bytes(),
            fits(old(self).bytes(), old(self).at(), 4) ==> (r matches Ok(v) && v == rd32(old(self).bytes(), old(self).at())
                && final(self).at() == old(self).at() + 4),
            !fits(old(self).bytes(), old(self).at(), 4) ==> (r matches Err(e) && e@ == trunc(ctx@)),
    {
        let s = self.need(4, ctx)?;
        Ok((s[0] as u32) | ((s[1] as u32) << 8u32) | ((s[2] as u32) << 16u32) | ((s[3] as u32) << 24u32))
    }

    fn i32(&mut self, ctx: &'static str) -> (r: Result<i32, PkgError>)
        requires
            old(self).wf(),
        ensures
            final(self).wf(),
            final(self).bytes() == old(self).bytes(),
            fits(old(self).bytes(), old(self).at(), 4) ==> (r matches Ok(v) && v == rd32(old(self).bytes(), old(self).at()) as i32
                && final(self).at() == old(self).at() + 4),
            !fits(old(self).bytes(), old(self).at(), 4) ==> (r matches Err(e) && e@ == trunc(ctx@)),
    {
        let v = self.u32(ctx)?;
        Ok(v as i32)
    }

    fn take(&mut self, n: usize, ctx: &'static str) -> (r: Result<&'a [u8], PkgError>)
        requires
            old(self).wf(),
        ensures
            final(self).wf(),
            final(self).bytes() == old(self).bytes(),
            fits(old(self).bytes(), old(self).at(), n as int) ==> (r matches Ok(s) && s@ == old(self).bytes().subrange(
                old(self).at(),
                old(self).at() + n,
            ) && final(self).at() == old(self).at() + n),
            !fits(old(self).bytes(), old(self).at(), n as int) ==> (r matches Err(e) && e@ == trunc(ctx@)),
    {
        self.need(n, ctx)
    }

    /// The next `n` bytes as a string; invalid UTF-8 counts as truncation.
    fn utf8(&mut self, n: usize, ctx: &'static str) -> (r: Result<String, PkgError>)
        requires
            old(self).wf(),
        ensures
            final(self).wf(),
            final(self).bytes() == old(self).bytes(),
            ({
                let b = old(self).bytes();
                let p = old(self).at();
                if !fits(b, p, n as int) || !valid_utf8(b.subrange(p, p + n)) {
                    r matches Err(e) && e@ == trunc(ctx@)
                } else {
                    r matches Ok(s) && s@ == decode_utf8(b.subrange(p, p + n)) && final(self).at() == p + n
                }
            }),
    {
        let s = self.need(n, ctx)?;
        match utf8_to_string(s) {
            Some(st) => Ok(st),
            None => Err(PkgError::Truncated(ctx)),
        }
    }
}

/// A string of the table by index; index `0xFFFF` is the empty string.
fn string_at(strings: &[String], idx: u16) -> (r: Result<String, PkgError>)
    ensures
        r matches Ok(s) ==> spec_string_at(strings_view(strings@), idx) == Ok::<Seq<char>, PkgErrorView>(s@),
        r matches Err(e) ==> spec_string_at(strings_view(strings@), idx) == Err::<Seq<char>, PkgErrorView>(e@),
{
    if idx == NULL_IDX {
        return Ok(String::new());
    }
    if (idx as usize) < strings.len() {
        Ok(strings[idx as usize].clone())
    } else {
        Err(PkgError::OobString(idx))
    }
}

fn read_strings(rd: &mut Reader, n: u32) -> (r: Result<Vec<String>, PkgError>)
    requires
        old(rd).wf(),
    ensures
        final(rd).wf(),
        final(rd).bytes() == old(rd).bytes(),
        r matches Ok(v) ==> spec_read_strings(old(rd).bytes(), old(rd).at(), n as nat) == Ok::<(Seq<Seq<char>>, int), PkgErrorView>((strings_view(v@), final(rd).at())),
        r matches Err(e) ==> spec_read_strings(old(rd).bytes(), old(rd).at(), n as nat) == Err::<(Seq<Seq<char>>, int), PkgErrorView>(e@),
{
    let ghost b = rd.bytes();
    let ghost whole = spec_read_strings(b, rd.at(), n as nat);
    let mut out: Vec<String> = Vec::new();
    let mut k: u32 = 0;
    while k < n
        invariant
            k <= n,
            rd.wf(),
            rd.bytes() == b,
            b == old(rd).bytes(),
            whole == spec_read_strings(old(rd).bytes(), old(rd).at(), n as nat),
            whole == prepend(strings_view(out@), spec_read_strings(b, rd.at(), (n - k) as nat)),
        decreases n - k,
    {
        let len = rd.u16("str_len")?;
        let s = rd.utf8(len as usize, "str_bytes")?;
        let ghost o = out@;
        out.push(s);
        proof {
            lemma_prepend_cons(strings_view(o), s@, spec_read_strings(b, rd.at(), (n - k - 1) as nat));
            assert(strings_view(out@) =~= strings_view(o).push(s@));
        }
        k = k + 1;
    }
    proof {
        lemma_prepend_empty(strings_view(out@), rd.at());
    }
    Ok(out)
}

fn read_comp_table(rd: &mut Reader, n: u32) -> (r: Result<Vec<CompEntry>, PkgError>)
    requires
        old(rd).wf(),
    ensures
        final(rd).wf(),
        final(rd).bytes() == old(rd).bytes(),
        r matches Ok(v) ==> spec_read_comp_table(old(rd).bytes(), old(rd).at(), n as nat) == Ok::<(Seq<CompEntry>, int), PkgErrorView>((v@, final(rd).at())),
        r matches Err(e) ==> spec_read_comp_table(old(rd).bytes(), old(rd).at(), n as nat) == Err::<(Seq<CompEntry>, int), PkgErrorView>(e@),
{
    let ghost b = rd.bytes();
    let ghost whole = spec_read_comp_table(b, rd.at(), n as nat);
    let mut out: Vec<CompEntry> = Vec::new();
    let mut k: u32 = 0;
    while k < n
        invariant
            k <= n,
            rd.wf(),
            rd.bytes() == b,
            b == old(rd).bytes(),
            whole == spec_read_comp_table(old(rd).bytes(), old(rd).at(), n as nat),
            whole == prepend(out@, spec_read_comp_table(b, rd.at(), (n - k) as nat)),
        decreases n - k,
    {
        let name_idx = rd.u16("comp_name_idx")?;
        let root = rd.u32("comp_root_node_idx")?;
        let count = rd.u32("comp_node_count")?;
        let dyn_len = rd.u32("comp_dynamic_len")?;
        let ghost o = out@;
        out.push((name_idx, root, count, dyn_len));
        proof {
            lemma_prepend_cons(o, (name_idx, root, count, dyn_len), spec_read_comp_table(b, rd.at(), (n - k - 1) as nat));
        }
        k = k + 1;
    }
    proof {
        lemma_prepend_empty(out@, rd.at());
    }
    Ok(out)
}

fn read_idx_strings(rd: &mut Reader, n: u32, strings: &Vec<String>, ctx: &'static str) -> (r: Result<Vec<String>, PkgError>)
    requires
        old(rd).wf(),
    ensures
        final(rd).wf(),
        final(rd).bytes() == old(rd).bytes(),
        r matches Ok(v) ==> spec_read_idx_strings(old(rd).bytes(), old(rd).at(), n as nat, strings_view(strings@), ctx@) == Ok::<(Seq<Seq<char>>, int), PkgErrorView>((strings_view(v@), final(rd).at())),
        r matches Err(e) ==> spec_read_idx_strings(old(rd).bytes(), old(rd).at(), n as nat, strings_view(strings@), ctx@) == Err::<(Seq<Seq<char>>, int), PkgErrorView>(e@),
{
    let ghost b = rd.bytes();
    let ghost sv = strings_view(strings@);
    let ghost whole = spec_read_idx_strings(b, rd.at(), n as nat, sv, ctx@);
    let mut out: Vec<String> = Vec::new();
    let mut k: u32 = 0;
    while k < n
        invariant
            k <= n,
            rd.wf(),
            rd.bytes() == b,
            sv == strings_view(strings@),
            b == old(rd).bytes(),
            whole == spec_read_idx_strings(old(rd).bytes(), old(rd).at(), n as nat, sv, ctx@),
            whole == prepend(strings_view(out@), spec_read_idx_strings(b, rd.at(), (n - k) as nat, sv, ctx@)),
        decreases n - k,
    {
        let idx = rd.u16(ctx)?;
        let s = string_at(strings.as_slice(), idx)?;
        let ghost o = out@;
        out.push(s);
        proof {
            lemma_prepend_cons(strings_view(o), s@, spec_read_idx_strings(b, rd.at(), (n - k - 1) as nat, sv, ctx@));
            assert(strings_view(out@) =~= strings_view(o).push(s@));
        }
        k = k + 1;
    }
    proof {
        lemma_prepend_empty(strings_view(out@), rd.at());
    }
    Ok(out)
}


fn read_node(rd: &mut Reader, strings: &Vec<String>, blobs: &mut Vec<(usize, usize, bool)>) -> (r: Result<TemplateNode, PkgError>)
    requires
        old(rd).wf(),
    ensures
        blobs_model(final(blobs)@) == blobs_model(old(blobs)@) + node_blob(old(rd).bytes(), old(rd).at()),
        final(rd).wf(),
        final(rd).bytes() == old(rd).bytes(),
        r matches Ok(n) ==> spec_read_node(old(rd).bytes(), old(rd).at(), strings_view(strings@)) == Ok::<(NodeView, int), PkgErrorView>((n@, final(rd).at())),
        r matches Err(e) ==> spec_read_node(old(rd).bytes(), old(rd).at(), strings_view(strings@)) == Err::<(NodeView, int), PkgErrorView>(e@),
{
    let ghost sv = strings_view(strings@);
    let pidx = rd.i32("parent_idx")?;
    let kind_tag = rd.u8("kind")?;
    let style_len = rd.u32("style_len")?;
    let from = rd.pos;
    let style_s = rd.take(style_len as usize, "style_blob")?;
    let ghost b0 = blobs@;
    blobs.push((from, rd.pos, true));
    proof {
        assert(blobs_model(blobs@) =~= blobs_model(b0) + node_blob(old(rd).bytes(), old(rd).at()));
    }
    let style = slice_to_vec(style_s);
    let text_idx = rd.u16("text_idx")?;
    let src_idx = rd.u16("src_idx")?;
    let class_count = rd.u16("class_count")?;
    let classes = read_idx_strings(rd, class_count as u32, strings, "class_idx")?;
    let id_idx = rd.u16("id_idx")?;
    let id_attr = if id_idx == NULL_IDX {
        None
    } else {
        Some(string_at(strings.as_slice(), id_idx)?)
    };
    let flags = rd.u8("flags")?;
    let tab_raw = rd.i32("tabindex")?;
    let tabindex = if tab_raw == i32::MIN {
        None
    } else {
        Some(tab_raw)
    };
    let parent_idx = if pidx < 0 {
        None
    } else {
        Some(pidx as usize)
    };
    let kind = if kind_tag == KIND_CONTAINER {
        NodeKind::Container
    } else if kind_tag == KIND_BUTTON {
        NodeKind::Button
    } else if kind_tag == KIND_IMAGE {
        NodeKind::Image { src: string_at(strings.as_slice(), src_idx)? }
    } else if kind_tag == KIND_TEXT {
        NodeKind::Text { content: string_at(strings.as_slice(), text_idx)? }
    } else {
        return Err(PkgError::BadKind(kind_tag));
    };
    Ok(TemplateNode { kind, style, parent_idx, classes, id_attr, draggable: (flags & 1) != 0, tabindex })
}

fn read_nodes(rd: &mut Reader, n: u32, strings: &Vec<String>, blobs: &mut Vec<(usize, usize, bool)>) -> (r: Result<Vec<TemplateNode>, PkgError>)
    requires
        old(rd).wf(),
    ensures
        blobs_model(final(blobs)@) == blobs_model(old(blobs)@) + nodes_blobs(old(rd).bytes(), old(rd).at(), n as nat, strings_view(strings@)),
        final(rd).wf(),
        final(rd).bytes() == old(rd).bytes(),
        r matches Ok(v) ==> spec_read_nodes(old(rd).bytes(), old(rd).at(), n as nat, strings_view(strings@)) == Ok::<(Seq<NodeView>, int), PkgErrorView>((nodes_view(v@), final(rd).at())),
        r matches Err(e) ==> spec_read_nodes(old(rd).bytes(), old(rd).at(), n as nat, strings_view(strings@)) == Err::<(Seq<NodeView>, int), PkgErrorView>(e@),
{
    let ghost b = rd.bytes();
    let ghost sv = strings_view(strings@);
    let ghost whole = spec_read_nodes(b, rd.at(), n as nat, sv);
    let mut out: Vec<TemplateNode> = Vec::new();
    let mut k: u32 = 0;
    while k < n
        invariant
            k <= n,
            rd.wf(),
            rd.bytes() == b,
            b == old(rd).bytes(),
            sv == strings_view(strings@),
            whole == spec_read_nodes(old(rd).bytes(), old(rd).at(), n as nat, sv),
            whole == prepend(nodes_view(out@), spec_read_nodes(b, rd.at(), (n - k) as nat, sv)),
            blobs_model(old(blobs)@) + nodes_blobs(b, old(rd).at(), n as nat, sv)
                == blobs_model(blobs@) + nodes_blobs(b, rd.at(), (n - k) as nat, sv),
        decreases n - k,
    {
        let ghost bl = blobs@;
        let ghost p = rd.at();
        let res = read_node(rd, strings, blobs);
        proof {
            assert(blobs_model(bl) + nodes_blobs(b, p, (n - k) as nat, sv)
                =~= blobs_model(blobs@) + match spec_read_node(b, p, sv) {
                    Ok((_, q)) => nodes_blobs(b, q, (n - k - 1) as nat, sv),
                    Err(_) => Seq::empty(),
                });
        }
        let node = match res {
            Ok(x) => x,
            Err(e) => {
                proof {
                    assert(blobs_model(blobs@) + Seq::<(int, int, bool)>::empty() =~= blobs_model(blobs@));
                }
                return Err(e);
            },
        };
        let ghost o = out@;
        let ghost nv = node@;
        out.push(node);
        proof {
            lemma_prepend_cons(nodes_view(o), nv, spec_read_nodes(b, rd.at(), (n - k - 1) as nat, sv));
            assert(nodes_view(out@) =~= nodes_view(o).push(nv));
        }
        k = k + 1;
    }
    proof {
        lemma_prepend_empty(nodes_view(out@), rd.at());
        assert(blobs_model(blobs@) + nodes_blobs(b, rd.at(), 0, sv) =~= blobs_model(blobs@));
    }
    Ok(out)
}

fn clone_strings(v: &Vec<String>) -> (out: Vec<String>)
    ensures
        strings_view(out@) == strings_view(v@),
{
    let mut out: Vec<String> = Vec::new();
    let mut i: usize = 0;
    while i < v.len()
        invariant
            i <= v@.len(),
            strings_view(out@) == strings_view(v@).take(i as int),
        decreases v@.len() - i,
    {
        let ghost o = out@;
        out.push(v[i].clone());
        proof {
            assert(strings_view(out@) =~= strings_view(o).push(v@[i as int]@));
            assert(strings_view(v@).take(i + 1) =~= strings_view(v@).take(i as int).push(v@[i as int]@));
        }
        i = i + 1;
    }
    assert(strings_view(v@).take(v@.len() as int) =~= strings_view(v@));
    out
}

/// A copy of a node with the given parent.
fn node_with_parent(n: &TemplateNode, parent: Option<usize>) -> (c: TemplateNode)
    ensures
        c@ == (NodeView { parent_idx: parent, ..n@ }),
{
    let kind = match &n.kind {
        NodeKind::Container => NodeKind::Container,
        NodeKind::Button => NodeKind::Button,
        NodeKind::Image { src } => NodeKind::Image { src: src.clone() },
        NodeKind::Text { content } => NodeKind::Text { content: content.clone() },
    };
    let id_attr = match &n.id_attr {
        Some(s) => Some(s.clone()),
        None => None,
    };
    TemplateNode {
        kind,
        style: slice_to_vec(n.style.as_slice()),
        parent_idx: parent,
        classes: clone_strings(&n.classes),
        id_attr,
        draggable: n.draggable,
        tabindex: n.tabindex,
    }
}

/// The nodes `start..end` with parents made relative to `start`.
fn localize(all: &Vec<TemplateNode>, start: usize, end: usize) -> (r: Result<Vec<TemplateNode>, PkgError>)
    requires
        start <= end <= all@.len(),
    ensures
        r matches Ok(v) ==> spec_localize(nodes_view(all@).subrange(start as int, end as int), start as int) == Ok::<Seq<NodeView>, PkgErrorView>(nodes_view(v@)),
        r matches Err(e) ==> spec_localize(nodes_view(all@).subrange(start as int, end as int), start as int) == Err::<Seq<NodeView>, PkgErrorView>(e@),
{
    let ghost ns = nodes_view(all@).subrange(start as int, end as int);
    let mut out: Vec<TemplateNode> = Vec::new();
    let mut j: usize = start;
    while j < end
        invariant
            start <= j <= end <= all@.len(),
            ns == nodes_view(all@).subrange(start as int, end as int),
            forall|i: int| 0 <= i < j - start ==> !parent_before(#[trigger] ns[i], start as int),
            nodes_view(out@) == ns.take(j - start).map_values(|n: NodeView| localize_parent(n, start as int)),
        decreases end - j,
    {
        let n = &all[j];
        assert(ns[j - start] == n@);
        let parent = match n.parent_idx {
            Some(p) => {
                if p < start {
                    return Err(PkgError::Truncated("cross_comp_parent"));
                }
                Some(p - start)
            },
            None => None,
        };
        let c = node_with_parent(n, parent);
        let ghost o = out@;
        out.push(c);
        proof {
            assert(nodes_view(out@) =~= nodes_view(o).push(c@));
            assert(ns.take(j + 1 - start) =~= ns.take(j - start).push(ns[j - start]));
            assert(ns.take(j + 1 - start).map_values(|n: NodeView| localize_parent(n, start as int)) =~= ns.take(j - start).map_values(|n: NodeView| localize_parent(n, start as int)).push(localize_parent(n@, start as int)));
            assert(c@ == localize_parent(n@, start as int));
        }
        j = j + 1;
    }
    assert(ns.take(end - start) =~= ns);
    Ok(out)
}

fn name_in(comps: &Vec<ComponentTemplate>, name: &String) -> (b: bool)
    ensures
        b == name_taken(comps_view(comps@), name@),
{
    let mut j: usize = 0;
    while j < comps.len()
        invariant
            j <= comps@.len(),
            forall|i: int| 0 <= i < j ==> (#[trigger] comps_view(comps@)[i]).name != name@,
        decreases comps@.len() - j,
    {
        if comps[j].name == *name {
            assert(comps_view(comps@)[j as int].name == name@);
            return true;
        }
        j = j + 1;
    }
    false
}

fn build_comps(rd: &mut Reader, table: &Vec<CompEntry>, all: &Vec<TemplateNode>, strings: &Vec<String>, blobs: &mut Vec<(usize, usize, bool)>) -> (r: Result<Vec<ComponentTemplate>, PkgError>)
    requires
        old(rd).wf(),
    ensures
        blobs_model(final(blobs)@) == blobs_model(old(blobs)@) + comps_blobs(old(rd).bytes(), old(rd).at(), table@, nodes_view(all@), strings_view(strings@), Seq::empty()),
        final(rd).wf(),
        final(rd).bytes() == old(rd).bytes(),
        r matches Ok(v) ==> spec_build_comps(old(rd).bytes(), old(rd).at(), table@, nodes_view(all@), strings_view(strings@), Seq::empty()) == Ok::<(Seq<CompView>, int), PkgErrorView>((comps_view(v@), final(rd).at())),
        r matches Err(e) ==> spec_build_comps(old(rd).bytes(), old(rd).at(), table@, nodes_view(all@), strings_view(strings@), Seq::empty()) == Err::<(Seq<CompView>, int), PkgErrorView>(e@),
{
    let ghost b = rd.bytes();
    let ghost sv = strings_view(strings@);
    let ghost av = nodes_view(all@);
    let ghost whole = spec_build_comps(b, rd.at(), table@, av, sv, Seq::empty());
    let mut out: Vec<ComponentTemplate> = Vec::new();
    proof {
        assert(comps_view(out@) =~= Seq::<CompView>::empty());
        assert(table@.skip(0) =~= table@);
    }
    let mut k: usize = 0;
    while k < table.len()
        invariant
            k <= table@.len(),
            rd.wf(),
            rd.bytes() == b,
            b == old(rd).bytes(),
            sv == strings_view(strings@),
            av == nodes_view(all@),
            whole == spec_build_comps(old(rd).bytes(), old(rd).at(), table@, av, sv, Seq::empty()),
            whole == spec_build_comps(b, rd.at(), table@.skip(k as int), av, sv, comps_view(out@)),
            blobs_model(old(blobs)@) + comps_blobs(b, old(rd).at(), table@, av, sv, Seq::empty())
                == blobs_model(blobs@) + comps_blobs(b, rd.at(), table@.skip(k as int), av, sv, comps_view(out@)),
        decreases table@.len() - k,
    {
        let ghost bl = blobs@;
        let (name_idx, root, count, dyn_len) = table[k];
        proof {
            assert(table@.skip(k as int)[0] == table@[k as int]);
            assert(table@.skip(k as int).drop_first() =~= table@.skip(k + 1));
        }
        let name = string_at(strings.as_slice(), name_idx)?;
        let start = root as usize;
        let end64 = root as u64 + count as u64;
        if start > all.len() || end64 > all.len() as u64 {
            return Err(PkgError::Truncated("comp_node_slice"));
        }
        let end = end64 as usize;
        let nodes = localize(all, start, end)?;
        let from = rd.pos;
        let blob = rd.take(dyn_len as usize, "comp_dynamic_blob")?;
        blobs.push((from, rd.pos, false));
        let dynamic_rules = slice_to_vec(blob);
        if name_in(&out, &name) {
            proof {
                assert(blobs_model(blobs@) =~= blobs_model(bl).push((from as int, rd.at(), false)));
                assert(blobs_model(bl) + comps_blobs(b, from as int, table@.skip(k as int), av, sv, comps_view(out@))
                    =~= blobs_model(blobs@));
            }
            return Err(PkgError::DupComponent(name));
        }
        let c = ComponentTemplate { name, nodes, dynamic_rules };
        let ghost o = out@;
        out.push(c);
        proof {
            assert(comps_view(out@) =~= comps_view(o).push(c@));
            assert(blobs_model(blobs@) =~= blobs_model(bl).push((from as int, rd.at(), false)));
            assert(blobs_model(bl) + comps_blobs(b, from as int, table@.skip(k as int), av, sv, comps_view(o))
                =~= blobs_model(blobs@) + comps_blobs(b, rd.at(), table@.skip(k + 1), av, sv, comps_view(out@)));
        }
        k = k + 1;
    }
    proof {
        assert(table@.skip(k as int) =~= Seq::<CompEntry>::empty());
        assert(blobs_model(blobs@) + comps_blobs(b, rd.at(), table@.skip(k as int), av, sv, comps_view(out@)) =~= blobs_model(blobs@));
    }
    Ok(out)
}

fn read_head(rd: &mut Reader) -> (r: Result<(Vec<String>, Vec<CompEntry>), PkgError>)
    requires
        old(rd).wf(),
        old(rd).at() == 0,
    ensures
        final(rd).wf(),
        final(rd).bytes() == old(rd).bytes(),
        r matches Ok((s, t)) ==> spec_read_head(old(rd).bytes()) == Ok::<(Seq<Seq<char>>, Seq<CompEntry>, int), PkgErrorView>((strings_view(s@), t@, final(rd).at())),
        r matches Err(e) ==> spec_read_head(old(rd).bytes()) == Err::<(Seq<Seq<char>>, Seq<CompEntry>, int), PkgErrorView>(e@),
{
    let magic = rd.u32("magic")?;
    if magic != PKG_MAGIC {
        return Err(PkgError::BadMagic);
    }
    let version = rd.u32("version")?;
    if version < MIN_VERSION {
        return Err(PkgError::TooOld(version));
    }
    if version > MAX_VERSION {
        return Err(PkgError::TooNew(version));
    }
    let _flags = rd.u32("flags")?;
    let component_count = rd.u32("component_count")?;
    let string_count = rd.u32("string_count")?;
    let strings = read_strings(rd, string_count)?;
    let table = read_comp_table(rd, component_count)?;
    Ok((strings, table))
}

proof fn lemma_table_total_prefix(t: Seq<CompEntry>, k: int)
    requires
        0 <= k <= t.len(),
    ensures
        0 <= table_total(t.take(k)) <= table_total(t),
    decreases t.len() - k,
{
    if k < t.len() {
        lemma_table_total_prefix(t, k + 1);
        assert(t.take(k + 1).drop_last() =~= t.take(k));
        lemma_table_total_nonneg(t.take(k));
    } else {
        assert(t.take(k) =~= t);
        lemma_table_total_nonneg(t);
    }
}

proof fn lemma_table_total_nonneg(t: Seq<CompEntry>)
    ensures
        table_total(t) >= 0,
    decreases t.len(),
{
    if t.len() > 0 {
        lemma_table_total_nonneg(t.drop_last());
    }
}

/// Total node count of a table whose counts add up within `u32`.
fn table_node_total(table: &Vec<CompEntry>) -> (n: u32)
    requires
        table_total(table@) <= u32::MAX,
    ensures
        n == table_total(table@),
{
    let mut total: u32 = 0;
    let mut k: usize = 0;
    while k < table.len()
        invariant
            k <= table@.len(),
            table_total(table@) <= u32::MAX,
            total == table_total(table@.take(k as int)),
        decreases table@.len() - k,
    {
        proof {
            lemma_table_total_prefix(table@, k + 1);
            assert(table@.take(k + 1).drop_last() =~= table@.take(k as int));
        }
        total = total + table[k].2;
        k = k + 1;
    }
    assert(table@.take(k as int) =~= table@);
    total
}

/// Whether the node counts of a package's component table add up within `u32`, which
/// `read_package` needs; bytes whose header or tables do not read pass.
pub fn package_counts_fit(bytes: &[u8]) -> (b: bool)
    ensures
        b == read_counts_fit(bytes@),
{
    let mut rd = Reader::new(bytes);
    match read_head(&mut rd) {
        Err(_) => true,
        Ok((_, table)) => {
            assert(read_counts_fit(bytes@) == (table_total(table@) <= u32::MAX));
            let mut total: u64 = 0;
            let mut k: usize = 0;
            while k < table.len()
                invariant
                    k <= table@.len(),
                    read_counts_fit(bytes@) == (table_total(table@) <= u32::MAX),
                    total == table_total(table@.take(k as int)),
                    total <= u32::MAX,
                decreases table@.len() - k,
            {
                proof {
                    assert(table@.take(k + 1).drop_last() =~= table@.take(k as int));
                }
                total = total + table[k].2 as u64;
                if total > u32::MAX as u64 {
                    proof {
                        lemma_table_total_mono(table@, k + 1);
                    }
                    return false;
                }
                k = k + 1;
            }
            assert(table@.take(k as int) =~= table@);
            true
        },
    }
}

proof fn lemma_table_total_mono(t: Seq<CompEntry>, k: int)
    requires
        0 <= k <= t.len(),
    ensures
        table_total(t.take(k)) <= table_total(t),
{
    lemma_table_total_prefix(t, k);
}

/// Reads a package: header (magic and version checked), string table, component table, node
/// block, dynamic-rule blobs and asset manifest. Components come back in file order with
/// parents made relative to their component; the package name is left empty.
pub fn read_package(bytes: &[u8]) -> (r: Result<Package, PkgError>)
    requires
        read_counts_fit(bytes@),
    ensures
        r matches Ok(p) ==> spec_read_package(bytes@) == Ok::<PackageView, PkgErrorView>(p@),
        r matches Err(e) ==> spec_read_package(bytes@) == Err::<PackageView, PkgErrorView>(e@),
{
    read_package_blobs(bytes).0
}

/// Reads a package as `read_package` does, and lists the blobs the reader takes on the way, in
/// order, up to where it stops (see `package_blobs`): a caller that decodes each blob as it is
/// taken can then tell which comes first, a blob that does not decode or the read's own error.
pub fn read_package_blobs(bytes: &[u8]) -> (r: (Result<Package, PkgError>, Vec<(usize, usize, bool)>))
    requires
        read_counts_fit(bytes@),
    ensures
        r.0 matches Ok(p) ==> spec_read_package(bytes@) == Ok::<PackageView, PkgErrorView>(p@),
        r.0 matches Err(e) ==> spec_read_package(bytes@) == Err::<PackageView, PkgErrorView>(e@),
        blobs_model(r.1@) == package_blobs(bytes@),
{
    let mut blobs: Vec<(usize, usize, bool)> = Vec::new();
    proof {
        assert(blobs_model(blobs@) =~= Seq::<(int, int, bool)>::empty());
    }
    let mut rd = Reader::new(bytes);
    let (strings, table) = match read_head(&mut rd) {
        Ok(x) => x,
        Err(e) => return (Err(e), blobs),
    };
    let total = table_node_total(&table);
    let ghost p2 = rd.at();
    let all = match read_nodes(&mut rd, total, &strings, &mut blobs) {
        Ok(x) => x,
        Err(e) => {
            proof {
                assert(blobs_model(blobs@) =~= package_blobs(bytes@));
            }
            return (Err(e), blobs);
        },
    };
    let ghost nb = blobs@;
    let components = match build_comps(&mut rd, &table, &all, &strings, &mut blobs) {
        Ok(x) => x,
        Err(e) => {
            proof {
                assert(blobs_model(blobs@) =~= package_blobs(bytes@));
            }
            return (Err(e), blobs);
        },
    };
    proof {
        assert(blobs_model(blobs@) =~= package_blobs(bytes@));
    }
    let path_count = match rd.u32("manifest_path_count") {
        Ok(x) => x,
        Err(e) => return (Err(e), blobs),
    };
    let asset_manifest = match read_idx_strings(&mut rd, path_count, &strings, "manifest_path_idx") {
        Ok(x) => x,
        Err(e) => return (Err(e), blobs),
    };
    (Ok(Package { name: String::new(), components, asset_manifest }), blobs)
}

} // verus!
