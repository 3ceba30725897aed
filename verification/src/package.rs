//! Package binary format (`.pkg.bin`, format version 11).
//!
//! Layout: a 20-byte header (magic, version, flags, component count, string count), the string
//! table (each string as a little-endian `u16` byte length and its UTF-8 bytes), the component
//! table (name index, first node, node count, dynamic-rule blob length), the node block (all
//! components' nodes in order, parents as global node positions, `-1` for a root), the
//! dynamic-rule blobs of the components in order, and the asset manifest (count and string
//! indices). Every string is stored once; index `0xFFFF` stands for "no string".
//! The baked style of a node and the dynamic rules of a component are carried as opaque
//! serialized blobs.
use vstd::prelude::*;
use vstd::utf8::{encode_utf8, decode_utf8, valid_utf8};
use crate::node::NodeKind;
use crate::selector::{opt_view, strings_view};

verus! {

/// Magic number at offset 0 (bytes `LPKG`).
pub const PKG_MAGIC: u32 = 0x474B504C;
/// Format version written.
pub const PKG_FORMAT_VERSION: u32 = 11;
/// Oldest format version read.
pub const MIN_VERSION: u32 = 11;
/// Newest format version read.
pub const MAX_VERSION: u32 = 11;
/// String index meaning "no string".
pub const NULL_IDX: u16 = 0xFFFF;

pub const KIND_CONTAINER: u8 = 0;
pub const KIND_BUTTON: u8 = 1;
pub const KIND_IMAGE: u8 = 2;
pub const KIND_TEXT: u8 = 3;

/// A node of a component template, as stored in a package.
#[derive(Debug, Clone)]
pub struct TemplateNode {
    pub kind: NodeKind,
    /// The baked style, serialized.
    pub style: Vec<u8>,
    /// Position of the parent within the component; `None` for the component root.
    pub parent_idx: Option<usize>,
    pub classes: Vec<String>,
    pub id_attr: Option<String>,
    pub draggable: bool,
    pub tabindex: Option<i32>,
}

/// A named component: its nodes (root first) and its dynamic rules, serialized.
#[derive(Debug, Clone)]
pub struct ComponentTemplate {
    pub name: String,
    pub nodes: Vec<TemplateNode>,
    pub dynamic_rules: Vec<u8>,
}

/// What `write_package` writes: the components in order and the normalised asset paths.
#[derive(Debug, Clone)]
pub struct PackageInput {
    pub components: Vec<ComponentTemplate>,
    pub asset_manifest: Vec<String>,
}

/// A package read back: its name (empty until the caller names it), its components in file
/// order (names distinct) and its asset paths.
#[derive(Debug, Clone)]
pub struct Package {
    pub name: String,
    pub components: Vec<ComponentTemplate>,
    pub asset_manifest: Vec<String>,
}

/// Why a package could not be read.
#[derive(Debug)]
pub enum PkgError {
    BadMagic,
    TooOld(u32),
    TooNew(u32),
    Truncated(&'static str),
    OobString(u16),
    BadKind(u8),
    DupComponent(String),
}

// ---------------------------------------------------------------------------
// Mathematical model.
// ---------------------------------------------------------------------------

pub enum KindView {
    Container,
    Button,
    Image(Seq<char>),
    Text(Seq<char>),
}

pub open spec fn kind_view(k: NodeKind) -> KindView {
    match k {
        NodeKind::Container => KindView::Container,
        NodeKind::Button => KindView::Button,
        NodeKind::Image { src } => KindView::Image(src@),
        NodeKind::Text { content } => KindView::Text(content@),
    }
}

pub struct NodeView {
    pub kind: KindView,
    pub style: Seq<u8>,
    pub parent_idx: Option<usize>,
    pub classes: Seq<Seq<char>>,
    pub id_attr: Option<Seq<char>>,
    pub draggable: bool,
    pub tabindex: Option<i32>,
}

impl View for TemplateNode {
    type V = NodeView;

    open spec fn view(&self) -> NodeView {
        NodeView {
            kind: kind_view(self.kind),
            style: self.style@,
            parent_idx: self.parent_idx,
            classes: strings_view(self.classes@),
            id_attr: opt_view(self.id_attr),
            draggable: self.draggable,
            tabindex: self.tabindex,
        }
    }
}

pub struct CompView {
    pub name: Seq<char>,
    pub nodes: Seq<NodeView>,
    pub dynamic_rules: Seq<u8>,
}

pub open spec fn nodes_view(ns: Seq<TemplateNode>) -> Seq<NodeView> {
    ns.map_values(|n: TemplateNode| n@)
}

impl View for ComponentTemplate {
    type V = CompView;

    open spec fn view(&self) -> CompView {
        CompView { name: self.name@, nodes: nodes_view(self.nodes@), dynamic_rules: self.dynamic_rules@ }
    }
}

pub open spec fn comps_view(cs: Seq<ComponentTemplate>) -> Seq<CompView> {
    cs.map_values(|c: ComponentTemplate| c@)
}

pub struct PackageView {
    pub name: Seq<char>,
    pub components: Seq<CompView>,
    pub asset_manifest: Seq<Seq<char>>,
}

impl View for Package {
    type V = PackageView;

    open spec fn view(&self) -> PackageView {
        PackageView {
            name: self.name@,
            components: comps_view(self.components@),
            asset_manifest: strings_view(self.asset_manifest@),
        }
    }
}

pub enum PkgErrorView {
    BadMagic,
    TooOld(u32),
    TooNew(u32),
    Truncated(Seq<char>),
    OobString(u16),
    BadKind(u8),
    DupComponent(Seq<char>),
}

impl View for PkgError {
    type V = PkgErrorView;

    open spec fn view(&self) -> PkgErrorView {
        match self {
            PkgError::BadMagic => PkgErrorView::BadMagic,
            PkgError::TooOld(v) => PkgErrorView::TooOld(*v),
            PkgError::TooNew(v) => PkgErrorView::TooNew(*v),
            PkgError::Truncated(c) => PkgErrorView::Truncated(c@),
            PkgError::OobString(i) => PkgErrorView::OobString(*i),
            PkgError::BadKind(k) => PkgErrorView::BadKind(*k),
            PkgError::DupComponent(n) => PkgErrorView::DupComponent(n@),
        }
    }
}

// ---------------------------------------------------------------------------
// The string table: every string of the package once, in order of first use.
// ---------------------------------------------------------------------------

pub open spec fn kind_strings(k: KindView) -> Seq<Seq<char>> {
    match k {
        KindView::Image(s) => seq![s],
        KindView::Text(s) => seq![s],
        _ => Seq::empty(),
    }
}

pub open spec fn opt_strings(o: Option<Seq<char>>) -> Seq<Seq<char>> {
    match o {
        Some(s) => seq![s],
        None => Seq::empty(),
    }
}

/// The strings a node uses, in the order they are stored: image source or text content, classes, id.
pub open spec fn node_strings(n: NodeView) -> Seq<Seq<char>> {
    kind_strings(n.kind) + n.classes + opt_strings(n.id_attr)
}

pub open spec fn nodes_strings(ns: Seq<NodeView>) -> Seq<Seq<char>>
    decreases ns.len(),
{
    if ns.len() == 0 {
        Seq::empty()
    } else {
        nodes_strings(ns.drop_last()) + node_strings(ns.last())
    }
}

pub open spec fn comp_strings(c: CompView) -> Seq<Seq<char>> {
    seq![c.name] + nodes_strings(c.nodes)
}

pub open spec fn comps_strings(cs: Seq<CompView>) -> Seq<Seq<char>>
    decreases cs.len(),
{
    if cs.len() == 0 {
        Seq::empty()
    } else {
        comps_strings(cs.drop_last()) + comp_strings(cs.last())
    }
}

/// The strings of `s`, each at its first occurrence.
pub open spec fn dedup(s: Seq<Seq<char>>) -> Seq<Seq<char>>
    decreases s.len(),
{
    if s.len() == 0 {
        Seq::empty()
    } else {
        let d = dedup(s.drop_last());
        if d.contains(s.last()) {
            d
        } else {
            d.push(s.last())
        }
    }
}

/// The string table of a package.
pub open spec fn string_table(cs: Seq<CompView>, m: Seq<Seq<char>>) -> Seq<Seq<char>> {
    dedup(comps_strings(cs) + m)
}

pub open spec fn no_dup(t: Seq<Seq<char>>) -> bool {
    forall|i: int, j: int| 0 <= i < j < t.len() ==> t[i] != t[j]
}

/// The index of a string in the table, as stored.
pub open spec fn str_idx(t: Seq<Seq<char>>, s: Seq<char>) -> u16 {
    (choose|i: int| 0 <= i < t.len() && t[i] == s) as u16
}

// ---------------------------------------------------------------------------
// Byte layout written.
// ---------------------------------------------------------------------------

pub open spec fn le16(x: u16) -> Seq<u8> {
    seq![(x & 0xff) as u8, (x >> 8u16) as u8]
}

pub open spec fn le32(x: u32) -> Seq<u8> {
    seq![(x & 0xff) as u8, ((x >> 8u32) & 0xff) as u8, ((x >> 16u32) & 0xff) as u8, (x >> 24u32) as u8]
}

pub open spec fn lei32(x: i32) -> Seq<u8> {
    le32(x as u32)
}

pub open spec fn ser_strings(t: Seq<Seq<char>>) -> Seq<u8>
    decreases t.len(),
{
    if t.len() == 0 {
        Seq::empty()
    } else {
        ser_strings(t.drop_last()) + le16(encode_utf8(t.last()).len() as u16) + encode_utf8(t.last())
    }
}

/// Number of nodes of the components.
pub open spec fn node_total(cs: Seq<CompView>) -> int
    decreases cs.len(),
{
    if cs.len() == 0 {
        0
    } else {
        node_total(cs.drop_last()) + cs.last().nodes.len()
    }
}

pub open spec fn ser_comp_table(t: Seq<Seq<char>>, cs: Seq<CompView>) -> Seq<u8>
    decreases cs.len(),
{
    if cs.len() == 0 {
        Seq::empty()
    } else {
        let c = cs.last();
        ser_comp_table(t, cs.drop_last()) + le16(str_idx(t, c.name)) + le32(node_total(cs.drop_last()) as u32)
            + le32(c.nodes.len() as u32) + le32(c.dynamic_rules.len() as u32)
    }
}

pub open spec fn ser_idx_list(t: Seq<Seq<char>>, ss: Seq<Seq<char>>) -> Seq<u8>
    decreases ss.len(),
{
    if ss.len() == 0 {
        Seq::empty()
    } else {
        ser_idx_list(t, ss.drop_last()) + le16(str_idx(t, ss.last()))
    }
}

pub open spec fn kind_tag(k: KindView) -> u8 {
    match k {
        KindView::Container => KIND_CONTAINER,
        KindView::Button => KIND_BUTTON,
        KindView::Image(_) => KIND_IMAGE,
        KindView::Text(_) => KIND_TEXT,
    }
}

pub open spec fn text_idx(t: Seq<Seq<char>>, k: KindView) -> u16 {
    match k {
        KindView::Text(s) => str_idx(t, s),
        _ => NULL_IDX,
    }
}

pub open spec fn src_idx(t: Seq<Seq<char>>, k: KindView) -> u16 {
    match k {
        KindView::Image(s) => str_idx(t, s),
        _ => NULL_IDX,
    }
}

pub open spec fn id_idx(t: Seq<Seq<char>>, o: Option<Seq<char>>) -> u16 {
    match o {
        Some(s) => str_idx(t, s),
        None => NULL_IDX,
    }
}

/// Stored parent: global position of the parent, or -1 for a root.
pub open spec fn parent_code(p: Option<usize>, base: int) -> i32 {
    match p {
        Some(q) => (base + q) as i32,
        None => -1i32,
    }
}

/// Stored tab index: `i32::MIN` for none.
pub open spec fn tab_code(o: Option<i32>) -> i32 {
    match o {
        Some(v) => v,
        None => i32::MIN,
    }
}

pub open spec fn flag_byte(draggable: bool) -> u8 {
    if draggable { 1 } else { 0 }
}

pub open spec fn ser_node_head(t: Seq<Seq<char>>, n: NodeView, base: int) -> Seq<u8> {
    lei32(parent_code(n.parent_idx, base)) + seq![kind_tag(n.kind)] + le32(n.style.len() as u32) + n.style
        + le16(text_idx(t, n.kind)) + le16(src_idx(t, n.kind)) + le16(n.classes.len() as u16)
}

pub open spec fn ser_node_tail(t: Seq<Seq<char>>, n: NodeView) -> Seq<u8> {
    le16(id_idx(t, n.id_attr)) + seq![flag_byte(n.draggable)] + lei32(tab_code(n.tabindex))
}

/// One node record: parent, kind tag, style blob with its length, text and source indices,
/// class indices with their count, id index, flags (bit 0: draggable), tab index.
pub open spec fn ser_node(t: Seq<Seq<char>>, n: NodeView, base: int) -> Seq<u8> {
    ser_node_head(t, n, base) + ser_idx_list(t, n.classes) + ser_node_tail(t, n)
}

pub open spec fn ser_nodes(t: Seq<Seq<char>>, ns: Seq<NodeView>, base: int) -> Seq<u8>
    decreases ns.len(),
{
    if ns.len() == 0 {
        Seq::empty()
    } else {
        ser_nodes(t, ns.drop_last(), base) + ser_node(t, ns.last(), base)
    }
}

pub open spec fn ser_node_block(t: Seq<Seq<char>>, cs: Seq<CompView>) -> Seq<u8>
    decreases cs.len(),
{
    if cs.len() == 0 {
        Seq::empty()
    } else {
        ser_node_block(t, cs.drop_last()) + ser_nodes(t, cs.last().nodes, node_total(cs.drop_last()))
    }
}

pub open spec fn ser_dynamic(cs: Seq<CompView>) -> Seq<u8>
    decreases cs.len(),
{
    if cs.len() == 0 {
        Seq::empty()
    } else {
        ser_dynamic(cs.drop_last()) + cs.last().dynamic_rules
    }
}

pub open spec fn ser_header(ncomp: u32, nstr: u32) -> Seq<u8> {
    le32(PKG_MAGIC) + le32(PKG_FORMAT_VERSION) + le32(0) + le32(ncomp) + le32(nstr)
}

/// The bytes of a package.
pub open spec fn spec_write_package(cs: Seq<CompView>, m: Seq<Seq<char>>) -> Seq<u8> {
    let t = string_table(cs, m);
    ser_header(cs.len() as u32, t.len() as u32) + ser_strings(t) + ser_comp_table(t, cs)
        + ser_node_block(t, cs) + ser_dynamic(cs) + le32(m.len() as u32) + ser_idx_list(t, m)
}

/// Every component's first node is its root.
pub open spec fn roots_first(cs: Seq<CompView>) -> bool {
    forall|k: int| 0 <= k < cs.len() && (#[trigger] cs[k]).nodes.len() > 0 ==> cs[k].nodes[0].parent_idx is None
}

/// The running node offset stays in `u32` and every global parent position in `usize`.
pub open spec fn offsets_fit(cs: Seq<CompView>) -> bool {
    &&& node_total(cs) <= u32::MAX
    &&& forall|k: int, j: int|
        0 <= k < cs.len() && 0 <= j < cs[k].nodes.len() && (#[trigger] cs[k].nodes[j]).parent_idx is Some
            ==> node_total(cs.take(k)) + cs[k].nodes[j].parent_idx.unwrap() <= usize::MAX
}

// ---------------------------------------------------------------------------
// Lemmas on the string table.
// ---------------------------------------------------------------------------

/// A string of a table that fits the index range gets its own position as index.
pub proof fn lemma_str_idx_in(t: Seq<Seq<char>>, s: Seq<char>)
    requires
        t.contains(s),
        t.len() <= 0xFFFF,
    ensures
        0 <= str_idx(t, s) < t.len(),
        t[str_idx(t, s) as int] == s,
{
    assert(exists|i: int| 0 <= i < t.len() && t[i] == s);
}

pub proof fn lemma_dedup(s: Seq<Seq<char>>)
    ensures
        no_dup(dedup(s)),
        forall|x: Seq<char>| dedup(s).contains(x) <==> s.contains(x),
    decreases s.len(),
{
    if s.len() > 0 {
        let p = s.drop_last();
        lemma_dedup(p);
        let d = dedup(p);
        let l = s.last();
        assert forall|x: Seq<char>| dedup(s).contains(x) <==> s.contains(x) by {
            if s.contains(x) {
                let i = choose|i: int| 0 <= i < s.len() && s[i] == x;
                if i < s.len() - 1 {
                    assert(p[i] == x);
                }
            }
            if p.contains(x) {
                let i = choose|i: int| 0 <= i < p.len() && p[i] == x;
                assert(s[i] == x);
            }
            if x == l {
                assert(s[s.len() - 1] == x);
            }
            if !d.contains(l) {
                assert(dedup(s) == d.push(l));
                if d.push(l).contains(x) {
                    let i = choose|i: int| 0 <= i < d.push(l).len() && d.push(l)[i] == x;
                    if i < d.len() {
                        assert(d[i] == x);
                    }
                }
                if d.contains(x) {
                    let i = choose|i: int| 0 <= i < d.len() && d[i] == x;
                    assert(d.push(l)[i] == x);
                }
                if x == l {
                    assert(d.push(l)[d.len() as int] == x);
                }
            }
        }
    }
}

proof fn lemma_concat_contains(a: Seq<Seq<char>>, b: Seq<Seq<char>>, x: Seq<char>)
    ensures
        a.contains(x) ==> (a + b).contains(x),
        b.contains(x) ==> (a + b).contains(x),
{
    if a.contains(x) {
        let i = choose|i: int| 0 <= i < a.len() && a[i] == x;
        assert((a + b)[i] == x);
    }
    if b.contains(x) {
        let i = choose|i: int| 0 <= i < b.len() && b[i] == x;
        assert((a + b)[a.len() + i] == x);
    }
}

proof fn lemma_nodes_strings_contains(ns: Seq<NodeView>, j: int, x: Seq<char>)
    requires
        0 <= j < ns.len(),
        node_strings(ns[j]).contains(x),
    ensures
        nodes_strings(ns).contains(x),
    decreases ns.len(),
{
    if j == ns.len() - 1 {
        lemma_concat_contains(nodes_strings(ns.drop_last()), node_strings(ns.last()), x);
    } else {
        assert(ns.drop_last()[j] == ns[j]);
        lemma_nodes_strings_contains(ns.drop_last(), j, x);
        lemma_concat_contains(nodes_strings(ns.drop_last()), node_strings(ns.last()), x);
    }
}

proof fn lemma_comps_strings_contains(cs: Seq<CompView>, k: int, x: Seq<char>)
    requires
        0 <= k < cs.len(),
        comp_strings(cs[k]).contains(x),
    ensures
        comps_strings(cs).contains(x),
    decreases cs.len(),
{
    if k == cs.len() - 1 {
        lemma_concat_contains(comps_strings(cs.drop_last()), comp_strings(cs.last()), x);
    } else {
        assert(cs.drop_last()[k] == cs[k]);
        lemma_comps_strings_contains(cs.drop_last(), k, x);
        lemma_concat_contains(comps_strings(cs.drop_last()), comp_strings(cs.last()), x);
    }
}

/// A string a node of component `k` uses is in the table.
pub proof fn lemma_node_string_in_table(cs: Seq<CompView>, m: Seq<Seq<char>>, k: int, j: int, x: Seq<char>)
    requires
        0 <= k < cs.len(),
        0 <= j < cs[k].nodes.len(),
        node_strings(cs[k].nodes[j]).contains(x),
    ensures
        string_table(cs, m).contains(x),
        no_dup(string_table(cs, m)),
{
    lemma_nodes_strings_contains(cs[k].nodes, j, x);
    lemma_concat_contains(seq![cs[k].name], nodes_strings(cs[k].nodes), x);
    lemma_comps_strings_contains(cs, k, x);
    lemma_concat_contains(comps_strings(cs), m, x);
    lemma_dedup(comps_strings(cs) + m);
}

pub proof fn lemma_name_in_table(cs: Seq<CompView>, m: Seq<Seq<char>>, k: int)
    requires
        0 <= k < cs.len(),
    ensures
        string_table(cs, m).contains(cs[k].name),
        no_dup(string_table(cs, m)),
{
    assert(seq![cs[k].name][0] == cs[k].name);
    lemma_concat_contains(seq![cs[k].name], nodes_strings(cs[k].nodes), cs[k].name);
    lemma_comps_strings_contains(cs, k, cs[k].name);
    lemma_concat_contains(comps_strings(cs), m, cs[k].name);
    lemma_dedup(comps_strings(cs) + m);
}

pub proof fn lemma_manifest_in_table(cs: Seq<CompView>, m: Seq<Seq<char>>, i: int)
    requires
        0 <= i < m.len(),
    ensures
        string_table(cs, m).contains(m[i]),
        no_dup(string_table(cs, m)),
{
    lemma_concat_contains(comps_strings(cs), m, m[i]);
    lemma_dedup(comps_strings(cs) + m);
}


proof fn lemma_strings_view_push(v: Seq<String>, x: String)
    ensures
        strings_view(v.push(x)) == strings_view(v).push(x@),
{
    assert(strings_view(v.push(x)) =~= strings_view(v).push(x@));
}

pub proof fn lemma_node_total_prefix(cs: Seq<CompView>, k: int)
    requires
        0 <= k <= cs.len(),
    ensures
        node_total(cs.take(k)) <= node_total(cs),
        node_total(cs.take(k)) >= 0,
    decreases cs.len() - k,
{
    if k < cs.len() {
        lemma_node_total_prefix(cs, k + 1);
        assert(cs.take(k + 1).drop_last() =~= cs.take(k));
    } else {
        assert(cs.take(k) =~= cs);
    }
    lemma_node_total_nonneg(cs.take(k));
}

pub proof fn lemma_node_total_nonneg(cs: Seq<CompView>)
    ensures
        node_total(cs) >= 0,
    decreases cs.len(),
{
    if cs.len() > 0 {
        lemma_node_total_nonneg(cs.drop_last());
    }
}

// ---------------------------------------------------------------------------
// Writing.
// ---------------------------------------------------------------------------

fn push_u16(out: &mut Vec<u8>, x: u16)
    ensures
        final(out)@ == old(out)@ + le16(x),
{
    out.push((x & 0xff) as u8);
    out.push((x >> 8u16) as u8);
    assert(final(out)@ =~= old(out)@ + le16(x));
}

fn push_u32(out: &mut Vec<u8>, x: u32)
    ensures
        final(out)@ == old(out)@ + le32(x),
{
    out.push((x & 0xff) as u8);
    out.push(((x >> 8u32) & 0xff) as u8);
    out.push(((x >> 16u32) & 0xff) as u8);
    out.push((x >> 24u32) as u8);
    assert(final(out)@ =~= old(out)@ + le32(x));
}

fn push_i32(out: &mut Vec<u8>, x: i32)
    ensures
        final(out)@ == old(out)@ + lei32(x),
{
    push_u32(out, x as u32);
}

fn push_bytes(out: &mut Vec<u8>, b: &[u8])
    ensures
        final(out)@ == old(out)@ + b@,
{
    let ghost start = out@;
    let mut i: usize = 0;
    while i < b.len()
        invariant
            i <= b@.len(),
            out@ == start + b@.take(i as int),
        decreases b@.len() - i,
    {
        out.push(b[i]);
        assert(b@.take(i + 1) =~= b@.take(i as int).push(b@[i as int]));
        i = i + 1;
    }
    assert(b@.take(b@.len() as int) =~= b@);
}

/// The index of `s` in the string table, adding it at the end when it is new.
fn intern(s: &String, strings: &mut Vec<String>) -> (i: u16)
    ensures
        strings_view(old(strings)@).contains(s@) ==> {
            &&& strings_view(final(strings)@) == strings_view(old(strings)@)
            &&& strings_view(old(strings)@)[i as int] == s@ || old(strings)@.len() > u16::MAX
        },
        !strings_view(old(strings)@).contains(s@) ==> {
            &&& strings_view(final(strings)@) == strings_view(old(strings)@).push(s@)
            &&& i == old(strings)@.len() as u16
        },
{
    let mut k: usize = 0;
    while k < strings.len()
        invariant
            k <= strings@.len(),
            strings@ == old(strings)@,
            forall|j: int| 0 <= j < k ==> strings_view(strings@)[j] != s@,
        decreases strings@.len() - k,
    {
        if strings[k] == *s {
            assert(strings_view(strings@)[k as int] == s@);
            return k as u16;
        }
        k = k + 1;
    }
    let i = strings.len() as u16;
    let ghost before = strings@;
    strings.push(s.clone());
    proof {
        assert(strings_view(strings@) =~= strings_view(before).push(s@));
        assert(!strings_view(before).contains(s@)) by {
            if strings_view(before).contains(s@) {
                let j = choose|j: int| 0 <= j < strings_view(before).len() && strings_view(before)[j] == s@;
                assert(strings_view(strings@)[j] != s@);
            }
        }
    }
    i
}

/// The stored index of a string that is in the table.
fn lookup(t: &Vec<String>, s: &String) -> (i: u16)
    requires
        no_dup(strings_view(t@)),
        strings_view(t@).contains(s@),
    ensures
        i == str_idx(strings_view(t@), s@),
{
    let ghost tv = strings_view(t@);
    let mut k: usize = 0;
    while k < t.len()
        invariant
            k <= t@.len(),
            tv == strings_view(t@),
            tv.contains(s@),
            no_dup(tv),
            forall|j: int| 0 <= j < k ==> tv[j] != s@,
        decreases t@.len() - k,
    {
        if t[k] == *s {
            proof {
                let c = choose|j: int| 0 <= j < tv.len() && tv[j] == s@;
                assert(no_dup(tv));
                if c != k {
                    assert(tv[c] == tv[k as int]);
                }
            }
            return k as u16;
        }
        k = k + 1;
    }
    proof {
        let c = choose|j: int| 0 <= j < tv.len() && tv[j] == s@;
        assert(tv[c] != s@);
    }
    0
}

fn push_string_entry(out: &mut Vec<u8>, s: &String)
    ensures
        final(out)@ == old(out)@ + le16(encode_utf8(s@).len() as u16) + encode_utf8(s@),
{
    let b = s.as_str().as_bytes();
    push_u16(out, b.len() as u16);
    push_bytes(out, b);
}

/// The strings of the input in order of use (repeats kept).
fn collect_strings(input: &PackageInput) -> (all: Vec<String>)
    ensures
        strings_view(all@) == comps_strings(comps_view(input.components@)) + strings_view(input.asset_manifest@),
{
    let ghost cs = comps_view(input.components@);
    let mut all: Vec<String> = Vec::new();
    let mut k: usize = 0;
    while k < input.components.len()
        invariant
            k <= input.components@.len(),
            cs == comps_view(input.components@),
            strings_view(all@) == comps_strings(cs.take(k as int)),
        decreases input.components@.len() - k,
    {
        let comp = &input.components[k];
        let ghost pre = strings_view(all@);
        let ghost a0 = all@;
        all.push(comp.name.clone());
        proof {
            lemma_strings_view_push(a0, comp.name);
        }
        let ghost ns = nodes_view(comp.nodes@);
        let mut j: usize = 0;
        while j < comp.nodes.len()
            invariant
                j <= comp.nodes@.len(),
                ns == nodes_view(comp.nodes@),
                strings_view(all@) == pre + seq![comp.name@] + nodes_strings(ns.take(j as int)),
            decreases comp.nodes@.len() - j,
        {
            let n = &comp.nodes[j];
            let ghost before = strings_view(all@);
            match &n.kind {
                NodeKind::Image { src } => {
                    let ghost a0 = all@;
                    all.push(src.clone());
                    proof {
                        lemma_strings_view_push(a0, *src);
                    }
                },
                NodeKind::Text { content } => {
                    let ghost a0 = all@;
                    all.push(content.clone());
                    proof {
                        lemma_strings_view_push(a0, *content);
                    }
                },
                _ => {},
            }
            let ghost mid = strings_view(all@);
            assert(mid == before + kind_strings(n@.kind));
            let mut c: usize = 0;
            while c < n.classes.len()
                invariant
                    c <= n.classes@.len(),
                    strings_view(all@) == mid + strings_view(n.classes@).take(c as int),
                decreases n.classes@.len() - c,
            {
                let ghost a0 = all@;
                all.push(n.classes[c].clone());
                proof {
                    lemma_strings_view_push(a0, n.classes@[c as int]);
                }
                assert(strings_view(n.classes@).take(c + 1) =~= strings_view(n.classes@).take(c as int).push(n.classes@[c as int]@));
                c = c + 1;
            }
            assert(strings_view(n.classes@).take(n.classes@.len() as int) =~= strings_view(n.classes@));
            match &n.id_attr {
                Some(id) => {
                    let ghost a0 = all@;
                    all.push(id.clone());
                    proof {
                        lemma_strings_view_push(a0, *id);
                    }
                },
                None => {},
            }
            proof {
                assert(ns.take(j + 1).drop_last() =~= ns.take(j as int));
                assert(ns.take(j + 1).last() == n@);
                assert(strings_view(all@) =~= before + node_strings(n@));
            }
            j = j + 1;
        }
        proof {
            assert(ns.take(ns.len() as int) =~= ns);
            assert(cs.take(k + 1).drop_last() =~= cs.take(k as int));
            assert(cs.take(k + 1).last() == comp@);
            assert(strings_view(all@) =~= pre + comp_strings(comp@));
        }
        k = k + 1;
    }
    proof {
        assert(cs.take(cs.len() as int) =~= cs);
    }
    let ghost pre = strings_view(all@);
    let mut i: usize = 0;
    while i < input.asset_manifest.len()
        invariant
            i <= input.asset_manifest@.len(),
            strings_view(all@) == pre + strings_view(input.asset_manifest@).take(i as int),
        decreases input.asset_manifest@.len() - i,
    {
        let ghost a0 = all@;
        all.push(input.asset_manifest[i].clone());
        proof {
            lemma_strings_view_push(a0, input.asset_manifest@[i as int]);
        }
        assert(strings_view(input.asset_manifest@).take(i + 1) =~= strings_view(input.asset_manifest@).take(i as int).push(input.asset_manifest@[i as int]@));
        i = i + 1;
    }
    assert(strings_view(input.asset_manifest@).take(input.asset_manifest@.len() as int) =~= strings_view(input.asset_manifest@));
    all
}


pub proof fn lemma_node_string_parts(n: NodeView, x: Seq<char>)
    ensures
        kind_strings(n.kind).contains(x) ==> node_strings(n).contains(x),
        n.classes.contains(x) ==> node_strings(n).contains(x),
        opt_strings(n.id_attr).contains(x) ==> node_strings(n).contains(x),
{
    lemma_concat_contains(kind_strings(n.kind), n.classes, x);
    lemma_concat_contains(kind_strings(n.kind) + n.classes, opt_strings(n.id_attr), x);
}

fn write_idx_list(out: &mut Vec<u8>, t: &Vec<String>, ss: &Vec<String>)
    requires
        no_dup(strings_view(t@)),
        forall|i: int| 0 <= i < ss@.len() ==> strings_view(t@).contains(#[trigger] ss@[i]@),
    ensures
        final(out)@ == old(out)@ + ser_idx_list(strings_view(t@), strings_view(ss@)),
{
    let ghost tv = strings_view(t@);
    let ghost cl = strings_view(ss@);
    let ghost mid = out@;
    let mut c: usize = 0;
    while c < ss.len()
        invariant
            c <= ss@.len(),
            cl == strings_view(ss@),
            tv == strings_view(t@),
            no_dup(tv),
            forall|i: int| 0 <= i < ss@.len() ==> tv.contains(#[trigger] ss@[i]@),
            out@ == mid + ser_idx_list(tv, cl.take(c as int)),
        decreases ss@.len() - c,
    {
        assert(tv.contains(ss@[c as int]@));
        let ix = lookup(t, &ss[c]);
        push_u16(out, ix);
        proof {
            assert(cl.take(c + 1).drop_last() =~= cl.take(c as int));
            assert(cl.take(c + 1).last() == ss@[c as int]@);
        }
        c = c + 1;
    }
    assert(cl.take(cl.len() as int) =~= cl);
}

fn write_node_head(out: &mut Vec<u8>, t: &Vec<String>, n: &TemplateNode, base: u32)
    requires
        no_dup(strings_view(t@)),
        forall|x: Seq<char>| kind_strings(n@.kind).contains(x) ==> strings_view(t@).contains(x),
        n.parent_idx is Some ==> base + n.parent_idx.unwrap() <= usize::MAX,
    ensures
        final(out)@ == old(out)@ + ser_node_head(strings_view(t@), n@, base as int),
{
    let ghost tv = strings_view(t@);
    let ghost start = out@;
    let pc: i32 = match n.parent_idx {
        Some(q) => (base as usize + q) as i32,
        None => -1i32,
    };
    assert(pc == parent_code(n@.parent_idx, base as int));
    push_i32(out, pc);
    let (tag, ti, si): (u8, u16, u16) = match &n.kind {
        NodeKind::Container => (KIND_CONTAINER, NULL_IDX, NULL_IDX),
        NodeKind::Button => (KIND_BUTTON, NULL_IDX, NULL_IDX),
        NodeKind::Image { src } => {
            assert(kind_strings(n@.kind)[0] == src@);
            (KIND_IMAGE, NULL_IDX, lookup(t, src))
        },
        NodeKind::Text { content } => {
            assert(kind_strings(n@.kind)[0] == content@);
            (KIND_TEXT, lookup(t, content), NULL_IDX)
        },
    };
    assert(tag == kind_tag(n@.kind) && ti == text_idx(tv, n@.kind) && si == src_idx(tv, n@.kind));
    out.push(tag);
    push_u32(out, n.style.len() as u32);
    push_bytes(out, n.style.as_slice());
    push_u16(out, ti);
    push_u16(out, si);
    push_u16(out, n.classes.len() as u16);
    assert(out@ =~= start + ser_node_head(tv, n@, base as int));
}

fn write_node(out: &mut Vec<u8>, t: &Vec<String>, n: &TemplateNode, base: u32)
    requires
        no_dup(strings_view(t@)),
        forall|x: Seq<char>| node_strings(n@).contains(x) ==> strings_view(t@).contains(x),
        n.parent_idx is Some ==> base + n.parent_idx.unwrap() <= usize::MAX,
    ensures
        final(out)@ == old(out)@ + ser_node(strings_view(t@), n@, base as int),
{
    let ghost tv = strings_view(t@);
    let ghost start = out@;
    proof {
        assert forall|x: Seq<char>| kind_strings(n@.kind).contains(x) implies tv.contains(x) by {
            lemma_node_string_parts(n@, x);
        }
        assert forall|i: int| 0 <= i < n.classes@.len() implies tv.contains(#[trigger] n.classes@[i]@) by {
            assert(n@.classes[i] == n.classes@[i]@);
            assert(n@.classes.contains(n@.classes[i]));
            lemma_node_string_parts(n@, n.classes@[i]@);
        }
    }
    write_node_head(out, t, n, base);
    let ghost h = out@;
    write_idx_list(out, t, &n.classes);
    let ghost hc = out@;
    let ii: u16 = match &n.id_attr {
        Some(id) => {
            proof {
                assert(opt_strings(n@.id_attr)[0] == id@);
                lemma_node_string_parts(n@, id@);
            }
            lookup(t, id)
        },
        None => NULL_IDX,
    };
    assert(ii == id_idx(tv, n@.id_attr));
    push_u16(out, ii);
    out.push(if n.draggable { 1u8 } else { 0u8 });
    let tc: i32 = match n.tabindex {
        Some(v) => v,
        None => i32::MIN,
    };
    push_i32(out, tc);
    assert(out@ =~= hc + ser_node_tail(tv, n@));
    assert(out@ =~= start + ser_node(tv, n@, base as int));
}

fn write_string_table(out: &mut Vec<u8>, strings: &Vec<String>)
    ensures
        final(out)@ == old(out)@ + ser_strings(strings_view(strings@)),
{
    let ghost tv = strings_view(strings@);
    let ghost p0 = out@;
    let mut k: usize = 0;
    while k < strings.len()
        invariant
            k <= strings@.len(),
            tv == strings_view(strings@),
            out@ == p0 + ser_strings(tv.take(k as int)),
        decreases strings@.len() - k,
    {
        push_string_entry(out, &strings[k]);
        proof {
            assert(tv.take(k + 1).drop_last() =~= tv.take(k as int));
            assert(tv.take(k + 1).last() == strings@[k as int]@);
        }
        k = k + 1;
    }
    assert(tv.take(tv.len() as int) =~= tv);
}

fn write_comp_table(out: &mut Vec<u8>, strings: &Vec<String>, input: &PackageInput)
    requires
        strings_view(strings@) == string_table(comps_view(input.components@), strings_view(input.asset_manifest@)),
        offsets_fit(comps_view(input.components@)),
    ensures
        final(out)@ == old(out)@ + ser_comp_table(strings_view(strings@), comps_view(input.components@)),
{
    let ghost cs = comps_view(input.components@);
    let ghost m = strings_view(input.asset_manifest@);
    let ghost tv = strings_view(strings@);
    let ghost p1 = out@;
    let mut base: u32 = 0;
    let mut k: usize = 0;
    while k < input.components.len()
        invariant
            k <= input.components@.len(),
            cs == comps_view(input.components@),
            m == strings_view(input.asset_manifest@),
            tv == strings_view(strings@),
            tv == string_table(cs, m),
            offsets_fit(cs),
            base == node_total(cs.take(k as int)),
            out@ == p1 + ser_comp_table(tv, cs.take(k as int)),
        decreases input.components@.len() - k,
    {
        let comp = &input.components[k];
        proof {
            lemma_name_in_table(cs, m, k as int);
            lemma_node_total_prefix(cs, k + 1);
            assert(cs.take(k + 1).drop_last() =~= cs.take(k as int));
            assert(cs.take(k + 1).last() == cs[k as int]);
            assert(cs[k as int] == comp@);
        }
        let ni = lookup(strings, &comp.name);
        push_u16(out, ni);
        push_u32(out, base);
        push_u32(out, comp.nodes.len() as u32);
        push_u32(out, comp.dynamic_rules.len() as u32);
        base = base + comp.nodes.len() as u32;
        k = k + 1;
    }
    assert(cs.take(cs.len() as int) =~= cs);
}

fn write_node_block(out: &mut Vec<u8>, strings: &Vec<String>, input: &PackageInput)
    requires
        strings_view(strings@) == string_table(comps_view(input.components@), strings_view(input.asset_manifest@)),
        offsets_fit(comps_view(input.components@)),
    ensures
        final(out)@ == old(out)@ + ser_node_block(strings_view(strings@), comps_view(input.components@)),
{
    let ghost cs = comps_view(input.components@);
    let ghost m = strings_view(input.asset_manifest@);
    let ghost tv = strings_view(strings@);
    proof {
        lemma_dedup(comps_strings(cs) + m);
    }
    let ghost p2 = out@;
    let mut base: u32 = 0;
    let mut k: usize = 0;
    while k < input.components.len()
        invariant
            k <= input.components@.len(),
            cs == comps_view(input.components@),
            m == strings_view(input.asset_manifest@),
            tv == strings_view(strings@),
            tv == string_table(cs, m),
            no_dup(tv),
            offsets_fit(cs),
            base == node_total(cs.take(k as int)),
            out@ == p2 + ser_node_block(tv, cs.take(k as int)),
        decreases input.components@.len() - k,
    {
        let comp = &input.components[k];
        let ghost ns = nodes_view(comp.nodes@);
        let ghost q0 = out@;
        proof {
            assert(cs[k as int] == comp@);
            lemma_node_total_prefix(cs, k + 1);
            assert(cs.take(k + 1).drop_last() =~= cs.take(k as int));
            assert(cs.take(k + 1).last() == cs[k as int]);
        }
        let mut j: usize = 0;
        while j < comp.nodes.len()
            invariant
                j <= comp.nodes@.len(),
                0 <= k < cs.len(),
                cs[k as int] == comp@,
                ns == nodes_view(comp.nodes@),
                tv == strings_view(strings@),
                tv == string_table(cs, m),
                no_dup(tv),
                offsets_fit(cs),
                base == node_total(cs.take(k as int)),
                out@ == q0 + ser_nodes(tv, ns.take(j as int), base as int),
            decreases comp.nodes@.len() - j,
        {
            let n = &comp.nodes[j];
            proof {
                assert(ns[j as int] == n@);
                assert(cs[k as int].nodes[j as int] == n@);
                assert forall|x: Seq<char>| node_strings(n@).contains(x) implies tv.contains(x) by {
                    lemma_node_string_in_table(cs, m, k as int, j as int, x);
                }
            }
            write_node(out, strings, n, base);
            proof {
                assert(ns.take(j + 1).drop_last() =~= ns.take(j as int));
                assert(ns.take(j + 1).last() == n@);
            }
            j = j + 1;
        }
        assert(ns.take(ns.len() as int) =~= ns);
        base = base + comp.nodes.len() as u32;
        k = k + 1;
    }
    assert(cs.take(cs.len() as int) =~= cs);
}

fn write_dynamic(out: &mut Vec<u8>, input: &PackageInput)
    ensures
        final(out)@ == old(out)@ + ser_dynamic(comps_view(input.components@)),
{
    let ghost cs = comps_view(input.components@);
    let ghost p3 = out@;
    let mut k: usize = 0;
    while k < input.components.len()
        invariant
            k <= input.components@.len(),
            cs == comps_view(input.components@),
            out@ == p3 + ser_dynamic(cs.take(k as int)),
        decreases input.components@.len() - k,
    {
        push_bytes(out, input.components[k].dynamic_rules.as_slice());
        proof {
            assert(cs.take(k + 1).drop_last() =~= cs.take(k as int));
            assert(cs.take(k + 1).last() == input.components@[k as int]@);
        }
        k = k + 1;
    }
    assert(cs.take(cs.len() as int) =~= cs);
}

fn write_manifest(out: &mut Vec<u8>, strings: &Vec<String>, input: &PackageInput)
    requires
        strings_view(strings@) == string_table(comps_view(input.components@), strings_view(input.asset_manifest@)),
    ensures
        final(out)@ == old(out)@ + le32(input.asset_manifest@.len() as u32) + ser_idx_list(strings_view(strings@), strings_view(input.asset_manifest@)),
{
    let ghost cs = comps_view(input.components@);
    let ghost m = strings_view(input.asset_manifest@);
    let ghost tv = strings_view(strings@);
    push_u32(out, input.asset_manifest.len() as u32);
    let ghost p4 = out@;
    let mut k: usize = 0;
    while k < input.asset_manifest.len()
        invariant
            k <= input.asset_manifest@.len(),
            cs == comps_view(input.components@),
            m == strings_view(input.asset_manifest@),
            tv == strings_view(strings@),
            tv == string_table(cs, m),
            out@ == p4 + ser_idx_list(tv, m.take(k as int)),
        decreases input.asset_manifest@.len() - k,
    {
        proof {
            lemma_manifest_in_table(cs, m, k as int);
            assert(m[k as int] == input.asset_manifest@[k as int]@);
        }
        let ix = lookup(strings, &input.asset_manifest[k]);
        push_u16(out, ix);
        proof {
            assert(m.take(k + 1).drop_last() =~= m.take(k as int));
            assert(m.take(k + 1).last() == m[k as int]);
        }
        k = k + 1;
    }
    assert(m.take(m.len() as int) =~= m);
}

/// Serializes a package. Every string (component names, text contents, image sources,
/// classes, ids, asset paths) is stored once in the string table, in order of first use. Nodes
/// are written as given; reading them back gives the same package when each component lists its
/// root first (see `law_read_of_write`).
pub fn write_package(input: &PackageInput) -> (out: Vec<u8>)
    requires
        offsets_fit(comps_view(input.components@)),
    ensures
        out@ == spec_write_package(comps_view(input.components@), strings_view(input.asset_manifest@)),
{
    let ghost cs = comps_view(input.components@);
    let ghost m = strings_view(input.asset_manifest@);
    let all = collect_strings(input);
    let mut strings: Vec<String> = Vec::new();
    let mut i: usize = 0;
    while i < all.len()
        invariant
            i <= all@.len(),
            strings_view(strings@) == dedup(strings_view(all@).take(i as int)),
        decreases all@.len() - i,
    {
        let _ = intern(&all[i], &mut strings);
        proof {
            let a = strings_view(all@);
            assert(a.take(i + 1).drop_last() =~= a.take(i as int));
            assert(a.take(i + 1).last() == all@[i as int]@);
        }
        i = i + 1;
    }
    let ghost tv = strings_view(strings@);
    proof {
        assert(strings_view(all@).take(all@.len() as int) =~= strings_view(all@));
        assert(tv == string_table(cs, m));
    }
    let mut out: Vec<u8> = Vec::new();
    push_u32(&mut out, PKG_MAGIC);
    push_u32(&mut out, PKG_FORMAT_VERSION);
    push_u32(&mut out, 0);
    push_u32(&mut out, input.components.len() as u32);
    push_u32(&mut out, strings.len() as u32);
    let ghost h = out@;
    assert(h =~= ser_header(cs.len() as u32, tv.len() as u32));
    write_string_table(&mut out, &strings);
    let ghost s1 = out@;
    write_comp_table(&mut out, &strings, input);
    let ghost s2 = out@;
    write_node_block(&mut out, &strings, input);
    let ghost s3 = out@;
    write_dynamic(&mut out, input);
    let ghost s4 = out@;
    write_manifest(&mut out, &strings, input);
    assert(out@ =~= spec_write_package(cs, m));
    out
}

} // verus!
