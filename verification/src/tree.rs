//! The links of a scene that changes at run time: per node slot, its parent and its children in
//! order, and the list of roots. Nodes are appended, inserted before a sibling, detached and
//! removed with their subtrees.
use vstd::prelude::*;

verus! {

/// The links of one live node.
#[derive(Debug)]
pub struct Links {
    pub parent: Option<usize>,
    pub children: Vec<usize>,
}

/// Links of all node slots (`None` for a slot without a live node) and the roots.
#[derive(Debug)]
pub struct SceneTree {
    pub slots: Vec<Option<Links>>,
    pub roots: Vec<usize>,
}

/// Mathematical model of a node's links.
pub struct LinkModel {
    pub parent: Option<usize>,
    pub children: Seq<usize>,
}

pub open spec fn link_model(l: Option<Links>) -> Option<LinkModel> {
    match l {
        Some(l) => Some(LinkModel { parent: l.parent, children: l.children@ }),
        None => None,
    }
}

pub open spec fn slots_model(v: Seq<Option<Links>>) -> Seq<Option<LinkModel>> {
    Seq::new(v.len(), |i: int| link_model(v[i]))
}

impl View for SceneTree {
    type V = (Seq<Option<LinkModel>>, Seq<usize>);

    open spec fn view(&self) -> (Seq<Option<LinkModel>>, Seq<usize>) {
        (slots_model(self.slots@), self.roots@)
    }
}

pub open spec fn live(s: Seq<Option<LinkModel>>, i: int) -> bool {
    0 <= i < s.len() && s[i] is Some
}

pub open spec fn parent_of(s: Seq<Option<LinkModel>>, i: int) -> Option<usize> {
    s[i].unwrap().parent
}

pub open spec fn children_of(s: Seq<Option<LinkModel>>, i: int) -> Seq<usize> {
    s[i].unwrap().children
}

pub open spec fn no_dups(c: Seq<usize>) -> bool {
    forall|a: int, b: int| 0 <= a < b < c.len() ==> c[a] != c[b]
}

/// Parent and children links agree: a live node's parent is live and lists it, every listed
/// child is live and names the node as parent, and no child is listed twice.
pub open spec fn consistent(s: Seq<Option<LinkModel>>) -> bool {
    &&& forall|i: int| #[trigger] live(s, i) && parent_of(s, i) is Some ==> live(s, parent_of(s, i).unwrap() as int)
        && children_of(s, parent_of(s, i).unwrap() as int).contains(i as usize)
    &&& forall|p: int, k: int| #![trigger children_of(s, p)[k]] live(s, p) && 0 <= k < children_of(s, p).len() ==> live(s, children_of(s, p)[k] as int)
        && parent_of(s, children_of(s, p)[k] as int) == Some(p as usize)
    &&& forall|p: int| #[trigger] live(s, p) ==> no_dups(children_of(s, p))
}

pub open spec fn set_links(s: Seq<Option<LinkModel>>, i: int, parent: Option<usize>, children: Seq<usize>) -> Seq<Option<LinkModel>> {
    s.update(i, Some(LinkModel { parent, children }))
}

/// `c` without the occurrences of `x`, in order.
pub open spec fn seq_without(c: Seq<usize>, x: usize) -> Seq<usize>
    decreases c.len(),
{
    if c.len() == 0 {
        c
    } else if c.last() == x {
        seq_without(c.drop_last(), x)
    } else {
        seq_without(c.drop_last(), x).push(c.last())
    }
}

pub open spec fn parent_error() -> Seq<char> {
    "parent not live"@
}

pub open spec fn has_parent_error() -> Seq<char> {
    "child already has parent（先 remove_child 摘除旧父）"@
}

pub open spec fn ref_error() -> Seq<char> {
    "ref_id not in parent.children"@
}

/// What `append_child` does: an error without a live parent; nothing when the child is already
/// listed; an error when the child has a parent; else the child goes last among the parent's
/// children and takes the parent.
pub open spec fn spec_append(s: Seq<Option<LinkModel>>, parent: int, child: int) -> Result<Seq<Option<LinkModel>>, Seq<char>> {
    if !live(s, parent) {
        Err(parent_error())
    } else if children_of(s, parent).contains(child as usize) {
        Ok(s)
    } else if live(s, child) && parent_of(s, child) is Some {
        Err(has_parent_error())
    } else {
        let s1 = set_links(s, parent, parent_of(s, parent), children_of(s, parent).push(child as usize));
        Ok(set_links(s1, child, Some(parent as usize), children_of(s1, child)))
    }
}

/// The first position of `x` in `c`.
pub open spec fn first_pos(c: Seq<usize>, x: usize) -> Option<int>
    decreases c.len(),
{
    if c.len() == 0 {
        None
    } else if c[0] == x {
        Some(0)
    } else {
        match first_pos(c.drop_first(), x) {
            Some(k) => Some(k + 1),
            None => None,
        }
    }
}

/// What `insert_before` does with a sibling: an error when the child has a parent, when the
/// parent is not live, or when the sibling is not among its children; else the child goes just
/// before the sibling and takes the parent.
pub open spec fn spec_insert_before(s: Seq<Option<LinkModel>>, parent: int, child: int, sib: usize) -> Result<Seq<Option<LinkModel>>, Seq<char>> {
    if live(s, child) && parent_of(s, child) is Some {
        Err(has_parent_error())
    } else if !live(s, parent) {
        Err(parent_error())
    } else {
        match first_pos(children_of(s, parent), sib) {
            None => Err(ref_error()),
            Some(k) => {
                let s1 = set_links(s, parent, parent_of(s, parent), children_of(s, parent).insert(k, child as usize));
                Ok(set_links(s1, child, Some(parent as usize), children_of(s1, child)))
            },
        }
    }
}

/// What `remove_child` does: an error without a live parent; else the child leaves the
/// parent's children and, when live, has no parent any more.
pub open spec fn spec_remove_child(s: Seq<Option<LinkModel>>, parent: int, child: int) -> Result<Seq<Option<LinkModel>>, Seq<char>> {
    if !live(s, parent) {
        Err(parent_error())
    } else {
        let s1 = set_links(s, parent, parent_of(s, parent), seq_without(children_of(s, parent), child as usize));
        if live(s1, child) {
            Ok(set_links(s1, child, None, children_of(s1, child)))
        } else {
            Ok(s1)
        }
    }
}

fn contains_idx(v: &Vec<usize>, x: usize) -> (r: bool)
    ensures
        r == v@.contains(x),
{
    let mut i: usize = 0;
    while i < v.len()
        invariant
            i <= v@.len(),
            forall|j: int| 0 <= j < i ==> v@[j] != x,
        decreases v@.len() - i,
    {
        if v[i] == x {
            return true;
        }
        i = i + 1;
    }
    false
}

fn position_of(v: &Vec<usize>, x: usize) -> (r: Option<usize>)
    ensures
        opt_int(r) == first_pos(v@, x),
        r matches Some(k) ==> k < v@.len(),
{
    let mut i: usize = 0;
    assert(v@.skip(0) =~= v@);
    while i < v.len()
        invariant
            i <= v@.len(),
            first_pos(v@, x) == (match first_pos(v@.skip(i as int), x) {
                Some(k) => Some(k + i),
                None => None,
            }),
        decreases v@.len() - i,
    {
        proof {
            assert(v@.skip(i as int).drop_first() =~= v@.skip(i + 1));
            assert(v@.skip(i as int)[0] == v@[i as int]);
        }
        if v[i] == x {
            return Some(i);
        }
        i = i + 1;
    }
    None
}

pub open spec fn opt_int(r: Option<usize>) -> Option<int> {
    match r {
        Some(k) => Some(k as int),
        None => None,
    }
}

fn without_idx(v: &Vec<usize>, x: usize) -> (r: Vec<usize>)
    ensures
        r@ == seq_without(v@, x),
{
    let mut r: Vec<usize> = Vec::new();
    let mut i: usize = 0;
    while i < v.len()
        invariant
            i <= v@.len(),
            r@ == seq_without(v@.take(i as int), x),
        decreases v@.len() - i,
    {
        proof {
            assert(v@.take(i + 1).drop_last() =~= v@.take(i as int));
            assert(v@.take(i + 1).last() == v@[i as int]);
        }
        if v[i] != x {
            r.push(v[i]);
        }
        i = i + 1;
    }
    assert(v@.take(v@.len() as int) =~= v@);
    r
}

proof fn lemma_slots_set(v: Seq<Option<Links>>, i: int, l: Links)
    requires
        0 <= i < v.len(),
    ensures
        slots_model(v.update(i, Some(l))) == slots_model(v).update(i, Some(LinkModel { parent: l.parent, children: l.children@ })),
{
    assert(slots_model(v.update(i, Some(l))) =~= slots_model(v).update(i, Some(LinkModel { parent: l.parent, children: l.children@ })));
}

fn copy_idx(v: &Vec<usize>) -> (r: Vec<usize>)
    ensures
        r@ == v@,
{
    let mut r: Vec<usize> = Vec::new();
    let mut i: usize = 0;
    while i < v.len()
        invariant
            i <= v@.len(),
            r@ == v@.take(i as int),
        decreases v@.len() - i,
    {
        r.push(v[i]);
        assert(r@ =~= v@.take(i + 1));
        i = i + 1;
    }
    assert(v@.take(v@.len() as int) =~= v@);
    r
}

impl SceneTree {
    /// A tree without nodes.
    pub fn new() -> (t: SceneTree)
        ensures
            t@.0.len() == 0,
            t@.1.len() == 0,
    {
        let t = SceneTree { slots: Vec::new(), roots: Vec::new() };
        assert(t@.0 =~= Seq::<Option<LinkModel>>::empty());
        t
    }

    /// Adds a node without parent or children in a new slot and returns that slot.
    pub fn add_node(&mut self) -> (id: usize)
        requires
            old(self).slots@.len() < usize::MAX,
        ensures
            id == old(self)@.0.len(),
            final(self)@.0 == old(self)@.0.push(Some(LinkModel { parent: None, children: Seq::empty() })),
            final(self)@.1 == old(self)@.1,
    {
        let id = self.slots.len();
        let ghost v0 = self.slots@;
        self.slots.push(Some(Links { parent: None, children: Vec::new() }));
        proof {
            assert(slots_model(self.slots@) =~= slots_model(v0).push(Some(LinkModel { parent: None, children: Seq::empty() })));
        }
        id
    }

    /// Adds a node as `add_node` does and lists it last among the roots.
    pub fn add_root(&mut self) -> (id: usize)
        requires
            old(self).slots@.len() < usize::MAX,
        ensures
            id == old(self)@.0.len(),
            final(self)@.0 == old(self)@.0.push(Some(LinkModel { parent: None, children: Seq::empty() })),
            final(self)@.1 == old(self)@.1.push(id),
    {
        let id = self.add_node();
        self.roots.push(id);
        id
    }

    /// Whether slot `i` holds a live node.
    pub fn is_live(&self, i: usize) -> (b: bool)
        ensures
            b == live(self@.0, i as int),
    {
        i < self.slots.len() && self.slots[i].is_some()
    }

    /// The children of a live node, copied.
    pub(crate) fn children_copy(&self, i: usize) -> (c: Vec<usize>)
        requires
            live(self@.0, i as int),
        ensures
            c@ == children_of(self@.0, i as int),
    {
        match &self.slots[i] {
            Some(l) => copy_idx(&l.children),
            None => Vec::new(),
        }
    }

    /// The parent of a live node.
    fn parent_at(&self, i: usize) -> (p: Option<usize>)
        requires
            live(self@.0, i as int),
        ensures
            p == parent_of(self@.0, i as int),
    {
        match &self.slots[i] {
            Some(l) => l.parent,
            None => None,
        }
    }

    fn set_at(&mut self, i: usize, parent: Option<usize>, children: Vec<usize>)
        requires
            i < old(self).slots@.len(),
        ensures
            final(self)@.0 == set_links(old(self)@.0, i as int, parent, children@),
            final(self)@.1 == old(self)@.1,
            final(self).slots@.len() == old(self).slots@.len(),
    {
        let ghost v0 = self.slots@;
        let l = Links { parent, children };
        proof {
            lemma_slots_set(v0, i as int, l);
        }
        self.slots.set(i, Some(l));
    }

    /// Appends `child` to the children of `parent` (see `spec_append`).
    pub fn append_child(&mut self, parent: usize, child: usize) -> (r: Result<(), String>)
        requires
            live(old(self)@.0, child as int) || !live(old(self)@.0, parent as int) || children_of(old(self)@.0, parent as int).contains(child),
        ensures
            final(self)@.1 == old(self)@.1,
            match spec_append(old(self)@.0, parent as int, child as int) {
                Ok(s) => r is Ok && final(self)@.0 == s,
                Err(m) => r matches Err(e) && e@ == m && final(self)@.0 == old(self)@.0,
            },
    {
        proof {
            reveal_strlit("parent not live");
            reveal_strlit("child already has parent（先 remove_child 摘除旧父）");
        }
        if !self.is_live(parent) {
            return Err(String::from_str("parent not live"));
        }
        let pc = self.children_copy(parent);
        if contains_idx(&pc, child) {
            return Ok(());
        }
        if self.is_live(child) && self.parent_at(child).is_some() {
            return Err(String::from_str("child already has parent（先 remove_child 摘除旧父）"));
        }
        let pp = self.parent_at(parent);
        let mut npc = pc;
        npc.push(child);
        self.set_at(parent, pp, npc);
        let cc = self.children_copy(child);
        self.set_at(child, Some(parent), cc);
        Ok(())
    }

    /// Inserts `child` before the sibling `sib` among the children of `parent`, or appends it
    /// when there is no sibling (see `spec_insert_before`).
    pub fn insert_before(&mut self, parent: usize, child: usize, sib: Option<usize>) -> (r: Result<(), String>)
        requires
            sib is None ==> (live(old(self)@.0, child as int) || !live(old(self)@.0, parent as int) || children_of(old(self)@.0, parent as int).contains(child)),
            sib is Some ==> live(old(self)@.0, child as int) || !live(old(self)@.0, parent as int) || first_pos(children_of(old(self)@.0, parent as int), sib.unwrap()) is None,
        ensures
            final(self)@.1 == old(self)@.1,
            match (match sib {
                None => spec_append(old(self)@.0, parent as int, child as int),
                Some(s) => spec_insert_before(old(self)@.0, parent as int, child as int, s),
            }) {
                Ok(s) => r is Ok && final(self)@.0 == s,
                Err(m) => r matches Err(e) && e@ == m && final(self)@.0 == old(self)@.0,
            },
    {
        proof {
            reveal_strlit("parent not live");
            reveal_strlit("child already has parent（先 remove_child 摘除旧父）");
            reveal_strlit("ref_id not in parent.children");
        }
        let s = match sib {
            None => {
                return self.append_child(parent, child);
            },
            Some(s) => s,
        };
        if self.is_live(child) && self.parent_at(child).is_some() {
            return Err(String::from_str("child already has parent（先 remove_child 摘除旧父）"));
        }
        if !self.is_live(parent) {
            return Err(String::from_str("parent not live"));
        }
        let pc = self.children_copy(parent);
        let pos = match position_of(&pc, s) {
            Some(k) => k,
            None => {
                return Err(String::from_str("ref_id not in parent.children"));
            },
        };
        let pp = self.parent_at(parent);
        let mut npc = pc;
        npc.insert(pos, child);
        self.set_at(parent, pp, npc);
        let cc = self.children_copy(child);
        self.set_at(child, Some(parent), cc);
        Ok(())
    }

    /// Takes `child` out of the children of `parent`; a live child then has no parent. The node
    /// stays (see `spec_remove_child`).
    pub fn remove_child(&mut self, parent: usize, child: usize) -> (r: Result<(), String>)
        ensures
            final(self)@.1 == old(self)@.1,
            match spec_remove_child(old(self)@.0, parent as int, child as int) {
                Ok(s) => r is Ok && final(self)@.0 == s,
                Err(m) => r matches Err(e) && e@ == m && final(self)@.0 == old(self)@.0,
            },
    {
        proof {
            reveal_strlit("parent not live");
        }
        if !self.is_live(parent) {
            return Err(String::from_str("parent not live"));
        }
        let pc = self.children_copy(parent);
        let pp = self.parent_at(parent);
        let kept = without_idx(&pc, child);
        self.set_at(parent, pp, kept);
        if self.is_live(child) {
            let cc = self.children_copy(child);
            self.set_at(child, None, cc);
        }
        Ok(())
    }
}


// ---------------------------------------------------------------------------
// What the operations keep.
// ---------------------------------------------------------------------------

proof fn lemma_push_contains(d: Seq<usize>, v: usize, y: usize)
    ensures
        d.push(v).contains(y) <==> (d.contains(y) || y == v),
{
    if d.contains(y) {
        let k = choose|k: int| 0 <= k < d.len() && d[k] == y;
        assert(d.push(v)[k] == y);
    }
    if y == v {
        assert(d.push(v)[d.len() as int] == y);
    }
    if d.push(v).contains(y) {
        let k = choose|k: int| 0 <= k < d.push(v).len() && d.push(v)[k] == y;
        if k < d.len() {
            assert(d[k] == y);
        }
    }
}

pub(crate) proof fn lemma_without(c: Seq<usize>, x: usize)
    ensures
        forall|y: usize| #[trigger] seq_without(c, x).contains(y) <==> (c.contains(y) && y != x),
        no_dups(c) ==> no_dups(seq_without(c, x)),
    decreases c.len(),
{
    if c.len() == 0 {
        assert forall|y: usize| #[trigger] seq_without(c, x).contains(y) <==> (c.contains(y) && y != x) by {}
    } else {
        let d = c.drop_last();
        let v = c.last();
        lemma_without(d, x);
        let w = seq_without(d, x);
        assert(c =~= d.push(v));
        assert forall|y: usize| #[trigger] seq_without(c, x).contains(y) <==> (c.contains(y) && y != x) by {
            lemma_push_contains(d, v, y);
            if v != x {
                lemma_push_contains(w, v, y);
            }
        }
        if no_dups(c) {
            assert(no_dups(d)) by {
                assert forall|a: int, b: int| 0 <= a < b < d.len() implies d[a] != d[b] by {
                    assert(c[a] == d[a] && c[b] == d[b]);
                }
            }
            if v != x {
                assert(!d.contains(v)) by {
                    if d.contains(v) {
                        let k = choose|k: int| 0 <= k < d.len() && d[k] == v;
                        assert(c[k] == c[c.len() - 1]);
                    }
                }
                assert(!w.contains(v));
                let wp = w.push(v);
                assert forall|a: int, b: int| 0 <= a < b < wp.len() implies wp[a] != wp[b] by {
                    if b == wp.len() - 1 {
                        assert(wp[a] == w[a]);
                        assert(w.contains(w[a]));
                    } else {
                        assert(wp[a] == w[a] && wp[b] == w[b]);
                    }
                }
            }
        }
    }
}

/// Appending keeps parent and children links in agreement.
pub proof fn law_append_keeps_consistent(s: Seq<Option<LinkModel>>, parent: int, child: int)
    requires
        consistent(s),
        s.len() <= usize::MAX,
        live(s, child) || !live(s, parent) || children_of(s, parent).contains(child as usize),
        0 <= child,
        child <= usize::MAX,
    ensures
        spec_append(s, parent, child) matches Ok(t) ==> consistent(t),
{
    if live(s, parent) && !children_of(s, parent).contains(child as usize) && !(live(s, child) && parent_of(s, child) is Some) {
        let pc = children_of(s, parent);
        let cp = pc.push(child as usize);
        let s1 = set_links(s, parent, parent_of(s, parent), cp);
        let t = set_links(s1, child, Some(parent as usize), children_of(s1, child));
        assert(spec_append(s, parent, child) == Ok::<Seq<Option<LinkModel>>, Seq<char>>(t));
        assert(live(s, child));
        assert(parent_of(s, child) is None);
        // what each entry of t holds
        assert(parent_of(t, child) == Some(parent as usize));
        assert(children_of(t, parent) == cp);
        assert(parent != child ==> children_of(t, child) == children_of(s, child));
        assert(parent != child ==> parent_of(t, parent) == parent_of(s, parent));
        assert forall|j: int| j != parent && j != child && 0 <= j < s.len() implies #[trigger] t[j] == s[j] by {}
        assert(cp.contains(child as usize)) by {
            lemma_push_contains(pc, child as usize, child as usize);
        }
        assert forall|i: int| #[trigger] live(t, i) && parent_of(t, i) is Some implies live(t, parent_of(t, i).unwrap() as int)
            && children_of(t, parent_of(t, i).unwrap() as int).contains(i as usize) by {
            if i != child {
                assert(live(s, i));
                assert(parent_of(t, i) == parent_of(s, i));
                let q = parent_of(s, i).unwrap() as int;
                assert(live(s, q) && children_of(s, q).contains(i as usize));
                if q == parent {
                    lemma_push_contains(pc, child as usize, i as usize);
                } else if q != child {
                    assert(t[q] == s[q]);
                }
            }
        }
        assert forall|p: int, k: int| #![trigger children_of(t, p)[k]] live(t, p) && 0 <= k < children_of(t, p).len() implies live(t, children_of(t, p)[k] as int)
            && parent_of(t, children_of(t, p)[k] as int) == Some(p as usize) by {
            if p == parent {
                if k < pc.len() {
                    assert(cp[k] == pc[k]);
                    let e = pc[k];
                    assert(live(s, e as int) && parent_of(s, e as int) == Some(p as usize));
                    assert(e != child as usize) by {
                        assert(pc.contains(e));
                    }
                    if e as int == parent {
                        assert(parent_of(t, e as int) == parent_of(s, e as int));
                    } else {
                        assert(t[e as int] == s[e as int]);
                    }
                }
            } else {
                let e = children_of(s, p)[k];
                if p == child {
                    assert(children_of(t, p) == children_of(s, p));
                } else {
                    assert(t[p] == s[p]);
                }
                assert(live(s, e as int) && parent_of(s, e as int) == Some(p as usize));
                assert(e as int != child);
                if e as int == parent {
                    assert(parent_of(t, e as int) == parent_of(s, e as int));
                } else {
                    assert(t[e as int] == s[e as int]);
                }
            }
        }
        assert forall|p: int| #[trigger] live(t, p) implies no_dups(children_of(t, p)) by {
            assert(live(s, p));
            if p == parent {
                assert(no_dups(pc));
                assert forall|a: int, b: int| 0 <= a < b < cp.len() implies cp[a] != cp[b] by {
                    if b == pc.len() {
                        assert(cp[a] == pc[a]);
                        assert(pc.contains(pc[a]));
                    } else {
                        assert(cp[a] == pc[a] && cp[b] == pc[b]);
                    }
                }
            } else if p == child {
                assert(children_of(t, p) == children_of(s, p));
            } else {
                assert(t[p] == s[p]);
            }
        }
    }
}

/// Detaching a child from its own parent (or a child without parent) keeps parent and children
/// links in agreement.
pub proof fn law_remove_child_keeps_consistent(s: Seq<Option<LinkModel>>, parent: int, child: int)
    requires
        consistent(s),
        s.len() <= usize::MAX,
        live(s, child) ==> parent_of(s, child) is None || parent_of(s, child) == Some(parent as usize),
        0 <= child,
        child <= usize::MAX,
    ensures
        spec_remove_child(s, parent, child) matches Ok(t) ==> consistent(t),
{
    if live(s, parent) {
        let pc = children_of(s, parent);
        let w = seq_without(pc, child as usize);
        lemma_without(pc, child as usize);
        let s1 = set_links(s, parent, parent_of(s, parent), w);
        let t = if live(s1, child) { set_links(s1, child, None, children_of(s1, child)) } else { s1 };
        assert(spec_remove_child(s, parent, child) == Ok::<Seq<Option<LinkModel>>, Seq<char>>(t));
        assert forall|i: int| #[trigger] live(t, i) && parent_of(t, i) is Some implies live(t, parent_of(t, i).unwrap() as int)
            && children_of(t, parent_of(t, i).unwrap() as int).contains(i as usize) by {
            assert(i != child);
            assert(live(s, i));
            let q = parent_of(s, i).unwrap() as int;
            assert(parent_of(t, i) == parent_of(s, i));
            assert(live(s, q) && children_of(s, q).contains(i as usize));
            if q == parent {
                assert(w.contains(i as usize));
            } else if q == child {
                assert(children_of(t, q) == children_of(s, q));
            } else {
                assert(children_of(t, q) == children_of(s, q));
            }
        }
        assert forall|p: int, k: int| #![trigger children_of(t, p)[k]] live(t, p) && 0 <= k < children_of(t, p).len() implies live(t, children_of(t, p)[k] as int)
            && parent_of(t, children_of(t, p)[k] as int) == Some(p as usize) by {
            if p == parent {
                if parent == child && live(s1, child) {
                    assert(children_of(t, p) == w);
                } else {
                    assert(children_of(t, p) == w);
                }
                let e = w[k];
                assert(w.contains(e));
                assert(pc.contains(e) && e != child as usize);
                let j = choose|j: int| 0 <= j < pc.len() && pc[j] == e;
                assert(live(s, pc[j] as int) && parent_of(s, pc[j] as int) == Some(p as usize));
            } else {
                assert(children_of(t, p) == children_of(s, p));
                let e = children_of(s, p)[k];
                assert(live(s, e as int) && parent_of(s, e as int) == Some(p as usize));
                if e as int == child {
                    assert(false);
                }
            }
        }
        assert forall|p: int| #[trigger] live(t, p) implies no_dups(children_of(t, p)) by {
            assert(live(s, p));
            if p == parent {
                assert(children_of(t, p) == w);
            }
        }
    }
}


proof fn lemma_insert_contains(d: Seq<usize>, k: int, v: usize, y: usize)
    requires
        0 <= k <= d.len(),
    ensures
        d.insert(k, v).contains(y) <==> (d.contains(y) || y == v),
{
    let e = d.insert(k, v);
    if d.contains(y) {
        let j = choose|j: int| 0 <= j < d.len() && d[j] == y;
        if j < k {
            assert(e[j] == y);
        } else {
            assert(e[j + 1] == y);
        }
    }
    if y == v {
        assert(e[k] == y);
    }
    if e.contains(y) {
        let j = choose|j: int| 0 <= j < e.len() && e[j] == y;
        if j < k {
            assert(d[j] == y);
        } else if j > k {
            assert(d[j - 1] == y);
        }
    }
}

proof fn lemma_first_pos(c: Seq<usize>, x: usize)
    ensures
        first_pos(c, x) matches Some(k) ==> 0 <= k < c.len() && c[k] == x,
    decreases c.len(),
{
    if c.len() > 0 && c[0] != x {
        lemma_first_pos(c.drop_first(), x);
    }
}

/// Inserting before a sibling keeps parent and children links in agreement.
pub proof fn law_insert_before_keeps_consistent(s: Seq<Option<LinkModel>>, parent: int, child: int, sib: usize)
    requires
        consistent(s),
        s.len() <= usize::MAX,
        live(s, child) || !live(s, parent) || first_pos(children_of(s, parent), sib) is None,
        0 <= child,
        child <= usize::MAX,
    ensures
        spec_insert_before(s, parent, child, sib) matches Ok(t) ==> consistent(t),
{
    if !(live(s, child) && parent_of(s, child) is Some) && live(s, parent) && first_pos(children_of(s, parent), sib) is Some {
        let pc = children_of(s, parent);
        let k0 = first_pos(pc, sib).unwrap();
        lemma_first_pos(pc, sib);
        let cp = pc.insert(k0, child as usize);
        let s1 = set_links(s, parent, parent_of(s, parent), cp);
        let t = set_links(s1, child, Some(parent as usize), children_of(s1, child));
        assert(spec_insert_before(s, parent, child, sib) == Ok::<Seq<Option<LinkModel>>, Seq<char>>(t));
        assert(live(s, child));
        assert(parent_of(s, child) is None);
        assert(!pc.contains(child as usize)) by {
            if pc.contains(child as usize) {
                let j = choose|j: int| 0 <= j < pc.len() && pc[j] == child as usize;
                assert(parent_of(s, pc[j] as int) == Some(parent as usize));
            }
        }
        assert(parent_of(t, child) == Some(parent as usize));
        assert(children_of(t, parent) == cp);
        assert(parent != child ==> children_of(t, child) == children_of(s, child));
        assert(parent != child ==> parent_of(t, parent) == parent_of(s, parent));
        assert forall|j: int| j != parent && j != child && 0 <= j < s.len() implies #[trigger] t[j] == s[j] by {}
        assert(cp.contains(child as usize)) by {
            lemma_insert_contains(pc, k0, child as usize, child as usize);
        }
        assert forall|i: int| #[trigger] live(t, i) && parent_of(t, i) is Some implies live(t, parent_of(t, i).unwrap() as int)
            && children_of(t, parent_of(t, i).unwrap() as int).contains(i as usize) by {
            if i != child {
                assert(live(s, i));
                assert(parent_of(t, i) == parent_of(s, i));
                let q = parent_of(s, i).unwrap() as int;
                assert(live(s, q) && children_of(s, q).contains(i as usize));
                if q == parent {
                    lemma_insert_contains(pc, k0, child as usize, i as usize);
                } else if q != child {
                    assert(t[q] == s[q]);
                }
            }
        }
        assert forall|p: int, k: int| #![trigger children_of(t, p)[k]] live(t, p) && 0 <= k < children_of(t, p).len() implies live(t, children_of(t, p)[k] as int)
            && parent_of(t, children_of(t, p)[k] as int) == Some(p as usize) by {
            if p == parent {
                if k != k0 {
                    let e = if k < k0 { pc[k] } else { pc[k - 1] };
                    assert(cp[k] == e);
                    assert(pc.contains(e));
                    assert(live(s, e as int) && parent_of(s, e as int) == Some(p as usize)) by {
                        if k < k0 {
                            assert(children_of(s, p)[k] == e);
                        } else {
                            assert(children_of(s, p)[k - 1] == e);
                        }
                    }
                    assert(e != child as usize);
                    if e as int == parent {
                        assert(parent_of(t, e as int) == parent_of(s, e as int));
                    } else {
                        assert(t[e as int] == s[e as int]);
                    }
                }
            } else {
                let e = children_of(s, p)[k];
                if p == child {
                    assert(children_of(t, p) == children_of(s, p));
                } else {
                    assert(t[p] == s[p]);
                }
                assert(live(s, e as int) && parent_of(s, e as int) == Some(p as usize));
                assert(e as int != child);
                if e as int == parent {
                    assert(parent_of(t, e as int) == parent_of(s, e as int));
                } else {
                    assert(t[e as int] == s[e as int]);
                }
            }
        }
        assert forall|p: int| #[trigger] live(t, p) implies no_dups(children_of(t, p)) by {
            assert(live(s, p));
            if p == parent {
                assert(no_dups(pc));
                assert forall|a: int, b: int| 0 <= a < b < cp.len() implies cp[a] != cp[b] by {
                    let ea = if a < k0 { pc[a] } else if a == k0 { child as usize } else { pc[a - 1] };
                    let eb = if b < k0 { pc[b] } else if b == k0 { child as usize } else { pc[b - 1] };
                    assert(cp[a] == ea && cp[b] == eb);
                    if a == k0 {
                        assert(pc.contains(eb));
                    } else if b == k0 {
                        assert(pc.contains(ea));
                    }
                }
            } else if p == child {
                assert(children_of(t, p) == children_of(s, p));
            } else {
                assert(t[p] == s[p]);
            }
        }
    }
}


/// A new node without links keeps parent and children links in agreement.
pub proof fn law_add_keeps_consistent(s: Seq<Option<LinkModel>>)
    requires
        consistent(s),
    ensures
        consistent(s.push(Some(LinkModel { parent: None, children: Seq::empty() }))),
{
    let t = s.push(Some(LinkModel { parent: None, children: Seq::empty() }));
    let n = s.len() as int;
    assert forall|i: int| #[trigger] live(t, i) && parent_of(t, i) is Some implies live(t, parent_of(t, i).unwrap() as int)
        && children_of(t, parent_of(t, i).unwrap() as int).contains(i as usize) by {
        assert(i != n);
        assert(live(s, i));
        let q = parent_of(s, i).unwrap() as int;
        assert(live(s, q));
        assert(t[q] == s[q]);
    }
    assert forall|p: int, k: int| #![trigger children_of(t, p)[k]] live(t, p) && 0 <= k < children_of(t, p).len() implies live(t, children_of(t, p)[k] as int)
        && parent_of(t, children_of(t, p)[k] as int) == Some(p as usize) by {
        assert(p != n);
        assert(t[p] == s[p]);
        assert(live(s, children_of(s, p)[k] as int));
        let c = children_of(s, p)[k] as int;
        assert(t[c] == s[c]);
    }
    assert forall|p: int| #[trigger] live(t, p) implies no_dups(children_of(t, p)) by {
        if p != n {
            assert(t[p] == s[p]);
            assert(live(s, p));
        }
    }
}

proof fn lemma_without_absent(c: Seq<usize>, x: usize)
    requires
        !c.contains(x),
    ensures
        seq_without(c, x) == c,
    decreases c.len(),
{
    if c.len() > 0 {
        let d = c.drop_last();
        assert(!d.contains(x)) by {
            if d.contains(x) {
                let k = choose|k: int| 0 <= k < d.len() && d[k] == x;
                assert(c[k] == x);
            }
        }
        lemma_without_absent(d, x);
        assert(c[c.len() - 1] != x);
        assert(d.push(c.last()) =~= c);
    }
}

proof fn lemma_without_insert(c: Seq<usize>, k: int, x: usize)
    requires
        !c.contains(x),
        0 <= k <= c.len(),
    ensures
        seq_without(c.insert(k, x), x) == c,
    decreases c.len(),
{
    if k == c.len() {
        assert(c.insert(k, x) =~= c.push(x));
        assert(c.push(x).drop_last() =~= c);
        lemma_without_absent(c, x);
    } else {
        let d = c.drop_last();
        assert(!d.contains(x)) by {
            if d.contains(x) {
                let j = choose|j: int| 0 <= j < d.len() && d[j] == x;
                assert(c[j] == x);
            }
        }
        lemma_without_insert(d, k, x);
        assert(c.insert(k, x).drop_last() =~= d.insert(k, x));
        assert(c.insert(k, x).last() == c.last());
        assert(c[c.len() - 1] != x);
        assert(d.push(c.last()) =~= c);
    }
}

/// Appending the same child to the same parent a second time changes nothing.
pub proof fn law_append_idempotent(s: Seq<Option<LinkModel>>, parent: int, child: int)
    requires
        0 <= child <= usize::MAX,
        live(s, child) || !live(s, parent) || children_of(s, parent).contains(child as usize),
    ensures
        spec_append(s, parent, child) matches Ok(t) ==> spec_append(t, parent, child) == Ok::<Seq<Option<LinkModel>>, Seq<char>>(t),
{
    if spec_append(s, parent, child) is Ok && live(s, parent) && !children_of(s, parent).contains(child as usize) {
        let pc = children_of(s, parent);
        let s1 = set_links(s, parent, parent_of(s, parent), pc.push(child as usize));
        let t = set_links(s1, child, Some(parent as usize), children_of(s1, child));
        assert(spec_append(s, parent, child) == Ok::<Seq<Option<LinkModel>>, Seq<char>>(t));
        assert(live(t, parent));
        assert(children_of(t, parent) == pc.push(child as usize));
        assert(children_of(t, parent)[pc.len() as int] == child as usize);
        assert(children_of(t, parent).contains(child as usize));
    }
}

/// Removing a child just appended gives back the links from before, when the child was live,
/// had no parent and was not already listed.
pub proof fn law_remove_child_undoes_append(s: Seq<Option<LinkModel>>, parent: int, child: int)
    requires
        live(s, parent),
        live(s, child),
        parent_of(s, child) is None,
        !children_of(s, parent).contains(child as usize),
        0 <= child <= usize::MAX,
    ensures
        spec_append(s, parent, child) matches Ok(t) && spec_remove_child(t, parent, child) == Ok::<Seq<Option<LinkModel>>, Seq<char>>(s),
{
    let pc = children_of(s, parent);
    let s1 = set_links(s, parent, parent_of(s, parent), pc.push(child as usize));
    let t = set_links(s1, child, Some(parent as usize), children_of(s1, child));
    assert(spec_append(s, parent, child) == Ok::<Seq<Option<LinkModel>>, Seq<char>>(t));
    assert(pc.push(child as usize) =~= pc.insert(pc.len() as int, child as usize));
    lemma_without_insert(pc, pc.len() as int, child as usize);
    assert(children_of(t, parent) == pc.push(child as usize));
    let u1 = set_links(t, parent, parent_of(t, parent), seq_without(children_of(t, parent), child as usize));
    let u = set_links(u1, child, None, children_of(u1, child));
    assert(spec_remove_child(t, parent, child) == Ok::<Seq<Option<LinkModel>>, Seq<char>>(u));
    assert(u =~= s) by {
        assert forall|i: int| 0 <= i < s.len() implies u[i] == s[i] by {
            if i == child {
                assert(children_of(u1, child) == children_of(s, child));
            } else if i == parent {
                assert(u[i] == u1[i]);
            }
        }
    }
}

/// Removing a child just inserted before a sibling gives back the links from before, when the
/// child was live, had no parent and was not already listed.
pub proof fn law_remove_child_undoes_insert(s: Seq<Option<LinkModel>>, parent: int, child: int, sib: usize)
    requires
        live(s, parent),
        live(s, child),
        parent_of(s, child) is None,
        !children_of(s, parent).contains(child as usize),
        first_pos(children_of(s, parent), sib) is Some,
        0 <= child <= usize::MAX,
    ensures
        spec_insert_before(s, parent, child, sib) matches Ok(t) && spec_remove_child(t, parent, child) == Ok::<Seq<Option<LinkModel>>, Seq<char>>(s),
{
    let pc = children_of(s, parent);
    lemma_first_pos(pc, sib);
    let k = first_pos(pc, sib).unwrap();
    let s1 = set_links(s, parent, parent_of(s, parent), pc.insert(k, child as usize));
    let t = set_links(s1, child, Some(parent as usize), children_of(s1, child));
    assert(spec_insert_before(s, parent, child, sib) == Ok::<Seq<Option<LinkModel>>, Seq<char>>(t));
    lemma_without_insert(pc, k, child as usize);
    assert(children_of(t, parent) == pc.insert(k, child as usize));
    let u1 = set_links(t, parent, parent_of(t, parent), seq_without(children_of(t, parent), child as usize));
    let u = set_links(u1, child, None, children_of(u1, child));
    assert(spec_remove_child(t, parent, child) == Ok::<Seq<Option<LinkModel>>, Seq<char>>(u));
    assert(u =~= s) by {
        assert forall|i: int| 0 <= i < s.len() implies u[i] == s[i] by {
            if i == child {
                assert(children_of(u1, child) == children_of(s, child));
            } else if i == parent {
                assert(u[i] == u1[i]);
            }
        }
    }
}

// ---------------------------------------------------------------------------
// Removing a node with its subtree.
// ---------------------------------------------------------------------------

/// Every listed child ranks below its parent.
pub open spec fn children_ranked(s: Seq<Option<LinkModel>>, rank: spec_fn(int) -> nat) -> bool {
    forall|p: int, k: int| #![trigger children_of(s, p)[k]] live(s, p) && 0 <= k < children_of(s, p).len() ==> rank(children_of(s, p)[k] as int) < rank(p)
}

/// Following child links always ends.
pub open spec fn tree_ranked(s: Seq<Option<LinkModel>>) -> bool {
    exists|rank: spec_fn(int) -> nat| #[trigger] children_ranked(s, rank)
}

/// Takes `id` out of its parent's children when that parent is live, or out of the roots when
/// it has no parent.
pub open spec fn detach(st: (Seq<Option<LinkModel>>, Seq<usize>), id: int, parent: Option<usize>) -> (Seq<Option<LinkModel>>, Seq<usize>) {
    match parent {
        Some(p) => if live(st.0, p as int) {
            (set_links(st.0, p as int, parent_of(st.0, p as int), seq_without(children_of(st.0, p as int), id as usize)), st.1)
        } else {
            st
        },
        None => (st.0, seq_without(st.1, id as usize)),
    }
}

/// Removes node `id`: first the subtrees of its children in order, then it leaves its parent
/// (or the roots), then its slot is emptied. Nothing happens to a slot without a live node.
pub open spec fn spec_remove(st: (Seq<Option<LinkModel>>, Seq<usize>), id: int, rank: spec_fn(int) -> nat) -> (Seq<Option<LinkModel>>, Seq<usize>)
    decreases rank(id), 1int, 0int,
{
    if !live(st.0, id) {
        st
    } else {
        let cs = children_of(st.0, id);
        let st1 = remove_list(st, cs, cs.len() as int, rank, id);
        let st2 = detach(st1, id, parent_of(st.0, id));
        (st2.0.update(id, None), st2.1)
    }
}

/// Removes the subtrees of the first `k` nodes of `cs`, children of `owner`, in order.
pub open spec fn remove_list(
    st: (Seq<Option<LinkModel>>, Seq<usize>),
    cs: Seq<usize>,
    k: int,
    rank: spec_fn(int) -> nat,
    owner: int,
) -> (Seq<Option<LinkModel>>, Seq<usize>)
    decreases rank(owner), 0int, k,
{
    if k <= 0 {
        st
    } else {
        let st1 = remove_list(st, cs, k - 1, rank, owner);
        let c = cs[k - 1] as int;
        if rank(c) < rank(owner) {
            spec_remove(st1, c, rank)
        } else {
            st1
        }
    }
}

proof fn lemma_ranked_set(s: Seq<Option<LinkModel>>, rank: spec_fn(int) -> nat, p: int, x: usize)
    requires
        children_ranked(s, rank),
        live(s, p),
    ensures
        children_ranked(set_links(s, p, parent_of(s, p), seq_without(children_of(s, p), x)), rank),
{
    let t = set_links(s, p, parent_of(s, p), seq_without(children_of(s, p), x));
    lemma_without(children_of(s, p), x);
    assert forall|q: int, k: int| #![trigger children_of(t, q)[k]] live(t, q) && 0 <= k < children_of(t, q).len() implies rank(children_of(t, q)[k] as int) < rank(q) by {
        if q == p {
            let w = seq_without(children_of(s, p), x);
            assert(w.contains(w[k]));
            let j = choose|j: int| 0 <= j < children_of(s, p).len() && children_of(s, p)[j] == w[k];
            assert(rank(children_of(s, p)[j] as int) < rank(p));
        } else {
            assert(children_of(t, q) == children_of(s, q));
            assert(rank(children_of(s, q)[k] as int) < rank(q));
        }
    }
}

proof fn lemma_ranked_clear(s: Seq<Option<LinkModel>>, rank: spec_fn(int) -> nat, id: int)
    requires
        children_ranked(s, rank),
        0 <= id < s.len(),
    ensures
        children_ranked(s.update(id, None), rank),
{
    let t = s.update(id, None);
    assert forall|q: int, k: int| #![trigger children_of(t, q)[k]] live(t, q) && 0 <= k < children_of(t, q).len() implies rank(children_of(t, q)[k] as int) < rank(q) by {
        assert(t[q] == s[q]);
        assert(rank(children_of(s, q)[k] as int) < rank(q));
    }
}

impl SceneTree {
    fn detach_at(&mut self, id: usize, parent: Option<usize>, Ghost(rank): Ghost<spec_fn(int) -> nat>)
        requires
            children_ranked(old(self)@.0, rank),
        ensures
            final(self)@ == detach(old(self)@, id as int, parent),
            children_ranked(final(self)@.0, rank),
            final(self).slots@.len() == old(self).slots@.len(),
    {
        match parent {
            Some(p) => {
                if self.is_live(p) {
                    let pc = self.children_copy(p);
                    let pp = self.parent_at(p);
                    let kept = without_idx(&pc, id);
                    proof {
                        lemma_ranked_set(self@.0, rank, p as int, id);
                    }
                    self.set_at(p, pp, kept);
                }
            },
            None => {
                let kept = without_idx(&self.roots, id);
                self.roots = kept;
            },
        }
    }

    fn remove_rec(&mut self, id: usize, Ghost(rank): Ghost<spec_fn(int) -> nat>)
        requires
            children_ranked(old(self)@.0, rank),
        ensures
            final(self)@ == spec_remove(old(self)@, id as int, rank),
            children_ranked(final(self)@.0, rank),
            final(self).slots@.len() == old(self).slots@.len(),
            !live(final(self)@.0, id as int),
        decreases rank(id as int),
    {
        if !self.is_live(id) {
            return;
        }
        let ghost st0 = self@;
        let cs = self.children_copy(id);
        let pid = self.parent_at(id);
        let mut k: usize = 0;
        while k < cs.len()
            invariant
                k <= cs@.len(),
                cs@ == children_of(st0.0, id as int),
                live(st0.0, id as int),
                children_ranked(st0.0, rank),
                children_ranked(self@.0, rank),
                self@ == remove_list(st0, cs@, k as int, rank, id as int),
                self.slots@.len() == st0.0.len(),
            decreases cs@.len() - k,
        {
            let c = cs[k];
            proof {
                assert(rank(children_of(st0.0, id as int)[k as int] as int) < rank(id as int));
            }
            self.remove_rec(c, Ghost(rank));
            k = k + 1;
        }
        self.detach_at(id, pid, Ghost(rank));
        proof {
            lemma_ranked_clear(self@.0, rank, id as int);
            lemma_slots_clear(self.slots@, id as int);
        }
        self.slots.set(id, None);
    }

    /// Removes node `id` with its subtree (see `spec_remove`); does nothing to a slot without a
    /// live node.
    pub fn remove_node(&mut self, id: usize)
        requires
            tree_ranked(old(self)@.0),
        ensures
            final(self)@ == spec_remove(old(self)@, id as int, choose|rank: spec_fn(int) -> nat| #[trigger] children_ranked(old(self)@.0, rank)),
            tree_ranked(final(self)@.0),
            final(self)@.0.len() == old(self)@.0.len(),
            !live(final(self)@.0, id as int),
    {
        let ghost rank = choose|rank: spec_fn(int) -> nat| #[trigger] children_ranked(self@.0, rank);
        self.remove_rec(id, Ghost(rank));
    }
}

proof fn lemma_slots_clear(v: Seq<Option<Links>>, i: int)
    requires
        0 <= i < v.len(),
    ensures
        slots_model(v.update(i, None)) == slots_model(v).update(i, None),
{
    assert(slots_model(v.update(i, None)) =~= slots_model(v).update(i, None));
}

} // verus!