//! Texture registry: image source path to texture id, size and UV rectangle.
use vstd::prelude::*;

verus! {

/// One texture coordinate as the fraction `num / den` of the texture size.
#[derive(Debug, Clone, Copy, PartialEq, Eq)]
pub struct UvCoord {
    pub num: i64,
    pub den: u32,
}

/// A point in texture space.
#[derive(Debug, Clone, Copy, PartialEq, Eq)]
pub struct UvPoint {
    pub u: UvCoord,
    pub v: UvCoord,
}

/// What the registry holds of one image: texture id, UV rectangle and pixel size.
#[derive(Debug, Clone, Copy, PartialEq, Eq)]
pub struct TexMeta {
    pub tex_id: u32,
    pub uv_min: UvPoint,
    pub uv_max: UvPoint,
    pub width: u32,
    pub height: u32,
}

/// The whole texture, `(0, 0)` to `(1, 1)`.
pub open spec fn full_uv_min() -> UvPoint {
    UvPoint { u: UvCoord { num: 0, den: 1 }, v: UvCoord { num: 0, den: 1 } }
}

pub open spec fn full_uv_max() -> UvPoint {
    UvPoint { u: UvCoord { num: 1, den: 1 }, v: UvCoord { num: 1, den: 1 } }
}

/// Image source path to texture metadata. Texture id 0 is never handed out by `register`.
#[derive(Debug)]
pub struct TextureRegistry {
    entries: Vec<(String, TexMeta)>,
    next_id: u32,
}

pub open spec fn entry_keys_unique(e: Seq<(String, TexMeta)>) -> bool {
    forall|i: int, j: int| 0 <= i < j < e.len() ==> (#[trigger] e[i]).0@ != (#[trigger] e[j]).0@
}

pub open spec fn entries_map(e: Seq<(String, TexMeta)>) -> Map<Seq<char>, TexMeta>
    decreases e.len(),
{
    if e.len() == 0 {
        Map::empty()
    } else {
        entries_map(e.drop_last()).insert(e.last().0@, e.last().1)
    }
}

proof fn lemma_entries_map_dom(e: Seq<(String, TexMeta)>, k: Seq<char>)
    ensures
        entries_map(e).contains_key(k) <==> exists|i: int| 0 <= i < e.len() && (#[trigger] e[i]).0@ == k,
    decreases e.len(),
{
    if e.len() > 0 {
        lemma_entries_map_dom(e.drop_last(), k);
        if entries_map(e.drop_last()).contains_key(k) {
            let i = choose|i: int| 0 <= i < e.drop_last().len() && (#[trigger] e.drop_last()[i]).0@ == k;
            assert(e[i] == e.drop_last()[i]);
        }
        if exists|i: int| 0 <= i < e.len() && (#[trigger] e[i]).0@ == k {
            let i = choose|i: int| 0 <= i < e.len() && (#[trigger] e[i]).0@ == k;
            if i < e.len() - 1 {
                assert(e.drop_last()[i] == e[i]);
            }
        }
    }
}

proof fn lemma_entries_map_at(e: Seq<(String, TexMeta)>, i: int)
    requires
        entry_keys_unique(e),
        0 <= i < e.len(),
    ensures
        entries_map(e).contains_key(e[i].0@),
        entries_map(e)[e[i].0@] == e[i].1,
    decreases e.len(),
{
    if i < e.len() - 1 {
        assert(e.drop_last()[i] == e[i]);
        assert(entry_keys_unique(e.drop_last())) by {
            assert forall|a: int, b: int| 0 <= a < b < e.drop_last().len() implies (#[trigger] e.drop_last()[a]).0@ != (#[trigger] e.drop_last()[b]).0@ by {
                assert(e.drop_last()[a] == e[a] && e.drop_last()[b] == e[b]);
            }
        }
        lemma_entries_map_at(e.drop_last(), i);
        assert(e[i].0@ != e.last().0@);
    }
}

impl TextureRegistry {
    #[verifier::type_invariant]
    spec fn wf(self) -> bool {
        &&& entry_keys_unique(self.entries@)
        &&& self.next_id >= 1
    }

    /// Source path to metadata.
    pub closed spec fn map(&self) -> Map<Seq<char>, TexMeta> {
        entries_map(self.entries@)
    }

    /// The id the next new source gets.
    pub closed spec fn next(&self) -> nat {
        self.next_id as nat
    }

    /// An empty registry whose first id is 1.
    pub fn new() -> (r: Self)
        ensures
            r.map() == Map::<Seq<char>, TexMeta>::empty(),
            r.next() == 1,
    {
        TextureRegistry { entries: Vec::new(), next_id: 1 }
    }

    fn find(&self, src: &str) -> (r: Option<usize>)
        ensures
            r matches Some(i) ==> i < self.entries@.len() && self.entries@[i as int].0@ == src@,
            r is None ==> forall|i: int| 0 <= i < self.entries@.len() ==> (#[trigger] self.entries@[i]).0@ != src@,
    {
        let key = String::from_str(src);
        let mut i: usize = 0;
        while i < self.entries.len()
            invariant
                i <= self.entries@.len(),
                key@ == src@,
                forall|k: int| 0 <= k < i ==> (#[trigger] self.entries@[k]).0@ != src@,
            decreases self.entries@.len() - i,
        {
            if self.entries[i].0 == key {
                return Some(i);
            }
            i = i + 1;
        }
        None
    }

    /// Registers a source: a new source gets the next id with the given size and the whole
    /// texture as UV rectangle; a known source keeps its id and first size.
    pub fn register(&mut self, src: &str, w: u32, h: u32) -> (id: u32)
        requires
            old(self).next() < u32::MAX,
        ensures
            old(self).map().contains_key(src@) ==> {
                &&& id == old(self).map()[src@].tex_id
                &&& final(self).map() == old(self).map()
                &&& final(self).next() == old(self).next()
            },
            !old(self).map().contains_key(src@) ==> {
                &&& id == old(self).next()
                &&& final(self).map() == old(self).map().insert(
                    src@,
                    TexMeta { tex_id: id, uv_min: full_uv_min(), uv_max: full_uv_max(), width: w, height: h },
                )
                &&& final(self).next() == old(self).next() + 1
                &&& id >= 1
            },
    {
        proof {
            use_type_invariant(&*self);
            lemma_entries_map_dom(self.entries@, src@);
        }
        match self.find(src) {
            Some(i) => {
                proof {
                    lemma_entries_map_at(self.entries@, i as int);
                }
                self.entries[i].1.tex_id
            },
            None => {
                let id = self.next_id;
                let meta = TexMeta {
                    tex_id: id,
                    uv_min: UvPoint { u: UvCoord { num: 0, den: 1 }, v: UvCoord { num: 0, den: 1 } },
                    uv_max: UvPoint { u: UvCoord { num: 1, den: 1 }, v: UvCoord { num: 1, den: 1 } },
                    width: w,
                    height: h,
                };
                let mut entries: Vec<(String, TexMeta)> = Vec::new();
                std::mem::swap(&mut entries, &mut self.entries);
                let ghost old_e = entries@;
                entries.push((String::from_str(src), meta));
                proof {
                    assert(entries@.drop_last() =~= old_e);
                    assert forall|a: int, b: int| 0 <= a < b < entries@.len() implies (#[trigger] entries@[a]).0@ != (#[trigger] entries@[b]).0@ by {
                        if b < entries@.len() - 1 {
                            assert(entries@[a] == old_e[a] && entries@[b] == old_e[b]);
                        } else {
                            assert(entries@[a] == old_e[a]);
                        }
                    }
                }
                self.entries = entries;
                self.next_id = id + 1;
                id
            },
        }
    }

    /// Sets the metadata of a source, replacing what was there.
    pub fn insert(&mut self, src: &str, meta: TexMeta)
        ensures
            final(self).map() == old(self).map().insert(src@, meta),
            final(self).next() == old(self).next(),
    {
        proof {
            use_type_invariant(&*self);
        }
        match self.find(src) {
            Some(i) => {
                let mut entries: Vec<(String, TexMeta)> = Vec::new();
                std::mem::swap(&mut entries, &mut self.entries);
                let ghost old_e = entries@;
                let key = String::from_str(src);
                entries.set(i, (key, meta));
                proof {
                    assert forall|a: int, b: int| 0 <= a < b < entries@.len() implies (#[trigger] entries@[a]).0@ != (#[trigger] entries@[b]).0@ by {
                        assert(old_e[a].0@ != old_e[b].0@);
                    }
                    lemma_entries_replace(old_e, i as int, key, meta);
                }
                self.entries = entries;
            },
            None => {
                let mut entries: Vec<(String, TexMeta)> = Vec::new();
                std::mem::swap(&mut entries, &mut self.entries);
                let ghost old_e = entries@;
                entries.push((String::from_str(src), meta));
                proof {
                    assert(entries@.drop_last() =~= old_e);
                    assert forall|a: int, b: int| 0 <= a < b < entries@.len() implies (#[trigger] entries@[a]).0@ != (#[trigger] entries@[b]).0@ by {
                        if b < entries@.len() - 1 {
                            assert(entries@[a] == old_e[a] && entries@[b] == old_e[b]);
                        } else {
                            assert(entries@[a] == old_e[a]);
                        }
                    }
                }
                self.entries = entries;
            },
        }
    }

    /// The metadata of a source, if registered.
    pub fn get(&self, src: &str) -> (r: Option<TexMeta>)
        ensures
            r == (if self.map().contains_key(src@) { Some(self.map()[src@]) } else { None::<TexMeta> }),
    {
        proof {
            use_type_invariant(self);
            lemma_entries_map_dom(self.entries@, src@);
        }
        match self.find(src) {
            Some(i) => {
                proof {
                    lemma_entries_map_at(self.entries@, i as int);
                }
                Some(self.entries[i].1)
            },
            None => None,
        }
    }

    /// Whether nothing is registered.
    pub fn is_empty(&self) -> (b: bool)
        ensures
            b == (self.map() == Map::<Seq<char>, TexMeta>::empty()),
    {
        proof {
            use_type_invariant(self);
        }
        if self.entries.len() == 0 {
            proof {
                assert(self.map() =~= Map::<Seq<char>, TexMeta>::empty());
            }
            true
        } else {
            proof {
                let k = self.entries@.last().0@;
                lemma_entries_map_dom(self.entries@, k);
                assert(self.map().contains_key(k));
            }
            false
        }
    }

    /// Empties the registry; ids start again at 1.
    pub fn clear(&mut self)
        ensures
            final(self).map() == Map::<Seq<char>, TexMeta>::empty(),
            final(self).next() == 1,
    {
        *self = TextureRegistry::new();
    }
}

proof fn lemma_entries_replace(e: Seq<(String, TexMeta)>, i: int, key: String, meta: TexMeta)
    requires
        entry_keys_unique(e),
        0 <= i < e.len(),
        e[i].0@ == key@,
    ensures
        entries_map(e.update(i, (key, meta))) == entries_map(e).insert(key@, meta),
    decreases e.len(),
{
    let u = e.update(i, (key, meta));
    if i == e.len() - 1 {
        assert(u.drop_last() =~= e.drop_last());
        assert(entries_map(u) =~= entries_map(e).insert(key@, meta));
    } else {
        assert(entry_keys_unique(e.drop_last())) by {
            assert forall|a: int, b: int| 0 <= a < b < e.drop_last().len() implies (#[trigger] e.drop_last()[a]).0@ != (#[trigger] e.drop_last()[b]).0@ by {
                assert(e.drop_last()[a] == e[a] && e.drop_last()[b] == e[b]);
            }
        }
        assert(e.drop_last()[i] == e[i]);
        lemma_entries_replace(e.drop_last(), i, key, meta);
        assert(u.drop_last() =~= e.drop_last().update(i, (key, meta)));
        assert(u.last() == e.last());
        assert(e.last().0@ != key@);
        assert(entries_map(u) =~= entries_map(e).insert(key@, meta));
    }
}

impl Default for TextureRegistry {
    fn default() -> (r: Self)
        ensures
            r.map() == Map::<Seq<char>, TexMeta>::empty(),
            r.next() == 1,
    {
        TextureRegistry::new()
    }
}

/// The sources of `m` hold the ids `1` to `next - 1`, each id once: what a registry holds that
/// only `register` has filled since it was made or cleared.
pub open spec fn ids_consecutive(m: Map<Seq<char>, TexMeta>, next: nat) -> bool {
    &&& m.dom().finite()
    &&& next >= 1
    &&& m.len() == next - 1
    &&& forall|k: Seq<char>| #[trigger] m.contains_key(k) ==> 1 <= m[k].tex_id < next
    &&& forall|k1: Seq<char>, k2: Seq<char>| #[trigger] m.contains_key(k1) && #[trigger] m.contains_key(k2) && k1 != k2
        ==> m[k1].tex_id != m[k2].tex_id
}

/// Texture ids are handed out one after another from 1: an empty registry with next id 1 (what
/// `new` and `clear` leave) holds consecutive ids, and registering a new source keeps them
/// consecutive, the source taking the next id, which differs from every id handed out before.
pub proof fn law_register_ids_consecutive(m: Map<Seq<char>, TexMeta>, next: nat, src: Seq<char>, w: u32, h: u32)
    requires
        ids_consecutive(m, next),
        !m.contains_key(src),
        next < u32::MAX,
    ensures
        ids_consecutive(Map::<Seq<char>, TexMeta>::empty(), 1),
        ids_consecutive(
            m.insert(src, TexMeta { tex_id: next as u32, uv_min: full_uv_min(), uv_max: full_uv_max(), width: w, height: h }),
            next + 1,
        ),
        forall|k: Seq<char>| #[trigger] m.contains_key(k) ==> m[k].tex_id != next,
{
    let n = m.insert(src, TexMeta { tex_id: next as u32, uv_min: full_uv_min(), uv_max: full_uv_max(), width: w, height: h });
    assert(Map::<Seq<char>, TexMeta>::empty().dom() =~= Set::<Seq<char>>::empty());
    assert(n.dom() =~= m.dom().insert(src));
    assert forall|k1: Seq<char>, k2: Seq<char>| #[trigger] n.contains_key(k1) && #[trigger] n.contains_key(k2) && k1 != k2
        implies n[k1].tex_id != n[k2].tex_id by {
        if k1 != src && k2 != src {
            assert(m.contains_key(k1) && m.contains_key(k2));
        } else if k1 == src {
            assert(m.contains_key(k2));
        } else {
            assert(m.contains_key(k1));
        }
    }
}

} // verus!
