//! Atlas metadata, the texture registry built from it, and image path normalisation.
use vstd::prelude::*;
use crate::texture::{TexMeta, TextureRegistry, UvCoord, UvPoint};
use crate::text::{chars_of, string_of};

verus! {

/// One atlas image: file name and pixel size.
#[derive(Debug, Clone, PartialEq, Eq)]
pub struct AtlasInfo {
    pub filename: String,
    pub width: u32,
    pub height: u32,
}

/// One sprite packed into the atlas: its source path and pixel rectangle (y grows downwards).
#[derive(Debug, Clone, PartialEq, Eq)]
pub struct AtlasSprite {
    pub src: String,
    pub x: u32,
    pub y: u32,
    pub w: u32,
    pub h: u32,
}

/// Atlas section of a package: the atlases (at most one is used) and all sprites, which belong
/// to the first atlas.
#[derive(Debug, Clone, PartialEq, Eq)]
pub struct AtlasSection {
    pub atlases: Vec<AtlasInfo>,
    pub sprites: Vec<AtlasSprite>,
}

impl Default for AtlasSection {
    fn default() -> (s: Self)
        ensures
            s.atlases@.len() == 0,
            s.sprites@.len() == 0,
    {
        AtlasSection { atlases: Vec::new(), sprites: Vec::new() }
    }
}

/// A sprite's rectangle does not leave the `u32` range.
pub open spec fn sprite_fits(s: AtlasSprite) -> bool {
    s.x + s.w <= u32::MAX && s.y + s.h <= u32::MAX
}

/// Texture metadata of a sprite in an atlas of size `aw` x `ah`: texture id 1, UV rectangle with
/// v measured upwards (`v = (ah - y) / ah`), and the sprite's pixel size.
pub open spec fn sprite_meta(s: AtlasSprite, aw: u32, ah: u32) -> TexMeta {
    TexMeta {
        tex_id: 1,
        uv_min: UvPoint {
            u: UvCoord { num: s.x as i64, den: aw },
            v: UvCoord { num: (ah - (s.y + s.h)) as i64, den: ah },
        },
        uv_max: UvPoint {
            u: UvCoord { num: (s.x + s.w) as i64, den: aw },
            v: UvCoord { num: (ah - s.y) as i64, den: ah },
        },
        width: s.w,
        height: s.h,
    }
}

/// The registry contents after inserting the sprites in order (a later sprite of the same source wins).
pub open spec fn sprites_map(s: Seq<AtlasSprite>, aw: u32, ah: u32) -> Map<Seq<char>, TexMeta>
    decreases s.len(),
{
    if s.len() == 0 {
        Map::empty()
    } else {
        sprites_map(s.drop_last(), aw, ah).insert(s.last().src@, sprite_meta(s.last(), aw, ah))
    }
}

/// Builds the texture registry of an atlas section: with no atlas it is empty; otherwise every
/// sprite maps to texture 1 with its UV rectangle in the first atlas.
pub fn build_registry(section: &AtlasSection) -> (reg: TextureRegistry)
    requires
        forall|i: int| 0 <= i < section.sprites@.len() ==> sprite_fits(#[trigger] section.sprites@[i]),
    ensures
        reg.next() == 1,
        section.atlases@.len() == 0 ==> reg.map() == Map::<Seq<char>, TexMeta>::empty(),
        section.atlases@.len() > 0 ==> reg.map() == sprites_map(
            section.sprites@,
            section.atlases@[0].width,
            section.atlases@[0].height,
        ),
{
    let mut reg = TextureRegistry::new();
    if section.atlases.len() == 0 {
        return reg;
    }
    let aw = section.atlases[0].width;
    let ah = section.atlases[0].height;
    let mut i: usize = 0;
    while i < section.sprites.len()
        invariant
            i <= section.sprites@.len(),
            aw == section.atlases@[0].width,
            ah == section.atlases@[0].height,
            reg.next() == 1,
            reg.map() == sprites_map(section.sprites@.take(i as int), aw, ah),
            forall|k: int| 0 <= k < section.sprites@.len() ==> sprite_fits(#[trigger] section.sprites@[k]),
        decreases section.sprites@.len() - i,
    {
        let spr = &section.sprites[i];
        assert(sprite_fits(section.sprites@[i as int]));
        let meta = TexMeta {
            tex_id: 1,
            uv_min: UvPoint {
                u: UvCoord { num: spr.x as i64, den: aw },
                v: UvCoord { num: ah as i64 - (spr.y + spr.h) as i64, den: ah },
            },
            uv_max: UvPoint {
                u: UvCoord { num: (spr.x + spr.w) as i64, den: aw },
                v: UvCoord { num: ah as i64 - spr.y as i64, den: ah },
            },
            width: spr.w,
            height: spr.h,
        };
        reg.insert(spr.src.as_str(), meta);
        proof {
            let s = section.sprites@.take(i + 1);
            assert(s.drop_last() =~= section.sprites@.take(i as int));
            assert(s.last() == section.sprites@[i as int]);
        }
        i = i + 1;
    }
    proof {
        assert(section.sprites@.take(section.sprites@.len() as int) =~= section.sprites@);
    }
    reg
}

// ---------------------------------------------------------------------------
// Image path normalisation.
// ---------------------------------------------------------------------------

/// Backslashes become forward slashes.
pub open spec fn unify_slashes(s: Seq<char>) -> Seq<char> {
    s.map_values(|c: char| if c == '\\' { '/' } else { c })
}

/// `pre` occurs in `u` at position `p`.
pub open spec fn occurs_at(u: Seq<char>, pre: Seq<char>, p: int) -> bool {
    0 <= p && p + pre.len() <= u.len() && u.subrange(p, p + pre.len()) == pre
}

/// Position `p` starts a path segment: it is the start, or follows `/` or `.`.
pub open spec fn seg_start(u: Seq<char>, p: int) -> bool {
    p == 0 || u[p - 1] == '/' || u[p - 1] == '.'
}

pub open spec fn seg_match(u: Seq<char>, pre: Seq<char>, p: int) -> bool {
    occurs_at(u, pre, p) && seg_start(u, p)
}

/// `p` is the first position where `pre` occurs as a whole path segment.
pub open spec fn first_seg_match(u: Seq<char>, pre: Seq<char>, p: int) -> bool {
    seg_match(u, pre, p) && forall|q: int| 0 <= q < p ==> !seg_match(u, pre, q)
}

/// The directory prefix `res_dir/`.
pub open spec fn res_prefix(res_dir: Seq<char>) -> Seq<char> {
    res_dir.push('/')
}

/// What follows the first whole-segment occurrence of `pre` in `u`, if there is one and it is
/// not empty.
pub open spec fn after_first_seg_match(u: Seq<char>, pre: Seq<char>) -> Option<Seq<char>> {
    if exists|p: int| first_seg_match(u, pre, p) {
        let p = choose|p: int| first_seg_match(u, pre, p);
        let rest = u.subrange(p + pre.len(), u.len() as int);
        if rest.len() > 0 {
            Some(rest)
        } else {
            None
        }
    } else {
        None
    }
}

/// The normalised path: slashes unified, everything up to and including the first `res_dir/`
/// that starts a path segment removed; `None` where there is no such segment or nothing follows it.
pub open spec fn spec_normalize_path(src: Seq<char>, res_dir: Seq<char>) -> Option<Seq<char>> {
    after_first_seg_match(unify_slashes(src), res_prefix(res_dir))
}

/// The inputs on which the search steps into the middle of a multi-byte character: the
/// directory name starts with a non-ASCII character and an occurrence that does not start a
/// segment comes before the first one that does.
pub open spec fn normalize_path_splits_char(src: Seq<char>, res_dir: Seq<char>) -> bool {
    let u = unify_slashes(src);
    let pre = res_prefix(res_dir);
    &&& res_dir.len() > 0
    &&& (res_dir[0] as u32) >= 0x80
    &&& exists|p: int|
        #![trigger occurs_at(u, pre, p)]
        occurs_at(u, pre, p) && !seg_start(u, p) && forall|q: int| 0 <= q < p ==> !seg_match(u, pre, q)
}

/// The characters of `u` from `start` on.
fn chars_from(u: &Vec<char>, start: usize) -> (rest: Vec<char>)
    requires
        start <= u@.len(),
    ensures
        rest@ == u@.subrange(start as int, u@.len() as int),
{
    let mut rest: Vec<char> = Vec::new();
    let mut k: usize = start;
    while k < u.len()
        invariant
            start <= k <= u@.len(),
            rest@ == u@.subrange(start as int, k as int),
        decreases u@.len() - k,
    {
        rest.push(u[k]);
        proof {
            assert(u@.subrange(start as int, k + 1) =~= u@.subrange(start as int, k as int).push(u@[k as int]));
        }
        k = k + 1;
    }
    rest
}

fn occurs_at_exec(u: &Vec<char>, pre: &Vec<char>, p: usize) -> (b: bool)
    requires
        p + pre@.len() <= u@.len(),
    ensures
        b == occurs_at(u@, pre@, p as int),
{
    let n = u.len();
    let mut k: usize = 0;
    while k < pre.len()
        invariant
            n == u@.len(),
            k <= pre@.len(),
            p + pre@.len() <= u@.len(),
            forall|j: int| 0 <= j < k ==> u@[p + j] == pre@[j],
        decreases pre@.len() - k,
    {
        assert(p + k < u@.len());
        if u[p + k] != pre[k] {
            proof {
                assert(u@.subrange(p as int, p + pre@.len())[k as int] != pre@[k as int]);
            }
            return false;
        }
        k = k + 1;
    }
    proof {
        assert(u@.subrange(p as int, p + pre@.len()) =~= pre@);
    }
    true
}

/// Normalises an image source path: backslashes become `/`, and the path is cut after the first
/// `res_dir/` that is a whole path segment (at the start, or after `/` or `.`).
/// A path outside `res_dir`, or with nothing after it, gives `None`.
pub fn normalize_path(src: &str, res_dir: &str) -> (r: Option<String>)
    requires
        !normalize_path_splits_char(src@, res_dir@),
    ensures
        r is Some <==> spec_normalize_path(src@, res_dir@) is Some,
        r matches Some(s) ==> spec_normalize_path(src@, res_dir@) == Some(s@),
{
    let ghost su = unify_slashes(src@);
    let ghost spre = res_prefix(res_dir@);
    let sc = chars_of(src);
    let mut u: Vec<char> = Vec::new();
    let mut i: usize = 0;
    while i < sc.len()
        invariant
            i <= sc@.len(),
            sc@ == src@,
            u@ == unify_slashes(sc@.take(i as int)),
        decreases sc@.len() - i,
    {
        let c = sc[i];
        if c == '\\' {
            u.push('/');
        } else {
            u.push(c);
        }
        proof {
            assert(unify_slashes(sc@.take(i + 1)) =~= unify_slashes(sc@.take(i as int)).push(u@.last()));
        }
        i = i + 1;
    }
    proof {
        assert(sc@.take(sc@.len() as int) =~= sc@);
    }
    let mut pre = chars_of(res_dir);
    pre.push('/');
    assert(u@ == su);
    assert(pre@ == spre);
    if pre.len() > u.len() {
        proof {
            assert forall|q: int| !first_seg_match(su, spre, q) by {}
        }
        return None;
    }
    let count = u.len() - pre.len() + 1;
    let mut p: usize = 0;
    while p < count
        invariant
            p <= count,
            u@.len() <= usize::MAX,
            pre@.len() >= 1,
            count + pre@.len() == u@.len() + 1,
            su == unify_slashes(src@),
            spre == res_prefix(res_dir@),
            u@ == su,
            pre@ == spre,
            forall|q: int| 0 <= q < p ==> !seg_match(su, spre, q),
        decreases count - p,
    {
        if occurs_at_exec(&u, &pre, p) && (p == 0 || u[p - 1] == '/' || u[p - 1] == '.') {
            proof {
                assert(first_seg_match(su, spre, p as int));
                let c = choose|q: int| first_seg_match(su, spre, q);
                assert(c == p as int) by {
                    if c < p {
                        assert(!seg_match(su, spre, c));
                    } else if c > p {
                        assert(!seg_match(su, spre, p as int));
                    }
                }
            }
            let start = p + pre.len();
            if start < u.len() {
                let rest = chars_from(&u, start);
                proof {
                    assert(rest@.len() > 0);
                    assert(exists|q: int| first_seg_match(su, spre, q));
                    assert(after_first_seg_match(su, spre) == Some(rest@));
                }
                return Some(string_of(rest.as_slice()));
            } else {
                return None;
            }
        }
        p = p + 1;
    }
    proof {
        assert forall|q: int| !first_seg_match(su, spre, q) by {
            if first_seg_match(su, spre, q) {
                assert(q < p);
            }
        }
    }
    None
}

} // verus!
