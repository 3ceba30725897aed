//! Declaration strings of the form `width:100px; background-color:#f00`: split on `;`, each
//! piece trimmed, empty pieces and pieces without a `:` dropped, the rest cut at the first `:`
//! into a trimmed property and a trimmed value. Also the small text rules of stylesheet
//! extraction: which `rel` values name a stylesheet, and how extracted stylesheet texts join.
use vstd::prelude::*;
use crate::text::{chars_of, string_of, is_ws, is_whitespace, trim, trim_bounds, chars_between};
use crate::css::nonempty_trimmed;

verus! {

/// Length of the leading run of `s` without `sep`.
pub open spec fn sep_free(s: Seq<char>, sep: char) -> nat
    decreases s.len(),
{
    if s.len() == 0 || s[0] == sep {
        0
    } else {
        1 + sep_free(s.drop_first(), sep)
    }
}

proof fn lemma_sep_free_exact(s: Seq<char>, sep: char, n: int)
    requires
        0 <= n <= s.len(),
        forall|k: int| 0 <= k < n ==> #[trigger] s[k] != sep,
        n < s.len() ==> s[n] == sep,
    ensures
        sep_free(s, sep) == n,
    decreases n,
{
    if n > 0 {
        let d = s.drop_first();
        assert forall|k: int| 0 <= k < n - 1 implies #[trigger] d[k] != sep by {
            assert(d[k] == s[k + 1]);
        }
        if n - 1 < d.len() {
            assert(d[n - 1] == s[n]);
        }
        lemma_sep_free_exact(d, sep, n - 1);
    }
}

/// The pieces of `s` between occurrences of `sep` (what `str::split(sep)` gives).
pub open spec fn split_pieces(s: Seq<char>, sep: char) -> Seq<Seq<char>>
    decreases s.len(),
{
    let m = sep_free(s, sep);
    if m >= s.len() {
        seq![s]
    } else {
        seq![s.take(m as int)] + split_pieces(s.skip(m + 1 as int), sep)
    }
}

pub open spec fn pieces_view(v: Seq<Vec<char>>) -> Seq<Seq<char>> {
    v.map_values(|c: Vec<char>| c@)
}

/// Splits `cs` at every `sep` (see `split_pieces`).
pub fn split_on(cs: &[char], sep: char) -> (out: Vec<Vec<char>>)
    ensures
        pieces_view(out@) == split_pieces(cs@, sep),
{
    let mut pieces: Vec<Vec<char>> = Vec::new();
    let mut i: usize = 0;
    proof {
        assert(cs@.skip(0) =~= cs@);
        assert(pieces_view(pieces@) + split_pieces(cs@, sep) =~= split_pieces(cs@, sep));
    }
    loop
        invariant_except_break
            i <= cs@.len(),
            pieces_view(pieces@) + split_pieces(cs@.skip(i as int), sep) == split_pieces(cs@, sep),
        ensures
            pieces_view(pieces@) == split_pieces(cs@, sep),
        decreases cs@.len() - i,
    {
        let start = i;
        let mut cur: Vec<char> = Vec::new();
        while i < cs.len() && cs[i] != sep
            invariant
                start <= i <= cs@.len(),
                forall|k: int| start <= k < i ==> #[trigger] cs@[k] != sep,
                cur@ == cs@.subrange(start as int, i as int),
            decreases cs@.len() - i,
        {
            cur.push(cs[i]);
            proof {
                assert(cs@.subrange(start as int, i + 1) =~= cs@.subrange(start as int, i as int).push(cs@[i as int]));
            }
            i = i + 1;
        }
        let ghost u = cs@.skip(start as int);
        proof {
            assert forall|k: int| 0 <= k < i - start implies #[trigger] u[k] != sep by {
                assert(u[k] == cs@[start + k]);
            }
            if i < cs@.len() {
                assert(u[i - start] == cs@[i as int]);
            }
            lemma_sep_free_exact(u, sep, (i - start) as int);
            assert(u.take((i - start) as int) =~= cur@);
        }
        let ghost old = pieces@;
        if i == cs.len() {
            proof {
                assert(u =~= cur@);
            }
            pieces.push(cur);
            proof {
                assert(pieces_view(pieces@) =~= pieces_view(old) + split_pieces(u, sep));
            }
            break;
        }
        proof {
            assert(u.skip(i - start + 1) =~= cs@.skip(i + 1));
        }
        pieces.push(cur);
        proof {
            assert(pieces_view(pieces@) + split_pieces(cs@.skip(i + 1), sep) =~= pieces_view(old) + split_pieces(u, sep));
        }
        i = i + 1;
    }
    pieces
}

/// The declaration a piece holds: none when it is blank or has no `:`, else the trimmed text
/// before the first `:` and the trimmed text after it.
pub open spec fn decl_of(piece: Seq<char>) -> Option<(Seq<char>, Seq<char>)> {
    let t = trim(piece);
    let m = sep_free(t, ':');
    if t.len() == 0 || m >= t.len() {
        None
    } else {
        Some((trim(t.take(m as int)), trim(t.skip(m + 1 as int))))
    }
}

/// The declarations of the pieces, in order.
pub open spec fn decls_of(p: Seq<Seq<char>>) -> Seq<(Seq<char>, Seq<char>)>
    decreases p.len(),
{
    if p.len() == 0 {
        seq![]
    } else {
        match decl_of(p.last()) {
            Some(d) => decls_of(p.drop_last()).push(d),
            None => decls_of(p.drop_last()),
        }
    }
}

/// The declarations of a declaration string.
pub open spec fn spec_css_decls(s: Seq<char>) -> Seq<(Seq<char>, Seq<char>)> {
    decls_of(split_pieces(s, ';'))
}

pub open spec fn pairs_view(v: Seq<(String, String)>) -> Seq<(Seq<char>, Seq<char>)> {
    v.map_values(|p: (String, String)| (p.0@, p.1@))
}

fn trimmed_string(cs: &[char], a: usize, b: usize) -> (out: String)
    requires
        a <= b <= cs@.len(),
    ensures
        out@ == trim(cs@.subrange(a as int, b as int)),
{
    let part = chars_between(cs, a, b);
    let (x, y) = trim_bounds(part.as_slice());
    let t = chars_between(part.as_slice(), x, y);
    string_of(t.as_slice())
}

/// The declaration of one piece (see `decl_of`).
fn piece_decl(piece: &[char]) -> (r: Option<(String, String)>)
    ensures
        match decl_of(piece@) {
            Some(d) => r matches Some(p) && p.0@ == d.0 && p.1@ == d.1,
            None => r is None,
        },
{
    let (a, b) = trim_bounds(piece);
    let t = chars_between(piece, a, b);
    let mut m: usize = 0;
    while m < t.len() && t[m] != ':'
        invariant
            m <= t@.len(),
            forall|k: int| 0 <= k < m ==> #[trigger] t@[k] != ':',
        decreases t@.len() - m,
    {
        m = m + 1;
    }
    proof {
        lemma_sep_free_exact(t@, ':', m as int);
    }
    if t.len() == 0 || m >= t.len() {
        return None;
    }
    let prop = trimmed_string(t.as_slice(), 0, m);
    let val = trimmed_string(t.as_slice(), m + 1, t.len());
    proof {
        assert(t@.subrange(0, m as int) =~= t@.take(m as int));
        assert(t@.subrange(m + 1, t@.len() as int) =~= t@.skip(m + 1));
    }
    Some((prop, val))
}

/// The declarations of a declaration string (see `spec_css_decls`), as (property, value).
pub fn css_decls(css: &str) -> (out: Vec<(String, String)>)
    ensures
        pairs_view(out@) == spec_css_decls(css@),
{
    let cs = chars_of(css);
    let pieces = split_on(cs.as_slice(), ';');
    let ghost pv = pieces_view(pieces@);
    let mut out: Vec<(String, String)> = Vec::new();
    let mut k: usize = 0;
    while k < pieces.len()
        invariant
            k <= pieces@.len(),
            pv == pieces_view(pieces@),
            pv == split_pieces(cs@, ';'),
            pairs_view(out@) == decls_of(pv.take(k as int)),
        decreases pieces@.len() - k,
    {
        let ghost pre = pv.take(k as int);
        proof {
            assert(pv.take(k + 1).drop_last() =~= pre);
            assert(pv.take(k + 1).last() == pieces@[k as int]@);
        }
        let d = piece_decl(pieces[k].as_slice());
        if let Some(p) = d {
            let ghost old = out@;
            out.push(p);
            proof {
                assert(pairs_view(out@) =~= pairs_view(old).push((p.0@, p.1@)));
            }
        }
        k = k + 1;
    }
    proof {
        assert(pv.take(pieces@.len() as int) =~= pv);
    }
    out
}

/// The code of `c` with ASCII capitals made small.
pub open spec fn lower_code(c: char) -> u32 {
    let u = c as u32;
    if 0x41 <= u <= 0x5a {
        (u + 32) as u32
    } else {
        u
    }
}

pub open spec fn stylesheet_word() -> Seq<char> {
    seq!['s', 't', 'y', 'l', 'e', 's', 'h', 'e', 'e', 't']
}

/// A whitespace-separated word of `s` starts at `i` and is `stylesheet` up to ASCII case.
pub open spec fn stylesheet_at(s: Seq<char>, i: int) -> bool {
    &&& 0 <= i
    &&& i + 10 <= s.len()
    &&& (i == 0 || is_ws(s[i - 1]))
    &&& (i + 10 == s.len() || is_ws(s[i + 10]))
    &&& forall|k: int| 0 <= k < 10 ==> lower_code(#[trigger] s[i + k]) == stylesheet_word()[k] as u32
}

fn lower_of(c: char) -> (r: u32)
    ensures
        r == lower_code(c),
{
    let u = c as u32;
    if 0x41 <= u && u <= 0x5a {
        u + 32
    } else {
        u
    }
}

/// Whether a `rel` attribute names a stylesheet: one of its whitespace-separated words is
/// `stylesheet` in any ASCII case.
pub fn rel_is_stylesheet(rel: &str) -> (b: bool)
    ensures
        b == exists|i: int| stylesheet_at(rel@, i),
{
    let cs = chars_of(rel);
    let word: [char; 10] = ['s', 't', 'y', 'l', 'e', 's', 'h', 'e', 'e', 't'];
    proof {
        assert(word@ =~= stylesheet_word());
    }
    let n = cs.len();
    let mut i: usize = 0;
    while i < n
        invariant
            i <= n,
            n == cs@.len(),
            cs@ == rel@,
            word@ == stylesheet_word(),
            forall|j: int| 0 <= j < i ==> !stylesheet_at(rel@, j),
        decreases n - i,
    {
        if n - i >= 10 && (i == 0 || is_whitespace(cs[i - 1])) && (n - i == 10 || is_whitespace(cs[i + 10])) {
            let mut k: usize = 0;
            while k < 10 && lower_of(cs[i + k]) == (word[k] as u32)
                invariant
                    k <= 10,
                    i + 10 <= n,
                    n == cs@.len(),
                    word@ == stylesheet_word(),
                    forall|q: int| 0 <= q < k ==> lower_code(#[trigger] cs@[i + q]) == stylesheet_word()[q] as u32,
                decreases 10 - k,
            {
                k = k + 1;
            }
            if k == 10 {
                proof {
                    assert(stylesheet_at(rel@, i as int));
                }
                return true;
            }
        }
        i = i + 1;
    }
    false
}

/// Texts joined with a line break between each two.
pub open spec fn join_lines(p: Seq<Seq<char>>) -> Seq<char>
    decreases p.len(),
{
    if p.len() == 0 {
        seq![]
    } else if p.len() == 1 {
        p[0]
    } else {
        join_lines(p.drop_last()) + seq!['\n'] + p.last()
    }
}

pub open spec fn strings_view(v: Seq<String>) -> Seq<Seq<char>> {
    v.map_values(|s: String| s@)
}

/// The stylesheet of a component from the texts of its `<style>` elements and linked files in
/// order: each text trimmed, blank ones dropped, the rest joined with line breaks.
pub fn join_css_parts(texts: &Vec<String>) -> (out: String)
    ensures
        out@ == join_lines(nonempty_trimmed(strings_view(texts@))),
{
    let ghost tv = strings_view(texts@);
    let mut acc: Vec<char> = Vec::new();
    let ghost mut kept: Seq<Seq<char>> = seq![];
    let mut any: bool = false;
    let mut k: usize = 0;
    while k < texts.len()
        invariant
            k <= texts@.len(),
            tv == strings_view(texts@),
            kept == nonempty_trimmed(tv.take(k as int)),
            any == (kept.len() > 0),
            acc@ == join_lines(kept),
        decreases texts@.len() - k,
    {
        proof {
            assert(tv.take(k + 1).drop_last() =~= tv.take(k as int));
            assert(tv.take(k + 1).last() == texts@[k as int]@);
        }
        let cs = chars_of(texts[k].as_str());
        let (a, b) = trim_bounds(cs.as_slice());
        if a < b {
            let ghost acc0 = acc@;
            if any {
                acc.push('\n');
            }
            let mut j: usize = a;
            while j < b
                invariant
                    a <= j <= b <= cs@.len(),
                    acc@ == (if kept.len() > 0 { acc0 + seq!['\n'] } else { acc0 }) + cs@.subrange(a as int, j as int),
                decreases b - j,
            {
                acc.push(cs[j]);
                proof {
                    assert(cs@.subrange(a as int, j + 1) =~= cs@.subrange(a as int, j as int).push(cs@[j as int]));
                }
                j = j + 1;
            }
            proof {
                let t = trim(texts@[k as int]@);
                let nk = kept.push(t);
                assert(nk.drop_last() =~= kept);
                if kept.len() > 0 {
                    assert(acc@ =~= join_lines(kept) + seq!['\n'] + t);
                } else {
                    assert(acc@ =~= t);
                }
                kept = nk;
            }
            any = true;
        }
        k = k + 1;
    }
    proof {
        assert(tv.take(texts@.len() as int) =~= tv);
    }
    string_of(acc.as_slice())
}

} // verus!
