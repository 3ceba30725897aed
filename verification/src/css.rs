//! Style sheet model: rules of declarations.
use vstd::prelude::*;
use crate::text::{trim, trim_bounds, string_of, chars_of};

verus! {

/// One CSS declaration (`prop: value`).
#[derive(Debug, Clone)]
pub struct Declaration {
    pub prop: String,
    pub value: String,
}

/// A rule: its selector text and its declarations.
#[derive(Debug, Clone)]
pub struct Rule {
    pub selector_text: String,
    pub declarations: Vec<Declaration>,
}

/// A style sheet: rules in source order.
#[derive(Debug, Clone)]
pub struct StyleSheet {
    pub rules: Vec<Rule>,
}

impl View for Declaration {
    type V = (Seq<char>, Seq<char>);

    open spec fn view(&self) -> (Seq<char>, Seq<char>) {
        (self.prop@, self.value@)
    }
}

pub open spec fn decls_view(v: Seq<Declaration>) -> Seq<(Seq<char>, Seq<char>)> {
    v.map_values(|d: Declaration| d@)
}

/// A copy of a declaration list.
pub fn clone_decls(v: &Vec<Declaration>) -> (out: Vec<Declaration>)
    ensures
        decls_view(out@) == decls_view(v@),
{
    let mut out: Vec<Declaration> = Vec::new();
    let mut i: usize = 0;
    while i < v.len()
        invariant
            i <= v@.len(),
            decls_view(out@) == decls_view(v@.take(i as int)),
        decreases v@.len() - i,
    {
        let d = Declaration { prop: v[i].prop.clone(), value: v[i].value.clone() };
        let ghost old = out@;
        out.push(d);
        proof {
            assert(decls_view(out@) =~= decls_view(old).push(v@[i as int]@));
            assert(decls_view(v@.take(i + 1)) =~= decls_view(v@.take(i as int)).push(v@[i as int]@));
        }
        i = i + 1;
    }
    proof {
        assert(v@.take(v@.len() as int) =~= v@);
    }
    out
}


impl View for Rule {
    type V = (Seq<char>, Seq<(Seq<char>, Seq<char>)>);

    open spec fn view(&self) -> (Seq<char>, Seq<(Seq<char>, Seq<char>)>) {
        (self.selector_text@, decls_view(self.declarations@))
    }
}

pub open spec fn rules_view(v: Seq<Rule>) -> Seq<(Seq<char>, Seq<(Seq<char>, Seq<char>)>)> {
    v.map_values(|r: Rule| r@)
}

/// Length of the leading run without a comma.
pub open spec fn comma_free(s: Seq<char>) -> nat
    decreases s.len(),
{
    if s.len() == 0 || s[0] == ',' {
        0
    } else {
        1 + comma_free(s.drop_first())
    }
}

proof fn lemma_comma_free_exact(s: Seq<char>, n: int)
    requires
        0 <= n <= s.len(),
        forall|k: int| 0 <= k < n ==> #[trigger] s[k] != ',',
        n < s.len() ==> s[n] == ',',
    ensures
        comma_free(s) == n,
    decreases n,
{
    if n > 0 {
        let d = s.drop_first();
        assert forall|k: int| 0 <= k < n - 1 implies #[trigger] d[k] != ',' by {
            assert(d[k] == s[k + 1]);
        }
        if n - 1 < d.len() {
            assert(d[n - 1] == s[n]);
        }
        lemma_comma_free_exact(d, n - 1);
    }
}

/// The pieces of `s` between commas (what `str::split(',')` gives).
pub open spec fn comma_pieces(s: Seq<char>) -> Seq<Seq<char>>
    decreases s.len(),
{
    let m = comma_free(s);
    if m >= s.len() {
        seq![s]
    } else {
        seq![s.take(m as int)] + comma_pieces(s.skip(m + 1 as int))
    }
}

/// The trimmed pieces that are not empty, in order.
pub open spec fn nonempty_trimmed(p: Seq<Seq<char>>) -> Seq<Seq<char>>
    decreases p.len(),
{
    if p.len() == 0 {
        seq![]
    } else if trim(p.last()).len() > 0 {
        nonempty_trimmed(p.drop_last()).push(trim(p.last()))
    } else {
        nonempty_trimmed(p.drop_last())
    }
}

/// The selectors of a grouped selector text `a, b, c`.
pub open spec fn selector_groups(s: Seq<char>) -> Seq<Seq<char>> {
    nonempty_trimmed(comma_pieces(s))
}

pub open spec fn char_vecs_view(v: Seq<Vec<char>>) -> Seq<Seq<char>> {
    v.map_values(|c: Vec<char>| c@)
}

/// Splits a grouped selector text on commas, trims each selector and drops the empty ones.
pub fn split_selector_groups(text: &str) -> (out: Vec<String>)
    ensures
        out@.map_values(|s: String| s@) == selector_groups(text@),
{
    let cs = chars_of(text);
    let mut pieces: Vec<Vec<char>> = Vec::new();
    let mut i: usize = 0;
    proof {
        assert(cs@.skip(0) =~= cs@);
        assert(char_vecs_view(pieces@) + comma_pieces(cs@) =~= comma_pieces(cs@));
    }
    loop
        invariant_except_break
            i <= cs@.len(),
            char_vecs_view(pieces@) + comma_pieces(cs@.skip(i as int)) == comma_pieces(cs@),
        ensures
            char_vecs_view(pieces@) == comma_pieces(cs@),
        decreases cs@.len() - i,
    {
        let start = i;
        let mut cur: Vec<char> = Vec::new();
        while i < cs.len() && cs[i] != ','
            invariant
                start <= i <= cs@.len(),
                forall|k: int| start <= k < i ==> #[trigger] cs@[k] != ',',
                cur@ == cs@.subrange(start as int, i as int),
            decreases cs@.len() - i,
        {
            cur.push(cs[i]);
            proof {
                assert(cs@.subrange(start as int, i + 1) =~= cs@.subrange(start as int, i as int).push(cs@[i as int]));
            }
            i = i + 1;
        }
        let ghost u = cs@.skip(start as int);
        proof {
            lemma_comma_free_exact(u, (i - start) as int);
            assert(u.take((i - start) as int) =~= cur@);
        }
        let ghost old = pieces@;
        if i == cs.len() {
            proof {
                assert(u =~= cur@);
            }
            pieces.push(cur);
            proof {
                assert(char_vecs_view(pieces@) =~= char_vecs_view(old) + comma_pieces(u));
            }
            break;
        }
        proof {
            assert(u.skip(i - start + 1) =~= cs@.skip(i + 1));
        }
        pieces.push(cur);
        proof {
            assert(char_vecs_view(pieces@) + comma_pieces(cs@.skip(i + 1)) =~= char_vecs_view(old) + comma_pieces(u));
        }
        i = i + 1;
    }
    let ghost pv = char_vecs_view(pieces@);
    assert(pv == comma_pieces(cs@));
    let mut out: Vec<String> = Vec::new();
    let mut k: usize = 0;
    while k < pieces.len()
        invariant
            k <= pieces@.len(),
            pv == char_vecs_view(pieces@),
            out@.map_values(|s: String| s@) == nonempty_trimmed(pv.take(k as int)),
        decreases pieces@.len() - k,
    {
        let (a, b) = trim_bounds(pieces[k].as_slice());
        let ghost pre = pv.take(k as int);
        proof {
            assert(pv.take(k + 1).drop_last() =~= pre);
            assert(pv.take(k + 1).last() == pieces@[k as int]@);
        }
        if a < b {
            let mut t: Vec<char> = Vec::new();
            let mut j: usize = a;
            while j < b
                invariant
                    k < pieces@.len(),
                    a <= j <= b <= pieces@[k as int]@.len(),
                    t@ == pieces@[k as int]@.subrange(a as int, j as int),
                decreases b - j,
            {
                t.push(pieces[k][j]);
                proof {
                    assert(pieces@[k as int]@.subrange(a as int, j + 1) =~= pieces@[k as int]@.subrange(a as int, j as int).push(pieces@[k as int]@[j as int]));
                }
                j = j + 1;
            }
            let st = string_of(t.as_slice());
            let ghost old = out@;
            out.push(st);
            proof {
                assert(out@.map_values(|s: String| s@) =~= old.map_values(|s: String| s@).push(st@));
            }
        }
        k = k + 1;
    }
    proof {
        assert(pv.take(pieces@.len() as int) =~= pv);
    }
    out
}

/// Rules expanded so that each selector of a group gets its own rule.
pub open spec fn spec_expand(rules: Seq<(Seq<char>, Seq<(Seq<char>, Seq<char>)>)>) -> Seq<(Seq<char>, Seq<(Seq<char>, Seq<char>)>)>
    decreases rules.len(),
{
    if rules.len() == 0 {
        seq![]
    } else {
        let r = rules.last();
        spec_expand(rules.drop_last()) + selector_groups(r.0).map_values(|g: Seq<char>| (g, r.1))
    }
}

/// Expands grouped selectors `.a, .b { .. }` into one rule per selector sharing the
/// declarations, keeping source order.
pub fn expand_selector_groups(rules: &[Rule]) -> (sheet: StyleSheet)
    ensures
        rules_view(sheet.rules@) == spec_expand(rules_view(rules@)),
{
    let mut out: Vec<Rule> = Vec::new();
    let mut i: usize = 0;
    while i < rules.len()
        invariant
            i <= rules@.len(),
            rules_view(out@) == spec_expand(rules_view(rules@.take(i as int))),
        decreases rules@.len() - i,
    {
        let groups = split_selector_groups(rules[i].selector_text.as_str());
        let ghost base = out@;
        let ghost gv = groups@.map_values(|s: String| s@);
        let ghost dv = decls_view(rules@[i as int].declarations@);
        let mut g: usize = 0;
        while g < groups.len()
            invariant
                i < rules@.len(),
                g <= groups@.len(),
                gv == groups@.map_values(|s: String| s@),
                dv == decls_view(rules@[i as int].declarations@),
                rules_view(out@) == rules_view(base) + gv.take(g as int).map_values(|x: Seq<char>| (x, dv)),
            decreases groups@.len() - g,
        {
            let decls = clone_decls(&rules[i].declarations);
            let r = Rule { selector_text: groups[g].clone(), declarations: decls };
            let ghost old = out@;
            out.push(r);
            proof {
                assert(rules_view(out@) =~= rules_view(old).push(r@));
                assert(gv.take(g + 1).map_values(|x: Seq<char>| (x, dv)) =~= gv.take(g as int).map_values(|x: Seq<char>| (x, dv)).push((gv[g as int], dv)));
            }
            g = g + 1;
        }
        proof {
            assert(gv.take(groups@.len() as int) =~= gv);
            let rv = rules_view(rules@.take(i + 1));
            assert(rv.drop_last() =~= rules_view(rules@.take(i as int)));
            assert(rv.last() == rules@[i as int]@);
        }
        i = i + 1;
    }
    proof {
        assert(rules@.take(rules@.len() as int) =~= rules@);
    }
    StyleSheet { rules: out }
}

} // verus!
