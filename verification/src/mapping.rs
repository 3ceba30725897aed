//! Reading keyword and function values of declarations: `url(...)`, `overflow` keywords and
//! the function list of `transform`.
use vstd::prelude::*;
use crate::resolved::OverflowMode;
use crate::text::{trim, chars_of, string_of, trim_chars, chars_between, chars_eq};

verus! {

// ---------------------------------------------------------------------------
// background-image: url(...)
// ---------------------------------------------------------------------------

/// `v` is `url(` ... `)`.
pub open spec fn is_url_call(v: Seq<char>) -> bool {
    v.len() >= 5 && v[0] == 'u' && v[1] == 'r' && v[2] == 'l' && v[3] == '(' && v.last() == ')'
}

/// `s` is wrapped in a matching pair of double or single quotes.
pub open spec fn is_quoted(s: Seq<char>) -> bool {
    s.len() >= 2 && ((s[0] == '"' && s.last() == '"') || (s[0] == '\'' && s.last() == '\''))
}

pub open spec fn unquote(s: Seq<char>) -> Seq<char> {
    if is_quoted(s) {
        s.subrange(1, s.len() - 1)
    } else {
        s
    }
}

/// The path of a `url(...)` value: the part inside the brackets, trimmed, without one pair of
/// matching quotes, trimmed again; `None` for anything else or an empty path.
pub open spec fn spec_parse_url(value: Seq<char>) -> Option<Seq<char>> {
    let v = trim(value);
    if !is_url_call(v) {
        None
    } else {
        let inner = trim(v.subrange(4, v.len() - 1));
        if inner.len() == 0 {
            None
        } else {
            let path = trim(unquote(inner));
            if path.len() == 0 {
                None
            } else {
                Some(path)
            }
        }
    }
}

/// Extracts the path of `url(x)`, `url("x")`, `url('x')` or `url( x )`; `None` for any other
/// form or an empty path.
pub fn parse_url(value: &str) -> (r: Option<String>)
    ensures
        r is Some <==> spec_parse_url(value@) is Some,
        r matches Some(p) ==> spec_parse_url(value@) == Some(p@),
{
    let cs = chars_of(value);
    let v = trim_chars(cs.as_slice());
    let n = v.len();
    if !(n >= 5 && v[0] == 'u' && v[1] == 'r' && v[2] == 'l' && v[3] == '(' && v[n - 1] == ')') {
        return None;
    }
    let body = chars_between(v.as_slice(), 4, n - 1);
    let inner = trim_chars(body.as_slice());
    let m = inner.len();
    if m == 0 {
        return None;
    }
    let unq = if m >= 2 && ((inner[0] == '"' && inner[m - 1] == '"') || (inner[0] == '\'' && inner[m - 1] == '\'')) {
        chars_between(inner.as_slice(), 1, m - 1)
    } else {
        chars_between(inner.as_slice(), 0, m)
    };
    proof {
        assert(inner@.subrange(0, m as int) =~= inner@);
    }
    let path = trim_chars(unq.as_slice());
    if path.len() == 0 {
        None
    } else {
        Some(string_of(path.as_slice()))
    }
}

// ---------------------------------------------------------------------------
// overflow keywords
// ---------------------------------------------------------------------------

/// The overflow mode a keyword names (surrounding whitespace ignored); `None` for any other word.
pub open spec fn spec_parse_overflow(value: Seq<char>) -> Option<OverflowMode> {
    let v = trim(value);
    if v == "visible"@ {
        Some(OverflowMode::Visible)
    } else if v == "hidden"@ {
        Some(OverflowMode::Hidden)
    } else if v == "scroll"@ {
        Some(OverflowMode::Scroll)
    } else if v == "auto"@ {
        Some(OverflowMode::Auto)
    } else {
        None
    }
}

/// Reads an overflow keyword: `visible`, `hidden`, `scroll` or `auto`; anything else is `None`.
pub fn parse_overflow(value: &str) -> (r: Option<OverflowMode>)
    ensures
        r == spec_parse_overflow(value@),
{
    let cs = chars_of(value);
    let v = trim_chars(cs.as_slice());
    let visible = chars_of("visible");
    let hidden = chars_of("hidden");
    let scroll = chars_of("scroll");
    let auto = chars_of("auto");
    if chars_eq(v.as_slice(), visible.as_slice()) {
        Some(OverflowMode::Visible)
    } else if chars_eq(v.as_slice(), hidden.as_slice()) {
        Some(OverflowMode::Hidden)
    } else if chars_eq(v.as_slice(), scroll.as_slice()) {
        Some(OverflowMode::Scroll)
    } else if chars_eq(v.as_slice(), auto.as_slice()) {
        Some(OverflowMode::Auto)
    } else {
        None
    }
}

// ---------------------------------------------------------------------------
// transform function list
// ---------------------------------------------------------------------------

/// ASCII whitespace (space, tab, line feed, form feed, carriage return).
pub open spec fn is_ascii_ws(c: char) -> bool {
    c == ' ' || c == '\t' || c == '\n' || c == '\x0C' || c == '\r'
}

/// A character of a function name: an ASCII letter or `-`.
pub open spec fn is_name_char(c: char) -> bool {
    ('a' <= c && c <= 'z') || ('A' <= c && c <= 'Z') || c == '-'
}

/// End of the run of ASCII whitespace starting at `i`.
pub open spec fn ws_end(s: Seq<char>, i: int) -> int
    decreases s.len() - i,
{
    if 0 <= i < s.len() && is_ascii_ws(s[i]) {
        ws_end(s, i + 1)
    } else {
        i
    }
}

/// End of the run of name characters starting at `i`.
pub open spec fn name_end(s: Seq<char>, i: int) -> int
    decreases s.len() - i,
{
    if 0 <= i < s.len() && is_name_char(s[i]) {
        name_end(s, i + 1)
    } else {
        i
    }
}

/// Position of the first `)` at or after `i`, or the end.
pub open spec fn close_at(s: Seq<char>, i: int) -> int
    decreases s.len() - i,
{
    if 0 <= i < s.len() && s[i] != ')' {
        close_at(s, i + 1)
    } else {
        i
    }
}

pub proof fn lemma_ws_end(s: Seq<char>, i: int)
    requires
        0 <= i <= s.len(),
    ensures
        i <= ws_end(s, i) <= s.len(),
    decreases s.len() - i,
{
    if i < s.len() && is_ascii_ws(s[i]) {
        lemma_ws_end(s, i + 1);
    }
}

pub proof fn lemma_name_end(s: Seq<char>, i: int)
    requires
        0 <= i <= s.len(),
    ensures
        i <= name_end(s, i) <= s.len(),
    decreases s.len() - i,
{
    if i < s.len() && is_name_char(s[i]) {
        lemma_name_end(s, i + 1);
    }
}

pub proof fn lemma_close_at(s: Seq<char>, i: int)
    requires
        0 <= i <= s.len(),
    ensures
        i <= close_at(s, i) <= s.len(),
    decreases s.len() - i,
{
    if i < s.len() && s[i] != ')' {
        lemma_close_at(s, i + 1);
    }
}

/// The `name(args)` functions of a transform value from position `i` on: whitespace is
/// skipped, a name is a run of ASCII letters and `-`, the arguments run to the next `)` (or
/// the end). Reading stops where no `(` follows a name; a function with an empty name is
/// skipped.
pub open spec fn funcs_from(s: Seq<char>, i: int) -> Seq<(Seq<char>, Seq<char>)>
    decreases s.len() - i,
{
    if i < 0 || i >= s.len() {
        Seq::empty()
    } else {
        let a = ws_end(s, i);
        if a >= s.len() {
            Seq::empty()
        } else {
            let n = name_end(s, a);
            let b = ws_end(s, n);
            if b >= s.len() || s[b] != '(' {
                Seq::empty()
            } else {
                let k = close_at(s, b + 1);
                let next = if k < s.len() { k + 1 } else { k };
                proof {
                    lemma_ws_end(s, i);
                    lemma_name_end(s, a);
                    lemma_ws_end(s, n);
                    lemma_close_at(s, b + 1);
                }
                let head = if n > a {
                    seq![(s.subrange(a, n), s.subrange(b + 1, k))]
                } else {
                    Seq::empty()
                };
                head + funcs_from(s, next)
            }
        }
    }
}

fn is_ascii_ws_exec(c: char) -> (b: bool)
    ensures
        b == is_ascii_ws(c),
{
    c == ' ' || c == '\t' || c == '\n' || c == '\x0C' || c == '\r'
}

fn is_name_char_exec(c: char) -> (b: bool)
    ensures
        b == is_name_char(c),
{
    ('a' <= c && c <= 'z') || ('A' <= c && c <= 'Z') || c == '-'
}

fn skip_ws(s: &Vec<char>, i: usize) -> (j: usize)
    requires
        i <= s@.len(),
    ensures
        j == ws_end(s@, i as int),
{
    let mut j = i;
    while j < s.len() && is_ascii_ws_exec(s[j])
        invariant
            i <= j <= s@.len(),
            ws_end(s@, i as int) == ws_end(s@, j as int),
        decreases s@.len() - j,
    {
        j = j + 1;
    }
    j
}

fn skip_name(s: &Vec<char>, i: usize) -> (j: usize)
    requires
        i <= s@.len(),
    ensures
        j == name_end(s@, i as int),
{
    let mut j = i;
    while j < s.len() && is_name_char_exec(s[j])
        invariant
            i <= j <= s@.len(),
            name_end(s@, i as int) == name_end(s@, j as int),
        decreases s@.len() - j,
    {
        j = j + 1;
    }
    j
}

fn find_close(s: &Vec<char>, i: usize) -> (j: usize)
    requires
        i <= s@.len(),
    ensures
        j == close_at(s@, i as int),
{
    let mut j = i;
    while j < s.len() && s[j] != ')'
        invariant
            i <= j <= s@.len(),
            close_at(s@, i as int) == close_at(s@, j as int),
        decreases s@.len() - j,
    {
        j = j + 1;
    }
    j
}

pub open spec fn pairs_view(v: Seq<(String, String)>) -> Seq<(Seq<char>, Seq<char>)> {
    v.map_values(|p: (String, String)| (p.0@, p.1@))
}

/// Splits `translate(10px,20px) rotate(45deg)` into `[("translate", "10px,20px"), ("rotate", "45deg")]`.
pub fn iter_transform_funcs(s: &str) -> (out: Vec<(String, String)>)
    ensures
        pairs_view(out@) == funcs_from(s@, 0),
{
    let cs = chars_of(s);
    let ghost sv = cs@;
    let mut out: Vec<(String, String)> = Vec::new();
    let mut i: usize = 0;
    while i < cs.len()
        invariant
            i <= cs@.len(),
            sv == cs@,
            sv == s@,
            funcs_from(sv, 0) == pairs_view(out@) + funcs_from(sv, i as int),
        ensures
            funcs_from(sv, 0) == pairs_view(out@),
        decreases cs@.len() - i,
    {
        let a = skip_ws(&cs, i);
        proof {
            lemma_ws_end(sv, i as int);
        }
        if a >= cs.len() {
            assert(pairs_view(out@) + funcs_from(sv, i as int) =~= pairs_view(out@));
            break;
        }
        let n = skip_name(&cs, a);
        proof {
            lemma_name_end(sv, a as int);
        }
        let b = skip_ws(&cs, n);
        proof {
            lemma_ws_end(sv, n as int);
        }
        if b >= cs.len() || cs[b] != '(' {
            assert(pairs_view(out@) + funcs_from(sv, i as int) =~= pairs_view(out@));
            break;
        }
        let k = find_close(&cs, b + 1);
        proof {
            lemma_close_at(sv, b + 1);
        }
        let next = if k < cs.len() { k + 1 } else { k };
        let ghost before = pairs_view(out@);
        if n > a {
            let name = string_of(chars_between(cs.as_slice(), a, n).as_slice());
            let args = string_of(chars_between(cs.as_slice(), b + 1, k).as_slice());
            out.push((name, args));
            proof {
                assert(pairs_view(out@) =~= before.push((sv.subrange(a as int, n as int), sv.subrange(b + 1, k as int))));
                assert(before.push((sv.subrange(a as int, n as int), sv.subrange(b + 1, k as int))) + funcs_from(sv, next as int)
                    =~= before + (seq![(sv.subrange(a as int, n as int), sv.subrange(b + 1, k as int))] + funcs_from(sv, next as int)));
            }
        } else {
            proof {
                assert(Seq::<(Seq<char>, Seq<char>)>::empty() + funcs_from(sv, next as int) =~= funcs_from(sv, next as int));
            }
        }
        i = next;
        if i >= cs.len() {
            assert(pairs_view(out@) + funcs_from(sv, i as int) =~= pairs_view(out@));
        }
    }
    out
}

} // verus!
