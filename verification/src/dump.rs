//! JSON string escaping for the scene dump.
use vstd::prelude::*;
use crate::text::{string_of, chars_of};

verus! {

/// Upper-case hexadecimal digit of a value below 16.
pub open spec fn hex_digit(v: u32) -> char {
    if v < 10 {
        ((v + 48) as u8) as char
    } else {
        ((v + 55) as u8) as char
    }
}

/// What one character becomes: `"` and `\` are backslash-escaped, newline, carriage return
/// and tab become `\n`, `\r`, `\t`, other control characters below U+0020 become `\uXXXX`
/// with four upper-case hex digits, everything else stays.
pub open spec fn escape_char(c: char) -> Seq<char> {
    if c == '"' {
        seq!['\\', '"']
    } else if c == '\\' {
        seq!['\\', '\\']
    } else if c == '\n' {
        seq!['\\', 'n']
    } else if c == '\r' {
        seq!['\\', 'r']
    } else if c == '\t' {
        seq!['\\', 't']
    } else if (c as u32) < 0x20 {
        seq!['\\', 'u', '0', '0', hex_digit((c as u32) / 16), hex_digit((c as u32) % 16)]
    } else {
        seq![c]
    }
}

pub open spec fn spec_json_escape(s: Seq<char>) -> Seq<char>
    decreases s.len(),
{
    if s.len() == 0 {
        Seq::empty()
    } else {
        spec_json_escape(s.drop_last()) + escape_char(s.last())
    }
}

fn hex_digit_exec(v: u32) -> (c: char)
    requires
        v < 16,
    ensures
        c == hex_digit(v),
{
    if v < 10 {
        ((v + 48) as u8) as char
    } else {
        ((v + 55) as u8) as char
    }
}

/// Escapes a string for a JSON string literal.
pub fn json_escape(s: &str) -> (out: String)
    ensures
        out@ == spec_json_escape(s@),
{
    let cs = chars_of(s);
    let mut out: Vec<char> = Vec::new();
    let mut i: usize = 0;
    while i < cs.len()
        invariant
            i <= cs@.len(),
            cs@ == s@,
            out@ == spec_json_escape(cs@.take(i as int)),
        decreases cs@.len() - i,
    {
        let c = cs[i];
        let ghost before = out@;
        if c == '"' {
            out.push('\\');
            out.push('"');
        } else if c == '\\' {
            out.push('\\');
            out.push('\\');
        } else if c == '\n' {
            out.push('\\');
            out.push('n');
        } else if c == '\r' {
            out.push('\\');
            out.push('r');
        } else if c == '\t' {
            out.push('\\');
            out.push('t');
        } else if (c as u32) < 0x20 {
            let v = c as u32;
            out.push('\\');
            out.push('u');
            out.push('0');
            out.push('0');
            out.push(hex_digit_exec(v / 16));
            out.push(hex_digit_exec(v % 16));
        } else {
            out.push(c);
        }
        proof {
            assert(out@ =~= before + escape_char(c));
            assert(cs@.take(i + 1).drop_last() =~= cs@.take(i as int));
            assert(cs@.take(i + 1).last() == c);
        }
        i = i + 1;
    }
    proof {
        assert(cs@.take(cs@.len() as int) =~= cs@);
    }
    string_of(out.as_slice())
}

/// The value of a hexadecimal digit.
pub open spec fn hex_value(c: char) -> Option<int> {
    if '0' <= c <= '9' {
        Some(c as int - 48)
    } else if 'A' <= c <= 'F' {
        Some(c as int - 55)
    } else if 'a' <= c <= 'f' {
        Some(c as int - 87)
    } else {
        None
    }
}

/// The character of a one-character escape `\e` of a JSON string.
pub open spec fn simple_escape(e: char) -> Option<char> {
    if e == '"' {
        Some('"')
    } else if e == '\\' {
        Some('\\')
    } else if e == '/' {
        Some('/')
    } else if e == 'n' {
        Some('\n')
    } else if e == 'r' {
        Some('\r')
    } else if e == 't' {
        Some('\t')
    } else if e == 'b' {
        Some('\u{8}')
    } else if e == 'f' {
        Some('\u{c}')
    } else {
        None
    }
}

/// The character of a `\uXXXX` escape whose four digits are `t[2..6]`, when it is not half of a
/// surrogate pair.
pub open spec fn unicode_escape(t: Seq<char>) -> Option<char> {
    if t.len() >= 6 && hex_value(t[2]) is Some && hex_value(t[3]) is Some && hex_value(t[4]) is Some
        && hex_value(t[5]) is Some {
        let v = 4096 * hex_value(t[2]).unwrap() + 256 * hex_value(t[3]).unwrap() + 16 * hex_value(t[4]).unwrap()
            + hex_value(t[5]).unwrap();
        if v < 0xD800 || 0xDFFF < v {
            Some(v as char)
        } else {
            None
        }
    } else {
        None
    }
}

/// What the inside of a JSON string literal decodes to: `\` starts an escape, and a bare `"`
/// or a control character below U+0020 makes the text no string (surrogate pairs are not
/// read).
pub open spec fn json_unescape(t: Seq<char>) -> Option<Seq<char>>
    decreases t.len(),
{
    if t.len() == 0 {
        Some(Seq::empty())
    } else if t[0] == '\\' {
        if t.len() < 2 {
            None
        } else if simple_escape(t[1]) is Some {
            match json_unescape(t.skip(2)) {
                Some(r) => Some(seq![simple_escape(t[1]).unwrap()] + r),
                None => None,
            }
        } else if t[1] == 'u' && unicode_escape(t) is Some {
            match json_unescape(t.skip(6)) {
                Some(r) => Some(seq![unicode_escape(t).unwrap()] + r),
                None => None,
            }
        } else {
            None
        }
    } else if t[0] == '"' || (t[0] as u32) < 0x20 {
        None
    } else {
        match json_unescape(t.skip(1)) {
            Some(r) => Some(seq![t[0]] + r),
            None => None,
        }
    }
}

proof fn lemma_escape_cons(c: char, s: Seq<char>)
    ensures
        spec_json_escape(seq![c] + s) == escape_char(c) + spec_json_escape(s),
    decreases s.len(),
{
    if s.len() == 0 {
        assert(seq![c] + s =~= seq![c]);
        assert(seq![c].drop_last() =~= Seq::<char>::empty());
        assert(seq![c].last() == c);
        assert(spec_json_escape(Seq::<char>::empty()) == Seq::<char>::empty());
        assert(spec_json_escape(seq![c]) == spec_json_escape(Seq::<char>::empty()) + escape_char(c));
        assert(spec_json_escape(s) == Seq::<char>::empty());
        assert(escape_char(c) + Seq::<char>::empty() =~= escape_char(c));
        assert(Seq::<char>::empty() + escape_char(c) =~= escape_char(c));
    } else {
        lemma_escape_cons(c, s.drop_last());
        assert((seq![c] + s).drop_last() =~= seq![c] + s.drop_last());
        assert((seq![c] + s).last() == s.last());
        assert(escape_char(c) + spec_json_escape(s.drop_last()) + escape_char(s.last())
            =~= escape_char(c) + (spec_json_escape(s.drop_last()) + escape_char(s.last())));
    }
}

proof fn lemma_hex_digit(v: u32)
    requires
        v < 16,
    ensures
        hex_value(hex_digit(v)) == Some(v as int),
{
    if v < 10 {
        assert(((v + 48) as u8) as char as int == v + 48);
    } else {
        assert(((v + 55) as u8) as char as int == v + 55);
    }
}

proof fn lemma_unescape_one(c: char, rest: Seq<char>)
    ensures
        json_unescape(escape_char(c) + rest) == match json_unescape(rest) {
            Some(r) => Some(seq![c] + r),
            None => None::<Seq<char>>,
        },
{
    let t = escape_char(c) + rest;
    if c == '"' || c == '\\' || c == '\n' || c == '\r' || c == '\t' {
        assert(t.skip(2) =~= rest);
    } else if (c as u32) < 0x20 {
        let u = c as u32;
        lemma_hex_digit(u / 16);
        lemma_hex_digit(u % 16);
        assert(t[0] == '\\' && t[1] == 'u' && t[2] == '0' && t[3] == '0');
        assert(t[4] == hex_digit(u / 16) && t[5] == hex_digit(u % 16));
        assert(simple_escape(t[1]) is None);
        assert(16 * (u / 16) + u % 16 == u);
        assert(unicode_escape(t) == Some(c));
        assert(t.skip(6) =~= rest);
    } else {
        assert(t.skip(1) =~= rest);
        assert(t[0] == c);
    }
}

proof fn lemma_unescape_escape(s: Seq<char>)
    ensures
        json_unescape(spec_json_escape(s)) == Some(s),
    decreases s.len(),
{
    if s.len() == 0 {
    } else {
        let c = s[0];
        let r = s.skip(1);
        assert(s =~= seq![c] + r);
        lemma_escape_cons(c, r);
        lemma_unescape_escape(r);
        lemma_unescape_one(c, spec_json_escape(r));
    }
}

proof fn lemma_escape_plain(s: Seq<char>)
    ensures
        forall|i: int| 0 <= i < spec_json_escape(s).len() ==> (#[trigger] spec_json_escape(s)[i] as u32) >= 0x20,
        (forall|i: int| 0 <= i < s.len() ==> #[trigger] s[i] != '"' && s[i] != '\\' && (s[i] as u32) >= 0x20)
            ==> spec_json_escape(s) == s,
    decreases s.len(),
{
    if s.len() > 0 {
        let d = s.drop_last();
        lemma_escape_plain(d);
        let c = s.last();
        let e = escape_char(c);
        if (c as u32) < 0x20 && !(c == '\n' || c == '\r' || c == '\t') {
            let u = c as u32;
            assert(hex_digit(u / 16) as u32 >= 0x30);
            assert(hex_digit(u % 16) as u32 >= 0x30);
        }
        assert forall|i: int| 0 <= i < e.len() implies (#[trigger] e[i] as u32) >= 0x20 by {}
        let a = spec_json_escape(d);
        assert forall|i: int| 0 <= i < (a + e).len() implies (#[trigger] (a + e)[i] as u32) >= 0x20 by {
            if i < a.len() {
                assert((a + e)[i] == a[i]);
            } else {
                assert((a + e)[i] == e[i - a.len()]);
            }
        }
        if forall|i: int| 0 <= i < s.len() ==> #[trigger] s[i] != '"' && s[i] != '\\' && (s[i] as u32) >= 0x20 {
            assert forall|i: int| 0 <= i < d.len() implies #[trigger] d[i] != '"' && d[i] != '\\' && (d[i] as u32) >= 0x20 by {
                assert(d[i] == s[i]);
            }
            assert(s[s.len() - 1] == c);
            assert(d.push(c) =~= s);
            assert(a + e =~= d.push(c));
        }
    }
}

/// `json_escape` gives the inside of a JSON string literal that decodes back to its input; it
/// holds no character below U+0020; and a string without `"`, `\` and control characters stays
/// as it is.
pub proof fn law_json_escape_decodes_back(s: Seq<char>)
    ensures
        json_unescape(spec_json_escape(s)) == Some(s),
        forall|i: int| 0 <= i < spec_json_escape(s).len() ==> (#[trigger] spec_json_escape(s)[i] as u32) >= 0x20,
        (forall|i: int| 0 <= i < s.len() ==> #[trigger] s[i] != '"' && s[i] != '\\' && (s[i] as u32) >= 0x20)
            ==> spec_json_escape(s) == s,
{
    lemma_unescape_escape(s);
    lemma_escape_plain(s);
}

} // verus!
