//! What a declaration does to a style: which field it writes, and every keyword, colour and
//! integer value it sets. Numeric lengths are read where the style is applied.
use vstd::prelude::*;
use crate::resolved::{OverflowMode, BackgroundSize, TextAlign};
use crate::mapping::{parse_overflow, spec_parse_overflow};
use crate::text::{trim, chars_of, string_of, trim_chars, chars_eq};

verus! {

/// Flex direction keyword.
#[derive(Debug, Clone, Copy, PartialEq, Eq)]
pub enum FlexDir {
    Row,
    RowReverse,
    Column,
    ColumnReverse,
}

/// `justify-content` keyword.
#[derive(Debug, Clone, Copy, PartialEq, Eq)]
pub enum Justify {
    FlexStart,
    Center,
    FlexEnd,
    SpaceBetween,
    SpaceAround,
    SpaceEvenly,
}

/// `align-items` / `align-self` keyword.
#[derive(Debug, Clone, Copy, PartialEq, Eq)]
pub enum Align {
    FlexStart,
    Center,
    FlexEnd,
    Stretch,
    Baseline,
}

/// A layout dimension written from a length value.
#[derive(Debug, Clone, Copy, PartialEq, Eq)]
pub enum DimTarget {
    Width,
    Height,
    MinWidth,
    MinHeight,
    MaxWidth,
    MaxHeight,
    FlexBasis,
}

/// A four-sided box property written from one to four lengths.
#[derive(Debug, Clone, Copy, PartialEq, Eq)]
pub enum BoxTarget {
    Padding,
    Margin,
    Border,
    Gap,
}

/// A field written from a single number.
#[derive(Debug, Clone, Copy, PartialEq, Eq)]
pub enum ScalarTarget {
    FlexGrow,
    FlexShrink,
    Opacity,
    FontSize,
    LineHeight,
    LetterSpacing,
    AspectRatio,
}

/// What one declaration does to a style.
#[derive(Debug, Clone, Copy, PartialEq, Eq)]
pub enum DeclEffect {
    /// A property the style does not know: nothing changes and the declaration is not recognised.
    Unknown,
    Dimension(DimTarget),
    Box(BoxTarget),
    BorderRadius,
    FlexDirection(FlexDir),
    /// `flex-wrap`: wraps or not.
    FlexWrap(bool),
    JustifyContent(Justify),
    AlignItems(Align),
    AlignSelf(Align),
    Scalar(ScalarTarget),
    /// `display`: `none` or flex.
    DisplayNone(bool),
    /// `background-color`: the colour, or none for a value that is not a colour.
    BackgroundColor(Option<(u8, u8, u8)>),
    /// `background-image`: the path is what the `url(...)` value reads as.
    BackgroundImage,
    /// `background-size`: the mode, or none for a value outside `cover`/`contain`/`100%`.
    BackgroundSize(Option<BackgroundSize>),
    BorderColor(Option<(u8, u8, u8)>),
    /// `overflow`, `overflow-x`, `overflow-y`: the axes written and the mode, if the keyword is known.
    Overflow { x: bool, y: bool, mode: Option<OverflowMode> },
    /// `color`: written only when the value is a colour.
    Color(Option<(u8, u8, u8)>),
    /// `font-family`: the trimmed value.
    FontFamily,
    FontWeight(u16),
    TextAlign(TextAlign),
    WhiteSpaceNowrap(bool),
    Order(i32),
    /// `pointer-events`: whether the node can be hit.
    Touchable(bool),
    /// `transform`: the function list of the value.
    Transform,
}

// ---------------------------------------------------------------------------
// Integers and colours.
// ---------------------------------------------------------------------------

pub open spec fn is_digit(c: char) -> bool {
    '0' <= c && c <= '9'
}

pub open spec fn all_digits(s: Seq<char>) -> bool {
    forall|i: int| 0 <= i < s.len() ==> is_digit(#[trigger] s[i])
}

/// The decimal value of a digit string.
pub open spec fn dec_val(s: Seq<char>) -> int
    decreases s.len(),
{
    if s.len() == 0 {
        0
    } else {
        dec_val(s.drop_last()) * 10 + (s.last() as int - 48)
    }
}

/// The digits after an optional leading sign character `sign`.
pub open spec fn unsigned_part(s: Seq<char>, signs: Seq<char>) -> Seq<char> {
    if s.len() > 0 && signs.contains(s[0]) {
        s.drop_first()
    } else {
        s
    }
}

/// What `str::parse::<u16>` reads: an optional `+`, then one or more decimal digits, the value
/// at most 65535.
pub open spec fn spec_parse_u16(s: Seq<char>) -> Option<u16> {
    let d = unsigned_part(s, seq!['+']);
    if d.len() > 0 && all_digits(d) && dec_val(d) <= 65535 {
        Some(dec_val(d) as u16)
    } else {
        None
    }
}

/// What `str::parse::<i32>` reads: an optional `+` or `-`, then one or more decimal digits, the
/// value within `i32`.
pub open spec fn spec_parse_i32(s: Seq<char>) -> Option<i32> {
    let neg = s.len() > 0 && s[0] == '-';
    let d = unsigned_part(s, seq!['+', '-']);
    if d.len() > 0 && all_digits(d) && (if neg { dec_val(d) <= 2147483648 } else { dec_val(d) <= 2147483647 }) {
        Some((if neg { -dec_val(d) } else { dec_val(d) }) as i32)
    } else {
        None
    }
}

proof fn lemma_dec_val_nonneg(s: Seq<char>)
    requires
        all_digits(s),
    ensures
        dec_val(s) >= 0,
    decreases s.len(),
{
    if s.len() > 0 {
        assert(all_digits(s.drop_last())) by {
            assert forall|i: int| 0 <= i < s.drop_last().len() implies is_digit(#[trigger] s.drop_last()[i]) by {
                assert(s.drop_last()[i] == s[i]);
            }
        }
        lemma_dec_val_nonneg(s.drop_last());
        assert(is_digit(s[s.len() - 1]));
    }
}

/// Reads the digits of `d`: `Some(value)` when all are digits and the value is at most `limit`.
fn read_digits(d: &[char], limit: u64) -> (r: Option<u64>)
    requires
        limit <= 0xFFFF_FFFF,
    ensures
        r matches Some(v) ==> all_digits(d@) && v == dec_val(d@) && v <= limit,
        r is None ==> !(all_digits(d@) && dec_val(d@) <= limit),
{
    let mut acc: u64 = 0;
    let mut i: usize = 0;
    while i < d.len()
        invariant
            i <= d@.len(),
            limit <= 0xFFFF_FFFF,
            all_digits(d@.take(i as int)),
            acc == dec_val(d@.take(i as int)),
            acc <= limit,
        decreases d@.len() - i,
    {
        let c = d[i];
        proof {
            assert(d@.take(i + 1).drop_last() =~= d@.take(i as int));
            assert(d@.take(i + 1).last() == c);
        }
        if !('0' <= c && c <= '9') {
            proof {
                assert(!is_digit(d@[i as int]));
            }
            return None;
        }
        let digit = (c as u32 - 48) as u64;
        acc = acc * 10 + digit;
        proof {
            assert(all_digits(d@.take(i + 1))) by {
                assert forall|k: int| 0 <= k < d@.take(i + 1).len() implies is_digit(#[trigger] d@.take(i + 1)[k]) by {
                    if k < i {
                        assert(d@.take(i + 1)[k] == d@.take(i as int)[k]);
                    }
                }
            }
        }
        if acc > limit {
            proof {
                lemma_prefix_value_bound(d@, i + 1);
            }
            return None;
        }
        i = i + 1;
    }
    assert(d@.take(d@.len() as int) =~= d@);
    Some(acc)
}

/// The value of a digit string is at least the value of any of its prefixes.
proof fn lemma_prefix_value_bound(s: Seq<char>, k: int)
    requires
        0 <= k <= s.len(),
        all_digits(s.take(k)),
    ensures
        all_digits(s) ==> dec_val(s) >= dec_val(s.take(k)),
    decreases s.len() - k,
{
    if k < s.len() && all_digits(s) {
        assert(all_digits(s.take(k + 1))) by {
            assert forall|i: int| 0 <= i < s.take(k + 1).len() implies is_digit(#[trigger] s.take(k + 1)[i]) by {
                assert(s.take(k + 1)[i] == s[i]);
            }
        }
        lemma_prefix_value_bound(s, k + 1);
        assert(s.take(k + 1).drop_last() =~= s.take(k));
        assert(is_digit(s[k]));
        lemma_dec_val_nonneg(s.take(k));
    } else if k == s.len() {
        assert(s.take(k) =~= s);
    }
}

/// Reads a `u16` as `str::parse` does.
pub fn parse_u16(s: &[char]) -> (r: Option<u16>)
    ensures
        r == spec_parse_u16(s@),
{
    let start: usize = if s.len() > 0 && s[0] == '+' { 1 } else { 0 };
    let d = crate::text::chars_between(s, start, s.len());
    proof {
        if s@.len() > 0 && s@[0] == '+' {
            assert(seq!['+'].contains(s@[0])) by {
                assert(seq!['+'][0] == '+');
            }
            assert(d@ =~= s@.drop_first());
        } else {
            assert(d@ =~= s@);
        }
    }
    if d.len() == 0 {
        return None;
    }
    match read_digits(d.as_slice(), 65535) {
        Some(v) => Some(v as u16),
        None => None,
    }
}

/// Reads an `i32` as `str::parse` does.
pub fn parse_i32(s: &[char]) -> (r: Option<i32>)
    ensures
        r == spec_parse_i32(s@),
{
    let neg = s.len() > 0 && s[0] == '-';
    let signed = s.len() > 0 && (s[0] == '+' || s[0] == '-');
    let start: usize = if signed { 1 } else { 0 };
    let d = crate::text::chars_between(s, start, s.len());
    proof {
        if signed {
            assert(seq!['+', '-'].contains(s@[0])) by {
                if s@[0] == '+' {
                    assert(seq!['+', '-'][0] == '+');
                } else {
                    assert(seq!['+', '-'][1] == '-');
                }
            }
            assert(d@ =~= s@.drop_first());
        } else {
            assert(!seq!['+', '-'].contains(s@[0]) || s@.len() == 0);
            assert(d@ =~= s@);
        }
    }
    if d.len() == 0 {
        return None;
    }
    let limit: u64 = if neg { 2147483648 } else { 2147483647 };
    match read_digits(d.as_slice(), limit) {
        Some(v) => {
            if neg {
                Some((0i64 - v as i64) as i32)
            } else {
                Some(v as i32)
            }
        },
        None => None,
    }
}

/// The value of a hexadecimal digit byte.
pub open spec fn hex_val(c: u8) -> Option<u8> {
    if 48 <= c <= 57 {
        Some((c - 48) as u8)
    } else if 97 <= c <= 102 {
        Some((c - 87) as u8)
    } else if 65 <= c <= 70 {
        Some((c - 55) as u8)
    } else {
        None
    }
}

/// What `u8::from_str_radix(_, 16)` reads from two bytes: two hex digits, or `+` and one.
pub open spec fn hex_pair(a: u8, b: u8) -> Option<u8> {
    if a == 43 {
        hex_val(b)
    } else {
        match (hex_val(a), hex_val(b)) {
            (Some(x), Some(y)) => Some((16 * x + y) as u8),
            _ => None,
        }
    }
}

/// The bytes of a colour value after trimming and dropping one leading `#`.
pub open spec fn color_bytes(value: Seq<char>) -> Seq<u8> {
    let b = vstd::utf8::encode_utf8(trim(value));
    if b.len() > 0 && b[0] == 35 {
        b.skip(1)
    } else {
        b
    }
}

/// A six-digit hex colour (`#rrggbb` or `rrggbb`) as its three bytes; anything else is none.
pub open spec fn spec_parse_hex_color(value: Seq<char>) -> Option<(u8, u8, u8)> {
    let b = color_bytes(value);
    if b.len() != 6 {
        None
    } else {
        match (hex_pair(b[0], b[1]), hex_pair(b[2], b[3]), hex_pair(b[4], b[5])) {
            (Some(r), Some(g), Some(bl)) => Some((r, g, bl)),
            _ => None,
        }
    }
}

/// The value slices the colour bytes at 2 and 4 inside a multi-byte character.
pub open spec fn color_splits_char(value: Seq<char>) -> bool {
    let b = color_bytes(value);
    b.len() == 6 && (vstd::utf8::is_continuation_byte(b[2]) || vstd::utf8::is_continuation_byte(b[4]))
}

fn hex_val_exec(c: u8) -> (r: Option<u8>)
    ensures
        r == hex_val(c),
{
    if 48 <= c && c <= 57 {
        Some(c - 48)
    } else if 97 <= c && c <= 102 {
        Some(c - 87)
    } else if 65 <= c && c <= 70 {
        Some(c - 55)
    } else {
        None
    }
}

fn hex_pair_exec(a: u8, b: u8) -> (r: Option<u8>)
    ensures
        r == hex_pair(a, b),
{
    if a == 43 {
        hex_val_exec(b)
    } else {
        match (hex_val_exec(a), hex_val_exec(b)) {
            (Some(x), Some(y)) => Some(16 * x + y),
            _ => None,
        }
    }
}

/// Reads a six-digit hex colour, `#rrggbb` or `rrggbb`, into its red, green and blue bytes.
pub fn parse_hex_color(value: &str) -> (r: Option<(u8, u8, u8)>)
    requires
        !color_splits_char(value@),
    ensures
        r == spec_parse_hex_color(value@),
{
    let cs = chars_of(value);
    let t = string_of(trim_chars(cs.as_slice()).as_slice());
    let b = t.as_str().as_bytes();
    let start: usize = if b.len() > 0 && b[0] == 35 { 1 } else { 0 };
    if b.len() - start != 6 {
        proof {
            if start == 1 {
                assert(b@.skip(1).len() == b@.len() - 1);
            }
        }
        return None;
    }
    proof {
        if start == 1 {
            assert(color_bytes(value@) =~= b@.skip(1));
        } else {
            assert(color_bytes(value@) =~= b@);
        }
    }
    let r = hex_pair_exec(b[start], b[start + 1]);
    let g = hex_pair_exec(b[start + 2], b[start + 3]);
    let bl = hex_pair_exec(b[start + 4], b[start + 5]);
    match (r, g, bl) {
        (Some(r), Some(g), Some(bl)) => Some((r, g, bl)),
        _ => None,
    }
}


// ---------------------------------------------------------------------------
// Keywords.
// ---------------------------------------------------------------------------

pub open spec fn spec_flex_dir(v: Seq<char>) -> FlexDir {
    if v == "row"@ {
        FlexDir::Row
    } else if v == "row-reverse"@ {
        FlexDir::RowReverse
    } else if v == "column-reverse"@ {
        FlexDir::ColumnReverse
    } else {
        FlexDir::Column
    }
}

pub open spec fn spec_justify(v: Seq<char>) -> Justify {
    if v == "center"@ {
        Justify::Center
    } else if v == "flex-end"@ {
        Justify::FlexEnd
    } else if v == "space-between"@ {
        Justify::SpaceBetween
    } else if v == "space-around"@ {
        Justify::SpaceAround
    } else if v == "space-evenly"@ {
        Justify::SpaceEvenly
    } else {
        Justify::FlexStart
    }
}

pub open spec fn spec_align(v: Seq<char>) -> Align {
    if v == "center"@ {
        Align::Center
    } else if v == "flex-end"@ {
        Align::FlexEnd
    } else if v == "stretch"@ {
        Align::Stretch
    } else if v == "baseline"@ {
        Align::Baseline
    } else {
        Align::FlexStart
    }
}

pub open spec fn spec_bg_size(v: Seq<char>) -> Option<BackgroundSize> {
    if v == "cover"@ {
        Some(BackgroundSize::Cover)
    } else if v == "contain"@ {
        Some(BackgroundSize::Contain)
    } else if v == "100%"@ {
        Some(BackgroundSize::Stretch)
    } else {
        None
    }
}

pub open spec fn spec_text_align(v: Seq<char>) -> TextAlign {
    if v == "center"@ {
        TextAlign::Center
    } else if v == "right"@ {
        TextAlign::Right
    } else {
        TextAlign::Left
    }
}

fn is_lit(p: &Vec<char>, lit: &str) -> (b: bool)
    ensures
        b == (p@ == lit@),
{
    let l = chars_of(lit);
    chars_eq(p.as_slice(), l.as_slice())
}

fn flex_dir_of(v: &Vec<char>) -> (r: FlexDir)
    ensures
        r == spec_flex_dir(v@),
{
    if is_lit(v, "row") {
        FlexDir::Row
    } else if is_lit(v, "row-reverse") {
        FlexDir::RowReverse
    } else if is_lit(v, "column-reverse") {
        FlexDir::ColumnReverse
    } else {
        FlexDir::Column
    }
}

fn justify_of(v: &Vec<char>) -> (r: Justify)
    ensures
        r == spec_justify(v@),
{
    if is_lit(v, "center") {
        Justify::Center
    } else if is_lit(v, "flex-end") {
        Justify::FlexEnd
    } else if is_lit(v, "space-between") {
        Justify::SpaceBetween
    } else if is_lit(v, "space-around") {
        Justify::SpaceAround
    } else if is_lit(v, "space-evenly") {
        Justify::SpaceEvenly
    } else {
        Justify::FlexStart
    }
}

fn align_of(v: &Vec<char>) -> (r: Align)
    ensures
        r == spec_align(v@),
{
    if is_lit(v, "center") {
        Align::Center
    } else if is_lit(v, "flex-end") {
        Align::FlexEnd
    } else if is_lit(v, "stretch") {
        Align::Stretch
    } else if is_lit(v, "baseline") {
        Align::Baseline
    } else {
        Align::FlexStart
    }
}

fn bg_size_of(v: &Vec<char>) -> (r: Option<BackgroundSize>)
    ensures
        r == spec_bg_size(v@),
{
    if is_lit(v, "cover") {
        Some(BackgroundSize::Cover)
    } else if is_lit(v, "contain") {
        Some(BackgroundSize::Contain)
    } else if is_lit(v, "100%") {
        Some(BackgroundSize::Stretch)
    } else {
        None
    }
}

fn text_align_of(v: &Vec<char>) -> (r: TextAlign)
    ensures
        r == spec_text_align(v@),
{
    if is_lit(v, "center") {
        TextAlign::Center
    } else if is_lit(v, "right") {
        TextAlign::Right
    } else {
        TextAlign::Left
    }
}

/// The properties whose value is read as a colour.
pub open spec fn is_color_prop(p: Seq<char>) -> bool {
    p == "background-color"@ || p == "border-color"@ || p == "color"@
}

/// What a declaration does (property and value trimmed): the field it writes and the keyword,
/// colour or integer it sets; `Unknown` for a property the style does not know.
pub open spec fn spec_decl_effect(prop: Seq<char>, value: Seq<char>) -> DeclEffect {
    let p = trim(prop);
    let v = trim(value);
    if p == "width"@ {
        DeclEffect::Dimension(DimTarget::Width)
    } else if p == "height"@ {
        DeclEffect::Dimension(DimTarget::Height)
    } else if p == "min-width"@ {
        DeclEffect::Dimension(DimTarget::MinWidth)
    } else if p == "min-height"@ {
        DeclEffect::Dimension(DimTarget::MinHeight)
    } else if p == "max-width"@ {
        DeclEffect::Dimension(DimTarget::MaxWidth)
    } else if p == "max-height"@ {
        DeclEffect::Dimension(DimTarget::MaxHeight)
    } else if p == "padding"@ {
        DeclEffect::Box(BoxTarget::Padding)
    } else if p == "margin"@ {
        DeclEffect::Box(BoxTarget::Margin)
    } else if p == "border"@ {
        DeclEffect::Box(BoxTarget::Border)
    } else if p == "border-width"@ {
        DeclEffect::Box(BoxTarget::Border)
    } else if p == "border-radius"@ {
        DeclEffect::BorderRadius
    } else if p == "gap"@ {
        DeclEffect::Box(BoxTarget::Gap)
    } else if p == "flex-direction"@ {
        DeclEffect::FlexDirection(spec_flex_dir(v))
    } else if p == "flex-wrap"@ {
        DeclEffect::FlexWrap((v == "wrap"@))
    } else if p == "justify-content"@ {
        DeclEffect::JustifyContent(spec_justify(v))
    } else if p == "align-items"@ {
        DeclEffect::AlignItems(spec_align(v))
    } else if p == "align-self"@ {
        DeclEffect::AlignSelf(spec_align(v))
    } else if p == "flex-grow"@ {
        DeclEffect::Scalar(ScalarTarget::FlexGrow)
    } else if p == "flex-shrink"@ {
        DeclEffect::Scalar(ScalarTarget::FlexShrink)
    } else if p == "flex-basis"@ {
        DeclEffect::Dimension(DimTarget::FlexBasis)
    } else if p == "display"@ {
        DeclEffect::DisplayNone((v == "none"@))
    } else if p == "background-color"@ {
        DeclEffect::BackgroundColor(spec_parse_hex_color(value))
    } else if p == "background-image"@ {
        DeclEffect::BackgroundImage
    } else if p == "background-size"@ {
        DeclEffect::BackgroundSize(spec_bg_size(v))
    } else if p == "border-color"@ {
        DeclEffect::BorderColor(spec_parse_hex_color(value))
    } else if p == "opacity"@ {
        DeclEffect::Scalar(ScalarTarget::Opacity)
    } else if p == "overflow"@ {
        DeclEffect::Overflow { x: true, y: true, mode: spec_parse_overflow(value) }
    } else if p == "overflow-x"@ {
        DeclEffect::Overflow { x: true, y: false, mode: spec_parse_overflow(value) }
    } else if p == "overflow-y"@ {
        DeclEffect::Overflow { x: false, y: true, mode: spec_parse_overflow(value) }
    } else if p == "color"@ {
        DeclEffect::Color(spec_parse_hex_color(value))
    } else if p == "font-size"@ {
        DeclEffect::Scalar(ScalarTarget::FontSize)
    } else if p == "font-family"@ {
        DeclEffect::FontFamily
    } else if p == "font-weight"@ {
        DeclEffect::FontWeight(match spec_parse_u16(v) { Some(w) => w, None => 400 })
    } else if p == "text-align"@ {
        DeclEffect::TextAlign(spec_text_align(v))
    } else if p == "line-height"@ {
        DeclEffect::Scalar(ScalarTarget::LineHeight)
    } else if p == "letter-spacing"@ {
        DeclEffect::Scalar(ScalarTarget::LetterSpacing)
    } else if p == "white-space"@ {
        DeclEffect::WhiteSpaceNowrap((v == "nowrap"@))
    } else if p == "aspect-ratio"@ {
        DeclEffect::Scalar(ScalarTarget::AspectRatio)
    } else if p == "order"@ {
        DeclEffect::Order(match spec_parse_i32(v) { Some(o) => o, None => 0 })
    } else if p == "pointer-events"@ {
        DeclEffect::Touchable(!(v == "none"@))
    } else if p == "transform"@ {
        DeclEffect::Transform
    } else {
        DeclEffect::Unknown
    }
}

/// Decides what a declaration does to a style. Keywords, colours and integers are read here;
/// lengths and other numbers are read where the style is written.
pub fn decl_effect(prop: &str, value: &str) -> (e: DeclEffect)
    requires
        is_color_prop(trim(prop@)) ==> !color_splits_char(value@),
    ensures
        e == spec_decl_effect(prop@, value@),
{
    let pc = chars_of(prop);
    let p = trim_chars(pc.as_slice());
    let vc = chars_of(value);
    let v = trim_chars(vc.as_slice());
    if is_lit(&p, "width") {
        DeclEffect::Dimension(DimTarget::Width)
    } else if is_lit(&p, "height") {
        DeclEffect::Dimension(DimTarget::Height)
    } else if is_lit(&p, "min-width") {
        DeclEffect::Dimension(DimTarget::MinWidth)
    } else if is_lit(&p, "min-height") {
        DeclEffect::Dimension(DimTarget::MinHeight)
    } else if is_lit(&p, "max-width") {
        DeclEffect::Dimension(DimTarget::MaxWidth)
    } else if is_lit(&p, "max-height") {
        DeclEffect::Dimension(DimTarget::MaxHeight)
    } else if is_lit(&p, "padding") {
        DeclEffect::Box(BoxTarget::Padding)
    } else if is_lit(&p, "margin") {
        DeclEffect::Box(BoxTarget::Margin)
    } else if is_lit(&p, "border") {
        DeclEffect::Box(BoxTarget::Border)
    } else if is_lit(&p, "border-width") {
        DeclEffect::Box(BoxTarget::Border)
    } else if is_lit(&p, "border-radius") {
        DeclEffect::BorderRadius
    } else if is_lit(&p, "gap") {
        DeclEffect::Box(BoxTarget::Gap)
    } else if is_lit(&p, "flex-direction") {
        DeclEffect::FlexDirection(flex_dir_of(&v))
    } else if is_lit(&p, "flex-wrap") {
        DeclEffect::FlexWrap(is_lit(&v, "wrap"))
    } else if is_lit(&p, "justify-content") {
        DeclEffect::JustifyContent(justify_of(&v))
    } else if is_lit(&p, "align-items") {
        DeclEffect::AlignItems(align_of(&v))
    } else if is_lit(&p, "align-self") {
        DeclEffect::AlignSelf(align_of(&v))
    } else if is_lit(&p, "flex-grow") {
        DeclEffect::Scalar(ScalarTarget::FlexGrow)
    } else if is_lit(&p, "flex-shrink") {
        DeclEffect::Scalar(ScalarTarget::FlexShrink)
    } else if is_lit(&p, "flex-basis") {
        DeclEffect::Dimension(DimTarget::FlexBasis)
    } else if is_lit(&p, "display") {
        DeclEffect::DisplayNone(is_lit(&v, "none"))
    } else if is_lit(&p, "background-color") {
        DeclEffect::BackgroundColor(parse_hex_color(value))
    } else if is_lit(&p, "background-image") {
        DeclEffect::BackgroundImage
    } else if is_lit(&p, "background-size") {
        DeclEffect::BackgroundSize(bg_size_of(&v))
    } else if is_lit(&p, "border-color") {
        DeclEffect::BorderColor(parse_hex_color(value))
    } else if is_lit(&p, "opacity") {
        DeclEffect::Scalar(ScalarTarget::Opacity)
    } else if is_lit(&p, "overflow") {
        DeclEffect::Overflow { x: true, y: true, mode: parse_overflow(value) }
    } else if is_lit(&p, "overflow-x") {
        DeclEffect::Overflow { x: true, y: false, mode: parse_overflow(value) }
    } else if is_lit(&p, "overflow-y") {
        DeclEffect::Overflow { x: false, y: true, mode: parse_overflow(value) }
    } else if is_lit(&p, "color") {
        DeclEffect::Color(parse_hex_color(value))
    } else if is_lit(&p, "font-size") {
        DeclEffect::Scalar(ScalarTarget::FontSize)
    } else if is_lit(&p, "font-family") {
        DeclEffect::FontFamily
    } else if is_lit(&p, "font-weight") {
        DeclEffect::FontWeight(match parse_u16(v.as_slice()) { Some(w) => w, None => 400 })
    } else if is_lit(&p, "text-align") {
        DeclEffect::TextAlign(text_align_of(&v))
    } else if is_lit(&p, "line-height") {
        DeclEffect::Scalar(ScalarTarget::LineHeight)
    } else if is_lit(&p, "letter-spacing") {
        DeclEffect::Scalar(ScalarTarget::LetterSpacing)
    } else if is_lit(&p, "white-space") {
        DeclEffect::WhiteSpaceNowrap(is_lit(&v, "nowrap"))
    } else if is_lit(&p, "aspect-ratio") {
        DeclEffect::Scalar(ScalarTarget::AspectRatio)
    } else if is_lit(&p, "order") {
        DeclEffect::Order(match parse_i32(v.as_slice()) { Some(o) => o, None => 0 })
    } else if is_lit(&p, "pointer-events") {
        DeclEffect::Touchable(!is_lit(&v, "none"))
    } else if is_lit(&p, "transform") {
        DeclEffect::Transform
    } else {
        DeclEffect::Unknown
    }
}

/// Whether a colour value would be cut inside a multi-byte character (the one input on which
/// reading a colour is not defined).
pub fn color_value_splits_char(value: &str) -> (b: bool)
    ensures
        b == color_splits_char(value@),
{
    let cs = chars_of(value);
    let t = string_of(trim_chars(cs.as_slice()).as_slice());
    let b = t.as_str().as_bytes();
    let start: usize = if b.len() > 0 && b[0] == 35 { 1 } else { 0 };
    proof {
        if start == 1 {
            assert(color_bytes(value@) =~= b@.skip(1));
        } else {
            assert(color_bytes(value@) =~= b@);
        }
    }
    if b.len() - start != 6 {
        return false;
    }
    let c2 = b[start + 2];
    let c4 = b[start + 4];
    (0x80 <= c2 && c2 <= 0xbf) || (0x80 <= c4 && c4 <= 0xbf)
}

/// `pointer-events` decides whether a node can be hit: with any value but `none` (surrounding
/// whitespace aside) the node stays touchable, with `none` it cannot be hit.
pub proof fn law_pointer_events_touchable(prop: Seq<char>, value: Seq<char>)
    requires
        trim(prop) == "pointer-events"@,
    ensures
        spec_decl_effect(prop, value) == DeclEffect::Touchable(trim(value) != "none"@),
{
    reveal_strlit("pointer-events");
    reveal_strlit("width");
    reveal_strlit("height");
    reveal_strlit("min-width");
    reveal_strlit("min-height");
    reveal_strlit("max-width");
    reveal_strlit("max-height");
    reveal_strlit("padding");
    reveal_strlit("margin");
    reveal_strlit("border");
    reveal_strlit("border-width");
    reveal_strlit("border-radius");
    reveal_strlit("gap");
    reveal_strlit("flex-direction");
    reveal_strlit("flex-wrap");
    reveal_strlit("justify-content");
    reveal_strlit("align-items");
    reveal_strlit("align-self");
    reveal_strlit("flex-grow");
    reveal_strlit("flex-shrink");
    reveal_strlit("flex-basis");
    reveal_strlit("display");
    reveal_strlit("background-color");
    reveal_strlit("background-image");
    reveal_strlit("background-size");
    reveal_strlit("border-color");
    reveal_strlit("opacity");
    reveal_strlit("overflow");
    reveal_strlit("overflow-x");
    reveal_strlit("overflow-y");
    reveal_strlit("color");
    reveal_strlit("font-size");
    reveal_strlit("font-family");
    reveal_strlit("font-weight");
    reveal_strlit("text-align");
    reveal_strlit("line-height");
    reveal_strlit("letter-spacing");
    reveal_strlit("white-space");
    reveal_strlit("aspect-ratio");
    reveal_strlit("order");
    assert("pointer-events"@.len() != "width"@.len());
    assert("pointer-events"@ != "width"@);
    assert("pointer-events"@.len() != "height"@.len());
    assert("pointer-events"@ != "height"@);
    assert("pointer-events"@.len() != "min-width"@.len());
    assert("pointer-events"@ != "min-width"@);
    assert("pointer-events"@.len() != "min-height"@.len());
    assert("pointer-events"@ != "min-height"@);
    assert("pointer-events"@.len() != "max-width"@.len());
    assert("pointer-events"@ != "max-width"@);
    assert("pointer-events"@.len() != "max-height"@.len());
    assert("pointer-events"@ != "max-height"@);
    assert("pointer-events"@.len() != "padding"@.len());
    assert("pointer-events"@ != "padding"@);
    assert("pointer-events"@.len() != "margin"@.len());
    assert("pointer-events"@ != "margin"@);
    assert("pointer-events"@.len() != "border"@.len());
    assert("pointer-events"@ != "border"@);
    assert("pointer-events"@.len() != "border-width"@.len());
    assert("pointer-events"@ != "border-width"@);
    assert("pointer-events"@.len() != "border-radius"@.len());
    assert("pointer-events"@ != "border-radius"@);
    assert("pointer-events"@.len() != "gap"@.len());
    assert("pointer-events"@ != "gap"@);
    assert("pointer-events"@[0] != "flex-direction"@[0]);
    assert("pointer-events"@ != "flex-direction"@);
    assert("pointer-events"@.len() != "flex-wrap"@.len());
    assert("pointer-events"@ != "flex-wrap"@);
    assert("pointer-events"@.len() != "justify-content"@.len());
    assert("pointer-events"@ != "justify-content"@);
    assert("pointer-events"@.len() != "align-items"@.len());
    assert("pointer-events"@ != "align-items"@);
    assert("pointer-events"@.len() != "align-self"@.len());
    assert("pointer-events"@ != "align-self"@);
    assert("pointer-events"@.len() != "flex-grow"@.len());
    assert("pointer-events"@ != "flex-grow"@);
    assert("pointer-events"@.len() != "flex-shrink"@.len());
    assert("pointer-events"@ != "flex-shrink"@);
    assert("pointer-events"@.len() != "flex-basis"@.len());
    assert("pointer-events"@ != "flex-basis"@);
    assert("pointer-events"@.len() != "display"@.len());
    assert("pointer-events"@ != "display"@);
    assert("pointer-events"@.len() != "background-color"@.len());
    assert("pointer-events"@ != "background-color"@);
    assert("pointer-events"@.len() != "background-image"@.len());
    assert("pointer-events"@ != "background-image"@);
    assert("pointer-events"@.len() != "background-size"@.len());
    assert("pointer-events"@ != "background-size"@);
    assert("pointer-events"@.len() != "border-color"@.len());
    assert("pointer-events"@ != "border-color"@);
    assert("pointer-events"@.len() != "opacity"@.len());
    assert("pointer-events"@ != "opacity"@);
    assert("pointer-events"@.len() != "overflow"@.len());
    assert("pointer-events"@ != "overflow"@);
    assert("pointer-events"@.len() != "overflow-x"@.len());
    assert("pointer-events"@ != "overflow-x"@);
    assert("pointer-events"@.len() != "overflow-y"@.len());
    assert("pointer-events"@ != "overflow-y"@);
    assert("pointer-events"@.len() != "color"@.len());
    assert("pointer-events"@ != "color"@);
    assert("pointer-events"@.len() != "font-size"@.len());
    assert("pointer-events"@ != "font-size"@);
    assert("pointer-events"@.len() != "font-family"@.len());
    assert("pointer-events"@ != "font-family"@);
    assert("pointer-events"@.len() != "font-weight"@.len());
    assert("pointer-events"@ != "font-weight"@);
    assert("pointer-events"@.len() != "text-align"@.len());
    assert("pointer-events"@ != "text-align"@);
    assert("pointer-events"@.len() != "line-height"@.len());
    assert("pointer-events"@ != "line-height"@);
    assert("pointer-events"@[0] != "letter-spacing"@[0]);
    assert("pointer-events"@ != "letter-spacing"@);
    assert("pointer-events"@.len() != "white-space"@.len());
    assert("pointer-events"@ != "white-space"@);
    assert("pointer-events"@.len() != "aspect-ratio"@.len());
    assert("pointer-events"@ != "aspect-ratio"@);
    assert("pointer-events"@.len() != "order"@.len());
    assert("pointer-events"@ != "order"@);
}

/// `display` hides a node exactly when its value is `none` (surrounding whitespace aside).
pub proof fn law_display_none(prop: Seq<char>, value: Seq<char>)
    requires
        trim(prop) == "display"@,
    ensures
        spec_decl_effect(prop, value) == DeclEffect::DisplayNone(trim(value) == "none"@),
{
    reveal_strlit("display");
    reveal_strlit("width");
    reveal_strlit("height");
    reveal_strlit("min-width");
    reveal_strlit("min-height");
    reveal_strlit("max-width");
    reveal_strlit("max-height");
    reveal_strlit("padding");
    reveal_strlit("margin");
    reveal_strlit("border");
    reveal_strlit("border-width");
    reveal_strlit("border-radius");
    reveal_strlit("gap");
    reveal_strlit("flex-direction");
    reveal_strlit("flex-wrap");
    reveal_strlit("justify-content");
    reveal_strlit("align-items");
    reveal_strlit("align-self");
    reveal_strlit("flex-grow");
    reveal_strlit("flex-shrink");
    reveal_strlit("flex-basis");
    assert("display"@.len() != "width"@.len());
    assert("display"@ != "width"@);
    assert("display"@.len() != "height"@.len());
    assert("display"@ != "height"@);
    assert("display"@.len() != "min-width"@.len());
    assert("display"@ != "min-width"@);
    assert("display"@.len() != "min-height"@.len());
    assert("display"@ != "min-height"@);
    assert("display"@.len() != "max-width"@.len());
    assert("display"@ != "max-width"@);
    assert("display"@.len() != "max-height"@.len());
    assert("display"@ != "max-height"@);
    assert("display"@[0] != "padding"@[0]);
    assert("display"@ != "padding"@);
    assert("display"@.len() != "margin"@.len());
    assert("display"@ != "margin"@);
    assert("display"@.len() != "border"@.len());
    assert("display"@ != "border"@);
    assert("display"@.len() != "border-width"@.len());
    assert("display"@ != "border-width"@);
    assert("display"@.len() != "border-radius"@.len());
    assert("display"@ != "border-radius"@);
    assert("display"@.len() != "gap"@.len());
    assert("display"@ != "gap"@);
    assert("display"@.len() != "flex-direction"@.len());
    assert("display"@ != "flex-direction"@);
    assert("display"@.len() != "flex-wrap"@.len());
    assert("display"@ != "flex-wrap"@);
    assert("display"@.len() != "justify-content"@.len());
    assert("display"@ != "justify-content"@);
    assert("display"@.len() != "align-items"@.len());
    assert("display"@ != "align-items"@);
    assert("display"@.len() != "align-self"@.len());
    assert("display"@ != "align-self"@);
    assert("display"@.len() != "flex-grow"@.len());
    assert("display"@ != "flex-grow"@);
    assert("display"@.len() != "flex-shrink"@.len());
    assert("display"@ != "flex-shrink"@);
    assert("display"@.len() != "flex-basis"@.len());
    assert("display"@ != "flex-basis"@);
}

/// `flex-wrap` wraps exactly when its value is `wrap` (surrounding whitespace aside); any other value keeps one line.
pub proof fn law_flex_wrap(prop: Seq<char>, value: Seq<char>)
    requires
        trim(prop) == "flex-wrap"@,
    ensures
        spec_decl_effect(prop, value) == DeclEffect::FlexWrap(trim(value) == "wrap"@),
{
    reveal_strlit("flex-wrap");
    reveal_strlit("width");
    reveal_strlit("height");
    reveal_strlit("min-width");
    reveal_strlit("min-height");
    reveal_strlit("max-width");
    reveal_strlit("max-height");
    reveal_strlit("padding");
    reveal_strlit("margin");
    reveal_strlit("border");
    reveal_strlit("border-width");
    reveal_strlit("border-radius");
    reveal_strlit("gap");
    reveal_strlit("flex-direction");
    assert("flex-wrap"@.len() != "width"@.len());
    assert("flex-wrap"@ != "width"@);
    assert("flex-wrap"@.len() != "height"@.len());
    assert("flex-wrap"@ != "height"@);
    assert("flex-wrap"@[0] != "min-width"@[0]);
    assert("flex-wrap"@ != "min-width"@);
    assert("flex-wrap"@.len() != "min-height"@.len());
    assert("flex-wrap"@ != "min-height"@);
    assert("flex-wrap"@[0] != "max-width"@[0]);
    assert("flex-wrap"@ != "max-width"@);
    assert("flex-wrap"@.len() != "max-height"@.len());
    assert("flex-wrap"@ != "max-height"@);
    assert("flex-wrap"@.len() != "padding"@.len());
    assert("flex-wrap"@ != "padding"@);
    assert("flex-wrap"@.len() != "margin"@.len());
    assert("flex-wrap"@ != "margin"@);
    assert("flex-wrap"@.len() != "border"@.len());
    assert("flex-wrap"@ != "border"@);
    assert("flex-wrap"@.len() != "border-width"@.len());
    assert("flex-wrap"@ != "border-width"@);
    assert("flex-wrap"@.len() != "border-radius"@.len());
    assert("flex-wrap"@ != "border-radius"@);
    assert("flex-wrap"@.len() != "gap"@.len());
    assert("flex-wrap"@ != "gap"@);
    assert("flex-wrap"@.len() != "flex-direction"@.len());
    assert("flex-wrap"@ != "flex-direction"@);
}

/// `white-space` stops text wrapping exactly when its value is `nowrap` (surrounding whitespace aside).
pub proof fn law_white_space_nowrap(prop: Seq<char>, value: Seq<char>)
    requires
        trim(prop) == "white-space"@,
    ensures
        spec_decl_effect(prop, value) == DeclEffect::WhiteSpaceNowrap(trim(value) == "nowrap"@),
{
    reveal_strlit("white-space");
    reveal_strlit("width");
    reveal_strlit("height");
    reveal_strlit("min-width");
    reveal_strlit("min-height");
    reveal_strlit("max-width");
    reveal_strlit("max-height");
    reveal_strlit("padding");
    reveal_strlit("margin");
    reveal_strlit("border");
    reveal_strlit("border-width");
    reveal_strlit("border-radius");
    reveal_strlit("gap");
    reveal_strlit("flex-direction");
    reveal_strlit("flex-wrap");
    reveal_strlit("justify-content");
    reveal_strlit("align-items");
    reveal_strlit("align-self");
    reveal_strlit("flex-grow");
    reveal_strlit("flex-shrink");
    reveal_strlit("flex-basis");
    reveal_strlit("display");
    reveal_strlit("background-color");
    reveal_strlit("background-image");
    reveal_strlit("background-size");
    reveal_strlit("border-color");
    reveal_strlit("opacity");
    reveal_strlit("overflow");
    reveal_strlit("overflow-x");
    reveal_strlit("overflow-y");
    reveal_strlit("color");
    reveal_strlit("font-size");
    reveal_strlit("font-family");
    reveal_strlit("font-weight");
    reveal_strlit("text-align");
    reveal_strlit("line-height");
    reveal_strlit("letter-spacing");
    assert("white-space"@.len() != "width"@.len());
    assert("white-space"@ != "width"@);
    assert("white-space"@.len() != "height"@.len());
    assert("white-space"@ != "height"@);
    assert("white-space"@.len() != "min-width"@.len());
    assert("white-space"@ != "min-width"@);
    assert("white-space"@.len() != "min-height"@.len());
    assert("white-space"@ != "min-height"@);
    assert("white-space"@.len() != "max-width"@.len());
    assert("white-space"@ != "max-width"@);
    assert("white-space"@.len() != "max-height"@.len());
    assert("white-space"@ != "max-height"@);
    assert("white-space"@.len() != "padding"@.len());
    assert("white-space"@ != "padding"@);
    assert("white-space"@.len() != "margin"@.len());
    assert("white-space"@ != "margin"@);
    assert("white-space"@.len() != "border"@.len());
    assert("white-space"@ != "border"@);
    assert("white-space"@.len() != "border-width"@.len());
    assert("white-space"@ != "border-width"@);
    assert("white-space"@.len() != "border-radius"@.len());
    assert("white-space"@ != "border-radius"@);
    assert("white-space"@.len() != "gap"@.len());
    assert("white-space"@ != "gap"@);
    assert("white-space"@.len() != "flex-direction"@.len());
    assert("white-space"@ != "flex-direction"@);
    assert("white-space"@.len() != "flex-wrap"@.len());
    assert("white-space"@ != "flex-wrap"@);
    assert("white-space"@.len() != "justify-content"@.len());
    assert("white-space"@ != "justify-content"@);
    assert("white-space"@[0] != "align-items"@[0]);
    assert("white-space"@ != "align-items"@);
    assert("white-space"@.len() != "align-self"@.len());
    assert("white-space"@ != "align-self"@);
    assert("white-space"@.len() != "flex-grow"@.len());
    assert("white-space"@ != "flex-grow"@);
    assert("white-space"@[0] != "flex-shrink"@[0]);
    assert("white-space"@ != "flex-shrink"@);
    assert("white-space"@.len() != "flex-basis"@.len());
    assert("white-space"@ != "flex-basis"@);
    assert("white-space"@.len() != "display"@.len());
    assert("white-space"@ != "display"@);
    assert("white-space"@.len() != "background-color"@.len());
    assert("white-space"@ != "background-color"@);
    assert("white-space"@.len() != "background-image"@.len());
    assert("white-space"@ != "background-image"@);
    assert("white-space"@.len() != "background-size"@.len());
    assert("white-space"@ != "background-size"@);
    assert("white-space"@.len() != "border-color"@.len());
    assert("white-space"@ != "border-color"@);
    assert("white-space"@.len() != "opacity"@.len());
    assert("white-space"@ != "opacity"@);
    assert("white-space"@.len() != "overflow"@.len());
    assert("white-space"@ != "overflow"@);
    assert("white-space"@.len() != "overflow-x"@.len());
    assert("white-space"@ != "overflow-x"@);
    assert("white-space"@.len() != "overflow-y"@.len());
    assert("white-space"@ != "overflow-y"@);
    assert("white-space"@.len() != "color"@.len());
    assert("white-space"@ != "color"@);
    assert("white-space"@.len() != "font-size"@.len());
    assert("white-space"@ != "font-size"@);
    assert("white-space"@[0] != "font-family"@[0]);
    assert("white-space"@ != "font-family"@);
    assert("white-space"@[0] != "font-weight"@[0]);
    assert("white-space"@ != "font-weight"@);
    assert("white-space"@.len() != "text-align"@.len());
    assert("white-space"@ != "text-align"@);
    assert("white-space"@[0] != "line-height"@[0]);
    assert("white-space"@ != "line-height"@);
    assert("white-space"@.len() != "letter-spacing"@.len());
    assert("white-space"@ != "letter-spacing"@);
}

} // verus!
