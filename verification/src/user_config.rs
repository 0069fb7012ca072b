//! User preferences: the color theme as stored (`#RRGGBB` strings) and as
//! used (24-bit colors), the recent files list, and the default fonts.

use vstd::prelude::*;
use vstd::utf8::{decode_utf8_encode_utf8, encode_utf8};
use crate::text::{lemma_ascii_valid, string_from_utf8};

verus! {

/// A theme as written in the configuration file: colors as `#RRGGBB`.
pub struct SerializedTheme {
    pub background: String,
    pub foreground: String,
    pub selection: String,
    pub comment: String,
    pub red: String,
    pub orange: String,
    pub yellow: String,
    pub green: String,
    pub cyan: String,
    pub purple: String,
    pub pink: String,
}

/// A theme's colors, each a 24-bit `0xRRGGBB` value.
#[derive(Clone, Copy, Debug, PartialEq, Eq, Structural)]
pub struct EditorTheme {
    pub background: u32,
    pub foreground: u32,
    pub selection: u32,
    pub comment: u32,
    pub red: u32,
    pub orange: u32,
    pub yellow: u32,
    pub green: u32,
    pub cyan: u32,
    pub purple: u32,
    pub pink: u32,
}

/// A built-in theme.
#[derive(Clone, Copy, Debug, PartialEq, Eq, Structural)]
pub enum Preset {
    Dracula,
    Nord,
}

impl Default for SerializedTheme {
    /// All colors empty.
    fn default() -> (r: SerializedTheme)
        ensures
            r.background@.len() == 0 && r.foreground@.len() == 0 && r.selection@.len() == 0
                && r.comment@.len() == 0 && r.red@.len() == 0 && r.orange@.len() == 0
                && r.yellow@.len() == 0 && r.green@.len() == 0 && r.cyan@.len() == 0
                && r.purple@.len() == 0 && r.pink@.len() == 0,
    {
        SerializedTheme {
            background: String::new(),
            foreground: String::new(),
            selection: String::new(),
            comment: String::new(),
            red: String::new(),
            orange: String::new(),
            yellow: String::new(),
            green: String::new(),
            cyan: String::new(),
            purple: String::new(),
            pink: String::new(),
        }
    }
}

/// Value of a hexadecimal digit, or -1.
pub open spec fn hex_digit(c: u8) -> int {
    if 48 <= c <= 57 {
        c - 48
    } else if 97 <= c <= 102 {
        c - 87
    } else if 65 <= c <= 70 {
        c - 55
    } else {
        -1
    }
}

/// `b[i..e)` are all hexadecimal digits.
pub open spec fn all_hex(b: Seq<u8>, i: int, e: int) -> bool {
    forall|j: int| i <= j < e ==> hex_digit(#[trigger] b[j]) >= 0
}

/// The number the hexadecimal digits `b[i..e)` write.
pub open spec fn hex_value(b: Seq<u8>, i: int, e: int) -> int
    decreases e - i,
{
    if e <= i {
        0
    } else {
        hex_value(b, i, e - 1) * 16 + hex_digit(b[e - 1])
    }
}

/// First position at or after `i` that is not a `#`.
pub open spec fn skip_hashes(b: Seq<u8>, i: int) -> int
    decreases b.len() - i,
{
    if i < 0 || i >= b.len() || b[i] != 35u8 {
        i
    } else {
        skip_hashes(b, i + 1)
    }
}

/// `u32::from_str_radix(&text[i..], 16)`: an optional `+`, then one or
/// more hexadecimal digits whose value fits in a `u32`.
pub open spec fn radix16(b: Seq<u8>, i: int) -> Option<u32> {
    let d = if 0 <= i < b.len() && b[i] == 43u8 { i + 1 } else { i };
    if d < 0 || d >= b.len() || !all_hex(b, d, b.len() as int) || hex_value(b, d, b.len() as int) > u32::MAX {
        None
    } else {
        Some(hex_value(b, d, b.len() as int) as u32)
    }
}

/// The color a `#RRGGBB` string gives: leading `#`s dropped, the rest read
/// as a hexadecimal `u32` (white when it is not one), of which the low 24
/// bits are the color.
pub open spec fn color_of(b: Seq<u8>) -> u32 {
    let v = match radix16(b, skip_hashes(b, 0)) {
        Some(v) => v,
        None => 0xFFFFFFu32,
    };
    (v % 0x1000000) as u32
}

/// The uppercase hexadecimal digit of `d < 16`.
pub open spec fn hex_char(d: int) -> u8 {
    if d < 10 { (48 + d) as u8 } else { (55 + d) as u8 }
}

/// `#RRGGBB` of a 24-bit color, uppercase.
pub open spec fn hex_text(c: u32) -> Seq<u8> {
    let r = (c as int / 65536) % 256;
    let g = (c as int / 256) % 256;
    let b = c as int % 256;
    seq![35u8, hex_char(r / 16), hex_char(r % 16), hex_char(g / 16), hex_char(g % 16), hex_char(b / 16), hex_char(b % 16)]
}

proof fn lemma_hex_value_mono(b: Seq<u8>, i: int, j: int, e: int)
    requires
        i <= j <= e,
        all_hex(b, i, e),
    ensures
        hex_value(b, i, j) <= hex_value(b, i, e),
        hex_value(b, i, j) >= 0,
    decreases e - j,
{
    if j < e {
        lemma_hex_value_mono(b, i, j, e - 1);
        lemma_hex_value_mono(b, i, e - 1, e - 1);
        assert(hex_digit(b[e - 1]) >= 0);
    } else {
        lemma_hex_value_nonneg(b, i, e);
    }
}

proof fn lemma_hex_value_nonneg(b: Seq<u8>, i: int, e: int)
    requires
        all_hex(b, i, e),
    ensures
        hex_value(b, i, e) >= 0,
    decreases e - i,
{
    if e > i {
        lemma_hex_value_nonneg(b, i, e - 1);
        assert(hex_digit(b[e - 1]) >= 0);
    }
}

/// `color_of` computed.
pub fn parse_hex(s: &str) -> (r: u32)
    ensures
        r == color_of(encode_utf8(s@)),
{
    let b = s.as_bytes();
    let ghost bs = encode_utf8(s@);
    assert(b@ == bs);
    let n = b.len();
    let mut i: usize = 0;
    while i < n && b[i] == 35u8
        invariant
            i <= n == bs.len(),
            b@ == bs,
            skip_hashes(bs, i as int) == skip_hashes(bs, 0),
        decreases n - i,
    {
        i = i + 1;
    }
    let d = if i < n && b[i] == 43u8 {
        i + 1
    } else {
        i
    };
    let mut v: u64 = 0;
    let mut ok = d < n;
    let mut j = d;
    while ok && j < n
        invariant
            d <= j <= n == bs.len(),
            b@ == bs,
            ok ==> all_hex(bs, d as int, j as int) && v as int == hex_value(bs, d as int, j as int) && v <= u32::MAX,
            !ok ==> radix16(bs, i as int) is None,
            d < n || !ok,
            d == (if i < n && bs[i as int] == 43u8 { i + 1 } else { i as int }),
        decreases n - j,
    {
        let c = b[j];
        let dig: u64 = if 48 <= c && c <= 57 {
            (c - 48) as u64
        } else if 97 <= c && c <= 102 {
            (c - 87) as u64
        } else if 65 <= c && c <= 70 {
            (c - 55) as u64
        } else {
            16
        };
        if dig == 16 {
            ok = false;
            assert(!all_hex(bs, d as int, n as int));
            j = j + 1;
        } else {
            v = v * 16 + dig;
            assert(all_hex(bs, d as int, j + 1));
            if v > 0xFFFF_FFFFu64 {
                ok = false;
                proof {
                    if all_hex(bs, d as int, n as int) {
                        lemma_hex_value_mono(bs, d as int, j + 1, n as int);
                    }
                }
            }
            j = j + 1;
        }
    }
    let val: u32 = if ok {
        v as u32
    } else {
        0xFFFFFFu32
    };
    val % 0x1000000
}


proof fn lemma_hex_char(d: int)
    requires
        0 <= d < 16,
    ensures
        hex_digit(hex_char(d)) == d,
        hex_char(d) != 35u8,
        hex_char(d) != 43u8,
{
}

/// A color written by `to_hex` reads back by `parse_hex` as the same color.
pub proof fn lemma_color_round_trip(c: u32)
    requires
        c < 0x1000000,
    ensures
        color_of(hex_text(c)) == c,
{
    let b = hex_text(c);
    let ci = c as int;
    let r = (ci / 65536) % 256;
    let g = (ci / 256) % 256;
    let bl = ci % 256;
    assert(0 <= r < 256 && 0 <= g < 256 && 0 <= bl < 256);
    lemma_hex_char(r / 16);
    lemma_hex_char(r % 16);
    lemma_hex_char(g / 16);
    lemma_hex_char(g % 16);
    lemma_hex_char(bl / 16);
    lemma_hex_char(bl % 16);
    assert(b.len() == 7);
    assert(skip_hashes(b, 1) == 1);
    assert(skip_hashes(b, 0) == 1);
    assert(all_hex(b, 1, 7));
    assert(hex_value(b, 1, 1) == 0);
    assert(hex_value(b, 1, 2) == r / 16);
    assert(hex_value(b, 1, 3) == (r / 16) * 16 + r % 16);
    assert(hex_value(b, 1, 4) == ((r / 16) * 16 + r % 16) * 16 + g / 16);
    assert(hex_value(b, 1, 5) == (((r / 16) * 16 + r % 16) * 16 + g / 16) * 16 + g % 16);
    assert(hex_value(b, 1, 6) == ((((r / 16) * 16 + r % 16) * 16 + g / 16) * 16 + g % 16) * 16 + bl / 16);
    assert(hex_value(b, 1, 7) == (((((r / 16) * 16 + r % 16) * 16 + g / 16) * 16 + g % 16) * 16 + bl / 16) * 16 + bl % 16);
    assert((((((r / 16) * 16 + r % 16) * 16 + g / 16) * 16 + g % 16) * 16 + bl / 16) * 16 + bl % 16 == ci) by (nonlinear_arith)
        requires
            0 <= ci < 0x1000000,
            r == (ci / 65536) % 256,
            g == (ci / 256) % 256,
            bl == ci % 256,
    {
    }
    assert(radix16(b, 1) == Some(c));
}

/// An uppercase hexadecimal digit.
pub open spec fn upper_hex(c: u8) -> bool {
    (48 <= c <= 57) || (65 <= c <= 70)
}

/// `#` and six uppercase hexadecimal digits.
pub open spec fn canonical_hex(b: Seq<u8>) -> bool {
    &&& b.len() == 7
    &&& b[0] == 35u8
    &&& forall|j: int| 1 <= j < 7 ==> upper_hex(#[trigger] b[j])
}

/// Every color of `t` is written as `#` and six uppercase hex digits.
pub open spec fn canonical_theme(t: SerializedTheme) -> bool {
    &&& canonical_hex(encode_utf8(t.background@)) && canonical_hex(encode_utf8(t.foreground@))
    &&& canonical_hex(encode_utf8(t.selection@)) && canonical_hex(encode_utf8(t.comment@))
    &&& canonical_hex(encode_utf8(t.red@)) && canonical_hex(encode_utf8(t.orange@))
    &&& canonical_hex(encode_utf8(t.yellow@)) && canonical_hex(encode_utf8(t.green@))
    &&& canonical_hex(encode_utf8(t.cyan@)) && canonical_hex(encode_utf8(t.purple@))
    &&& canonical_hex(encode_utf8(t.pink@))
}

/// A `#RRGGBB` text in uppercase, read as a color and written again,
/// gives the same text.
pub proof fn lemma_text_round_trip(b: Seq<u8>)
    requires
        canonical_hex(b),
    ensures
        hex_text(color_of(b)) == b,
{
    assert(upper_hex(b[1]) && upper_hex(b[2]) && upper_hex(b[3]) && upper_hex(b[4]) && upper_hex(b[5])
        && upper_hex(b[6]));
    let d1 = hex_digit(b[1]);
    let d2 = hex_digit(b[2]);
    let d3 = hex_digit(b[3]);
    let d4 = hex_digit(b[4]);
    let d5 = hex_digit(b[5]);
    let d6 = hex_digit(b[6]);
    assert(0 <= d1 < 16 && 0 <= d2 < 16 && 0 <= d3 < 16 && 0 <= d4 < 16 && 0 <= d5 < 16 && 0 <= d6 < 16);
    assert(hex_char(d1) == b[1] && hex_char(d2) == b[2] && hex_char(d3) == b[3]);
    assert(hex_char(d4) == b[4] && hex_char(d5) == b[5] && hex_char(d6) == b[6]);
    assert(skip_hashes(b, 1) == 1);
    assert(skip_hashes(b, 0) == 1);
    assert(all_hex(b, 1, 7));
    assert(hex_value(b, 1, 1) == 0);
    assert(hex_value(b, 1, 2) == d1);
    assert(hex_value(b, 1, 3) == d1 * 16 + d2);
    assert(hex_value(b, 1, 4) == (d1 * 16 + d2) * 16 + d3);
    assert(hex_value(b, 1, 5) == ((d1 * 16 + d2) * 16 + d3) * 16 + d4);
    assert(hex_value(b, 1, 6) == (((d1 * 16 + d2) * 16 + d3) * 16 + d4) * 16 + d5);
    let v = ((((d1 * 16 + d2) * 16 + d3) * 16 + d4) * 16 + d5) * 16 + d6;
    assert(hex_value(b, 1, 7) == v);
    assert(0 <= v < 0x1000000);
    assert(radix16(b, 1) == Some(v as u32));
    let c = color_of(b);
    assert(c as int == v);
    assert((v / 65536) % 256 == d1 * 16 + d2 && (v / 256) % 256 == d3 * 16 + d4 && v % 256 == d5 * 16 + d6)
        by (nonlinear_arith)
        requires
            v == ((((d1 * 16 + d2) * 16 + d3) * 16 + d4) * 16 + d5) * 16 + d6,
            0 <= d1 < 16,
            0 <= d2 < 16,
            0 <= d3 < 16,
            0 <= d4 < 16,
            0 <= d5 < 16,
            0 <= d6 < 16,
    {
    }
    assert((d1 * 16 + d2) / 16 == d1 && (d1 * 16 + d2) % 16 == d2);
    assert((d3 * 16 + d4) / 16 == d3 && (d3 * 16 + d4) % 16 == d4);
    assert((d5 * 16 + d6) / 16 == d5 && (d5 * 16 + d6) % 16 == d6);
    assert(hex_text(c) =~= b);
}

/// A theme whose colors are all written as `#` and six uppercase hex
/// digits, read as colors and written again, gives the same texts.
pub proof fn lemma_theme_text_round_trip(t: SerializedTheme, r: SerializedTheme)
    requires
        canonical_theme(t),
        stores(r, theme_colors(t)),
    ensures
        r.background@ == t.background@ && r.foreground@ == t.foreground@ && r.selection@ == t.selection@,
        r.comment@ == t.comment@ && r.red@ == t.red@ && r.orange@ == t.orange@ && r.yellow@ == t.yellow@,
        r.green@ == t.green@ && r.cyan@ == t.cyan@ && r.purple@ == t.purple@ && r.pink@ == t.pink@,
{
    lemma_same_text(r.background@, t.background@);
    lemma_same_text(r.foreground@, t.foreground@);
    lemma_same_text(r.selection@, t.selection@);
    lemma_same_text(r.comment@, t.comment@);
    lemma_same_text(r.red@, t.red@);
    lemma_same_text(r.orange@, t.orange@);
    lemma_same_text(r.yellow@, t.yellow@);
    lemma_same_text(r.green@, t.green@);
    lemma_same_text(r.cyan@, t.cyan@);
    lemma_same_text(r.purple@, t.purple@);
    lemma_same_text(r.pink@, t.pink@);
}

/// A stored copy of the color of a canonical text is that text.
proof fn lemma_same_text(x: Seq<char>, y: Seq<char>)
    requires
        canonical_hex(encode_utf8(y)),
        encode_utf8(x) == hex_text(color_of(encode_utf8(y))),
    ensures
        x == y,
{
    lemma_text_round_trip(encode_utf8(y));
    vstd::utf8::encode_utf8_decode_utf8(x);
    vstd::utf8::encode_utf8_decode_utf8(y);
}

fn hex_char_exec(d: u32) -> (r: u8)
    requires
        d < 16,
    ensures
        r == hex_char(d as int),
{
    if d < 10 {
        (48 + d) as u8
    } else {
        (55 + d) as u8
    }
}

/// `#RRGGBB` of a color, uppercase.
pub fn to_hex(c: u32) -> (r: String)
    ensures
        encode_utf8(r@) == hex_text(c),
{
    let r = (c / 65536) % 256;
    let g = (c / 256) % 256;
    let b = c % 256;
    let v: Vec<u8> = vec![35u8, hex_char_exec(r / 16), hex_char_exec(r % 16), hex_char_exec(g / 16),
        hex_char_exec(g % 16), hex_char_exec(b / 16), hex_char_exec(b % 16)];
    proof {
        assert(v@ =~= hex_text(c));
        lemma_ascii_valid(v@);
        decode_utf8_encode_utf8(v@);
    }
    string_from_utf8(v)
}

/// The colors a stored theme gives.
pub open spec fn theme_colors(t: SerializedTheme) -> EditorTheme {
    EditorTheme {
        background: color_of(encode_utf8(t.background@)),
        foreground: color_of(encode_utf8(t.foreground@)),
        selection: color_of(encode_utf8(t.selection@)),
        comment: color_of(encode_utf8(t.comment@)),
        red: color_of(encode_utf8(t.red@)),
        orange: color_of(encode_utf8(t.orange@)),
        yellow: color_of(encode_utf8(t.yellow@)),
        green: color_of(encode_utf8(t.green@)),
        cyan: color_of(encode_utf8(t.cyan@)),
        purple: color_of(encode_utf8(t.purple@)),
        pink: color_of(encode_utf8(t.pink@)),
    }
}

/// `t` stores the colors of `e` as `#RRGGBB`.
pub open spec fn stores(t: SerializedTheme, e: EditorTheme) -> bool {
    &&& encode_utf8(t.background@) == hex_text(e.background)
    &&& encode_utf8(t.foreground@) == hex_text(e.foreground)
    &&& encode_utf8(t.selection@) == hex_text(e.selection)
    &&& encode_utf8(t.comment@) == hex_text(e.comment)
    &&& encode_utf8(t.red@) == hex_text(e.red)
    &&& encode_utf8(t.orange@) == hex_text(e.orange)
    &&& encode_utf8(t.yellow@) == hex_text(e.yellow)
    &&& encode_utf8(t.green@) == hex_text(e.green)
    &&& encode_utf8(t.cyan@) == hex_text(e.cyan)
    &&& encode_utf8(t.purple@) == hex_text(e.purple)
    &&& encode_utf8(t.pink@) == hex_text(e.pink)
}

/// Every color of `e` is a 24-bit color.
pub open spec fn colors_24bit(e: EditorTheme) -> bool {
    &&& e.background < 0x1000000 && e.foreground < 0x1000000 && e.selection < 0x1000000
    &&& e.comment < 0x1000000 && e.red < 0x1000000 && e.orange < 0x1000000
    &&& e.yellow < 0x1000000 && e.green < 0x1000000 && e.cyan < 0x1000000
    &&& e.purple < 0x1000000 && e.pink < 0x1000000
}

/// A theme saved from colors loads back as the same colors.
pub proof fn lemma_theme_round_trip(e: EditorTheme, t: SerializedTheme)
    requires
        colors_24bit(e),
        stores(t, e),
    ensures
        theme_colors(t) == e,
{
    lemma_color_round_trip(e.background);
    lemma_color_round_trip(e.foreground);
    lemma_color_round_trip(e.selection);
    lemma_color_round_trip(e.comment);
    lemma_color_round_trip(e.red);
    lemma_color_round_trip(e.orange);
    lemma_color_round_trip(e.yellow);
    lemma_color_round_trip(e.green);
    lemma_color_round_trip(e.cyan);
    lemma_color_round_trip(e.purple);
    lemma_color_round_trip(e.pink);
}

/// Colors read from a stored theme are 24-bit.
pub proof fn lemma_colors_24bit(t: SerializedTheme)
    ensures
        colors_24bit(theme_colors(t)),
{
}

impl SerializedTheme {
    /// The stored form of a built-in theme.
    pub fn from_preset(preset: &Preset) -> (r: SerializedTheme)
        ensures
            match *preset {
                Preset::Dracula => is_dracula(r),
                Preset::Nord => is_nord(r),
            },
    {
        match preset {
            Preset::Nord => Self::nord(),
            Preset::Dracula => Self::dracula(),
        }
    }

    fn dracula() -> (r: SerializedTheme)
        ensures
            is_dracula(r),
    {
        SerializedTheme {
            background: "#282A36".to_owned(),
            foreground: "#F8F8F2".to_owned(),
            selection: "#44475A".to_owned(),
            comment: "#6272A4".to_owned(),
            red: "#FF5555".to_owned(),
            orange: "#FFB86C".to_owned(),
            yellow: "#F1FA8C".to_owned(),
            green: "#50FA7B".to_owned(),
            cyan: "#8BE9FD".to_owned(),
            purple: "#BD93F9".to_owned(),
            pink: "#FF79C6".to_owned(),
        }
    }

    fn nord() -> (r: SerializedTheme)
        ensures
            is_nord(r),
    {
        SerializedTheme {
            background: "#2E3440".to_owned(),
            foreground: "#D8DEE9".to_owned(),
            selection: "#434C5E".to_owned(),
            comment: "#616E88".to_owned(),
            red: "#BF616A".to_owned(),
            orange: "#D08770".to_owned(),
            yellow: "#EBCB8B".to_owned(),
            green: "#A3BE8C".to_owned(),
            cyan: "#88C0D0".to_owned(),
            purple: "#B48EAD".to_owned(),
            pink: "#BF88BC".to_owned(),
        }
    }

    /// The colors of this theme.
    pub fn to_editor_theme(&self) -> (r: EditorTheme)
        ensures
            r == theme_colors(*self),
    {
        EditorTheme {
            background: parse_hex(self.background.as_str()),
            foreground: parse_hex(self.foreground.as_str()),
            selection: parse_hex(self.selection.as_str()),
            comment: parse_hex(self.comment.as_str()),
            red: parse_hex(self.red.as_str()),
            orange: parse_hex(self.orange.as_str()),
            yellow: parse_hex(self.yellow.as_str()),
            green: parse_hex(self.green.as_str()),
            cyan: parse_hex(self.cyan.as_str()),
            purple: parse_hex(self.purple.as_str()),
            pink: parse_hex(self.pink.as_str()),
        }
    }

    /// The stored form of a theme's colors.
    pub fn from_editor_theme(theme: &EditorTheme) -> (r: SerializedTheme)
        ensures
            stores(r, *theme),
    {
        SerializedTheme {
            background: to_hex(theme.background),
            foreground: to_hex(theme.foreground),
            selection: to_hex(theme.selection),
            comment: to_hex(theme.comment),
            red: to_hex(theme.red),
            orange: to_hex(theme.orange),
            yellow: to_hex(theme.yellow),
            green: to_hex(theme.green),
            cyan: to_hex(theme.cyan),
            purple: to_hex(theme.purple),
            pink: to_hex(theme.pink),
        }
    }
}

/// `t` is the Dracula theme.
pub open spec fn is_dracula(t: SerializedTheme) -> bool {
    &&& t.background@ == "#282A36"@
    &&& t.foreground@ == "#F8F8F2"@
    &&& t.selection@ == "#44475A"@
    &&& t.comment@ == "#6272A4"@
    &&& t.red@ == "#FF5555"@
    &&& t.orange@ == "#FFB86C"@
    &&& t.yellow@ == "#F1FA8C"@
    &&& t.green@ == "#50FA7B"@
    &&& t.cyan@ == "#8BE9FD"@
    &&& t.purple@ == "#BD93F9"@
    &&& t.pink@ == "#FF79C6"@
}

/// `t` is the Nord theme.
pub open spec fn is_nord(t: SerializedTheme) -> bool {
    &&& t.background@ == "#2E3440"@
    &&& t.foreground@ == "#D8DEE9"@
    &&& t.selection@ == "#434C5E"@
    &&& t.comment@ == "#616E88"@
    &&& t.red@ == "#BF616A"@
    &&& t.orange@ == "#D08770"@
    &&& t.yellow@ == "#EBCB8B"@
    &&& t.green@ == "#A3BE8C"@
    &&& t.cyan@ == "#88C0D0"@
    &&& t.purple@ == "#B48EAD"@
    &&& t.pink@ == "#BF88BC"@
}

/// The characters of each string.
pub open spec fn names(v: Seq<String>) -> Seq<Seq<char>> {
    v.map_values(|f: String| f@)
}

/// The entries of `v[0..n)` other than `p`, in order.
pub open spec fn without(v: Seq<Seq<char>>, p: Seq<char>, n: int) -> Seq<Seq<char>>
    decreases n,
{
    if n <= 0 {
        seq![]
    } else {
        let r = without(v, p, n - 1);
        if v[n - 1] == p {
            r
        } else {
            r.push(v[n - 1])
        }
    }
}

/// The most recently used entries kept.
pub open spec fn max_recent() -> int {
    5
}

/// The recent files list after opening `p`: `p` first, then the others in
/// their order, at most five in all; an empty path changes nothing.
pub open spec fn with_recent(v: Seq<Seq<char>>, p: Seq<char>) -> Seq<Seq<char>> {
    if p.len() == 0 {
        v
    } else {
        let w = seq![p] + without(v, p, v.len() as int);
        if w.len() > max_recent() {
            w.subrange(0, max_recent())
        } else {
            w
        }
    }
}

/// No entry occurs twice.
pub open spec fn distinct(v: Seq<Seq<char>>) -> bool {
    forall|i: int, j: int| 0 <= i < j < v.len() ==> v[i] != v[j]
}

proof fn lemma_without(v: Seq<Seq<char>>, p: Seq<char>, n: int)
    requires
        0 <= n <= v.len(),
    ensures
        forall|i: int| 0 <= i < without(v, p, n).len() ==> #[trigger] without(v, p, n)[i] != p,
        forall|i: int| 0 <= i < without(v, p, n).len() ==> exists|k: int| 0 <= k < n && v[k] == #[trigger] without(v, p, n)[i],
        distinct(v) ==> distinct(without(v, p, n)),
        distinct(v) ==> forall|i: int, k: int| 0 <= i < without(v, p, n).len() && n <= k < v.len() ==> #[trigger] without(v, p, n)[i] != #[trigger] v[k],
    decreases n,
{
    if n > 0 {
        lemma_without(v, p, n - 1);
        let r = without(v, p, n - 1);
        if v[n - 1] != p {
            let w = r.push(v[n - 1]);
            assert forall|i: int| 0 <= i < w.len() implies #[trigger] w[i] != p by {
                if i < r.len() {
                    assert(w[i] == r[i]);
                }
            }
            assert forall|i: int| 0 <= i < w.len() implies exists|k: int| 0 <= k < n && v[k] == #[trigger] w[i] by {
                if i < r.len() {
                    assert(w[i] == r[i]);
                    let k = choose|k: int| 0 <= k < n - 1 && v[k] == #[trigger] r[i];
                    assert(v[k] == w[i]);
                } else {
                    assert(v[n - 1] == w[i]);
                }
            }
            if distinct(v) {
                assert forall|i: int, j: int| 0 <= i < j < w.len() implies w[i] != w[j] by {
                    if j < r.len() {
                        assert(w[i] == r[i] && w[j] == r[j]);
                    } else {
                        assert(w[i] == r[i] && w[j] == v[n - 1]);
                        assert(r[i] != v[n - 1]);
                    }
                }
                assert forall|i: int, k: int| 0 <= i < w.len() && n <= k < v.len() implies #[trigger] w[i] != #[trigger] v[k] by {
                    if i < r.len() {
                        assert(w[i] == r[i]);
                    } else {
                        assert(w[i] == v[n - 1]);
                    }
                }
            }
        }
    }
}

/// Opening `p` puts it first in the recent files list, once; the list holds
/// at most five entries, each one of the former entries or `p`; a list
/// without repeats keeps none.
pub proof fn lemma_with_recent(v: Seq<Seq<char>>, p: Seq<char>)
    requires
        p.len() > 0,
    ensures
        with_recent(v, p).len() <= max_recent(),
        with_recent(v, p)[0] == p,
        forall|i: int| 1 <= i < with_recent(v, p).len() ==> #[trigger] with_recent(v, p)[i] != p,
        forall|i: int| 1 <= i < with_recent(v, p).len() ==> v.contains(#[trigger] with_recent(v, p)[i]),
        distinct(v) ==> distinct(with_recent(v, p)),
{
    lemma_without(v, p, v.len() as int);
    let r = without(v, p, v.len() as int);
    let w = seq![p] + r;
    let x = with_recent(v, p);
    assert forall|i: int| 1 <= i < x.len() implies #[trigger] x[i] != p && v.contains(x[i]) by {
        assert(x[i] == w[i]);
        assert(w[i] == r[i - 1]);
        let k = choose|k: int| 0 <= k < v.len() && v[k] == #[trigger] r[i - 1];
        assert(v[k] == x[i]);
    }
    if distinct(v) {
        assert forall|i: int, j: int| 0 <= i < j < x.len() implies x[i] != x[j] by {
            assert(x[i] == w[i] && x[j] == w[j]);
            if i > 0 {
                assert(w[i] == r[i - 1] && w[j] == r[j - 1]);
            } else {
                assert(w[j] == r[j - 1]);
            }
        }
    }
}

/// Adds `path` to the front of the recent files list: see `with_recent`.
pub fn add_recent_file(files: &mut Vec<String>, path: &str)
    ensures
        names(final(files)@) == with_recent(names(old(files)@), path@),
{
    if path.is_empty() {
        return;
    }
    let p = path.to_owned();
    let ghost v = names(files@);
    let mut w: Vec<String> = Vec::new();
    w.push(p.clone());
    let mut i: usize = 0;
    while i < files.len()
        invariant
            i <= files@.len(),
            v == names(files@),
            p@ == path@,
            names(w@) == seq![p@] + without(v, p@, i as int),
        decreases files@.len() - i,
    {
        let same = files[i] == p;
        if !same {
            let f = files[i].clone();
            let ghost before = w@;
            w.push(f);
            assert(names(w@) =~= names(before).push(f@));
        }
        assert(names(w@) =~= seq![p@] + without(v, p@, i + 1));
        i = i + 1;
    }
    let mut r: Vec<String> = Vec::new();
    let mut j: usize = 0;
    while j < w.len() && j < 5
        invariant
            j <= w@.len(),
            j <= 5,
            names(r@) == names(w@).subrange(0, j as int),
        decreases w@.len() - j,
    {
        let f = w[j].clone();
        let ghost before = r@;
        r.push(f);
        assert(names(r@) =~= names(before).push(f@));
        assert(names(w@).subrange(0, j + 1) =~= names(w@).subrange(0, j as int).push(w@[j as int]@));
        j = j + 1;
    }
    assert(names(w@).subrange(0, w@.len() as int) =~= names(w@));
    *files = r;
}

/// Empties the recent files list.
pub fn clear_recent_files(files: &mut Vec<String>)
    ensures
        final(files)@.len() == 0,
{
    *files = Vec::new();
}

/// A copy of the recent files list.
pub fn recent_files(files: &Vec<String>) -> (r: Vec<String>)
    ensures
        names(r@) == names(files@),
{
    let mut r: Vec<String> = Vec::new();
    let mut i: usize = 0;
    while i < files.len()
        invariant
            i <= files@.len(),
            names(r@) == names(files@).subrange(0, i as int),
        decreases files@.len() - i,
    {
        let f = files[i].clone();
        let ghost before = r@;
        r.push(f);
        assert(names(r@) =~= names(before).push(f@));
        assert(names(files@).subrange(0, i + 1) =~= names(files@).subrange(0, i as int).push(files@[i as int]@));
        i = i + 1;
    }
    assert(names(files@).subrange(0, files@.len() as int) =~= names(files@));
    r
}

/// The platform the editor runs on, for its default fonts.
#[derive(Clone, Copy, Debug, PartialEq, Eq, Structural)]
pub enum Platform {
    Windows,
    MacOs,
    Other,
}

/// The default text font of a platform.
pub fn default_text_font(platform: Platform) -> (r: String)
    ensures
        r@ == match platform {
            Platform::Windows => "Segoe UI"@,
            Platform::MacOs => ".AppleSystemUIFont"@,
            Platform::Other => "Liberation Sans"@,
        },
{
    match platform {
        Platform::Windows => "Segoe UI".to_owned(),
        Platform::MacOs => ".AppleSystemUIFont".to_owned(),
        Platform::Other => "Liberation Sans".to_owned(),
    }
}

/// The default code font of a platform.
pub fn default_code_font(platform: Platform) -> (r: String)
    ensures
        r@ == match platform {
            Platform::Windows => "Consolas"@,
            Platform::MacOs => "Menlo"@,
            Platform::Other => "Liberation Mono"@,
        },
{
    match platform {
        Platform::Windows => "Consolas".to_owned(),
        Platform::MacOs => "Menlo".to_owned(),
        Platform::Other => "Liberation Mono".to_owned(),
    }
}

} // verus!
