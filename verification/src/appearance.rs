//! The GUI's own glass appearance: window opacity, glass tint, accent.

use vstd::prelude::*;
use vstd::utf8::{encode_utf8, is_char_boundary};
use crate::text::{chars_of, dec, dec_chars, push_all, push_str, string_of, sub_chars, trim, trim_chars};

verus! {

/// The appearance settings.
pub struct Appearance {
    /// Window opacity, 0–100 (larger values count as 100).
    pub opacity: u8,
    /// Glass tint colour, `#rrggbb`.
    pub glass: String,
    /// Accent colour, `#rrggbb`.
    pub accent: String,
}

impl Default for Appearance {
    /// The built-in look: 92% opacity, tint `#14141a`, accent `#3584e4`.
    fn default() -> (r: Self)
        ensures
            r.opacity == 92,
            r.glass@ == "#14141a"@,
            r.accent@ == "#3584e4"@,
    {
        Appearance {
            opacity: 92,
            glass: string_of(&chars_of("#14141a")),
            accent: string_of(&chars_of("#3584e4")),
        }
    }
}

/// `s` without its leading `c`s (`str::trim_start_matches` with a char).
pub open spec fn strip_leading(s: Seq<char>, c: char) -> Seq<char>
    decreases s.len(),
{
    if s.len() > 0 && s[0] == c {
        strip_leading(s.drop_first(), c)
    } else {
        s
    }
}

/// The colour text of `hex`: trimmed, leading `#`s removed.
pub open spec fn hex_text(hex: Seq<char>) -> Seq<char> {
    strip_leading(trim(hex), '#')
}

/// The UTF-8 bytes of the colour text.
pub open spec fn hex_bytes(hex: Seq<char>) -> Seq<u8> {
    encode_utf8(hex_text(hex))
}

/// Whether cutting the colour text into three two-byte pieces stays on
/// character boundaries (the colour cannot be read otherwise).
pub open spec fn hex_cuttable(hex: Seq<char>) -> bool {
    hex_bytes(hex).len() == 6 ==> is_char_boundary(hex_bytes(hex), 2) && is_char_boundary(
        hex_bytes(hex),
        4,
    )
}

/// The value of a hexadecimal digit byte.
pub open spec fn hex_digit(b: u8) -> Option<int> {
    if 48 <= b <= 57 {
        Some(b - 48)
    } else if 97 <= b <= 102 {
        Some(b - 87)
    } else if 65 <= b <= 70 {
        Some(b - 55)
    } else {
        None
    }
}

/// `u8::from_str_radix(_, 16)` on the two bytes `b0 b1`: an optional `+`,
/// then hexadecimal digits.
pub open spec fn hex_pair(b0: u8, b1: u8) -> Option<u8> {
    if b0 == 43 {
        match hex_digit(b1) {
            Some(v) => Some(v as u8),
            None => None,
        }
    } else {
        match (hex_digit(b0), hex_digit(b1)) {
            (Some(a), Some(c)) => Some((16 * a + c) as u8),
            _ => None,
        }
    }
}

/// The colour `hex` as red, green, blue; the built-in tint (20, 20, 26)
/// when it is not six bytes of three readable pairs.
pub open spec fn parse_hex_spec(hex: Seq<char>) -> (u8, u8, u8) {
    let b = hex_bytes(hex);
    if b.len() == 6 {
        match (hex_pair(b[0], b[1]), hex_pair(b[2], b[3]), hex_pair(b[4], b[5])) {
            (Some(r), Some(g), Some(bl)) => (r, g, bl),
            _ => (20, 20, 26),
        }
    } else {
        (20, 20, 26)
    }
}

fn hex_digit_of(b: u8) -> (r: Option<u8>)
    ensures
        match r {
            Some(v) => hex_digit(b) == Some(v as int),
            None => hex_digit(b) is None,
        },
{
    if 48 <= b && b <= 57 {
        Some(b - 48)
    } else if 97 <= b && b <= 102 {
        Some(b - 87)
    } else if 65 <= b && b <= 70 {
        Some(b - 55)
    } else {
        None
    }
}

fn hex_pair_of(b0: u8, b1: u8) -> (r: Option<u8>)
    ensures
        r == hex_pair(b0, b1),
{
    if b0 == 43 {
        hex_digit_of(b1)
    } else {
        match (hex_digit_of(b0), hex_digit_of(b1)) {
            (Some(a), Some(c)) => Some(16 * a + c),
            _ => None,
        }
    }
}

/// Reads a `#rrggbb` colour.
pub fn parse_hex(hex: &str) -> (r: (u8, u8, u8))
    requires
        hex_cuttable(hex@),
    ensures
        r == parse_hex_spec(hex@),
{
    let t = trim_chars(&chars_of(hex));
    let mut i: usize = 0;
    assert(t@.skip(0) =~= t@);
    while i < t.len() && t[i] == '#'
        invariant
            i <= t.len(),
            strip_leading(t@, '#') == strip_leading(t@.skip(i as int), '#'),
        decreases t.len() - i,
    {
        proof {
            assert(t@.skip(i as int).drop_first() =~= t@.skip(i + 1));
        }
        i = i + 1;
    }
    let h = string_of(&sub_chars(&t, i, t.len()));
    proof {
        assert(h@ =~= t@.skip(i as int));
        if i < t.len() {
            assert(h@[0] != '#');
        }
        assert(h@ == hex_text(hex@));
    }
    let b = h.as_str().as_bytes();
    if b.len() == 6 {
        match (hex_pair_of(b[0], b[1]), hex_pair_of(b[2], b[3]), hex_pair_of(b[4], b[5])) {
            (Some(r), Some(g), Some(bl)) => (r, g, bl),
            _ => (20, 20, 26),
        }
    } else {
        (20, 20, 26)
    }
}

/// The alpha value `n / 100` with three decimals (`n <= 100`).
pub open spec fn alpha_text(n: nat) -> Seq<char> {
    if n >= 100 {
        "1.000"@
    } else {
        "0."@ + seq![
            crate::text::digit_char((n / 10) as int),
            crate::text::digit_char((n % 10) as int),
            '0',
        ]
    }
}

/// The stylesheet that applies `a`: the accent colours, and the window
/// tint at the chosen opacity.
pub open spec fn appearance_css_spec(a: Appearance) -> Seq<char> {
    let (r, g, b) = parse_hex_spec(a.glass@);
    let n = if a.opacity > 100 {
        100
    } else {
        a.opacity
    };
    "@define-color accent_bg_color "@ + a.accent@ + ";@define-color accent_color "@ + a.accent@
        + ";@define-color accent_fg_color #ffffff;window { background-color: rgba("@ + dec(r as nat)
        + seq![','] + dec(g as nat) + seq![','] + dec(b as nat) + seq![','] + alpha_text(n as nat)
        + "); }"@
}

/// The stylesheet that applies the live appearance `a` (the GUI loads it
/// into its appearance style provider).
pub fn apply_appearance(a: &Appearance) -> (r: String)
    requires
        hex_cuttable(a.glass@),
    ensures
        r@ == appearance_css_spec(*a),
{
    let (r, g, b) = parse_hex(a.glass.as_str());
    let n: u8 = if a.opacity > 100 {
        100
    } else {
        a.opacity
    };
    let mut v = chars_of("@define-color accent_bg_color ");
    push_str(&mut v, a.accent.as_str());
    push_str(&mut v, ";@define-color accent_color ");
    push_str(&mut v, a.accent.as_str());
    push_str(&mut v, ";@define-color accent_fg_color #ffffff;window { background-color: rgba(");
    push_all(&mut v, &dec_chars(r as u64));
    v.push(',');
    push_all(&mut v, &dec_chars(g as u64));
    v.push(',');
    push_all(&mut v, &dec_chars(b as u64));
    v.push(',');
    let ghost before = v@;
    if n >= 100 {
        push_str(&mut v, "1.000");
    } else {
        push_str(&mut v, "0.");
        v.push(((n / 10) + 48) as char);
        v.push(((n % 10) + 48) as char);
        v.push('0');
    }
    assert(v@ =~= before + alpha_text(n as nat));
    push_str(&mut v, "); }");
    string_of(&v)
}

} // verus!
