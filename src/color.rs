use vstd::prelude::*;

verus! {

broadcast use vstd::string::is_ascii_spec_bytes;

/// An RGB color with three 8-bit channels.
#[derive(Clone, Copy, Debug, PartialEq, Eq, Structural, Hash)]
pub struct Color {
    pub r: u8,
    pub g: u8,
    pub b: u8,
}

/// The channel of `c` selected by `ch` (0 = red, 1 = green, otherwise blue).
pub open spec fn channel(c: Color, ch: int) -> int {
    if ch == 0 {
        c.r as int
    } else if ch == 1 {
        c.g as int
    } else {
        c.b as int
    }
}

/// The color as the 24-bit integer `0xRRGGBB`.
pub open spec fn color_key(c: Color) -> int {
    c.r as int * 65536 + c.g as int * 256 + c.b as int
}

/// Squared Euclidean distance between two colors in RGB space.
pub open spec fn sq_dist(a: Color, b: Color) -> int {
    (a.r - b.r) * (a.r - b.r) + (a.g - b.g) * (a.g - b.g) + (a.b - b.b) * (a.b - b.b)
}

impl Color {
    pub fn new(r: u8, g: u8, b: u8) -> (c: Color)
        ensures
            c.r == r && c.g == g && c.b == b,
    {
        Color { r, g, b }
    }

    /// The color as the 24-bit integer `0xRRGGBB`.
    pub fn to_key(&self) -> (k: u32)
        ensures
            k as int == color_key(*self),
            k < 0x100_0000,
    {
        self.r as u32 * 65536 + self.g as u32 * 256 + self.b as u32
    }

    /// The color whose 24-bit integer `0xRRGGBB` is `k`.
    pub fn from_key(k: u32) -> (c: Color)
        requires
            k < 0x100_0000,
        ensures
            color_key(c) == k as int,
    {
        let r = (k / 65536) as u8;
        let g = ((k / 256) % 256) as u8;
        let b = (k % 256) as u8;
        Color { r, g, b }
    }
}

/// Two colors with the same 24-bit key are the same color.
pub proof fn lemma_color_key_injective(a: Color, b: Color)
    ensures
        color_key(a) == color_key(b) <==> a == b,
        0 <= color_key(a) < 0x100_0000,
{
}

/// Squared Euclidean distance between two colors.
pub fn squared_distance(a: Color, b: Color) -> (d: u32)
    ensures
        d as int == sq_dist(a, b),
{
    let dr: i32 = a.r as i32 - b.r as i32;
    let dg: i32 = a.g as i32 - b.g as i32;
    let db: i32 = a.b as i32 - b.b as i32;
    assert(dr * dr <= 65025 && dg * dg <= 65025 && db * db <= 65025) by (nonlinear_arith)
        requires
            -255 <= dr <= 255,
            -255 <= dg <= 255,
            -255 <= db <= 255,
    ;
    assert(dr * dr >= 0 && dg * dg >= 0 && db * db >= 0) by (nonlinear_arith);
    (dr * dr + dg * dg + db * db) as u32
}

/// The distance is symmetric, never negative, and zero exactly on equal colors.
pub proof fn lemma_distance_symmetric_identity(a: Color, b: Color)
    ensures
        sq_dist(a, b) == sq_dist(b, a),
        sq_dist(a, b) >= 0,
        sq_dist(a, a) == 0,
        sq_dist(a, b) == 0 <==> a == b,
{
    assert((a.r - b.r) * (a.r - b.r) == (b.r - a.r) * (b.r - a.r)) by (nonlinear_arith);
    assert((a.g - b.g) * (a.g - b.g) == (b.g - a.g) * (b.g - a.g)) by (nonlinear_arith);
    assert((a.b - b.b) * (a.b - b.b) == (b.b - a.b) * (b.b - a.b)) by (nonlinear_arith);
    assert((a.r - b.r) * (a.r - b.r) >= 0) by (nonlinear_arith);
    assert((a.g - b.g) * (a.g - b.g) >= 0) by (nonlinear_arith);
    assert((a.b - b.b) * (a.b - b.b) >= 0) by (nonlinear_arith);
    if sq_dist(a, b) == 0 {
        assert((a.r - b.r) * (a.r - b.r) == 0);
        assert(a.r == b.r) by (nonlinear_arith)
            requires
                (a.r - b.r) * (a.r - b.r) == 0,
        ;
        assert(a.g == b.g) by (nonlinear_arith)
            requires
                (a.g - b.g) * (a.g - b.g) == 0,
        ;
        assert(a.b == b.b) by (nonlinear_arith)
            requires
                (a.b - b.b) * (a.b - b.b) == 0,
        ;
    }
}

/// The uppercase hexadecimal digit for `v` in `0..16`.
pub open spec fn hex_digit(v: int) -> char {
    if v < 10 {
        ((v + 48) as u8) as char
    } else {
        ((v + 55) as u8) as char
    }
}

/// The text `#RRGGBB` of a color, with uppercase digits.
pub open spec fn hex_text(r: u8, g: u8, b: u8) -> Seq<char> {
    seq![
        '#',
        hex_digit(r as int / 16),
        hex_digit(r as int % 16),
        hex_digit(g as int / 16),
        hex_digit(g as int % 16),
        hex_digit(b as int / 16),
        hex_digit(b as int % 16),
    ]
}

/// The value of a hexadecimal digit, either case, or -1 for another character.
pub open spec fn digit_value(c: char) -> int {
    if '0' <= c <= '9' {
        c as int - 48
    } else if 'A' <= c <= 'F' {
        c as int - 55
    } else if 'a' <= c <= 'f' {
        c as int - 87
    } else {
        -1
    }
}

/// The value of a run of hexadecimal digits, most significant first.
pub open spec fn hex_run_value(d: Seq<char>) -> int
    decreases d.len(),
{
    if d.len() == 0 {
        0
    } else {
        hex_run_value(d.drop_last()) * 16 + digit_value(d.last())
    }
}

/// Whether every character of `d` is a hexadecimal digit.
pub open spec fn all_hex_digits(d: Seq<char>) -> bool {
    forall|i: int| 0 <= i < d.len() ==> digit_value(#[trigger] d[i]) >= 0
}

/// The digits of a number text: without its one leading `+`, if any.
pub open spec fn unsigned_digits(t: Seq<char>) -> Seq<char> {
    if t.len() > 0 && t[0] == '+' {
        t.subrange(1, t.len() as int)
    } else {
        t
    }
}

/// Whether `t` is a base-16 number that fits in 32 bits: an optional `+`,
/// then at least one digit of either case.
pub open spec fn is_hex_u32(t: Seq<char>) -> bool {
    let d = unsigned_digits(t);
    &&& d.len() >= 1
    &&& all_hex_digits(d)
    &&& hex_run_value(d) < 0x1_0000_0000
}

/// Whether UTF-8 encodes `c` in one byte.
pub open spec fn is_one_byte(c: char) -> bool {
    '\0' <= c <= '\u{7f}'
}

/// Whether `s` is a one-byte first character followed by a base-16 number
/// that fits in 32 bits.
pub open spec fn is_hex_color(s: Seq<char>) -> bool {
    &&& s.len() >= 1
    &&& is_one_byte(s[0])
    &&& is_hex_u32(s.subrange(1, s.len() as int))
}

/// The channels of the 24 low bits of `v`: bits 16..24, 8..16 and 0..8.
pub open spec fn split_channels(v: int) -> (u8, u8, u8) {
    (((v / 65536) % 256) as u8, ((v / 256) % 256) as u8, (v % 256) as u8)
}

/// The channels that a text accepted by `is_hex_color` spells.
pub open spec fn hex_channels(s: Seq<char>) -> (u8, u8, u8) {
    split_channels(hex_run_value(unsigned_digits(s.subrange(1, s.len() as int))))
}

proof fn lemma_run_prefix_bound(d: Seq<char>, m: int)
    requires
        0 <= m <= d.len(),
        all_hex_digits(d),
    ensures
        0 <= hex_run_value(d.subrange(0, m)) <= hex_run_value(d),
    decreases d.len(),
{
    if d.len() > 0 {
        let e = d.drop_last();
        assert(all_hex_digits(e)) by {
            assert forall|i: int| 0 <= i < e.len() implies digit_value(#[trigger] e[i]) >= 0 by {
                assert(e[i] == d[i]);
            }
        }
        assert(digit_value(d[d.len() - 1]) >= 0);
        if m < d.len() {
            lemma_run_prefix_bound(e, m);
            assert(e.subrange(0, m) =~= d.subrange(0, m));
        } else {
            assert(d.subrange(0, m) =~= d);
            lemma_run_prefix_bound(e, e.len() as int);
            assert(e.subrange(0, e.len() as int) =~= e);
        }
    }
}

/// Relies on String::push: appends one character to the string.
#[verifier::external_body]
fn push_char(s: &mut String, c: char)
    ensures
        final(s)@ == old(s)@.push(c),
{
    s.push(c)
}

fn hex_digit_char(v: u8) -> (c: char)
    requires
        v < 16,
    ensures
        c == hex_digit(v as int),
{
    if v < 10 {
        (v + 48) as char
    } else {
        (v + 55) as char
    }
}

/// Renders the channels as `#RRGGBB` with uppercase, zero-padded digits.
pub fn rgb_to_hex(r: u8, g: u8, b: u8) -> (s: String)
    ensures
        s@ == hex_text(r, g, b),
{
    let mut s = String::new();
    push_char(&mut s, '#');
    push_char(&mut s, hex_digit_char(r / 16));
    push_char(&mut s, hex_digit_char(r % 16));
    push_char(&mut s, hex_digit_char(g / 16));
    push_char(&mut s, hex_digit_char(g % 16));
    push_char(&mut s, hex_digit_char(b / 16));
    push_char(&mut s, hex_digit_char(b % 16));
    assert(s@ =~= hex_text(r, g, b));
    s
}

/// Renders a pixel's color as `#RRGGBB`.
pub fn pixel_to_hex(pixel: &Color) -> (s: String)
    ensures
        s@ == hex_text(pixel.r, pixel.g, pixel.b),
{
    rgb_to_hex(pixel.r, pixel.g, pixel.b)
}

fn digit_of_byte(b: u8) -> (v: i32)
    ensures
        v as int == digit_value(b as char),
{
    if 48 <= b && b <= 57 {
        b as i32 - 48
    } else if 65 <= b && b <= 70 {
        b as i32 - 55
    } else if 97 <= b && b <= 102 {
        b as i32 - 87
    } else {
        -1
    }
}

/// Reads a color from text: the characters after the first one are read
/// as a base-16 number (an optional `+`, then digits of either case) that
/// fits in 32 bits, whose 24 low bits give red, green and blue. Any other
/// text, and one whose first character takes more than one byte, reads as
/// black.
pub fn hex_to_rgb(hex: &str) -> (c: (u8, u8, u8))
    ensures
        is_hex_color(hex@) ==> c == hex_channels(hex@),
        !is_hex_color(hex@) ==> c == (0u8, 0u8, 0u8),
{
    if !hex.is_ascii() {
        proof {
            if is_hex_color(hex@) {
                let t = hex@.subrange(1, hex@.len() as int);
                let d = unsigned_digits(t);
                assert(all_hex_digits(d));
                assert forall|i: int| 0 <= i < hex@.len() implies '\0' <= #[trigger] hex@[i]
                    <= '\u{7f}' by {
                    if i > 0 {
                        assert(t[i - 1] == hex@[i]);
                        if t.len() > 0 && t[0] == '+' {
                            if i > 1 {
                                assert(d[i - 2] == t[i - 1]);
                                assert(digit_value(d[i - 2]) >= 0);
                                assert(hex@[i] <= 'f');
                            } else {
                                assert(hex@[i] == '+');
                            }
                        } else {
                            assert(d[i - 1] == t[i - 1]);
                            assert(digit_value(d[i - 1]) >= 0);
                            assert(hex@[i] <= 'f');
                        }
                    } else {
                        assert(hex@[0] <= '\u{7f}');
                    }
                }
                assert(vstd::string::is_ascii(hex));
            }
        }
        return (0, 0, 0);
    }
    let bytes = hex.as_bytes();
    let n = bytes.len();
    assert(n == hex@.len());
    if n < 2 {
        proof {
            if hex@.len() == 1 {
                assert(hex@.subrange(1, 1).len() == 0);
            }
        }
        return (0, 0, 0);
    }
    let ghost t = hex@.subrange(1, n as int);
    let mut start: usize = 1;
    if bytes[1] == 43 {
        assert(hex@[1] as u8 as char == hex@[1]);
        start = 2;
    } else {
        assert(hex@[1] as u8 as char == hex@[1]);
    }
    let ghost d = hex@.subrange(start as int, n as int);
    assert(d =~= unsigned_digits(t));
    if start >= n {
        return (0, 0, 0);
    }
    let mut v: u64 = 0;
    let mut i: usize = start;
    while i < n
        invariant
            1 <= start <= i <= n,
            n == hex@.len(),
            t == hex@.subrange(1, n as int),
            d == unsigned_digits(t),
            bytes@.len() == n,
            d == hex@.subrange(start as int, n as int),
            forall|k: int| 0 <= k < n ==> bytes@[k] == hex@[k] as u8,
            vstd::string::is_ascii(hex),
            all_hex_digits(d.subrange(0, i - start)),
            v as int == hex_run_value(d.subrange(0, i - start)),
            v < 0x1_0000_0000,
        decreases n - i,
    {
        let dv = digit_of_byte(bytes[i]);
        assert(hex@[i as int] as u8 as char == hex@[i as int]);
        assert(d[i - start] == hex@[i as int]);
        if dv < 0 {
            proof {
                assert(digit_value(d[i - start]) < 0);
                assert(!all_hex_digits(d));
            }
            return (0, 0, 0);
        }
        let ghost p = d.subrange(0, i + 1 - start);
        assert(p.drop_last() =~= d.subrange(0, i - start));
        assert(p.last() == d[i - start]);
        assert(all_hex_digits(p)) by {
            assert forall|k: int| 0 <= k < p.len() implies digit_value(#[trigger] p[k]) >= 0 by {
                if k < p.len() - 1 {
                    assert(p[k] == d.subrange(0, i - start)[k]);
                }
            }
        }
        v = v * 16 + dv as u64;
        assert(v == hex_run_value(p));
        if v >= 0x1_0000_0000 {
            proof {
                if all_hex_digits(d) {
                    lemma_run_prefix_bound(d, i + 1 - start);
                }
            }
            return (0, 0, 0);
        }
        i = i + 1;
    }
    assert(d.subrange(0, n - start) =~= d);
    (((v / 65536) % 256) as u8, ((v / 256) % 256) as u8, (v % 256) as u8)
}

} // verus!
