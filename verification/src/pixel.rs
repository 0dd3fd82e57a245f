//! One coloured point of the map and its nine-character text form
//! `xxxyyyccc`: three digits of `x`, three of `y`, and the colour in three
//! characters (a sign and two digits when it is negative).
use vstd::prelude::*;

use crate::text::{
    all_ascii, all_digits, byte_len, byte_slice, collect_chars, digit_char, digit_value,
    digits_value, find_boundary, format03, is_ascii_digit, is_boundary, lemma_ascii_boundary,
    lemma_ascii_byte_len, lemma_byte_len_take_le, lemma_byte_len_take_mono,
    lemma_byte_len_take_succ, lemma_char_index_unique, lemma_format03_neg, lemma_format03_nonneg,
    parse_decimal, parse_int, push_char, push_format03, utf8_width,
};

verus! {

/// A point of a leaf's grid: its colour and its coordinates in the grid.
#[derive(Debug, Clone, Copy, PartialEq, Eq, Structural)]
pub struct Pixel {
    pub color: i8,
    pub x: u8,
    pub y: u8,
}

/// The pixel that a fresh grid is filled with: colour -1 at (0, 0).
pub open spec fn blank_pixel() -> Pixel {
    Pixel { color: -1i8, x: 0u8, y: 0u8 }
}

impl Default for Pixel {
    fn default() -> (p: Self)
        ensures
            p == blank_pixel(),
    {
        Pixel { color: -1, x: 0, y: 0 }
    }
}

/// The text of a pixel: `x`, `y` and the colour, each as `format!("{:03}", ..)`
/// writes it, and a newline.
pub open spec fn pixel_text(p: Pixel) -> Seq<char> {
    format03(p.x as int) + format03(p.y as int) + format03(p.color as int) + seq!['\n']
}

/// What `Pixel::from_string` reads from `t`: exactly nine bytes, the first
/// three an `u8` for `x`, the next three an `u8` for `y`, the last three an `i8`
/// for the colour.
pub open spec fn pixel_from_text(t: Seq<char>) -> Option<Pixel> {
    if byte_len(t) != 9 {
        None
    } else {
        match parse_int(byte_slice(t, 0, 3), 0, 255) {
            None => None,
            Some(x) => match parse_int(byte_slice(t, 3, 6), 0, 255) {
                None => None,
                Some(y) => match parse_int(byte_slice(t, 6, 9), -128, 127) {
                    None => None,
                    Some(c) => Some(Pixel { color: c as i8, x: x as u8, y: y as u8 }),
                },
            },
        }
    }
}

/// The nine-byte texts whose byte offsets 3 or 6 fall inside a character at the
/// moment they are cut there: reading those fails in `str` slicing.
pub open spec fn pixel_text_panics(t: Seq<char>) -> bool {
    &&& byte_len(t) == 9
    &&& (!is_boundary(t, 3) || (parse_int(byte_slice(t, 0, 3), 0, 255) is Some && !is_boundary(
        t,
        6,
    )))
}

impl Pixel {
    /// Reads a pixel from its nine-character text `xxxyyyccc`; `None` when the
    /// text is not nine bytes long or a part is not a number in range.
    pub fn from_string(txt: &str) -> (r: Option<Self>)
        requires
            !pixel_text_panics(txt@),
        ensures
            r == pixel_from_text(txt@),
    {
        let chars = collect_chars(txt);
        let ghost t = chars@;
        let mut total: usize = 0;
        let mut k: usize = 0;
        while k < chars.len() && total <= 9
            invariant
                0 <= k <= chars.len(),
                t == chars@,
                total == byte_len(t.take(k as int)),
                k > 0 ==> byte_len(t.take(k - 1)) <= 9,
            decreases chars.len() - k,
        {
            proof {
                lemma_byte_len_take_succ(t, k as int);
            }
            total = total + utf8_width(chars[k]);
            k = k + 1;
        }
        proof {
            lemma_byte_len_take_le(t, k as int);
            if k == chars.len() {
                assert(t.take(k as int) =~= t);
            }
        }
        if total != 9 {
            return None;
        }
        assert(k == chars.len());
        proof {
            assert(t.take(0) =~= Seq::<char>::empty());
            lemma_char_index_unique(t, 0, 0);
            lemma_char_index_unique(t, 9, t.len() as int);
        }
        let k3 = match find_boundary(&chars, 3) {
            Some(j) => j,
            None => return None,
        };
        let x = match parse_decimal(&chars, 0, k3, 0, 255) {
            Some(v) => v,
            None => return None,
        };
        let k6 = match find_boundary(&chars, 6) {
            Some(j) => j,
            None => return None,
        };
        proof {
            if k3 > k6 {
                lemma_byte_len_take_mono(t, k6 as int, k3 as int);
            }
        }
        let y = match parse_decimal(&chars, k3, k6, 0, 255) {
            Some(v) => v,
            None => return None,
        };
        let c = match parse_decimal(&chars, k6, chars.len(), -128, 127) {
            Some(v) => v,
            None => return None,
        };
        Some(Pixel { color: c as i8, x: x as u8, y: y as u8 })
    }

    /// The text of the pixel, `xxxyyyccc` and a newline, as
    /// `format!("{:03}{:03}{:03}\n", x, y, color)` writes it.
    pub fn to_string(&self) -> (s: String)
        ensures
            s@ == pixel_text(*self),
    {
        let mut s = String::new();
        push_format03(&mut s, self.x as i32);
        push_format03(&mut s, self.y as i32);
        push_format03(&mut s, self.color as i32);
        push_char(&mut s, '\n');
        s
    }
}

// ---------------------------------------------------------------------------
// The text form reads back
// ---------------------------------------------------------------------------

proof fn lemma_digit_char(d: int)
    requires
        0 <= d < 10,
    ensures
        is_ascii_digit(digit_char(d)),
        digit_value(digit_char(d)) == d,
        (digit_char(d) as u32) <= 0x7F,
        digit_char(d) != '-',
        digit_char(d) != '+',
        digit_char(d) != '\n',
{
}

/// `format03(v)` consists of ASCII characters, none of them a newline.
pub proof fn lemma_format03_ascii(v: int)
    requires
        -1000 < v < 1000,
    ensures
        all_ascii(format03(v)),
        forall|i: int| 0 <= i < format03(v).len() ==> #[trigger] format03(v)[i] != '\n',
        forall|i: int|
            0 <= i < format03(v).len() ==> (is_ascii_digit(#[trigger] format03(v)[i]) || format03(
                v,
            )[i] == '-'),
        v >= -99 ==> format03(v).len() == 3,
        v < -99 ==> format03(v).len() == 4,
{
    if v >= 0 {
        lemma_format03_nonneg(v);
        lemma_digit_char(v / 100);
        lemma_digit_char((v / 10) % 10);
        lemma_digit_char(v % 10);
    } else {
        lemma_format03_neg(v);
        lemma_digit_char((-v) / 100);
        lemma_digit_char(((-v) / 10) % 10);
        if -v < 100 {
            lemma_digit_char((-v) / 10);
        }
        lemma_digit_char((-v) % 10);
    }
}

proof fn lemma_digits_value3(a: char, b: char, c: char)
    requires
        is_ascii_digit(a),
        is_ascii_digit(b),
        is_ascii_digit(c),
    ensures
        digits_value(seq![a, b, c]) == (digit_value(a) * 10 + digit_value(b)) * 10 + digit_value(c),
{
    assert(seq![a, b, c].drop_last() =~= seq![a, b]);
    lemma_digits_value2(a, b);
    assert(seq![a, b, c].last() == c);
}

proof fn lemma_digits_value2(a: char, b: char)
    requires
        is_ascii_digit(a),
        is_ascii_digit(b),
    ensures
        digits_value(seq![a, b]) == digit_value(a) * 10 + digit_value(b),
{
    assert(seq![a, b].drop_last() =~= seq![a]);
    assert(seq![a].drop_last() =~= Seq::<char>::empty());
    assert(digits_value(Seq::<char>::empty()) == 0);
    assert(seq![a].last() == a);
    assert(digits_value(seq![a]) == digit_value(a));
    assert(seq![a, b].last() == b);
}

/// `str::parse` reads back what `format!("{:03}", v)` writes, for three-character results.
pub proof fn lemma_parse_format03(v: int, lo: int, hi: int)
    requires
        -99 <= v < 1000,
        lo <= v <= hi,
        lo <= 0,
    ensures
        parse_int(format03(v), lo, hi) == Some(v),
{
    if v >= 0 {
        lemma_format03_nonneg(v);
        let (a, b, c) = (digit_char(v / 100), digit_char((v / 10) % 10), digit_char(v % 10));
        lemma_digit_char(v / 100);
        lemma_digit_char((v / 10) % 10);
        lemma_digit_char(v % 10);
        lemma_digits_value3(a, b, c);
        assert(all_digits(seq![a, b, c]));
    } else {
        lemma_format03_neg(v);
        let m = -v;
        let (a, b) = (digit_char(m / 10), digit_char(m % 10));
        lemma_digit_char(m / 10);
        lemma_digit_char(m % 10);
        lemma_digits_value2(a, b);
        assert(format03(v).drop_first() =~= seq![a, b]);
        assert(all_digits(seq![a, b]));
    }
}

/// Law: the first nine characters of a pixel's text read back as the same
/// pixel, for every colour from -99 up (below -99 the colour takes four
/// characters).
pub proof fn lemma_pixel_text_roundtrip(p: Pixel)
    requires
        p.color >= -99,
    ensures
        pixel_from_text(pixel_text(p).take(9)) == Some(p),
        !pixel_text_panics(pixel_text(p).take(9)),
{
    let fx = format03(p.x as int);
    let fy = format03(p.y as int);
    let fc = format03(p.color as int);
    lemma_format03_ascii(p.x as int);
    lemma_format03_ascii(p.y as int);
    lemma_format03_ascii(p.color as int);
    let t = pixel_text(p).take(9);
    assert(t =~= fx + fy + fc);
    assert(all_ascii(t)) by {
        assert forall|i: int| 0 <= i < t.len() implies (#[trigger] t[i] as u32) <= 0x7F by {
            if i < 3 {
                assert(t[i] == fx[i]);
            } else if i < 6 {
                assert(t[i] == fy[i - 3]);
            } else {
                assert(t[i] == fc[i - 6]);
            }
        }
    }
    lemma_ascii_byte_len(t);
    lemma_ascii_boundary(t, 0);
    lemma_ascii_boundary(t, 3);
    lemma_ascii_boundary(t, 6);
    lemma_ascii_boundary(t, 9);
    assert(byte_slice(t, 0, 3) =~= fx);
    assert(byte_slice(t, 3, 6) =~= fy);
    assert(byte_slice(t, 6, 9) =~= fc);
    lemma_parse_format03(p.x as int, 0, 255);
    lemma_parse_format03(p.y as int, 0, 255);
    lemma_parse_format03(p.color as int, -128, 127);
}

} // verus!
