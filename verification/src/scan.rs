//! Reading a whole tile of pixel lines, `xxxyyyccc` and a newline each.
//!
//! The reader keeps, on each line, the characters that are numeric or `-`.
//! After each other character than a newline, when the UTF-8 length of what
//! the line kept is a non-zero multiple of three, it reads the next field from
//! the bytes `3 * i .. 3 * i + 3` (`i` counting the fields read on the line):
//! `x`, then `y` (both `u8`), then the colour (`i8`), leaving a field as it was
//! when its bytes are not a number in range. At a newline, a line that kept
//! exactly nine bytes gives its pixel; other lines give none.
use vstd::prelude::*;

use crate::chunk::Chunk;
use crate::pixel::{blank_pixel, pixel_text, lemma_format03_ascii, lemma_parse_format03, Pixel};
use crate::text::{
    all_ascii, byte_len, byte_slice, char_is_numeric, find_boundary, format03, is_ascii_digit,
    is_boundary, lemma_ascii_boundary, lemma_ascii_byte_len, lemma_byte_len_push,
    lemma_byte_len_take_le, numeric_char, parse_decimal, parse_int, utf8_width,
};

verus! {

/// Where the reader stands: the pixels read so far, the pixel of the current
/// line, the kept characters of the current line, which field comes next, and
/// whether a cut fell inside a character (which `str` slicing refuses).
pub ghost struct ScanState {
    pub pixels: Seq<Pixel>,
    pub pixel: Pixel,
    pub line: Seq<char>,
    pub param_index: nat,
    pub failed: bool,
}

pub open spec fn scan_start() -> ScanState {
    ScanState {
        pixels: Seq::empty(),
        pixel: blank_pixel(),
        line: Seq::empty(),
        param_index: 0,
        failed: false,
    }
}

/// The pixel after field `param_index` has been read from `part`.
pub open spec fn read_field(pixel: Pixel, param_index: nat, part: Seq<char>) -> Pixel {
    if param_index == 2 {
        match parse_int(part, -128, 127) {
            Some(v) => Pixel { color: v as i8, x: pixel.x, y: pixel.y },
            None => pixel,
        }
    } else {
        match parse_int(part, 0, 255) {
            Some(v) => if param_index == 0 {
                Pixel { color: pixel.color, x: v as u8, y: pixel.y }
            } else if param_index == 1 {
                Pixel { color: pixel.color, x: pixel.x, y: v as u8 }
            } else {
                pixel
            },
            None => pixel,
        }
    }
}

/// The characters a line keeps: digits and the other numeric characters, and `-`.
pub open spec fn kept_char(c: char) -> bool {
    is_ascii_digit(c) || numeric_char(c) || c == '-'
}

/// One character read.
pub open spec fn scan_step(st: ScanState, c: char) -> ScanState {
    if st.failed {
        st
    } else if c == '\n' {
        ScanState {
            pixels: if byte_len(st.line) == 9 {
                st.pixels.push(st.pixel)
            } else {
                st.pixels
            },
            pixel: blank_pixel(),
            line: Seq::empty(),
            param_index: 0,
            failed: false,
        }
    } else {
        let line = if kept_char(c) {
            st.line.push(c)
        } else {
            st.line
        };
        if line.len() > 0 && byte_len(line) % 3 == 0 {
            let a = (3 * st.param_index) as int;
            let b = a + 3;
            if !is_boundary(line, a) || !is_boundary(line, b) {
                ScanState {
                    pixels: st.pixels,
                    pixel: st.pixel,
                    line,
                    param_index: st.param_index,
                    failed: true,
                }
            } else {
                ScanState {
                    pixels: st.pixels,
                    pixel: read_field(st.pixel, st.param_index, byte_slice(line, a, b)),
                    line,
                    param_index: st.param_index + 1,
                    failed: false,
                }
            }
        } else {
            ScanState {
                pixels: st.pixels,
                pixel: st.pixel,
                line,
                param_index: st.param_index,
                failed: false,
            }
        }
    }
}

/// The reader after the characters `s`, from state `st`.
pub open spec fn scan_from(st: ScanState, s: Seq<char>) -> ScanState
    decreases s.len(),
{
    if s.len() == 0 {
        st
    } else {
        scan_step(scan_from(st, s.drop_last()), s.last())
    }
}

/// The reader after the characters `s`.
pub open spec fn scan(s: Seq<char>) -> ScanState {
    scan_from(scan_start(), s)
}

proof fn lemma_scan_take_succ(st: ScanState, s: Seq<char>, k: int)
    requires
        0 <= k < s.len(),
    ensures
        scan_from(st, s.take(k + 1)) == scan_step(scan_from(st, s.take(k)), s[k]),
{
    assert(s.take(k + 1).drop_last() =~= s.take(k));
}

/// Reading `s` then `t` is reading `s + t`.
pub proof fn lemma_scan_append(st: ScanState, s: Seq<char>, t: Seq<char>)
    ensures
        scan_from(st, s + t) == scan_from(scan_from(st, s), t),
    decreases t.len(),
{
    if t.len() == 0 {
        assert(s + t =~= s);
    } else {
        lemma_scan_append(st, s, t.drop_last());
        assert((s + t).drop_last() =~= s + t.drop_last());
    }
}

/// Once a cut has fallen inside a character, the reader stays failed.
pub proof fn lemma_scan_failed_stays(s: Seq<char>, k: int)
    requires
        0 <= k <= s.len(),
        scan(s.take(k)).failed,
    ensures
        scan(s).failed,
    decreases s.len(),
{
    if k == s.len() {
        assert(s.take(k) =~= s);
    } else {
        assert(s.drop_last().take(k) =~= s.take(k));
        lemma_scan_failed_stays(s.drop_last(), k);
    }
}

/// Reads the pixels of a tile text, one per line, as `scan` says; `None`
/// when a cut falls inside a character.
pub fn scan_pixels(txt: &str) -> (r: Option<Vec<Pixel>>)
    ensures
        r is None <==> scan(txt@).failed,
        r matches Some(pixels) ==> pixels@ == scan(txt@).pixels,
{
    let mut pixels: Vec<Pixel> = Vec::new();
    let mut pixel = Pixel::default();
    let mut line: Vec<char> = Vec::new();
    let mut line_bytes: u128 = 0;
    let mut param_index: u128 = 0;
    for c in it: txt.chars()
        invariant
            it.seq() == txt@,
            scan(txt@.take(it.index() as int)).pixels == pixels@,
            scan(txt@.take(it.index() as int)).pixel == pixel,
            scan(txt@.take(it.index() as int)).line == line@,
            scan(txt@.take(it.index() as int)).param_index == param_index,
            !scan(txt@.take(it.index() as int)).failed,
            line_bytes == byte_len(line@),
            3 * param_index <= line_bytes,
            line_bytes <= 4 * line@.len(),
    {
        let ghost k = it.index() as int;
        proof {
            lemma_scan_take_succ(scan_start(), txt@, k);
        }
        if c == '\n' {
            if line_bytes == 9 {
                pixels.push(pixel);
            }
            pixel = Pixel::default();
            line = Vec::new();
            line_bytes = 0;
            param_index = 0;
            assert(line@ =~= Seq::<char>::empty());
        } else {
            if char_is_numeric(c) || c == '-' {
                proof {
                    lemma_byte_len_push(line@, c);
                }
                line.push(c);
                let n = line.len();
                assert(n as int == line@.len());
                line_bytes = line_bytes + utf8_width(c) as u128;
            }
            if line.len() > 0 && line_bytes % 3 == 0 {
                let a = 3 * param_index;
                let b = a + 3;
                let ka = find_boundary(&line, a);
                let kb = find_boundary(&line, b);
                match (ka, kb) {
                    (Some(ka), Some(kb)) => {
                        proof {
                            if ka > kb {
                                crate::text::lemma_byte_len_take_mono(line@, kb as int, ka as int);
                            }
                            lemma_byte_len_take_le(line@, kb as int);
                        }
                        if param_index == 2 && line_bytes >= 9 {
                            match parse_decimal(&line, ka, kb, -128, 127) {
                                Some(v) => {
                                    pixel.color = v as i8;
                                },
                                None => {},
                            }
                        } else {
                            match parse_decimal(&line, ka, kb, 0, 255) {
                                Some(v) => {
                                    if param_index == 0 {
                                        pixel.x = v as u8;
                                    } else if param_index == 1 {
                                        pixel.y = v as u8;
                                    }
                                },
                                None => {},
                            }
                        }
                        param_index = param_index + 1;
                    },
                    _ => {
                        proof {
                            lemma_scan_failed_stays(txt@, k + 1);
                        }
                        return None;
                    },
                }
            }
        }
    }
    assert(txt@.take(txt@.len() as int) =~= txt@);
    Some(pixels)
}

impl Chunk {
    /// Reads the pixels of a tile text, one per line, as `scan` says.
    pub fn from_string(txt: &str) -> (pixels: Vec<Pixel>)
        requires
            !scan(txt@).failed,
        ensures
            pixels@ == scan(txt@).pixels,
    {
        match scan_pixels(txt) {
            Some(pixels) => pixels,
            None => Vec::new(),
        }
    }
}

} // verus!

verus! {

// ---------------------------------------------------------------------------
// A tile text reads back
// ---------------------------------------------------------------------------

/// The text of the pixels `ps`: each pixel's text in turn.
pub open spec fn pixels_text(ps: Seq<Pixel>) -> Seq<char>
    decreases ps.len(),
{
    if ps.len() == 0 {
        Seq::empty()
    } else {
        pixels_text(ps.drop_last()) + pixel_text(ps.last())
    }
}

/// The reader at the start of a line, having read `pixels`.
pub open spec fn line_start(pixels: Seq<Pixel>) -> ScanState {
    ScanState { pixels, pixel: blank_pixel(), line: Seq::empty(), param_index: 0, failed: false }
}

/// The pixel of a line once its first `k` characters of `pixel_text(p)` are read.
pub open spec fn partial_pixel(p: Pixel, k: int) -> Pixel {
    if k < 3 {
        blank_pixel()
    } else if k < 6 {
        Pixel { color: -1i8, x: p.x, y: 0u8 }
    } else if k < 9 {
        Pixel { color: -1i8, x: p.x, y: p.y }
    } else {
        p
    }
}

/// One step of the reader on an ASCII digit or `-` of an ASCII line whose
/// fields so far have all been read.
proof fn lemma_step_ascii(st: ScanState, c: char)
    requires
        !st.failed,
        is_ascii_digit(c) || c == '-',
        all_ascii(st.line),
        3 * st.param_index == st.line.len() - st.line.len() % 3,
    ensures
        ({
            let line = st.line.push(c);
            let n = line.len() as int;
            &&& n % 3 != 0 ==> scan_step(st, c) == ScanState { line, ..st }
            &&& n % 3 == 0 ==> scan_step(st, c) == ScanState {
                pixels: st.pixels,
                pixel: read_field(st.pixel, st.param_index, line.subrange(n - 3, n)),
                line,
                param_index: st.param_index + 1,
                failed: false,
            }
        }),
{
    let line = st.line.push(c);
    let n = line.len() as int;
    assert(all_ascii(line)) by {
        assert forall|i: int| 0 <= i < line.len() implies (#[trigger] line[i] as u32) <= 0x7F by {
            if i < st.line.len() {
                assert(line[i] == st.line[i]);
            }
        }
    }
    lemma_ascii_byte_len(line);
    if n % 3 == 0 {
        lemma_ascii_boundary(line, n - 3);
        lemma_ascii_boundary(line, n);
        assert(byte_slice(line, n - 3, n) =~= line.subrange(n - 3, n));
    }
}

#[verifier::rlimit(80)]
proof fn lemma_scan_pixel_prefix(ps: Seq<Pixel>, p: Pixel, k: int)
    requires
        p.color >= -99,
        0 <= k <= 9,
    ensures
        scan_from(line_start(ps), pixel_text(p).take(k)) == (ScanState {
            pixels: ps,
            pixel: partial_pixel(p, k),
            line: pixel_text(p).take(k),
            param_index: (k / 3) as nat,
            failed: false,
        }),
    decreases k,
{
    let t = pixel_text(p);
    let fx = format03(p.x as int);
    let fy = format03(p.y as int);
    let fc = format03(p.color as int);
    lemma_format03_ascii(p.x as int);
    lemma_format03_ascii(p.y as int);
    lemma_format03_ascii(p.color as int);
    if k == 0 {
        assert(t.take(0) =~= Seq::<char>::empty());
    } else {
        lemma_scan_pixel_prefix(ps, p, k - 1);
        lemma_scan_take_succ(line_start(ps), t, k - 1);
        let prev = t.take(k - 1);
        let c = t[k - 1];
        let f = fx + fy + fc;
        assert(t =~= f.push('\n'));
        assert(c == f[k - 1]);
        assert((c as u32) <= 0x7F && (is_ascii_digit(c) || c == '-')) by {
            if k - 1 < 3 {
                assert(f[k - 1] == fx[k - 1]);
            } else if k - 1 < 6 {
                assert(f[k - 1] == fy[k - 4]);
            } else {
                assert(f[k - 1] == fc[k - 7]);
            }
        }
        assert(all_ascii(prev)) by {
            assert forall|i: int| 0 <= i < prev.len() implies (#[trigger] prev[i] as u32) <= 0x7F by {
                assert(prev[i] == f[i]);
                if i < 3 {
                    assert(f[i] == fx[i]);
                } else if i < 6 {
                    assert(f[i] == fy[i - 3]);
                } else {
                    assert(f[i] == fc[i - 6]);
                }
            }
        }
        let st = scan_from(line_start(ps), prev);
        lemma_step_ascii(st, c);
        assert(prev.push(c) =~= t.take(k));
        if k % 3 == 0 {
            let part = t.take(k).subrange(k - 3, k);
            if k == 3 {
                assert(part =~= fx);
                lemma_parse_format03(p.x as int, 0, 255);
            } else if k == 6 {
                assert(part =~= fy);
                lemma_parse_format03(p.y as int, 0, 255);
            } else {
                assert(part =~= fc);
                lemma_parse_format03(p.color as int, -128, 127);
            }
        }
    }
}

/// A clean line start reads one pixel's text to the next line start, with the pixel added.
proof fn lemma_scan_pixel_line(ps: Seq<Pixel>, p: Pixel)
    requires
        p.color >= -99,
    ensures
        scan_from(line_start(ps), pixel_text(p)) == line_start(ps.push(p)),
{
    let t = pixel_text(p);
    lemma_scan_pixel_prefix(ps, p, 9);
    lemma_format03_ascii(p.x as int);
    lemma_format03_ascii(p.y as int);
    lemma_format03_ascii(p.color as int);
    lemma_scan_take_succ(line_start(ps), t, 9);
    assert(t.take(10) =~= t);
    assert(t[9] == '\n');
    let line = t.take(9);
    assert(all_ascii(line)) by {
        assert forall|i: int| 0 <= i < line.len() implies (#[trigger] line[i] as u32) <= 0x7F by {
            let f = format03(p.x as int) + format03(p.y as int) + format03(p.color as int);
            assert(line[i] == f[i]);
        }
    }
    lemma_ascii_byte_len(line);
}

/// Law: `Chunk::from_string` reads back, in order, the pixels whose texts
/// (`Pixel::to_string`) follow one another, for colours from -99 up; and
/// reading such a text never cuts inside a character.
pub proof fn lemma_scan_pixels_text(ps: Seq<Pixel>)
    requires
        forall|i: int| 0 <= i < ps.len() ==> (#[trigger] ps[i]).color >= -99,
    ensures
        scan(pixels_text(ps)).pixels == ps,
        !scan(pixels_text(ps)).failed,
{
    lemma_scan_lines(ps);
}

proof fn lemma_scan_lines(ps: Seq<Pixel>)
    requires
        forall|i: int| 0 <= i < ps.len() ==> (#[trigger] ps[i]).color >= -99,
    ensures
        scan(pixels_text(ps)) == line_start(ps),
    decreases ps.len(),
{
    if ps.len() == 0 {
        assert(ps =~= Seq::<Pixel>::empty());
        assert(pixels_text(ps) =~= Seq::<char>::empty());
    } else {
        let front = ps.drop_last();
        assert forall|i: int| 0 <= i < front.len() implies (#[trigger] front[i]).color >= -99 by {
            assert(front[i] == ps[i]);
        }
        lemma_scan_lines(front);
        lemma_scan_append(scan_start(), pixels_text(front), pixel_text(ps.last()));
        assert(ps.last() == ps[ps.len() - 1]);
        lemma_scan_pixel_line(front, ps.last());
        assert(front.push(ps.last()) =~= ps);
    }
}

} // verus!

verus! {

// ---------------------------------------------------------------------------
// Lines are read one by one
// ---------------------------------------------------------------------------

/// A character other than a newline adds no pixel.
proof fn lemma_scan_no_newline(st: ScanState, t: Seq<char>)
    requires
        forall|i: int| 0 <= i < t.len() ==> #[trigger] t[i] != '\n',
    ensures
        scan_from(st, t).pixels == st.pixels,
    decreases t.len(),
{
    if t.len() > 0 {
        assert forall|i: int| 0 <= i < t.drop_last().len() implies #[trigger] t.drop_last()[i] != '\n' by {
            assert(t.drop_last()[i] == t[i]);
        }
        lemma_scan_no_newline(st, t.drop_last());
        assert(t.last() == t[t.len() - 1]);
    }
}

/// Law: text after the last newline gives no pixel: the pixels read from
/// `s + t`, where `t` holds no newline, are those read from `s`.
pub proof fn lemma_tail_gives_no_pixel(s: Seq<char>, t: Seq<char>)
    requires
        forall|i: int| 0 <= i < t.len() ==> #[trigger] t[i] != '\n',
    ensures
        scan(s + t).pixels == scan(s).pixels,
{
    lemma_scan_append(scan_start(), s, t);
    lemma_scan_no_newline(scan(s), t);
}

/// `st` with the pixels `prefix` read before its own.
pub open spec fn with_prefix(st: ScanState, prefix: Seq<Pixel>) -> ScanState {
    ScanState {
        pixels: prefix + st.pixels,
        pixel: st.pixel,
        line: st.line,
        param_index: st.param_index,
        failed: st.failed,
    }
}

/// Reading from a line start that has read `prefix` is reading from the
/// start, with `prefix` before the pixels.
proof fn lemma_scan_prefix(prefix: Seq<Pixel>, t: Seq<char>)
    ensures
        scan_from(line_start(prefix), t) == with_prefix(scan(t), prefix),
    decreases t.len(),
{
    if t.len() == 0 {
        assert(prefix + Seq::<Pixel>::empty() =~= prefix);
    } else {
        lemma_scan_prefix(prefix, t.drop_last());
        let st = scan(t.drop_last());
        let c = t.last();
        if !st.failed && c == '\n' && byte_len(st.line) == 9 {
            assert((prefix + st.pixels).push(st.pixel) =~= prefix + st.pixels.push(st.pixel));
        }
    }
}

/// A failed reader stays as it is.
proof fn lemma_scan_failed_fixed(st: ScanState, t: Seq<char>)
    requires
        st.failed,
    ensures
        scan_from(st, t) == st,
    decreases t.len(),
{
    if t.len() > 0 {
        lemma_scan_failed_fixed(st, t.drop_last());
    }
}

/// Law: each line is read on its own. When `a` is empty or ends with a
/// newline, reading `a + b` fails exactly when reading `a` or reading `b`
/// does, and otherwise gives the pixels of `a`, then those of `b`.
pub proof fn lemma_scan_concat(a: Seq<char>, b: Seq<char>)
    requires
        a.len() == 0 || a.last() == '\n',
    ensures
        scan(a + b).failed == (scan(a).failed || scan(b).failed),
        !scan(a + b).failed ==> scan(a + b).pixels == scan(a).pixels + scan(b).pixels,
{
    lemma_scan_append(scan_start(), a, b);
    if a.len() == 0 {
        assert(a + b =~= b);
        assert(scan(a).pixels + scan(b).pixels =~= scan(b).pixels);
    } else {
        if scan(a).failed {
            lemma_scan_failed_fixed(scan(a), b);
        } else {
            assert(scan(a) == line_start(scan(a).pixels));
            lemma_scan_prefix(scan(a).pixels, b);
        }
    }
}

} // verus!
