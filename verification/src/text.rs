//! Characters, their UTF-8 widths, and the decimal numbers that the pixel
//! text format is made of.
use vstd::prelude::*;

verus! {

// ---------------------------------------------------------------------------
// UTF-8 widths and byte offsets
// ---------------------------------------------------------------------------

/// Number of bytes that `c` takes in UTF-8.
pub open spec fn char_width(c: char) -> nat {
    let u = c as u32;
    if u <= 0x7F {
        1
    } else if u <= 0x7FF {
        2
    } else if u <= 0xFFFF {
        3
    } else {
        4
    }
}

/// Number of bytes that the characters `s` take in UTF-8 (what `str::len` reports).
pub open spec fn byte_len(s: Seq<char>) -> nat
    decreases s.len(),
{
    if s.len() == 0 {
        0
    } else {
        byte_len(s.drop_last()) + char_width(s.last())
    }
}

/// Byte offset `b` of the UTF-8 text `s` falls between two characters (or at an end).
pub open spec fn is_boundary(s: Seq<char>, b: int) -> bool {
    exists|k: int| 0 <= k <= s.len() && #[trigger] byte_len(s.take(k)) == b
}

/// The character index that sits at byte offset `b` of `s` (meaningful when `is_boundary(s, b)`).
pub open spec fn char_index(s: Seq<char>, b: int) -> int {
    choose|k: int| 0 <= k <= s.len() && #[trigger] byte_len(s.take(k)) == b
}

/// The characters between byte offsets `a` and `b` of `s`: what `&text[a..b]` holds.
pub open spec fn byte_slice(s: Seq<char>, a: int, b: int) -> Seq<char> {
    s.subrange(char_index(s, a), char_index(s, b))
}

pub proof fn lemma_byte_len_take_succ(s: Seq<char>, k: int)
    requires
        0 <= k < s.len(),
    ensures
        byte_len(s.take(k + 1)) == byte_len(s.take(k)) + char_width(s[k]),
{
    assert(s.take(k + 1).drop_last() =~= s.take(k));
}

pub proof fn lemma_byte_len_take_mono(s: Seq<char>, j: int, k: int)
    requires
        0 <= j < k <= s.len(),
    ensures
        byte_len(s.take(j)) < byte_len(s.take(k)),
    decreases k - j,
{
    lemma_byte_len_take_succ(s, k - 1);
    if j < k - 1 {
        lemma_byte_len_take_mono(s, j, k - 1);
    }
}

pub proof fn lemma_byte_len_take_le(s: Seq<char>, k: int)
    requires
        0 <= k <= s.len(),
    ensures
        byte_len(s.take(k)) <= byte_len(s),
{
    assert(s.take(s.len() as int) =~= s);
    if k < s.len() {
        lemma_byte_len_take_mono(s, k, s.len() as int);
    }
}

/// A byte offset names at most one character index.
pub proof fn lemma_char_index_unique(s: Seq<char>, b: int, k: int)
    requires
        0 <= k <= s.len(),
        byte_len(s.take(k)) == b,
    ensures
        is_boundary(s, b),
        char_index(s, b) == k,
{
    let j = char_index(s, b);
    if j < k {
        lemma_byte_len_take_mono(s, j, k);
    } else if k < j {
        lemma_byte_len_take_mono(s, k, j);
    }
}

pub proof fn lemma_byte_len_push(s: Seq<char>, c: char)
    ensures
        byte_len(s.push(c)) == byte_len(s) + char_width(c),
{
    assert(s.push(c).drop_last() =~= s);
}

/// Every character of `s` is ASCII.
pub open spec fn all_ascii(s: Seq<char>) -> bool {
    forall|i: int| 0 <= i < s.len() ==> (#[trigger] s[i] as u32) <= 0x7F
}

/// Text of ASCII characters takes one byte per character.
pub proof fn lemma_ascii_byte_len(s: Seq<char>)
    requires
        all_ascii(s),
    ensures
        byte_len(s) == s.len(),
    decreases s.len(),
{
    if s.len() > 0 {
        assert(all_ascii(s.drop_last())) by {
            assert forall|i: int| 0 <= i < s.drop_last().len() implies (#[trigger] s.drop_last()[i]
                as u32) <= 0x7F by {
                assert(s.drop_last()[i] == s[i]);
            }
        }
        lemma_ascii_byte_len(s.drop_last());
        assert((s.last() as u32) <= 0x7F);
    }
}

/// In ASCII text every byte offset up to the length is a boundary, at the same index.
pub proof fn lemma_ascii_boundary(s: Seq<char>, b: int)
    requires
        all_ascii(s),
        0 <= b <= s.len(),
    ensures
        is_boundary(s, b),
        char_index(s, b) == b,
{
    assert(all_ascii(s.take(b))) by {
        assert forall|i: int| 0 <= i < s.take(b).len() implies (#[trigger] s.take(b)[i] as u32)
            <= 0x7F by {
            assert(s.take(b)[i] == s[i]);
        }
    }
    lemma_ascii_byte_len(s.take(b));
    lemma_char_index_unique(s, b, b);
}

/// Number of bytes that `c` takes in UTF-8.
pub fn utf8_width(c: char) -> (w: usize)
    ensures
        w == char_width(c),
{
    let u = c as u32;
    if u <= 0x7F {
        1
    } else if u <= 0x7FF {
        2
    } else if u <= 0xFFFF {
        3
    } else {
        4
    }
}

/// The character index at byte offset `b` of `s`, or `None` when `b` falls
/// inside a character or past the end.
pub fn find_boundary(s: &Vec<char>, b: u128) -> (r: Option<usize>)
    requires
        b <= u128::MAX - 4,
    ensures
        r is Some <==> is_boundary(s@, b as int),
        r matches Some(k) ==> k == char_index(s@, b as int),
{
    let mut k: usize = 0;
    let mut acc: u128 = 0;
    while k < s.len() && acc < b
        invariant
            0 <= k <= s.len(),
            b <= u128::MAX - 4,
            acc == byte_len(s@.take(k as int)),
            k > 0 ==> byte_len(s@.take(k - 1)) < b,
        decreases s.len() - k,
    {
        proof {
            lemma_byte_len_take_succ(s@, k as int);
        }
        let w = utf8_width(s[k]);
        acc = acc + w as u128;
        k = k + 1;
    }
    if acc == b {
        proof {
            lemma_char_index_unique(s@, b as int, k as int);
        }
        Some(k)
    } else {
        proof {
            if is_boundary(s@, b as int) {
                let j = char_index(s@, b as int);
                if j < k - 1 {
                    lemma_byte_len_take_mono(s@, j, k - 1);
                } else if j > k {
                    lemma_byte_len_take_mono(s@, k as int, j);
                }
            }
        }
        None
    }
}

/// The characters of `txt`, in order.
pub fn collect_chars(txt: &str) -> (out: Vec<char>)
    ensures
        out@ == txt@,
{
    let mut out: Vec<char> = Vec::new();
    for c in it: txt.chars()
        invariant
            out@ == it.seq().take(it.index() as int),
    {
        out.push(c);
    }
    out
}

/// The segments of `t` between its `/` characters (one more than there are `/`).
pub open spec fn segments(t: Seq<char>) -> Seq<Seq<char>>
    decreases t.len(),
{
    if t.len() == 0 {
        seq![Seq::empty()]
    } else {
        let rest = segments(t.drop_last());
        if t.last() == '/' {
            rest.push(Seq::empty())
        } else {
            rest.update(rest.len() - 1, rest.last().push(t.last()))
        }
    }
}

pub proof fn lemma_segments_step(t: Seq<char>, k: int)
    requires
        0 <= k < t.len(),
    ensures
        segments(t.take(k + 1)) == (if t[k] == '/' {
            segments(t.take(k)).push(Seq::empty())
        } else {
            segments(t.take(k)).update(
                segments(t.take(k)).len() - 1,
                segments(t.take(k)).last().push(t[k]),
            )
        }),
{
    assert(t.take(k + 1).drop_last() =~= t.take(k));
    assert(t.take(k + 1).last() == t[k]);
}

/// The segments of `chars` between its `/` characters.
pub fn split_slash(chars: &Vec<char>) -> (segs: Vec<Vec<char>>)
    ensures
        segs@.map_values(|v: Vec<char>| v@) == segments(chars@),
{
    let mut segs: Vec<Vec<char>> = Vec::new();
    let mut current: Vec<char> = Vec::new();
    let mut k: usize = 0;
    while k < chars.len()
        invariant
            0 <= k <= chars.len(),
            segs@.map_values(|v: Vec<char>| v@).push(current@) == segments(chars@.take(k as int)),
        decreases chars.len() - k,
    {
        let ghost before = segs@.map_values(|v: Vec<char>| v@).push(current@);
        proof {
            lemma_segments_step(chars@, k as int);
        }
        let c = chars[k];
        if c == '/' {
            segs.push(current);
            current = Vec::new();
            assert(segs@.map_values(|v: Vec<char>| v@).push(current@) =~= before.push(Seq::empty()));
        } else {
            current.push(c);
            assert(segs@.map_values(|v: Vec<char>| v@).push(current@) =~= before.update(
                before.len() - 1,
                before.last().push(c),
            ));
        }
        k = k + 1;
    }
    assert(chars@.take(chars@.len() as int) =~= chars@);
    segs.push(current);
    segs
}

// ---------------------------------------------------------------------------
// Decimal numbers
// ---------------------------------------------------------------------------

pub open spec fn is_ascii_digit(c: char) -> bool {
    '0' <= c && c <= '9'
}

pub open spec fn digit_value(c: char) -> int {
    (c as int) - ('0' as int)
}

pub open spec fn all_digits(s: Seq<char>) -> bool {
    forall|i: int| 0 <= i < s.len() ==> is_ascii_digit(#[trigger] s[i])
}

/// The value of a string of decimal digits, most significant first.
pub open spec fn digits_value(s: Seq<char>) -> nat
    decreases s.len(),
{
    if s.len() == 0 {
        0
    } else {
        (digits_value(s.drop_last()) * 10 + digit_value(s.last())) as nat
    }
}

/// What `str::parse` gives for an integer type whose values run from `lo` to `hi`:
/// an optional `+` (or `-` when `lo < 0`), then one or more ASCII digits, and a
/// value in range.
pub open spec fn parse_int(s: Seq<char>, lo: int, hi: int) -> Option<int> {
    let neg = s.len() > 0 && s[0] == '-' && lo < 0;
    let digits = if s.len() > 0 && (s[0] == '+' || neg) {
        s.drop_first()
    } else {
        s
    };
    if digits.len() == 0 || !all_digits(digits) {
        None
    } else {
        let v = if neg {
            -digits_value(digits)
        } else {
            digits_value(digits) as int
        };
        if lo <= v && v <= hi {
            Some(v)
        } else {
            None
        }
    }
}

proof fn lemma_digits_value_take_le(s: Seq<char>, k: int)
    requires
        all_digits(s),
        0 <= k <= s.len(),
    ensures
        digits_value(s.take(k)) <= digits_value(s),
    decreases s.len(),
{
    if k < s.len() {
        assert(all_digits(s.drop_last())) by {
            assert forall|i: int| 0 <= i < s.drop_last().len() implies is_ascii_digit(
                #[trigger] s.drop_last()[i],
            ) by {
                assert(s.drop_last()[i] == s[i]);
            }
        }
        lemma_digits_value_take_le(s.drop_last(), k);
        assert(s.drop_last().take(k) =~= s.take(k));
        assert(is_ascii_digit(s[s.len() - 1]));
    } else {
        assert(s.take(k) =~= s);
    }
}

proof fn lemma_digits_value_take_succ(s: Seq<char>, k: int)
    requires
        0 <= k < s.len(),
        is_ascii_digit(s[k]),
    ensures
        digits_value(s.take(k + 1)) == digits_value(s.take(k)) * 10 + digit_value(s[k]),
{
    assert(s.take(k + 1).drop_last() =~= s.take(k));
    assert(s.take(k + 1).last() == s[k]);
}

/// Parses the characters `chars[start..end]` as `str::parse` does for an
/// integer type whose values run from `lo` to `hi`.
pub fn parse_decimal(chars: &Vec<char>, start: usize, end: usize, lo: i64, hi: i64) -> (r: Option<i64>)
    requires
        start <= end <= chars.len(),
        -0x8000_0000 <= lo <= 0 <= hi <= 0x7fff_ffff,
    ensures
        match r {
            Some(v) => parse_int(chars@.subrange(start as int, end as int), lo as int, hi as int)
                == Some(v as int),
            None => parse_int(chars@.subrange(start as int, end as int), lo as int, hi as int) is None,
        },
{
    let ghost s = chars@.subrange(start as int, end as int);
    if start == end {
        return None;
    }
    let first = chars[start];
    let neg = first == '-' && lo < 0;
    let ds: usize = if first == '+' || neg {
        start + 1
    } else {
        start
    };
    let ghost digits = chars@.subrange(ds as int, end as int);
    assert(digits =~= (if s.len() > 0 && (s[0] == '+' || neg) {
        s.drop_first()
    } else {
        s
    }));
    if ds == end {
        return None;
    }
    let bound: u64 = if neg {
        (0 - lo) as u64
    } else {
        hi as u64
    };
    let mut acc: u64 = 0;
    let mut k: usize = ds;
    while k < end
        invariant
            ds <= k <= end <= chars.len(),
            s == chars@.subrange(start as int, end as int),
            s.len() > 0,
            neg == (s[0] == '-' && lo < 0),
            digits == (if s[0] == '+' || neg {
                s.drop_first()
            } else {
                s
            }),
            digits == chars@.subrange(ds as int, end as int),
            bound == (if neg {
                -lo
            } else {
                hi as int
            }),
            all_digits(digits.take(k - ds)),
            acc == digits_value(digits.take(k - ds)),
            acc <= bound <= 0x8000_0000,
        decreases end - k,
    {
        let c = chars[k];
        if !('0' <= c && c <= '9') {
            assert(digits[k - ds] == c);
            assert(!all_digits(digits));
            return None;
        }
        proof {
            lemma_digits_value_take_succ(digits, k - ds);
            assert(digits[k - ds] == c);
        }
        let d = ((c as u32) - ('0' as u32)) as u64;
        acc = acc * 10 + d;
        proof {
            assert(all_digits(digits.take(k - ds + 1))) by {
                assert forall|i: int| 0 <= i < digits.take(k - ds + 1).len() implies is_ascii_digit(
                    #[trigger] digits.take(k - ds + 1)[i],
                ) by {
                    if i < k - ds {
                        assert(digits.take(k - ds + 1)[i] == digits.take(k - ds)[i]);
                    }
                }
            }
        }
        if acc > bound {
            proof {
                if all_digits(digits) {
                    lemma_digits_value_take_le(digits, k - ds + 1);
                    assert(digits_value(digits) > bound);
                }
            }
            return None;
        }
        k = k + 1;
    }
    assert(digits.take(k - ds) =~= digits);
    if neg {
        Some(0 - (acc as i64))
    } else {
        Some(acc as i64)
    }
}

/// The decimal digits of `d` as a character, for `0 <= d < 10`.
pub open spec fn digit_char(d: int) -> char {
    (('0' as int) + d) as char
}

/// The decimal notation of `n`, without leading zeros.
pub open spec fn decimal(n: nat) -> Seq<char>
    decreases n,
{
    if n < 10 {
        seq![digit_char(n as int)]
    } else {
        decimal(n / 10).push(digit_char((n % 10) as int))
    }
}

/// `decimal(n)` preceded by zeros up to `width` characters.
pub open spec fn zero_padded(n: nat, width: nat) -> Seq<char> {
    let d = decimal(n);
    if d.len() >= width {
        d
    } else {
        Seq::new((width - d.len()) as nat, |_i: int| '0') + d
    }
}

/// What `format!("{:03}", v)` writes: at least three characters, zeros after
/// the sign.
pub open spec fn format03(v: int) -> Seq<char> {
    if v < 0 {
        seq!['-'] + zero_padded((-v) as nat, 2)
    } else {
        zero_padded(v as nat, 3)
    }
}

proof fn lemma_decimal_small(n: nat)
    requires
        n < 1000,
    ensures
        n < 10 ==> decimal(n) == seq![digit_char(n as int)],
        10 <= n < 100 ==> decimal(n) == seq![digit_char((n / 10) as int), digit_char((n % 10) as int)],
        100 <= n ==> decimal(n) == seq![
            digit_char((n / 100) as int),
            digit_char(((n / 10) % 10) as int),
            digit_char((n % 10) as int),
        ],
{
    reveal_with_fuel(decimal, 3);
    if n >= 100 {
        assert(decimal(n / 10) == seq![digit_char((n / 100) as int), digit_char(((n / 10) % 10) as int)]);
    }
}

/// The three characters `format03` gives for `0 <= n < 1000`.
pub proof fn lemma_format03_nonneg(n: int)
    requires
        0 <= n < 1000,
    ensures
        format03(n) == seq![
            digit_char(n / 100),
            digit_char((n / 10) % 10),
            digit_char(n % 10),
        ],
{
    lemma_decimal_small(n as nat);
    let d = decimal(n as nat);
    if n < 10 {
        assert(format03(n) =~= seq!['0', '0', digit_char(n)]);
    } else if n < 100 {
        assert(format03(n) =~= seq!['0', digit_char(n / 10), digit_char(n % 10)]);
    } else {
    }
}

/// What `format03` gives for `-1000 < n < 0`: the sign, then two or three digits.
pub proof fn lemma_format03_neg(n: int)
    requires
        -1000 < n < 0,
    ensures
        -n < 100 ==> format03(n) == seq!['-', digit_char((-n) / 10), digit_char((-n) % 10)],
        -n >= 100 ==> format03(n) == seq![
            '-',
            digit_char((-n) / 100),
            digit_char(((-n) / 10) % 10),
            digit_char((-n) % 10),
        ],
{
    let m = -n;
    lemma_decimal_small(m as nat);
    if m < 10 {
        assert(format03(n) =~= seq!['-', '0', digit_char(m)]);
    } else if m < 100 {
        assert(format03(n) =~= seq!['-', digit_char(m / 10), digit_char(m % 10)]);
    } else {
        assert(format03(n) =~= seq!['-', digit_char(m / 100), digit_char((m / 10) % 10), digit_char(m % 10)]);
    }
}

#[verifier::external_body]
/// `String::push`: appends the character `c` to the end of `s`.
pub(crate) fn push_char(s: &mut String, c: char)
    ensures
        final(s)@ == old(s)@.push(c),
{
    s.push(c)
}

fn digit_to_char(d: u32) -> (c: char)
    requires
        d < 10,
    ensures
        c == digit_char(d as int),
{
    match d {
        0 => '0',
        1 => '1',
        2 => '2',
        3 => '3',
        4 => '4',
        5 => '5',
        6 => '6',
        7 => '7',
        8 => '8',
        _ => '9',
    }
}

/// Appends the decimal notation of `n` (what `format!("{}", n)` writes) to `s`.
pub fn push_decimal(s: &mut String, n: usize)
    ensures
        final(s)@ == old(s)@ + decimal(n as nat),
    decreases n,
{
    if n >= 10 {
        push_decimal(s, n / 10);
    }
    push_char(s, digit_to_char((n % 10) as u32));
    proof {
        if n < 10 {
            assert(n % 10 == n);
        }
    }
    assert(s@ =~= old(s)@ + decimal(n as nat));
}

/// Appends `format!("{:03}", v)` to `s`.
pub fn push_format03(s: &mut String, v: i32)
    requires
        -1000 < v < 1000,
    ensures
        final(s)@ == old(s)@ + format03(v as int),
{
    if v < 0 {
        let m = (0 - v) as u32;
        proof {
            lemma_format03_neg(v as int);
        }
        push_char(s, '-');
        if m >= 100 {
            push_char(s, digit_to_char(m / 100));
        }
        push_char(s, digit_to_char((m / 10) % 10));
        push_char(s, digit_to_char(m % 10));
        proof {
            if m < 100 {
                assert(m / 10 == (m / 10) % 10);
            }
        }
    } else {
        let m = v as u32;
        proof {
            lemma_format03_nonneg(v as int);
        }
        push_char(s, digit_to_char(m / 100));
        push_char(s, digit_to_char((m / 10) % 10));
        push_char(s, digit_to_char(m % 10));
    }
    assert(s@ =~= old(s)@ + format03(v as int));
}

// ---------------------------------------------------------------------------
// Characters that `char::is_numeric` accepts
// ---------------------------------------------------------------------------

/// Whether `char::is_numeric` holds of `c` (Unicode general categories Nd, Nl and No).
pub uninterp spec fn numeric_char(c: char) -> bool;

#[verifier::external_body]
/// `char::is_numeric`. Its result is named `numeric_char`; of the name the
/// contract claims only that the ASCII digits `'0'..='9'` (category Nd) are numeric.
pub(crate) fn char_is_numeric(c: char) -> (r: bool)
    ensures
        r == numeric_char(c),
        is_ascii_digit(c) ==> r,
{
    c.is_numeric()
}

} // verus!
