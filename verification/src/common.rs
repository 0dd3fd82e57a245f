//! Small checks on text.
use vstd::prelude::*;

use crate::text::{collect_chars, parse_int, parse_decimal};

verus! {

/// Whether `s` reads as an `i32` (`str::parse::<i32>` succeeds): an optional
/// sign, then one or more ASCII digits, a value in range.
pub fn is_numeric(s: &str) -> (r: bool)
    ensures
        r == parse_int(s@, i32::MIN as int, i32::MAX as int) is Some,
{
    let chars = collect_chars(s);
    assert(chars@.subrange(0, chars@.len() as int) =~= chars@);
    parse_decimal(&chars, 0, chars.len(), -2147483648, 2147483647).is_some()
}

} // verus!
