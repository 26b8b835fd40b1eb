use vstd::prelude::*;
use crate::text::{lead_field, parse_u32, trimmed, chars_of, lead_field_chars, trim_chars, parse_u32_chars};

verus! {

/// One draw as the history service reports it.
#[derive(Debug)]
pub struct DrawResult {
    /// The draw's number (its period), e.g. `20250101001`.
    pub drawNumber: String,
    /// When the draw took place, as a Unix timestamp in seconds or milliseconds.
    pub drawTime: u64,
    /// The drawn numbers, comma-separated, e.g. `3,10,1,5,...`.
    pub result: String,
    /// Further detail that the service sends along.
    pub detail: String,
}

/// The first listed number of a draw result, as shown (the text before the
/// first comma).
pub open spec fn lead_text(d: DrawResult) -> Seq<char> {
    lead_field(d.result@)
}

/// The value of the first listed number, if that text (trimmed) is a number.
pub open spec fn lead_value(d: DrawResult) -> Option<u32> {
    parse_u32(trimmed(lead_text(d)))
}

/// The value of the first listed number of the draw, if it reads as one.
pub fn lead_number(d: &DrawResult) -> (r: Option<u32>)
    ensures
        r == lead_value(*d),
{
    let chars = chars_of(d.result.as_str());
    let first = lead_field_chars(&chars);
    let t = trim_chars(&first);
    parse_u32_chars(&t)
}

} // verus!
