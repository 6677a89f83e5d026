//! DMC colour codes: how a typed code is read and compared.

use vstd::prelude::*;

use crate::text::{
    chars_eq_str, chars_of, copy_range, find_chars, find_seq, lemma_find_seq_bounds, string_of,
    to_uppercase, trim, trim_chars, upper_case, without_spaces, without_spaces_chars,
};

verus! {

/// A code in the form used for comparisons: trimmed, upper-cased, spaces removed.
pub open spec fn normalized(s: Seq<char>) -> Seq<char> {
    without_spaces(upper_case(trim(s)))
}

/// The form of `value` in which codes are compared: trimmed, upper-cased and without spaces.
pub fn normalize_code(value: &str) -> (r: String)
    ensures
        r@ == normalized(value@),
{
    let chars = chars_of(value);
    let trimmed = string_of(trim_chars(chars.as_slice()).as_slice());
    let upper = to_uppercase(trimmed.as_str());
    let upper_chars = chars_of(upper.as_str());
    string_of(without_spaces_chars(upper_chars.as_slice()).as_slice())
}

/// The separator between a code and a colour name in a typed entry such as `310 - Black`.
pub open spec fn name_separator() -> Seq<char> {
    seq![' ', '-', ' ']
}

/// The code part of a typed entry: trimmed, and cut before the first `" - "`.
pub open spec fn code_part(s: Seq<char>) -> Seq<char> {
    let v = trim(s);
    match find_seq(v, name_separator()) {
        Some(k) => trim(v.take(k)),
        None => v,
    }
}

/// The code that a typed entry names: the code part, with the colour names `white`
/// (`Blanc`) and `off-white`, `offwhite` or `cream` (`Ecru`) replaced by their codes.
pub open spec fn extracted(s: Seq<char>) -> Seq<char> {
    let v = code_part(s);
    let n = normalized(v);
    if n == "WHITE"@ {
        "Blanc"@
    } else if n == "OFFWHITE"@ || n == "OFF-WHITE"@ || n == "CREAM"@ {
        "Ecru"@
    } else {
        v
    }
}

/// The DMC code that a typed entry names.
pub fn extract_code(input: &str) -> (r: String)
    ensures
        r@ == extracted(input@),
{
    let chars = chars_of(input);
    let mut value = trim_chars(chars.as_slice());
    let sep = [' ', '-', ' '];
    assert(sep@ =~= name_separator());
    match find_chars(value.as_slice(), sep.as_slice()) {
        Some(k) => {
            proof {
                lemma_find_seq_bounds(value@, name_separator());
            }
            let first = copy_range(value.as_slice(), 0, k);
            assert(value@.subrange(0, k as int) =~= value@.take(k as int));
            value = trim_chars(first.as_slice());
        },
        None => {},
    }
    let value_str = string_of(value.as_slice());
    let normalized_code = normalize_code(value_str.as_str());
    let n = chars_of(normalized_code.as_str());
    if chars_eq_str(n.as_slice(), "WHITE") {
        "Blanc".to_string()
    } else if chars_eq_str(n.as_slice(), "OFFWHITE") || chars_eq_str(n.as_slice(), "OFF-WHITE")
        || chars_eq_str(n.as_slice(), "CREAM") {
        "Ecru".to_string()
    } else {
        value_str
    }
}

} // verus!
