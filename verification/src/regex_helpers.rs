//! Moving the row references of a formula one row down, with the `regex` crate.

use vstd::prelude::*;
use vstd::string::StringExecFns;
use crate::text::{decimal, decimal_string};

verus! {

/// Declares `regex::Regex` to the verifier; its values are opaque to proofs.
#[verifier::external_type_specification]
#[verifier::external_body]
pub struct ExRegex(regex::Regex);

/// Whether `regex::Regex::new` accepts the pattern.
pub uninterp spec fn regex_accepts(pattern: Seq<char>) -> bool;

/// What `regex::Regex::replace_all` gives for the regex compiled from
/// `pattern` on `text` when each match is replaced by the match's first
/// character followed by the decimal numeral of `next_row`.
pub uninterp spec fn regex_replaced(pattern: Seq<char>, text: Seq<char>, next_row: u32) -> Seq<char>;

/// A regex together with the pattern it was compiled from.
pub struct CompiledPattern {
    regex: regex::Regex,
    source: String,
}

impl CompiledPattern {
    pub closed spec fn source(&self) -> Seq<char> {
        self.source@
    }
}

/// Calls `regex::Regex::new`. Claimed: it succeeds exactly when
/// `regex_accepts` holds of the pattern, and the result keeps that pattern.
#[verifier::external_body]
fn compile_pattern(pattern: &str) -> (res: Option<CompiledPattern>)
    ensures
        res is Some == regex_accepts(pattern@),
        res matches Some(c) ==> c.source() == pattern@,
{
    match regex::Regex::new(pattern) {
        Ok(regex) => Some(CompiledPattern { regex, source: pattern.to_string() }),
        Err(_) => None,
    }
}

/// Calls `regex::Regex::replace_all` with a replacement closure that calls
/// `row_reference`. Claimed: the result is `regex_replaced` of the compiled
/// pattern, the text and `next_row`; nothing else is said of it.
#[verifier::external_body]
fn replace_all_matches(compiled: &CompiledPattern, text: &str, next_row: u32) -> (res: String)
    ensures
        res@ == regex_replaced(compiled.source(), text@, next_row),
{
    compiled.regex.replace_all(text, |caps: &regex::Captures| row_reference(&caps[0], next_row)).into_owned()
}

/// The first character of `matched` followed by the numeral of `next_row`.
pub fn row_reference(matched: &str, next_row: u32) -> (res: String)
    ensures
        res@ == (if matched@.len() > 0 { seq![matched@[0]] } else { Seq::<char>::empty() }) + decimal(next_row as nat),
{
    let n = matched.unicode_len();
    let mut res = if n > 0 {
        String::from_str(matched.substring_char(0, 1))
    } else {
        String::new()
    };
    let digits = decimal_string(next_row as usize);
    res.append(digits.as_str());
    res
}

/// The pattern that matches a capital letter followed by the numeral of `row`
/// whose last digit may repeat.
pub open spec fn row_pattern(row: u32) -> Seq<char> {
    "[A-Z]"@ + decimal(row as nat) + "+"@
}

pub fn row_pattern_string(row: u32) -> (res: String)
    ensures
        res@ == row_pattern(row),
{
    let mut res = String::from_str("[A-Z]");
    let digits = decimal_string(row as usize);
    res.append(digits.as_str());
    res.append("+");
    res
}

/// What `try_increase_column_digits` gives: `None` when `prev_num` has no
/// successor or the pattern is refused.
pub open spec fn spec_increase_column_digits(text: Seq<char>, prev_num: u32) -> Option<Seq<char>> {
    if prev_num == u32::MAX || !regex_accepts(row_pattern(prev_num)) {
        None
    } else {
        Some(regex_replaced(row_pattern(prev_num), text, (prev_num + 1) as u32))
    }
}

/// Rewrites the references to row `prev_num` in `text` into references to
/// the row after it, e.g. `sum(spread(split(D2, ",")))` for row 2 becomes
/// `sum(spread(split(D3, ",")))`.
pub fn increase_column_digits(text: String, prev_num: u32) -> (res: String)
    requires
        prev_num < u32::MAX,
        regex_accepts(row_pattern(prev_num)),
    ensures
        res@ == regex_replaced(row_pattern(prev_num), text@, (prev_num + 1) as u32),
{
    let pattern = row_pattern_string(prev_num);
    let compiled = compile_pattern(pattern.as_str()).unwrap();
    replace_all_matches(&compiled, text.as_str(), prev_num + 1)
}

/// As `increase_column_digits`, where `prev_num` has a successor and the
/// regex crate takes the pattern; `None` elsewhere. Whether the pattern is
/// taken is known only by compiling it, so it is compiled here to test, and
/// again by `increase_column_digits`.
pub fn try_increase_column_digits(text: String, prev_num: u32) -> (res: Option<String>)
    ensures
        crate::table::text_view(res) == spec_increase_column_digits(text@, prev_num),
{
    if prev_num == u32::MAX {
        return None;
    }
    let pattern = row_pattern_string(prev_num);
    match compile_pattern(pattern.as_str()) {
        Some(_) => Some(increase_column_digits(text, prev_num)),
        None => None,
    }
}

} // verus!
