//! Text helpers that lean on std where vstd gives no specification.

use vstd::prelude::*;

verus! {

/// What `str::to_uppercase` makes of a text.
pub uninterp spec fn upper_of(s: Seq<char>) -> Seq<char>;

/// What `str::to_lowercase` makes of a text.
pub uninterp spec fn lower_of(s: Seq<char>) -> Seq<char>;

/// What chrono writes for the date `days` days after the start of the common
/// era (day 1 being 0001-01-01), or `None` where chrono has no such date.
pub uninterp spec fn date_text_of(days: int) -> Option<Seq<char>>;

/// Relies on chrono's `NaiveDate::from_num_days_from_ce_opt` and on the
/// `Display` of the date it returns: the text depends on the day number alone.
#[verifier::external_body]
pub(crate) fn date_text(days: i32) -> (r: Option<String>)
    ensures
        r is Some <==> date_text_of(days as int) is Some,
        r matches Some(t) ==> date_text_of(days as int) == Some(t@),
{
    match chrono::NaiveDate::from_num_days_from_ce_opt(days) {
        Some(d) => Some(format!("{}", d)),
        None => None,
    }
}

/// Relies on `str::to_uppercase`: the result depends on the characters alone.
#[verifier::external_body]
pub(crate) fn to_upper(s: &str) -> (r: String)
    ensures
        r@ == upper_of(s@),
{
    s.to_uppercase()
}

/// Relies on `str::to_lowercase`: the result depends on the characters alone.
#[verifier::external_body]
pub(crate) fn to_lower(s: &str) -> (r: String)
    ensures
        r@ == lower_of(s@),
{
    s.to_lowercase()
}

/// Relies on `str::chars` collected into a `Vec`: the characters of the text, in order.
#[verifier::external_body]
pub(crate) fn chars_of(s: &str) -> (r: Vec<char>)
    ensures
        r@ == s@,
{
    s.chars().collect()
}

/// Relies on collecting `char`s into a `String`: the text made of exactly those characters.
#[verifier::external_body]
pub(crate) fn string_of(c: &Vec<char>, from: usize, to: usize) -> (r: String)
    requires
        from <= to <= c@.len(),
    ensures
        r@ == c@.subrange(from as int, to as int),
{
    c[from..to].iter().collect()
}

} // verus!
