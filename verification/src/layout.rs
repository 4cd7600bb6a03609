use vstd::prelude::*;
use vstd::string::StrSliceExecFns;
use vstd::string::StringExecFns;

use crate::cents::cents_text;
use crate::cents::Cents;
use crate::text::digits_seq;
use crate::text::digits_string;
use crate::util::repeat_seq;
use crate::util::repeat_str;

verus! {

/// The width a value occupies in an aligned column: its rendering, plus a
/// trailing space for non-negative values so decimal points line up.
pub open spec fn spec_aligned_len(amount: int) -> int {
    cents_text(amount).len() + if amount >= 0 {
        1int
    } else {
        0int
    }
}

/// A report row: the label, a space, a dash fill out to `align` columns, a
/// space, and the amount.
pub open spec fn spec_row(label: Seq<char>, amount: int, align: int, dash: Seq<char>) -> Seq<
    char,
> {
    label + seq![' '] + repeat_seq(dash, (align - label.len() - 2 - spec_aligned_len(
        amount,
    )) as nat) + seq![' '] + cents_text(amount)
}

/// The columns a row needs before any dashes are added.
pub open spec fn spec_row_width(label_len: int, amount: int) -> int {
    label_len + crate::util::BOUNDING_SPACES_COUNT + crate::util::MIN_DASHES_COUNT
        + spec_aligned_len(amount)
}

/// Builds one aligned report row.
pub fn row_text(label: &str, amount: Cents, align: usize, dash: &str) -> (r: String)
    requires
        amount.0 > i64::MIN,
        spec_row_width(label@.len() as int, amount.0 as int) <= align,
    ensures
        r@ == spec_row(label@, amount.0 as int, align as int, dash@),
{
    let label_len = label.unicode_len();
    let value_len = amount.charlen_for_alignment();
    let dash_count = align - label_len - crate::util::BOUNDING_SPACES_COUNT - value_len;
    let mut r = String::new();
    r.append(label);
    r.append(" ");
    let fill = repeat_str(dash, dash_count);
    r.append(fill.as_str());
    r.append(" ");
    let v = amount.render();
    r.append(v.as_str());
    proof {
        reveal_strlit(" ");
        assert((" ")@ =~= seq![' ']);
        assert(r@ =~= spec_row(label@, amount.0 as int, align as int, dash@));
    }
    r
}

/// The three-letter month name; meaningful for months 1 through 12.
pub open spec fn spec_month_abbrev(m: int) -> Seq<char> {
    if m == 1 {
        ("Jan")@
    } else if m == 2 {
        ("Feb")@
    } else if m == 3 {
        ("Mar")@
    } else if m == 4 {
        ("Apr")@
    } else if m == 5 {
        ("May")@
    } else if m == 6 {
        ("Jun")@
    } else if m == 7 {
        ("Jul")@
    } else if m == 8 {
        ("Aug")@
    } else if m == 9 {
        ("Sep")@
    } else if m == 10 {
        ("Oct")@
    } else if m == 11 {
        ("Nov")@
    } else {
        ("Dec")@
    }
}

/// The three-letter month name.
pub fn month_abbrev(m: u8) -> (r: &'static str)
    requires
        1 <= m <= 12,
    ensures
        r@ == spec_month_abbrev(m as int),
{
    match m {
        1 => "Jan",
        2 => "Feb",
        3 => "Mar",
        4 => "Apr",
        5 => "May",
        6 => "Jun",
        7 => "Jul",
        8 => "Aug",
        9 => "Sep",
        10 => "Oct",
        11 => "Nov",
        _ => "Dec",
    }
}

/// The ordinal suffix of a day of the month.
pub open spec fn spec_ordinal_suffix(d: int) -> Seq<char> {
    if d == 1 || d == 21 || d == 31 {
        ("st")@
    } else if d == 2 || d == 22 {
        ("nd")@
    } else if d == 3 || d == 23 {
        ("rd")@
    } else {
        ("th")@
    }
}

/// A day of the month as an ordinal: `1st`, `2nd`, ... `31st`.
pub open spec fn spec_day_ordinal(d: int) -> Seq<char> {
    digits_seq(d as nat) + spec_ordinal_suffix(d)
}

/// A day of the month as an ordinal.
pub fn day_ordinal(d: u8) -> (r: String)
    requires
        1 <= d <= 31,
    ensures
        r@ == spec_day_ordinal(d as int),
{
    let mut r = digits_string(d as u64);
    let suffix: &'static str = match d {
        1 | 21 | 31 => "st",
        2 | 22 => "nd",
        3 | 23 => "rd",
        _ => "th",
    };
    r.append(suffix);
    r
}

} // verus!
