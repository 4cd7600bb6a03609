use vstd::prelude::*;

verus! {

/// Granularity selector used for truncation, shifting, and interval
/// subdivision.
#[derive(Debug, Clone, Copy, PartialEq, Eq, Hash, Structural)]
pub enum Datepart {
    Year,
    Month,
    Day,
}

} // verus!
