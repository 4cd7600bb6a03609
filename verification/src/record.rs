use vstd::prelude::*;

use crate::category::Category;
use crate::cents::Cents;
use crate::date::Date;

verus! {

/// Field-wise equality of records, string content compared as text.
pub open spec fn rec_eq(a: Record, b: Record) -> bool {
    a.date == b.date && a.category.0@ == b.category.0@ && a.amount == b.amount && a.note@
        == b.note@
}

/// An immutable transaction: a date, a hierarchical category, an amount in
/// cents, and an optional free-text note.
#[derive(Debug)]
pub struct Record {
    pub date: Date,
    pub category: Category,
    pub amount: Cents,
    pub note: String,
}

impl Record {
    /// The date lies in bounds and the amount can be rendered.
    pub open spec fn wf(self) -> bool {
        self.date.wf() && self.amount.0 > i64::MIN
    }

    pub fn new(date: Date, category: Category, amount: Cents, note: String) -> (r: Record)
        ensures
            r.date == date && r.category == category && r.amount == amount && r.note == note,
    {
        Record { date, category, amount, note }
    }

    pub fn date(&self) -> (r: Date)
        ensures
            r == self.date,
    {
        self.date
    }

    pub fn category(&self) -> (r: &Category)
        ensures
            r == &self.category,
    {
        &self.category
    }

    pub fn amount(&self) -> (r: Cents)
        ensures
            r == self.amount,
    {
        self.amount
    }

    pub fn note(&self) -> (r: &str)
        ensures
            r@ == self.note@,
    {
        self.note.as_str()
    }
}

impl Clone for Record {
    fn clone(&self) -> (r: Self)
        ensures
            r == *self,
    {
        Record {
            date: self.date,
            category: self.category.clone(),
            amount: self.amount,
            note: self.note.clone(),
        }
    }
}

impl PartialEq for Record {
    fn eq(&self, other: &Self) -> (r: bool) {
        self.date == other.date && self.category == other.category && self.amount == other.amount
            && self.note == other.note
    }
}

impl Eq for Record {

}

impl vstd::std_specs::cmp::PartialEqSpecImpl for Record {
    open spec fn obeys_eq_spec() -> bool {
        true
    }

    open spec fn eq_spec(&self, other: &Record) -> bool {
        rec_eq(*self, *other)
    }
}

} // verus!
