use vstd::prelude::*;

use crate::category::Category;
use crate::cents::Cents;
use crate::limitkind::Limitkind;

verus! {

/// One line of a transaction template: a category and an amount.
#[derive(Debug)]
pub struct TemplateEntry {
    pub category: Category,
    pub amount: Cents,
}

impl Clone for TemplateEntry {
    fn clone(&self) -> (r: Self)
        ensures
            r == *self,
    {
        TemplateEntry { category: self.category.clone(), amount: self.amount }
    }
}

/// Application configuration, as the storage layer hands it over. The
/// templates are listed by name, in the order reports show them.
#[derive(Debug)]
pub struct Config {
    pub first_index_in_date: usize,
    pub lim_account_type: Option<Limitkind>,
    pub unsigned_is_negative: bool,
    pub use_colored_output: bool,
    pub use_unicode_symbols: bool,
    pub templates: Vec<(String, Vec<TemplateEntry>)>,
}

impl Config {
    /// The configuration a fresh repository starts from.
    pub fn initial() -> (r: Config)
        ensures
            r.first_index_in_date == 1,
            r.lim_account_type is None,
            r.unsigned_is_negative == false,
            r.use_colored_output == true,
            r.use_unicode_symbols == true,
            r.templates@.len() == 0,
    {
        Config {
            first_index_in_date: 1,
            lim_account_type: None,
            unsigned_is_negative: false,
            use_colored_output: true,
            use_unicode_symbols: true,
            templates: Vec::new(),
        }
    }
}

} // verus!
