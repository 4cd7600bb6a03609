use vstd::prelude::*;
use vstd::string::StrSliceExecFns;
use vstd::string::StringExecFns;

use crate::util::chars_of;

verus! {

/// A non-empty, slash-delimited hierarchical key: no leading, trailing, or
/// consecutive separators.
#[derive(Debug)]
pub struct Category(pub String);

/// Why a category string was rejected.
#[derive(Debug, Clone, Copy, PartialEq, Eq, Structural)]
pub enum ParseError {
    /// The input is empty.
    Empty,
    /// The input starts or ends with the separator.
    TerminalSeparator,
    /// The input contains consecutive separators.
    ConsecutiveSeparators,
}

pub open spec fn valid_category(s: Seq<char>) -> bool {
    &&& s.len() > 0
    &&& s[0] != '/'
    &&& s[s.len() - 1] != '/'
    &&& forall|i: int| 0 <= i < s.len() - 1 ==> !(#[trigger] s[i] == '/' && s[i + 1] == '/')
}

/// The error a category string draws, if any, checked in the order the
/// parser checks them.
pub open spec fn category_error(s: Seq<char>) -> Option<ParseError> {
    if s.len() == 0 {
        Some(ParseError::Empty)
    } else if s[0] == '/' || s[s.len() - 1] == '/' {
        Some(ParseError::TerminalSeparator)
    } else if exists|i: int| 0 <= i < s.len() - 1 && #[trigger] s[i] == '/' && s[i + 1] == '/' {
        Some(ParseError::ConsecutiveSeparators)
    } else {
        None
    }
}

/// Index of the `n`-th separator at or after `i`, or -1 if there are fewer.
pub open spec fn nth_sep_from(s: Seq<char>, i: int, n: nat) -> int
    decreases s.len() - i,
{
    if i < 0 || i >= s.len() {
        -1
    } else if s[i] == '/' {
        if n <= 1 {
            i
        } else {
            nth_sep_from(s, i + 1, (n - 1) as nat)
        }
    } else {
        nth_sep_from(s, i + 1, n)
    }
}

/// The level-`n` projection: level 0 is the fixed "All" label; level n >= 1
/// is the prefix through the n-th separator, or the whole key if it has
/// fewer than n separators.
pub open spec fn spec_level(s: Seq<char>, n: nat) -> Seq<char> {
    if n == 0 {
        seq!['A', 'l', 'l']
    } else {
        let idx = nth_sep_from(s, 0, n);
        if idx >= 0 {
            s.take(idx)
        } else {
            s
        }
    }
}

impl Category {
    pub open spec fn view(self) -> Seq<char> {
        self.0@
    }

    pub open spec fn wf(self) -> bool {
        valid_category(self.0@)
    }

    /// Parses and validates a category key.
    pub fn parse(s: &str) -> (r: Result<Category, ParseError>)
        ensures
            match r {
                Ok(c) => category_error(s@) is None && c.0@ == s@ && c.wf(),
                Err(e) => category_error(s@) == Some(e),
            },
    {
        let cs = chars_of(s);
        let n = cs.len();
        if n == 0 {
            return Err(ParseError::Empty);
        }
        if cs[0] == '/' || cs[n - 1] == '/' {
            return Err(ParseError::TerminalSeparator);
        }
        let mut i: usize = 0;
        while i < n - 1
            invariant
                n == cs@.len(),
                1 <= n,
                cs@ == s@,
                i <= n,
                cs@[0] != '/' && cs@[n - 1] != '/',
                forall|j: int| 0 <= j < i ==> !(#[trigger] cs@[j] == '/' && cs@[j + 1] == '/'),
            decreases n - i,
        {
            if cs[i] == '/' && cs[i + 1] == '/' {
                proof {
                    assert(s@[i as int] == '/' && s@[i as int + 1] == '/');
                }
                return Err(ParseError::ConsecutiveSeparators);
            }
            i = i + 1;
        }
        Ok(Category(s.to_owned()))
    }

    /// The key itself.
    pub fn str(&self) -> (r: &str)
        ensures
            r@ == self.0@,
    {
        self.0.as_str()
    }

    /// The level-`n` projection of the key.
    pub fn level(&self, level: usize) -> (r: &str)
        ensures
            r@ == spec_level(self.0@, level as nat),
    {
        if level == 0 {
            proof {
                reveal_strlit("All");
                assert(("All")@ =~= seq!['A', 'l', 'l']);
            }
            return "All";
        }
        let cs = chars_of(self.0.as_str());
        let n = cs.len();
        let mut i: usize = 0;
        let mut left: usize = level;
        while i < n
            invariant
                n == cs@.len(),
                cs@ == self.0@,
                i <= n,
                1 <= left <= level,
                nth_sep_from(cs@, 0, level as nat) == nth_sep_from(cs@, i as int, left as nat),
            decreases n - i,
        {
            if cs[i] == '/' {
                if left == 1 {
                    return self.0.as_str().substring_char(0, i);
                }
                left = left - 1;
            }
            i = i + 1;
        }
        self.0.as_str()
    }
}

impl Clone for Category {
    fn clone(&self) -> (r: Self)
        ensures
            r == *self,
    {
        Category(self.0.clone())
    }
}

impl PartialEq for Category {
    fn eq(&self, other: &Self) -> (r: bool) {
        self.0 == other.0
    }
}

impl Eq for Category {

}

impl vstd::std_specs::cmp::PartialEqSpecImpl for Category {
    open spec fn obeys_eq_spec() -> bool {
        true
    }

    open spec fn eq_spec(&self, other: &Category) -> bool {
        self.0@ == other.0@
    }
}

/// A separator index is always inside the key.
proof fn lemma_nth_sep_in_bounds(s: Seq<char>, i: int, n: nat)
    requires
        nth_sep_from(s, i, n) >= 0,
    ensures
        nth_sep_from(s, i, n) < s.len(),
    decreases s.len() - i,
{
    if 0 <= i < s.len() {
        if s[i] == '/' && n <= 1 {
        } else if s[i] == '/' {
            lemma_nth_sep_in_bounds(s, i + 1, (n - 1) as nat);
        } else {
            lemma_nth_sep_in_bounds(s, i + 1, n);
        }
    }
}

/// A level projection is never longer than the key itself, except the
/// fixed three-character level-0 label.
pub proof fn lemma_level_len(s: Seq<char>, n: nat)
    ensures
        spec_level(s, n).len() <= s.len() || spec_level(s, n).len() <= 3,
{
    if n == 0 {
    } else {
        let idx = nth_sep_from(s, 0, n);
        if idx >= 0 {
            lemma_nth_sep_in_bounds(s, 0, n);
        }
    }
}

} // verus!
