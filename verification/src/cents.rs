use vstd::prelude::*;
use vstd::string::StrSliceExecFns;
use vstd::string::StringExecFns;

use crate::text::all_digit_chars;
use crate::text::char_digit;
use crate::text::digit_char;
use crate::text::digits_seq;
use crate::text::digits_string;
use crate::text::digits_val;
use crate::text::is_digit_char;
use crate::text::lemma_digits_seq_all_digits;
use crate::text::lemma_digits_seq_len;
use crate::text::lemma_digits_val_digits_seq;
use crate::text::lemma_digits_val_prefix_le;
use crate::text::lemma_digits_val_prepend_zero;
use crate::util;
use crate::util::spec_digit_count;

verus! {

/// Integral representation of monetary quantities up to two decimal places.
#[derive(Debug, Clone, Copy, PartialEq, Eq, Hash, PartialOrd, Ord, Structural)]
pub struct Cents(pub i64);





/// The decimal digits of `n`, zero-padded on the left to at least three.
pub open spec fn padded_digits(n: nat) -> Seq<char> {
    if n < 10 {
        seq!['0', '0'] + digits_seq(n)
    } else if n < 100 {
        seq!['0'] + digits_seq(n)
    } else {
        digits_seq(n)
    }
}

/// Commas inserted every three characters, counted from the right.
pub open spec fn group3(s: Seq<char>) -> Seq<char>
    decreases s.len(),
{
    if s.len() <= 3 {
        s
    } else {
        group3(s.take(s.len() - 3)) + seq![','] + s.skip(s.len() - 3)
    }
}

/// The rendering of a cents value: two decimal places, thousands separators,
/// negative values wrapped in parentheses.
pub open spec fn cents_text(c: int) -> Seq<char> {
    let n = (if c < 0 {
        -c
    } else {
        c
    }) as nat;
    let ds = padded_digits(n);
    let body = group3(ds.take(ds.len() - 2)) + seq!['.'] + ds.skip(ds.len() - 2);
    if c < 0 {
        seq!['('] + body + seq![')']
    } else {
        body
    }
}


pub proof fn lemma_padded_digits_len(n: nat)
    ensures
        padded_digits(n).len() == if spec_digit_count(n) >= 3 {
            spec_digit_count(n)
        } else {
            3
        },
        padded_digits(n).len() >= 3,
{
    lemma_digits_seq_len(n);
    if n < 10 {
        assert(spec_digit_count(n) == 1);
        assert(padded_digits(n).len() == 2 + digits_seq(n).len());
    } else if n < 100 {
        assert(spec_digit_count(n) == 1 + spec_digit_count(n / 10));
        assert(spec_digit_count(n / 10) == 1);
        assert(padded_digits(n).len() == 1 + digits_seq(n).len());
    } else {
        util::lemma_digit_count_le(100, n);
        reveal_with_fuel(spec_digit_count, 4);
        assert(padded_digits(n) == digits_seq(n));
    }
}


pub proof fn lemma_padded_digits_all_digits(n: nat)
    ensures
        forall|i: int|
            0 <= i < padded_digits(n).len() ==> is_digit_char(#[trigger] padded_digits(n)[i]),
{
    lemma_digits_seq_all_digits(n);
    assert(is_digit_char('0'));
    assert forall|i: int| 0 <= i < padded_digits(n).len() implies is_digit_char(
        #[trigger] padded_digits(n)[i],
    ) by {
        let pad: int = padded_digits(n).len() - digits_seq(n).len();
        if i >= pad {
            assert(padded_digits(n)[i] == digits_seq(n)[i - pad]);
        }
    }
}

/// Grouping only adds commas: one per extra block of three.
pub proof fn lemma_group3_len(s: Seq<char>)
    ensures
        s.len() == 0 ==> group3(s).len() == 0,
        s.len() >= 1 ==> group3(s).len() == s.len() + (s.len() - 1) / 3,
    decreases s.len(),
{
    if s.len() > 3 {
        lemma_group3_len(s.take(s.len() - 3));
    }
}

/// Length of the rendering, put arithmetically: digits, commas, the
/// point, and parentheses for a negative value.
pub open spec fn spec_charlen(c: int) -> int {
    let n = (if c < 0 {
        -c
    } else {
        c
    }) as nat;
    let d = if spec_digit_count(n) >= 3 {
        spec_digit_count(n)
    } else {
        3
    };
    d + (d - 3) / 3 + 1 + if c < 0 {
        2int
    } else {
        0int
    }
}

pub proof fn lemma_cents_text_len(c: int)
    ensures
        cents_text(c).len() == spec_charlen(c),
{
    let n = (if c < 0 {
        -c
    } else {
        c
    }) as nat;
    lemma_padded_digits_len(n);
    let ds = padded_digits(n);
    lemma_group3_len(ds.take(ds.len() - 2));
}

/// No rendering of a machine-width value is wider than 27 columns.
pub proof fn lemma_charlen_le_27(c: int)
    requires
        -0x7fff_ffff_ffff_ffff <= c <= 0x7fff_ffff_ffff_ffff,
    ensures
        spec_charlen(c) <= 27,
{
    let n = (if c < 0 {
        -c
    } else {
        c
    }) as nat;
    crate::util::lemma_digit_count_le(n, 0xffff_ffff_ffff_ffff);
    reveal_with_fuel(spec_digit_count, 21);
}

impl Cents {
    /// Magnitude of the value.
    pub fn abs(self) -> (r: Self)
        requires
            self.0 != i64::MIN,
        ensures
            r.0 == if self.0 < 0 {
                -self.0 as int
            } else {
                self.0 as int
            },
    {
        if self.0 < 0 {
            Cents(-self.0)
        } else {
            self
        }
    }

    /// Returns the length of `self.render()` without building the string.
    pub fn charlen(self) -> (r: usize)
        requires
            self.0 != i64::MIN,
        ensures
            r == cents_text(self.0 as int).len(),
    {
        let n: u64 = if self.0 < 0 {
            (-self.0) as u64
        } else {
            self.0 as u64
        };
        let n = if n < 100 {
            100
        } else {
            n
        };
        let mut len = util::count_digits(n);
        proof {
            let m = (if self.0 < 0 {
                -self.0
            } else {
                self.0 as int
            }) as nat;
            if m < 100 {
                reveal_with_fuel(spec_digit_count, 4);
            } else {
                util::lemma_digit_count_le(100, m);
                reveal_with_fuel(spec_digit_count, 4);
            }
            assert(len == if spec_digit_count(m) >= 3 {
                spec_digit_count(m)
            } else {
                3
            });
            util::lemma_digit_count_le(m, 0xffff_ffff_ffff_ffff);
            reveal_with_fuel(spec_digit_count, 21);
            lemma_cents_text_len(self.0 as int);
        }
        len = len + (len - 3) / 3;
        len = len + 1;
        if self.0 < 0 {
            len = len + 2;
        }
        len
    }

    /// `charlen`, counting one extra column for non-negative quantities so
    /// that a trailing space aligns the decimal points of a column.
    pub fn charlen_for_alignment(self) -> (r: usize)
        requires
            self.0 != i64::MIN,
        ensures
            r == cents_text(self.0 as int).len() + if self.0 >= 0 {
                1int
            } else {
                0int
            },
    {
        let len = self.charlen();
        proof {
            lemma_cents_text_len(self.0 as int);
        }
        if self.0 >= 0 {
            len + 1
        } else {
            len
        }
    }

    /// Renders with two decimal places and thousands separators; negative
    /// quantities are wrapped in parentheses.
    pub fn render(self) -> (r: String)
        requires
            self.0 != i64::MIN,
        ensures
            r@ == cents_text(self.0 as int),
    {
        let neg = self.0 < 0;
        let n: u64 = if neg {
            (-self.0) as u64
        } else {
            self.0 as u64
        };
        let mut ds = String::new();
        if n < 10 {
            ds.append("00");
        } else if n < 100 {
            ds.append("0");
        }
        let tail = digits_string(n);
        ds.append(tail.as_str());
        proof {
            reveal_strlit("00");
            reveal_strlit("0");
            assert(ds@ =~= padded_digits(n as nat));
            lemma_padded_digits_len(n as nat);
        }
        let len = ds.unicode_len();
        let whole = ds.as_str().substring_char(0, len - 2);
        let frac = ds.as_str().substring_char(len - 2, len);
        let grouped = group3_string(whole);
        let mut r = String::new();
        if neg {
            r.append("(");
        }
        r.append(grouped.as_str());
        r.append(".");
        r.append(frac);
        if neg {
            r.append(")");
        }
        proof {
            reveal_strlit("(");
            reveal_strlit(")");
            reveal_strlit(".");
            let pd = padded_digits(n as nat);
            assert(whole@ =~= pd.take(pd.len() - 2));
            assert(frac@ =~= pd.skip(pd.len() - 2));
            assert(r@ =~= cents_text(self.0 as int));
        }
        r
    }
}

/// The six inputs that skip normalization and then fail integer parsing:
/// empty, a bare sign, a bare point, and a sign followed by a point.
pub open spec fn excluded_input(t: Seq<char>) -> bool {
    ||| t.len() == 0
    ||| (t.len() == 1 && (t[0] == '+' || t[0] == '-' || t[0] == '.'))
    ||| (t.len() == 2 && (t[0] == '+' || t[0] == '-') && t[1] == '.')
}

/// Index of the first `.` in `s`, or -1 if there is none.
pub open spec fn first_dot(s: Seq<char>) -> int
    decreases s.len(),
{
    if s.len() == 0 {
        -1
    } else if s[0] == '.' {
        0
    } else {
        let r = first_dot(s.skip(1));
        if r < 0 {
            -1
        } else {
            1 + r
        }
    }
}



/// What `i64::from_str` accepts: an optional sign, then one or more decimal
/// digits, the value within the bounds of the type.
pub open spec fn spec_parse_int(u: Seq<char>) -> Option<int> {
    if u.len() == 0 {
        None
    } else {
        let neg = u[0] == '-';
        let ds = if u[0] == '+' || u[0] == '-' {
            u.skip(1)
        } else {
            u
        };
        if ds.len() == 0 || !all_digit_chars(ds) {
            None
        } else {
            let v = if neg {
                -(digits_val(ds) as int)
            } else {
                digits_val(ds) as int
            };
            if i64::MIN <= v <= i64::MAX {
                Some(v)
            } else {
                None
            }
        }
    }
}

/// Parsing a cents quantity: strip commas, append two zero-padding digits,
/// reposition the first decimal point two digits rightward and truncate
/// there, then read a signed integer.
pub open spec fn spec_parse_cents(s: Seq<char>) -> Option<int> {
    let t = s.filter(|ch: char| ch != ',');
    if excluded_input(t) {
        None
    } else {
        let w = t.push('0').push('0');
        let i = first_dot(w);
        let u = if i >= 0 {
            w.take(i) + seq![w[i + 1], w[i + 2]]
        } else {
            w
        };
        spec_parse_int(u)
    }
}

proof fn lemma_filter_push(s: Seq<char>, pred: spec_fn(char) -> bool, x: char)
    ensures
        s.push(x).filter(pred) == s.filter(pred) + if pred(x) {
            seq![x]
        } else {
            Seq::<char>::empty()
        },
{
    reveal(Seq::filter);
    assert(s.push(x).drop_last() =~= s);
    assert(s.push(x).last() == x);
    if pred(x) {
        assert(s.push(x).filter(pred) =~= s.filter(pred) + seq![x]);
    } else {
        assert(s.push(x).filter(pred) =~= s.filter(pred) + Seq::<char>::empty());
    }
}

proof fn lemma_filter_id(s: Seq<char>, pred: spec_fn(char) -> bool)
    requires
        forall|i: int| 0 <= i < s.len() ==> pred(#[trigger] s[i]),
    ensures
        s.filter(pred) == s,
    decreases s.len(),
{
    reveal(Seq::filter);
    if s.len() > 0 {
        lemma_filter_id(s.drop_last(), pred);
        assert(s.filter(pred) =~= s);
    } else {
        assert(s.filter(pred) =~= s);
    }
}

/// Stripping commas undoes grouping, as long as the input had none.
proof fn lemma_group3_strip(s: Seq<char>, pred: spec_fn(char) -> bool)
    requires
        forall|i: int| 0 <= i < s.len() ==> pred(#[trigger] s[i]),
        !pred(','),
    ensures
        group3(s).filter(pred) == s,
    decreases s.len(),
{
    if s.len() <= 3 {
        lemma_filter_id(s, pred);
    } else {
        let head = s.take(s.len() - 3);
        let tail = s.skip(s.len() - 3);
        lemma_group3_strip(head, pred);
        lemma_filter_id(tail, pred);
        Seq::filter_distributes_over_add(group3(head) + seq![','], tail, pred);
        Seq::filter_distributes_over_add(group3(head), seq![','], pred);
        reveal_with_fuel(Seq::filter, 3);
        assert(seq![','].drop_last() =~= Seq::<char>::empty());
        assert(seq![','].filter(pred) =~= Seq::<char>::empty());
        assert(group3(s) == (group3(head) + seq![',']) + tail);
        assert(group3(s).filter(pred) =~= s);
    }
}

/// A sequence whose first `.` is known.
proof fn lemma_first_dot_at(s: Seq<char>, k: int)
    requires
        0 <= k < s.len(),
        s[k] == '.',
        forall|j: int| 0 <= j < k ==> #[trigger] s[j] != '.',
    ensures
        first_dot(s) == k,
    decreases s.len(),
{
    if k > 0 {
        let t = s.skip(1);
        assert forall|j: int| 0 <= j < k - 1 implies #[trigger] t[j] != '.' by {
            assert(t[j] == s[j + 1]);
        }
        assert(t[k - 1] == s[k]);
        lemma_first_dot_at(t, k - 1);
    }
}

proof fn lemma_no_dot(s: Seq<char>)
    requires
        forall|j: int| 0 <= j < s.len() ==> #[trigger] s[j] != '.',
    ensures
        first_dot(s) == -1,
    decreases s.len(),
{
    if s.len() > 0 {
        let t = s.skip(1);
        assert forall|j: int| 0 <= j < t.len() implies #[trigger] t[j] != '.' by {
            assert(t[j] == s[j + 1]);
        }
        lemma_no_dot(t);
    }
}



pub proof fn lemma_digits_val_padded(n: nat)
    ensures
        digits_val(padded_digits(n)) == n,
{
    lemma_digits_val_digits_seq(n);
    if n < 10 {
        lemma_digits_val_prepend_zero(digits_seq(n));
        lemma_digits_val_prepend_zero(seq!['0'] + digits_seq(n));
        assert((seq!['0', '0'] + digits_seq(n)) =~= seq!['0'] + (seq!['0'] + digits_seq(n)));
    } else if n < 100 {
        lemma_digits_val_prepend_zero(digits_seq(n));
    }
}


/// Parsing recovers any rendered non-negative value exactly.
///
/// Negative values render parenthesized, which the parser does not read
/// back, so they are left out here.
pub proof fn lemma_parse_of_rendered(c: int)
    requires
        0 <= c <= i64::MAX,
    ensures
        spec_parse_cents(cents_text(c)) == Some(c),
{
    let n = c as nat;
    let pd = padded_digits(n);
    lemma_padded_digits_len(n);
    lemma_padded_digits_all_digits(n);
    let whole = pd.take(pd.len() - 2);
    let frac = pd.skip(pd.len() - 2);
    let text = group3(whole) + seq!['.'] + frac;
    assert(cents_text(c) == text);
    let pred = |ch: char| ch != ',';
    assert forall|i: int| 0 <= i < whole.len() implies pred(#[trigger] whole[i]) by {
        assert(whole[i] == pd[i]);
        assert(is_digit_char(pd[i]));
    }
    assert forall|i: int| 0 <= i < frac.len() implies pred(#[trigger] frac[i]) by {
        assert(frac[i] == pd[i + pd.len() - 2]);
        assert(is_digit_char(pd[i + pd.len() - 2]));
    }
    lemma_group3_strip(whole, pred);
    lemma_filter_id(seq!['.'], pred);
    lemma_filter_id(frac, pred);
    Seq::filter_distributes_over_add(group3(whole) + seq!['.'], frac, pred);
    Seq::filter_distributes_over_add(group3(whole), seq!['.'], pred);
    let t = text.filter(pred);
    assert(t =~= whole + seq!['.'] + frac);
    assert(t.len() == whole.len() + 3);
    assert(!excluded_input(t));
    let w = t.push('0').push('0');
    let k = whole.len() as int;
    assert forall|j: int| 0 <= j < k implies #[trigger] w[j] != '.' by {
        assert(w[j] == whole[j]);
        assert(is_digit_char(whole[j]));
    }
    assert(w[k] == '.');
    lemma_first_dot_at(w, k);
    let u = w.take(k) + seq![w[k + 1], w[k + 2]];
    assert(u =~= pd);
    assert forall|i: int| 0 <= i < u.len() implies is_digit_char(#[trigger] u[i]) by {
        assert(u[i] == pd[i]);
    }
    assert(is_digit_char(u[0]));
    assert(u[0] != '+' && u[0] != '-');
    lemma_digits_val_padded(n);
    assert(spec_parse_int(u) == Some(c));
}

/// Rendering is a normal form: rendering what a rendered string parses to
/// gives the same string back. Holds for non-negative parsed values; a
/// negative value renders parenthesized, which the parser rejects.
pub proof fn lemma_rendering_normalizes(s: Seq<char>)
    requires
        spec_parse_cents(s) is Some,
        spec_parse_cents(s)->Some_0 >= 0,
    ensures
        cents_text(spec_parse_cents(cents_text(spec_parse_cents(s)->Some_0))->Some_0)
            == cents_text(spec_parse_cents(s)->Some_0),
{
    let v = spec_parse_cents(s)->Some_0;
    assert(v <= i64::MAX);
    lemma_parse_of_rendered(v);
}

impl Cents {
    /// Parses a cents quantity from a human-readable string, which may
    /// contain comma thousands separators and any number of decimal places.
    /// Decimal places beyond the second are discarded, not rounded.
    pub fn parse(s: &str) -> (r: Option<Cents>)
        ensures
            match r {
                Some(c) => spec_parse_cents(s@) == Some(c.0 as int),
                None => spec_parse_cents(s@) is None,
            },
    {
        let cs = util::chars_of(s);
        let ghost pred = |ch: char| ch != ',';
        let mut t: Vec<char> = Vec::new();
        let mut i: usize = 0;
        #[verifier::loop_isolation(false)]
        while i < cs.len()
            invariant
                i <= cs.len(),
                cs@ == s@,
                t@ == cs@.take(i as int).filter(pred),
            decreases cs.len() - i,
        {
            let c = cs[i];
            proof {
                let prev = cs@.take(i as int);
                assert(cs@.take(i as int + 1) =~= prev.push(c));
                lemma_filter_push(prev, pred, c);
                if c != ',' {
                    assert(pred(c));
                } else {
                    assert(!pred(c));
                    assert(prev.filter(pred) + Seq::<char>::empty() =~= prev.filter(pred));
                }
            }
            if c != ',' {
                t.push(c);
            }
            i = i + 1;
            proof {
                assert(t@ == cs@.take(i as int).filter(pred));
            }
        }
        proof {
            assert(cs@.take(cs@.len() as int) =~= s@);
        }
        let excluded = if t.len() == 0 {
            true
        } else if t.len() == 1 {
            t[0] == '+' || t[0] == '-' || t[0] == '.'
        } else if t.len() == 2 {
            (t[0] == '+' || t[0] == '-') && t[1] == '.'
        } else {
            false
        };
        if excluded {
            return None;
        }
        t.push('0');
        t.push('0');
        let ghost w = t@;
        // locate the first decimal point
        let mut dot: usize = 0;
        let mut has_dot = false;
        let mut j: usize = 0;
        while j < t.len() && !has_dot
            invariant
                j <= t.len(),
                t@ == w,
                !has_dot ==> forall|x: int| 0 <= x < j ==> #[trigger] w[x] != '.',
                has_dot ==> dot < t@.len() && w[dot as int] == '.' && (forall|x: int|
                    0 <= x < dot ==> #[trigger] w[x] != '.'),
            decreases t.len() - j + if has_dot { 0int } else { 1int },
        {
            if t[j] == '.' {
                dot = j;
                has_dot = true;
            } else {
                j = j + 1;
            }
        }
        let u: Vec<char> = if has_dot {
            proof {
                lemma_first_dot_at(w, dot as int);
                assert(w[w.len() - 1] == '0');
                assert(w[w.len() - 2] == '0');
            }
            let mut u: Vec<char> = Vec::new();
            let mut x: usize = 0;
            while x < dot
                invariant
                    x <= dot,
                    dot + 2 < t@.len(),
                    t@ == w,
                    u@ == w.take(x as int),
                decreases dot - x,
            {
                u.push(t[x]);
                proof {
                    assert(u@ =~= w.take(x + 1));
                }
                x = x + 1;
            }
            u.push(t[dot + 1]);
            u.push(t[dot + 2]);
            proof {
                assert(u@ =~= w.take(dot as int) + seq![
                    w[dot as int + 1],
                    w[dot as int + 2],
                ]);
            }
            u
        } else {
            proof {
                lemma_no_dot(w);
            }
            t
        };
        parse_decimal(&u)
    }
}

proof fn lemma_parse_int_cases(u: Seq<char>, ds: Seq<char>, neg: bool, signed: bool)
    requires
        u.len() > 0,
        signed == (u[0] == '+' || u[0] == '-'),
        neg == (u[0] == '-'),
        ds == if signed {
            u.skip(1)
        } else {
            u
        },
        ds.len() > 0,
        all_digit_chars(ds),
    ensures
        spec_parse_int(u) == {
            let v = if neg {
                -(digits_val(ds) as int)
            } else {
                digits_val(ds) as int
            };
            if i64::MIN <= v <= i64::MAX {
                Some(v)
            } else {
                None::<int>
            }
        },
{
}

proof fn lemma_parse_int_nondigit(u: Seq<char>, ds: Seq<char>, signed: bool, k: int)
    requires
        u.len() > 0,
        signed == (u[0] == '+' || u[0] == '-'),
        ds == if signed {
            u.skip(1)
        } else {
            u
        },
        0 <= k < ds.len(),
        !is_digit_char(ds[k]),
    ensures
        spec_parse_int(u) is None,
{
    assert(!all_digit_chars(ds));
}

/// Reads a signed decimal integer, as `i64::from_str` would.
fn parse_decimal(u: &Vec<char>) -> (r: Option<Cents>)
    ensures
        match r {
            Some(c) => spec_parse_int(u@) == Some(c.0 as int),
            None => spec_parse_int(u@) is None,
        },
{
    if u.len() == 0 {
        return None;
    }
    let neg = u[0] == '-';
    let signed = neg || u[0] == '+';
    let start: usize = if signed {
        1
    } else {
        0
    };
    let ghost ds = if signed {
        u@.skip(1)
    } else {
        u@
    };
    if u.len() == start {
        return None;
    }
    let limit: u64 = if neg {
        9223372036854775808
    } else {
        9223372036854775807
    };
    let mut acc: u64 = 0;
    let mut j: usize = start;
    while j < u.len()
        invariant
            u@.len() > 0,
            neg == (u@[0] == '-'),
            signed == (u@[0] == '+' || u@[0] == '-'),
            start <= j <= u@.len(),
            start == if signed {
                1int
            } else {
                0int
            },
            ds == if signed {
                u@.skip(1)
            } else {
                u@
            },
            acc == digits_val(ds.take(j - start)),
            acc <= limit,
            limit == if neg {
                9223372036854775808u64
            } else {
                9223372036854775807u64
            },
            all_digit_chars(ds.take(j - start)),
        decreases u@.len() - j,
    {
        let c = u[j];
        let d: u64 = match c {
            '0' => 0,
            '1' => 1,
            '2' => 2,
            '3' => 3,
            '4' => 4,
            '5' => 5,
            '6' => 6,
            '7' => 7,
            '8' => 8,
            '9' => 9,
            _ => {
                proof {
                    assert(ds[j - start] == c);
                    assert(!is_digit_char(c));
                    lemma_parse_int_nondigit(u@, ds, signed, j - start);
                }
                return None;
            },
        };
        proof {
            assert(is_digit_char(c) && char_digit(c) == d);
        }
        if acc > (limit - d) / 10 {
            proof {
                let k = j - start;
                assert(ds.take(k + 1).drop_last() =~= ds.take(k));
                assert(ds.take(k + 1).last() == c);
                assert(digits_val(ds.take(k + 1)) == acc * 10 + d);
                assert(acc * 10 + d > limit) by (nonlinear_arith)
                    requires
                        acc > (limit - d) / 10,
                        d < 10,
                        limit >= d,
                ;
                lemma_digits_val_prefix_le(ds, k + 1);
                assert(digits_val(ds) > limit);
                if ds.len() > 0 && all_digit_chars(ds) {
                    lemma_parse_int_cases(u@, ds, neg, signed);
                }
            }
            return None;
        }
        proof {
            let k = j - start;
            assert(acc * 10 + d <= limit) by (nonlinear_arith)
                requires
                    acc <= (limit - d) / 10,
                    d < 10,
                    limit >= d,
            ;
            assert(ds.take(k + 1).drop_last() =~= ds.take(k));
            assert(ds.take(k + 1).last() == c);
        }
        acc = acc * 10 + d;
        j = j + 1;
    }
    proof {
        assert(ds.take(ds.len() as int) =~= ds);
        lemma_parse_int_cases(u@, ds, neg, signed);
    }
    if neg {
        if acc == 9223372036854775808 {
            Some(Cents(i64::MIN))
        } else {
            Some(Cents(-(acc as i64)))
        }
    } else {
        Some(Cents(acc as i64))
    }
}



/// Inserts a comma every three characters, counted from the right.
fn group3_string(s: &str) -> (r: String)
    ensures
        r@ == group3(s@),
    decreases s@.len(),
{
    let n = s.unicode_len();
    if n <= 3 {
        s.to_owned()
    } else {
        let head = s.substring_char(0, n - 3);
        let tail = s.substring_char(n - 3, n);
        proof {
            assert(head@ =~= s@.take(s@.len() - 3));
            assert(tail@ =~= s@.skip(s@.len() - 3));
        }
        let mut r = group3_string(head);
        r.append(",");
        r.append(tail);
        proof {
            reveal_strlit(",");
            assert(r@ =~= group3(s@));
        }
        r
    }
}

} // verus!
