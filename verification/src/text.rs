use vstd::prelude::*;
use vstd::string::StringExecFns;

use crate::util::spec_digit_count;

verus! {

/// The decimal digit characters, in order.
pub open spec fn digit_char(d: nat) -> char {
    if d == 0 {
        '0'
    } else if d == 1 {
        '1'
    } else if d == 2 {
        '2'
    } else if d == 3 {
        '3'
    } else if d == 4 {
        '4'
    } else if d == 5 {
        '5'
    } else if d == 6 {
        '6'
    } else if d == 7 {
        '7'
    } else if d == 8 {
        '8'
    } else {
        '9'
    }
}

pub open spec fn is_digit_char(c: char) -> bool {
    c == '0' || c == '1' || c == '2' || c == '3' || c == '4' || c == '5' || c == '6' || c == '7'
        || c == '8' || c == '9'
}

/// The value of a decimal digit character; meaningful only on digits.
pub open spec fn char_digit(c: char) -> nat {
    if c == '0' {
        0
    } else if c == '1' {
        1
    } else if c == '2' {
        2
    } else if c == '3' {
        3
    } else if c == '4' {
        4
    } else if c == '5' {
        5
    } else if c == '6' {
        6
    } else if c == '7' {
        7
    } else if c == '8' {
        8
    } else {
        9
    }
}

/// The decimal digits of `n`, most significant first, no padding.
pub open spec fn digits_seq(n: nat) -> Seq<char>
    decreases n,
{
    if n < 10 {
        seq![digit_char(n)]
    } else {
        digits_seq(n / 10).push(digit_char(n % 10))
    }
}

pub open spec fn all_digit_chars(s: Seq<char>) -> bool {
    forall|i: int| 0 <= i < s.len() ==> is_digit_char(#[trigger] s[i])
}

/// The value of a sequence of decimal digit characters.
pub open spec fn digits_val(s: Seq<char>) -> nat
    decreases s.len(),
{
    if s.len() == 0 {
        0
    } else {
        digits_val(s.drop_last()) * 10 + char_digit(s.last())
    }
}

pub proof fn lemma_digits_seq_len(n: nat)
    ensures
        digits_seq(n).len() == spec_digit_count(n),
    decreases n,
{
    if n >= 10 {
        lemma_digits_seq_len(n / 10);
    }
}

pub proof fn lemma_digits_seq_all_digits(n: nat)
    ensures
        forall|i: int| 0 <= i < digits_seq(n).len() ==> is_digit_char(#[trigger] digits_seq(n)[i]),
    decreases n,
{
    if n < 10 {
        assert(digits_seq(n) == seq![digit_char(n)]);
        assert(is_digit_char(digit_char(n)));
        assert(digits_seq(n)[0] == digit_char(n));
    } else {
        lemma_digits_seq_all_digits(n / 10);
        let prev = digits_seq(n / 10);
        assert(digits_seq(n) == prev.push(digit_char(n % 10)));
        assert(is_digit_char(digit_char(n % 10)));
        assert forall|i: int| 0 <= i < digits_seq(n).len() implies is_digit_char(
            #[trigger] digits_seq(n)[i],
        ) by {
            if i < prev.len() {
                assert(digits_seq(n)[i] == prev[i]);
            }
        }
    }
}

pub proof fn lemma_digits_val_prepend_zero(s: Seq<char>)
    ensures
        digits_val(seq!['0'] + s) == digits_val(s),
    decreases s.len(),
{
    if s.len() == 0 {
        assert((seq!['0'] + s) =~= seq!['0']);
        assert(digits_val(seq!['0']) == digits_val(seq!['0'].drop_last()) * 10 + char_digit('0'));
        assert(seq!['0'].drop_last() =~= Seq::<char>::empty());
    } else {
        assert((seq!['0'] + s).drop_last() =~= seq!['0'] + s.drop_last());
        assert((seq!['0'] + s).last() == s.last());
        lemma_digits_val_prepend_zero(s.drop_last());
    }
}

pub proof fn lemma_digits_val_digits_seq(n: nat)
    ensures
        digits_val(digits_seq(n)) == n,
    decreases n,
{
    if n < 10 {
        reveal_with_fuel(digits_val, 3);
        assert(digits_seq(n) =~= seq![digit_char(n)]);
        assert(seq![digit_char(n)].drop_last() =~= Seq::<char>::empty());
        assert(digits_val(seq![digit_char(n)]) == digits_val(Seq::<char>::empty()) * 10
            + char_digit(digit_char(n)));
        assert(char_digit(digit_char(n)) == n);
    } else {
        lemma_digits_val_digits_seq(n / 10);
        let prev = digits_seq(n / 10);
        assert(prev.push(digit_char(n % 10)).drop_last() =~= prev);
        assert(char_digit(digit_char(n % 10)) == n % 10);
        assert(digits_val(digits_seq(n)) == (n / 10) * 10 + n % 10);
        assert((n / 10) * 10 + n % 10 == n) by (nonlinear_arith);
    }
}

/// A prefix of a digit string never has a larger value.
pub proof fn lemma_digits_val_prefix_le(s: Seq<char>, j: int)
    requires
        0 <= j <= s.len(),
    ensures
        digits_val(s.take(j)) <= digits_val(s),
    decreases s.len() - j,
{
    if j < s.len() {
        assert(s.take(j + 1).drop_last() =~= s.take(j));
        assert(digits_val(s.take(j + 1)) == digits_val(s.take(j)) * 10 + char_digit(
            s.take(j + 1).last(),
        ));
        assert(digits_val(s.take(j)) * 10 >= digits_val(s.take(j))) by (nonlinear_arith);
        lemma_digits_val_prefix_le(s, j + 1);
        assert(s.take(s.len() as int) =~= s);
    } else {
        assert(s.take(j) =~= s);
    }
}

/// One decimal digit as a string.
pub fn digit_str(d: u64) -> (s: &'static str)
    requires
        d < 10,
    ensures
        s@ == seq![digit_char(d as nat)],
{
    proof {
        reveal_strlit("0");
        reveal_strlit("1");
        reveal_strlit("2");
        reveal_strlit("3");
        reveal_strlit("4");
        reveal_strlit("5");
        reveal_strlit("6");
        reveal_strlit("7");
        reveal_strlit("8");
        reveal_strlit("9");
        assert("0"@ =~= seq!['0']);
        assert("1"@ =~= seq!['1']);
        assert("2"@ =~= seq!['2']);
        assert("3"@ =~= seq!['3']);
        assert("4"@ =~= seq!['4']);
        assert("5"@ =~= seq!['5']);
        assert("6"@ =~= seq!['6']);
        assert("7"@ =~= seq!['7']);
        assert("8"@ =~= seq!['8']);
        assert("9"@ =~= seq!['9']);
    }
    match d {
        0 => "0",
        1 => "1",
        2 => "2",
        3 => "3",
        4 => "4",
        5 => "5",
        6 => "6",
        7 => "7",
        8 => "8",
        _ => "9",
    }
}

/// The decimal digits of `n`, most significant first.
pub fn digits_string(n: u64) -> (s: String)
    ensures
        s@ == digits_seq(n as nat),
    decreases n,
{
    if n < 10 {
        let mut s = String::new();
        s.append(digit_str(n));
        proof {
            assert(s@ =~= digits_seq(n as nat));
        }
        s
    } else {
        let mut s = digits_string(n / 10);
        s.append(digit_str(n % 10));
        proof {
            assert(s@ =~= digits_seq(n as nat));
        }
        s
    }
}

/// `digits_val` never exceeds what its length allows.
pub proof fn lemma_digits_val_bound(s: Seq<char>)
    ensures
        digits_val(s) < crate::util::pow10(s.len()),
    decreases s.len(),
{
    if s.len() == 0 {
    } else {
        lemma_digits_val_bound(s.drop_last());
        let p = crate::util::pow10((s.len() - 1) as nat);
        assert(crate::util::pow10(s.len()) == 10 * p);
        assert(digits_val(s.drop_last()) * 10 <= (p - 1) * 10) by (nonlinear_arith)
            requires
                digits_val(s.drop_last()) <= p - 1,
        ;
        assert(char_digit(s.last()) <= 9);
    }
}

/// `s` zero-padded on the left to at least `k` characters.
pub open spec fn zero_pad(s: Seq<char>, k: int) -> Seq<char> {
    if s.len() >= k {
        s
    } else {
        crate::util::repeat_seq(seq!['0'], (k - s.len()) as nat) + s
    }
}

/// The decimal digits of `n`, zero-padded on the left to `k` characters.
pub open spec fn padded_num(n: nat, k: int) -> Seq<char> {
    zero_pad(digits_seq(n), k)
}

/// A padded number is as wide as the padding or the digits, whichever is
/// more.
pub proof fn lemma_padded_num_len(n: nat, k: int)
    ensures
        padded_num(n, k).len() == if spec_digit_count(n) >= k {
            spec_digit_count(n) as int
        } else {
            k
        },
{
    lemma_digits_seq_len(n);
    if digits_seq(n).len() < k {
        let m = (k - digits_seq(n).len()) as nat;
        crate::util::lemma_repeat_seq_len(seq!['0'], m);
        assert(seq!['0'].len() == 1);
        assert(m * seq!['0'].len() == m) by (nonlinear_arith)
            requires
                seq!['0'].len() == 1,
        ;
    }
}

/// Renders `n` in decimal, zero-padded on the left to at least `k`
/// characters.
pub fn padded_num_string(n: u64, k: usize) -> (r: String)
    ensures
        r@ == padded_num(n as nat, k as int),
{
    let ds = digits_string(n);
    let len = ds.unicode_len();
    if len >= k {
        ds
    } else {
        let mut r = crate::util::repeat_str("0", k - len);
        proof {
            reveal_strlit("0");
            assert(("0")@ =~= seq!['0']);
        }
        r.append(ds.as_str());
        r
    }
}

/// What `i32::from_str` accepts: an optional sign, then one or more decimal
/// digits, the value within the bounds of the type.
pub open spec fn spec_parse_i32(u: Seq<char>) -> Option<int> {
    if u.len() == 0 {
        None
    } else {
        let neg = u[0] == '-';
        let ds = if u[0] == '+' || u[0] == '-' {
            u.skip(1)
        } else {
            u
        };
        if ds.len() == 0 || !all_digit_chars(ds) {
            None
        } else {
            let v = if neg {
                -(digits_val(ds) as int)
            } else {
                digits_val(ds) as int
            };
            if i32::MIN <= v <= i32::MAX {
                Some(v)
            } else {
                None
            }
        }
    }
}

proof fn lemma_parse_i32_cases(u: Seq<char>, ds: Seq<char>, neg: bool, signed: bool)
    requires
        u.len() > 0,
        signed == (u[0] == '+' || u[0] == '-'),
        neg == (u[0] == '-'),
        ds == if signed {
            u.skip(1)
        } else {
            u
        },
        ds.len() > 0,
        all_digit_chars(ds),
    ensures
        spec_parse_i32(u) == {
            let v = if neg {
                -(digits_val(ds) as int)
            } else {
                digits_val(ds) as int
            };
            if i32::MIN <= v <= i32::MAX {
                Some(v)
            } else {
                None::<int>
            }
        },
{
}

/// Reads a signed 32-bit decimal integer from `u[from..]`, as
/// `i32::from_str` would.
pub fn parse_i32_from(u: &Vec<char>, from: usize) -> (r: Option<i32>)
    requires
        from <= u@.len(),
    ensures
        match r {
            Some(v) => spec_parse_i32(u@.skip(from as int)) == Some(v as int),
            None => spec_parse_i32(u@.skip(from as int)) is None,
        },
{
    let ghost w = u@.skip(from as int);
    if u.len() == from {
        return None;
    }
    let neg = u[from] == '-';
    let signed = neg || u[from] == '+';
    let start: usize = if signed {
        from + 1
    } else {
        from
    };
    let ghost ds = if signed {
        w.skip(1)
    } else {
        w
    };
    proof {
        if signed {
            assert(ds =~= u@.skip(start as int));
        } else {
            assert(ds =~= u@.skip(start as int));
        }
    }
    if u.len() == start {
        return None;
    }
    let limit: u32 = if neg {
        2147483648
    } else {
        2147483647
    };
    let mut acc: u32 = 0;
    let mut j: usize = start;
    while j < u.len()
        invariant
            w == u@.skip(from as int),
            w.len() > 0,
            neg == (w[0] == '-'),
            signed == (w[0] == '+' || w[0] == '-'),
            from <= start <= j <= u@.len(),
            start == from + if signed {
                1int
            } else {
                0int
            },
            ds == u@.skip(start as int),
            ds == if signed {
                w.skip(1)
            } else {
                w
            },
            acc == digits_val(ds.take(j - start)),
            acc <= limit,
            limit == if neg {
                2147483648u32
            } else {
                2147483647u32
            },
            all_digit_chars(ds.take(j - start)),
        decreases u@.len() - j,
    {
        let c = u[j];
        let d: u32 = match c {
            '0' => 0,
            '1' => 1,
            '2' => 2,
            '3' => 3,
            '4' => 4,
            '5' => 5,
            '6' => 6,
            '7' => 7,
            '8' => 8,
            '9' => 9,
            _ => {
                proof {
                    assert(ds[j - start] == c);
                    assert(!is_digit_char(c));
                    assert(!all_digit_chars(ds));
                }
                return None;
            },
        };
        proof {
            assert(is_digit_char(c) && char_digit(c) == d);
        }
        if acc > (limit - d) / 10 {
            proof {
                let k = j - start;
                assert(ds.take(k + 1).drop_last() =~= ds.take(k));
                assert(ds.take(k + 1).last() == c);
                assert(digits_val(ds.take(k + 1)) == acc * 10 + d);
                assert(acc * 10 + d > limit) by (nonlinear_arith)
                    requires
                        acc > (limit - d) / 10,
                        d < 10,
                        limit >= d,
                ;
                lemma_digits_val_prefix_le(ds, k + 1);
                assert(digits_val(ds) > limit);
                if ds.len() > 0 && all_digit_chars(ds) {
                    lemma_parse_i32_cases(w, ds, neg, signed);
                }
            }
            return None;
        }
        proof {
            let k = j - start;
            assert(acc * 10 + d <= limit) by (nonlinear_arith)
                requires
                    acc <= (limit - d) / 10,
                    d < 10,
                    limit >= d,
            ;
            assert(ds.take(k + 1).drop_last() =~= ds.take(k));
            assert(ds.take(k + 1).last() == c);
        }
        acc = acc * 10 + d;
        j = j + 1;
    }
    proof {
        assert(ds.take(ds.len() as int) =~= ds);
        lemma_parse_i32_cases(w, ds, neg, signed);
    }
    if neg {
        if acc == 2147483648 {
            Some(i32::MIN)
        } else {
            Some(-(acc as i32))
        }
    } else {
        Some(acc as i32)
    }
}

/// Lexicographic order on character sequences, by code point; what the
/// standard string ordering gives for these labels.
pub open spec fn str_le(a: Seq<char>, b: Seq<char>) -> bool
    decreases a.len(),
{
    if a.len() == 0 {
        true
    } else if b.len() == 0 {
        false
    } else if a[0] != b[0] {
        (a[0] as u32) < (b[0] as u32)
    } else {
        str_le(a.skip(1), b.skip(1))
    }
}

/// Lexicographic comparison of two strings.
pub fn str_le_exec(a: &str, b: &str) -> (r: bool)
    ensures
        r == str_le(a@, b@),
{
    let ca = crate::util::chars_of(a);
    let cb = crate::util::chars_of(b);
    let na = ca.len();
    let nb = cb.len();
    proof {
        assert(a@.skip(0) =~= a@);
        assert(b@.skip(0) =~= b@);
    }
    let mut i: usize = 0;
    #[verifier::loop_isolation(false)]
    while i < na && i < nb
        invariant
            i <= na && i <= nb,
            forall|x: int| 0 <= x < i ==> ca@[x] == cb@[x],
            str_le(a@, b@) == str_le(a@.skip(i as int), b@.skip(i as int)),
        decreases na - i,
    {
        let x = ca[i];
        let y = cb[i];
        if x != y {
            proof {
                assert(a@.skip(i as int)[0] == x && b@.skip(i as int)[0] == y);
            }
            return (x as u32) < (y as u32);
        }
        proof {
            assert(a@.skip(i as int)[0] == x && b@.skip(i as int)[0] == y);
            assert(a@.skip(i as int).skip(1) =~= a@.skip(i as int + 1));
            assert(b@.skip(i as int).skip(1) =~= b@.skip(i as int + 1));
        }
        i = i + 1;
    }
    proof {
        assert(a@.skip(i as int).len() == 0 || b@.skip(i as int).len() == 0);
    }
    na <= nb
}

} // verus!
