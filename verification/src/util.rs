use vstd::prelude::*;
use vstd::string::StrSliceExecFns;
use vstd::string::StringExecFns;

verus! {

/// Spaces around the dash fill in a report row: one after the label, one
/// before the value.
pub const BOUNDING_SPACES_COUNT: usize = 2;

/// Fewest dashes a report row may carry.
pub const MIN_DASHES_COUNT: usize = 2;

/// Narrowest terminal the bar chart is sized for.
pub const MIN_TERM_WIDTH: usize = 60;

/// 10^k.
pub open spec fn pow10(k: nat) -> nat
    decreases k,
{
    if k == 0 {
        1
    } else {
        10 * pow10((k - 1) as nat)
    }
}

/// Number of digits in the decimal rendering of `n`.
pub open spec fn spec_digit_count(n: nat) -> nat
    decreases n,
{
    if n < 10 {
        1
    } else {
        1 + spec_digit_count(n / 10)
    }
}

pub proof fn lemma_pow10_positive(k: nat)
    ensures
        pow10(k) >= 1,
    decreases k,
{
    if k > 0 {
        lemma_pow10_positive((k - 1) as nat);
    }
}

pub proof fn lemma_pow10_18_19_20()
    ensures
        pow10(18) == 1000000000000000000,
        pow10(19) == 10000000000000000000,
        pow10(20) == 100000000000000000000,
{
    reveal_with_fuel(pow10, 21);
}

pub proof fn lemma_pow10_increases(j: nat, k: nat)
    requires
        j <= k,
    ensures
        pow10(j) <= pow10(k),
    decreases k,
{
    lemma_pow10_positive(j);
    if j < k {
        lemma_pow10_increases(j, (k - 1) as nat);
        lemma_pow10_positive((k - 1) as nat);
        assert(pow10(k) == 10 * pow10((k - 1) as nat));
    }
}

/// The digit count is determined by the bracketing powers of ten.
pub proof fn lemma_digit_count_from_bounds(n: nat, k: nat)
    requires
        k >= 1,
        pow10((k - 1) as nat) <= n,
        n < pow10(k),
    ensures
        spec_digit_count(n) == k,
    decreases k,
{
    if k == 1 {
        assert(pow10(1) == 10 * pow10(0));
        assert(n < 10);
    } else {
        assert(pow10((k - 1) as nat) == 10 * pow10((k - 2) as nat));
        assert(pow10(k) == 10 * pow10((k - 1) as nat));
        assert(n >= 10) by {
            lemma_pow10_positive((k - 2) as nat);
        }
        assert(pow10((k - 2) as nat) <= n / 10 && n / 10 < pow10((k - 1) as nat))
            by (nonlinear_arith)
            requires
                10 * pow10((k - 2) as nat) <= n,
                n < 10 * pow10((k - 1) as nat),
        ;
        lemma_digit_count_from_bounds(n / 10, (k - 1) as nat);
    }
}

pub proof fn lemma_digit_count_le(m: nat, n: nat)
    requires
        m <= n,
    ensures
        spec_digit_count(m) <= spec_digit_count(n),
    decreases n,
{
    if m >= 10 {
        assert(m / 10 <= n / 10) by (nonlinear_arith)
            requires
                m <= n,
        ;
        lemma_digit_count_le(m / 10, n / 10);
    }
}

/// The characters of `s`, as a vector.
pub fn chars_of(s: &str) -> (v: Vec<char>)
    ensures
        v@ == s@,
{
    let n = s.unicode_len();
    let mut v: Vec<char> = Vec::new();
    let mut i: usize = 0;
    while i < n
        invariant
            i <= n,
            n == s@.len(),
            v@ == s@.take(i as int),
        decreases n - i,
    {
        v.push(s.get_char(i));
        i = i + 1;
        proof {
            assert(v@ =~= s@.take(i as int));
        }
    }
    proof {
        assert(s@.take(n as int) =~= s@);
    }
    v
}

/// `piece` repeated `n` times.
pub open spec fn repeat_seq(piece: Seq<char>, n: nat) -> Seq<char>
    decreases n,
{
    if n == 0 {
        Seq::empty()
    } else {
        repeat_seq(piece, (n - 1) as nat) + piece
    }
}

pub proof fn lemma_repeat_seq_len(piece: Seq<char>, n: nat)
    ensures
        repeat_seq(piece, n).len() == n * piece.len(),
    decreases n,
{
    if n > 0 {
        let m = (n - 1) as nat;
        lemma_repeat_seq_len(piece, m);
        assert(repeat_seq(piece, n).len() == m * piece.len() + piece.len());
        assert(m * piece.len() + piece.len() == n * piece.len()) by (nonlinear_arith)
            requires
                n == m + 1,
        ;
    } else {
        assert(repeat_seq(piece, n).len() == 0);
        assert(n * piece.len() == 0) by (nonlinear_arith)
            requires
                n == 0,
        ;
    }
}

/// Concatenates `n` copies of `piece`.
pub fn repeat_str(piece: &str, n: usize) -> (r: String)
    ensures
        r@ == repeat_seq(piece@, n as nat),
{
    let mut r = String::new();
    let mut i: usize = 0;
    while i < n
        invariant
            i <= n,
            r@ == repeat_seq(piece@, i as nat),
        decreases n - i,
    {
        r.append(piece);
        i = i + 1;
    }
    r
}

/// Decimal digit count of `n`, without building a string.
pub fn count_digits(n: u64) -> (count: usize)
    ensures
        count == spec_digit_count(n as nat),
{
    if n >= 10000000000000000000 {
        proof {
            lemma_pow10_18_19_20();
            lemma_digit_count_from_bounds(n as nat, 20);
        }
        return 20;
    }
    let mut count: usize = 1;
    let mut ceil: u64 = 10;
    proof {
        reveal_with_fuel(pow10, 3);
    }
    while n >= ceil
        invariant
            1 <= count <= 19,
            ceil == pow10(count as nat),
            n < 10000000000000000000,
            count == 1 || pow10((count - 1) as nat) <= n,
        decreases 10000000000000000000u64 - ceil,
    {
        proof {
            lemma_pow10_18_19_20();
            if count >= 19 {
                lemma_pow10_increases(19, count as nat);
                assert(false);
            }
            lemma_pow10_increases(count as nat, 18);
            lemma_pow10_increases((count + 1) as nat, 19);
            lemma_pow10_positive(count as nat);
            assert(pow10((count + 1) as nat) == 10 * pow10(count as nat));
        }
        ceil = ceil * 10;
        count = count + 1;
    }
    proof {
        if n == 0 {
            assert(spec_digit_count(0) == 1);
        } else {
            if count == 1 {
                lemma_pow10_positive(0);
                reveal_with_fuel(pow10, 2);
            }
            lemma_digit_count_from_bounds(n as nat, count as nat);
        }
    }
    count
}

} // verus!
