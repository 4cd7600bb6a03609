use vstd::prelude::*;

use crate::cents::Cents;
use crate::limits::spec_inception;
use crate::limits::Limits;
use crate::record::Record;
use crate::recordlist::recs_wf;
use crate::recordlist::Recordlist;
use crate::util::chars_of;

verus! {

/// Which room-remaining formula a contribution account follows.
#[derive(Debug, Clone, Copy, PartialEq, Eq, Hash, Structural)]
pub enum Limitkind {
    Rrsp,
    Tfsa,
}

/// Total of the positive amounts dated in or before `year`: the
/// contributions that consume room.
pub open spec fn spec_contributions(s: Seq<Record>, year: int) -> int
    decreases s.len(),
{
    if s.len() == 0 {
        0
    } else {
        spec_contributions(s.drop_last(), year) + if s.last().date.spec_year() <= year
            && s.last().amount.0 > 0 {
            s.last().amount.0 as int
        } else {
            0
        }
    }
}

/// Total magnitude of the negative amounts dated strictly before `year`:
/// the withdrawals whose room is restored by the following year.
pub open spec fn spec_withdrawals_before(s: Seq<Record>, year: int) -> int
    decreases s.len(),
{
    if s.len() == 0 {
        0
    } else {
        spec_withdrawals_before(s.drop_last(), year) + if s.last().date.spec_year() < year
            && s.last().amount.0 < 0 {
            -(s.last().amount.0 as int)
        } else {
            0
        }
    }
}

/// Room remaining at the end of `year`: accumulated limits minus
/// contributions; the Tfsa formula adds back prior-year withdrawals, the
/// Rrsp formula does not.
pub open spec fn spec_remaining(
    kind: Limitkind,
    limits: Seq<(u16, Cents)>,
    records: Seq<Record>,
    year: int,
) -> int {
    spec_inception(limits, year) - spec_contributions(records, year) + match kind {
        Limitkind::Rrsp => 0int,
        Limitkind::Tfsa => spec_withdrawals_before(records, year),
    }
}

/// Contribution sums grow with the records they range over.
pub proof fn lemma_contributions_prefix_le(s: Seq<Record>, year: int, k: int)
    requires
        0 <= k <= s.len(),
    ensures
        0 <= spec_contributions(s.take(k), year) <= spec_contributions(s, year),
    decreases s.len() - k,
{
    if k < s.len() {
        lemma_contributions_prefix_le(s, year, k + 1);
        lemma_contributions_nonneg(s.take(k), year);
        assert(s.take(k + 1).drop_last() =~= s.take(k));
        assert(s.take(k + 1).last() == s[k]);
    } else {
        assert(s.take(k) =~= s);
        lemma_contributions_nonneg(s, year);
    }
}

pub proof fn lemma_contributions_nonneg(s: Seq<Record>, year: int)
    ensures
        spec_contributions(s, year) >= 0,
    decreases s.len(),
{
    if s.len() > 0 {
        lemma_contributions_nonneg(s.drop_last(), year);
    }
}

/// Withdrawal sums grow with the records they range over.
pub proof fn lemma_withdrawals_prefix_le(s: Seq<Record>, year: int, k: int)
    requires
        0 <= k <= s.len(),
    ensures
        0 <= spec_withdrawals_before(s.take(k), year) <= spec_withdrawals_before(s, year),
    decreases s.len() - k,
{
    if k < s.len() {
        lemma_withdrawals_prefix_le(s, year, k + 1);
        lemma_withdrawals_nonneg(s.take(k), year);
        assert(s.take(k + 1).drop_last() =~= s.take(k));
        assert(s.take(k + 1).last() == s[k]);
    } else {
        assert(s.take(k) =~= s);
        lemma_withdrawals_nonneg(s, year);
    }
}

pub proof fn lemma_withdrawals_nonneg(s: Seq<Record>, year: int)
    ensures
        spec_withdrawals_before(s, year) >= 0,
    decreases s.len(),
{
    if s.len() > 0 {
        lemma_withdrawals_nonneg(s.drop_last(), year);
    }
}

/// Total of the positive amounts dated in or before `year`.
fn contributions(rl: &Recordlist, year: u16) -> (r: i64)
    requires
        recs_wf(rl.0@),
        spec_contributions(rl.0@, year as int) <= i64::MAX,
    ensures
        r == spec_contributions(rl.0@, year as int),
{
    let ghost s = rl.0@;
    let n = rl.0.len();
    let mut acc: i64 = 0;
    let mut k: usize = 0;
    #[verifier::loop_isolation(false)]
    while k < n
        invariant
            k <= n,
            acc == spec_contributions(s.take(k as int), year as int),
        decreases n - k,
    {
        proof {
            assert(s.take(k as int + 1).drop_last() =~= s.take(k as int));
            assert(s.take(k as int + 1).last() == s[k as int]);
            lemma_contributions_prefix_le(s, year as int, k as int + 1);
        }
        if rl.0[k].date.year() <= year && rl.0[k].amount.0 > 0 {
            acc = acc + rl.0[k].amount.0;
        }
        k = k + 1;
    }
    proof {
        assert(s.take(n as int) =~= s);
    }
    acc
}

/// Total magnitude of the negative amounts dated strictly before `year`.
fn withdrawals_before(rl: &Recordlist, year: u16) -> (r: i64)
    requires
        recs_wf(rl.0@),
        spec_withdrawals_before(rl.0@, year as int) <= i64::MAX,
    ensures
        r == spec_withdrawals_before(rl.0@, year as int),
{
    let ghost s = rl.0@;
    let n = rl.0.len();
    let mut acc: i64 = 0;
    let mut k: usize = 0;
    #[verifier::loop_isolation(false)]
    while k < n
        invariant
            k <= n,
            acc == spec_withdrawals_before(s.take(k as int), year as int),
        decreases n - k,
    {
        proof {
            assert(s.take(k as int + 1).drop_last() =~= s.take(k as int));
            assert(s.take(k as int + 1).last() == s[k as int]);
            lemma_withdrawals_prefix_le(s, year as int, k as int + 1);
            assert(s[k as int].wf());
        }
        if rl.0[k].date.year() < year && rl.0[k].amount.0 < 0 {
            acc = acc + (-rl.0[k].amount.0);
        }
        k = k + 1;
    }
    proof {
        assert(s.take(n as int) =~= s);
    }
    acc
}

impl Limitkind {
    /// Room remaining at the end of `year` under this account's formula.
    pub fn remaining(self, limits: &Limits, rl: &Recordlist, year: u16) -> (r: Cents)
        requires
            limits.wf(),
            recs_wf(rl.0@),
            i64::MIN <= spec_inception(limits.0@, year as int) <= i64::MAX,
            spec_contributions(rl.0@, year as int) <= i64::MAX,
            spec_withdrawals_before(rl.0@, year as int) <= i64::MAX,
            i64::MIN <= spec_remaining(self, limits.0@, rl.0@, year as int) <= i64::MAX,
        ensures
            r.0 == spec_remaining(self, limits.0@, rl.0@, year as int),
    {
        let room = limits.inception_to_year(year);
        let consumed = contributions(rl, year);
        let back: i64 = match self {
            Limitkind::Rrsp => 0,
            Limitkind::Tfsa => withdrawals_before(rl, year),
        };
        proof {
            lemma_contributions_nonneg(rl.0@, year as int);
            lemma_withdrawals_nonneg(rl.0@, year as int);
        }
        let total: i128 = room.0 as i128 - consumed as i128 + back as i128;
        Cents(total as i64)
    }

    /// The lowercase name of the kind.
    pub fn render(self) -> (r: &'static str)
        ensures
            r@ == limitkind_text(self),
    {
        proof {
            reveal_strlit("rrsp");
            reveal_strlit("tfsa");
            assert(("rrsp")@ =~= seq!['r', 'r', 's', 'p']);
            assert(("tfsa")@ =~= seq!['t', 'f', 's', 'a']);
        }
        match self {
            Limitkind::Rrsp => "rrsp",
            Limitkind::Tfsa => "tfsa",
        }
    }

    /// Reads a kind name, ignoring ASCII case.
    pub fn parse(s: &str) -> (r: Option<Limitkind>)
        ensures
            r == spec_parse_limitkind(s@),
    {
        let cs = chars_of(s);
        if cs.len() != 4 {
            return None;
        }
        let m0 = eq_nocase(cs[0], 'r') && eq_nocase(cs[1], 'r') && eq_nocase(cs[2], 's')
            && eq_nocase(cs[3], 'p');
        if m0 {
            return Some(Limitkind::Rrsp);
        }
        let m1 = eq_nocase(cs[0], 't') && eq_nocase(cs[1], 'f') && eq_nocase(cs[2], 's')
            && eq_nocase(cs[3], 'a');
        if m1 {
            return Some(Limitkind::Tfsa);
        }
        None
    }
}

pub open spec fn limitkind_text(k: Limitkind) -> Seq<char> {
    match k {
        Limitkind::Rrsp => seq!['r', 'r', 's', 'p'],
        Limitkind::Tfsa => seq!['t', 'f', 's', 'a'],
    }
}

/// ASCII-case-insensitive equality with a lowercase letter.
pub open spec fn spec_eq_nocase(c: char, lower: char) -> bool {
    c == lower || c as int == lower as int - 32
}

pub open spec fn spec_parse_limitkind(s: Seq<char>) -> Option<Limitkind> {
    if s.len() == 4 && spec_eq_nocase(s[0], 'r') && spec_eq_nocase(s[1], 'r') && spec_eq_nocase(
        s[2],
        's',
    ) && spec_eq_nocase(s[3], 'p') {
        Some(Limitkind::Rrsp)
    } else if s.len() == 4 && spec_eq_nocase(s[0], 't') && spec_eq_nocase(s[1], 'f')
        && spec_eq_nocase(s[2], 's') && spec_eq_nocase(s[3], 'a') {
        Some(Limitkind::Tfsa)
    } else {
        None
    }
}

/// ASCII-case-insensitive equality with a lowercase letter.
fn eq_nocase(c: char, lower: char) -> (r: bool)
    requires
        'a' <= lower <= 'z',
    ensures
        r == spec_eq_nocase(c, lower),
{
    let cu = c as u32;
    let lu = lower as u32;
    cu == lu || cu + 32 == lu
}

} // verus!
