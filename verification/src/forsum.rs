use vstd::prelude::*;
use vstd::string::StrSliceExecFns;
use vstd::string::StringExecFns;

use crate::aggregate::entries_view;
use crate::aggregate::key_idx;
use crate::aggregate::Aggregate;
use crate::category::spec_level;
use crate::cents::Cents;
use crate::charset::Charset;
use crate::layout::row_text;
use crate::layout::spec_row;
use crate::layout::spec_row_width;
use crate::record::Record;
use crate::recordlist::recs_wf;
use crate::recordlist::Recordlist;
use crate::text::str_le;
use crate::text::str_le_exec;
use crate::tree::lemma_nodes_view_index;
use crate::tree::nodes_view;
use crate::tree::Node;
use crate::tree::NodeV;
use crate::tree::Tree;

verus! {

/// Inputs of the totals report: the records, already filtered by the
/// caller, and the category level to group at.
pub struct Config {
    pub charset: Charset,
    pub level: usize,
    pub rl: Recordlist,
}

/// The grouping label of a record.
pub open spec fn label_of(r: Record, level: nat) -> Seq<char> {
    spec_level(r.category.0@, level)
}

/// Index of the first pair carrying this label; the length if none does.
pub open spec fn pair_idx(ps: Seq<(Seq<char>, int)>, lbl: Seq<char>) -> int
    decreases ps.len(),
{
    if ps.len() == 0 {
        0
    } else if ps[0].0 == lbl {
        0
    } else {
        1 + pair_idx(ps.skip(1), lbl)
    }
}

/// The label-to-sum pairs one side of the report accumulates, in the order
/// the labels were first seen: the positive side sums positive amounts, the
/// negative side negative ones.
pub open spec fn agg_pairs(s: Seq<Record>, level: nat, positive: bool) -> Seq<(Seq<char>, int)>
    decreases s.len(),
{
    if s.len() == 0 {
        Seq::empty()
    } else {
        let prev = agg_pairs(s.drop_last(), level, positive);
        let r = s.last();
        if (positive && r.amount.0 > 0) || (!positive && r.amount.0 < 0) {
            let lbl = label_of(r, level);
            let i = pair_idx(prev, lbl);
            if i < prev.len() {
                prev.update(i, (lbl, prev[i].1 + r.amount.0))
            } else {
                prev.push((lbl, r.amount.0 as int))
            }
        } else {
            prev
        }
    }
}

/// Total of the positive amounts.
pub open spec fn sum_pos(s: Seq<Record>) -> int
    decreases s.len(),
{
    if s.len() == 0 {
        0
    } else {
        sum_pos(s.drop_last()) + if s.last().amount.0 > 0 {
            s.last().amount.0 as int
        } else {
            0
        }
    }
}

/// Total of the negative amounts.
pub open spec fn sum_neg(s: Seq<Record>) -> int
    decreases s.len(),
{
    if s.len() == 0 {
        0
    } else {
        sum_neg(s.drop_last()) + if s.last().amount.0 < 0 {
            s.last().amount.0 as int
        } else {
            0
        }
    }
}

pub open spec fn spec_abs(v: int) -> int {
    if v < 0 {
        -v
    } else {
        v
    }
}

/// Display order of the report's pairs: larger magnitudes first, then
/// smaller signed value, then the label.
pub open spec fn pair_before(a: (Seq<char>, int), b: (Seq<char>, int)) -> bool {
    if spec_abs(a.1) != spec_abs(b.1) {
        spec_abs(a.1) > spec_abs(b.1)
    } else if a.1 != b.1 {
        a.1 < b.1
    } else {
        str_le(a.0, b.0)
    }
}

/// Where a pair lands in a run sorted by `pair_before`: after everything
/// that stands at or before it.
pub open spec fn sort_pos(ps: Seq<(Seq<char>, int)>, x: (Seq<char>, int)) -> int
    decreases ps.len(),
{
    if ps.len() == 0 {
        0
    } else if pair_before(ps[0], x) {
        1 + sort_pos(ps.skip(1), x)
    } else {
        0
    }
}

pub open spec fn spec_sort_insert(ps: Seq<(Seq<char>, int)>, x: (Seq<char>, int)) -> Seq<
    (Seq<char>, int),
> {
    let p = sort_pos(ps, x);
    ps.take(p) + seq![x] + ps.skip(p)
}

/// The pairs sorted into display order, by inserting them one by one.
pub open spec fn spec_sorted_pairs(ps: Seq<(Seq<char>, int)>) -> Seq<(Seq<char>, int)>
    decreases ps.len(),
{
    if ps.len() == 0 {
        Seq::empty()
    } else {
        spec_sort_insert(spec_sorted_pairs(ps.drop_last()), ps.last())
    }
}

/// The widest row a run of pairs needs.
pub open spec fn pairs_max_width(ps: Seq<(Seq<char>, int)>) -> int
    decreases ps.len(),
{
    if ps.len() == 0 {
        0
    } else {
        let w = spec_row_width(ps.last().0.len() as int, ps.last().1);
        let rest = pairs_max_width(ps.drop_last());
        if w >= rest {
            w
        } else {
            rest
        }
    }
}

/// One leaf row per pair.
pub open spec fn pair_rows(ps: Seq<(Seq<char>, int)>, align: int, dash: Seq<char>) -> Seq<NodeV> {
    Seq::new(
        ps.len(),
        |i: int|
            NodeV { data: spec_row(ps[i].0, ps[i].1, align, dash), children: Seq::empty() },
    )
}

/// The three summary pairs: In, Out, and their Total.
pub open spec fn net_pairs(s: Seq<Record>) -> Seq<(Seq<char>, int)> {
    seq![
        (("In")@, sum_pos(s)),
        (("Out")@, sum_neg(s)),
        (("Total")@, sum_pos(s) + sum_neg(s)),
    ]
}

/// The report's sections: In and Out where they have entries, then Net.
pub open spec fn spec_sum_sections(
    posv: Seq<(Seq<char>, int)>,
    negv: Seq<(Seq<char>, int)>,
    totv: Seq<(Seq<char>, int)>,
    align: int,
    dash: Seq<char>,
) -> Seq<NodeV> {
    (if posv.len() > 0 {
        seq![NodeV { data: ("In")@, children: pair_rows(posv, align, dash) }]
    } else {
        Seq::empty()
    }) + (if negv.len() > 0 {
        seq![NodeV { data: ("Out")@, children: pair_rows(negv, align, dash) }]
    } else {
        Seq::empty()
    }) + seq![NodeV { data: ("Net")@, children: pair_rows(totv, align, dash) }]
}

/// Every record can be rendered and measured.
pub open spec fn sum_inputs_ok(s: Seq<Record>) -> bool {
    forall|k: int|
        0 <= k < s.len() ==> (#[trigger] s[k]).category.0@.len() + 67 < usize::MAX / 2
}

pub proof fn lemma_sum_pos_prefix(s: Seq<Record>, k: int)
    requires
        0 <= k <= s.len(),
    ensures
        0 <= sum_pos(s.take(k)) <= sum_pos(s),
        sum_neg(s) <= sum_neg(s.take(k)) <= 0,
    decreases s.len() - k,
{
    if k < s.len() {
        lemma_sum_pos_prefix(s, k + 1);
        lemma_sum_signs(s.take(k));
        assert(s.take(k + 1).drop_last() =~= s.take(k));
        assert(s.take(k + 1).last() == s[k]);
    } else {
        assert(s.take(k) =~= s);
        lemma_sum_signs(s);
    }
}

/// One-signed totals split over concatenation.
pub proof fn lemma_sum_append(a: Seq<Record>, c: Seq<Record>)
    ensures
        sum_pos(a + c) == sum_pos(a) + sum_pos(c),
        sum_neg(a + c) == sum_neg(a) + sum_neg(c),
    decreases c.len(),
{
    if c.len() == 0 {
        assert(a + c =~= a);
    } else {
        lemma_sum_append(a, c.drop_last());
        assert((a + c).drop_last() =~= a + c.drop_last());
        assert((a + c).last() == c.last());
    }
}

pub proof fn lemma_sum_signs(s: Seq<Record>)
    ensures
        sum_pos(s) >= 0,
        sum_neg(s) <= 0,
    decreases s.len(),
{
    if s.len() > 0 {
        lemma_sum_signs(s.drop_last());
    }
}

proof fn lemma_pair_key_idx(s: Seq<(String, Cents)>, v: Seq<char>)
    ensures
        pair_idx(entries_view(s), v) == key_idx(s, v),
    decreases s.len(),
{
    if s.len() > 0 {
        lemma_pair_key_idx(s.skip(1), v);
        assert(entries_view(s).skip(1) =~= entries_view(s.skip(1)));
        assert(entries_view(s)[0].0 == s[0].0@);
    }
}

proof fn lemma_sort_pos_at(ps: Seq<(Seq<char>, int)>, x: (Seq<char>, int), p: int)
    requires
        0 <= p <= ps.len(),
        forall|i: int| 0 <= i < p ==> pair_before(#[trigger] ps[i], x),
        p < ps.len() ==> !pair_before(ps[p], x),
    ensures
        sort_pos(ps, x) == p,
    decreases ps.len(),
{
    if ps.len() > 0 {
        if p == 0 {
        } else {
            let t = ps.skip(1);
            assert forall|i: int| 0 <= i < p - 1 implies pair_before(#[trigger] t[i], x) by {
                assert(t[i] == ps[i + 1]);
            }
            if p - 1 < t.len() {
                assert(t[p - 1] == ps[p]);
            }
            lemma_sort_pos_at(t, x, p - 1);
        }
    }
}

/// Display-order comparison of two labeled amounts.
fn pair_before_exec(a: &(String, Cents), b: &(String, Cents)) -> (r: bool)
    requires
        a.1.0 > i64::MIN,
        b.1.0 > i64::MIN,
    ensures
        r == pair_before((a.0@, a.1.0 as int), (b.0@, b.1.0 as int)),
{
    let aa: i64 = if a.1.0 < 0 {
        -a.1.0
    } else {
        a.1.0
    };
    let ab: i64 = if b.1.0 < 0 {
        -b.1.0
    } else {
        b.1.0
    };
    if aa != ab {
        aa > ab
    } else if a.1.0 != b.1.0 {
        a.1.0 < b.1.0
    } else {
        str_le_exec(a.0.as_str(), b.0.as_str())
    }
}

/// Sorts labeled amounts into display order by repeated insertion.
fn sort_pairs(v: Vec<(String, Cents)>) -> (r: Vec<(String, Cents)>)
    requires
        forall|k: int| 0 <= k < v@.len() ==> (#[trigger] v@[k]).1.0 > i64::MIN,
    ensures
        entries_view(r@) == spec_sorted_pairs(entries_view(v@)),
        forall|k: int|
            0 <= k < r@.len() ==> exists|j: int|
                0 <= j < v@.len() && (#[trigger] r@[k]).0@ == v@[j].0@ && r@[k].1 == v@[j].1,
{
    let ghost orig = v@;
    let mut v = v;
    let n0 = v.len();
    proof {
        assert(orig.len() == n0);
    }
    let mut out: Vec<(String, Cents)> = Vec::new();
    proof {
        assert(entries_view(out@) =~= spec_sorted_pairs(entries_view(orig.take(0))));
        assert(v@ == orig.skip(0));
    }
    let mut done: usize = 0;
    #[verifier::loop_isolation(false)]
    while v.len() > 0
        invariant
            orig.len() <= usize::MAX,
            done <= orig.len(),
            done + v@.len() == orig.len(),
            v@ == orig.skip(done as int),
            entries_view(out@) == spec_sorted_pairs(entries_view(orig.take(done as int))),
            forall|k: int| 0 <= k < orig.len() ==> (#[trigger] orig[k]).1.0 > i64::MIN,
            forall|k: int|
                0 <= k < out@.len() ==> exists|j: int|
                    0 <= j < orig.len() && (#[trigger] out@[k]).0@ == orig[j].0@ && out@[k].1
                        == orig[j].1,
        decreases v@.len(),
    {
        let e = v.remove(0);
        proof {
            assert(e == orig[done as int]);
            assert(v@ =~= orig.skip(done as int + 1));
        }
        let mut p: usize = 0;
        #[verifier::loop_isolation(false)]
        while p < out.len() && pair_before_exec(&out[p], &e)
            invariant
                p <= out@.len(),
                forall|i: int|
                    0 <= i < p ==> pair_before(
                        ((#[trigger] out@[i]).0@, out@[i].1.0 as int),
                        (e.0@, e.1.0 as int),
                    ),
            decreases out@.len() - p + 1,
        {
            p = p + 1;
        }
        let ghost before = out@;
        out.insert(p, e);
        proof {
            assert(done < orig.len());
        }
        done = done + 1;
        proof {
            lemma_sort_pos_at(entries_view(before), (e.0@, e.1.0 as int), p as int);
            assert(entries_view(before)
                == spec_sorted_pairs(entries_view(orig.take(done - 1))));
            assert(entries_view(orig.take(done as int)).drop_last() =~= entries_view(
                orig.take(done - 1),
            ));
            assert(entries_view(orig.take(done as int)).last() == (e.0@, e.1.0 as int));
            assert(entries_view(out@) =~= entries_view(before).take(p as int) + seq![
                (e.0@, e.1.0 as int),
            ] + entries_view(before).skip(p as int));
            assert(entries_view(out@) =~= spec_sorted_pairs(
                entries_view(orig.take(done as int)),
            ));
            assert forall|k: int| 0 <= k < out@.len() implies exists|j: int|
                0 <= j < orig.len() && (#[trigger] out@[k]).0@ == orig[j].0@ && out@[k].1
                    == orig[j].1 by {
                if k < p {
                    assert(out@[k] == before[k]);
                    let j = choose|j: int|
                        0 <= j < orig.len() && (#[trigger] before[k]).0@ == orig[j].0@
                            && before[k].1 == orig[j].1;
                } else if k == p {
                    assert(out@[k].0@ == orig[done - 1].0@ && out@[k].1 == orig[done - 1].1);
                } else {
                    assert(out@[k] == before[k - 1]);
                    let j = choose|j: int|
                        0 <= j < orig.len() && (#[trigger] before[k - 1]).0@ == orig[j].0@
                            && before[k - 1].1 == orig[j].1;
                }
            }
        }
    }
    proof {
        assert(orig.take(done as int) =~= orig);
        assert(entries_view(orig.take(done as int)) =~= entries_view(orig));
    }
    out
}

/// Accumulates one side of the report: positive or negative amounts,
/// grouped by the level label.
fn build_side(rl: &Recordlist, level: usize, positive: bool) -> (r: Aggregate<String>)
    requires
        sum_inputs_ok(rl.0@),
        sum_pos(rl.0@) <= i64::MAX,
        i64::MIN < sum_neg(rl.0@),
    ensures
        r.wf(),
        entries_view(r.0@) == agg_pairs(rl.0@, level as nat, positive),
        r.spec_sum() == if positive {
            sum_pos(rl.0@)
        } else {
            sum_neg(rl.0@)
        },
        forall|k: int|
            0 <= k < r.0@.len() ==> {
                &&& (#[trigger] r.0@[k]).1.0 > i64::MIN
                &&& r.0@[k].0@.len() + 64 < usize::MAX / 2
                &&& (positive ==> r.0@[k].1.0 >= 0)
                &&& (!positive ==> r.0@[k].1.0 <= 0)
            },
{
    let ghost s = rl.0@;
    let mut agg = Aggregate::<String>::new();
    let n = rl.0.len();
    let mut k: usize = 0;
    #[verifier::loop_isolation(false)]
    while k < n
        invariant
            k <= n,
            agg.wf(),
            entries_view(agg.0@) == agg_pairs(s.take(k as int), level as nat, positive),
            agg.spec_sum() == if positive {
                sum_pos(s.take(k as int))
            } else {
                sum_neg(s.take(k as int))
            },
            forall|x: int|
                0 <= x < agg.0@.len() ==> {
                    &&& (#[trigger] agg.0@[x]).0@.len() + 64 < usize::MAX / 2
                    &&& (positive ==> 0 <= agg.0@[x].1.0 <= agg.spec_sum())
                    &&& (!positive ==> agg.spec_sum() <= agg.0@[x].1.0 <= 0)
                },
        decreases n - k,
    {
        let rec = &rl.0[k];
        proof {
            assert(s.take(k as int + 1).drop_last() =~= s.take(k as int));
            assert(s.take(k as int + 1).last() == s[k as int]);
            lemma_sum_pos_prefix(s, k as int + 1);
            lemma_sum_signs(s.take(k as int));
        }
        let taken = if positive {
            rec.amount.0 > 0
        } else {
            rec.amount.0 < 0
        };
        if taken {
            let lbl = String::from_str(rec.category.level(level));
            proof {
                crate::category::lemma_level_len(rec.category.0@, level as nat);
                crate::aggregate::lemma_entries_map_props(agg.0@);
                lemma_pair_key_idx(agg.0@, lbl@);
                lemma_pair_idx_bounds(entries_view(agg.0@), lbl@);
                if agg.spec_map().contains_key(lbl@) {
                    let gi = key_idx(agg.0@, lbl@);
                    lemma_key_idx_hit(agg.0@, lbl@);
                    assert(agg.spec_map()[lbl@] == agg.0@[gi].1.0 as int);
                }
            }
            let ghost before = agg.0@;
            let ghost sum_before = agg.spec_sum();
            agg.add(lbl, rec.amount);
            proof {
                let lblv = lbl@;
                let prev = agg_pairs(s.take(k as int), level as nat, positive);
                let gi = key_idx(before, lblv);
                if entries_map_contains(before, lblv) {
                    assert(entries_view(agg.0@) =~= prev.update(
                        pair_idx(prev, lblv),
                        (lblv, prev[pair_idx(prev, lblv)].1 + s[k as int].amount.0),
                    ));
                } else {
                    assert(pair_idx(prev, lblv) == prev.len());
                    assert(entries_view(agg.0@) =~= prev.push(
                        (lblv, s[k as int].amount.0 as int),
                    ));
                }
                assert(entries_view(agg.0@) =~= agg_pairs(
                    s.take(k as int + 1),
                    level as nat,
                    positive,
                ));
                assert forall|x: int| 0 <= x < agg.0@.len() implies {
                    &&& (#[trigger] agg.0@[x]).0@.len() + 64 < usize::MAX / 2
                    &&& (positive ==> 0 <= agg.0@[x].1.0 <= agg.spec_sum())
                    &&& (!positive ==> agg.spec_sum() <= agg.0@[x].1.0 <= 0)
                } by {
                    if entries_map_contains(before, lblv) {
                        if x != gi {
                            assert(agg.0@[x] == before[x]);
                        }
                    } else {
                        if x < before.len() {
                            assert(agg.0@[x] == before[x]);
                        }
                    }
                }
            }
        } else {
            proof {
                assert(agg_pairs(s.take(k as int + 1), level as nat, positive) == agg_pairs(
                    s.take(k as int),
                    level as nat,
                    positive,
                ));
            }
        }
        k = k + 1;
    }
    proof {
        assert(s.take(n as int) =~= s);
    }
    agg
}

/// Whether the denoted map of `s` carries key view `v`.
pub open spec fn entries_map_contains(s: Seq<(String, Cents)>, v: Seq<char>) -> bool {
    crate::aggregate::entries_map(s).contains_key(v)
}

proof fn lemma_pair_idx_bounds(ps: Seq<(Seq<char>, int)>, lbl: Seq<char>)
    ensures
        0 <= pair_idx(ps, lbl) <= ps.len(),
        pair_idx(ps, lbl) < ps.len() ==> ps[pair_idx(ps, lbl)].0 == lbl,
        forall|x: int| 0 <= x < pair_idx(ps, lbl) ==> (#[trigger] ps[x]).0 != lbl,
    decreases ps.len(),
{
    if ps.len() > 0 && ps[0].0 != lbl {
        lemma_pair_idx_bounds(ps.skip(1), lbl);
        let t = ps.skip(1);
        assert forall|x: int| 0 <= x < pair_idx(ps, lbl) implies (#[trigger] ps[x]).0 != lbl by {
            if x > 0 {
                assert(ps[x] == t[x - 1]);
            }
        }
    }
}

proof fn lemma_key_idx_hit(s: Seq<(String, Cents)>, v: Seq<char>)
    requires
        crate::aggregate::entries_map(s).contains_key(v),
        crate::aggregate::entries_unique(s),
    ensures
        0 <= key_idx(s, v) < s.len(),
        s[key_idx(s, v)].0@ == v,
    decreases s.len(),
{
    crate::aggregate::lemma_entries_map_props(s);
    let i = choose|i: int| 0 <= i < s.len() && (#[trigger] s[i]).0@ == v;
    lemma_pair_key_idx(s, v);
    lemma_pair_idx_bounds(entries_view(s), v);
    if pair_idx(entries_view(s), v) >= s.len() {
        assert(entries_view(s)[i].0 == v);
        assert(false);
    }
    assert(entries_view(s)[key_idx(s, v)].0 == v);
}

/// The widest row of a run of labeled amounts.
fn max_pair_width(v: &Vec<(String, Cents)>) -> (r: usize)
    requires
        forall|k: int|
            0 <= k < v@.len() ==> (#[trigger] v@[k]).1.0 > i64::MIN && v@[k].0@.len() + 64
                < usize::MAX / 2,
    ensures
        r == pairs_max_width(entries_view(v@)),
{
    let mut best: usize = 0;
    let n = v.len();
    let mut i: usize = 0;
    #[verifier::loop_isolation(false)]
    while i < n
        invariant
            i <= n,
            best == pairs_max_width(entries_view(v@.take(i as int))),
        decreases n - i,
    {
        proof {
            assert(entries_view(v@.take(i as int + 1)).drop_last() =~= entries_view(
                v@.take(i as int),
            ));
            assert(entries_view(v@.take(i as int + 1)).last() == (
                v@[i as int].0@,
                v@[i as int].1.0 as int,
            ));
            crate::cents::lemma_cents_text_len(v@[i as int].1.0 as int);
            crate::util::lemma_digit_count_le(
                (if v@[i as int].1.0 < 0 {
                    -v@[i as int].1.0
                } else {
                    v@[i as int].1.0 as int
                }) as nat,
                0xffff_ffff_ffff_ffff,
            );
            reveal_with_fuel(crate::util::spec_digit_count, 21);
        }
        let label_len = v[i].0.as_str().unicode_len();
        let w = label_len + crate::util::BOUNDING_SPACES_COUNT + crate::util::MIN_DASHES_COUNT
            + v[i].1.charlen_for_alignment();
        if w > best {
            best = w;
        }
        i = i + 1;
    }
    proof {
        assert(v@.take(n as int) =~= v@);
        assert(entries_view(v@.take(n as int)) =~= entries_view(v@));
    }
    best
}

/// Every row of the run fits under the run's maximum width.
proof fn lemma_pairs_fit(ps: Seq<(Seq<char>, int)>, j: int)
    requires
        0 <= j < ps.len(),
    ensures
        spec_row_width(ps[j].0.len() as int, ps[j].1) <= pairs_max_width(ps),
    decreases ps.len(),
{
    if j == ps.len() - 1 {
        lemma_pairs_max_nonneg(ps.drop_last());
    } else {
        assert(ps.drop_last()[j] == ps[j]);
        lemma_pairs_fit(ps.drop_last(), j);
    }
}

proof fn lemma_pairs_max_nonneg(ps: Seq<(Seq<char>, int)>)
    ensures
        pairs_max_width(ps) >= 0,
    decreases ps.len(),
{
    if ps.len() > 0 {
        lemma_pairs_max_nonneg(ps.drop_last());
        crate::cents::lemma_cents_text_len(ps.last().1);
    }
}

/// Builds the rows of one section.
fn section_node(name: &'static str, v: &Vec<(String, Cents)>, align: usize, dash: &String) -> (r:
    Node)
    requires
        forall|k: int|
            0 <= k < v@.len() ==> (#[trigger] v@[k]).1.0 > i64::MIN && spec_row_width(
                v@[k].0@.len() as int,
                v@[k].1.0 as int,
            ) <= align,
    ensures
        r@.data == name@,
        r@.children == pair_rows(entries_view(v@), align as int, dash@),
{
    let mut node = Node::new(String::from_str(name));
    let n = v.len();
    let mut j: usize = 0;
    #[verifier::loop_isolation(false)]
    while j < n
        invariant
            j <= n,
            node@.data == name@,
            node@.children == pair_rows(entries_view(v@.take(j as int)), align as int, dash@),
        decreases n - j,
    {
        let data = row_text(v[j].0.as_str(), v[j].1, align, dash.as_str());
        let ghost before = node.children@;
        node.children.push(Node::new(data));
        j = j + 1;
        proof {
            lemma_nodes_view_index(node.children@);
            lemma_nodes_view_index(before);
            let target = pair_rows(entries_view(v@.take(j as int)), align as int, dash@);
            assert forall|x: int| 0 <= x < node@.children.len() implies node@.children[x]
                == target[x] by {
                if x < j - 1 {
                    assert(node.children@[x] == before[x]);
                    assert(entries_view(v@.take(j as int))[x] == entries_view(
                        v@.take(j - 1),
                    )[x]);
                } else {
                    assert(entries_view(v@.take(j as int))[x] == (v@[x].0@, v@[x].1.0 as int));
                }
            }
            assert(node@.children =~= target);
        }
    }
    proof {
        assert(v@.take(n as int) =~= v@);
        assert(entries_view(v@.take(n as int)) =~= entries_view(v@));
    }
    node
}

impl Config {
    /// Builds the totals report: records grouped by their level label into
    /// In and Out sections sorted by falling magnitude (ties by label), and
    /// a Net section with In, Out, and their Total, all sharing one
    /// alignment width.
    pub fn to_tree(&self) -> (r: Tree)
        requires
            sum_inputs_ok(self.rl.0@),
            sum_pos(self.rl.0@) <= i64::MAX,
            i64::MIN < sum_neg(self.rl.0@),
        ensures
            r.charset == self.charset,
            r.root@.data == Seq::<char>::empty(),
            ({
                let posv = spec_sorted_pairs(agg_pairs(self.rl.0@, self.level as nat, true));
                let negv = spec_sorted_pairs(agg_pairs(self.rl.0@, self.level as nat, false));
                let totv = net_pairs(self.rl.0@);
                let align = {
                    let a = pairs_max_width(posv);
                    let b = pairs_max_width(negv);
                    let c = pairs_max_width(totv);
                    let ab = if a >= b {
                        a
                    } else {
                        b
                    };
                    if ab >= c {
                        ab
                    } else {
                        c
                    }
                };
                r.root@.children == spec_sum_sections(
                    posv,
                    negv,
                    totv,
                    align,
                    self.charset.dash@,
                )
            }),
    {
        let pos = build_side(&self.rl, self.level, true);
        let neg = build_side(&self.rl, self.level, false);
        let pos_sum = pos.sum();
        let neg_sum = neg.sum();
        let pos_entries = pos.iter();
        let neg_entries = neg.iter();
        proof {
            assert(entries_view(pos_entries@) =~= entries_view(pos.0@));
            assert(entries_view(neg_entries@) =~= entries_view(neg.0@));
            assert forall|k: int| 0 <= k < pos_entries@.len() implies (
            #[trigger] pos_entries@[k]).1.0 > i64::MIN by {
                assert(pos_entries@[k].1 == pos.0@[k].1);
            }
            assert forall|k: int| 0 <= k < neg_entries@.len() implies (
            #[trigger] neg_entries@[k]).1.0 > i64::MIN by {
                assert(neg_entries@[k].1 == neg.0@[k].1);
            }
        }
        let ghost pos_src = pos_entries@;
        let ghost neg_src = neg_entries@;
        let posv = sort_pairs(pos_entries);
        let negv = sort_pairs(neg_entries);
        proof {
            assert forall|k: int| 0 <= k < posv@.len() implies (#[trigger] posv@[k]).1.0
                > i64::MIN && posv@[k].0@.len() + 64 < usize::MAX / 2 by {
                let j = choose|j: int|
                    0 <= j < pos_src.len() && (#[trigger] posv@[k]).0@ == pos_src[j].0@
                        && posv@[k].1 == pos_src[j].1;
                assert(pos_src[j].0@ == pos.0@[j].0@ && pos_src[j].1 == pos.0@[j].1);
            }
            assert forall|k: int| 0 <= k < negv@.len() implies (#[trigger] negv@[k]).1.0
                > i64::MIN && negv@[k].0@.len() + 64 < usize::MAX / 2 by {
                let j = choose|j: int|
                    0 <= j < neg_src.len() && (#[trigger] negv@[k]).0@ == neg_src[j].0@
                        && negv@[k].1 == neg_src[j].1;
                assert(neg_src[j].0@ == neg.0@[j].0@ && neg_src[j].1 == neg.0@[j].1);
            }
        }
        let mut totv: Vec<(String, Cents)> = Vec::new();
        totv.push((String::from_str("In"), pos_sum));
        totv.push((String::from_str("Out"), neg_sum));
        proof {
            lemma_sum_signs(self.rl.0@);
        }
        totv.push((String::from_str("Total"), Cents(pos_sum.0 + neg_sum.0)));
        proof {
            reveal_strlit("In");
            reveal_strlit("Out");
            reveal_strlit("Total");
            assert(entries_view(totv@) =~= net_pairs(self.rl.0@));
        }
        proof {
            reveal_strlit("In");
            reveal_strlit("Out");
            reveal_strlit("Total");
            assert forall|k: int| 0 <= k < totv@.len() implies (#[trigger] totv@[k]).1.0
                > i64::MIN && totv@[k].0@.len() + 64 < usize::MAX / 2 by {
            }
        }
        let a = max_pair_width(&posv);
        let b = max_pair_width(&negv);
        let c = max_pair_width(&totv);
        let ab = if a >= b {
            a
        } else {
            b
        };
        let align = if ab >= c {
            ab
        } else {
            c
        };
        proof {
            assert forall|k: int| 0 <= k < posv@.len() implies (#[trigger] posv@[k]).1.0
                > i64::MIN && spec_row_width(posv@[k].0@.len() as int, posv@[k].1.0 as int)
                <= align by {
                assert(entries_view(posv@)[k] == (posv@[k].0@, posv@[k].1.0 as int));
                lemma_pairs_fit(entries_view(posv@), k);
            }
            assert forall|k: int| 0 <= k < negv@.len() implies (#[trigger] negv@[k]).1.0
                > i64::MIN && spec_row_width(negv@[k].0@.len() as int, negv@[k].1.0 as int)
                <= align by {
                assert(entries_view(negv@)[k] == (negv@[k].0@, negv@[k].1.0 as int));
                lemma_pairs_fit(entries_view(negv@), k);
            }
            assert forall|k: int| 0 <= k < totv@.len() implies (#[trigger] totv@[k]).1.0
                > i64::MIN && spec_row_width(totv@[k].0@.len() as int, totv@[k].1.0 as int)
                <= align by {
                assert(entries_view(totv@)[k] == (totv@[k].0@, totv@[k].1.0 as int));
                lemma_pairs_fit(entries_view(totv@), k);
            }
        }
        let mut root = Node::new(String::new());
        let ghost dash = self.charset.dash@;
        let ghost pv = entries_view(posv@);
        let ghost nv = entries_view(negv@);
        let ghost tv = entries_view(totv@);
        if posv.len() > 0 {
            let node = section_node("In", &posv, align, &self.charset.dash);
            proof {
                assert(node@ == NodeV { data: ("In")@, children: pair_rows(pv, align as int, dash) });
            }
            let ghost nview = node@;
            let ghost before = root.children@;
            root.children.push(node);
            proof {
                lemma_nodes_view_index(root.children@);
                lemma_nodes_view_index(before);
                assert(root@.children =~= nodes_view(before).push(nview));
            }
        }
        if negv.len() > 0 {
            let node = section_node("Out", &negv, align, &self.charset.dash);
            proof {
                assert(node@ == NodeV { data: ("Out")@, children: pair_rows(nv, align as int, dash) });
            }
            let ghost nview = node@;
            let ghost before = root.children@;
            root.children.push(node);
            proof {
                lemma_nodes_view_index(root.children@);
                lemma_nodes_view_index(before);
                assert forall|x: int| 0 <= x < root@.children.len() implies root@.children[x]
                    == nodes_view(before).push(nview)[x] by {
                    assert(root@.children[x] == root.children@[x]@);
                    if x < before.len() {
                        assert(root.children@[x] == before[x]);
                        assert(nodes_view(before)[x] == before[x]@);
                    } else {
                        assert(root.children@[x]@ == nview);
                    }
                }
                assert(root@.children =~= nodes_view(before).push(nview));
            }
        }
        let node = section_node("Net", &totv, align, &self.charset.dash);
        proof {
            assert(node@ == NodeV { data: ("Net")@, children: pair_rows(tv, align as int, dash) });
        }
        let ghost nview = node@;
        let ghost before = root.children@;
        root.children.push(node);
        proof {
            lemma_nodes_view_index(root.children@);
            lemma_nodes_view_index(before);
            assert forall|x: int| 0 <= x < root@.children.len() implies root@.children[x]
                == nodes_view(before).push(nview)[x] by {
                assert(root@.children[x] == root.children@[x]@);
                if x < before.len() {
                    assert(root.children@[x] == before[x]);
                    assert(nodes_view(before)[x] == before[x]@);
                } else {
                    assert(root.children@[x]@ == nview);
                }
            }
            assert(root@.children =~= nodes_view(before).push(nview));
            let target = spec_sum_sections(pv, nv, tv, align as int, dash);
            let first = (if pv.len() > 0 {
                seq![NodeV { data: ("In")@, children: pair_rows(pv, align as int, dash) }]
            } else {
                Seq::<NodeV>::empty()
            });
            let second = (if nv.len() > 0 {
                seq![NodeV { data: ("Out")@, children: pair_rows(nv, align as int, dash) }]
            } else {
                Seq::<NodeV>::empty()
            });
            let third = seq![
                NodeV { data: ("Net")@, children: pair_rows(tv, align as int, dash) },
            ];
            assert(target == first + second + third);
            assert(root@.children =~= target);
        }
        Tree { charset: self.charset.clone(), root }
    }
}

/// Whether the one-signed totals stay strictly inside the machine range:
/// what the chart and totals reports require of their inputs.
pub fn totals_representable(rl: &Recordlist) -> (r: bool)
    requires
        recs_wf(rl.0@),
    ensures
        r == (sum_pos(rl.0@) < i64::MAX && i64::MIN < sum_neg(rl.0@)),
{
    let ghost s = rl.0@;
    let n = rl.0.len();
    let mut pos: i64 = 0;
    let mut neg: i64 = 0;
    let mut k: usize = 0;
    #[verifier::loop_isolation(false)]
    while k < n
        invariant
            k <= n,
            pos == sum_pos(s.take(k as int)),
            neg == sum_neg(s.take(k as int)),
        decreases n - k,
    {
        proof {
            assert(s.take(k as int + 1).drop_last() =~= s.take(k as int));
            assert(s.take(k as int + 1).last() == s[k as int]);
            lemma_sum_pos_prefix(s, k as int + 1);
            lemma_sum_signs(s.take(k as int));
            assert(s[k as int].wf());
        }
        let a = rl.0[k].amount.0;
        if a > 0 {
            if a > i64::MAX - pos {
                // the running total already exceeds the range
                return false;
            }
            pos = pos + a;
        } else if a < 0 {
            if neg < i64::MIN - a {
                return false;
            }
            neg = neg + a;
        }
        k = k + 1;
    }
    proof {
        assert(s.take(n as int) =~= s);
    }
    pos < i64::MAX && neg > i64::MIN
}

/// Whether every category key is short enough to measure: what the totals
/// report requires of its inputs.
pub fn categories_representable(rl: &Recordlist) -> (r: bool)
    ensures
        r == sum_inputs_ok(rl.0@),
{
    let n = rl.0.len();
    let mut k: usize = 0;
    #[verifier::loop_isolation(false)]
    while k < n
        invariant
            k <= n,
            forall|x: int|
                0 <= x < k ==> (#[trigger] rl.0@[x]).category.0@.len() + 67 < usize::MAX / 2,
        decreases n - k,
    {
        let len = rl.0[k].category.0.as_str().unicode_len();
        if len >= usize::MAX / 2 - 67 {
            proof {
                assert(!sum_inputs_ok(rl.0@));
            }
            return false;
        }
        k = k + 1;
    }
    true
}

} // verus!
