use vstd::prelude::*;
use vstd::string::StrSliceExecFns;
use vstd::string::StringExecFns;

use crate::aggregate::entries_map;
use crate::aggregate::entries_unique;
use crate::aggregate::lemma_entries_map_props;
use crate::cents::cents_text;
use crate::cents::spec_charlen;
use crate::cents::Cents;
use crate::charset::Charset;
use crate::date::date_text;
use crate::date::Date;
use crate::datepart::Datepart;
use crate::interval::subs_chain;
use crate::interval::Interval;
use crate::layout::spec_month_abbrev;
use crate::record::Record;
use crate::recordlist::first_ge_idx;
use crate::recordlist::first_gt_idx;
use crate::recordlist::recs_wf;
use crate::recordlist::Recordlist;
use crate::text::padded_num;
use crate::util::repeat_seq;

verus! {

/// Inputs of the magnitude-over-time chart: the records, already filtered
/// by the caller, the window to plot, the bucket granularity, and the
/// terminal width to size bars for.
pub struct Config {
    pub charset: Charset,
    pub bounds: Interval,
    pub unit: Datepart,
    pub term_width: usize,
    pub rl: Recordlist,
}

/// The chart, laid out: one bucket per subinterval, positive and negative
/// totals kept apart, bars scaled against the largest magnitude.
pub struct Barchart {
    pub charset: Charset,
    pub unit: Datepart,
    pub subs: Vec<Interval>,
    pub pos: Vec<(Date, Cents)>,
    pub neg: Vec<(Date, Cents)>,
    pub label_charlen: usize,
    pub max_abs_val: Cents,
    pub max_barlen: usize,
}

/// Sum of the amounts of one sign dated within `iv`.
pub open spec fn isum(s: Seq<Record>, iv: Interval, positive: bool) -> int
    decreases s.len(),
{
    if s.len() == 0 {
        0
    } else {
        isum(s.drop_last(), iv, positive) + if iv.spec_contains(s.last().date) && ((positive
            && s.last().amount.0 > 0) || (!positive && s.last().amount.0 < 0)) {
            s.last().amount.0 as int
        } else {
            0
        }
    }
}

/// How many amounts of one sign are dated within `iv`.
pub open spec fn icount(s: Seq<Record>, iv: Interval, positive: bool) -> int
    decreases s.len(),
{
    if s.len() == 0 {
        0
    } else {
        icount(s.drop_last(), iv, positive) + if iv.spec_contains(s.last().date) && ((positive
            && s.last().amount.0 > 0) || (!positive && s.last().amount.0 < 0)) {
            1int
        } else {
            0int
        }
    }
}

/// The bucket sums: one entry per subinterval that holds any amount of the
/// requested sign, keyed by the subinterval's start.
pub open spec fn bucket_map(s: Seq<Record>, subs: Seq<Interval>, positive: bool) -> Map<
    Date,
    int,
>
    decreases subs.len(),
{
    if subs.len() == 0 {
        Map::empty()
    } else {
        let prev = bucket_map(s, subs.drop_last(), positive);
        if icount(s, subs.last(), positive) > 0 {
            prev.insert(subs.last().start, isum(s, subs.last(), positive))
        } else {
            prev
        }
    }
}

/// The bucket entries: one per subinterval that holds any amount of the
/// requested sign, keyed by the subinterval's start, in subinterval order.
pub open spec fn bucket_entries(s: Seq<Record>, subs: Seq<Interval>, positive: bool) -> Seq<
    (Date, int),
>
    decreases subs.len(),
{
    if subs.len() == 0 {
        Seq::empty()
    } else {
        let prev = bucket_entries(s, subs.drop_last(), positive);
        if icount(s, subs.last(), positive) > 0 {
            prev.push((subs.last().start, isum(s, subs.last(), positive)))
        } else {
            prev
        }
    }
}

/// The bucket label: the year, the year and month, or the full date.
pub open spec fn date_label(d: Date, unit: Datepart) -> Seq<char> {
    match unit {
        Datepart::Year => padded_num(d.spec_year() as nat, 4),
        Datepart::Month => padded_num(d.spec_year() as nat, 4) + seq![' '] + spec_month_abbrev(
            d.spec_month(),
        ),
        Datepart::Day => date_text(d),
    }
}

/// Bar length: the magnitude scaled against the largest one, rounded to
/// the nearest column, clamped to the available width.
pub open spec fn spec_barlen(v: int, max_abs: int, max_len: int) -> int {
    let a = if v < 0 {
        -v
    } else {
        v
    };
    let scaled = (2 * a * max_len + max_abs) / (2 * max_abs);
    if scaled <= max_len {
        scaled
    } else {
        max_len
    }
}

/// One bar line: the bar glyphs if any, then the bucket's total.
pub open spec fn spec_bar_line(v: int, glyph: Seq<char>, max_abs: int, max_len: int) -> Seq<
    char,
> {
    (if spec_barlen(v, max_abs, max_len) > 0 {
        repeat_seq(glyph, spec_barlen(v, max_abs, max_len) as nat) + seq![' ']
    } else {
        Seq::empty()
    }) + cents_text(v) + seq!['\n']
}

/// One bucket's drawing, from the chart's raw pieces: its label and axis,
/// the positive line if any positive bucket exists, then the negative line
/// if any negative bucket exists, the second behind a blank label.
pub open spec fn spec_draw_date_v(
    d: Date,
    unit: Datepart,
    cs: Charset,
    pmap: Map<Date, int>,
    nmap: Map<Date, int>,
    has_pos: bool,
    has_neg: bool,
    label_len: int,
    max_abs: int,
    max_len: int,
) -> Seq<char> {
    if !has_pos && !has_neg {
        Seq::empty()
    } else {
        let head = date_label(d, unit) + seq![' '] + cs.chart_axis@;
        let pv = if pmap.contains_key(d) {
            pmap[d]
        } else {
            0
        };
        let nv = if nmap.contains_key(d) {
            nmap[d]
        } else {
            0
        };
        let neg_line = spec_bar_line(nv, cs.chart_bar_neg@, max_abs, max_len);
        if has_pos {
            let pos_line = spec_bar_line(pv, cs.chart_bar_pos@, max_abs, max_len);
            if !has_neg {
                head + pos_line
            } else {
                head + pos_line + repeat_seq(seq![' '], label_len as nat) + seq![' ']
                    + cs.chart_axis@ + neg_line
            }
        } else {
            head + neg_line
        }
    }
}

pub open spec fn spec_draw_date(b: Barchart, d: Date) -> Seq<char> {
    spec_draw_date_v(
        d,
        b.unit,
        b.charset,
        entries_map(b.pos@),
        entries_map(b.neg@),
        b.pos@.len() > 0,
        b.neg@.len() > 0,
        b.label_charlen as int,
        b.max_abs_val.0 as int,
        b.max_barlen as int,
    )
}

/// The whole chart from its raw pieces: the buckets drawn in order, from
/// index `i` on.
pub open spec fn spec_chart_text_v(
    subs: Seq<Interval>,
    i: int,
    unit: Datepart,
    cs: Charset,
    pmap: Map<Date, int>,
    nmap: Map<Date, int>,
    has_pos: bool,
    has_neg: bool,
    label_len: int,
    max_abs: int,
    max_len: int,
) -> Seq<char>
    decreases subs.len() - i,
{
    if 0 <= i < subs.len() {
        spec_draw_date_v(
            subs[i].start,
            unit,
            cs,
            pmap,
            nmap,
            has_pos,
            has_neg,
            label_len,
            max_abs,
            max_len,
        ) + spec_chart_text_v(
            subs,
            i + 1,
            unit,
            cs,
            pmap,
            nmap,
            has_pos,
            has_neg,
            label_len,
            max_abs,
            max_len,
        )
    } else {
        Seq::empty()
    }
}

/// The whole chart: the buckets drawn in order, from index `i` on.
pub open spec fn spec_chart_text(b: Barchart, i: int) -> Seq<char>
    decreases b.subs@.len() - i,
{
    if 0 <= i < b.subs@.len() {
        spec_draw_date(b, b.subs@[i].start) + spec_chart_text(b, i + 1)
    } else {
        Seq::empty()
    }
}

/// `spec_chart_text` is the raw-piece drawing of the chart's own fields.
pub proof fn lemma_chart_text_v(b: Barchart, i: int)
    ensures
        spec_chart_text(b, i) == spec_chart_text_v(
            b.subs@,
            i,
            b.unit,
            b.charset,
            entries_map(b.pos@),
            entries_map(b.neg@),
            b.pos@.len() > 0,
            b.neg@.len() > 0,
            b.label_charlen as int,
            b.max_abs_val.0 as int,
            b.max_barlen as int,
        ),
    decreases b.subs@.len() - i,
{
    if 0 <= i < b.subs@.len() {
        lemma_chart_text_v(b, i + 1);
    }
}

/// The largest magnitude among bucket sums.
pub open spec fn entries_max_abs(ps: Seq<(Date, int)>) -> int
    decreases ps.len(),
{
    if ps.len() == 0 {
        0
    } else {
        let a = if ps.last().1 < 0 {
            -ps.last().1
        } else {
            ps.last().1
        };
        let rest = entries_max_abs(ps.drop_last());
        if a >= rest {
            a
        } else {
            rest
        }
    }
}

/// What the chart's own fields promise: every bucket sum is bounded by the
/// recorded maximum magnitude, and the width arithmetic holds together.
pub open spec fn barchart_wf(b: Barchart) -> bool {
    &&& entries_unique(b.pos@)
    &&& entries_unique(b.neg@)
    &&& 0 <= b.max_abs_val.0
    &&& forall|k: int|
        0 <= k < b.pos@.len() ==> 0 <= (#[trigger] b.pos@[k]).1.0 <= b.max_abs_val.0
    &&& forall|k: int|
        0 <= k < b.neg@.len() ==> -b.max_abs_val.0 <= (#[trigger] b.neg@[k]).1.0 <= 0
    &&& (b.pos@.len() > 0 || b.neg@.len() > 0) ==> b.max_abs_val.0 >= 1
    &&& b.max_barlen <= 65535
    &&& b.label_charlen <= 10
}

proof fn lemma_isum_append(a: Seq<Record>, c: Seq<Record>, iv: Interval, positive: bool)
    ensures
        isum(a + c, iv, positive) == isum(a, iv, positive) + isum(c, iv, positive),
        icount(a + c, iv, positive) == icount(a, iv, positive) + icount(c, iv, positive),
    decreases c.len(),
{
    if c.len() == 0 {
        assert(a + c =~= a);
    } else {
        lemma_isum_append(a, c.drop_last(), iv, positive);
        assert((a + c).drop_last() =~= a + c.drop_last());
        assert((a + c).last() == c.last());
    }
}

proof fn lemma_isum_zero(s: Seq<Record>, iv: Interval, positive: bool)
    requires
        forall|k: int| 0 <= k < s.len() ==> !iv.spec_contains((#[trigger] s[k]).date),
    ensures
        isum(s, iv, positive) == 0,
        icount(s, iv, positive) == 0,
    decreases s.len(),
{
    if s.len() > 0 {
        lemma_isum_zero(s.drop_last(), iv, positive);
    }
}

/// A bucket's share never exceeds the records' one-signed total.
proof fn lemma_isum_bounds(s: Seq<Record>, iv: Interval)
    ensures
        0 <= isum(s, iv, true) <= crate::forsum::sum_pos(s),
        crate::forsum::sum_neg(s) <= isum(s, iv, false) <= 0,
        icount(s, iv, true) >= 0,
        icount(s, iv, false) >= 0,
        icount(s, iv, true) > 0 ==> isum(s, iv, true) >= 1,
        icount(s, iv, false) > 0 ==> isum(s, iv, false) <= -1,
    decreases s.len(),
{
    if s.len() > 0 {
        lemma_isum_bounds(s.drop_last(), iv);
    }
}

/// Cut a sorted record run down to the slice its interval spans.
proof fn lemma_isum_slice(s: Seq<Record>, iv: Interval, positive: bool)
    requires
        crate::recordlist::sorted_by_date(s),
        !iv.spec_is_empty(),
    ensures
        isum(s, iv, positive) == isum(
            s.subrange(first_ge_idx(s, iv.start), first_gt_idx(s, iv.end)),
            iv,
            positive,
        ),
        icount(s, iv, positive) == icount(
            s.subrange(first_ge_idx(s, iv.start), first_gt_idx(s, iv.end)),
            iv,
            positive,
        ),
{
    crate::recordlist::lemma_first_ge_char(s, iv.start);
    crate::recordlist::lemma_first_gt_char(s, iv.end);
    let lo = first_ge_idx(s, iv.start);
    let hi = first_gt_idx(s, iv.end);
    if hi < lo {
        assert(s[hi].date.spec_lt(iv.start));
        assert(!s[hi].date.spec_le(iv.end));
        assert(false);
    }
    let a = s.subrange(0, lo);
    let b = s.subrange(lo, hi);
    let c = s.subrange(hi, s.len() as int);
    assert(s =~= (a + b) + c);
    lemma_isum_append(a + b, c, iv, positive);
    lemma_isum_append(a, b, iv, positive);
    assert forall|k: int| 0 <= k < a.len() implies !iv.spec_contains(
        (#[trigger] a[k]).date,
    ) by {
        assert(a[k] == s[k]);
    }
    lemma_isum_zero(a, iv, positive);
    assert forall|k: int| 0 <= k < c.len() implies !iv.spec_contains(
        (#[trigger] c[k]).date,
    ) by {
        assert(c[k] == s[hi + k]);
    }
    lemma_isum_zero(c, iv, positive);
}

/// The bucket label.
fn label_text(d: Date, unit: Datepart) -> (r: String)
    requires
        d.wf(),
    ensures
        r@ == date_label(d, unit),
{
    match unit {
        Datepart::Year => crate::text::padded_num_string(d.year as u64, 4),
        Datepart::Month => {
            let mut r = crate::text::padded_num_string(d.year as u64, 4);
            r.append(" ");
            r.append(crate::layout::month_abbrev(d.month));
            proof {
                reveal_strlit(" ");
                assert((" ")@ =~= seq![' ']);
            }
            r
        },
        Datepart::Day => d.render(),
    }
}

/// Bar length for one bucket total.
fn barlen(v: Cents, max_abs: Cents, max_len: usize) -> (r: usize)
    requires
        v.0 > i64::MIN,
        1 <= max_abs.0,
        max_len <= 65535,
    ensures
        r == spec_barlen(v.0 as int, max_abs.0 as int, max_len as int),
{
    let a: u128 = if v.0 < 0 {
        (-v.0) as u128
    } else {
        v.0 as u128
    };
    let m: u128 = max_abs.0 as u128;
    proof {
        assert(2 * (a as int) * (max_len as int) <= 2 * 0x8000_0000_0000_0000 * 65535)
            by (nonlinear_arith)
            requires
                0 <= a <= 0x8000_0000_0000_0000u128,
                0 <= max_len <= 65535,
        ;
    }
    let scaled: u128 = (2 * a * (max_len as u128) + m) / (2 * m);
    proof {
        let ai = if v.0 < 0 {
            -v.0 as int
        } else {
            v.0 as int
        };
        assert(scaled == (2 * ai * (max_len as int) + max_abs.0 as int) / (
        2 * max_abs.0 as int)) by (nonlinear_arith)
            requires
                scaled == ((2 * a * (max_len as u128) + m) as int) / ((2 * m) as int),
                a == ai,
                m == max_abs.0 as int,
                m >= 1,
        ;
        assert(scaled <= 0x8000_0000_0000_0001u128 * 65535) by (nonlinear_arith)
            requires
                scaled == ((2 * a * (max_len as u128) + m) as int) / ((2 * m) as int),
                a <= 0x8000_0000_0000_0000u128,
                max_len <= 65535,
                m >= 1,
        ;
    }
    if scaled <= max_len as u128 {
        scaled as usize
    } else {
        max_len
    }
}

/// One bar line: the glyphs, a space if any were drawn, then the total.
fn bar_line(v: Cents, glyph: &String, max_abs: Cents, max_len: usize) -> (r: String)
    requires
        v.0 > i64::MIN,
        1 <= max_abs.0,
        max_len <= 65535,
    ensures
        r@ == spec_bar_line(v.0 as int, glyph@, max_abs.0 as int, max_len as int),
{
    let len = barlen(v, max_abs, max_len);
    let mut r = String::new();
    if len > 0 {
        let bars = crate::util::repeat_str(glyph.as_str(), len);
        r.append(bars.as_str());
        r.append(" ");
    }
    let value = v.render();
    r.append(value.as_str());
    r.append("\n");
    proof {
        reveal_strlit(" ");
        reveal_strlit("\n");
        assert((" ")@ =~= seq![' ']);
        assert(("\n")@ =~= seq!['\n']);
        assert(r@ =~= spec_bar_line(v.0 as int, glyph@, max_abs.0 as int, max_len as int));
    }
    r
}

impl Barchart {
    pub fn is_empty(&self) -> (r: bool)
        ensures
            r == (self.pos@.len() == 0 && self.neg@.len() == 0),
    {
        self.pos.len() == 0 && self.neg.len() == 0
    }

    /// Draws the chart: one bucket after another, in window order. Empty
    /// charts draw nothing.
    pub fn render(&self) -> (r: String)
        requires
            barchart_wf(*self),
            forall|k: int| 0 <= k < self.subs@.len() ==> (#[trigger] self.subs@[k]).start.wf(),
        ensures
            r@ == spec_chart_text(*self, 0),
    {
        let mut out = String::new();
        let n = self.subs.len();
        proof {
            assert(Seq::<char>::empty() + spec_chart_text(*self, 0) =~= spec_chart_text(
                *self,
                0,
            ));
        }
        let mut i: usize = 0;
        #[verifier::loop_isolation(false)]
        while i < n
            invariant
                i <= n,
                out@ + spec_chart_text(*self, i as int) == spec_chart_text(*self, 0),
            decreases n - i,
        {
            let line = self.draw_date(self.subs[i].start);
            out.append(line.as_str());
            proof {
                assert(out@ + spec_chart_text(*self, i + 1) =~= spec_chart_text(*self, 0));
            }
            i = i + 1;
        }
        proof {
            assert(out@ + spec_chart_text(*self, n as int) =~= out@);
        }
        out
    }

    /// Draws one bucket.
    fn draw_date(&self, d: Date) -> (r: String)
        requires
            barchart_wf(*self),
            d.wf(),
        ensures
            r@ == spec_draw_date(*self, d),
    {
        let mut out = String::new();
        if self.pos.len() == 0 && self.neg.len() == 0 {
            proof {
                assert(out@ =~= spec_draw_date(*self, d));
            }
            return out;
        }
        proof {
            lemma_entries_map_props(self.pos@);
            lemma_entries_map_props(self.neg@);
        }
        let label = label_text(d, self.unit);
        out.append(label.as_str());
        out.append(" ");
        out.append(self.charset.chart_axis.as_str());
        let nv = match get_bucket(&self.neg, d) {
            Some(x) => x,
            None => Cents(0),
        };
        proof {
            if entries_map(self.neg@).contains_key(d) {
                lemma_entries_map_props(self.neg@);
                let x = choose|x: int|
                    0 <= x < self.neg@.len() && (#[trigger] self.neg@[x]).0@ == d;
            }
        }
        if self.pos.len() > 0 {
            let pv = match get_bucket(&self.pos, d) {
                Some(x) => x,
                None => Cents(0),
            };
            proof {
                if entries_map(self.pos@).contains_key(d) {
                    lemma_entries_map_props(self.pos@);
                    let x = choose|x: int|
                        0 <= x < self.pos@.len() && (#[trigger] self.pos@[x]).0@ == d;
                }
            }
            let line = bar_line(pv, &self.charset.chart_bar_pos, self.max_abs_val, self.max_barlen);
            out.append(line.as_str());
            if self.neg.len() == 0 {
                proof {
                    reveal_strlit(" ");
                    assert((" ")@ =~= seq![' ']);
                    assert(out@ =~= spec_draw_date(*self, d));
                }
                return out;
            }
            let pad = crate::util::repeat_str(" ", self.label_charlen);
            out.append(pad.as_str());
            out.append(" ");
            out.append(self.charset.chart_axis.as_str());
            let nline = bar_line(
                nv,
                &self.charset.chart_bar_neg,
                self.max_abs_val,
                self.max_barlen,
            );
            out.append(nline.as_str());
            proof {
                reveal_strlit(" ");
                assert((" ")@ =~= seq![' ']);
                assert(out@ =~= spec_draw_date(*self, d));
            }
            out
        } else {
            let nline = bar_line(
                nv,
                &self.charset.chart_bar_neg,
                self.max_abs_val,
                self.max_barlen,
            );
            out.append(nline.as_str());
            proof {
                reveal_strlit(" ");
                assert((" ")@ =~= seq![' ']);
                assert(out@ =~= spec_draw_date(*self, d));
            }
            out
        }
    }
}

/// The largest magnitude among bucket entries.
fn max_abs_entries(v: &Vec<(Date, Cents)>) -> (r: i64)
    requires
        forall|k: int| 0 <= k < v@.len() ==> (#[trigger] v@[k]).1.0 > i64::MIN,
    ensures
        r == entries_max_abs(buckets_view(v@)),
        r >= 0,
{
    let mut best: i64 = 0;
    let n = v.len();
    let mut i: usize = 0;
    #[verifier::loop_isolation(false)]
    while i < n
        invariant
            i <= n,
            best >= 0,
            best == entries_max_abs(buckets_view(v@.take(i as int))),
        decreases n - i,
    {
        proof {
            assert(buckets_view(v@.take(i as int + 1)).drop_last() =~= buckets_view(
                v@.take(i as int),
            ));
            assert(buckets_view(v@.take(i as int + 1)).last() == (
                v@[i as int].0,
                v@[i as int].1.0 as int,
            ));
        }
        let a: i64 = if v[i].1.0 < 0 {
            -v[i].1.0
        } else {
            v[i].1.0
        };
        if a > best {
            best = a;
        }
        i = i + 1;
    }
    proof {
        assert(v@.take(n as int) =~= v@);
        assert(buckets_view(v@.take(n as int)) =~= buckets_view(v@));
    }
    best
}

/// The buckets as viewed pairs.
pub open spec fn buckets_view(s: Seq<(Date, Cents)>) -> Seq<(Date, int)> {
    Seq::new(s.len(), |i: int| (s[i].0, s[i].1.0 as int))
}

/// Every entry's magnitude is bounded by the maximum.
proof fn lemma_max_abs_fits(ps: Seq<(Date, int)>, k: int)
    requires
        0 <= k < ps.len(),
    ensures
        -entries_max_abs(ps) <= ps[k].1 <= entries_max_abs(ps),
        entries_max_abs(ps) >= 0,
    decreases ps.len(),
{
    if k == ps.len() - 1 {
        lemma_max_abs_nonneg(ps.drop_last());
    } else {
        assert(ps.drop_last()[k] == ps[k]);
        lemma_max_abs_fits(ps.drop_last(), k);
    }
}

/// A bound on every entry bounds the maximum magnitude too.
proof fn lemma_max_abs_le(ps: Seq<(Date, int)>, bound: int)
    requires
        bound >= 0,
        forall|k: int| 0 <= k < ps.len() ==> -bound <= (#[trigger] ps[k]).1 <= bound,
    ensures
        entries_max_abs(ps) <= bound,
    decreases ps.len(),
{
    if ps.len() > 0 {
        assert forall|k: int| 0 <= k < ps.drop_last().len() implies -bound <= (
        #[trigger] ps.drop_last()[k]).1 <= bound by {
            assert(ps.drop_last()[k] == ps[k]);
        }
        lemma_max_abs_le(ps.drop_last(), bound);
        assert(ps[ps.len() - 1] == ps.last());
    }
}

proof fn lemma_max_abs_nonneg(ps: Seq<(Date, int)>)
    ensures
        entries_max_abs(ps) >= 0,
    decreases ps.len(),
{
    if ps.len() > 0 {
        lemma_max_abs_nonneg(ps.drop_last());
    }
}

impl Config {
    /// Buckets the records into subintervals of the chosen granularity over
    /// the window trimmed to the records' own span, sums positive and
    /// negative amounts apart per bucket, and sizes the bars against the
    /// largest magnitude and the terminal width.
    ///
    /// The available bar width deliberately reuses the parenthesized,
    /// negative rendering of the largest magnitude for sizing regardless of
    /// its sign, which can leave up to two columns unused.
    #[verifier::rlimit(100)]
    pub fn to_barchart(&self) -> (r: Barchart)
        requires
            self.rl.wf(),
            recs_wf(self.rl.0@),
            crate::recordlist::dates_wf(self.rl.0@),
            self.bounds.wf(),
            self.term_width <= 65535,
            crate::forsum::sum_pos(self.rl.0@) < i64::MAX,
            i64::MIN < crate::forsum::sum_neg(self.rl.0@),
        ensures
            barchart_wf(r),
            r.charset == self.charset,
            r.unit == self.unit,
            subs_chain(r.subs@, self.spec_window(), self.unit),
            r.subs@ == chart_subs(*self),
            buckets_view(r.pos@) == chart_entries(*self, true),
            buckets_view(r.neg@) == chart_entries(*self, false),
            self.spec_window().spec_is_empty() ==> r.subs@.len() == 0,
            !self.spec_window().spec_is_empty() ==> r.subs@.len() > 0 && r.subs@.last().end
                == self.spec_window().end,
            entries_map(r.pos@) == bucket_map(self.rl.0@, r.subs@, true),
            entries_map(r.neg@) == bucket_map(self.rl.0@, r.subs@, false),
            r.max_abs_val.0 == {
                let p = entries_max_abs(buckets_view(r.pos@));
                let n = entries_max_abs(buckets_view(r.neg@));
                if p >= n {
                    p
                } else {
                    n
                }
            },
            r.label_charlen == spec_label_len(self.unit),
            r.max_barlen == (if self.term_width >= crate::util::MIN_TERM_WIDTH {
                self.term_width as int
            } else {
                crate::util::MIN_TERM_WIDTH as int
            }) - spec_label_len(self.unit) - 3 - spec_charlen(-r.max_abs_val.0 as int),
            forall|k: int| 0 <= k < r.subs@.len() ==> (#[trigger] r.subs@[k]).start.wf(),
    {
        let window = self.rl.spanned_interval().intersection(self.bounds);
        proof {
            assert(window == self.spec_window());
        }
        let subs = window.iter(self.unit);
        proof {
            assert(crate::interval::subs_chain(subs@, window, self.unit));
            assert forall|k: int| 0 <= k < subs@.len() implies !(
            #[trigger] subs@[k]).spec_is_empty() by {}
            assert forall|k: int, j: int|
                #![trigger subs@[k], subs@[j]]
                0 <= k < j < subs@.len() implies subs@[k].start != subs@[j].start by {
                crate::interval::lemma_chain_disjoint(subs@, window, self.unit, k, j);
                assert(subs@[k].start.key() <= subs@[k].end.key());
            }
        }
        let pos = bucket_sums(&self.rl, &subs, true);
        let neg = bucket_sums(&self.rl, &subs, false);
        let ghost s = self.rl.0@;
        let p = max_abs_entries(&pos);
        let q = max_abs_entries(&neg);
        let max_abs = if p >= q {
            Cents(p)
        } else {
            Cents(q)
        };
        let label_charlen: usize = match self.unit {
            Datepart::Year => 4,
            Datepart::Month => 8,
            Datepart::Day => 10,
        };
        let width = if self.term_width >= crate::util::MIN_TERM_WIDTH {
            self.term_width
        } else {
            crate::util::MIN_TERM_WIDTH
        };
        proof {
            lemma_chart_bounds(pos@, neg@, max_abs.0 as int, self.rl.0@);
            crate::cents::lemma_cents_text_len(-max_abs.0 as int);
        }
        let charlen_neg = Cents(-max_abs.0).charlen();
        let max_barlen = width - label_charlen - 2 - 1 - charlen_neg;
        Barchart {
            charset: self.charset.clone(),
            unit: self.unit,
            subs,
            pos,
            neg,
            label_charlen,
            max_abs_val: max_abs,
            max_barlen,
        }
    }

    /// The plotted window: the given bounds trimmed to the records' span.
    pub open spec fn spec_window(&self) -> Interval {
        let span = if self.rl.0@.len() == 0 {
            Interval { start: crate::date::spec_max_date(), end: crate::date::spec_min_date() }
        } else {
            Interval { start: self.rl.0@[0].date, end: self.rl.0@.last().date }
        };
        span.spec_intersection(self.bounds)
    }
}

/// The chart's subdivision, as a function of the inputs alone.
pub open spec fn chart_subs(c: Config) -> Seq<Interval> {
    crate::interval::spec_subs(c.spec_window(), c.unit)
}

/// The chart's bucket entries of one sign, as a function of the inputs.
pub open spec fn chart_entries(c: Config, positive: bool) -> Seq<(Date, int)> {
    bucket_entries(c.rl.0@, chart_subs(c), positive)
}

/// The largest bucket magnitude, as a function of the inputs.
pub open spec fn chart_max_abs(c: Config) -> int {
    let p = entries_max_abs(chart_entries(c, true));
    let n = entries_max_abs(chart_entries(c, false));
    if p >= n {
        p
    } else {
        n
    }
}

/// The available bar width, as a function of the inputs.
pub open spec fn chart_max_barlen(c: Config) -> int {
    (if c.term_width >= crate::util::MIN_TERM_WIDTH {
        c.term_width as int
    } else {
        crate::util::MIN_TERM_WIDTH as int
    }) - spec_label_len(c.unit) - 3 - spec_charlen(-chart_max_abs(c))
}

/// What the chart renders to, as a function of its inputs.
pub open spec fn spec_chart_config_text(c: Config) -> Seq<char> {
    spec_chart_text_v(
        chart_subs(c),
        0,
        c.unit,
        c.charset,
        bucket_map(c.rl.0@, chart_subs(c), true),
        bucket_map(c.rl.0@, chart_subs(c), false),
        chart_entries(c, true).len() > 0,
        chart_entries(c, false).len() > 0,
        spec_label_len(c.unit),
        chart_max_abs(c),
        chart_max_barlen(c),
    )
}

/// The label width each granularity reserves.
pub open spec fn spec_label_len(unit: Datepart) -> int {
    match unit {
        Datepart::Year => 4,
        Datepart::Month => 8,
        Datepart::Day => 10,
    }
}

proof fn lemma_isum_take_bounds(s: Seq<Record>, iv: Interval, k: int)
    requires
        0 <= k <= s.len(),
    ensures
        0 <= isum(s.take(k), iv, true) <= isum(s, iv, true),
        isum(s, iv, false) <= isum(s.take(k), iv, false) <= 0,
    decreases s.len() - k,
{
    if k < s.len() {
        lemma_isum_take_bounds(s, iv, k + 1);
        lemma_isum_bounds(s.take(k), iv);
        assert(s.take(k + 1).drop_last() =~= s.take(k));
        assert(s.take(k + 1).last() == s[k]);
    } else {
        assert(s.take(k) =~= s);
        lemma_isum_bounds(s, iv);
    }
}


/// The recorded maximum really bounds every bucket, is itself bounded by
/// the one-signed totals, and its rendering is never wider than 27 columns.
proof fn lemma_chart_bounds(
    posv: Seq<(Date, Cents)>,
    negv: Seq<(Date, Cents)>,
    maxv: int,
    s: Seq<Record>,
)
    requires
        maxv == {
            let p = entries_max_abs(buckets_view(posv));
            let n = entries_max_abs(buckets_view(negv));
            if p >= n {
                p
            } else {
                n
            }
        },
        forall|x: int|
            0 <= x < posv.len() ==> 1 <= (#[trigger] posv[x]).1.0 <= crate::forsum::sum_pos(s),
        forall|x: int|
            0 <= x < negv.len() ==> crate::forsum::sum_neg(s) <= (#[trigger] negv[x]).1.0 <= -1,
        crate::forsum::sum_pos(s) < i64::MAX,
        i64::MIN < crate::forsum::sum_neg(s),
    ensures
        0 <= maxv <= i64::MAX,
        forall|k: int| 0 <= k < posv.len() ==> 0 <= (#[trigger] posv[k]).1.0 <= maxv,
        forall|k: int| 0 <= k < negv.len() ==> -maxv <= (#[trigger] negv[k]).1.0 <= 0,
        (posv.len() > 0 || negv.len() > 0) ==> maxv >= 1,
        spec_charlen(-maxv) <= 27,
{
    lemma_max_abs_nonneg(buckets_view(posv));
    lemma_max_abs_nonneg(buckets_view(negv));
    crate::forsum::lemma_sum_signs(s);
    let bound: int = if crate::forsum::sum_pos(s) >= -crate::forsum::sum_neg(s) {
        crate::forsum::sum_pos(s)
    } else {
        -crate::forsum::sum_neg(s)
    };
    assert forall|k: int| 0 <= k < buckets_view(posv).len() implies -bound <= (
    #[trigger] buckets_view(posv)[k]).1 <= bound by {
        assert(buckets_view(posv)[k] == (posv[k].0, posv[k].1.0 as int));
    }
    assert forall|k: int| 0 <= k < buckets_view(negv).len() implies -bound <= (
    #[trigger] buckets_view(negv)[k]).1 <= bound by {
        assert(buckets_view(negv)[k] == (negv[k].0, negv[k].1.0 as int));
    }
    lemma_max_abs_le(buckets_view(posv), bound);
    lemma_max_abs_le(buckets_view(negv), bound);
    assert forall|k: int| 0 <= k < posv.len() implies 0 <= (#[trigger] posv[k]).1.0
        <= maxv by {
        assert(buckets_view(posv)[k] == (posv[k].0, posv[k].1.0 as int));
        lemma_max_abs_fits(buckets_view(posv), k);
    }
    assert forall|k: int| 0 <= k < negv.len() implies -maxv <= (#[trigger] negv[k]).1.0
        <= 0 by {
        assert(buckets_view(negv)[k] == (negv[k].0, negv[k].1.0 as int));
        lemma_max_abs_fits(buckets_view(negv), k);
    }
    if posv.len() > 0 {
        assert(buckets_view(posv)[0] == (posv[0].0, posv[0].1.0 as int));
        lemma_max_abs_fits(buckets_view(posv), 0);
    }
    if negv.len() > 0 {
        assert(buckets_view(negv)[0] == (negv[0].0, negv[0].1.0 as int));
        lemma_max_abs_fits(buckets_view(negv), 0);
    }
    crate::cents::lemma_charlen_le_27(-maxv);
}

/// Sums one sign's amounts per bucket: one entry per subinterval holding
/// any amount of that sign.
fn bucket_sums(rl: &Recordlist, subs: &Vec<Interval>, positive: bool) -> (out: Vec<(Date, Cents)>)
    requires
        rl.wf(),
        recs_wf(rl.0@),
        forall|k: int| 0 <= k < subs@.len() ==> !(#[trigger] subs@[k]).spec_is_empty(),
        forall|k: int, j: int|
            #![trigger subs@[k], subs@[j]]
            0 <= k < j < subs@.len() ==> subs@[k].start != subs@[j].start,
        crate::forsum::sum_pos(rl.0@) < i64::MAX,
        i64::MIN < crate::forsum::sum_neg(rl.0@),
    ensures
        entries_unique(out@),
        entries_map(out@) == bucket_map(rl.0@, subs@, positive),
        buckets_view(out@) == bucket_entries(rl.0@, subs@, positive),
        forall|x: int|
            0 <= x < out@.len() ==> {
                &&& i64::MIN < (#[trigger] out@[x]).1.0
                &&& (positive ==> 1 <= out@[x].1.0 <= crate::forsum::sum_pos(rl.0@))
                &&& (!positive ==> crate::forsum::sum_neg(rl.0@) <= out@[x].1.0 <= -1)
                &&& exists|k: int| 0 <= k < subs@.len() && (#[trigger] subs@[k]).start == out@[x].0
            },
{
    let ghost s = rl.0@;
    let mut out: Vec<(Date, Cents)> = Vec::new();
    let n = subs.len();
    let mut i: usize = 0;
    #[verifier::loop_isolation(false)]
    while i < n
        invariant
            i <= n,
            entries_unique(out@),
            entries_map(out@) == bucket_map(s, subs@.take(i as int), positive),
            buckets_view(out@) == bucket_entries(s, subs@.take(i as int), positive),
            forall|x: int|
                0 <= x < out@.len() ==> {
                    &&& i64::MIN < (#[trigger] out@[x]).1.0
                    &&& (positive ==> 1 <= out@[x].1.0 <= crate::forsum::sum_pos(s))
                    &&& (!positive ==> crate::forsum::sum_neg(s) <= out@[x].1.0 <= -1)
                    &&& exists|k: int|
                        0 <= k < i && (#[trigger] subs@[k]).start == out@[x].0
                },
        decreases n - i,
    {
        let sub = subs[i];
        let slice = rl.slice_spanning_interval(sub);
        proof {
            assert(!sub.spec_is_empty());
            lemma_isum_slice(s, sub, positive);
            lemma_isum_bounds(s, sub);
            crate::forsum::lemma_sum_signs(s);
            crate::recordlist::lemma_first_ge_char(s, sub.start);
            crate::recordlist::lemma_first_gt_char(s, sub.end);
            if first_gt_idx(s, sub.end) < first_ge_idx(s, sub.start) {
                let bad = first_gt_idx(s, sub.end);
                assert(s[bad].date.spec_lt(sub.start));
                assert(!s[bad].date.spec_le(sub.end));
                assert(false);
            }
        }
        let ghost lo = first_ge_idx(s, sub.start);
        let ghost hi = first_gt_idx(s, sub.end);
        let m = slice.len();
        let mut acc: i64 = 0;
        let mut cnt: usize = 0;
        let mut j: usize = 0;
        #[verifier::loop_isolation(false)]
        while j < m
            invariant
                j <= m,
                acc == isum(slice@.take(j as int), sub, positive),
                cnt == icount(slice@.take(j as int), sub, positive),
                cnt <= j,
                slice@ == s.subrange(lo, hi),
                0 <= lo <= hi <= s.len(),
                m == hi - lo,
            decreases m - j,
        {
            proof {
                assert(slice@.take(j as int + 1).drop_last() =~= slice@.take(j as int));
                assert(slice@.take(j as int + 1).last() == slice@[j as int]);
                lemma_isum_take_bounds(slice@, sub, j as int + 1);
                lemma_isum_take_bounds(slice@, sub, j as int);
                lemma_icount_take_bounds(slice@, sub, j as int + 1);
                assert(slice@[j as int] == s[lo + j]);
                assert(sub.spec_contains(slice@[j as int].date)) by {
                    assert(s[lo + j].date.spec_le(sub.end));
                    assert(!s[lo + j].date.spec_lt(sub.start));
                }
            }
            let rec = &slice[j];
            let taken = if positive {
                rec.amount.0 > 0
            } else {
                rec.amount.0 < 0
            };
            if taken {
                acc = acc + rec.amount.0;
                cnt = cnt + 1;
            }
            j = j + 1;
        }
        proof {
            assert(slice@.take(m as int) =~= slice@);
            assert(subs@.take(i as int + 1).drop_last() =~= subs@.take(i as int));
            assert(subs@.take(i as int + 1).last() == sub);
        }
        if cnt > 0 {
            let ghost before = out@;
            out.push((sub.start, Cents(acc)));
            proof {
                assert(out@.drop_last() =~= before);
                assert(entries_unique(out@)) by {
                    assert forall|x: int, y: int|
                        #![trigger out@[x], out@[y]]
                        0 <= x < y < out@.len() implies out@[x].0@ != out@[y].0@ by {
                        if y == out@.len() - 1 {
                            assert(out@[x] == before[x]);
                            let k = choose|k: int|
                                0 <= k < i && (#[trigger] subs@[k]).start == before[x].0;
                            assert(subs@[k].start != subs@[i as int].start);
                        } else {
                            assert(out@[x] == before[x] && out@[y] == before[y]);
                        }
                    }
                }
                assert(entries_map(out@) =~= bucket_map(s, subs@.take(i as int + 1), positive));
                assert(buckets_view(out@) =~= bucket_entries(
                    s,
                    subs@.take(i as int + 1),
                    positive,
                ));
                assert forall|x: int| 0 <= x < out@.len() implies exists|k: int|
                    0 <= k < i + 1 && (#[trigger] subs@[k]).start == (#[trigger] out@[x]).0 by {
                    if x < out@.len() - 1 {
                        assert(out@[x] == before[x]);
                        let k = choose|k: int|
                            0 <= k < i && (#[trigger] subs@[k]).start == before[x].0;
                    } else {
                        assert(subs@[i as int].start == out@[x].0);
                    }
                }
            }
        } else {
            proof {
                assert(bucket_map(s, subs@.take(i as int + 1), positive) == bucket_map(
                    s,
                    subs@.take(i as int),
                    positive,
                ));
                assert(bucket_entries(s, subs@.take(i as int + 1), positive) == bucket_entries(
                    s,
                    subs@.take(i as int),
                    positive,
                ));
                assert forall|x: int| 0 <= x < out@.len() implies exists|k: int|
                    0 <= k < i + 1 && (#[trigger] subs@[k]).start == (#[trigger] out@[x]).0 by {
                    let k = choose|k: int|
                        0 <= k < i && (#[trigger] subs@[k]).start == out@[x].0;
                }
            }
        }
        i = i + 1;
    }
    proof {
        assert(subs@.take(n as int) =~= subs@);
    }
    out
}

proof fn lemma_icount_take_bounds(s: Seq<Record>, iv: Interval, k: int)
    requires
        0 <= k <= s.len(),
    ensures
        0 <= icount(s.take(k), iv, true) <= k,
        0 <= icount(s.take(k), iv, false) <= k,
    decreases k,
{
    if k > 0 {
        lemma_icount_take_bounds(s, iv, k - 1);
        assert(s.take(k).drop_last() =~= s.take(k - 1));
    }
}

/// Looks a bucket total up by its start date.
fn get_bucket(v: &Vec<(Date, Cents)>, d: Date) -> (r: Option<Cents>)
    requires
        entries_unique(v@),
    ensures
        match r {
            Some(x) => entries_map(v@).contains_key(d) && x.0 == entries_map(v@)[d],
            None => !entries_map(v@).contains_key(d),
        },
{
    proof {
        lemma_entries_map_props(v@);
    }
    let n = v.len();
    let mut i: usize = 0;
    #[verifier::loop_isolation(false)]
    while i < n
        invariant
            i <= n,
            forall|x: int| 0 <= x < i ==> (#[trigger] v@[x]).0 != d,
        decreases n - i,
    {
        if v[i].0 == d {
            return Some(v[i].1);
        }
        i = i + 1;
    }
    proof {
        if entries_map(v@).contains_key(d) {
            let x = choose|x: int| 0 <= x < v@.len() && (#[trigger] v@[x]).0@ == d;
            assert(v@[x].0 == d);
            assert(false);
        }
    }
    None
}

} // verus!
