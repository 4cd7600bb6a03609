use vstd::prelude::*;
use vstd::string::StrSliceExecFns;
use vstd::string::StringExecFns;

use crate::cents::Cents;
use crate::charset::Charset;
use crate::layout::row_text;
use crate::layout::spec_row;
use crate::layout::spec_row_width;
use crate::limitkind::spec_contributions;
use crate::limitkind::spec_remaining;
use crate::limitkind::spec_withdrawals_before;
use crate::limitkind::Limitkind;
use crate::limits::spec_inception;
use crate::limits::years_upto_idx;
use crate::limits::Limits;
use crate::recordlist::recs_wf;
use crate::recordlist::Recordlist;
use crate::text::padded_num;
use crate::text::padded_num_string;
use crate::util::repeat_seq;
use crate::util::repeat_str;

verus! {

/// The room report, laid out: the yearly limits, then a rule, then the
/// Total and Remaining rows, all dash-aligned to one column.
pub struct Limitprinter {
    pub charset: Charset,
    pub rows: Vec<(String, Cents)>,
    pub summary: Vec<(String, Cents)>,
    pub alignment: usize,
}

/// Inputs of the room report.
pub struct Config {
    pub charset: Charset,
    pub year: u16,
    pub kind: Limitkind,
    pub limits: Limits,
    pub rl: Recordlist,
}

/// The widest row in a run of labeled amounts.
pub open spec fn rows_max_width(s: Seq<(String, Cents)>) -> int
    decreases s.len(),
{
    if s.len() == 0 {
        0
    } else {
        let w = spec_row_width(s.last().0@.len() as int, s.last().1.0 as int);
        let rest = rows_max_width(s.drop_last());
        if w >= rest {
            w
        } else {
            rest
        }
    }
}

/// Labeled amounts, one aligned row per line.
pub open spec fn spec_rows_text(s: Seq<(String, Cents)>, i: int, align: int, dash: Seq<char>) -> Seq<char>
    decreases s.len() - i,
{
    if 0 <= i < s.len() {
        spec_row(s[i].0@, s[i].1.0 as int, align, dash) + seq!['\n'] + spec_rows_text(
            s,
            i + 1,
            align,
            dash,
        )
    } else {
        Seq::empty()
    }
}

/// All rows fit the alignment width and can be rendered.
pub open spec fn rows_fit(s: Seq<(String, Cents)>, align: int) -> bool {
    forall|k: int|
        0 <= k < s.len() ==> spec_row_width((#[trigger] s[k]).0@.len() as int, s[k].1.0 as int)
            <= align && s[k].1.0 > i64::MIN
}

impl Limitprinter {
    pub open spec fn wf(self) -> bool {
        rows_fit(self.rows@, self.alignment as int) && rows_fit(
            self.summary@,
            self.alignment as int,
        ) && self.alignment >= 1
    }

    /// What the report renders to.
    pub open spec fn spec_text(self) -> Seq<char> {
        spec_rows_text(self.rows@, 0, self.alignment as int, self.charset.dash@) + (if self.rows@.len() > 0 {
            repeat_seq(seq!['='], (self.alignment - 1) as nat) + seq!['\n']
        } else {
            Seq::empty()
        }) + spec_rows_text(self.summary@, 0, self.alignment as int, self.charset.dash@)
    }

    /// Draws the report. Ends with a newline.
    pub fn render(&self) -> (r: String)
        requires
            self.wf(),
        ensures
            r@ == self.spec_text(),
    {
        let mut out = draw_rows(&self.rows, self.alignment, &self.charset.dash);
        if self.rows.len() > 0 {
            let rule = repeat_str("=", self.alignment - 1);
            out.append(rule.as_str());
            out.append("\n");
            proof {
                reveal_strlit("=");
                reveal_strlit("\n");
                assert(("=")@ =~= seq!['=']);
                assert(("\n")@ =~= seq!['\n']);
            }
        }
        let tail = draw_rows(&self.summary, self.alignment, &self.charset.dash);
        out.append(tail.as_str());
        proof {
            assert(out@ =~= self.spec_text());
        }
        out
    }
}

/// Draws a run of aligned rows, one per line.
fn draw_rows(rows: &Vec<(String, Cents)>, align: usize, dash: &String) -> (r: String)
    requires
        rows_fit(rows@, align as int),
    ensures
        r@ == spec_rows_text(rows@, 0, align as int, dash@),
{
    let mut out = String::new();
    let n = rows.len();
    proof {
        assert(Seq::<char>::empty() + spec_rows_text(rows@, 0, align as int, dash@)
            =~= spec_rows_text(rows@, 0, align as int, dash@));
    }
    let mut i: usize = 0;
    #[verifier::loop_isolation(false)]
    while i < n
        invariant
            i <= n,
            out@ + spec_rows_text(rows@, i as int, align as int, dash@) == spec_rows_text(
                rows@,
                0,
                align as int,
                dash@,
            ),
        decreases n - i,
    {
        let row = row_text(rows[i].0.as_str(), rows[i].1, align, dash.as_str());
        out.append(row.as_str());
        out.append("\n");
        proof {
            reveal_strlit("\n");
            assert(("\n")@ =~= seq!['\n']);
            assert(out@ + spec_rows_text(rows@, i + 1, align as int, dash@) =~= spec_rows_text(
                rows@,
                0,
                align as int,
                dash@,
            ));
        }
        i = i + 1;
    }
    proof {
        assert(out@ + spec_rows_text(rows@, n as int, align as int, dash@) =~= out@);
    }
    out
}

impl Config {
    /// Lays the room report out: one row per configured limit up to the
    /// query year, then Total (their sum) and Remaining (by the account
    /// kind's formula), all sharing one alignment width.
    pub fn to_limitprinter(&self) -> (r: Limitprinter)
        requires
            self.limits.wf(),
            recs_wf(self.rl.0@),
            forall|k: int|
                0 <= k < self.limits.0@.len() ==> (#[trigger] self.limits.0@[k]).1.0 > i64::MIN,
            i64::MIN < spec_inception(self.limits.0@, self.year as int) <= i64::MAX,
            spec_contributions(self.rl.0@, self.year as int) <= i64::MAX,
            spec_withdrawals_before(self.rl.0@, self.year as int) <= i64::MAX,
            i64::MIN < spec_remaining(self.kind, self.limits.0@, self.rl.0@, self.year as int)
                <= i64::MAX,
        ensures
            r.wf(),
            r.charset == self.charset,
            r.rows@.len() == years_upto_idx(self.limits.0@, self.year as int),
            forall|k: int|
                0 <= k < r.rows@.len() ==> (#[trigger] r.rows@[k]).0@ == padded_num(
                    self.limits.0@[k].0 as nat,
                    4,
                ) && r.rows@[k].1 == self.limits.0@[k].1,
            r.summary@.len() == 2,
            r.summary@[0].0@ == ("Total")@,
            r.summary@[0].1.0 == spec_inception(self.limits.0@, self.year as int),
            r.summary@[1].0@ == ("Remaining")@,
            r.summary@[1].1.0 == spec_remaining(
                self.kind,
                self.limits.0@,
                self.rl.0@,
                self.year as int,
            ),
            r.alignment as int == if rows_max_width(r.rows@) >= rows_max_width(r.summary@) {
                rows_max_width(r.rows@)
            } else {
                rows_max_width(r.summary@)
            },
    {
        let listed = self.limits.range(self.year);
        let mut rows: Vec<(String, Cents)> = Vec::new();
        let n = listed.len();
        let mut i: usize = 0;
        #[verifier::loop_isolation(false)]
        while i < n
            invariant
                i <= n,
                rows@.len() == i,
                forall|k: int|
                    0 <= k < i ==> (#[trigger] rows@[k]).0@ == padded_num(
                        listed@[k].0 as nat,
                        4,
                    ) && rows@[k].1 == listed@[k].1,
            decreases n - i,
        {
            let label = padded_num_string(listed[i].0 as u64, 4);
            rows.push((label, listed[i].1));
            i = i + 1;
        }
        let total = self.limits.inception_to_year(self.year);
        let remaining = self.kind.remaining(&self.limits, &self.rl, self.year);
        let mut summary: Vec<(String, Cents)> = Vec::new();
        summary.push((String::from_str("Total"), total));
        summary.push((String::from_str("Remaining"), remaining));
        proof {
            reveal_strlit("Total");
            reveal_strlit("Remaining");
            let ghost upto = years_upto_idx(self.limits.0@, self.year as int);
            assert(listed@ == self.limits.0@.take(upto));
            assert forall|k: int| 0 <= k < rows@.len() implies (#[trigger] rows@[k]).1.0
                > i64::MIN && rows@[k].0@.len() <= 5 by {
                assert(listed@[k] == self.limits.0@.take(upto)[k]);
                assert(self.limits.0@.take(upto)[k] == self.limits.0@[k]);
                assert(rows@[k].1 == self.limits.0@[k].1);
                crate::text::lemma_padded_num_len(listed@[k].0 as nat, 4);
                crate::util::lemma_digit_count_le(listed@[k].0 as nat, 99999);
                reveal_with_fuel(crate::util::spec_digit_count, 7);
            }
        }
        let a1 = max_row_width(&rows);
        let a2 = max_row_width(&summary);
        let alignment = if a1 >= a2 {
            a1
        } else {
            a2
        };
        proof {
            lemma_rows_max_fit(rows@, alignment as int);
            lemma_rows_max_fit(summary@, alignment as int);
            assert forall|k: int| 0 <= k < rows@.len() implies (#[trigger] rows@[k]).1.0
                > i64::MIN by {
                assert(rows@[k].1 == self.limits.0@[k].1);
            }
            assert(summary@[0].1.0 > i64::MIN && summary@[1].1.0 > i64::MIN);
            lemma_rows_max_pos(summary@);
        }
        Limitprinter { charset: self.charset.clone(), rows, summary, alignment }
    }
}

/// The widest row of a run, as `rows_max_width` gives it.
fn max_row_width(rows: &Vec<(String, Cents)>) -> (r: usize)
    requires
        forall|k: int| 0 <= k < rows@.len() ==> (#[trigger] rows@[k]).1.0 > i64::MIN,
        forall|k: int| 0 <= k < rows@.len() ==> (#[trigger] rows@[k]).0@.len() + 64 < usize::MAX,
    ensures
        r == rows_max_width(rows@),
{
    let mut best: usize = 0;
    let n = rows.len();
    let mut i: usize = 0;
    #[verifier::loop_isolation(false)]
    while i < n
        invariant
            i <= n,
            best == rows_max_width(rows@.take(i as int)),
        decreases n - i,
    {
        proof {
            assert(rows@.take(i as int + 1).drop_last() =~= rows@.take(i as int));
            assert(rows@.take(i as int + 1).last() == rows@[i as int]);
            crate::cents::lemma_cents_text_len(rows@[i as int].1.0 as int);
            crate::util::lemma_digit_count_le(
                (if rows@[i as int].1.0 < 0 {
                    -rows@[i as int].1.0
                } else {
                    rows@[i as int].1.0 as int
                }) as nat,
                0xffff_ffff_ffff_ffff,
            );
            reveal_with_fuel(crate::util::spec_digit_count, 21);
        }
        let label_len = rows[i].0.as_str().unicode_len();
        let w = label_len + crate::util::BOUNDING_SPACES_COUNT + crate::util::MIN_DASHES_COUNT
            + rows[i].1.charlen_for_alignment();
        if w > best {
            best = w;
        }
        i = i + 1;
    }
    proof {
        assert(rows@.take(n as int) =~= rows@);
    }
    best
}

/// The maximum width bounds every row.
proof fn lemma_rows_max_fit(s: Seq<(String, Cents)>, align: int)
    requires
        rows_max_width(s) <= align,
        forall|k: int| 0 <= k < s.len() ==> (#[trigger] s[k]).1.0 > i64::MIN,
    ensures
        rows_fit(s, align),
    decreases s.len(),
{
    if s.len() > 0 {
        assert forall|k: int| 0 <= k < s.len() - 1 implies (#[trigger] s.drop_last()[k]).1.0
            > i64::MIN by {
            assert(s.drop_last()[k] == s[k]);
        }
        lemma_rows_max_fit(s.drop_last(), align);
        assert forall|k: int| 0 <= k < s.len() implies spec_row_width(
            (#[trigger] s[k]).0@.len() as int,
            s[k].1.0 as int,
        ) <= align && s[k].1.0 > i64::MIN by {
            if k < s.len() - 1 {
                assert(s.drop_last()[k] == s[k]);
            }
        }
    }
}

/// A non-empty run's maximum width covers its own rows' base width.
proof fn lemma_rows_max_pos(s: Seq<(String, Cents)>)
    requires
        s.len() > 0,
    ensures
        rows_max_width(s) >= crate::util::BOUNDING_SPACES_COUNT + crate::util::MIN_DASHES_COUNT,
    decreases s.len(),
{
    crate::cents::lemma_cents_text_len(s.last().1.0 as int);
}

/// The rows as viewed pairs.
pub open spec fn rows_view(s: Seq<(String, Cents)>) -> Seq<(Seq<char>, int)> {
    Seq::new(s.len(), |i: int| (s[i].0@, s[i].1.0 as int))
}

/// Labeled amounts, one aligned row per line, over viewed pairs.
pub open spec fn rows_text_v(s: Seq<(Seq<char>, int)>, i: int, align: int, dash: Seq<char>) -> Seq<char>
    decreases s.len() - i,
{
    if 0 <= i < s.len() {
        spec_row(s[i].0, s[i].1, align, dash) + seq!['\n'] + rows_text_v(s, i + 1, align, dash)
    } else {
        Seq::empty()
    }
}

/// The widest row in a run of viewed pairs.
pub open spec fn rows_max_width_v(s: Seq<(Seq<char>, int)>) -> int
    decreases s.len(),
{
    if s.len() == 0 {
        0
    } else {
        let w = spec_row_width(s.last().0.len() as int, s.last().1);
        let rest = rows_max_width_v(s.drop_last());
        if w >= rest {
            w
        } else {
            rest
        }
    }
}

/// Row text over strings matches row text over their views.
pub proof fn lemma_rows_text_view(s: Seq<(String, Cents)>, i: int, align: int, dash: Seq<char>)
    ensures
        spec_rows_text(s, i, align, dash) == rows_text_v(rows_view(s), i, align, dash),
    decreases s.len() - i,
{
    if 0 <= i < s.len() {
        lemma_rows_text_view(s, i + 1, align, dash);
        assert(rows_view(s)[i] == (s[i].0@, s[i].1.0 as int));
    }
}

/// Row widths over strings match row widths over their views.
pub proof fn lemma_rows_max_view(s: Seq<(String, Cents)>)
    ensures
        rows_max_width(s) == rows_max_width_v(rows_view(s)),
    decreases s.len(),
{
    if s.len() > 0 {
        lemma_rows_max_view(s.drop_last());
        assert(rows_view(s).drop_last() =~= rows_view(s.drop_last()));
        assert(rows_view(s).last() == (s.last().0@, s.last().1.0 as int));
    }
}

/// The limit rows the report lists: one per configured year up to the
/// query year, the label the zero-padded year.
pub open spec fn spec_limit_rows(limits: Seq<(u16, Cents)>, year: int) -> Seq<(Seq<char>, int)> {
    Seq::new(
        years_upto_idx(limits, year) as nat,
        |k: int| (padded_num(limits[k].0 as nat, 4), limits[k].1.0 as int),
    )
}

/// The Total and Remaining rows.
pub open spec fn spec_summary_rows(c: Config) -> Seq<(Seq<char>, int)> {
    seq![
        (("Total")@, spec_inception(c.limits.0@, c.year as int)),
        (
            ("Remaining")@,
            spec_remaining(c.kind, c.limits.0@, c.rl.0@, c.year as int),
        ),
    ]
}

/// The alignment width the room report settles on.
pub open spec fn spec_limit_align(c: Config) -> int {
    let a = rows_max_width_v(spec_limit_rows(c.limits.0@, c.year as int));
    let b = rows_max_width_v(spec_summary_rows(c));
    if a >= b {
        a
    } else {
        b
    }
}

/// What the room report renders to, as a function of its inputs.
pub open spec fn spec_limitprinter_text(c: Config) -> Seq<char> {
    let rows = spec_limit_rows(c.limits.0@, c.year as int);
    let align = spec_limit_align(c);
    rows_text_v(rows, 0, align, c.charset.dash@) + (if rows.len() > 0 {
        repeat_seq(seq!['='], (align - 1) as nat) + seq!['\n']
    } else {
        Seq::empty()
    }) + rows_text_v(spec_summary_rows(c), 0, align, c.charset.dash@)
}

} // verus!
