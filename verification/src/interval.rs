use vstd::prelude::*;
use vstd::string::StrSliceExecFns;
use vstd::string::StringExecFns;

use crate::date;
use crate::date::spec_first_of;
use crate::date::spec_last_of;
use crate::date::spec_max_date;
use crate::date::spec_min_date;
use crate::date::spec_next_date;
use crate::date::Date;
use crate::datepart::Datepart;
use crate::util::chars_of;

verus! {

/// Interval defined by the inclusive bound of two dates. If `start` is
/// greater than `end`, the interval is considered empty; all empty intervals
/// are equivalent.
#[derive(Debug, Clone, Copy, Eq)]
pub struct Interval {
    pub start: Date,
    pub end: Date,
}

/// Why an interval token failed to parse.
#[derive(Debug, Clone, Copy, PartialEq, Eq, Structural)]
pub enum ParseError {
    /// A colon-free token is not a date token.
    Date(date::ParseError),
    /// The side before the colon is not a date token.
    Left(date::ParseError),
    /// The side after the colon is not a date token.
    Right(date::ParseError),
}

impl Interval {
    pub open spec fn wf(self) -> bool {
        self.start.wf() && self.end.wf()
    }

    pub open spec fn spec_is_empty(self) -> bool {
        self.start.key() > self.end.key()
    }

    /// Chronological membership.
    pub open spec fn spec_contains(self, d: Date) -> bool {
        self.start.spec_le(d) && d.spec_le(self.end)
    }

    pub open spec fn spec_intersection(self, other: Self) -> Self {
        Interval {
            start: if other.start.spec_le(self.start) {
                self.start
            } else {
                other.start
            },
            end: if self.end.spec_le(other.end) {
                self.end
            } else {
                other.end
            },
        }
    }
}

impl PartialEq for Interval {
    /// All empty intervals are equal; non-empty intervals compare by bounds.
    fn eq(&self, other: &Self) -> (r: bool) {
        let self_empty = self.end.key_u32() < self.start.key_u32();
        let other_empty = other.end.key_u32() < other.start.key_u32();
        (self_empty && other_empty) || (self.start == other.start && self.end == other.end)
    }
}

impl vstd::std_specs::cmp::PartialEqSpecImpl for Interval {
    open spec fn obeys_eq_spec() -> bool {
        true
    }

    open spec fn eq_spec(&self, other: &Interval) -> bool {
        (self.spec_is_empty() && other.spec_is_empty()) || (self.start == other.start && self.end
            == other.end)
    }
}

/// A run of subintervals that tile `whole` along `part` boundaries: the
/// first starts at `whole.start`, each next one starts the day after its
/// predecessor ends, interior bounds are calendar-aligned, and every end is
/// the earlier of the period's last day and `whole.end`.
pub open spec fn subs_chain(subs: Seq<Interval>, whole: Interval, part: Datepart) -> bool {
    &&& forall|k: int|
        0 <= k < subs.len() ==> {
            &&& (#[trigger] subs[k]).wf()
            &&& !subs[k].spec_is_empty()
            &&& whole.start.spec_le(subs[k].start)
            &&& subs[k].end == (if spec_last_of(subs[k].start, part).spec_le(whole.end) {
                spec_last_of(subs[k].start, part)
            } else {
                whole.end
            })
        }
    &&& (subs.len() > 0 ==> subs[0].start == whole.start)
    &&& forall|k: int|
        #![trigger subs[k]]
        1 <= k < subs.len() ==> {
            &&& subs[k].start == spec_next_date(subs[k - 1].end)
            &&& subs[k].start == spec_first_of(subs[k].start, part)
        }
}

/// The subdivision itself, as a function of the bounds: the first
/// subinterval runs to its period's last day or the overall end, whichever
/// is earlier, and the rest subdivide what follows.
pub open spec fn spec_subs(iv: Interval, part: Datepart) -> Seq<Interval>
    decreases iv.end.key() - iv.start.key()
        when iv.wf()
        via spec_subs_decreases
{
    if iv.spec_is_empty() {
        Seq::empty()
    } else {
        let end1 = if spec_last_of(iv.start, part).spec_le(iv.end) {
            spec_last_of(iv.start, part)
        } else {
            iv.end
        };
        let sub = Interval { start: iv.start, end: end1 };
        if iv.end.spec_le(end1) {
            seq![sub]
        } else {
            seq![sub] + spec_subs(
                Interval { start: spec_next_date(end1), end: iv.end },
                part,
            )
        }
    }
}

#[via_fn]
proof fn spec_subs_decreases(iv: Interval, part: Datepart) {
    if !iv.spec_is_empty() {
        lemma_period_bounds(iv.start, part);
        let end1 = if spec_last_of(iv.start, part).spec_le(iv.end) {
            spec_last_of(iv.start, part)
        } else {
            iv.end
        };
        if !iv.end.spec_le(end1) {
            crate::date::lemma_next_date_key_gt(end1);
            assert(end1 != spec_max_date());
            assert(spec_next_date(end1).wf());
        }
    }
}

/// A date never precedes the first, nor follows the last, day of its own
/// period.
proof fn lemma_period_bounds(d: Date, part: Datepart)
    requires
        d.wf(),
    ensures
        spec_first_of(d, part).wf(),
        spec_last_of(d, part).wf(),
        spec_first_of(d, part).spec_le(d),
        d.spec_le(spec_last_of(d, part)),
        spec_first_of(spec_first_of(d, part), part) == spec_first_of(d, part),
        spec_last_of(spec_first_of(d, part), part) == spec_last_of(d, part),
{
}

/// The next day is the least date strictly beyond `x`.
proof fn lemma_next_date_tight(x: Date, y: Date)
    requires
        x.wf(),
        y.wf(),
        x.spec_lt(y),
    ensures
        spec_next_date(x).spec_le(y),
{
    let n = spec_next_date(x);
    if x.spec_day() < date::spec_days_in_month(x.spec_year(), x.spec_month()) {
    } else if x.spec_month() < 12 {
        if y.spec_year() < x.spec_year() {
            assert(y.key() < x.key());
        } else if y.spec_year() > x.spec_year() {
            assert(y.key() >= n.key());
        } else {
            if y.spec_month() <= x.spec_month() {
                assert(y.spec_day() <= 31);
                assert(y.key() <= x.key());
            } else {
                assert(y.key() >= n.key());
            }
        }
    } else {
        if y.spec_year() <= x.spec_year() {
            assert(y.key() <= x.key());
        } else {
            assert(y.key() >= n.key());
        }
    }
}

/// In a chain of subintervals, every earlier subinterval ends strictly
/// before every later one starts: they are pairwise disjoint and ordered.
pub proof fn lemma_chain_disjoint(subs: Seq<Interval>, whole: Interval, part: Datepart, k: int, j: int)
    requires
        subs_chain(subs, whole, part),
        0 <= k < j < subs.len(),
    ensures
        subs[k].end.spec_lt(subs[j].start),
    decreases j - k,
{
    assert(subs[j].start == spec_next_date(subs[j - 1].end));
    date::lemma_next_date_key_gt(subs[j - 1].end);
    if k < j - 1 {
        lemma_chain_disjoint(subs, whole, part, k, j - 1);
    }
}

impl Interval {
    /// The empty interval in its canonical spelling.
    pub fn empty() -> (r: Self)
        ensures
            r.spec_is_empty(),
            r.wf(),
            r.start == spec_max_date() && r.end == spec_min_date(),
    {
        Interval { start: Date::max_value(), end: Date::min_value() }
    }

    /// The largest possible interval.
    pub fn max_interval() -> (r: Self)
        ensures
            r.start == spec_min_date() && r.end == spec_max_date(),
            r.wf(),
            !r.spec_is_empty(),
    {
        Interval { start: Date::min_value(), end: Date::max_value() }
    }

    pub fn is_empty(self) -> (r: bool)
        ensures
            r == self.spec_is_empty(),
    {
        self.end.key_u32() < self.start.key_u32()
    }

    /// Component-wise max of starts and min of ends.
    pub fn intersection(self, other: Self) -> (r: Self)
        requires
            self.wf(),
            other.wf(),
        ensures
            r == self.spec_intersection(other),
            r.wf(),
    {
        Interval {
            start: self.start.max_date(other.start),
            end: self.end.min_date(other.end),
        }
    }

    /// Renders as `start:end`.
    pub fn render(self) -> (r: String)
        requires
            self.wf(),
        ensures
            r@ == date::date_text(self.start) + seq![':'] + date::date_text(self.end),
    {
        let mut r = self.start.render();
        let e = self.end.render();
        r.append(":");
        r.append(e.as_str());
        proof {
            reveal_strlit(":");
            assert((":")@ =~= seq![':']);
        }
        r
    }

    /// Successive subintervals that partition the interval along calendar
    /// boundaries of `part`.
    ///
    /// The returned run is a `subs_chain`: the subintervals are pairwise
    /// disjoint and ordered by start (see `lemma_chain_disjoint`), they are
    /// contiguous, and their union spans exactly this interval — the first
    /// starts at `start`, the last ends at `end`, and each other boundary is
    /// calendar-aligned.
    #[verifier::rlimit(100)]
    pub fn iter(self, part: Datepart) -> (subs: Vec<Interval>)
        requires
            self.wf(),
        ensures
            self.spec_is_empty() ==> subs@.len() == 0,
            !self.spec_is_empty() ==> subs@.len() > 0 && subs@.last().end == self.end,
            subs_chain(subs@, self, part),
            subs@ == spec_subs(self, part),
    {
        let mut subs: Vec<Interval> = Vec::new();
        if self.is_empty() {
            return subs;
        }
        let mut cur = Interval {
            start: self.start,
            end: self.start.last_of(part).min_date(self.end),
        };
        proof {
            lemma_period_bounds(self.start, part);
        }
        let mut done = false;
        while !done
            invariant
                self.wf(),
                !self.spec_is_empty(),
                !done ==> {
                    &&& cur.wf()
                    &&& !cur.spec_is_empty()
                    &&& self.start.spec_le(cur.start)
                    &&& cur.end == (if spec_last_of(cur.start, part).spec_le(self.end) {
                        spec_last_of(cur.start, part)
                    } else {
                        self.end
                    })
                    &&& subs_chain(subs@.push(cur), self, part)
                    &&& (subs@.len() == 0 ==> cur.start == self.start)
                    &&& (subs@.len() > 0 ==> cur.start == spec_next_date(subs@.last().end)
                        && cur.start == spec_first_of(cur.start, part))
                },
                done ==> subs@.len() > 0 && subs@.last().end == self.end && subs_chain(
                    subs@,
                    self,
                    part,
                ) && subs@ == spec_subs(self, part),
                !done ==> subs@ + spec_subs(
                    Interval { start: cur.start, end: self.end },
                    part,
                ) == spec_subs(self, part),
            decreases self.end.key() - cur.start.key() + if done {
                0int
            } else {
                1int
            },
    {
            let prev = cur;
            subs.push(cur);
            proof {
                lemma_period_bounds(prev.start, part);
                date::lemma_period_contiguous(prev.start, part);
            }
            match prev.start.shift(part, 1) {
                None => {
                    // the current period runs to the top of the range, so
                    // the current subinterval already ends at `end`
                    proof {
                        assert(spec_last_of(prev.start, part) == spec_max_date());
                        assert(self.end.spec_le(spec_max_date()));
                    }
                    done = true;
                },
                Some(dt) => {
                    let start = dt.first_of(part);
                    let end = dt.last_of(part).min_date(self.end);
                    proof {
                        lemma_period_bounds(dt, part);
                        assert(start == spec_next_date(spec_last_of(prev.start, part)));
                    }
                    if start.le(end) {
                        proof {
                            // the new start follows `prev.end` immediately:
                            // prev ended at its period's last day, since a
                            // clipped end would have ended the walk
                            if !spec_last_of(prev.start, part).spec_le(self.end) {
                                assert(prev.end == self.end);
                                assert(start.spec_le(spec_last_of(start, part)));
                                date::lemma_next_date_key_gt(spec_last_of(prev.start, part));
                                assert(self.end.spec_lt(spec_last_of(prev.start, part)));
                                lemma_next_date_tight(self.end, spec_last_of(prev.start, part));
                                assert(false);
                            }
                            assert(prev.end == spec_last_of(prev.start, part));
                            assert(start == spec_next_date(prev.end));
                            assert(subs_chain(subs@.push(Interval { start, end }), self, part));
                        }
                        cur = Interval { start, end };
                        proof {
                            date::lemma_next_date_key_gt(prev.end);
                        }
                    } else {
                        // the next period starts beyond `end`: the current
                        // subinterval must have been clipped to `end`
                        proof {
                            if spec_last_of(prev.start, part).spec_le(self.end) {
                                assert(prev.end == spec_last_of(prev.start, part));
                                if prev.end.spec_lt(self.end) {
                                    lemma_next_date_tight(prev.end, self.end);
                                    assert(start.spec_le(self.end));
                                    assert(start.spec_le(spec_last_of(start, part)));
                                    assert(start.spec_le(end));
                                    assert(false);
                                }
                                assert(prev.end == self.end);
                            } else {
                                assert(prev.end == self.end);
                            }
                        }
                        done = true;
                    }
                },
            }
        }
        subs
    }
}

/// Index of the first `:` in `s`, or -1 if there is none.
pub open spec fn first_colon(s: Seq<char>) -> int
    decreases s.len(),
{
    if s.len() == 0 {
        -1
    } else if s[0] == ':' {
        0
    } else {
        let r = first_colon(s.skip(1));
        if r < 0 {
            -1
        } else {
            1 + r
        }
    }
}

proof fn lemma_first_colon_at(s: Seq<char>, k: int)
    requires
        0 <= k < s.len(),
        s[k] == ':',
        forall|j: int| 0 <= j < k ==> #[trigger] s[j] != ':',
    ensures
        first_colon(s) == k,
    decreases s.len(),
{
    if k > 0 {
        let t = s.skip(1);
        assert forall|j: int| 0 <= j < k - 1 implies #[trigger] t[j] != ':' by {
            assert(t[j] == s[j + 1]);
        }
        assert(t[k - 1] == s[k]);
        lemma_first_colon_at(t, k - 1);
    }
}

proof fn lemma_no_colon(s: Seq<char>)
    requires
        forall|j: int| 0 <= j < s.len() ==> #[trigger] s[j] != ':',
    ensures
        first_colon(s) == -1,
    decreases s.len(),
{
    if s.len() > 0 {
        let t = s.skip(1);
        assert forall|j: int| 0 <= j < t.len() implies #[trigger] t[j] != ':' by {
            assert(t[j] == s[j + 1]);
        }
        lemma_no_colon(t);
    }
}

/// How an interval token reads. With a colon, each side is a date token, an
/// empty side standing for the corresponding extreme; without one, the
/// token is a single date token widened to the period its anchor suggests.
pub open spec fn spec_parse_interval(s: Seq<char>, today: Date) -> Result<Interval, ParseError> {
    let i = first_colon(s);
    if i >= 0 {
        let left = s.take(i);
        let right = s.skip(i + 1);
        let start = if left.len() == 0 {
            Ok(spec_min_date())
        } else {
            date::spec_parse_token(left, today)
        };
        let end = if right.len() == 0 {
            Ok(spec_max_date())
        } else {
            date::spec_parse_token(right, today)
        };
        match (start, end) {
            (Err(e), _) => Err(ParseError::Left(e)),
            (_, Err(e)) => Err(ParseError::Right(e)),
            (Ok(a), Ok(b)) => Ok(Interval { start: a, end: b }),
        }
    } else {
        match date::spec_parse_token(s, today) {
            Err(e) => Err(ParseError::Date(e)),
            Ok(dt) => {
                let part = if s[0] == 'y' || s[0] == 'Y' {
                    Datepart::Year
                } else if s[0] == 'm' || s[0] == 'M' {
                    Datepart::Month
                } else {
                    Datepart::Day
                };
                Ok(Interval { start: spec_first_of(dt, part), end: spec_last_of(dt, part) })
            },
        }
    }
}

impl Interval {
    /// Parses an interval token, `today` anchoring relative date tokens.
    pub fn parse(s: &str, today: Date) -> (r: Result<Interval, ParseError>)
        requires
            today.wf(),
        ensures
            r == spec_parse_interval(s@, today),
            r matches Ok(iv) ==> iv.wf(),
    {
        let cs = chars_of(s);
        let n = cs.len();
        let mut i: usize = 0;
        let mut found = false;
        while i < n && !found
            invariant
                i <= n,
                n == cs@.len(),
                cs@ == s@,
                !found ==> forall|x: int| 0 <= x < i ==> #[trigger] cs@[x] != ':',
                found ==> i < n && cs@[i as int] == ':' && (forall|x: int|
                    0 <= x < i ==> #[trigger] cs@[x] != ':'),
            decreases n - i + if found {
                0int
            } else {
                1int
            },
        {
            if cs[i] == ':' {
                found = true;
            } else {
                i = i + 1;
            }
        }
        if found {
            proof {
                lemma_first_colon_at(s@, i as int);
            }
            let left = s.substring_char(0, i);
            let right = s.substring_char(i + 1, n);
            proof {
                assert(left@ =~= s@.take(i as int));
                assert(right@ =~= s@.skip(i as int + 1));
            }
            let start = if left.unicode_len() == 0 {
                Date::min_value()
            } else {
                match Date::parse(left, today) {
                    Ok(d) => d,
                    Err(e) => {
                        return Err(ParseError::Left(e));
                    },
                }
            };
            let end = if right.unicode_len() == 0 {
                Date::max_value()
            } else {
                match Date::parse(right, today) {
                    Ok(d) => d,
                    Err(e) => {
                        return Err(ParseError::Right(e));
                    },
                }
            };
            Ok(Interval { start, end })
        } else {
            proof {
                lemma_no_colon(s@);
            }
            match Date::parse(s, today) {
                Err(e) => Err(ParseError::Date(e)),
                Ok(dt) => {
                    proof {
                        assert(s@.len() > 0);
                    }
                    let c0 = cs[0];
                    let part = if c0 == 'y' || c0 == 'Y' {
                        Datepart::Year
                    } else if c0 == 'm' || c0 == 'M' {
                        Datepart::Month
                    } else {
                        Datepart::Day
                    };
                    proof {
                        lemma_period_bounds(dt, part);
                    }
                    Ok(Interval { start: dt.first_of(part), end: dt.last_of(part) })
                },
            }
        }
    }
}

} // verus!
