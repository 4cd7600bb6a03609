use vstd::prelude::*;

use crate::date::Date;
use crate::interval::Interval;
use crate::record::Record;

verus! {

/// An ordered collection of records, always sorted by date; records sharing
/// a date keep the relative order in which they were inserted.
#[derive(Debug)]
pub struct Recordlist(pub Vec<Record>);

/// Sorted by date, duplicates allowed.
pub open spec fn sorted_by_date(s: Seq<Record>) -> bool {
    forall|i: int, j: int|
        #![trigger s[i], s[j]]
        0 <= i <= j < s.len() ==> s[i].date.spec_le(s[j].date)
}

/// Every record has a date in bounds and a renderable amount.
pub open spec fn recs_wf(s: Seq<Record>) -> bool {
    forall|k: int| 0 <= k < s.len() ==> (#[trigger] s[k]).wf()
}

/// Every record's date lies in bounds.
pub open spec fn dates_wf(s: Seq<Record>) -> bool {
    forall|k: int| 0 <= k < s.len() ==> (#[trigger] s[k]).date.wf()
}

/// Number of leading records dated before `d`; on a sorted sequence, the
/// position where the run of records dated `d` begins.
pub open spec fn first_ge_idx(s: Seq<Record>, d: Date) -> int
    decreases s.len(),
{
    if s.len() == 0 {
        0
    } else if s[0].date.spec_lt(d) {
        1 + first_ge_idx(s.skip(1), d)
    } else {
        0
    }
}

/// Number of leading records dated at or before `d`; on a sorted sequence,
/// the position just past the run of records dated `d`.
pub open spec fn first_gt_idx(s: Seq<Record>, d: Date) -> int
    decreases s.len(),
{
    if s.len() == 0 {
        0
    } else if s[0].date.spec_le(d) {
        1 + first_gt_idx(s.skip(1), d)
    } else {
        0
    }
}

/// Inserting a record places it after every record dated at or before it
/// and before every record dated after it.
pub open spec fn spec_insert(s: Seq<Record>, r: Record) -> Seq<Record> {
    let p = first_gt_idx(s, r.date);
    s.take(p) + seq![r] + s.skip(p)
}

/// The list built by inserting the given records in order.
pub open spec fn spec_from_records(s: Seq<Record>) -> Seq<Record>
    decreases s.len(),
{
    if s.len() == 0 {
        Seq::empty()
    } else {
        spec_insert(spec_from_records(s.drop_last()), s.last())
    }
}

/// The subsequence of records dated exactly `d`, in stored order.
pub open spec fn records_on(s: Seq<Record>, d: Date) -> Seq<Record> {
    s.filter(|r: Record| r.date == d)
}

/// The record at index-in-date `iid` of date `d`: position `iid` within the
/// run of records dated `d`.
pub open spec fn spec_get(s: Seq<Record>, d: Date, iid: int) -> Option<Record> {
    let base = first_ge_idx(s, d);
    let cnt = first_gt_idx(s, d) - base;
    if 0 <= iid < cnt {
        Some(s[base + iid])
    } else {
        None
    }
}

/// The index-in-date ordinal at position `k`: how many earlier records
/// share the date of `s[k]`.
pub open spec fn iid_of(s: Seq<Record>, k: int) -> int {
    records_on(s.take(k), s[k].date).len() as int
}

proof fn lemma_sorted_skip(s: Seq<Record>, d: Date)
    requires
        sorted_by_date(s),
        s.len() > 0,
    ensures
        sorted_by_date(s.skip(1)),
{
    let t = s.skip(1);
    assert forall|i: int, j: int|
        #![trigger t[i], t[j]]
        0 <= i <= j < t.len() implies t[i].date.spec_le(t[j].date) by {
        assert(t[i] == s[i + 1] && t[j] == s[j + 1]);
    }
}

/// On a sorted sequence, `first_ge_idx` is the partition point of
/// "dated before `d`".
pub proof fn lemma_first_ge_char(s: Seq<Record>, d: Date)
    requires
        sorted_by_date(s),
    ensures
        0 <= first_ge_idx(s, d) <= s.len(),
        forall|k: int| 0 <= k < first_ge_idx(s, d) ==> (#[trigger] s[k]).date.spec_lt(d),
        forall|k: int| first_ge_idx(s, d) <= k < s.len() ==> !(#[trigger] s[k]).date.spec_lt(d),
    decreases s.len(),
{
    if s.len() > 0 {
        lemma_sorted_skip(s, d);
        lemma_first_ge_char(s.skip(1), d);
        let t = s.skip(1);
        if s[0].date.spec_lt(d) {
            assert forall|k: int| 0 <= k < first_ge_idx(s, d) implies (
            #[trigger] s[k]).date.spec_lt(d) by {
                if k > 0 {
                    assert(s[k] == t[k - 1]);
                }
            }
            assert forall|k: int| first_ge_idx(s, d) <= k < s.len() implies !(
            #[trigger] s[k]).date.spec_lt(d) by {
                assert(s[k] == t[k - 1]);
            }
        } else {
            assert forall|k: int| 0 <= k < s.len() implies !(#[trigger] s[k]).date.spec_lt(d) by {
                assert(s[0].date.spec_le(s[k].date));
            }
        }
    }
}

/// On a sorted sequence, `first_gt_idx` is the partition point of
/// "dated at or before `d`".
pub proof fn lemma_first_gt_char(s: Seq<Record>, d: Date)
    requires
        sorted_by_date(s),
    ensures
        0 <= first_gt_idx(s, d) <= s.len(),
        forall|k: int| 0 <= k < first_gt_idx(s, d) ==> (#[trigger] s[k]).date.spec_le(d),
        forall|k: int| first_gt_idx(s, d) <= k < s.len() ==> !(#[trigger] s[k]).date.spec_le(d),
    decreases s.len(),
{
    if s.len() > 0 {
        lemma_sorted_skip(s, d);
        lemma_first_gt_char(s.skip(1), d);
        let t = s.skip(1);
        if s[0].date.spec_le(d) {
            assert forall|k: int| 0 <= k < first_gt_idx(s, d) implies (
            #[trigger] s[k]).date.spec_le(d) by {
                if k > 0 {
                    assert(s[k] == t[k - 1]);
                }
            }
            assert forall|k: int| first_gt_idx(s, d) <= k < s.len() implies !(
            #[trigger] s[k]).date.spec_le(d) by {
                assert(s[k] == t[k - 1]);
            }
        } else {
            assert forall|k: int| 0 <= k < s.len() implies !(#[trigger] s[k]).date.spec_le(d) by {
                assert(s[0].date.spec_le(s[k].date));
            }
        }
    }
}

/// A partition point of "dated before `d`" is unique.
pub proof fn lemma_first_ge_from_partition(s: Seq<Record>, d: Date, p: int)
    requires
        sorted_by_date(s),
        0 <= p <= s.len(),
        forall|k: int| 0 <= k < p ==> (#[trigger] s[k]).date.spec_lt(d),
        forall|k: int| p <= k < s.len() ==> !(#[trigger] s[k]).date.spec_lt(d),
    ensures
        first_ge_idx(s, d) == p,
{
    lemma_first_ge_char(s, d);
    let q = first_ge_idx(s, d);
    if q < p {
        assert(s[q].date.spec_lt(d));
        assert(false);
    }
    if p < q {
        assert(s[p].date.spec_lt(d));
        assert(false);
    }
}

/// A partition point of "dated at or before `d`" is unique.
pub proof fn lemma_first_gt_from_partition(s: Seq<Record>, d: Date, p: int)
    requires
        sorted_by_date(s),
        0 <= p <= s.len(),
        forall|k: int| 0 <= k < p ==> (#[trigger] s[k]).date.spec_le(d),
        forall|k: int| p <= k < s.len() ==> !(#[trigger] s[k]).date.spec_le(d),
    ensures
        first_gt_idx(s, d) == p,
{
    lemma_first_gt_char(s, d);
    let q = first_gt_idx(s, d);
    if q < p {
        assert(s[q].date.spec_le(d));
        assert(false);
    }
    if p < q {
        assert(s[p].date.spec_le(d));
        assert(false);
    }
}

/// Inserting preserves the sort order.
pub proof fn lemma_insert_sorted(s: Seq<Record>, r: Record)
    requires
        sorted_by_date(s),
    ensures
        sorted_by_date(spec_insert(s, r)),
        spec_insert(s, r).len() == s.len() + 1,
{
    lemma_first_gt_char(s, r.date);
    let p = first_gt_idx(s, r.date);
    let out = spec_insert(s, r);
    assert forall|i: int, j: int|
        #![trigger out[i], out[j]]
        0 <= i <= j < out.len() implies out[i].date.spec_le(out[j].date) by {
        if i < p {
            assert(out[i] == s[i]);
        } else if i == p {
            assert(out[i] == r);
        } else {
            assert(out[i] == s[i - 1]);
        }
        if j < p {
            assert(out[j] == s[j]);
        } else if j == p {
            assert(out[j] == r);
        } else {
            assert(out[j] == s[j - 1]);
        }
    }
}

proof fn lemma_records_on_append(a: Seq<Record>, b: Seq<Record>, d: Date)
    ensures
        records_on(a + b, d) == records_on(a, d) + records_on(b, d),
    decreases b.len(),
{
    reveal(Seq::filter);
    if b.len() == 0 {
        assert(a + b =~= a);
        assert(records_on(a, d) + records_on(b, d) =~= records_on(a, d));
    } else {
        lemma_records_on_append(a, b.drop_last(), d);
        assert((a + b).drop_last() =~= a + b.drop_last());
        assert((a + b).last() == b.last());
        if b.last().date == d {
            assert(records_on(a + b, d) =~= records_on(a, d) + records_on(b, d));
        } else {
            assert(records_on(a + b, d) =~= records_on(a, d) + records_on(b, d));
        }
    }
}

proof fn lemma_records_on_none(s: Seq<Record>, d: Date)
    requires
        forall|k: int| 0 <= k < s.len() ==> (#[trigger] s[k]).date != d,
    ensures
        records_on(s, d) == Seq::<Record>::empty(),
    decreases s.len(),
{
    reveal(Seq::filter);
    if s.len() > 0 {
        lemma_records_on_none(s.drop_last(), d);
    }
}

/// A date's run is never longer than the list itself.
pub proof fn lemma_records_on_len(s: Seq<Record>, d: Date)
    ensures
        records_on(s, d).len() <= s.len(),
    decreases s.len(),
{
    reveal(Seq::filter);
    if s.len() > 0 {
        lemma_records_on_len(s.drop_last(), d);
    }
}

/// Inserting a record appends it to the run of its own date and leaves
/// every other date's run untouched.
pub proof fn lemma_insert_date_run(s: Seq<Record>, r: Record, d: Date)
    requires
        sorted_by_date(s),
    ensures
        records_on(spec_insert(s, r), d) == records_on(s, d) + if r.date == d {
            seq![r]
        } else {
            Seq::<Record>::empty()
        },
{
    reveal_with_fuel(Seq::filter, 3);
    lemma_first_gt_char(s, r.date);
    let p = first_gt_idx(s, r.date);
    let head = s.take(p);
    let tail = s.skip(p);
    lemma_records_on_append(head + seq![r], tail, d);
    lemma_records_on_append(head, seq![r], d);
    lemma_records_on_append(head, tail, d);
    assert(head + tail =~= s);
    assert(seq![r].drop_last() =~= Seq::<Record>::empty());
    if r.date == d {
        assert(records_on(seq![r], d) =~= seq![r]);
        // no record after the insertion point shares the inserted date
        assert forall|k: int| 0 <= k < tail.len() implies (#[trigger] tail[k]).date != d by {
            assert(tail[k] == s[p + k]);
            assert(!s[p + k].date.spec_le(r.date));
        }
        lemma_records_on_none(tail, d);
        assert(records_on(spec_insert(s, r), d) =~= records_on(s, d) + seq![r]);
    } else {
        assert(records_on(seq![r], d) =~= Seq::<Record>::empty());
        assert(records_on(spec_insert(s, r), d) =~= records_on(s, d)
            + Seq::<Record>::empty());
    }
}

/// Building a list from records keeps each date's run in input order: the
/// records dated `d` come out exactly as they went in, whatever the order
/// of the dates around them.
pub proof fn lemma_from_records_keeps_date_order(input: Seq<Record>, d: Date)
    ensures
        sorted_by_date(spec_from_records(input)),
        records_on(spec_from_records(input), d) == records_on(input, d),
    decreases input.len(),
{
    reveal_with_fuel(Seq::filter, 3);
    if input.len() == 0 {
    } else {
        let prev = input.drop_last();
        let r = input.last();
        lemma_from_records_keeps_date_order(prev, d);
        lemma_insert_sorted(spec_from_records(prev), r);
        lemma_insert_date_run(spec_from_records(prev), r, d);
        assert(prev.push(r) =~= input);
        lemma_records_on_append(prev, seq![r], d);
        assert(seq![r].drop_last() =~= Seq::<Record>::empty());
        if r.date == d {
            assert(records_on(seq![r], d) =~= seq![r]);
        } else {
            assert(records_on(seq![r], d) =~= Seq::<Record>::empty());
        }
        assert(prev + seq![r] =~= input);
    }
}

/// Removing the record at `(d, iid)` shifts the next record of that date
/// into the vacated slot: re-querying `(d, iid)` afterwards yields what
/// `(d, iid + 1)` yielded before, or nothing if none remains.
pub proof fn lemma_requery_after_remove(s: Seq<Record>, d: Date, iid: int)
    requires
        sorted_by_date(s),
        spec_get(s, d, iid) is Some,
    ensures
        sorted_by_date(s.remove(first_ge_idx(s, d) + iid)),
        spec_get(s.remove(first_ge_idx(s, d) + iid), d, iid) == spec_get(s, d, iid + 1),
{
    lemma_first_ge_char(s, d);
    lemma_first_gt_char(s, d);
    let base = first_ge_idx(s, d);
    let cnt = first_gt_idx(s, d) - base;
    let p = base + iid;
    let s2 = s.remove(p);
    assert(base <= p < first_gt_idx(s, d));
    assert forall|i: int, j: int|
        #![trigger s2[i], s2[j]]
        0 <= i <= j < s2.len() implies s2[i].date.spec_le(s2[j].date) by {
        let i0 = if i < p {
            i
        } else {
            i + 1
        };
        let j0 = if j < p {
            j
        } else {
            j + 1
        };
        assert(s2[i] == s[i0] && s2[j] == s[j0]);
    }
    assert forall|k: int| 0 <= k < base implies (#[trigger] s2[k]).date.spec_lt(d) by {
        assert(s2[k] == s[k]);
    }
    assert forall|k: int| base <= k < s2.len() implies !(#[trigger] s2[k]).date.spec_lt(d) by {
        let k0 = if k < p {
            k
        } else {
            k + 1
        };
        assert(s2[k] == s[k0]);
    }
    lemma_first_ge_from_partition(s2, d, base);
    assert forall|k: int| 0 <= k < first_gt_idx(s, d) - 1 implies (
    #[trigger] s2[k]).date.spec_le(d) by {
        let k0 = if k < p {
            k
        } else {
            k + 1
        };
        assert(s2[k] == s[k0]);
    }
    assert forall|k: int| first_gt_idx(s, d) - 1 <= k < s2.len() implies !(
    #[trigger] s2[k]).date.spec_le(d) by {
        assert(s2[k] == s[k + 1]);
    }
    lemma_first_gt_from_partition(s2, d, first_gt_idx(s, d) - 1);
    if iid + 1 < cnt {
        assert(s2[base + iid] == s[base + iid + 1]);
    }
}

impl Recordlist {
    pub open spec fn wf(self) -> bool {
        sorted_by_date(self.0@)
    }

    pub fn new() -> (r: Self)
        ensures
            r.0@ == Seq::<Record>::empty(),
            r.wf(),
    {
        Recordlist(Vec::new())
    }

    pub fn is_empty(&self) -> (r: bool)
        ensures
            r == (self.0@.len() == 0),
    {
        self.0.len() == 0
    }

    pub fn len(&self) -> (r: usize)
        ensures
            r == self.0@.len(),
    {
        self.0.len()
    }

    /// The interval from the first to the last record's date; the canonical
    /// empty interval for an empty list.
    pub fn spanned_interval(&self) -> (r: Interval)
        requires
            self.wf(),
        ensures
            self.0@.len() == 0 ==> r.start == crate::date::spec_max_date() && r.end
                == crate::date::spec_min_date(),
            self.0@.len() > 0 ==> r.start == self.0@[0].date && r.end == self.0@.last().date,
    {
        if self.0.len() == 0 {
            return Interval::empty();
        }
        let start = self.0[0].date;
        let end = self.0[self.0.len() - 1].date;
        Interval { start, end }
    }

    /// The position where the run of records dated `d` begins, by binary
    /// search over the sorted list.
    fn lower_bound(&self, d: Date) -> (p: usize)
        requires
            self.wf(),
        ensures
            p == first_ge_idx(self.0@, d),
    {
        let ghost s = self.0@;
        let mut lo: usize = 0;
        let mut hi: usize = self.0.len();
        while lo < hi
            invariant
                s == self.0@,
                sorted_by_date(s),
                0 <= lo <= hi <= s.len(),
                forall|k: int| 0 <= k < lo ==> (#[trigger] s[k]).date.spec_lt(d),
                forall|k: int| hi <= k < s.len() ==> !(#[trigger] s[k]).date.spec_lt(d),
            decreases hi - lo,
        {
            let mid = lo + (hi - lo) / 2;
            if self.0[mid].date.lt(d) {
                proof {
                    assert forall|k: int| 0 <= k < mid + 1 implies (
                    #[trigger] s[k]).date.spec_lt(d) by {
                        assert(s[k].date.spec_le(s[mid as int].date));
                    }
                }
                lo = mid + 1;
            } else {
                proof {
                    assert forall|k: int| mid <= k < s.len() implies !(
                    #[trigger] s[k]).date.spec_lt(d) by {
                        assert(s[mid as int].date.spec_le(s[k].date));
                    }
                }
                hi = mid;
            }
        }
        proof {
            lemma_first_ge_from_partition(s, d, lo as int);
        }
        lo
    }

    /// The position just past the run of records dated `d`, by binary
    /// search over the sorted list.
    fn upper_bound(&self, d: Date) -> (p: usize)
        requires
            self.wf(),
        ensures
            p == first_gt_idx(self.0@, d),
    {
        let ghost s = self.0@;
        let mut lo: usize = 0;
        let mut hi: usize = self.0.len();
        while lo < hi
            invariant
                s == self.0@,
                sorted_by_date(s),
                0 <= lo <= hi <= s.len(),
                forall|k: int| 0 <= k < lo ==> (#[trigger] s[k]).date.spec_le(d),
                forall|k: int| hi <= k < s.len() ==> !(#[trigger] s[k]).date.spec_le(d),
            decreases hi - lo,
        {
            let mid = lo + (hi - lo) / 2;
            if self.0[mid].date.le(d) {
                proof {
                    assert forall|k: int| 0 <= k < mid + 1 implies (
                    #[trigger] s[k]).date.spec_le(d) by {
                        assert(s[k].date.spec_le(s[mid as int].date));
                    }
                }
                lo = mid + 1;
            } else {
                proof {
                    assert forall|k: int| mid <= k < s.len() implies !(
                    #[trigger] s[k]).date.spec_le(d) by {
                        assert(s[mid as int].date.spec_le(s[k].date));
                    }
                }
                hi = mid;
            }
        }
        proof {
            lemma_first_gt_from_partition(s, d, lo as int);
        }
        lo
    }

    /// Clones the run of records whose dates lie in `interval`. An empty
    /// interval yields an empty slice without scanning.
    pub fn slice_spanning_interval(&self, interval: Interval) -> (r: Vec<Record>)
        requires
            self.wf(),
        ensures
            interval.spec_is_empty() ==> r@ == Seq::<Record>::empty(),
            !interval.spec_is_empty() ==> r@ == self.0@.subrange(
                first_ge_idx(self.0@, interval.start),
                first_gt_idx(self.0@, interval.end),
            ),
            sorted_by_date(r@),
    {
        let mut r: Vec<Record> = Vec::new();
        if interval.is_empty() {
            return r;
        }
        let ghost s = self.0@;
        let i = self.lower_bound(interval.start);
        let j = self.upper_bound(interval.end);
        proof {
            lemma_first_ge_char(s, interval.start);
            lemma_first_gt_char(s, interval.end);
            if j < i {
                assert(s[j as int].date.spec_lt(interval.start));
                assert(!s[j as int].date.spec_le(interval.end));
                assert(false);
            }
        }
        let mut k: usize = i;
        while k < j
            invariant
                s == self.0@,
                sorted_by_date(s),
                i <= k <= j <= s.len(),
                r@ == s.subrange(i as int, k as int),
            decreases j - k,
        {
            r.push(self.0[k].clone());
            k = k + 1;
            proof {
                assert(r@ =~= s.subrange(i as int, k as int));
            }
        }
        proof {
            assert forall|x: int, y: int|
                #![trigger r@[x], r@[y]]
                0 <= x <= y < r@.len() implies r@[x].date.spec_le(r@[y].date) by {
                assert(r@[x] == s[i + x] && r@[y] == s[i + y]);
            }
        }
        r
    }

    /// Places the record after all records of its date, keeping the list
    /// sorted.
    pub fn insert(&mut self, r: Record)
        requires
            old(self).wf(),
        ensures
            final(self).0@ == spec_insert(old(self).0@, r),
            final(self).wf(),
    {
        let p = self.upper_bound(r.date);
        proof {
            lemma_first_gt_char(self.0@, r.date);
            lemma_insert_sorted(self.0@, r);
        }
        self.0.insert(p, r);
        proof {
            assert(self.0@ =~= spec_insert(old(self).0@, r));
        }
    }

    /// The record at the given date and index-in-date, or `None` if the
    /// input is out of bounds.
    pub fn get(&self, dt: Date, iid: usize) -> (r: Option<&Record>)
        requires
            self.wf(),
        ensures
            match r {
                Some(rec) => spec_get(self.0@, dt, iid as int) == Some(*rec),
                None => spec_get(self.0@, dt, iid as int) is None,
            },
    {
        let i = self.lower_bound(dt);
        let j = self.upper_bound(dt);
        proof {
            lemma_first_ge_char(self.0@, dt);
            lemma_first_gt_char(self.0@, dt);
            if j < i {
                assert(self.0@[j as int].date.spec_lt(dt));
                assert(!self.0@[j as int].date.spec_le(dt));
                assert(false);
            }
        }
        if iid < j - i {
            Some(&self.0[i + iid])
        } else {
            None
        }
    }

    /// Removes and returns the record at the given date and index-in-date.
    /// If the input is out of bounds, returns `None` and leaves the list
    /// unmodified.
    pub fn remove(&mut self, dt: Date, iid: usize) -> (r: Option<Record>)
        requires
            old(self).wf(),
        ensures
            match r {
                Some(rec) => {
                    &&& spec_get(old(self).0@, dt, iid as int) == Some(rec)
                    &&& final(self).0@ == old(self).0@.remove(
                        first_ge_idx(old(self).0@, dt) + iid,
                    )
                    &&& final(self).wf()
                },
                None => {
                    &&& spec_get(old(self).0@, dt, iid as int) is None
                    &&& *final(self) == *old(self)
                },
            },
    {
        let i = self.lower_bound(dt);
        let j = self.upper_bound(dt);
        proof {
            lemma_first_ge_char(self.0@, dt);
            lemma_first_gt_char(self.0@, dt);
            if j < i {
                assert(self.0@[j as int].date.spec_lt(dt));
                assert(!self.0@[j as int].date.spec_le(dt));
                assert(false);
            }
        }
        if iid < j - i {
            proof {
                lemma_requery_after_remove(self.0@, dt, iid as int);
            }
            let rec = self.0.remove(i + iid);
            Some(rec)
        } else {
            None
        }
    }

    /// Builds a list from an unordered batch: the result is what inserting
    /// the records one by one, in the given order, produces.
    pub fn from_records(records: Vec<Record>) -> (r: Self)
        ensures
            r.0@ == spec_from_records(records@),
            r.wf(),
    {
        let mut r = Recordlist::new();
        let mut k: usize = 0;
        while k < records.len()
            invariant
                k <= records@.len(),
                r.0@ == spec_from_records(records@.take(k as int)),
                r.wf(),
            decreases records@.len() - k,
        {
            r.insert(records[k].clone());
            k = k + 1;
            proof {
                assert(records@.take(k as int).drop_last() =~= records@.take(k as int - 1));
                assert(records@.take(k as int).last() == records@[k - 1]);
            }
        }
        proof {
            assert(records@.take(records@.len() as int) =~= records@);
        }
        r
    }

    /// The stored records, in date order.
    pub fn iter(&self) -> (r: &Vec<Record>)
        ensures
            r@ == self.0@,
    {
        &self.0
    }

    /// Each record paired with its index-in-date: the ordinal restarts at 0
    /// whenever the date changes and increments otherwise.
    pub fn iter_with_iid(&self) -> (r: Vec<(usize, Record)>)
        requires
            self.wf(),
            dates_wf(self.0@),
        ensures
            r@.len() == self.0@.len(),
            forall|k: int|
                0 <= k < r@.len() ==> (#[trigger] r@[k]).1 == self.0@[k] && r@[k].0 == iid_of(
                    self.0@,
                    k,
                ),
    {
        let ghost s = self.0@;
        let mut r: Vec<(usize, Record)> = Vec::new();
        let mut iid: usize = 0;
        let mut k: usize = 0;
        while k < self.0.len()
            invariant
                s == self.0@,
                sorted_by_date(s),
                dates_wf(s),
                k <= s.len(),
                r@.len() == k,
                forall|x: int|
                    0 <= x < k ==> (#[trigger] r@[x]).1 == s[x] && r@[x].0 == iid_of(s, x),
                k > 0 ==> iid == records_on(s.take(k as int), s[k - 1].date).len(),
                k == 0 ==> iid == 0,
                iid <= k,
            decreases s.len() - k,
        {
            if k > 0 && !(self.0[k].date == self.0[k - 1].date) {
                proof {
                    assert forall|x: int| 0 <= x < k implies (#[trigger] s.take(
                        k as int,
                    )[x]).date != s[k as int].date by {
                        assert(s.take(k as int)[x] == s[x]);
                        assert(s[x].date.spec_le(s[k - 1].date));
                        assert(s[k - 1].date.spec_le(s[k as int].date));
                        if s[k - 1].date.key() == s[k as int].date.key() {
                            crate::date::lemma_key_injective(s[k - 1].date, s[k as int].date);
                        }
                        if s[x].date == s[k as int].date {
                            assert(s[x].date.key() == s[k as int].date.key());
                        }
                    }
                    lemma_records_on_none(s.take(k as int), s[k as int].date);
                }
                iid = 0;
            } else {
                proof {
                    if k > 0 {
                        let d = s[k as int].date;
                        assert(s.take(k as int).drop_last() =~= s.take(k as int - 1));
                        reveal(Seq::filter);
                        assert(records_on(s.take(k as int), d).len() == records_on(
                            s.take(k as int - 1),
                            d,
                        ).len() + 1);
                    } else {
                        reveal(Seq::filter);
                        assert(s.take(0) =~= Seq::<Record>::empty());
                    }
                }
            }
            proof {
                reveal(Seq::filter);
                if k == 0 {
                    assert(s.take(0) =~= Seq::<Record>::empty());
                    assert(records_on(s.take(0), s[0].date).len() == 0);
                }
            }
            r.push((iid, self.0[k].clone()));
            iid = iid + 1;
            k = k + 1;
            proof {
                if k < s.len() {
                }
                assert(s.take(k as int).drop_last() =~= s.take(k as int - 1));
                reveal(Seq::filter);
            }
        }
        r
    }
}

impl Clone for Recordlist {
    fn clone(&self) -> (r: Self)
        ensures
            r.0@ == self.0@,
    {
        let mut v: Vec<Record> = Vec::new();
        let mut k: usize = 0;
        while k < self.0.len()
            invariant
                k <= self.0@.len(),
                v@ == self.0@.take(k as int),
            decreases self.0@.len() - k,
        {
            v.push(self.0[k].clone());
            k = k + 1;
            proof {
                assert(v@ =~= self.0@.take(k as int));
            }
        }
        proof {
            assert(self.0@.take(self.0@.len() as int) =~= self.0@);
        }
        Recordlist(v)
    }
}

impl PartialEq for Recordlist {
    fn eq(&self, other: &Self) -> (r: bool) {
        if self.0.len() != other.0.len() {
            return false;
        }
        let mut k: usize = 0;
        while k < self.0.len()
            invariant
                self.0@.len() == other.0@.len(),
                k <= self.0@.len(),
                forall|x: int|
                    0 <= x < k ==> crate::record::rec_eq(#[trigger] self.0@[x], other.0@[x]),
            decreases self.0@.len() - k,
        {
            if !(self.0[k] == other.0[k]) {
                return false;
            }
            k = k + 1;
        }
        true
    }
}

impl Eq for Recordlist {

}

impl vstd::std_specs::cmp::PartialEqSpecImpl for Recordlist {
    open spec fn obeys_eq_spec() -> bool {
        true
    }

    open spec fn eq_spec(&self, other: &Recordlist) -> bool {
        self.0@.len() == other.0@.len() && forall|x: int|
            0 <= x < self.0@.len() ==> crate::record::rec_eq(#[trigger] self.0@[x], other.0@[x])
    }
}

} // verus!
