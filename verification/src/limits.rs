use vstd::prelude::*;

use crate::cents::Cents;

verus! {

/// An ordered map from year to that year's contribution limit; absent years
/// contribute nothing.
#[derive(Debug)]
pub struct Limits(pub Vec<(u16, Cents)>);

/// Entries strictly increase by year: sorted, no duplicates.
pub open spec fn years_sorted(s: Seq<(u16, Cents)>) -> bool {
    forall|i: int, j: int|
        #![trigger s[i], s[j]]
        0 <= i < j < s.len() ==> s[i].0 < s[j].0
}

/// The map the entry list denotes.
pub open spec fn limits_map(s: Seq<(u16, Cents)>) -> Map<u16, int>
    decreases s.len(),
{
    if s.len() == 0 {
        Map::empty()
    } else {
        limits_map(s.drop_last()).insert(s.last().0, s.last().1.0 as int)
    }
}

/// Total room accumulated by the limits of years up to and including `y`.
pub open spec fn spec_inception(s: Seq<(u16, Cents)>, y: int) -> int
    decreases s.len(),
{
    if s.len() == 0 {
        0
    } else {
        spec_inception(s.drop_last(), y) + if s.last().0 <= y {
            s.last().1.0 as int
        } else {
            0
        }
    }
}

/// Number of leading entries for years at or below `y`; on a sorted list,
/// the length of the prefix the year `y` spans.
pub open spec fn years_upto_idx(s: Seq<(u16, Cents)>, y: int) -> int
    decreases s.len(),
{
    if s.len() == 0 {
        0
    } else if s[0].0 <= y {
        1 + years_upto_idx(s.skip(1), y)
    } else {
        0
    }
}

/// Each entry is visible in the denoted map, and nothing else is.
pub proof fn lemma_limits_map_props(s: Seq<(u16, Cents)>)
    requires
        years_sorted(s),
    ensures
        forall|i: int|
            0 <= i < s.len() ==> limits_map(s).contains_key((#[trigger] s[i]).0) && limits_map(
                s,
            )[s[i].0] == s[i].1.0 as int,
        forall|y: u16|
            limits_map(s).contains_key(y) ==> exists|i: int|
                0 <= i < s.len() && (#[trigger] s[i]).0 == y,
    decreases s.len(),
{
    if s.len() > 0 {
        let prev = s.drop_last();
        assert(years_sorted(prev)) by {
            assert forall|i: int, j: int|
                #![trigger prev[i], prev[j]]
                0 <= i < j < prev.len() implies prev[i].0 < prev[j].0 by {
                assert(prev[i] == s[i] && prev[j] == s[j]);
            }
        }
        lemma_limits_map_props(prev);
        assert forall|i: int| 0 <= i < s.len() implies limits_map(s).contains_key(
            (#[trigger] s[i]).0,
        ) && limits_map(s)[s[i].0] == s[i].1.0 as int by {
            if i < s.len() - 1 {
                assert(prev[i] == s[i]);
                assert(s[i].0 < s.last().0);
            }
        }
        assert forall|y: u16| limits_map(s).contains_key(y) implies exists|i: int|
            0 <= i < s.len() && (#[trigger] s[i]).0 == y by {
            if y == s.last().0 {
                assert(s[s.len() - 1].0 == y);
            } else {
                assert(limits_map(prev).contains_key(y));
                let i = choose|i: int| 0 <= i < prev.len() && (#[trigger] prev[i]).0 == y;
                assert(prev[i] == s[i]);
                assert(s[i].0 == y);
            }
        }
    }
}

/// A strictly increasing run of 16-bit years cannot be longer than the year
/// space itself.
pub proof fn lemma_limits_len_bound(s: Seq<(u16, Cents)>)
    requires
        years_sorted(s),
    ensures
        s.len() <= 65536,
        forall|i: int| 0 <= i < s.len() ==> i <= (#[trigger] s[i]).0,
{
    assert forall|i: int| 0 <= i < s.len() implies i <= (#[trigger] s[i]).0 by {
        lemma_years_grow(s, i);
    }
    if s.len() > 65536 {
        lemma_years_grow(s, 65536);
    }
}

proof fn lemma_years_grow(s: Seq<(u16, Cents)>, i: int)
    requires
        years_sorted(s),
        0 <= i < s.len(),
    ensures
        i <= s[i].0,
    decreases i,
{
    if i > 0 {
        lemma_years_grow(s, i - 1);
        assert(s[i - 1].0 < s[i].0);
    }
}

impl Limits {
    pub open spec fn wf(self) -> bool {
        years_sorted(self.0@)
    }

    pub open spec fn spec_map(self) -> Map<u16, int> {
        limits_map(self.0@)
    }

    pub fn new() -> (r: Self)
        ensures
            r.0@.len() == 0,
            r.spec_map() == Map::<u16, int>::empty(),
            r.wf(),
    {
        Limits(Vec::new())
    }

    pub fn is_empty(&self) -> (r: bool)
        ensures
            r == (self.0@.len() == 0),
    {
        self.0.len() == 0
    }

    pub fn len(&self) -> (r: usize)
        ensures
            r == self.0@.len(),
    {
        self.0.len()
    }

    /// Sets the limit for `year`, inserting or overwriting.
    #[verifier::rlimit(50)]
    pub fn set(&mut self, year: u16, limit: Cents)
        requires
            old(self).wf(),
        ensures
            final(self).wf(),
            final(self).spec_map() == old(self).spec_map().insert(year, limit.0 as int),
            final(self).0@ == old(self).0@.take(years_upto_idx(old(self).0@, year - 1)) + seq![
                (year, limit),
            ] + old(self).0@.skip(
                years_upto_idx(old(self).0@, year - 1) + (if old(self).spec_map().contains_key(
                    year,
                ) {
                    1int
                } else {
                    0int
                }),
            ),
    {
        proof {
            lemma_limits_map_props(self.0@);
        }
        let ghost s0 = self.0@;
        let n = self.0.len();
        let mut i: usize = 0;
        #[verifier::loop_isolation(false)]
        while i < n && self.0[i].0 < year
            invariant
                s0 == self.0@,
                n == s0.len(),
                i <= n,
                forall|x: int| 0 <= x < i ==> (#[trigger] s0[x]).0 < year,
            decreases n - i,
        {
            i = i + 1;
        }
        proof {
            lemma_upto_partition(s0, year - 1, i as int);
        }
        if i < n && self.0[i].0 == year {
            let _ = self.0.remove(i);
            self.0.insert(i, (year, limit));
            proof {
                let upd = s0.update(i as int, (year, limit));
                assert(self.0@ =~= upd);
                assert(self.0@ =~= s0.take(i as int) + seq![(year, limit)] + s0.skip(
                    i as int + 1,
                ));
                assert(years_sorted(upd)) by {
                    assert forall|x: int, y2: int|
                        #![trigger upd[x], upd[y2]]
                        0 <= x < y2 < upd.len() implies upd[x].0 < upd[y2].0 by {
                        assert(upd[x].0 == s0[x].0 && upd[y2].0 == s0[y2].0);
                    }
                }
                lemma_limits_map_set(s0, i as int, year, limit);
            }
        } else {
            self.0.insert(i, (year, limit));
            proof {
                let upd = s0.take(i as int) + seq![(year, limit)] + s0.skip(i as int);
                assert(self.0@ =~= upd);
                assert(years_sorted(upd)) by {
                    assert forall|x: int, y2: int|
                        #![trigger upd[x], upd[y2]]
                        0 <= x < y2 < upd.len() implies upd[x].0 < upd[y2].0 by {
                        if x < i {
                            assert(upd[x] == s0[x]);
                        } else if x == i {
                        } else {
                            assert(upd[x] == s0[x - 1]);
                        }
                        if y2 < i {
                            assert(upd[y2] == s0[y2]);
                        } else if y2 == i {
                        } else {
                            assert(upd[y2] == s0[y2 - 1]);
                        }
                    }
                }
                lemma_limits_map_insert_new(s0, i as int, year, limit);
                if self.spec_map() != limits_map(s0).insert(year, limit.0 as int) {
                }
            }
        }
    }

    /// Drops the limit for `year`, returning it if one was set.
    pub fn remove(&mut self, year: u16) -> (r: Option<Cents>)
        requires
            old(self).wf(),
        ensures
            final(self).wf(),
            match r {
                Some(v) => {
                    &&& old(self).spec_map().contains_key(year)
                    &&& v.0 == old(self).spec_map()[year]
                    &&& final(self).spec_map() == old(self).spec_map().remove(year)
                    &&& final(self).0@ == old(self).0@.remove(
                        years_upto_idx(old(self).0@, year - 1),
                    )
                },
                None => {
                    &&& !old(self).spec_map().contains_key(year)
                    &&& *final(self) == *old(self)
                },
            },
    {
        proof {
            lemma_limits_map_props(self.0@);
        }
        let ghost s0 = self.0@;
        let n = self.0.len();
        let mut i: usize = 0;
        #[verifier::loop_isolation(false)]
        while i < n && self.0[i].0 < year
            invariant
                s0 == self.0@,
                n == s0.len(),
                i <= n,
                forall|x: int| 0 <= x < i ==> (#[trigger] s0[x]).0 < year,
            decreases n - i,
        {
            i = i + 1;
        }
        proof {
            lemma_upto_partition(s0, year - 1, i as int);
        }
        if i < n && self.0[i].0 == year {
            let (_, v) = self.0.remove(i);
            proof {
                assert(years_sorted(self.0@)) by {
                    let s2 = self.0@;
                    assert forall|x: int, y2: int|
                        #![trigger s2[x], s2[y2]]
                        0 <= x < y2 < s2.len() implies s2[x].0 < s2[y2].0 by {
                        let x0 = if x < i {
                            x
                        } else {
                            x + 1
                        };
                        let y0 = if y2 < i {
                            y2
                        } else {
                            y2 + 1
                        };
                        assert(s2[x] == s0[x0] && s2[y2] == s0[y0]);
                    }
                }
                lemma_limits_map_remove(s0, i as int);
            }
            Some(v)
        } else {
            proof {
                if limits_map(s0).contains_key(year) {
                    let x = choose|x: int| 0 <= x < s0.len() && (#[trigger] s0[x]).0 == year;
                    if x < i {
                    }
                    assert(false);
                }
            }
            None
        }
    }

    /// The entries for years up to and including `max_year`, ascending.
    pub fn range(&self, max_year: u16) -> (r: Vec<(u16, Cents)>)
        requires
            self.wf(),
        ensures
            r@ == self.0@.take(years_upto_idx(self.0@, max_year as int)),
            0 <= years_upto_idx(self.0@, max_year as int) <= self.0@.len(),
    {
        let ghost s = self.0@;
        let n = self.0.len();
        let mut r: Vec<(u16, Cents)> = Vec::new();
        let mut i: usize = 0;
        #[verifier::loop_isolation(false)]
        while i < n && self.0[i].0 <= max_year
            invariant
                i <= n,
                r@ == s.take(i as int),
                forall|x: int| 0 <= x < i ==> (#[trigger] s[x]).0 <= max_year,
            decreases n - i,
        {
            r.push((self.0[i].0, self.0[i].1));
            i = i + 1;
            proof {
                assert(r@ =~= s.take(i as int));
            }
        }
        proof {
            lemma_upto_partition_le(s, max_year as int, i as int);
        }
        r
    }

    /// The stored entries, ascending by year.
    pub fn iter(&self) -> (r: Vec<(u16, Cents)>)
        requires
            self.wf(),
        ensures
            r@ == self.0@,
    {
        let r = self.range(65535);
        proof {
            lemma_limits_len_bound(self.0@);
            lemma_upto_partition_le(self.0@, 65535, self.0@.len() as int);
            assert(self.0@.take(self.0@.len() as int) =~= self.0@);
        }
        r
    }

    /// Total accumulated yearly room up to and including `year`.
    pub fn inception_to_year(&self, year: u16) -> (r: Cents)
        requires
            self.wf(),
            i64::MIN <= spec_inception(self.0@, year as int) <= i64::MAX,
        ensures
            r.0 == spec_inception(self.0@, year as int),
    {
        let ghost s = self.0@;
        proof {
            lemma_limits_len_bound(s);
        }
        let n = self.0.len();
        let mut acc: i128 = 0;
        let mut i: usize = 0;
        #[verifier::loop_isolation(false)]
        while i < n
            invariant
                i <= n,
                acc == spec_inception(s.take(i as int), year as int),
                -0x8000_0000_0000_0000_0000i128 <= acc <= 0x8000_0000_0000_0000_0000i128,
            decreases n - i,
        {
            proof {
                assert(s.take(i as int + 1).drop_last() =~= s.take(i as int));
                assert(s.take(i as int + 1).last() == s[i as int]);
                assert(i + 1 <= 65536);
                lemma_inception_bound(s.take(i as int), year as int);
            }
            if self.0[i].0 <= year {
                acc = acc + self.0[i].1.0 as i128;
            }
            i = i + 1;
        }
        proof {
            assert(s.take(n as int) =~= s);
        }
        acc as i64;
        proof {
            assert(acc == spec_inception(s, year as int));
        }
        Cents(acc as i64)
    }
}

/// The inception sum of `k` entries is at most `k` full-range values.
pub proof fn lemma_inception_bound(s: Seq<(u16, Cents)>, y: int)
    ensures
        -(s.len() as int) * 0x8000_0000_0000_0000 <= spec_inception(s, y) <= (s.len() as int)
            * 0x8000_0000_0000_0000,
    decreases s.len(),
{
    if s.len() == 0 {
    } else {
        lemma_inception_bound(s.drop_last(), y);
        assert((s.len() - 1) * 0x8000_0000_0000_0000 + 0x8000_0000_0000_0000 == (s.len() as int)
            * 0x8000_0000_0000_0000) by (nonlinear_arith);
    }
}

proof fn lemma_upto_partition(s: Seq<(u16, Cents)>, y: int, p: int)
    requires
        years_sorted(s),
        0 <= p <= s.len(),
        forall|x: int| 0 <= x < p ==> (#[trigger] s[x]).0 <= y,
        forall|x: int| p <= x < s.len() ==> y < (#[trigger] s[x]).0,
    ensures
        years_upto_idx(s, y) == p,
    decreases s.len(),
{
    if s.len() > 0 {
        let t = s.skip(1);
        assert(years_sorted(t)) by {
            assert forall|i: int, j: int|
                #![trigger t[i], t[j]]
                0 <= i < j < t.len() implies t[i].0 < t[j].0 by {
                assert(t[i] == s[i + 1] && t[j] == s[j + 1]);
            }
        }
        if p == 0 {
            assert(y < s[0].0);
        } else {
            assert(s[0].0 <= y);
            assert forall|x: int| 0 <= x < p - 1 implies (#[trigger] t[x]).0 <= y by {
                assert(t[x] == s[x + 1]);
            }
            assert forall|x: int| p - 1 <= x < t.len() implies y < (#[trigger] t[x]).0 by {
                assert(t[x] == s[x + 1]);
            }
            lemma_upto_partition(t, y, p - 1);
        }
    }
}

proof fn lemma_upto_partition_le(s: Seq<(u16, Cents)>, y: int, p: int)
    requires
        years_sorted(s),
        0 <= p <= s.len(),
        forall|x: int| 0 <= x < p ==> (#[trigger] s[x]).0 <= y,
        p < s.len() ==> y < s[p].0,
    ensures
        years_upto_idx(s, y) == p,
{
    assert forall|x: int| p <= x < s.len() implies y < (#[trigger] s[x]).0 by {
        if x > p {
            assert(s[p].0 < s[x].0);
        }
    }
    lemma_upto_partition(s, y, p);
}

/// Overwriting the entry at `i` updates just its year in the denoted map.
proof fn lemma_limits_map_set(s: Seq<(u16, Cents)>, i: int, year: u16, limit: Cents)
    requires
        years_sorted(s),
        0 <= i < s.len(),
        s[i].0 == year,
    ensures
        limits_map(s.update(i, (year, limit))) == limits_map(s).insert(year, limit.0 as int),
    decreases s.len(),
{
    let upd = s.update(i, (year, limit));
    if i == s.len() - 1 {
        assert(upd.drop_last() =~= s.drop_last());
        assert(limits_map(upd) =~= limits_map(s).insert(year, limit.0 as int));
    } else {
        let prev = s.drop_last();
        assert(years_sorted(prev)) by {
            assert forall|x: int, j: int|
                #![trigger prev[x], prev[j]]
                0 <= x < j < prev.len() implies prev[x].0 < prev[j].0 by {
                assert(prev[x] == s[x] && prev[j] == s[j]);
            }
        }
        lemma_limits_map_set(prev, i, year, limit);
        assert(upd.drop_last() =~= prev.update(i, (year, limit)));
        assert(upd.last() == s.last());
        assert(s[i].0 != s.last().0);
        assert(limits_map(upd) =~= limits_map(s).insert(year, limit.0 as int));
    }
}

/// Inserting a fresh year at position `i` adds just that year to the map.
proof fn lemma_limits_map_insert_new(s: Seq<(u16, Cents)>, i: int, year: u16, limit: Cents)
    requires
        years_sorted(s),
        0 <= i <= s.len(),
        forall|x: int| 0 <= x < s.len() ==> (#[trigger] s[x]).0 != year,
    ensures
        limits_map(s.take(i) + seq![(year, limit)] + s.skip(i)) == limits_map(s).insert(
            year,
            limit.0 as int,
        ),
    decreases s.len() - i,
{
    let out = s.take(i) + seq![(year, limit)] + s.skip(i);
    if i == s.len() {
        assert(out.drop_last() =~= s);
        assert(out.last() == (year, limit));
    } else {
        let prev = s.drop_last();
        assert(years_sorted(prev)) by {
            assert forall|x: int, j: int|
                #![trigger prev[x], prev[j]]
                0 <= x < j < prev.len() implies prev[x].0 < prev[j].0 by {
                assert(prev[x] == s[x] && prev[j] == s[j]);
            }
        }
        lemma_limits_map_insert_new(prev, i, year, limit);
        assert(out.drop_last() =~= prev.take(i) + seq![(year, limit)] + prev.skip(i)) by {
            assert(prev.take(i) =~= s.take(i));
        }
        assert(out.last() == s.last());
        assert(s.last().0 != year);
        assert(limits_map(out) =~= limits_map(s).insert(year, limit.0 as int));
    }
}

/// Removing the entry at `i` removes just its year from the denoted map.
proof fn lemma_limits_map_remove(s: Seq<(u16, Cents)>, i: int)
    requires
        years_sorted(s),
        0 <= i < s.len(),
    ensures
        limits_map(s.remove(i)) == limits_map(s).remove(s[i].0),
    decreases s.len(),
{
    let out = s.remove(i);
    if i == s.len() - 1 {
        assert(out =~= s.drop_last());
        let prev = s.drop_last();
        assert(years_sorted(prev)) by {
            assert forall|x: int, j: int|
                #![trigger prev[x], prev[j]]
                0 <= x < j < prev.len() implies prev[x].0 < prev[j].0 by {
                assert(prev[x] == s[x] && prev[j] == s[j]);
            }
        }
        lemma_limits_map_props(s);
        lemma_limits_map_props(prev);
        if limits_map(prev).contains_key(s[i].0) {
            let x = choose|x: int| 0 <= x < prev.len() && (#[trigger] prev[x]).0 == s[i].0;
            assert(prev[x] == s[x]);
            assert(s[x].0 < s[i].0);
            assert(false);
        }
        assert(limits_map(out) =~= limits_map(s).remove(s[i].0));
    } else {
        let prev = s.drop_last();
        assert(years_sorted(prev)) by {
            assert forall|x: int, j: int|
                #![trigger prev[x], prev[j]]
                0 <= x < j < prev.len() implies prev[x].0 < prev[j].0 by {
                assert(prev[x] == s[x] && prev[j] == s[j]);
            }
        }
        lemma_limits_map_remove(prev, i);
        assert(out.drop_last() =~= prev.remove(i));
        assert(out.last() == s.last());
        assert(s[i].0 != s.last().0);
        assert(limits_map(out) =~= limits_map(s).remove(s[i].0));
    }
}

} // verus!
