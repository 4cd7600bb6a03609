use vstd::prelude::*;

use crate::cents::Cents;
use crate::date::Date;

verus! {

/// What an aggregate key must offer: an equality test and a duplication
/// that both respect the key's view.
pub trait AggKey: View + Sized {
    fn key_eq(&self, other: &Self) -> (r: bool)
        ensures
            r == (self@ == other@),
    ;

    fn dup(&self) -> (r: Self)
        ensures
            r@ == self@,
    ;
}

impl AggKey for String {
    fn key_eq(&self, other: &Self) -> (r: bool) {
        *self == *other
    }

    fn dup(&self) -> (r: Self) {
        self.clone()
    }
}

impl View for Date {
    type V = Date;

    open spec fn view(&self) -> Date {
        *self
    }
}

impl AggKey for Date {
    fn key_eq(&self, other: &Self) -> (r: bool) {
        *self == *other
    }

    fn dup(&self) -> (r: Self) {
        *self
    }
}

/// A key-to-sum accumulator with a running grand total: `add` folds a
/// contribution into its key's entry, and `sum` carries the total of
/// everything added, whatever the keys.
#[derive(Debug)]
pub struct Aggregate<K: AggKey>(pub Vec<(K, Cents)>, pub Cents);

/// The map an entry list denotes.
pub open spec fn entries_map<K: AggKey>(s: Seq<(K, Cents)>) -> Map<<K as View>::V, int>
    decreases s.len(),
{
    if s.len() == 0 {
        Map::empty()
    } else {
        entries_map(s.drop_last()).insert(s.last().0@, s.last().1.0 as int)
    }
}

/// Index of the first entry carrying key view `v`; the length if none does.
pub open spec fn key_idx<K: AggKey>(s: Seq<(K, Cents)>, v: <K as View>::V) -> int
    decreases s.len(),
{
    if s.len() == 0 {
        0
    } else if s[0].0@ == v {
        0
    } else {
        1 + key_idx(s.skip(1), v)
    }
}

proof fn lemma_key_idx_at<K: AggKey>(s: Seq<(K, Cents)>, v: <K as View>::V, i: int)
    requires
        0 <= i < s.len(),
        s[i].0@ == v,
        forall|x: int| 0 <= x < i ==> (#[trigger] s[x]).0@ != v,
    ensures
        key_idx(s, v) == i,
    decreases s.len(),
{
    if i > 0 {
        let t = s.skip(1);
        assert forall|x: int| 0 <= x < i - 1 implies (#[trigger] t[x]).0@ != v by {
            assert(t[x] == s[x + 1]);
        }
        assert(t[i - 1] == s[i]);
        lemma_key_idx_at(t, v, i - 1);
    }
}

/// The entries as viewed pairs.
pub open spec fn entries_view<K: AggKey>(s: Seq<(K, Cents)>) -> Seq<(<K as View>::V, int)> {
    Seq::new(s.len(), |i: int| (s[i].0@, s[i].1.0 as int))
}

/// No two entries share a key.
pub open spec fn entries_unique<K: AggKey>(s: Seq<(K, Cents)>) -> bool {
    forall|i: int, j: int|
        #![trigger s[i], s[j]]
        0 <= i < j < s.len() ==> s[i].0@ != s[j].0@
}

/// Each entry is visible in the denoted map, and nothing else is.
pub proof fn lemma_entries_map_props<K: AggKey>(s: Seq<(K, Cents)>)
    requires
        entries_unique(s),
    ensures
        forall|i: int|
            0 <= i < s.len() ==> entries_map(s).contains_key((#[trigger] s[i]).0@) && entries_map(
                s,
            )[s[i].0@] == s[i].1.0 as int,
        forall|v: <K as View>::V|
            entries_map(s).contains_key(v) ==> exists|i: int|
                0 <= i < s.len() && (#[trigger] s[i]).0@ == v,
    decreases s.len(),
{
    if s.len() > 0 {
        let prev = s.drop_last();
        assert(entries_unique(prev)) by {
            assert forall|i: int, j: int|
                #![trigger prev[i], prev[j]]
                0 <= i < j < prev.len() implies prev[i].0@ != prev[j].0@ by {
                assert(prev[i] == s[i] && prev[j] == s[j]);
            }
        }
        lemma_entries_map_props(prev);
        assert forall|i: int| 0 <= i < s.len() implies entries_map(s).contains_key(
            (#[trigger] s[i]).0@,
        ) && entries_map(s)[s[i].0@] == s[i].1.0 as int by {
            if i < s.len() - 1 {
                assert(prev[i] == s[i]);
                assert(s[i].0@ != s.last().0@);
            }
        }
        assert forall|v: <K as View>::V| entries_map(s).contains_key(v) implies exists|i: int|
            0 <= i < s.len() && (#[trigger] s[i]).0@ == v by {
            if v == s.last().0@ {
                assert(s[s.len() - 1].0@ == v);
            } else {
                assert(entries_map(prev).contains_key(v));
                let i = choose|i: int| 0 <= i < prev.len() && (#[trigger] prev[i]).0@ == v;
                assert(s[i].0@ == v);
            }
        }
    }
}

impl<K: AggKey> Aggregate<K> {
    /// Keys are unique.
    pub open spec fn wf(self) -> bool {
        entries_unique(self.0@)
    }

    /// The key-to-sum map.
    pub open spec fn spec_map(self) -> Map<<K as View>::V, int> {
        entries_map(self.0@)
    }

    /// The running total of everything added.
    pub open spec fn spec_sum(self) -> int {
        self.1.0 as int
    }

    pub fn new() -> (r: Self)
        ensures
            r.0@.len() == 0,
            r.spec_map() == Map::<<K as View>::V, int>::empty(),
            r.spec_sum() == 0,
            r.wf(),
    {
        Aggregate(Vec::new(), Cents(0))
    }

    /// The running total.
    pub fn sum(&self) -> (r: Cents)
        ensures
            r.0 == self.spec_sum(),
    {
        self.1
    }

    pub fn is_empty(&self) -> (r: bool)
        ensures
            r == (self.0@.len() == 0),
    {
        self.0.len() == 0
    }

    /// The number of distinct keys.
    pub fn len(&self) -> (r: usize)
        ensures
            r == self.0@.len(),
    {
        self.0.len()
    }

    /// Folds `value` into `key`'s entry, default-then-add, and into the
    /// running total.
    pub fn add(&mut self, key: K, value: Cents)
        requires
            old(self).wf(),
            i64::MIN <= old(self).spec_sum() + value.0 <= i64::MAX,
            old(self).spec_map().contains_key(key@) ==> i64::MIN <= old(self).spec_map()[key@]
                + value.0 <= i64::MAX,
        ensures
            final(self).wf(),
            final(self).spec_map() == old(self).spec_map().insert(
                key@,
                (if old(self).spec_map().contains_key(key@) {
                    old(self).spec_map()[key@]
                } else {
                    0int
                }) + value.0,
            ),
            final(self).spec_sum() == old(self).spec_sum() + value.0,
            final(self).0@.len() == old(self).0@.len() + (if old(self).spec_map().contains_key(
                key@,
            ) {
                0int
            } else {
                1int
            }),
            old(self).spec_map().contains_key(key@) ==> final(self).0@ == old(self).0@.update(
                key_idx(old(self).0@, key@),
                (
                    old(self).0@[key_idx(old(self).0@, key@)].0,
                    Cents((old(self).spec_map()[key@] + value.0) as i64),
                ),
            ),
            !old(self).spec_map().contains_key(key@) ==> final(self).0@ == old(self).0@.push(
                (key, value),
            ),
    {
        proof {
            lemma_entries_map_props(self.0@);
        }
        let ghost s0 = self.0@;
        let n = self.0.len();
        let mut i: usize = 0;
        #[verifier::loop_isolation(false)]
        while i < n
            invariant
                s0 == self.0@,
                self.1 == old(self).1,
                n == s0.len(),
                i <= n,
                entries_unique(s0),
                forall|x: int| 0 <= x < i ==> (#[trigger] s0[x]).0@ != key@,
            decreases n - i,
        {
            if self.0[i].0.key_eq(&key) {
                proof {
                    lemma_entries_map_props(s0);
                    assert(entries_map(s0)[key@] == s0[i as int].1.0 as int);
                    lemma_key_idx_at(s0, key@, i as int);
                }
                let (k0, v0) = self.0.remove(i);
                self.0.insert(i, (k0, Cents(v0.0 + value.0)));
                self.1 = Cents(self.1.0 + value.0);
                proof {
                    let upd = s0.update(i as int, (s0[i as int].0, Cents((s0[i as int].1.0 + value.0) as i64)));
                    assert(self.0@ =~= upd);
                    assert(entries_unique(upd)) by {
                        assert forall|x: int, y: int|
                            #![trigger upd[x], upd[y]]
                            0 <= x < y < upd.len() implies upd[x].0@ != upd[y].0@ by {
                            assert(upd[x].0@ == s0[x].0@ && upd[y].0@ == s0[y].0@);
                        }
                    }
                    lemma_entries_map_update(s0, i as int, Cents((s0[i as int].1.0 + value.0) as i64));
                    lemma_entries_map_props(upd);
                    assert(entries_map(upd) =~= entries_map(s0).insert(
                        key@,
                        entries_map(s0)[key@] + value.0,
                    ));
                }
                return ;
            }
            i = i + 1;
        }
        proof {
            lemma_entries_map_props(s0);
            if entries_map(s0).contains_key(key@) {
                let x = choose|x: int| 0 <= x < s0.len() && (#[trigger] s0[x]).0@ == key@;
                assert(false);
            }
        }
        self.0.push((key, value));
        self.1 = Cents(self.1.0 + value.0);
        proof {
            assert(self.0@.drop_last() =~= s0);
            assert(entries_unique(self.0@)) by {
                let s = self.0@;
                assert forall|x: int, y: int|
                    #![trigger s[x], s[y]]
                    0 <= x < y < s.len() implies s[x].0@ != s[y].0@ by {
                    if y < s.len() - 1 {
                        assert(s[x] == s0[x] && s[y] == s0[y]);
                    } else {
                        assert(s[x] == s0[x]);
                    }
                }
            }
        }
    }

    /// The accumulated value for `key`, if any contribution carried it.
    pub fn get(&self, key: &K) -> (r: Option<Cents>)
        requires
            self.wf(),
        ensures
            match r {
                Some(v) => self.spec_map().contains_key(key@) && v.0 == self.spec_map()[key@],
                None => !self.spec_map().contains_key(key@),
            },
    {
        proof {
            lemma_entries_map_props(self.0@);
        }
        let n = self.0.len();
        let mut i: usize = 0;
        while i < n
            invariant
                n == self.0@.len(),
                entries_unique(self.0@),
                i <= n,
                forall|x: int| 0 <= x < i ==> (#[trigger] self.0@[x]).0@ != key@,
            decreases n - i,
        {
            if self.0[i].0.key_eq(key) {
                proof {
                    lemma_entries_map_props(self.0@);
                }
                return Some(self.0[i].1);
            }
            i = i + 1;
        }
        proof {
            lemma_entries_map_props(self.0@);
            if self.spec_map().contains_key(key@) {
                let x = choose|x: int|
                    0 <= x < self.0@.len() && (#[trigger] self.0@[x]).0@ == key@;
                assert(false);
            }
        }
        None
    }

    /// The entries, in insertion order of their first contribution.
    pub fn iter(&self) -> (r: Vec<(K, Cents)>)
        ensures
            r@.len() == self.0@.len(),
            forall|k: int|
                0 <= k < r@.len() ==> (#[trigger] r@[k]).0@ == self.0@[k].0@ && r@[k].1
                    == self.0@[k].1,
    {
        let mut r: Vec<(K, Cents)> = Vec::new();
        let n = self.0.len();
        let mut i: usize = 0;
        while i < n
            invariant
                n == self.0@.len(),
                i <= n,
                r@.len() == i,
                forall|k: int|
                    0 <= k < i ==> (#[trigger] r@[k]).0@ == self.0@[k].0@ && r@[k].1
                        == self.0@[k].1,
            decreases n - i,
        {
            let e = (self.0[i].0.dup(), self.0[i].1);
            r.push(e);
            i = i + 1;
        }
        r
    }

    /// Whether two aggregates carry the same entries and the same running
    /// total, whatever the order the keys were first seen in.
    pub fn same_entries(&self, other: &Self) -> (r: bool)
        requires
            self.wf(),
            other.wf(),
        ensures
            r == (self.spec_map() == other.spec_map() && self.spec_sum() == other.spec_sum()),
    {
        proof {
            lemma_entries_map_props(self.0@);
            lemma_entries_map_props(other.0@);
        }
        if self.1.0 != other.1.0 {
            return false;
        }
        let n = self.0.len();
        let mut i: usize = 0;
        while i < n
            invariant
                self.wf(),
                other.wf(),
                n == self.0@.len(),
                i <= n,
                forall|x: int|
                    0 <= x < i ==> other.spec_map().contains_key((#[trigger] self.0@[x]).0@)
                        && other.spec_map()[self.0@[x].0@] == self.0@[x].1.0 as int,
            decreases n - i,
        {
            match other.get(&self.0[i].0) {
                Some(v) => {
                    if v.0 != self.0[i].1.0 {
                        proof {
                            lemma_entries_map_props(self.0@);
                            assert(self.spec_map()[self.0@[i as int].0@] != other.spec_map()[
                                self.0@[i as int].0@]);
                        }
                        return false;
                    }
                },
                None => {
                    proof {
                        lemma_entries_map_props(self.0@);
                        assert(self.spec_map().contains_key(self.0@[i as int].0@));
                    }
                    return false;
                },
            }
            i = i + 1;
        }
        let m = other.0.len();
        let mut j: usize = 0;
        while j < m
            invariant
                self.wf(),
                other.wf(),
                m == other.0@.len(),
                j <= m,
                forall|x: int|
                    0 <= x < self.0@.len() ==> other.spec_map().contains_key(
                        (#[trigger] self.0@[x]).0@,
                    ) && other.spec_map()[self.0@[x].0@] == self.0@[x].1.0 as int,
                forall|x: int|
                    0 <= x < j ==> self.spec_map().contains_key((#[trigger] other.0@[x]).0@),
            decreases m - j,
        {
            match self.get(&other.0[j].0) {
                Some(_) => {},
                None => {
                    proof {
                        lemma_entries_map_props(other.0@);
                        assert(other.spec_map().contains_key(other.0@[j as int].0@));
                    }
                    return false;
                },
            }
            j = j + 1;
        }
        proof {
            lemma_entries_map_props(self.0@);
            lemma_entries_map_props(other.0@);
            assert forall|v: <K as View>::V| #[trigger]
                self.spec_map().contains_key(v) implies other.spec_map().contains_key(v)
                && other.spec_map()[v] == self.spec_map()[v] by {
                let x = choose|x: int|
                    0 <= x < self.0@.len() && (#[trigger] self.0@[x]).0@ == v;
            }
            assert forall|v: <K as View>::V| #[trigger]
                other.spec_map().contains_key(v) implies self.spec_map().contains_key(v) by {
                let x = choose|x: int|
                    0 <= x < other.0@.len() && (#[trigger] other.0@[x]).0@ == v;
            }
            assert(self.spec_map() =~= other.spec_map());
        }
        true
    }
}

/// Updating one entry's value updates just its key in the denoted map.
proof fn lemma_entries_map_update<K: AggKey>(s: Seq<(K, Cents)>, i: int, v: Cents)
    requires
        entries_unique(s),
        0 <= i < s.len(),
    ensures
        entries_map(s.update(i, (s[i].0, v))) == entries_map(s).insert(s[i].0@, v.0 as int),
    decreases s.len(),
{
    let upd = s.update(i, (s[i].0, v));
    if i == s.len() - 1 {
        assert(upd.drop_last() =~= s.drop_last());
        assert(upd.last() == (s[i].0, v));
        assert(entries_map(upd) =~= entries_map(s).insert(s[i].0@, v.0 as int));
    } else {
        let prev = s.drop_last();
        assert(entries_unique(prev)) by {
            assert forall|x: int, y: int|
                #![trigger prev[x], prev[y]]
                0 <= x < y < prev.len() implies prev[x].0@ != prev[y].0@ by {
                assert(prev[x] == s[x] && prev[y] == s[y]);
            }
        }
        lemma_entries_map_update(prev, i, v);
        assert(upd.drop_last() =~= prev.update(i, (s[i].0, v)));
        assert(upd.last() == s.last());
        assert(s[i].0@ != s.last().0@);
        assert(entries_map(upd) == entries_map(prev.update(i, (prev[i].0, v))).insert(
            s.last().0@,
            s.last().1.0 as int,
        ));
        assert(entries_map(upd) =~= entries_map(s).insert(s[i].0@, v.0 as int));
    }
}

} // verus!
