use vstd::prelude::*;
use vstd::string::StrSliceExecFns;
use vstd::string::StringExecFns;

use crate::cents::cents_text;
use crate::charset::Charset;
use crate::date::Date;
use crate::layout::spec_aligned_len;
use crate::layout::spec_day_ordinal;
use crate::layout::spec_month_abbrev;
use crate::record::Record;
use crate::recordlist::dates_wf;
use crate::recordlist::iid_of;
use crate::recordlist::recs_wf;
use crate::recordlist::Recordlist;
use crate::text::digits_seq;
use crate::text::padded_num;
use crate::tree::lemma_nodes_view_index;
use crate::tree::nodes_view;
use crate::tree::Node;
use crate::tree::NodeV;
use crate::tree::Tree;
use crate::util::repeat_seq;
use crate::util::spec_digit_count;

verus! {

/// A per-leaf post-processing hook: it may rewrite a leaf's text from the
/// record, the record's index-in-date, and the text built so far, without
/// touching the alignment accounting.
pub trait LeafDecorator {
    /// What the hook turns a leaf's text into; hooks supplied from outside
    /// the library leave this at its default and are accountable for
    /// matching it.
    open spec fn spec_decorate(&self, r: Record, iid0: int, base: Seq<char>) -> Seq<char> {
        base
    }

    fn decorate(&self, r: &Record, iid0: usize, base: String) -> (out: String)
        ensures
            out@ == self.spec_decorate(*r, iid0 as int, base@),
    ;
}

/// The hook that leaves every leaf as it is.
pub struct PlainDecorator;

impl LeafDecorator for PlainDecorator {
    fn decorate(&self, r: &Record, iid0: usize, base: String) -> (out: String) {
        base
    }
}

/// The hook that appends a marker to the leaf at one (date, index-in-date)
/// slot and leaves every other leaf alone.
pub struct MarkDecorator {
    pub date: Date,
    pub iid0: usize,
    pub marker: String,
}

impl LeafDecorator for MarkDecorator {
    open spec fn spec_decorate(&self, r: Record, iid0: int, base: Seq<char>) -> Seq<char> {
        if r.date == self.date && iid0 == self.iid0 {
            base + self.marker@
        } else {
            base
        }
    }

    fn decorate(&self, r: &Record, iid0: usize, base: String) -> (out: String) {
        let mut base = base;
        if r.date == self.date && iid0 == self.iid0 {
            base.append(self.marker.as_str());
        }
        base
    }
}

/// Inputs of the transaction view: the records, already filtered by the
/// caller, the display origin for index-in-date ordinals, and an optional
/// per-leaf marker.
pub struct Config {
    pub charset: Charset,
    pub first_iid: usize,
    pub rl: Recordlist,
    pub marker: Option<MarkDecorator>,
}

/// A leaf's text before decoration: the displayed ordinal, the dash fill,
/// the aligned amount, the category, and the note if there is one.
pub open spec fn leaf_base(r: Record, iid: int, align: int, dash: Seq<char>) -> Seq<char> {
    let dashes = align - spec_digit_count(iid as nat) - crate::util::BOUNDING_SPACES_COUNT
        - spec_aligned_len(r.amount.0 as int);
    digits_seq(iid as nat) + seq![' '] + repeat_seq(dash, dashes as nat) + seq![' ']
        + cents_text(r.amount.0 as int) + (if r.amount.0 >= 0 {
        seq![' ']
    } else {
        Seq::empty()
    }) + seq![' '] + r.category.0@ + (if r.note@.len() > 0 {
        seq![':'] + seq![' '] + r.note@
    } else {
        Seq::empty()
    })
}

/// The columns a leaf needs before any dashes are added.
pub open spec fn view_row_width(s: Seq<Record>, k: int, first_iid: int) -> int {
    spec_digit_count((first_iid + iid_of(s, k)) as nat) + crate::util::BOUNDING_SPACES_COUNT
        + crate::util::MIN_DASHES_COUNT + spec_aligned_len(s[k].amount.0 as int)
}

/// The alignment width: the widest leaf among the first `k` records.
pub open spec fn view_align_upto(s: Seq<Record>, k: int, first_iid: int) -> int
    decreases k,
{
    if k <= 0 {
        0
    } else {
        let w = view_row_width(s, k - 1, first_iid);
        let rest = view_align_upto(s, k - 1, first_iid);
        if w >= rest {
            w
        } else {
            rest
        }
    }
}

pub open spec fn view_align(s: Seq<Record>, first_iid: int) -> int {
    view_align_upto(s, s.len() as int, first_iid)
}

/// The leaf for record `k`.
pub open spec fn view_leaf<D: LeafDecorator>(
    s: Seq<Record>,
    k: int,
    deco: &D,
    first_iid: int,
    align: int,
    dash: Seq<char>,
) -> NodeV {
    NodeV {
        data: deco.spec_decorate(
            s[k],
            iid_of(s, k),
            leaf_base(s[k], first_iid + iid_of(s, k), align, dash),
        ),
        children: Seq::empty(),
    }
}

/// The year → month name → ordinal day → leaf grouping, grown one record at
/// a time: a record dated like its predecessor extends the deepest open
/// run, anything else opens a new node at the level where the date changed.
pub open spec fn view_years<D: LeafDecorator>(
    s: Seq<Record>,
    deco: &D,
    first_iid: int,
    align: int,
    dash: Seq<char>,
) -> Seq<NodeV>
    decreases s.len(),
{
    if s.len() == 0 {
        Seq::empty()
    } else {
        let prev = view_years(s.drop_last(), deco, first_iid, align, dash);
        let k = s.len() - 1;
        let r = s[k];
        let leaf = view_leaf(s, k, deco, first_iid, align, dash);
        let day_node = NodeV { data: spec_day_ordinal(r.date.spec_day()), children: seq![leaf] };
        let month_node = NodeV {
            data: spec_month_abbrev(r.date.spec_month()),
            children: seq![day_node],
        };
        let year_node = NodeV {
            data: padded_num(r.date.spec_year() as nat, 4),
            children: seq![month_node],
        };
        if k >= 1 && s[k - 1].date.year == r.date.year {
            let y = prev.last();
            let months = if s[k - 1].date.month == r.date.month {
                let m = y.children.last();
                let days = if s[k - 1].date.day == r.date.day {
                    let d = m.children.last();
                    m.children.update(
                        m.children.len() - 1,
                        NodeV { data: d.data, children: d.children.push(leaf) },
                    )
                } else {
                    m.children.push(day_node)
                };
                y.children.update(
                    y.children.len() - 1,
                    NodeV { data: m.data, children: days },
                )
            } else {
                y.children.push(month_node)
            };
            prev.update(prev.len() - 1, NodeV { data: y.data, children: months })
        } else {
            prev.push(year_node)
        }
    }
}

/// The alignment width never falls short of any leaf's own columns.
proof fn lemma_view_align_fits(s: Seq<Record>, k: int, j: int, first_iid: int)
    requires
        0 <= j < k <= s.len(),
    ensures
        view_row_width(s, j, first_iid) <= view_align_upto(s, k, first_iid),
    decreases k,
{
    if j < k - 1 {
        lemma_view_align_fits(s, k - 1, j, first_iid);
    }
}


/// Every year node the grouping builds carries at least one month, every
/// month at least one day, and the last records' nodes sit at the ends.
pub open spec fn years_shape(ys: Seq<NodeV>) -> bool {
    &&& forall|i: int| 0 <= i < ys.len() ==> (#[trigger] ys[i]).children.len() >= 1
    &&& forall|i: int, j: int|
        #![trigger ys[i].children[j]]
        0 <= i < ys.len() && 0 <= j < ys[i].children.len() ==> ys[i].children[j].children.len()
            >= 1
}

proof fn lemma_view_shape<D: LeafDecorator>(
    s: Seq<Record>,
    deco: &D,
    first_iid: int,
    align: int,
    dash: Seq<char>,
)
    ensures
        years_shape(view_years(s, deco, first_iid, align, dash)),
        s.len() > 0 ==> view_years(s, deco, first_iid, align, dash).len() >= 1,
    decreases s.len(),
{
    if s.len() > 0 {
        lemma_view_shape(s.drop_last(), deco, first_iid, align, dash);
        let prev = view_years(s.drop_last(), deco, first_iid, align, dash);
        let out = view_years(s, deco, first_iid, align, dash);
        let k = s.len() - 1;
        if k >= 1 && s[k - 1].date.year == s[k].date.year {
            assert forall|i: int| 0 <= i < out.len() implies (#[trigger] out[i]).children.len()
                >= 1 by {
                if i < prev.len() - 1 {
                    assert(out[i] == prev[i]);
                }
            }
            assert forall|i: int, j: int|
                #![trigger out[i].children[j]]
                0 <= i < out.len() && 0 <= j < out[i].children.len() implies out[i].children[
                j].children.len() >= 1 by {
                if i < prev.len() - 1 {
                    assert(out[i] == prev[i]);
                } else {
                    let y = prev.last();
                    if s[k - 1].date.month == s[k].date.month {
                        if j < y.children.len() - 1 {
                            assert(out[i].children[j] == y.children[j]);
                        }
                    } else {
                        if j < y.children.len() {
                            assert(out[i].children[j] == y.children[j]);
                        }
                    }
                }
            }
        } else {
            assert forall|i: int| 0 <= i < out.len() implies (#[trigger] out[i]).children.len()
                >= 1 by {
                if i < prev.len() {
                    assert(out[i] == prev[i]);
                }
            }
            assert forall|i: int, j: int|
                #![trigger out[i].children[j]]
                0 <= i < out.len() && 0 <= j < out[i].children.len() implies out[i].children[
                j].children.len() >= 1 by {
                if i < prev.len() {
                    assert(out[i] == prev[i]);
                }
            }
        }
    }
}

/// Builds the leaf text before decoration.
fn leaf_base_text(r: &Record, iid: u64, align: usize, dash: &String) -> (out: String)
    requires
        r.amount.0 > i64::MIN,
        spec_digit_count(iid as nat) + crate::util::BOUNDING_SPACES_COUNT + spec_aligned_len(
            r.amount.0 as int,
        ) <= align,
    ensures
        out@ == leaf_base(*r, iid as int, align as int, dash@),
{
    let digits = crate::text::digits_string(iid);
    let dlen = crate::util::count_digits(iid);
    proof {
        crate::cents::lemma_cents_text_len(r.amount.0 as int);
    }
    let fill = crate::util::repeat_str(
        dash.as_str(),
        align - dlen - crate::util::BOUNDING_SPACES_COUNT - r.amount.charlen_for_alignment(),
    );
    let amount = r.amount.render();
    let mut out = digits;
    out.append(" ");
    out.append(fill.as_str());
    out.append(" ");
    out.append(amount.as_str());
    if r.amount.0 >= 0 {
        out.append(" ");
    }
    out.append(" ");
    out.append(r.category.0.as_str());
    if r.note.as_str().unicode_len() > 0 {
        out.append(": ");
    }
    if r.note.as_str().unicode_len() > 0 {
        out.append(r.note.as_str());
    }
    proof {
        reveal_strlit(" ");
        reveal_strlit(": ");
        assert((" ")@ =~= seq![' ']);
        assert((": ")@ =~= seq![':'] + seq![' ']);
        assert(out@ =~= leaf_base(*r, iid as int, align as int, dash@));
    }
    out
}

impl Config {
    /// Builds the transaction view with no per-leaf hook.
    pub fn to_tree(&self) -> (r: Tree)
        requires
            self.rl.wf(),
            recs_wf(self.rl.0@),
            dates_wf(self.rl.0@),
            self.first_iid + self.rl.0@.len() <= u64::MAX,
        ensures
            r.charset == self.charset,
            r.root@.data == Seq::<char>::empty(),
            r.root@.children == view_years(
                self.rl.0@,
                &PlainDecorator {  },
                self.first_iid as int,
                view_align(self.rl.0@, self.first_iid as int),
                self.charset.dash@,
            ),
    {
        self.to_tree_with(&PlainDecorator {  })
    }

    /// Builds the transaction view, the hook rewriting each leaf's text.
    ///
    /// Records are grouped year → month name → ordinal day, each leaf row
    /// `{ordinal} {dash fill} {amount} {category}[: note]` dash-aligned to
    /// the widest row; the hook sees each leaf once and cannot change the
    /// alignment accounting.
    pub fn to_tree_with<D: LeafDecorator>(&self, deco: &D) -> (r: Tree)
        requires
            self.rl.wf(),
            recs_wf(self.rl.0@),
            dates_wf(self.rl.0@),
            self.first_iid + self.rl.0@.len() <= u64::MAX,
        ensures
            r.charset == self.charset,
            r.root@.data == Seq::<char>::empty(),
            r.root@.children == view_years(
                self.rl.0@,
                deco,
                self.first_iid as int,
                view_align(self.rl.0@, self.first_iid as int),
                self.charset.dash@,
            ),
    {
        let ghost s = self.rl.0@;
        let ghost dash = self.charset.dash@;
        let ghost fi = self.first_iid as int;
        let pairs = self.rl.iter_with_iid();
        let n = pairs.len();
        // the alignment width
        let mut align: usize = 0;
        let mut k: usize = 0;
        #[verifier::loop_isolation(false)]
        while k < n
            invariant
                k <= n,
                align == view_align_upto(s, k as int, fi),
            decreases n - k,
        {
            proof {
                assert(pairs@[k as int].1 == s[k as int]);
                assert(s[k as int].wf());
                crate::cents::lemma_cents_text_len(s[k as int].amount.0 as int);
                crate::util::lemma_digit_count_le(
                    (if s[k as int].amount.0 < 0 {
                        -s[k as int].amount.0
                    } else {
                        s[k as int].amount.0 as int
                    }) as nat,
                    0xffff_ffff_ffff_ffff,
                );
                crate::util::lemma_digit_count_le(
                    (self.first_iid + pairs@[k as int].0) as nat,
                    0xffff_ffff_ffff_ffff,
                );
                reveal_with_fuel(crate::util::spec_digit_count, 21);
                assert(pairs@[k as int].0 == iid_of(s, k as int));
                assert(iid_of(s, k as int) <= s.take(k as int).len()) by {
                    crate::recordlist::lemma_records_on_len(s.take(k as int), s[k as int].date);
                }
            }
            let iid: u64 = self.first_iid as u64 + pairs[k].0 as u64;
            let w = crate::util::count_digits(iid) + crate::util::BOUNDING_SPACES_COUNT
                + crate::util::MIN_DASHES_COUNT + pairs[k].1.amount.charlen_for_alignment();
            if w > align {
                align = w;
            }
            k = k + 1;
        }
        // the nodes
        let mut years: Vec<Node> = Vec::new();
        let mut k: usize = 0;
        #[verifier::loop_isolation(false)]
        while k < n
            invariant
                k <= n,
                align == view_align(s, fi),
                nodes_view(years@) == view_years(s.take(k as int), deco, fi, align as int, dash),
                k > 0 ==> years@.len() > 0,
            decreases n - k,
        {
            let ghost prev = view_years(s.take(k as int), deco, fi, align as int, dash);
            proof {
                assert(pairs@[k as int].1 == s[k as int]);
                assert(pairs@[k as int].0 == iid_of(s, k as int));
                assert(s[k as int].wf());
                assert(s.take(k as int + 1).drop_last() =~= s.take(k as int));
                assert(s.take(k as int + 1).last() == s[k as int]);
                assert(iid_of(s.take(k as int + 1), k as int) == iid_of(s, k as int)) by {
                    assert(s.take(k as int + 1).take(k as int) =~= s.take(k as int));
                }
                lemma_view_align_fits(s, s.len() as int, k as int, fi);
                crate::util::lemma_digit_count_le(
                    (self.first_iid + iid_of(s, k as int)) as nat,
                    0xffff_ffff_ffff_ffff,
                );
                reveal_with_fuel(crate::util::spec_digit_count, 21);
                assert(view_row_width(s, k as int, fi) <= align);
            }
            let rec = &pairs[k].1;
            let iid0 = pairs[k].0;
            let base = leaf_base_text(
                rec,
                self.first_iid as u64 + iid0 as u64,
                align,
                &self.charset.dash,
            );
            let data = deco.decorate(rec, iid0, base);
            let leaf = Node::new(data);
            let ghost leafv = view_leaf(s.take(k as int + 1), k as int, deco, fi, align as int, dash);
            proof {
                assert(leaf@ == leafv);
            }
            let same_year = k > 0 && pairs[k - 1].1.date.year == rec.date.year;
            if !same_year {
                let mut day = Node::new(crate::layout::day_ordinal(rec.date.day));
                let ghost day0 = day.children@;
                let ghost leaf_g = leaf;
                day.children.push(leaf);
                proof {
                    crate::tree::lemma_push_view(day0, day.children@, leaf_g);
                    assert(day@.children =~= seq![leafv]);
                }
                let mut month = Node::new(String::from_str(
                    crate::layout::month_abbrev(rec.date.month),
                ));
                let ghost month0 = month.children@;
                let ghost day_g = day;
                let ghost dayv = day@;
                month.children.push(day);
                proof {
                    crate::tree::lemma_push_view(month0, month.children@, day_g);
                    assert(month@.children =~= seq![dayv]);
                }
                let mut year = Node::new(crate::text::padded_num_string(rec.date.year as u64, 4));
                let ghost year0 = year.children@;
                let ghost month_g = month;
                let ghost monthv = month@;
                year.children.push(month);
                proof {
                    crate::tree::lemma_push_view(year0, year.children@, month_g);
                    assert(year@.children =~= seq![monthv]);
                }
                let ghost before = years@;
                let ghost year_g = year;
                let ghost yearv = year@;
                years.push(year);
                proof {
                    crate::tree::lemma_push_view(before, years@, year_g);
                    if k > 0 {
                        assert(s.take(k as int + 1)[k - 1] == s[k - 1]);
                    }
                    assert(nodes_view(years@) =~= view_years(
                        s.take(k as int + 1),
                        deco,
                        fi,
                        align as int,
                        dash,
                    ));
                }
            } else {
                let same_month = pairs[k - 1].1.date.month == rec.date.month;
                let same_day = same_month && pairs[k - 1].1.date.day == rec.date.day;
                proof {
                    lemma_view_shape(s.take(k as int), deco, fi, align as int, dash);
                    lemma_nodes_view_index(years@);
                }
                let mut ynode = match years.pop() {
                    Some(y) => y,
                    None => {
                        proof {
                            assert(false);
                        }
                        Node::new(String::new())
                    },
                };
                let ghost rest = years@;
                let ghost y0 = prev.last();
                proof {
                    lemma_nodes_view_index(rest);
                    assert(ynode@ == y0);
                    assert(nodes_view(rest) =~= prev.drop_last());
                }
                if !same_month {
                    let mut day = Node::new(crate::layout::day_ordinal(rec.date.day));
                    let ghost day0 = day.children@;
                    let ghost leaf_g = leaf;
                    day.children.push(leaf);
                    proof {
                        crate::tree::lemma_push_view(day0, day.children@, leaf_g);
                        assert(day@.children =~= seq![leafv]);
                    }
                    let mut month = Node::new(String::from_str(
                        crate::layout::month_abbrev(rec.date.month),
                    ));
                    let ghost month0 = month.children@;
                    let ghost day_g = day;
                    let ghost dayv = day@;
                    month.children.push(day);
                    proof {
                        crate::tree::lemma_push_view(month0, month.children@, day_g);
                        assert(month@.children =~= seq![dayv]);
                    }
                    let ghost ybefore = ynode.children@;
                    let ghost month_g = month;
                    let ghost monthv = month@;
                    ynode.children.push(month);
                    proof {
                        crate::tree::lemma_push_view(ybefore, ynode.children@, month_g);
                        assert(nodes_view(ybefore) == y0.children);
                        assert(nodes_view(ynode.children@) =~= y0.children.push(monthv));
                    }
                } else {
                    let mut mnode = match ynode.children.pop() {
                        Some(m) => m,
                        None => {
                            proof {
                                assert(false);
                            }
                            Node::new(String::new())
                        },
                    };
                    let ghost yrest = ynode.children@;
                    let ghost m0 = y0.children.last();
                    proof {
                        lemma_nodes_view_index(yrest);
                        assert(mnode@ == m0);
                        assert(nodes_view(yrest) =~= y0.children.drop_last());
                    }
                    if !same_day {
                        let mut day = Node::new(crate::layout::day_ordinal(rec.date.day));
                        let ghost day0 = day.children@;
                        let ghost leaf_g = leaf;
                        day.children.push(leaf);
                        proof {
                            crate::tree::lemma_push_view(day0, day.children@, leaf_g);
                            assert(day@.children =~= seq![leafv]);
                        }
                        let ghost mbefore = mnode.children@;
                        let ghost day_g = day;
                        let ghost dayv = day@;
                        mnode.children.push(day);
                        proof {
                            crate::tree::lemma_push_view(mbefore, mnode.children@, day_g);
                            assert(nodes_view(mbefore) == m0.children);
                            assert(nodes_view(mnode.children@) =~= m0.children.push(dayv));
                        }
                    } else {
                        let mut dnode = match mnode.children.pop() {
                            Some(d) => d,
                            None => {
                                proof {
                                    assert(false);
                                }
                                Node::new(String::new())
                            },
                        };
                        let ghost mrest = mnode.children@;
                        let ghost d0 = m0.children.last();
                        proof {
                            lemma_nodes_view_index(mrest);
                            assert(dnode@ == d0);
                            assert(nodes_view(mrest) =~= m0.children.drop_last());
                        }
                        let ghost dbefore = dnode.children@;
                        let ghost leaf_g = leaf;
                        dnode.children.push(leaf);
                        proof {
                            crate::tree::lemma_push_view(dbefore, dnode.children@, leaf_g);
                            assert(nodes_view(dbefore) == d0.children);
                            assert(nodes_view(dnode.children@) =~= d0.children.push(leafv));
                        }
                        let ghost d2 = NodeV { data: d0.data, children: d0.children.push(leafv) };
                        proof {
                            assert(dnode@ == d2);
                        }
                        let ghost mrest2 = mnode.children@;
                        let ghost dnode_g = dnode;
                        mnode.children.push(dnode);
                        proof {
                            crate::tree::lemma_push_view(mrest2, mnode.children@, dnode_g);
                            assert(nodes_view(mrest2) == m0.children.drop_last());
                            assert(nodes_view(mnode.children@) =~= m0.children.update(
                                m0.children.len() - 1,
                                d2,
                            ));
                        }
                    }
                    let ghost m2 = mnode@;
                    let ghost yrest2 = ynode.children@;
                    let ghost mnode_g = mnode;
                    ynode.children.push(mnode);
                    proof {
                        crate::tree::lemma_push_view(yrest2, ynode.children@, mnode_g);
                        assert(nodes_view(yrest2) == y0.children.drop_last());
                        assert(nodes_view(ynode.children@) =~= y0.children.update(
                            y0.children.len() - 1,
                            m2,
                        ));
                    }
                }
                let ghost y2 = ynode@;
                let ghost rest2 = years@;
                let ghost ynode_g = ynode;
                years.push(ynode);
                proof {
                    crate::tree::lemma_push_view(rest2, years@, ynode_g);
                    assert(nodes_view(rest2) == prev.drop_last());
                    assert(nodes_view(years@) =~= prev.update(prev.len() - 1, y2));
                    assert(nodes_view(years@) =~= view_years(
                        s.take(k as int + 1),
                        deco,
                        fi,
                        align as int,
                        dash,
                    ));
                }
            }
            k = k + 1;
        }
        proof {
            assert(s.take(n as int) =~= s);
        }
        let mut root = Node::new(String::new());
        root.children = years;
        proof {
            assert(root@.children == view_years(s, deco, fi, align as int, dash));
        }
        Tree { charset: self.charset.clone(), root }
    }
}

} // verus!
