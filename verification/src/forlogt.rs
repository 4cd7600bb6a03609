use vstd::prelude::*;
use vstd::string::StrSliceExecFns;
use vstd::string::StringExecFns;

use crate::charset::Charset;
use crate::config::TemplateEntry;
use crate::layout::row_text;
use crate::layout::spec_row;
use crate::layout::spec_row_width;
use crate::tree::lemma_nodes_view_index;
use crate::tree::nodes_view;
use crate::tree::Node;
use crate::tree::NodeV;
use crate::tree::Tree;

verus! {

/// Inputs of the template listing: the templates by name, in the order they
/// are shown.
pub struct Config {
    pub charset: Charset,
    pub templates: Vec<(String, Vec<TemplateEntry>)>,
}

/// The rows of one template, all dash-aligned to `align`.
pub open spec fn spec_logt_rows(es: Seq<TemplateEntry>, align: int, dash: Seq<char>) -> Seq<
    NodeV,
> {
    Seq::new(
        es.len(),
        |j: int|
            NodeV {
                data: spec_row(es[j].category.0@, es[j].amount.0 as int, align, dash),
                children: Seq::empty(),
            },
    )
}

/// One node per template, its entries as leaf rows.
pub open spec fn spec_logt_top(
    ts: Seq<(String, Vec<TemplateEntry>)>,
    align: int,
    dash: Seq<char>,
) -> Seq<NodeV> {
    Seq::new(
        ts.len(),
        |i: int| NodeV { data: ts[i].0@, children: spec_logt_rows(ts[i].1@, align, dash) },
    )
}

/// The widest row any template entry needs.
pub open spec fn tmpl_rows_width(es: Seq<TemplateEntry>) -> int
    decreases es.len(),
{
    if es.len() == 0 {
        0
    } else {
        let w = spec_row_width(es.last().category.0@.len() as int, es.last().amount.0 as int);
        let rest = tmpl_rows_width(es.drop_last());
        if w >= rest {
            w
        } else {
            rest
        }
    }
}

pub open spec fn logt_max_width(ts: Seq<(String, Vec<TemplateEntry>)>) -> int
    decreases ts.len(),
{
    if ts.len() == 0 {
        0
    } else {
        let w = tmpl_rows_width(ts.last().1@);
        let rest = logt_max_width(ts.drop_last());
        if w >= rest {
            w
        } else {
            rest
        }
    }
}

/// Every entry can be rendered and measured.
pub open spec fn logt_entries_ok(ts: Seq<(String, Vec<TemplateEntry>)>) -> bool {
    forall|i: int, j: int|
        #![trigger ts[i].1@[j]]
        0 <= i < ts.len() && 0 <= j < ts[i].1@.len() ==> {
            &&& ts[i].1@[j].amount.0 > i64::MIN
            &&& ts[i].1@[j].category.0@.len() + 64 < usize::MAX
        }
}

impl Config {
    /// Builds the template listing: one top-level node per template, its
    /// entries as `category -- amount` rows sharing one alignment width.
    pub fn to_tree(&self) -> (r: Tree)
        requires
            logt_entries_ok(self.templates@),
        ensures
            r.charset == self.charset,
            r.root@.data == Seq::<char>::empty(),
            r.root@.children == spec_logt_top(
                self.templates@,
                logt_max_width(self.templates@),
                self.charset.dash@,
            ),
    {
        let ghost ts = self.templates@;
        let n = self.templates.len();
        // the shared alignment width
        let mut align: usize = 0;
        let mut i: usize = 0;
        #[verifier::loop_isolation(false)]
        while i < n
            invariant
                i <= n,
                align == logt_max_width(ts.take(i as int)),
            decreases n - i,
        {
            let es = &self.templates[i].1;
            let m = es.len();
            let mut w: usize = 0;
            let mut j: usize = 0;
            #[verifier::loop_isolation(false)]
            while j < m
                invariant
                    j <= m,
                    es == &self.templates@[i as int].1,
                    i < n,
                    w == tmpl_rows_width(es@.take(j as int)),
                decreases m - j,
            {
                proof {
                    assert(es@.take(j as int + 1).drop_last() =~= es@.take(j as int));
                    assert(es@.take(j as int + 1).last() == es@[j as int]);
                    crate::cents::lemma_cents_text_len(es@[j as int].amount.0 as int);
                    crate::util::lemma_digit_count_le(
                        (if es@[j as int].amount.0 < 0 {
                            -es@[j as int].amount.0
                        } else {
                            es@[j as int].amount.0 as int
                        }) as nat,
                        0xffff_ffff_ffff_ffff,
                    );
                    reveal_with_fuel(crate::util::spec_digit_count, 21);
                }
                let label_len = es[j].category.0.as_str().unicode_len();
                let rw = label_len + crate::util::BOUNDING_SPACES_COUNT
                    + crate::util::MIN_DASHES_COUNT + es[j].amount.charlen_for_alignment();
                if rw > w {
                    w = rw;
                }
                j = j + 1;
            }
            proof {
                assert(es@.take(m as int) =~= es@);
                assert(ts.take(i as int + 1).drop_last() =~= ts.take(i as int));
                assert(ts.take(i as int + 1).last() == ts[i as int]);
            }
            if w > align {
                align = w;
            }
            i = i + 1;
        }
        proof {
            assert(ts.take(n as int) =~= ts);
        }
        // the nodes
        let mut root = Node::new(String::new());
        let mut i: usize = 0;
        #[verifier::loop_isolation(false)]
        while i < n
            invariant
                i <= n,
                align == logt_max_width(ts),
                root@.data == Seq::<char>::empty(),
                root@.children == spec_logt_top(ts.take(i as int), align as int, self.charset.dash@),
            decreases n - i,
        {
            let name = self.templates[i].0.clone();
            let mut node = Node::new(name);
            let es = &self.templates[i].1;
            let m = es.len();
            let mut j: usize = 0;
            #[verifier::loop_isolation(false)]
            while j < m
                invariant
                    j <= m,
                    es == &self.templates@[i as int].1,
                    i < n,
                    align == logt_max_width(ts),
                    node@.data == ts[i as int].0@,
                    node@.children == spec_logt_rows(
                        es@.take(j as int),
                        align as int,
                        self.charset.dash@,
                    ),
                decreases m - j,
            {
                proof {
                    lemma_tmpl_row_fits(ts, i as int, j as int);
                }
                let data = row_text(
                    es[j].category.0.as_str(),
                    es[j].amount,
                    align,
                    self.charset.dash.as_str(),
                );
                let leaf = Node::new(data);
                let ghost before = node.children@;
                node.children.push(leaf);
                proof {
                    lemma_nodes_view_index(node.children@);
                    lemma_nodes_view_index(before);
                    let target = spec_logt_rows(
                        es@.take(j as int + 1),
                        align as int,
                        self.charset.dash@,
                    );
                    assert forall|x: int| 0 <= x < node@.children.len() implies node@.children[x]
                        == target[x] by {
                        if x < j {
                            assert(node.children@[x] == before[x]);
                            assert(nodes_view(before)[x] == target[x]) by {
                                assert(es@.take(j as int)[x] == es@.take(j as int + 1)[x]);
                                assert(nodes_view(before) == spec_logt_rows(
                                    es@.take(j as int),
                                    align as int,
                                    self.charset.dash@,
                                ));
                            }
                        } else {
                            assert(node.children@[x] == leaf);
                            assert(es@.take(j as int + 1)[x] == es@[j as int]);
                        }
                    }
                    assert(node@.children =~= target);
                }
                j = j + 1;
            }
            proof {
                assert(es@.take(m as int) =~= es@);
            }
            let ghost rbefore = root.children@;
            let ghost pushed = node@;
            root.children.push(node);
            proof {
                lemma_nodes_view_index(root.children@);
                lemma_nodes_view_index(rbefore);
                let target = spec_logt_top(ts.take(i as int + 1), align as int, self.charset.dash@);
                assert forall|x: int| 0 <= x < root@.children.len() implies root@.children[x]
                    == target[x] by {
                    if x < i {
                        assert(root.children@[x] == rbefore[x]);
                        assert(nodes_view(rbefore)[x] == target[x]) by {
                            assert(ts.take(i as int)[x] == ts.take(i as int + 1)[x]);
                            assert(nodes_view(rbefore) == spec_logt_top(
                                ts.take(i as int),
                                align as int,
                                self.charset.dash@,
                            ));
                        }
                    } else {
                        assert(root.children@[x]@ == pushed);
                        assert(ts.take(i as int + 1)[x] == ts[i as int]);
                        assert(es@.take(es@.len() as int) =~= es@);
                    }
                }
                assert(root@.children =~= target);
            }
            i = i + 1;
        }
        proof {
            assert(ts.take(n as int) =~= ts);
        }
        Tree { charset: self.charset.clone(), root }
    }
}

/// Each row fits under the overall maximum width.
proof fn lemma_tmpl_row_fits(ts: Seq<(String, Vec<TemplateEntry>)>, i: int, j: int)
    requires
        0 <= i < ts.len(),
        0 <= j < ts[i].1@.len(),
    ensures
        spec_row_width(ts[i].1@[j].category.0@.len() as int, ts[i].1@[j].amount.0 as int)
            <= logt_max_width(ts),
    decreases ts.len(),
{
    if i == ts.len() - 1 {
        lemma_tmpl_row_le(ts[i].1@, j);
        lemma_logt_max_nonneg(ts.drop_last());
    } else {
        assert(ts.drop_last()[i] == ts[i]);
        lemma_tmpl_row_fits(ts.drop_last(), i, j);
        lemma_tmpl_rows_nonneg(ts.last().1@);
    }
}

proof fn lemma_tmpl_row_le(es: Seq<TemplateEntry>, j: int)
    requires
        0 <= j < es.len(),
    ensures
        spec_row_width(es[j].category.0@.len() as int, es[j].amount.0 as int) <= tmpl_rows_width(
            es,
        ),
    decreases es.len(),
{
    if j == es.len() - 1 {
        lemma_tmpl_rows_nonneg(es.drop_last());
    } else {
        assert(es.drop_last()[j] == es[j]);
        lemma_tmpl_row_le(es.drop_last(), j);
    }
}

proof fn lemma_tmpl_rows_nonneg(es: Seq<TemplateEntry>)
    ensures
        tmpl_rows_width(es) >= 0,
    decreases es.len(),
{
    if es.len() > 0 {
        lemma_tmpl_rows_nonneg(es.drop_last());
        crate::cents::lemma_cents_text_len(es.last().amount.0 as int);
    }
}

proof fn lemma_logt_max_nonneg(ts: Seq<(String, Vec<TemplateEntry>)>)
    ensures
        logt_max_width(ts) >= 0,
    decreases ts.len(),
{
    if ts.len() > 0 {
        lemma_logt_max_nonneg(ts.drop_last());
        lemma_tmpl_rows_nonneg(ts.last().1@);
    }
}

} // verus!
