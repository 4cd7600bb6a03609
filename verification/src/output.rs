use vstd::prelude::*;
use vstd::string::StrSliceExecFns;
use vstd::string::StringExecFns;

use crate::barchart;
use crate::date::date_text;
use crate::forsum;
use crate::forview;
use crate::forview::LeafDecorator;
use crate::interval::Interval;
use crate::limitprinter;
use crate::recordlist::dates_wf;
use crate::recordlist::recs_wf;
use crate::tree::spec_render_tree;

verus! {

/// Output of a successful command invocation: an intermediate form of what
/// is written out, rendered on demand. A rendering always ends in a single
/// newline; a view or chart over no records renders the "No transactions."
/// sentinel instead.
pub enum Output {
    Str(String),
    TreeForSum(forsum::Config, Interval),
    TreeForView(forview::Config),
    TreeForLogt(crate::forlogt::Config),
    Barchart(barchart::Config),
    Limitprinter(limitprinter::Config),
}

/// What rendering an output needs of it.
pub open spec fn output_wf(o: Output) -> bool {
    match o {
        Output::Str(_) => true,
        Output::TreeForSum(c, interval) => {
            &&& interval.wf()
            &&& forsum::sum_inputs_ok(c.rl.0@)
            &&& forsum::sum_pos(c.rl.0@) <= i64::MAX
            &&& i64::MIN < forsum::sum_neg(c.rl.0@)
        },
        Output::TreeForView(c) => {
            &&& c.rl.wf()
            &&& recs_wf(c.rl.0@)
            &&& dates_wf(c.rl.0@)
            &&& c.first_iid + c.rl.0@.len() <= u64::MAX
        },
        Output::TreeForLogt(c) => crate::forlogt::logt_entries_ok(c.templates@),
        Output::Barchart(c) => {
            &&& c.rl.wf()
            &&& recs_wf(c.rl.0@)
            &&& dates_wf(c.rl.0@)
            &&& c.bounds.wf()
            &&& c.term_width <= 65535
            &&& forsum::sum_pos(c.rl.0@) < i64::MAX
            &&& i64::MIN < forsum::sum_neg(c.rl.0@)
        },
        Output::Limitprinter(c) => {
            &&& c.limits.wf()
            &&& recs_wf(c.rl.0@)
            &&& (forall|k: int|
                0 <= k < c.limits.0@.len() ==> (#[trigger] c.limits.0@[k]).1.0 > i64::MIN)
            &&& i64::MIN < crate::limits::spec_inception(c.limits.0@, c.year as int) <= i64::MAX
            &&& crate::limitkind::spec_contributions(c.rl.0@, c.year as int) <= i64::MAX
            &&& crate::limitkind::spec_withdrawals_before(c.rl.0@, c.year as int) <= i64::MAX
            &&& i64::MIN < crate::limitkind::spec_remaining(
                c.kind,
                c.limits.0@,
                c.rl.0@,
                c.year as int,
            ) <= i64::MAX
        },
    }
}

/// The exact rendering of an output, as a function of its inputs.
pub open spec fn spec_output_text(o: Output) -> Seq<char> {
    match o {
        Output::Str(s) => if s@.len() > 0 && s@[s@.len() - 1] == '\n' {
            s@
        } else {
            s@ + seq!['\n']
        },
        Output::TreeForSum(c, interval) => date_text(interval.start) + (" to ")@ + date_text(
            interval.end,
        ) + seq!['\n'] + crate::tree::spec_draw_top(
            forsum::spec_sum_sections(
                forsum::spec_sorted_pairs(forsum::agg_pairs(c.rl.0@, c.level as nat, true)),
                forsum::spec_sorted_pairs(forsum::agg_pairs(c.rl.0@, c.level as nat, false)),
                forsum::net_pairs(c.rl.0@),
                spec_sum_align(c),
                c.charset.dash@,
            ),
            0,
            c.charset,
        ),
        Output::TreeForView(c) => if c.rl.0@.len() == 0 {
            ("No transactions.\n")@
        } else {
            spec_view_text(c)
        },
        Output::TreeForLogt(c) => crate::tree::spec_draw_top(
            crate::forlogt::spec_logt_top(
                c.templates@,
                crate::forlogt::logt_max_width(c.templates@),
                c.charset.dash@,
            ),
            0,
            c.charset,
        ),
        Output::Barchart(c) => if c.rl.0@.len() == 0 {
            ("No transactions.\n")@
        } else {
            crate::barchart::spec_chart_config_text(c)
        },
        Output::Limitprinter(c) => crate::limitprinter::spec_limitprinter_text(c),
    }
}

/// The alignment width the totals report settles on.
pub open spec fn spec_sum_align(c: forsum::Config) -> int {
    let a = forsum::pairs_max_width(
        forsum::spec_sorted_pairs(forsum::agg_pairs(c.rl.0@, c.level as nat, true)),
    );
    let b = forsum::pairs_max_width(
        forsum::spec_sorted_pairs(forsum::agg_pairs(c.rl.0@, c.level as nat, false)),
    );
    let d = forsum::pairs_max_width(forsum::net_pairs(c.rl.0@));
    let ab = if a >= b {
        a
    } else {
        b
    };
    if ab >= d {
        ab
    } else {
        d
    }
}

/// The transaction view's rendering, marker applied if one is set.
pub open spec fn spec_view_text(c: forview::Config) -> Seq<char> {
    match c.marker {
        None => crate::tree::spec_draw_top(
            forview::view_years(
                c.rl.0@,
                &forview::PlainDecorator {  },
                c.first_iid as int,
                forview::view_align(c.rl.0@, c.first_iid as int),
                c.charset.dash@,
            ),
            0,
            c.charset,
        ),
        Some(m) => crate::tree::spec_draw_top(
            forview::view_years(
                c.rl.0@,
                &m,
                c.first_iid as int,
                forview::view_align(c.rl.0@, c.first_iid as int),
                c.charset.dash@,
            ),
            0,
            c.charset,
        ),
    }
}

impl Output {
    /// Renders the output: exactly `spec_output_text`, always ending in a
    /// single newline; a view or chart over no records renders the
    /// sentinel instead.
    pub fn render(&self) -> (r: String)
        requires
            output_wf(*self),
        ensures
            r@ == spec_output_text(*self),
    {
        match self {
            Output::Str(s) => {
                let mut out = s.clone();
                let n = s.as_str().unicode_len();
                if n == 0 || !(s.as_str().get_char(n - 1) == '\n') {
                    out.append("\n");
                    proof {
                        reveal_strlit("\n");
                        assert(("\n")@ =~= seq!['\n']);
                    }
                }
                out
            },
            Output::TreeForSum(c, interval) => {
                let mut out = interval.start.render();
                out.append(" to ");
                let e = interval.end.render();
                out.append(e.as_str());
                out.append("\n");
                let tree = c.to_tree();
                let body = tree.render();
                out.append(body.as_str());
                proof {
                    reveal_strlit("\n");
                    assert(("\n")@ =~= seq!['\n']);
                }
                out
            },
            Output::TreeForView(c) => {
                if c.rl.is_empty() {
                    let mut out = String::new();
                    out.append("No transactions.\n");
                    proof {
                        assert(out@ =~= ("No transactions.\n")@);
                    }
                    out
                } else {
                    match &c.marker {
                        None => {
                            let tree = c.to_tree();
                            tree.render()
                        },
                        Some(m) => {
                            let tree = c.to_tree_with(m);
                            tree.render()
                        },
                    }
                }
            },
            Output::TreeForLogt(c) => {
                let tree = c.to_tree();
                tree.render()
            },
            Output::Barchart(c) => {
                if c.rl.is_empty() {
                    let mut out = String::new();
                    out.append("No transactions.\n");
                    proof {
                        assert(out@ =~= ("No transactions.\n")@);
                    }
                    out
                } else {
                    let chart = c.to_barchart();
                    let out = chart.render();
                    proof {
                        crate::barchart::lemma_chart_text_v(chart, 0);
                        assert(crate::barchart::buckets_view(chart.pos@).len()
                            == chart.pos@.len());
                        assert(crate::barchart::buckets_view(chart.neg@).len()
                            == chart.neg@.len());
                        assert(out@ == crate::barchart::spec_chart_config_text(*c));
                    }
                    out
                }
            },
            Output::Limitprinter(c) => {
                let printer = c.to_limitprinter();
                let out = printer.render();
                proof {
                    let ghost lr = crate::limitprinter::spec_limit_rows(
                        c.limits.0@,
                        c.year as int,
                    );
                    let ghost sr = crate::limitprinter::spec_summary_rows(*c);
                    assert forall|k: int| 0 <= k < printer.rows@.len() implies
                        crate::limitprinter::rows_view(printer.rows@)[k] == lr[k] by {
                        assert(crate::limitprinter::rows_view(printer.rows@)[k] == (
                            printer.rows@[k].0@,
                            printer.rows@[k].1.0 as int,
                        ));
                    }
                    assert(crate::limitprinter::rows_view(printer.rows@) =~= lr);
                    assert(crate::limitprinter::rows_view(printer.summary@) =~= sr) by {
                        assert(crate::limitprinter::rows_view(printer.summary@)[0] == (
                            printer.summary@[0].0@,
                            printer.summary@[0].1.0 as int,
                        ));
                        assert(crate::limitprinter::rows_view(printer.summary@)[1] == (
                            printer.summary@[1].0@,
                            printer.summary@[1].1.0 as int,
                        ));
                    }
                    crate::limitprinter::lemma_rows_max_view(printer.rows@);
                    crate::limitprinter::lemma_rows_max_view(printer.summary@);
                    assert(printer.alignment as int == crate::limitprinter::spec_limit_align(
                        *c,
                    ));
                    crate::limitprinter::lemma_rows_text_view(
                        printer.rows@,
                        0,
                        printer.alignment as int,
                        printer.charset.dash@,
                    );
                    crate::limitprinter::lemma_rows_text_view(
                        printer.summary@,
                        0,
                        printer.alignment as int,
                        printer.charset.dash@,
                    );
                    assert(out@ == crate::limitprinter::spec_limitprinter_text(*c));
                }
                out
            },
        }
    }
}

} // verus!
