use vstd::prelude::*;
use vstd::string::StrSliceExecFns;
use vstd::string::StringExecFns;

use crate::barchart;
use crate::cents::Cents;
use crate::cmdutil::charset_from_config;
use crate::cmdutil::charset_matches;
use crate::cmdutil::pattern_views;
use crate::cmdutil::widened_views;
use crate::cmdutil::filter_rl;
use crate::cmdutil::preprocess_categories;
use crate::config::Config;
use crate::date::Date;
use crate::datepart::Datepart;
use crate::forlogt;
use crate::forsum;
use crate::forview;
use crate::forview::MarkDecorator;
use crate::interval::Interval;
use crate::limitkind::Limitkind;
use crate::limits::Limits;
use crate::output::output_wf;
use crate::output::Output;
use crate::record::Record;
use crate::recordlist::spec_get;
use crate::recordlist::spec_insert;
use crate::recordlist::Recordlist;
use crate::text::digits_string;
use crate::text::digits_seq;
use crate::text::spec_parse_i32;
use crate::text::str_le;
use crate::text::str_le_exec;
use crate::util::chars_of;

verus! {

/// Why a command refused to run.
#[derive(Debug, Clone, Copy, PartialEq, Eq, Structural)]
pub enum Error {
    /// The working directory holds no repository.
    NotARepository,
    /// No record sits at the given date and index-in-date.
    NonexistentTransaction,
    /// The category is new and creating it was not asked for.
    NonexistentCategory,
    /// No template of that name is configured.
    UnknownTemplate,
    /// Neither the invocation nor the configuration names an account type.
    NoDefaultAccountType,
}

impl Error {
    /// The user-facing message.
    pub fn message(self) -> (r: &'static str)
        ensures
            r@ == spec_error_message(self),
    {
        match self {
            Error::NotARepository => "not a repository",
            Error::NonexistentTransaction => "nonexistent transaction",
            Error::NonexistentCategory => "nonexistent category",
            Error::UnknownTemplate => "unknown template",
            Error::NoDefaultAccountType => "no default account type configured",
        }
    }
}

pub open spec fn spec_error_message(e: Error) -> Seq<char> {
    match e {
        Error::NotARepository => ("not a repository")@,
        Error::NonexistentTransaction => ("nonexistent transaction")@,
        Error::NonexistentCategory => ("nonexistent category")@,
        Error::UnknownTemplate => ("unknown template")@,
        Error::NoDefaultAccountType => ("no default account type configured")@,
    }
}

/// What a command asks the caller to do: show the output, and write back
/// whatever changed.
pub struct Effects {
    pub output: Output,
    pub write_rl: Option<Recordlist>,
    pub write_limits: Option<Limits>,
    pub write_config: Option<Config>,
}

/// The category filtering options the reporting commands share.
pub struct CategoriesOpts {
    pub categories: Vec<String>,
    pub not_categories: Vec<String>,
    pub fullmatch: bool,
}

/// The records a filtering command keeps: the interval's slice of the
/// list, restricted by the widened include and exclude patterns.
pub open spec fn filtered_records(
    rl: Seq<Record>,
    interval: Interval,
    opts: CategoriesOpts,
) -> Seq<Record> {
    if interval.spec_is_empty() {
        Seq::empty()
    } else {
        crate::cmdutil::spec_filter(
            rl.subrange(
                crate::recordlist::first_ge_idx(rl, interval.start),
                crate::recordlist::first_gt_idx(rl, interval.end),
            ),
            widened_views(opts.categories@, opts.fullmatch),
            widened_views(opts.not_categories@, opts.fullmatch),
        )
    }
}

/// Everything a report needs of its record list, the filtering keeps: the
/// records are drawn from the input, so their well-formedness, category
/// bounds, and one-signed totals carry over.
proof fn lemma_filtered_ok(rl: Seq<Record>, interval: Interval, opts: CategoriesOpts)
    requires
        crate::recordlist::sorted_by_date(rl),
    ensures
        ({
            let f = filtered_records(rl, interval, opts);
            &&& f.len() <= rl.len()
            &&& (crate::recordlist::recs_wf(rl) ==> crate::recordlist::recs_wf(f))
            &&& (crate::recordlist::dates_wf(rl) ==> crate::recordlist::dates_wf(f))
            &&& (forsum::sum_inputs_ok(rl) ==> forsum::sum_inputs_ok(f))
            &&& 0 <= forsum::sum_pos(f) <= forsum::sum_pos(rl)
            &&& forsum::sum_neg(rl) <= forsum::sum_neg(f) <= 0
        }),
{
    if interval.spec_is_empty() {
        forsum::lemma_sum_signs(rl);
        forsum::lemma_sum_signs(filtered_records(rl, interval, opts));
    } else {
        crate::recordlist::lemma_first_ge_char(rl, interval.start);
        crate::recordlist::lemma_first_gt_char(rl, interval.end);
        let lo = crate::recordlist::first_ge_idx(rl, interval.start);
        let hi = crate::recordlist::first_gt_idx(rl, interval.end);
        if hi < lo {
            assert(rl[hi].date.spec_lt(interval.start));
            assert(!rl[hi].date.spec_le(interval.end));
            assert(false);
        }
        let sl = rl.subrange(lo, hi);
        let f = filtered_records(rl, interval, opts);
        lemma_filter_keeps(
            sl,
            crate::cmdutil::widened_views(opts.categories@, opts.fullmatch),
            crate::cmdutil::widened_views(opts.not_categories@, opts.fullmatch),
        );
        lemma_subrange_keeps(rl, lo, hi);
        forsum::lemma_sum_signs(rl);
        forsum::lemma_sum_signs(sl);
        forsum::lemma_sum_signs(f);
        assert forall|k: int| 0 <= k < f.len() implies exists|j: int|
            0 <= j < rl.len() && #[trigger] f[k] == rl[j] by {
            let j = choose|j: int| 0 <= j < sl.len() && #[trigger] f[k] == sl[j];
            assert(sl[j] == rl[lo + j]);
        }
        if crate::recordlist::recs_wf(rl) {
            assert forall|k: int| 0 <= k < f.len() implies (#[trigger] f[k]).wf() by {
                let j = choose|j: int| 0 <= j < rl.len() && #[trigger] f[k] == rl[j];
            }
        }
        if crate::recordlist::dates_wf(rl) {
            assert forall|k: int| 0 <= k < f.len() implies (#[trigger] f[k]).date.wf() by {
                let j = choose|j: int| 0 <= j < rl.len() && #[trigger] f[k] == rl[j];
            }
        }
        if forsum::sum_inputs_ok(rl) {
            assert forall|k: int| 0 <= k < f.len() implies (
            #[trigger] f[k]).category.0@.len() + 67 < usize::MAX / 2 by {
                let j = choose|j: int| 0 <= j < rl.len() && #[trigger] f[k] == rl[j];
            }
        }
    }
}

/// The members and one-signed totals of a filtering are bounded by its
/// input's.
proof fn lemma_filter_keeps(s: Seq<Record>, incl: Seq<Seq<char>>, excl: Seq<Seq<char>>)
    ensures
        ({
            let f = crate::cmdutil::spec_filter(s, incl, excl);
            &&& f.len() <= s.len()
            &&& (forall|k: int|
                0 <= k < f.len() ==> exists|j: int| 0 <= j < s.len() && #[trigger] f[k] == s[j])
            &&& forsum::sum_pos(f) <= forsum::sum_pos(s)
            &&& forsum::sum_neg(s) <= forsum::sum_neg(f)
        }),
    decreases s.len(),
{
    if s.len() > 0 {
        lemma_filter_keeps(s.drop_last(), incl, excl);
        let f = crate::cmdutil::spec_filter(s, incl, excl);
        let fp = crate::cmdutil::spec_filter(s.drop_last(), incl, excl);
        forsum::lemma_sum_signs(s.drop_last());
        if crate::cmdutil::passes(s.last().category.0@, incl, excl) {
            forsum::lemma_sum_append(fp, seq![s.last()]);
            assert(forsum::sum_pos(seq![s.last()]) == forsum::sum_pos(
                Seq::<Record>::empty(),
            ) + if s.last().amount.0 > 0 {
                s.last().amount.0 as int
            } else {
                0
            }) by {
                assert(seq![s.last()].drop_last() =~= Seq::<Record>::empty());
            }
            assert(forsum::sum_neg(seq![s.last()]) == forsum::sum_neg(
                Seq::<Record>::empty(),
            ) + if s.last().amount.0 < 0 {
                s.last().amount.0 as int
            } else {
                0
            }) by {
                assert(seq![s.last()].drop_last() =~= Seq::<Record>::empty());
            }
        } else {
            assert(f == fp);
            assert(forsum::sum_pos(s) == forsum::sum_pos(s.drop_last()) + if s.last().amount.0
                > 0 {
                s.last().amount.0 as int
            } else {
                0
            });
        }
        assert forall|k: int| 0 <= k < f.len() implies exists|j: int|
            0 <= j < s.len() && #[trigger] f[k] == s[j] by {
            if k < fp.len() {
                assert(f[k] == fp[k]);
                let j = choose|j: int| 0 <= j < s.drop_last().len() && #[trigger] fp[k] == s
                    .drop_last()[j];
                assert(f[k] == s[j]);
            } else {
                assert(f[k] == s[s.len() - 1]);
            }
        }
    }
}

/// The members and one-signed totals of a slice are bounded by the whole
/// list's.
proof fn lemma_subrange_keeps(s: Seq<Record>, lo: int, hi: int)
    requires
        0 <= lo <= hi <= s.len(),
    ensures
        forsum::sum_pos(s.subrange(lo, hi)) <= forsum::sum_pos(s),
        forsum::sum_neg(s) <= forsum::sum_neg(s.subrange(lo, hi)),
        forall|k: int|
            lo <= k < hi ==> #[trigger] s.subrange(lo, hi)[k - lo] == s[k],
{
    let a = s.subrange(0, lo);
    let b = s.subrange(lo, hi);
    let c = s.subrange(hi, s.len() as int);
    assert(s =~= (a + b) + c);
    forsum::lemma_sum_append(a + b, c);
    forsum::lemma_sum_append(a, b);
    forsum::lemma_sum_signs(a);
    forsum::lemma_sum_signs(c);
}

/// View transactions within an interval, filtered by category patterns.
pub struct ViewCmd {
    pub interval: Interval,
    pub categories_opts: CategoriesOpts,
}

/// What viewing promises: a transaction view over exactly the filtered
/// records, ordinals starting at the configured origin, no marker, and the
/// configured glyphs.
pub open spec fn view_post(cmd: ViewCmd, rl: Recordlist, config: Config, r: Output) -> bool {
    match r {
        Output::TreeForView(c) => {
            &&& c.first_iid == config.first_index_in_date
            &&& c.marker is None
            &&& c.rl.wf()
            &&& c.rl.0@ == filtered_records(rl.0@, cmd.interval, cmd.categories_opts)
            &&& charset_matches(c.charset, config.use_unicode_symbols, config.use_colored_output)
            &&& output_wf(r)
        },
        _ => false,
    }
}

impl ViewCmd {
    pub fn run(self, rl: Recordlist, config: &Config) -> (r: Output)
        requires
            rl.wf(),
            crate::recordlist::recs_wf(rl.0@),
            crate::recordlist::dates_wf(rl.0@),
            config.first_index_in_date + rl.0@.len() <= u64::MAX,
        ensures
            view_post(self, rl, *config, r),
    {
        let categories = preprocess_categories(
            &self.categories_opts.categories,
            self.categories_opts.fullmatch,
        );
        let not_categories = preprocess_categories(
            &self.categories_opts.not_categories,
            self.categories_opts.fullmatch,
        );
        let filtered = filter_rl(&rl, self.interval, &categories, &not_categories);
        proof {
            lemma_preprocessed(
                categories@,
                self.categories_opts.categories@,
                self.categories_opts.fullmatch,
            );
            lemma_preprocessed(
                not_categories@,
                self.categories_opts.not_categories@,
                self.categories_opts.fullmatch,
            );
            if self.interval.spec_is_empty() {
                assert(filtered.0@ =~= filtered_records(
                    rl.0@,
                    self.interval,
                    self.categories_opts,
                ));
            }
            lemma_filtered_ok(rl.0@, self.interval, self.categories_opts);
        }
        Output::TreeForView(
            forview::Config {
                charset: charset_from_config(config),
                first_iid: config.first_index_in_date,
                rl: filtered,
                marker: None,
            },
        )
    }
}

/// What `preprocess_categories` hands back is, viewed, exactly the widened
/// pattern list.
proof fn lemma_preprocessed(out: Seq<String>, cats: Seq<String>, fullmatch: bool)
    requires
        out.len() == cats.len(),
        forall|k: int|
            0 <= k < out.len() ==> (#[trigger] out[k])@ == if fullmatch {
                cats[k]@
            } else {
                crate::cmdutil::spec_widen(cats[k]@)
            },
    ensures
        pattern_views(out) == widened_views(cats, fullmatch),
{
    assert(pattern_views(out) =~= widened_views(cats, fullmatch));
}

/// View transaction totals, grouped at a category level.
pub struct Sum {
    pub interval: Interval,
    pub level: usize,
    pub categories_opts: CategoriesOpts,
}

/// What summing promises: a totals report over exactly the filtered
/// records at the chosen level, paired with the queried interval.
pub open spec fn sum_post(cmd: Sum, rl: Recordlist, config: Config, r: Output) -> bool {
    match r {
        Output::TreeForSum(c, iv) => {
            &&& iv == cmd.interval
            &&& c.level == cmd.level
            &&& c.rl.wf()
            &&& c.rl.0@ == filtered_records(rl.0@, cmd.interval, cmd.categories_opts)
            &&& charset_matches(c.charset, config.use_unicode_symbols, config.use_colored_output)
            &&& output_wf(r)
        },
        _ => false,
    }
}

impl Sum {
    pub fn run(&self, rl: Recordlist, config: &Config) -> (r: Output)
        requires
            rl.wf(),
            self.interval.wf(),
            forsum::sum_inputs_ok(rl.0@),
            forsum::sum_pos(rl.0@) <= i64::MAX,
            i64::MIN < forsum::sum_neg(rl.0@),
        ensures
            sum_post(*self, rl, *config, r),
    {
        let categories = preprocess_categories(
            &self.categories_opts.categories,
            self.categories_opts.fullmatch,
        );
        let not_categories = preprocess_categories(
            &self.categories_opts.not_categories,
            self.categories_opts.fullmatch,
        );
        let filtered = filter_rl(&rl, self.interval, &categories, &not_categories);
        proof {
            lemma_preprocessed(
                categories@,
                self.categories_opts.categories@,
                self.categories_opts.fullmatch,
            );
            lemma_preprocessed(
                not_categories@,
                self.categories_opts.not_categories@,
                self.categories_opts.fullmatch,
            );
            if self.interval.spec_is_empty() {
                assert(filtered.0@ =~= filtered_records(
                    rl.0@,
                    self.interval,
                    self.categories_opts,
                ));
            }
            lemma_filtered_ok(rl.0@, self.interval, self.categories_opts);
        }
        Output::TreeForSum(
            forsum::Config {
                charset: charset_from_config(config),
                level: self.level,
                rl: filtered,
            },
            self.interval,
        )
    }
}

/// Plot transaction totals per calendar bucket.
pub struct Plot {
    pub interval: Option<Interval>,
    pub unit: Datepart,
    pub categories_opts: CategoriesOpts,
}

/// The default plotting window of each granularity: the past ten years,
/// twelve months, or fourteen days.
pub open spec fn spec_default_window(unit: Datepart) -> Seq<char> {
    match unit {
        Datepart::Year => ("y-10:Y")@,
        Datepart::Month => ("m-12:M")@,
        Datepart::Day => ("d-14:D")@,
    }
}

/// The window a plot uses: the given interval, or the granularity's
/// default window parsed against today.
pub open spec fn plot_window(cmd: Plot, today: Date) -> Interval {
    match cmd.interval {
        Some(iv) => iv,
        None => crate::interval::spec_parse_interval(
            spec_default_window(cmd.unit),
            today,
        )->Ok_0,
    }
}

/// What plotting promises: a chart over exactly the filtered records of
/// the window, at the chosen granularity and terminal width.
pub open spec fn plot_post(
    cmd: Plot,
    rl: Recordlist,
    config: Config,
    term_width: usize,
    today: Date,
    r: Output,
) -> bool {
    match r {
        Output::Barchart(c) => {
            &&& c.unit == cmd.unit
            &&& c.term_width == term_width
            &&& c.bounds == plot_window(cmd, today)
            &&& c.rl.wf()
            &&& c.rl.0@ == filtered_records(rl.0@, plot_window(cmd, today), cmd.categories_opts)
            &&& charset_matches(c.charset, config.use_unicode_symbols, config.use_colored_output)
            &&& output_wf(r)
        },
        _ => false,
    }
}

impl Plot {
    pub fn run(&self, rl: Recordlist, config: &Config, term_width: usize, today: Date) -> (r:
        Output)
        requires
            rl.wf(),
            today.wf(),
            crate::recordlist::recs_wf(rl.0@),
            crate::recordlist::dates_wf(rl.0@),
            term_width <= 65535,
            forsum::sum_pos(rl.0@) < i64::MAX,
            i64::MIN < forsum::sum_neg(rl.0@),
            self.interval matches Some(iv) ==> iv.wf(),
            self.interval is None ==> crate::interval::spec_parse_interval(
                spec_default_window(self.unit),
                today,
            ) is Ok,
        ensures
            plot_post(*self, rl, *config, term_width, today, r),
    {
        let interval: Interval = match &self.interval {
            Some(iv) => *iv,
            None => {
                let token: &'static str = match self.unit {
                    Datepart::Year => "y-10:Y",
                    Datepart::Month => "m-12:M",
                    Datepart::Day => "d-14:D",
                };
                match Interval::parse(token, today) {
                    Ok(iv) => iv,
                    Err(_) => {
                        proof {
                            assert(false);
                        }
                        Interval::empty()
                    },
                }
            },
        };
        let categories = preprocess_categories(
            &self.categories_opts.categories,
            self.categories_opts.fullmatch,
        );
        let not_categories = preprocess_categories(
            &self.categories_opts.not_categories,
            self.categories_opts.fullmatch,
        );
        let filtered = filter_rl(&rl, interval, &categories, &not_categories);
        proof {
            lemma_preprocessed(
                categories@,
                self.categories_opts.categories@,
                self.categories_opts.fullmatch,
            );
            lemma_preprocessed(
                not_categories@,
                self.categories_opts.not_categories@,
                self.categories_opts.fullmatch,
            );
            assert(interval == plot_window(*self, today));
            if interval.spec_is_empty() {
                assert(filtered.0@ =~= filtered_records(
                    rl.0@,
                    interval,
                    self.categories_opts,
                ));
            }
            lemma_filtered_ok(rl.0@, interval, self.categories_opts);
        }
        Output::Barchart(
            barchart::Config {
                charset: charset_from_config(config),
                bounds: interval,
                unit: self.unit,
                term_width,
                rl: filtered,
            },
        )
    }
}

/// View the unique categories in use.
pub struct Cats {
    pub fullmatch: bool,
    pub category: Vec<String>,
}

/// Where a label lands in a sorted run: after everything at or before it.
pub open spec fn str_sort_pos(s: Seq<Seq<char>>, x: Seq<char>) -> int
    decreases s.len(),
{
    if s.len() == 0 {
        0
    } else if str_le(s[0], x) {
        1 + str_sort_pos(s.skip(1), x)
    } else {
        0
    }
}

/// The labels sorted, inserting one after another.
pub open spec fn spec_sorted_strs(s: Seq<Seq<char>>) -> Seq<Seq<char>>
    decreases s.len(),
{
    if s.len() == 0 {
        Seq::empty()
    } else {
        let prev = spec_sorted_strs(s.drop_last());
        let p = str_sort_pos(prev, s.last());
        prev.take(p) + seq![s.last()] + prev.skip(p)
    }
}

/// Adjacent duplicates collapsed.
pub open spec fn spec_dedup(s: Seq<Seq<char>>) -> Seq<Seq<char>>
    decreases s.len(),
{
    if s.len() == 0 {
        Seq::empty()
    } else {
        let prev = spec_dedup(s.drop_last());
        if s.len() >= 2 && s[s.len() - 2] == s.last() {
            prev
        } else {
            prev.push(s.last())
        }
    }
}

/// Lines joined with a newline between each pair.
pub open spec fn spec_join_lines(s: Seq<Seq<char>>, i: int) -> Seq<char>
    decreases s.len() - i,
{
    if 0 <= i < s.len() {
        (if i > 0 {
            seq!['\n']
        } else {
            Seq::empty()
        }) + s[i] + spec_join_lines(s, i + 1)
    } else {
        Seq::empty()
    }
}

/// What listing categories promises: the sorted, unique labels of the
/// matching records, or the sentinel when none match.
pub open spec fn cats_post(cmd: Cats, rl: Recordlist, r: Output) -> bool {
    &&& output_wf(r)
    &&& match r {
        Output::Str(s) => s@ == {
            let fs = crate::cmdutil::spec_filter(
                rl.0@.subrange(0, rl.0@.len() as int),
                widened_views(cmd.category@, cmd.fullmatch),
                Seq::empty(),
            );
            let cats = spec_dedup(
                spec_sorted_strs(Seq::new(fs.len(), |k: int| fs[k].category.0@)),
            );
            if cats.len() == 0 {
                ("No categories.")@
            } else {
                spec_join_lines(cats, 0)
            }
        },
        _ => false,
    }
}

impl Cats {
    /// Lists the categories of the matching records, sorted and unique, or
    /// the "No categories." sentinel.
    pub fn run(&self, rl: Recordlist) -> (r: Output)
        requires
            rl.wf(),
            crate::recordlist::dates_wf(rl.0@),
        ensures
            cats_post(*self, rl, r),
    {
        let categories = preprocess_categories(&self.category, self.fullmatch);
        let excl: Vec<String> = Vec::new();
        let filtered = filter_rl(&rl, Interval::max_interval(), &categories, &excl);
        let ghost fs = crate::cmdutil::spec_filter(
            rl.0@.subrange(0, rl.0@.len() as int),
            crate::cmdutil::widened_views(self.category@, self.fullmatch),
            Seq::empty(),
        );
        proof {
            crate::recordlist::lemma_first_ge_char(rl.0@, crate::date::spec_min_date());
            crate::recordlist::lemma_first_gt_char(rl.0@, crate::date::spec_max_date());
            assert forall|k: int| 0 <= k < rl.0@.len() implies !(
            #[trigger] rl.0@[k]).date.spec_lt(crate::date::spec_min_date()) by {
                assert(rl.0@[k].date.wf());
            }
            assert forall|k: int| 0 <= k < rl.0@.len() implies (
            #[trigger] rl.0@[k]).date.spec_le(crate::date::spec_max_date()) by {
                assert(rl.0@[k].date.wf());
            }
            crate::recordlist::lemma_first_ge_from_partition(
                rl.0@,
                crate::date::spec_min_date(),
                0,
            );
            crate::recordlist::lemma_first_gt_from_partition(
                rl.0@,
                crate::date::spec_max_date(),
                rl.0@.len() as int,
            );
            assert(crate::cmdutil::pattern_views(categories@) =~= crate::cmdutil::widened_views(
                self.category@,
                self.fullmatch,
            ));
            assert(crate::cmdutil::pattern_views(excl@) =~= Seq::<Seq<char>>::empty());
            assert(filtered.0@ == fs);
        }
        // the labels, in stored order
        let mut labels: Vec<String> = Vec::new();
        let n = filtered.0.len();
        let mut i: usize = 0;
        #[verifier::loop_isolation(false)]
        while i < n
            invariant
                i <= n,
                n == filtered.0@.len(),
                filtered.0@ == fs,
                labels@.len() == i,
                forall|k: int| 0 <= k < i ==> (#[trigger] labels@[k])@ == fs[k].category.0@,
            decreases n - i,
        {
            labels.push(filtered.0[i].category.0.clone());
            i = i + 1;
        }
        let sorted = sort_strs(labels);
        let unique = dedup_strs(sorted);
        proof {
            assert(views_of(labels@) =~= Seq::new(fs.len(), |k: int| fs[k].category.0@));
        }
        if unique.len() == 0 {
            let mut out = String::new();
            out.append("No categories.");
            proof {
                assert(out@ =~= ("No categories.")@);
            }
            Output::Str(out)
        } else {
            let mut out = String::new();
            let m = unique.len();
            let mut j: usize = 0;
            proof {
                assert(Seq::<char>::empty() + spec_join_lines(views_of(unique@), 0)
                    =~= spec_join_lines(views_of(unique@), 0));
            }
            #[verifier::loop_isolation(false)]
            while j < m
                invariant
                    j <= m,
                    m == unique@.len(),
                    out@ + spec_join_lines(views_of(unique@), j as int) == spec_join_lines(
                        views_of(unique@),
                        0,
                    ),
                decreases m - j,
            {
                if j > 0 {
                    out.append("\n");
                }
                out.append(unique[j].as_str());
                proof {
                    reveal_strlit("\n");
                    assert(("\n")@ =~= seq!['\n']);
                    assert(views_of(unique@)[j as int] == unique@[j as int]@);
                    assert(out@ + spec_join_lines(views_of(unique@), j + 1) =~= spec_join_lines(
                        views_of(unique@),
                        0,
                    ));
                }
                j = j + 1;
            }
            proof {
                assert(out@ + spec_join_lines(views_of(unique@), m as int) =~= out@);
            }
            Output::Str(out)
        }
    }
}

/// The views of a run of strings.
pub open spec fn views_of(s: Seq<String>) -> Seq<Seq<char>> {
    Seq::new(s.len(), |i: int| s[i]@)
}

/// Sorts labels lexicographically by repeated insertion.
fn sort_strs(v: Vec<String>) -> (r: Vec<String>)
    ensures
        views_of(r@) == spec_sorted_strs(views_of(v@)),
{
    let ghost orig = v@;
    let mut v = v;
    let n0 = v.len();
    let mut out: Vec<String> = Vec::new();
    proof {
        assert(views_of(out@) =~= spec_sorted_strs(views_of(orig.take(0))));
        assert(v@ == orig.skip(0));
    }
    let mut done: usize = 0;
    #[verifier::loop_isolation(false)]
    while v.len() > 0
        invariant
            orig.len() == n0,
            done <= orig.len(),
            done + v@.len() == orig.len(),
            v@ == orig.skip(done as int),
            views_of(out@) == spec_sorted_strs(views_of(orig.take(done as int))),
        decreases v@.len(),
    {
        let e = v.remove(0);
        proof {
            assert(e == orig[done as int]);
            assert(v@ =~= orig.skip(done as int + 1));
        }
        let mut p: usize = 0;
        #[verifier::loop_isolation(false)]
        while p < out.len() && str_le_exec(out[p].as_str(), e.as_str())
            invariant
                p <= out@.len(),
                forall|x: int| 0 <= x < p ==> str_le((#[trigger] out@[x])@, e@),
            decreases out@.len() - p + 1,
        {
            p = p + 1;
        }
        let ghost before = out@;
        out.insert(p, e);
        proof {
            lemma_str_sort_pos_at(views_of(before), orig[done as int]@, p as int);
            assert(views_of(orig.take(done + 1)).drop_last() =~= views_of(
                orig.take(done as int),
            ));
            assert(views_of(orig.take(done + 1)).last() == orig[done as int]@);
            assert(views_of(out@) =~= views_of(before).take(p as int) + seq![
                orig[done as int]@,
            ] + views_of(before).skip(p as int));
            assert(views_of(out@) =~= spec_sorted_strs(views_of(orig.take(done + 1))));
        }
        done = done + 1;
    }
    proof {
        assert(orig.take(done as int) =~= orig);
        assert(views_of(orig.take(done as int)) =~= views_of(orig));
    }
    out
}

proof fn lemma_str_sort_pos_at(s: Seq<Seq<char>>, x: Seq<char>, p: int)
    requires
        0 <= p <= s.len(),
        forall|i: int| 0 <= i < p ==> str_le(#[trigger] s[i], x),
        p < s.len() ==> !str_le(s[p], x),
    ensures
        str_sort_pos(s, x) == p,
    decreases s.len(),
{
    if s.len() > 0 && p > 0 {
        let t = s.skip(1);
        assert forall|i: int| 0 <= i < p - 1 implies str_le(#[trigger] t[i], x) by {
            assert(t[i] == s[i + 1]);
        }
        if p - 1 < t.len() {
            assert(t[p - 1] == s[p]);
        }
        lemma_str_sort_pos_at(t, x, p - 1);
    }
}

/// Collapses adjacent duplicates.
fn dedup_strs(v: Vec<String>) -> (r: Vec<String>)
    ensures
        views_of(r@) == spec_dedup(views_of(v@)),
{
    let mut r: Vec<String> = Vec::new();
    let n = v.len();
    let mut i: usize = 0;
    proof {
        assert(views_of(r@) =~= spec_dedup(views_of(v@.take(0))));
    }
    #[verifier::loop_isolation(false)]
    while i < n
        invariant
            i <= n,
            views_of(r@) == spec_dedup(views_of(v@.take(i as int))),
        decreases n - i,
    {
        proof {
            assert(views_of(v@.take(i as int + 1)).drop_last() =~= views_of(v@.take(i as int)));
            assert(views_of(v@.take(i as int + 1)).last() == v@[i as int]@);
            if i > 0 {
                assert(views_of(v@.take(i as int + 1))[i - 1] == v@[i - 1]@);
            }
        }
        let dup = i > 0 && v[i - 1].eq(&v[i]);
        if !dup {
            let ghost before = r@;
            r.push(v[i].clone());
            proof {
                assert(views_of(r@) =~= views_of(before).push(v@[i as int]@));
            }
        }
        i = i + 1;
    }
    proof {
        assert(v@.take(n as int) =~= v@);
        assert(views_of(v@.take(n as int)) =~= views_of(v@));
    }
    r
}

/// A transaction amount argument: `+`/`-`-prefixed amounts are signed as
/// written; bare amounts take the configured default sign.
pub enum CentsArg {
    Signed(Cents),
    Unsigned(Cents),
}

impl CentsArg {
    /// The cents value the argument stands for.
    pub fn to_cents(&self, unsigned_is_negative: bool) -> (r: Cents)
        requires
            self matches CentsArg::Unsigned(x) ==> x.0 != i64::MIN,
        ensures
            r.0 == match *self {
                CentsArg::Signed(x) => x.0 as int,
                CentsArg::Unsigned(x) => {
                    let a = if x.0 < 0 {
                        -(x.0 as int)
                    } else {
                        x.0 as int
                    };
                    if unsigned_is_negative {
                        -a
                    } else {
                        a
                    }
                },
            },
    {
        match self {
            CentsArg::Signed(x) => *x,
            CentsArg::Unsigned(x) => {
                let a = x.abs();
                if unsigned_is_negative {
                    Cents(-a.0)
                } else {
                    a
                }
            },
        }
    }

    /// Reads an amount argument: the sign prefix decides whether it is
    /// taken as signed.
    pub fn parse(s: &str) -> (r: Option<CentsArg>)
        ensures
            match r {
                Some(a) => {
                    &&& crate::cents::spec_parse_cents(s@) matches Some(v)
                    &&& (a matches CentsArg::Signed(x) ==> x.0 == v && s@.len() > 0 && (s@[0]
                        == '+' || s@[0] == '-'))
                    &&& (a matches CentsArg::Unsigned(x) ==> x.0 == v && s@.len() > 0 && s@[0]
                        != '+' && s@[0] != '-')
                },
                None => crate::cents::spec_parse_cents(s@) is None || s@.len() == 0,
            },
    {
        let cents = match Cents::parse(s) {
            Some(c) => c,
            None => {
                return None;
            },
        };
        let cs = chars_of(s);
        if cs.len() == 0 {
            return None;
        }
        let signed = cs[0] == '+' || cs[0] == '-';
        if signed {
            Some(CentsArg::Signed(cents))
        } else {
            Some(CentsArg::Unsigned(cents))
        }
    }
}

/// Log a transaction.
pub struct Log {
    pub category: crate::category::Category,
    pub amount: CentsArg,
    pub date: Date,
    pub note: String,
    pub create: bool,
}

/// The run of records dated `d`, as the day views show it.
pub open spec fn day_slice(s: Seq<Record>, d: Date) -> Seq<Record> {
    s.subrange(
        crate::recordlist::first_ge_idx(s, d),
        crate::recordlist::first_gt_idx(s, d),
    )
}

/// What logging promises: on success, the written list is the old one with
/// exactly the given record inserted after its date's run, and the output
/// shows that day's records; it fails exactly when the category is new and
/// creating it was not asked for.
pub open spec fn log_post(
    cmd: Log,
    rl: Recordlist,
    config: Config,
    r: Result<Effects, Error>,
) -> bool {
    match r {
        Ok(eff) => {
            &&& (cmd.create || exists|k: int|
                0 <= k < rl.0@.len() && (#[trigger] rl.0@[k]).category.0@ == cmd.category.0@)
            &&& eff.write_rl matches Some(w) && w.wf() && w.0@ == spec_insert(
                rl.0@,
                w.0@[crate::recordlist::first_gt_idx(rl.0@, cmd.date) as int],
            ) && ({
                let inserted = w.0@[crate::recordlist::first_gt_idx(rl.0@, cmd.date) as int];
                &&& inserted.date == cmd.date
                &&& inserted.category.0@ == cmd.category.0@
                &&& inserted.amount.0 == match cmd.amount {
                    CentsArg::Signed(x) => x.0 as int,
                    CentsArg::Unsigned(x) => {
                        let a = if x.0 < 0 {
                            -(x.0 as int)
                        } else {
                            x.0 as int
                        };
                        if config.unsigned_is_negative {
                            -a
                        } else {
                            a
                        }
                    },
                }
                &&& inserted.note@ == cmd.note@
            }) && (eff.output matches Output::TreeForView(c) && c.marker is None
                && c.first_iid == config.first_index_in_date && c.rl.wf() && c.rl.0@
                == day_slice(w.0@, cmd.date) && charset_matches(
                c.charset,
                config.use_unicode_symbols,
                config.use_colored_output,
            ))
            &&& output_wf(eff.output)
            &&& eff.write_limits is None
            &&& eff.write_config is None
        },
        Err(e) => {
            &&& e == Error::NonexistentCategory
            &&& !cmd.create
            &&& !exists|k: int|
                0 <= k < rl.0@.len() && (#[trigger] rl.0@[k]).category.0@ == cmd.category.0@
        },
    }
}

impl Log {
    /// Inserts the record, unless its category is new and creating it was
    /// not asked for; shows the day's transactions afterwards.
    pub fn run(&self, rl: Recordlist, config: &Config) -> (r: Result<Effects, Error>)
        requires
            rl.wf(),
            self.date.wf(),
            crate::recordlist::recs_wf(rl.0@),
            crate::recordlist::dates_wf(rl.0@),
            config.first_index_in_date + rl.0@.len() + 1 <= u64::MAX,
            match self.amount {
                CentsArg::Signed(x) => x.0 != i64::MIN,
                CentsArg::Unsigned(x) => x.0 != i64::MIN,
            },
        ensures
            log_post(*self, rl, *config, r),
    {
        if !self.create {
            let mut found = false;
            let n = rl.0.len();
            let mut k: usize = 0;
            #[verifier::loop_isolation(false)]
            while k < n && !found
                invariant
                    k <= n,
                    found ==> exists|x: int|
                        0 <= x < rl.0@.len() && (#[trigger] rl.0@[x]).category.0@
                            == self.category.0@,
                    !found ==> forall|x: int|
                        0 <= x < k ==> (#[trigger] rl.0@[x]).category.0@ != self.category.0@,
                decreases n - k + if found {
                    0int
                } else {
                    1int
                },
            {
                if rl.0[k].category.eq(&self.category) {
                    found = true;
                } else {
                    k = k + 1;
                }
            }
            if !found {
                return Err(Error::NonexistentCategory);
            }
        }
        let rec = Record::new(
            self.date,
            self.category.clone(),
            self.amount.to_cents(config.unsigned_is_negative),
            self.note.clone(),
        );
        let ghost rec_g = rec;
        let mut updated = rl;
        updated.insert(rec);
        proof {
            crate::recordlist::lemma_first_gt_char(rl.0@, self.date);
            let p = crate::recordlist::first_gt_idx(rl.0@, self.date);
            assert forall|x: int| 0 <= x < updated.0@.len() implies (
            #[trigger] updated.0@[x]).wf() && updated.0@[x].date.wf() by {
                assert(updated.0@ == rl.0@.take(p) + seq![rec_g] + rl.0@.skip(p));
                if x < p {
                    assert(updated.0@[x] == rl.0@[x]);
                } else if x == p {
                    assert(updated.0@[x] == rec_g);
                } else {
                    assert(updated.0@[x] == rl.0@[x - 1]);
                }
            }
        }
        let day = Interval { start: self.date, end: self.date };
        let shown = Recordlist(updated.slice_spanning_interval(day));
        proof {
            crate::recordlist::lemma_first_ge_char(updated.0@, self.date);
            crate::recordlist::lemma_first_gt_char(updated.0@, self.date);
            assert(!day.spec_is_empty());
            let lo = crate::recordlist::first_ge_idx(updated.0@, self.date);
            let hi = crate::recordlist::first_gt_idx(updated.0@, self.date);
            if hi < lo {
                assert(updated.0@[hi].date.spec_lt(self.date));
                assert(!updated.0@[hi].date.spec_le(self.date));
                assert(false);
            }
            assert(shown.0@ == updated.0@.subrange(lo, hi));
            assert forall|x: int| 0 <= x < shown.0@.len() implies (
            #[trigger] shown.0@[x]).wf() && shown.0@[x].date.wf() by {
                assert(shown.0@[x] == updated.0@[lo + x]);
            }
        }
        Ok(
            Effects {
                output: Output::TreeForView(
                    forview::Config {
                        charset: charset_from_config(config),
                        first_iid: config.first_index_in_date,
                        rl: shown,
                        marker: None,
                    },
                ),
                write_rl: Some(updated),
                write_limits: None,
                write_config: None,
            },
        )
    }
}

/// Log the transactions of a predefined template.
pub struct Logt {
    pub template: Option<String>,
    pub date: Date,
}

/// Index of the first template with this name; the length if none has it.
pub open spec fn template_idx(
    ts: Seq<(String, Vec<crate::config::TemplateEntry>)>,
    name: Seq<char>,
) -> int
    decreases ts.len(),
{
    if ts.len() == 0 {
        0
    } else if ts[0].0@ == name {
        0
    } else {
        1 + template_idx(ts.skip(1), name)
    }
}

proof fn lemma_template_idx_at(
    ts: Seq<(String, Vec<crate::config::TemplateEntry>)>,
    name: Seq<char>,
    p: int,
)
    requires
        0 <= p <= ts.len(),
        forall|x: int| 0 <= x < p ==> (#[trigger] ts[x]).0@ != name,
        p < ts.len() ==> ts[p].0@ == name,
    ensures
        template_idx(ts, name) == p,
    decreases ts.len(),
{
    if ts.len() > 0 && p > 0 {
        let t = ts.skip(1);
        assert forall|x: int| 0 <= x < p - 1 implies (#[trigger] t[x]).0@ != name by {
            assert(t[x] == ts[x + 1]);
        }
        if p - 1 < t.len() {
            assert(t[p - 1] == ts[p]);
        }
        lemma_template_idx_at(t, name, p - 1);
    }
}

/// What template logging promises: with no template named, the listing of
/// all templates and nothing written; with one named, the written list is
/// the old one with that template's records inserted into its date's run,
/// and the output shows that day; it fails exactly on an unknown name.
pub open spec fn logt_post(
    cmd: Logt,
    rl: Recordlist,
    config: Config,
    r: Result<Effects, Error>,
) -> bool {
    match r {
        Ok(eff) => {
            &&& (cmd.template is None ==> ({
                &&& eff.output matches Output::TreeForLogt(c) && c.templates@.len()
                    == config.templates@.len() && (forall|k: int|
                    0 <= k < c.templates@.len() ==> (#[trigger] c.templates@[k]).0@
                        == config.templates@[k].0@ && c.templates@[k].1@
                        == config.templates@[k].1@) && charset_matches(
                    c.charset,
                    config.use_unicode_symbols,
                    config.use_colored_output,
                )
                &&& eff.write_rl is None
                &&& output_wf(eff.output)
            }))
            &&& (cmd.template matches Some(name) ==> ({
                let idx = template_idx(config.templates@, name@);
                let es = config.templates@[idx].1@;
                let p = crate::recordlist::first_gt_idx(rl.0@, cmd.date);
                &&& idx < config.templates@.len()
                &&& eff.write_rl matches Some(w) && w.wf() && w.0@.len() == rl.0@.len()
                    + es.len() && (forall|j: int|
                    0 <= j < p ==> #[trigger] w.0@[j] == rl.0@[j]) && (forall|j: int|
                    p <= j < p + es.len() ==> (#[trigger] w.0@[j]).date == cmd.date
                        && w.0@[j].category.0@ == es[j - p].category.0@ && w.0@[j].amount
                        == es[j - p].amount && w.0@[j].note@ == Seq::<char>::empty()) && (
                forall|j: int|
                    p + es.len() <= j < w.0@.len() ==> #[trigger] w.0@[j] == rl.0@[j - es.len()])
                    && (eff.output matches Output::TreeForView(c) && c.marker is None
                    && c.first_iid == config.first_index_in_date && c.rl.wf() && c.rl.0@
                    == day_slice(w.0@, cmd.date) && charset_matches(
                    c.charset,
                    config.use_unicode_symbols,
                    config.use_colored_output,
                ))
                &&& output_wf(eff.output)
            }))
            &&& eff.write_limits is None
            &&& eff.write_config is None
        },
        Err(e) => {
            &&& e == Error::UnknownTemplate
            &&& cmd.template matches Some(name) && template_idx(config.templates@, name@)
                == config.templates@.len()
        },
    }
}

impl Logt {
    /// With no template named, lists the templates; otherwise inserts the
    /// named template's records, failing on an unknown name.
    pub fn run(&self, rl: Recordlist, config: &Config) -> (r: Result<Effects, Error>)
        requires
            rl.wf(),
            self.date.wf(),
            crate::recordlist::recs_wf(rl.0@),
            crate::recordlist::dates_wf(rl.0@),
            forlogt::logt_entries_ok(config.templates@),
            forall|k: int|
                0 <= k < config.templates@.len() ==> config.first_index_in_date + rl.0@.len() + (
                #[trigger] config.templates@[k]).1@.len() <= u64::MAX,
        ensures
            logt_post(*self, rl, *config, r),
    {
        let tmpl_name = match &self.template {
            None => {
                let mut templates: Vec<(String, Vec<crate::config::TemplateEntry>)> = Vec::new();
                let n = config.templates.len();
                let mut i: usize = 0;
                #[verifier::loop_isolation(false)]
                while i < n
                    invariant
                        i <= n,
                        templates@.len() == i,
                        forall|k: int|
                            0 <= k < i ==> (#[trigger] templates@[k]).0@ == config.templates@[
                            k].0@ && templates@[k].1@ == config.templates@[k].1@,
                    decreases n - i,
                {
                    let name = config.templates[i].0.clone();
                    let mut entries: Vec<crate::config::TemplateEntry> = Vec::new();
                    let m = config.templates[i].1.len();
                    let mut j: usize = 0;
                    #[verifier::loop_isolation(false)]
                    while j < m
                        invariant
                            j <= m,
                            i < n,
                            entries@.len() == j,
                            name == config.templates@[i as int].0,
                            forall|k: int|
                                0 <= k < j ==> #[trigger] entries@[k] == config.templates@[
                                i as int].1@[k],
                        decreases m - j,
                    {
                        entries.push(config.templates[i].1[j].clone());
                        j = j + 1;
                    }
                    proof {
                        assert(entries@ =~= config.templates@[i as int].1@);
                    }
                    templates.push((name, entries));
                    i = i + 1;
                }
                return Ok(
                    Effects {
                        output: Output::TreeForLogt(
                            forlogt::Config { charset: charset_from_config(config), templates },
                        ),
                        write_rl: None,
                        write_limits: None,
                        write_config: None,
                    },
                );
            },
            Some(name) => name,
        };
        // find the template by name
        let n = config.templates.len();
        let mut idx: usize = 0;
        let mut found = false;
        #[verifier::loop_isolation(false)]
        while idx < n && !found
            invariant
                idx <= n,
                found ==> idx < n && config.templates@[idx as int].0@ == tmpl_name@,
                forall|x: int|
                    0 <= x < idx ==> (#[trigger] config.templates@[x]).0@ != tmpl_name@,
            decreases n - idx + if found {
                0int
            } else {
                1int
            },
        {
            if config.templates[idx].0.eq(tmpl_name) {
                found = true;
            } else {
                idx = idx + 1;
            }
        }
        if !found {
            proof {
                lemma_template_idx_at(config.templates@, tmpl_name@, idx as int);
            }
            return Err(Error::UnknownTemplate);
        }
        proof {
            lemma_template_idx_at(config.templates@, tmpl_name@, idx as int);
            crate::recordlist::lemma_first_gt_char(rl.0@, self.date);
        }
        let ghost p = crate::recordlist::first_gt_idx(rl.0@, self.date);
        let ghost es = config.templates@[idx as int].1@;
        let mut updated = rl;
        let m = config.templates[idx].1.len();
        let mut j: usize = 0;
        #[verifier::loop_isolation(false)]
        while j < m
            invariant
                j <= m,
                idx < config.templates@.len(),
                updated.wf(),
                updated.0@.len() == rl.0@.len() + j,
                crate::recordlist::first_gt_idx(updated.0@, self.date) == p + j,
                crate::recordlist::recs_wf(updated.0@),
                crate::recordlist::dates_wf(updated.0@),
                forall|x: int| 0 <= x < p ==> #[trigger] updated.0@[x] == rl.0@[x],
                forall|x: int|
                    p <= x < p + j ==> (#[trigger] updated.0@[x]).date == self.date
                        && updated.0@[x].category.0@ == es[x - p].category.0@
                        && updated.0@[x].amount == es[x - p].amount && updated.0@[x].note@
                        == Seq::<char>::empty(),
                forall|x: int|
                    p + j <= x < updated.0@.len() ==> #[trigger] updated.0@[x] == rl.0@[x - j],
            decreases m - j,
        {
            let ghost before = updated.0@;
            proof {
                crate::recordlist::lemma_first_gt_char(before, self.date);
            }
            let entry = &config.templates[idx].1[j];
            let rec = Record::new(self.date, entry.category.clone(), entry.amount, String::new());
            updated.insert(rec);
            proof {
                let q = p + j;
                assert(updated.0@ =~= before.take(q) + seq![rec] + before.skip(q));
                assert forall|x: int| 0 <= x < q + 1 implies (
                #[trigger] updated.0@[x]).date.spec_le(self.date) by {
                    if x < q {
                        assert(updated.0@[x] == before[x]);
                    } else {
                        assert(updated.0@[x] == rec);
                    }
                }
                assert forall|x: int| q + 1 <= x < updated.0@.len() implies !(
                #[trigger] updated.0@[x]).date.spec_le(self.date) by {
                    assert(updated.0@[x] == before[x - 1]);
                }
                crate::recordlist::lemma_first_gt_from_partition(
                    updated.0@,
                    self.date,
                    q + 1,
                );
                assert(rec.wf()) by {
                    assert(config.templates@[idx as int].1@[j as int].amount.0 > i64::MIN);
                }
                assert forall|x: int| 0 <= x < updated.0@.len() implies (
                #[trigger] updated.0@[x]).wf() && updated.0@[x].date.wf() by {
                    if x < q {
                        assert(updated.0@[x] == before[x]);
                    } else if x == q {
                        assert(updated.0@[x] == rec);
                    } else {
                        assert(updated.0@[x] == before[x - 1]);
                    }
                }
            }
            j = j + 1;
        }
        let day = Interval { start: self.date, end: self.date };
        let shown = Recordlist(updated.slice_spanning_interval(day));
        proof {
            crate::recordlist::lemma_first_ge_char(updated.0@, self.date);
            crate::recordlist::lemma_first_gt_char(updated.0@, self.date);
            assert(!day.spec_is_empty());
            let lo = crate::recordlist::first_ge_idx(updated.0@, self.date);
            let hi = crate::recordlist::first_gt_idx(updated.0@, self.date);
            if hi < lo {
                assert(updated.0@[hi].date.spec_lt(self.date));
                assert(!updated.0@[hi].date.spec_le(self.date));
                assert(false);
            }
            assert(shown.0@ == updated.0@.subrange(lo, hi));
            assert forall|x: int| 0 <= x < shown.0@.len() implies (
            #[trigger] shown.0@[x]).wf() && shown.0@[x].date.wf() by {
                assert(shown.0@[x] == updated.0@[lo + x]);
            }
            assert(config.first_index_in_date + rl.0@.len() + config.templates@[
                idx as int].1@.len() <= u64::MAX);
        }
        Ok(
            Effects {
                output: Output::TreeForView(
                    forview::Config {
                        charset: charset_from_config(config),
                        first_iid: config.first_index_in_date,
                        rl: shown,
                        marker: None,
                    },
                ),
                write_rl: Some(updated),
                write_limits: None,
                write_config: None,
            },
        )
    }
}

/// Remove a transaction by date and index-in-date.
pub struct Rm {
    pub date: Date,
    pub index: usize,
    pub confirm: bool,
}

/// What removal promises: the target must exist under the configured
/// ordinal origin; confirming writes the list with exactly that record
/// removed, previewing writes nothing; either way the output shows the
/// day's records with the target's slot marked by the matching text.
pub open spec fn rm_post(
    cmd: Rm,
    rl: Recordlist,
    config: Config,
    r: Result<Effects, Error>,
) -> bool {
    match r {
        Ok(eff) => {
            &&& cmd.index >= config.first_index_in_date
            &&& spec_get(rl.0@, cmd.date, cmd.index - config.first_index_in_date) is Some
            &&& (cmd.confirm ==> (eff.write_rl matches Some(w) && w.wf() && w.0@
                == rl.0@.remove(
                crate::recordlist::first_ge_idx(rl.0@, cmd.date) + (cmd.index
                    - config.first_index_in_date),
            )))
            &&& (!cmd.confirm ==> eff.write_rl is None)
            &&& eff.output matches Output::TreeForView(c) && c.marker matches Some(m) && m.date
                == cmd.date && m.iid0 == cmd.index - config.first_index_in_date && m.marker@
                == (if cmd.confirm {
                (" <- [REMOVED]")@
            } else {
                (" <- [WOULD BE REMOVED]")@
            }) && c.first_iid == config.first_index_in_date && c.rl.wf() && c.rl.0@
                == day_slice(rl.0@, cmd.date) && charset_matches(
                c.charset,
                config.use_unicode_symbols,
                config.use_colored_output,
            )
            &&& output_wf(eff.output)
            &&& eff.write_limits is None
            &&& eff.write_config is None
        },
        Err(e) => {
            &&& e == Error::NonexistentTransaction
            &&& (cmd.index < config.first_index_in_date || spec_get(
                rl.0@,
                cmd.date,
                cmd.index - config.first_index_in_date,
            ) is None)
        },
    }
}

impl Rm {
    /// Removes, or with `confirm` off merely previews, the record at the
    /// given slot, showing that date's transactions with the target marked.
    pub fn run(&self, rl: Recordlist, config: &Config) -> (r: Result<Effects, Error>)
        requires
            rl.wf(),
            crate::recordlist::recs_wf(rl.0@),
            crate::recordlist::dates_wf(rl.0@),
            config.first_index_in_date + rl.0@.len() <= u64::MAX,
        ensures
            rm_post(*self, rl, *config, r),
    {
        if self.index < config.first_index_in_date {
            return Err(Error::NonexistentTransaction);
        }
        let iid0 = self.index - config.first_index_in_date;
        match rl.get(self.date, iid0) {
            Some(_) => {},
            None => {
                return Err(Error::NonexistentTransaction);
            },
        }
        let day = Interval { start: self.date, end: self.date };
        let shown = Recordlist(rl.slice_spanning_interval(day));
        proof {
            crate::recordlist::lemma_first_ge_char(rl.0@, self.date);
            crate::recordlist::lemma_first_gt_char(rl.0@, self.date);
            assert(!day.spec_is_empty());
            let lo = crate::recordlist::first_ge_idx(rl.0@, self.date);
            let hi = crate::recordlist::first_gt_idx(rl.0@, self.date);
            if hi < lo {
                assert(rl.0@[hi].date.spec_lt(self.date));
                assert(!rl.0@[hi].date.spec_le(self.date));
                assert(false);
            }
            assert(shown.0@ == rl.0@.subrange(lo, hi));
            assert forall|x: int| 0 <= x < shown.0@.len() implies (
            #[trigger] shown.0@[x]).wf() && shown.0@[x].date.wf() by {
                assert(shown.0@[x] == rl.0@[lo + x]);
            }
        }
        let marker_text: &'static str = if self.confirm {
            " <- [REMOVED]"
        } else {
            " <- [WOULD BE REMOVED]"
        };
        let marker = MarkDecorator {
            date: self.date,
            iid0,
            marker: String::from_str(marker_text),
        };
        let write_rl = if self.confirm {
            let mut updated = rl;
            let removed = updated.remove(self.date, iid0);
            proof {
                assert(removed is Some);
            }
            Some(updated)
        } else {
            None
        };
        Ok(
            Effects {
                output: Output::TreeForView(
                    forview::Config {
                        charset: charset_from_config(config),
                        first_iid: config.first_index_in_date,
                        rl: shown,
                        marker: Some(marker),
                    },
                ),
                write_rl,
                write_limits: None,
                write_config: None,
            },
        )
    }
}

/// A year argument: a bare number, or `y`/`Y` with an optional signed
/// offset from this year.
pub open spec fn spec_parse_year(s: Seq<char>, today: Date) -> Option<int> {
    if s.len() == 0 {
        None
    } else if s[0] == 'y' || s[0] == 'Y' {
        if s.len() == 1 {
            Some(today.spec_year())
        } else {
            match spec_parse_i32(s.skip(1)) {
                Some(off) => {
                    let y = today.spec_year() + off;
                    if 0 <= y <= 9999 {
                        Some(y)
                    } else {
                        None
                    }
                },
                None => None,
            }
        }
    } else {
        match spec_parse_i32(s) {
            Some(y) => if 0 <= y <= 9999 {
                Some(y)
            } else {
                None
            },
            None => None,
        }
    }
}

/// Reads a year argument, relative years anchored at `today`.
pub fn parse_year(s: &str, today: Date) -> (r: Option<u16>)
    requires
        today.wf(),
    ensures
        match r {
            Some(y) => spec_parse_year(s@, today) == Some(y as int),
            None => spec_parse_year(s@, today) is None,
        },
{
    let cs = chars_of(s);
    if cs.len() == 0 {
        return None;
    }
    if cs[0] == 'y' || cs[0] == 'Y' {
        if cs.len() == 1 {
            return Some(today.year());
        }
        let off = match crate::text::parse_i32_from(&cs, 1) {
            Some(o) => o,
            None => {
                return None;
            },
        };
        let y: i64 = today.year() as i64 + off as i64;
        if 0 <= y && y <= 9999 {
            Some(y as u16)
        } else {
            None
        }
    } else {
        proof {
            assert(cs@.skip(0) =~= s@);
        }
        let y = match crate::text::parse_i32_from(&cs, 0) {
            Some(o) => o,
            None => {
                return None;
            },
        };
        if 0 <= y && y <= 9999 {
            Some(y as u16)
        } else {
            None
        }
    }
}

/// Manage and view contribution limits.
pub struct Lim {
    pub year: u16,
    pub set: Option<Cents>,
    pub view: Option<Limitkind>,
}

/// Applies a limit change: a non-zero amount sets the year's limit, a zero
/// removes it, and removing an absent limit changes nothing.
pub fn update_limits(limits: Limits, year: u16, amount: Cents) -> (r: (
    Limits,
    Output,
    bool,
))
    requires
        limits.wf(),
        amount.0 != i64::MIN,
    ensures
        r.0.wf(),
        amount.0 != 0 ==> r.0.spec_map() == limits.spec_map().insert(year, amount.0 as int)
            && r.2,
        amount.0 == 0 && limits.spec_map().contains_key(year) ==> r.0.spec_map()
            == limits.spec_map().remove(year) && r.2,
        amount.0 == 0 && !limits.spec_map().contains_key(year) ==> r.0.spec_map()
            == limits.spec_map() && !r.2,
        r.1 matches Output::Str(s) && s@ == digits_seq(year as nat) + (if amount.0 != 0 {
            (" limit set to ")@ + crate::cents::cents_text(amount.0 as int)
        } else if limits.spec_map().contains_key(year) {
            (" limit removed.")@
        } else {
            (" has no limit.")@
        }),
{
    let mut limits = limits;
    if amount.0 != 0 {
        limits.set(year, amount);
        let mut msg = digits_string(year as u64);
        msg.append(" limit set to ");
        let a = amount.render();
        msg.append(a.as_str());
        proof {
            crate::limits::lemma_limits_map_props(limits.0@);
        }
        (limits, Output::Str(msg), true)
    } else {
        proof {
            crate::limits::lemma_limits_map_props(limits.0@);
        }
        let removed = limits.remove(year);
        match removed {
            Some(_) => {
                let mut msg = digits_string(year as u64);
                msg.append(" limit removed.");
                (limits, Output::Str(msg), true)
            },
            None => {
                let mut msg = digits_string(year as u64);
                msg.append(" has no limit.");
                (limits, Output::Str(msg), false)
            },
        }
    }
}

/// The account kind a view resolves to: the one asked for, or the
/// configured default.
pub open spec fn lim_kind(cmd: Lim, config: Config) -> Limitkind {
    if cmd.view is Some {
        cmd.view->Some_0
    } else {
        config.lim_account_type->Some_0
    }
}

/// What the limits command promises: a set applies `update_limits` — the
/// upsert or removal, its message, a write-back exactly when something
/// changed; a view lays out the room report for the year over the given
/// ledger under the chosen or configured account kind; it fails exactly
/// when no account kind is named anywhere.
pub open spec fn lim_post(
    cmd: Lim,
    rl: Recordlist,
    config: Config,
    limits: Limits,
    r: Result<Effects, Error>,
) -> bool {
    match r {
        Ok(eff) => {
            &&& (cmd.set matches Some(a) ==> ({
                &&& (a.0 != 0 ==> (eff.write_limits matches Some(w) && w.wf() && w.spec_map()
                    == limits.spec_map().insert(cmd.year, a.0 as int)))
                &&& (a.0 == 0 && limits.spec_map().contains_key(cmd.year) ==> (
                eff.write_limits matches Some(w) && w.wf() && w.spec_map()
                    == limits.spec_map().remove(cmd.year)))
                &&& (a.0 == 0 && !limits.spec_map().contains_key(cmd.year)
                    ==> eff.write_limits is None)
                &&& eff.output matches Output::Str(s) && s@ == digits_seq(cmd.year as nat) + (
                if a.0 != 0 {
                    (" limit set to ")@ + crate::cents::cents_text(a.0 as int)
                } else if limits.spec_map().contains_key(cmd.year) {
                    (" limit removed.")@
                } else {
                    (" has no limit.")@
                })
            }))
            &&& (cmd.set is None ==> ({
                &&& (cmd.view is Some || config.lim_account_type is Some)
                &&& eff.output matches Output::Limitprinter(c) && c.year == cmd.year && c.kind
                    == lim_kind(cmd, config) && c.limits == limits && c.rl == rl
                    && charset_matches(
                    c.charset,
                    config.use_unicode_symbols,
                    config.use_colored_output,
                )
                &&& eff.write_limits is None
            }))
            &&& output_wf(eff.output)
            &&& eff.write_rl is None
            &&& eff.write_config is None
        },
        Err(e) => {
            &&& e == Error::NoDefaultAccountType
            &&& cmd.set is None
            &&& cmd.view is None
            &&& config.lim_account_type is None
        },
    }
}

impl Lim {
    /// Sets or removes a limit, or lays out the room report for the year
    /// under the chosen or configured account kind.
    pub fn run(&self, rl: Recordlist, config: &Config, limits: Limits) -> (r: Result<
        Effects,
        Error,
    >)
        requires
            rl.wf(),
            limits.wf(),
            self.set matches Some(a) ==> a.0 != i64::MIN,
            self.set is None && (self.view is Some || config.lim_account_type is Some) ==> ({
                &&& crate::recordlist::recs_wf(rl.0@)
                &&& (forall|k: int|
                    0 <= k < limits.0@.len() ==> (#[trigger] limits.0@[k]).1.0 > i64::MIN)
                &&& i64::MIN < crate::limits::spec_inception(limits.0@, self.year as int)
                    <= i64::MAX
                &&& crate::limitkind::spec_contributions(rl.0@, self.year as int) <= i64::MAX
                &&& crate::limitkind::spec_withdrawals_before(rl.0@, self.year as int)
                    <= i64::MAX
                &&& i64::MIN < crate::limitkind::spec_remaining(
                    lim_kind(*self, *config),
                    limits.0@,
                    rl.0@,
                    self.year as int,
                ) <= i64::MAX
            }),
        ensures
            lim_post(*self, rl, *config, limits, r),
    {
        if let Some(amount) = self.set {
            let (updated, output, changed) = update_limits(limits, self.year, amount);
            return Ok(
                Effects {
                    output,
                    write_rl: None,
                    write_limits: if changed {
                        Some(updated)
                    } else {
                        None
                    },
                    write_config: None,
                },
            );
        }
        let kind = match self.view {
            Some(k) => k,
            None => match config.lim_account_type {
                Some(k) => k,
                None => {
                    return Err(Error::NoDefaultAccountType);
                },
            },
        };
        Ok(
            Effects {
                output: Output::Limitprinter(
                    crate::limitprinter::Config {
                        charset: charset_from_config(config),
                        year: self.year,
                        kind,
                        limits,
                        rl,
                    },
                ),
                write_rl: None,
                write_limits: None,
                write_config: None,
            },
        )
    }
}

impl Lim {
    /// Whether the room report's sums stay inside the machine range: the
    /// test a caller runs before `run` when viewing, discharging `run`'s
    /// representability demands.
    pub fn inputs_ok(&self, rl: &Recordlist, config: &Config, limits: &Limits) -> (r: bool)
        requires
            rl.wf(),
            limits.wf(),
            crate::recordlist::recs_wf(rl.0@),
        ensures
            r == (self.set is None && (self.view is Some || config.lim_account_type is Some)
                ==> ({
                &&& (forall|k: int|
                    0 <= k < limits.0@.len() ==> (#[trigger] limits.0@[k]).1.0 > i64::MIN)
                &&& i64::MIN < crate::limits::spec_inception(limits.0@, self.year as int)
                    <= i64::MAX
                &&& crate::limitkind::spec_contributions(rl.0@, self.year as int) <= i64::MAX
                &&& crate::limitkind::spec_withdrawals_before(rl.0@, self.year as int)
                    <= i64::MAX
                &&& i64::MIN < crate::limitkind::spec_remaining(
                    lim_kind(*self, *config),
                    limits.0@,
                    rl.0@,
                    self.year as int,
                ) <= i64::MAX
            })),
    {
        if self.set.is_some() {
            return true;
        }
        let kind = match self.view {
            Some(k) => k,
            None => match config.lim_account_type {
                Some(k) => k,
                None => {
                    return true;
                },
            },
        };
        let year = self.year;
        let ghost ls = limits.0@;
        let ghost s = rl.0@;
        // every limit must be renderable
        let n = limits.0.len();
        let mut k: usize = 0;
        #[verifier::loop_isolation(false)]
        while k < n
            invariant
                k <= n,
                forall|x: int| 0 <= x < k ==> (#[trigger] ls[x]).1.0 > i64::MIN,
            decreases n - k,
        {
            if limits.0[k].1.0 == i64::MIN {
                return false;
            }
            k = k + 1;
        }
        // accumulated room at the year, outside the machine range or not
        proof {
            crate::limits::lemma_limits_len_bound(ls);
        }
        let mut inc: i128 = 0;
        let mut k: usize = 0;
        #[verifier::loop_isolation(false)]
        while k < n
            invariant
                k <= n,
                inc == crate::limits::spec_inception(ls.take(k as int), year as int),
                -0x8000_0000_0000_0000_0000i128 <= inc <= 0x8000_0000_0000_0000_0000i128,
            decreases n - k,
        {
            proof {
                assert(ls.take(k as int + 1).drop_last() =~= ls.take(k as int));
                assert(ls.take(k as int + 1).last() == ls[k as int]);
                assert(k + 1 <= 65536);
                crate::limits::lemma_inception_bound(ls.take(k as int), year as int);
            }
            if limits.0[k].0 <= year {
                inc = inc + limits.0[k].1.0 as i128;
            }
            k = k + 1;
        }
        proof {
            assert(ls.take(n as int) =~= ls);
        }
        if !((i64::MIN as i128) < inc && inc <= (i64::MAX as i128)) {
            return false;
        }
        // contributions that consume room
        let m = rl.0.len();
        let mut consumed: i64 = 0;
        let mut k: usize = 0;
        #[verifier::loop_isolation(false)]
        while k < m
            invariant
                k <= m,
                consumed == crate::limitkind::spec_contributions(s.take(k as int), year as int),
                consumed >= 0,
            decreases m - k,
        {
            proof {
                assert(s.take(k as int + 1).drop_last() =~= s.take(k as int));
                assert(s.take(k as int + 1).last() == s[k as int]);
                crate::limitkind::lemma_contributions_prefix_le(s, year as int, k as int + 1);
                crate::limitkind::lemma_contributions_nonneg(s.take(k as int), year as int);
            }
            let rec = &rl.0[k];
            if rec.date.year() <= year && rec.amount.0 > 0 {
                if rec.amount.0 > i64::MAX - consumed {
                    // the contributions already exceed the range
                    return false;
                }
                consumed = consumed + rec.amount.0;
            }
            k = k + 1;
        }
        proof {
            assert(s.take(m as int) =~= s);
        }
        // withdrawals whose room is restored
        let mut back: i64 = 0;
        let mut k: usize = 0;
        #[verifier::loop_isolation(false)]
        while k < m
            invariant
                k <= m,
                back == crate::limitkind::spec_withdrawals_before(s.take(k as int), year as int),
                back >= 0,
            decreases m - k,
        {
            proof {
                assert(s.take(k as int + 1).drop_last() =~= s.take(k as int));
                assert(s.take(k as int + 1).last() == s[k as int]);
                crate::limitkind::lemma_withdrawals_prefix_le(s, year as int, k as int + 1);
                crate::limitkind::lemma_withdrawals_nonneg(s.take(k as int), year as int);
                assert(s[k as int].wf());
            }
            let rec = &rl.0[k];
            if rec.date.year() < year && rec.amount.0 < 0 {
                if -rec.amount.0 > i64::MAX - back {
                    return false;
                }
                back = back + (-rec.amount.0);
            }
            k = k + 1;
        }
        proof {
            assert(s.take(m as int) =~= s);
        }
        let rem: i128 = inc - consumed as i128 + (match kind {
            Limitkind::Rrsp => 0,
            Limitkind::Tfsa => back as i128,
        });
        (i64::MIN as i128) < rem && rem <= (i64::MAX as i128)
    }
}

/// Initialize the repository in the working directory.
pub struct Init {
    pub reset_config: bool,
}

/// The fields a fresh configuration starts from.
pub open spec fn initial_config_fields(c: Config) -> bool {
    &&& c.first_index_in_date == 1
    &&& c.lim_account_type is None
    &&& !c.unsigned_is_negative
    &&& c.use_colored_output
    &&& c.use_unicode_symbols
    &&& c.templates@.len() == 0
}

/// What initialization promises: the written configuration is the initial
/// one, except that reinitializing an existing repository without a reset
/// keeps its configuration; the message says which of the three happened.
pub open spec fn init_post(
    cmd: Init,
    already_repo: bool,
    existing: Option<Config>,
    dir_text: Seq<char>,
    r: Effects,
) -> bool {
    &&& r.write_config matches Some(w) && (if cmd.reset_config || !already_repo {
        initial_config_fields(w)
    } else {
        match existing {
            Some(c) => w == c,
            None => initial_config_fields(w),
        }
    })
    &&& r.output matches Output::Str(s) && s@ == (if !already_repo {
        ("Repository initialized in '")@ + dir_text + ("'")@
    } else if cmd.reset_config {
        ("Repository configuration reset to defaults.")@
    } else {
        ("Repository reinitialized in '")@ + dir_text + ("'")@
    })
    &&& output_wf(r.output)
    &&& r.write_rl is None
    &&& r.write_limits is None
}

impl Init {
    /// Writes the initial configuration, keeping an existing repository's
    /// one unless a reset was asked for, and says what happened;
    /// `dir_text` names the directory in the message.
    pub fn run(&self, already_repo: bool, existing: Option<Config>, dir_text: &str) -> (r:
        Effects)
        ensures
            init_post(*self, already_repo, existing, dir_text@, r),
    {
        let config = if self.reset_config || !already_repo {
            Config::initial()
        } else {
            match existing {
                Some(c) => c,
                None => Config::initial(),
            }
        };
        let mut msg = String::new();
        if !already_repo {
            msg.append("Repository initialized in '");
            msg.append(dir_text);
            msg.append("'");
        } else if self.reset_config {
            msg.append("Repository configuration reset to defaults.");
        } else {
            msg.append("Repository reinitialized in '");
            msg.append(dir_text);
            msg.append("'");
        }
        Effects {
            output: Output::Str(msg),
            write_rl: None,
            write_limits: None,
            write_config: Some(config),
        }
    }
}

/// One invocation's subcommand.
pub enum Command {
    Init(Init),
    Log(Log),
    Logt(Logt),
    Rm(Rm),
    View(ViewCmd),
    Cats(Cats),
    Sum(Sum),
    Plot(Plot),
    Lim(Lim),
}

/// What the storage layer hands the dispatcher: whether a repository
/// exists, its data, and the ambient facts commands need.
pub struct RepoData {
    pub is_repo: bool,
    pub config: Config,
    pub rl: Recordlist,
    pub limits: Limits,
    pub today: Date,
    pub term_width: usize,
    pub dir_text: String,
}

/// The dispatcher.
pub struct Root {
    pub command: Command,
}

impl Root {
    /// Runs the command against the repository: initialization works
    /// anywhere, everything else insists on a repository first.
    pub fn run(self, data: RepoData) -> (r: Result<Effects, Error>)
        requires
            data.rl.wf(),
            data.limits.wf(),
            data.today.wf(),
            crate::recordlist::recs_wf(data.rl.0@),
            crate::recordlist::dates_wf(data.rl.0@),
            self.command matches Command::View(_) ==> data.config.first_index_in_date
                + data.rl.0@.len() <= u64::MAX,
            self.command matches Command::Sum(c) ==> c.interval.wf() && forsum::sum_inputs_ok(
                data.rl.0@,
            ) && forsum::sum_pos(data.rl.0@) <= i64::MAX && i64::MIN < forsum::sum_neg(
                data.rl.0@,
            ),
            self.command matches Command::Log(c) ==> c.date.wf()
                && data.config.first_index_in_date + data.rl.0@.len() + 1 <= u64::MAX && match c
                .amount {
                CentsArg::Signed(x) => x.0 != i64::MIN,
                CentsArg::Unsigned(x) => x.0 != i64::MIN,
            },
            self.command matches Command::Logt(c) ==> c.date.wf()
                && crate::forlogt::logt_entries_ok(data.config.templates@) && (forall|k: int|
                0 <= k < data.config.templates@.len() ==> data.config.first_index_in_date
                    + data.rl.0@.len() + (#[trigger] data.config.templates@[k]).1@.len()
                    <= u64::MAX),
            self.command matches Command::Rm(_) ==> data.config.first_index_in_date
                + data.rl.0@.len() <= u64::MAX,
            self.command matches Command::Lim(c) ==> (c.set matches Some(a) ==> a.0 != i64::MIN)
                && (c.set is None && (c.view is Some || data.config.lim_account_type is Some)
                ==> ({
                &&& (forall|k: int|
                    0 <= k < data.limits.0@.len() ==> (#[trigger] data.limits.0@[k]).1.0
                        > i64::MIN)
                &&& i64::MIN < crate::limits::spec_inception(data.limits.0@, c.year as int)
                    <= i64::MAX
                &&& crate::limitkind::spec_contributions(data.rl.0@, c.year as int) <= i64::MAX
                &&& crate::limitkind::spec_withdrawals_before(data.rl.0@, c.year as int)
                    <= i64::MAX
                &&& i64::MIN < crate::limitkind::spec_remaining(
                    lim_kind(c, data.config),
                    data.limits.0@,
                    data.rl.0@,
                    c.year as int,
                ) <= i64::MAX
            })),
            self.command matches Command::Plot(c) ==> data.term_width <= 65535
                && forsum::sum_pos(data.rl.0@) < i64::MAX && i64::MIN < forsum::sum_neg(
                data.rl.0@,
            ) && (c.interval matches Some(iv) ==> iv.wf()) && (c.interval is None
                ==> crate::interval::spec_parse_interval(
                spec_default_window(c.unit),
                data.today,
            ) is Ok),
        ensures
            !data.is_repo && !(self.command is Init) ==> r == Result::<Effects, Error>::Err(
                Error::NotARepository,
            ),
            self.command matches Command::Init(c) ==> (r matches Ok(eff) && init_post(
                c,
                data.is_repo,
                Some(data.config),
                data.dir_text@,
                eff,
            )),
            data.is_repo ==> match self.command {
                Command::Init(_) => true,
                Command::Log(c) => log_post(c, data.rl, data.config, r),
                Command::Logt(c) => logt_post(c, data.rl, data.config, r),
                Command::Rm(c) => rm_post(c, data.rl, data.config, r),
                Command::View(c) => r matches Ok(eff) && view_post(
                    c,
                    data.rl,
                    data.config,
                    eff.output,
                ) && eff.write_rl is None && eff.write_limits is None
                    && eff.write_config is None,
                Command::Cats(c) => r matches Ok(eff) && cats_post(c, data.rl, eff.output)
                    && eff.write_rl is None && eff.write_limits is None
                    && eff.write_config is None,
                Command::Sum(c) => r matches Ok(eff) && sum_post(
                    c,
                    data.rl,
                    data.config,
                    eff.output,
                ) && eff.write_rl is None && eff.write_limits is None
                    && eff.write_config is None,
                Command::Plot(c) => r matches Ok(eff) && plot_post(
                    c,
                    data.rl,
                    data.config,
                    data.term_width,
                    data.today,
                    eff.output,
                ) && eff.write_rl is None && eff.write_limits is None
                    && eff.write_config is None,
                Command::Lim(c) => lim_post(c, data.rl, data.config, data.limits, r),
            },
    {
        if let Command::Init(cmd) = self.command {
            return Ok(cmd.run(data.is_repo, Some(data.config), data.dir_text.as_str()));
        }
        if !data.is_repo {
            return Err(Error::NotARepository);
        }
        match self.command {
            Command::Init(_) => Err(Error::NotARepository),
            Command::Log(cmd) => cmd.run(data.rl, &data.config),
            Command::Logt(cmd) => cmd.run(data.rl, &data.config),
            Command::Rm(cmd) => cmd.run(data.rl, &data.config),
            Command::View(cmd) => Ok(
                Effects {
                    output: cmd.run(data.rl, &data.config),
                    write_rl: None,
                    write_limits: None,
                    write_config: None,
                },
            ),
            Command::Cats(cmd) => Ok(
                Effects {
                    output: cmd.run(data.rl),
                    write_rl: None,
                    write_limits: None,
                    write_config: None,
                },
            ),
            Command::Sum(cmd) => Ok(
                Effects {
                    output: cmd.run(data.rl, &data.config),
                    write_rl: None,
                    write_limits: None,
                    write_config: None,
                },
            ),
            Command::Plot(cmd) => Ok(
                Effects {
                    output: cmd.run(data.rl, &data.config, data.term_width, data.today),
                    write_rl: None,
                    write_limits: None,
                    write_config: None,
                },
            ),
            Command::Lim(cmd) => cmd.run(data.rl, &data.config, data.limits),
        }
    }
}

} // verus!
