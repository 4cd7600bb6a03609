use vstd::prelude::*;
use vstd::string::StrSliceExecFns;
use vstd::string::StringExecFns;

use crate::charset::Charset;
use crate::config::Config;
use crate::interval::Interval;
use crate::record::Record;
use crate::recordlist::sorted_by_date;
use crate::recordlist::Recordlist;

verus! {

/// Whether the wildcard pattern covers the whole of the text: `?` matches
/// exactly one character, `*` any run of them, including none.
pub open spec fn wild_match(pattern: Seq<char>, text: Seq<char>) -> bool
    decreases pattern.len() + text.len(),
{
    if pattern.len() == 0 {
        text.len() == 0
    } else if pattern[0] == '*' {
        wild_match(pattern.skip(1), text) || (text.len() > 0 && wild_match(
            pattern,
            text.skip(1),
        ))
    } else if text.len() == 0 {
        false
    } else {
        (pattern[0] == '?' || pattern[0] == text[0]) && wild_match(
            pattern.skip(1),
            text.skip(1),
        )
    }
}

/// Relies on wildmatch::WildMatch: `new` compiles the pattern and `matches`
/// tests it against the entirety of the text — `?` one character, `*` any
/// run — depending on the pattern and the text alone.
#[verifier::external_body]
fn wild_matches(pattern: &str, text: &str) -> (r: bool)
    ensures
        r == wild_match(pattern@, text@),
{
    wildmatch::WildMatch::new(pattern).matches(text)
}

/// The exact glyph set a configuration selects: the unicode box-drawing
/// forms or the ASCII ones, and the color flag as configured.
pub open spec fn charset_matches(cs: Charset, unicode: bool, color: bool) -> bool {
    &&& cs.color == color
    &&& (unicode ==> {
        &&& cs.dash@ == ("\u{2500}")@
        &&& cs.tree_sideways_t@ == ("\u{251c}\u{2500}\u{2500} ")@
        &&& cs.tree_corner@ == ("\u{2514}\u{2500}\u{2500} ")@
        &&& cs.tree_pipe_gap@ == ("\u{2502}   ")@
        &&& cs.tree_space@ == ("    ")@
        &&& cs.chart_axis@ == ("\u{2502}")@
        &&& cs.chart_bar_pos@ == ("\u{2588}")@
        &&& cs.chart_bar_neg@ == ("\u{2588}")@
    })
    &&& (!unicode ==> {
        &&& cs.dash@ == ("-")@
        &&& cs.tree_sideways_t@ == ("|-- ")@
        &&& cs.tree_corner@ == ("`-- ")@
        &&& cs.tree_pipe_gap@ == ("|   ")@
        &&& cs.tree_space@ == ("    ")@
        &&& cs.chart_axis@ == ("|")@
        &&& cs.chart_bar_pos@ == ("+")@
        &&& cs.chart_bar_neg@ == ("-")@
    })
}

/// The glyphs the configuration asks for.
pub fn charset_from_config(config: &Config) -> (r: Charset)
    ensures
        charset_matches(r, config.use_unicode_symbols, config.use_colored_output),
{
    let mut charset = Charset::ascii();
    if config.use_unicode_symbols {
        charset = charset.with_unicode();
    }
    if config.use_colored_output {
        charset = charset.with_color();
    }
    proof {
        assert(("-")@ =~= seq!['-']) by {
            reveal_strlit("-");
        }
        assert(("+")@ =~= seq!['+']) by {
            reveal_strlit("+");
        }
        assert(("|")@ =~= seq!['|']) by {
            reveal_strlit("|");
        }
    }
    charset
}

/// A category pattern widened for substring matching: anything not already
/// starting and ending with `*` gets one added, empty patterns excepted.
pub open spec fn spec_widen(s: Seq<char>) -> Seq<char> {
    if s.len() == 0 {
        s
    } else {
        (if s[0] == '*' {
            Seq::empty()
        } else {
            seq!['*']
        }) + s + (if s[s.len() - 1] == '*' {
            Seq::empty()
        } else {
            seq!['*']
        })
    }
}

/// If `fullmatch` is off, widens every pattern for substring matching;
/// otherwise leaves them untouched.
pub fn preprocess_categories(categories: &Vec<String>, fullmatch: bool) -> (r: Vec<String>)
    ensures
        r@.len() == categories@.len(),
        forall|k: int|
            0 <= k < r@.len() ==> (#[trigger] r@[k])@ == if fullmatch {
                categories@[k]@
            } else {
                spec_widen(categories@[k]@)
            },
{
    let mut r: Vec<String> = Vec::new();
    let n = categories.len();
    let mut i: usize = 0;
    #[verifier::loop_isolation(false)]
    while i < n
        invariant
            i <= n,
            r@.len() == i,
            forall|k: int|
                0 <= k < i ==> (#[trigger] r@[k])@ == if fullmatch {
                    categories@[k]@
                } else {
                    spec_widen(categories@[k]@)
                },
        decreases n - i,
    {
        let s = &categories[i];
        if fullmatch {
            r.push(s.clone());
        } else {
            let len = s.as_str().unicode_len();
            if len == 0 {
                r.push(s.clone());
                proof {
                    assert(r@[i as int]@ == spec_widen(categories@[i as int]@));
                }
            } else {
                let mut out = String::new();
                if !(s.as_str().get_char(0) == '*') {
                    out.append("*");
                }
                out.append(s.as_str());
                if !(s.as_str().get_char(len - 1) == '*') {
                    out.append("*");
                }
                proof {
                    reveal_strlit("*");
                    assert(("*")@ =~= seq!['*']);
                    assert(out@ =~= spec_widen(categories@[i as int]@));
                }
                r.push(out);
            }
        }
        i = i + 1;
    }
    r
}

/// The views of a run of pattern strings.
pub open spec fn pattern_views(s: Seq<String>) -> Seq<Seq<char>> {
    Seq::new(s.len(), |i: int| s[i]@)
}

/// What preprocessing leaves of a pattern list, viewed: widened unless
/// `fullmatch` is on.
pub open spec fn widened_views(cats: Seq<String>, fullmatch: bool) -> Seq<Seq<char>> {
    Seq::new(
        cats.len(),
        |i: int|
            if fullmatch {
                cats[i]@
            } else {
                spec_widen(cats[i]@)
            },
    )
}

/// Whether a category label passes the include and exclude pattern lists.
pub open spec fn passes(cat: Seq<char>, incl: Seq<Seq<char>>, excl: Seq<Seq<char>>) -> bool {
    &&& exists|p: int| 0 <= p < incl.len() && wild_match(#[trigger] incl[p], cat)
    &&& forall|p: int| 0 <= p < excl.len() ==> !wild_match(#[trigger] excl[p], cat)
}

/// Keeps the records dated within `interval` whose category matches some
/// include pattern and no exclude pattern, in stored order.
pub open spec fn spec_filter(
    s: Seq<Record>,
    incl: Seq<Seq<char>>,
    excl: Seq<Seq<char>>,
) -> Seq<Record>
    decreases s.len(),
{
    if s.len() == 0 {
        Seq::empty()
    } else {
        spec_filter(s.drop_last(), incl, excl) + if passes(s.last().category.0@, incl, excl) {
            seq![s.last()]
        } else {
            Seq::empty()
        }
    }
}

/// Matches one label against every pattern of a list.
fn any_match(patterns: &Vec<String>, cat: &str) -> (r: bool)
    ensures
        r == exists|p: int|
            0 <= p < patterns@.len() && wild_match(#[trigger] pattern_views(patterns@)[p], cat@),
{
    let n = patterns.len();
    let mut i: usize = 0;
    #[verifier::loop_isolation(false)]
    while i < n
        invariant
            i <= n,
            forall|p: int| 0 <= p < i ==> !wild_match(#[trigger] pattern_views(patterns@)[p], cat@),
        decreases n - i,
    {
        if wild_matches(patterns[i].as_str(), cat) {
            proof {
                assert(pattern_views(patterns@)[i as int] == patterns@[i as int]@);
            }
            return true;
        }
        i = i + 1;
    }
    false
}

/// A new record list with the records dated in `interval` whose category
/// matches any include pattern and no exclude pattern; same-date order is
/// kept.
pub fn filter_rl(
    rl: &Recordlist,
    interval: Interval,
    categories: &Vec<String>,
    not_categories: &Vec<String>,
) -> (r: Recordlist)
    requires
        rl.wf(),
    ensures
        r.wf(),
        interval.spec_is_empty() ==> r.0@ == Seq::<Record>::empty(),
        !interval.spec_is_empty() ==> r.0@ == spec_filter(
            rl.0@.subrange(
                crate::recordlist::first_ge_idx(rl.0@, interval.start),
                crate::recordlist::first_gt_idx(rl.0@, interval.end),
            ),
            pattern_views(categories@),
            pattern_views(not_categories@),
        ),
{
    let slice = rl.slice_spanning_interval(interval);
    let ghost sl = slice@;
    let mut out: Vec<Record> = Vec::new();
    let n = slice.len();
    let mut i: usize = 0;
    #[verifier::loop_isolation(false)]
    while i < n
        invariant
            i <= n,
            sl == slice@,
            out@ == spec_filter(
                sl.take(i as int),
                pattern_views(categories@),
                pattern_views(not_categories@),
            ),
        decreases n - i,
    {
        proof {
            assert(sl.take(i as int + 1).drop_last() =~= sl.take(i as int));
            assert(sl.take(i as int + 1).last() == sl[i as int]);
        }
        let keep = any_match(categories, slice[i].category.0.as_str()) && !any_match(
            not_categories,
            slice[i].category.0.as_str(),
        );
        if keep {
            out.push(slice[i].clone());
            proof {
                assert(out@ =~= spec_filter(
                    sl.take(i as int + 1),
                    pattern_views(categories@),
                    pattern_views(not_categories@),
                ));
            }
        } else {
            proof {
                assert(out@ =~= spec_filter(
                    sl.take(i as int + 1),
                    pattern_views(categories@),
                    pattern_views(not_categories@),
                ));
            }
        }
        i = i + 1;
    }
    proof {
        assert(sl.take(n as int) =~= sl);
        lemma_filter_sorted(sl, pattern_views(categories@), pattern_views(not_categories@));
        if interval.spec_is_empty() {
            assert(out@ =~= Seq::<Record>::empty());
        }
    }
    Recordlist(out)
}

/// Filtering keeps the sort order.
proof fn lemma_filter_sorted(s: Seq<Record>, incl: Seq<Seq<char>>, excl: Seq<Seq<char>>)
    requires
        sorted_by_date(s),
    ensures
        sorted_by_date(spec_filter(s, incl, excl)),
        forall|k: int|
            0 <= k < spec_filter(s, incl, excl).len() ==> exists|j: int|
                0 <= j < s.len() && #[trigger] spec_filter(s, incl, excl)[k] == s[j],
    decreases s.len(),
{
    if s.len() > 0 {
        let prev = s.drop_last();
        assert(sorted_by_date(prev)) by {
            assert forall|i: int, j: int|
                #![trigger prev[i], prev[j]]
                0 <= i <= j < prev.len() implies prev[i].date.spec_le(prev[j].date) by {
                assert(prev[i] == s[i] && prev[j] == s[j]);
            }
        }
        lemma_filter_sorted(prev, incl, excl);
        let f = spec_filter(s, incl, excl);
        let fp = spec_filter(prev, incl, excl);
        assert forall|k: int| 0 <= k < f.len() implies exists|j: int|
            0 <= j < s.len() && #[trigger] f[k] == s[j] by {
            if k < fp.len() {
                assert(f[k] == fp[k]);
                let j = choose|j: int| 0 <= j < prev.len() && #[trigger] fp[k] == prev[j];
                assert(f[k] == s[j]);
            } else {
                assert(f[k] == s[s.len() - 1]);
            }
        }
        assert forall|i: int, j: int|
            #![trigger f[i], f[j]]
            0 <= i <= j < f.len() implies f[i].date.spec_le(f[j].date) by {
            let a = choose|x: int| 0 <= x < s.len() && #[trigger] f[i] == s[x];
            if j < fp.len() {
                assert(f[i] == fp[i] && f[j] == fp[j]);
                let b = choose|x: int| 0 <= x < prev.len() && #[trigger] fp[j] == prev[x];
                assert(fp[i] == prev[choose|x: int|
                    0 <= x < prev.len() && #[trigger] fp[i] == prev[x]]);
            } else {
                assert(f[j] == s.last());
                assert(s[a].date.spec_le(s.last().date));
            }
        }
    }
}

} // verus!
