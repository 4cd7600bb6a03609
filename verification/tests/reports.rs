use ledger::barchart;
use ledger::category::Category;
use ledger::cents::Cents;
use ledger::charset::Charset;
use ledger::cmds;
use ledger::cmdutil;
use ledger::config::Config;
use ledger::config::TemplateEntry;
use ledger::date::Date;
use ledger::datepart::Datepart;
use ledger::forlogt;
use ledger::forsum;
use ledger::forview;
use ledger::forview::LeafDecorator;
use ledger::interval::Interval;
use ledger::limitkind::Limitkind;
use ledger::limitprinter;
use ledger::limits::Limits;
use ledger::output::Output;
use ledger::record::Record;
use ledger::recordlist::Recordlist;
use ledger::tree::Node;
use ledger::tree::Tree;

fn d(y: u16, m: u16, day: u16) -> Date {
    Date::from_ymd(y, m, day).unwrap()
}

fn rec(date: Date, cat: &str, amount: i64) -> Record {
    Record::new(date, Category::parse(cat).unwrap(), Cents(amount), String::new())
}

fn rec_note(date: Date, cat: &str, amount: i64, note: &str) -> Record {
    Record::new(date, Category::parse(cat).unwrap(), Cents(amount), String::from(note))
}

fn node(data: &str) -> Node {
    Node::new(String::from(data))
}

#[test]
fn tree_test_to_string() {
    let mut tr = Tree { root: node(""), charset: Charset::ascii() };
    assert_eq!(tr.render(), "");

    let mut a = node("a");
    let mut a1 = node("a1");
    a1.children.push(node("a1a"));
    a1.children.push(node("a1b"));
    let mut a2 = node("a2");
    a2.children.push(node("a2a"));
    a2.children.push(node("a2b"));
    a2.children.push(node("a2c"));
    a.children.push(a1);
    a.children.push(a2);
    tr.root.children.push(a);
    tr.root.children.push(node("b"));
    let mut c = node("c");
    c.children.push(node("c1"));
    c.children.push(node("c2"));
    let mut c3 = node("c3");
    c3.children.push(node("c3a"));
    c3.children.push(node("c3b"));
    c3.children.push(node("c3c"));
    c.children.push(c3);
    tr.root.children.push(c);

    let want = "a\n\
                |-- a1\n\
                |   |-- a1a\n\
                |   `-- a1b\n\
                `-- a2\n\
                \x20   |-- a2a\n\
                \x20   |-- a2b\n\
                \x20   `-- a2c\n\
                b\n\
                c\n\
                |-- c1\n\
                |-- c2\n\
                `-- c3\n\
                \x20   |-- c3a\n\
                \x20   |-- c3b\n\
                \x20   `-- c3c\n";
    assert_eq!(tr.render(), want);
}

fn forview_records() -> Vec<Record> {
    vec![
        rec(d(0, 1, 31), "aaa", 0),
        rec(d(2015, 3, 30), "b", 1),
        rec(d(2015, 3, 30), "bb", 1),
        rec(d(2015, 3, 30), "bbb", 1),
        rec(d(2015, 3, 30), "bbbb", 1),
        rec(d(2015, 3, 30), "bbbbb", 1),
        rec(d(2015, 3, 30), "bbbbb", -1),
        rec(d(2015, 3, 30), "bbbb", -1),
        rec(d(2015, 3, 30), "bbb", -1),
        rec(d(2015, 3, 30), "bb", -1),
        rec(d(2015, 3, 30), "b", -123456789),
        rec(d(2015, 3, 31), "ccc", 123456),
    ]
}

#[test]
fn forview_to_tree() {
    let config = forview::Config {
        charset: Charset::ascii(),
        first_iid: 100,
        rl: Recordlist::from_records(vec![rec(d(0, 1, 31), "aaa", 0)]),
        marker: None,
    };
    let want = "0000\n\
                `-- Jan\n\
                \x20   `-- 31st\n\
                \x20       `-- 100 -- 0.00  aaa\n";
    assert_eq!(config.to_tree().render(), want);
}

#[test]
fn forview_alignment() {
    let mut records = forview_records();
    records.push(rec_note(d(2015, 5, 20), "ddd", 123456, "some note"));
    let config = forview::Config {
        charset: Charset::ascii(),
        first_iid: 1,
        rl: Recordlist::from_records(records),
        marker: None,
    };
    let got = config.to_tree().render();
    assert!(got.contains("`-- 1 ------------ 0.00  aaa\n"), "{}", got);
    assert!(got.contains("|-- 6 ----------- (0.01) bbbbb\n"), "{}", got);
    assert!(got.contains("`-- 10 -- (1,234,567.89) b\n"), "{}", got);
    assert!(got.contains("`-- 1 -------- 1,234.56  ddd: some note\n"), "{}", got);
}

struct CyclingDecorator;

impl LeafDecorator for CyclingDecorator {
    fn decorate(&self, _r: &Record, iid0: usize, mut base: String) -> String {
        match iid0 % 3 {
            0 => base.insert_str(0, "[0]"),
            1 => base.push_str("[1]"),
            _ => {},
        }
        base
    }
}

#[test]
fn test_leaf_string_postprocessor() {
    let config = forview::Config {
        charset: Charset::ascii(),
        first_iid: 1,
        rl: Recordlist::from_records(forview_records()),
        marker: None,
    };
    let tr = config.to_tree_with(&CyclingDecorator);
    let want = "0000\n\
                `-- Jan\n\
                \x20   `-- 31st\n\
                \x20       `-- [0]1 ------------ 0.00  aaa\n\
                2015\n\
                `-- Mar\n\
                \x20   |-- 30th\n\
                \x20   |   |-- [0]1 ------------ 0.01  b\n\
                \x20   |   |-- 2 ------------ 0.01  bb[1]\n\
                \x20   |   |-- 3 ------------ 0.01  bbb\n\
                \x20   |   |-- [0]4 ------------ 0.01  bbbb\n\
                \x20   |   |-- 5 ------------ 0.01  bbbbb[1]\n\
                \x20   |   |-- 6 ----------- (0.01) bbbbb\n\
                \x20   |   |-- [0]7 ----------- (0.01) bbbb\n\
                \x20   |   |-- 8 ----------- (0.01) bbb[1]\n\
                \x20   |   |-- 9 ----------- (0.01) bb\n\
                \x20   |   `-- [0]10 -- (1,234,567.89) b\n\
                \x20   `-- 31st\n\
                \x20       `-- [0]1 -------- 1,234.56  ccc\n";
    assert_eq!(tr.render(), want);
}

#[test]
fn forsum_to_tree() {
    let empty = forsum::Config {
        charset: Charset::ascii(),
        level: 0,
        rl: Recordlist::new(),
    };
    let want = "Net\n\
                |-- In ----- 0.00\n\
                |-- Out ---- 0.00\n\
                `-- Total -- 0.00\n";
    assert_eq!(empty.to_tree().render(), want);

    let config = forsum::Config {
        charset: Charset::ascii(),
        level: 1,
        rl: Recordlist::from_records(vec![
            rec(d(2015, 3, 30), "a/b/c", 111),
            rec(d(2015, 3, 30), "a/b/c", 111),
        ]),
    };
    let want = "In\n\
                `-- a ------ 2.22\n\
                Net\n\
                |-- In ----- 2.22\n\
                |-- Out ---- 0.00\n\
                `-- Total -- 2.22\n";
    assert_eq!(config.to_tree().render(), want);

    let config = forsum::Config {
        charset: Charset::ascii(),
        level: 100,
        rl: Recordlist::from_records(vec![
            rec(d(2015, 3, 30), "a/b/c", 111),
            rec(d(2015, 3, 30), "a/b/c/d/e", -12345),
        ]),
    };
    let want = "In\n\
                `-- a/b/c --------- 1.11\n\
                Out\n\
                `-- a/b/c/d/e -- (123.45)\n\
                Net\n\
                |-- In ------------ 1.11\n\
                |-- Out -------- (123.45)\n\
                `-- Total ------ (122.34)\n";
    assert_eq!(config.to_tree().render(), want);

    // descending magnitude, ties by label
    let config = forsum::Config {
        charset: Charset::ascii(),
        level: 100,
        rl: Recordlist::from_records(vec![
            rec(d(2015, 3, 29), "bbb", -111),
            rec(d(2015, 3, 30), "aaa", -111),
            rec(d(2015, 3, 30), "ccc", -12345),
        ]),
    };
    let want = "Out\n\
                |-- ccc ---- (123.45)\n\
                |-- aaa ------ (1.11)\n\
                `-- bbb ------ (1.11)\n\
                Net\n\
                |-- In -------- 0.00\n\
                |-- Out ---- (125.67)\n\
                `-- Total -- (125.67)\n";
    assert_eq!(config.to_tree().render(), want);
}

#[test]
fn forlogt_to_tree() {
    let config = forlogt::Config { charset: Charset::ascii(), templates: Vec::new() };
    assert_eq!(config.to_tree().render(), "");

    let config = forlogt::Config {
        charset: Charset::ascii(),
        templates: vec![
            (
                String::from("Template2"),
                vec![],
            ),
            (
                String::from("template1"),
                vec![
                    TemplateEntry {
                        category: Category::parse("category1").unwrap(),
                        amount: Cents(123),
                    },
                    TemplateEntry {
                        category: Category::parse("Category2").unwrap(),
                        amount: Cents(-123),
                    },
                ],
            ),
        ],
    };
    let want = "Template2\n\
                template1\n\
                |-- category1 --- 1.23\n\
                `-- Category2 -- (1.23)\n";
    assert_eq!(config.to_tree().render(), want);
}

fn chart_records() -> Vec<Record> {
    vec![
        rec(d(2015, 3, 30), "aaa", 10000),
        rec(d(2015, 3, 30), "aaa", 5000),
        rec(d(2015, 3, 30), "aaa", -5000),
        rec(d(2015, 3, 30), "aaa", -2000),
        rec(d(2015, 3, 31), "aaa", 2000),
        rec(d(2015, 4, 29), "aaa", -2000),
        rec(d(2015, 5, 2), "aaa", -2000),
        rec(d(2015, 5, 5), "aaa", 2000),
        rec(d(2015, 5, 6), "aaa", 2000),
    ]
}

#[test]
fn barchart_render() {
    let today = d(2015, 3, 30);
    let chart = |bounds: &str, unit: Datepart| -> String {
        let config = barchart::Config {
            charset: Charset::ascii(),
            bounds: Interval::parse(bounds, today).unwrap(),
            unit,
            term_width: 80,
            rl: Recordlist::from_records(chart_records()),
        };
        config.to_barchart().render()
    };
    assert_eq!(chart("0000-01-01:2010-12-31", Datepart::Day), "");
    assert_eq!(
        chart("2015-03-30", Datepart::Day),
        "2015-03-30 |+++++++++++++++++++++++++++++++++++++++++++++++++++++++++++ 150.00\n\
         \x20          |---------------------------- (70.00)\n",
    );
    assert_eq!(
        chart("2015-03-30", Datepart::Year),
        "2015 |+++++++++++++++++++++++++++++++++++++++++++++++++++++++++++++++++ 150.00\n\
         \x20    |------------------------------ (70.00)\n",
    );
    assert_eq!(
        chart("2015-04-29:2015-05-02", Datepart::Day),
        "2015-04-29 |------------------------------------------------------------ (20.00)\n\
         2015-04-30 |0.00\n\
         2015-05-01 |0.00\n\
         2015-05-02 |------------------------------------------------------------ (20.00)\n",
    );
    assert_eq!(
        chart(":", Datepart::Month),
        "2015 Mar |+++++++++++++++++++++++++++++++++++++++++++++++++++++++++++++ 170.00\n\
         \x20        |------------------------- (70.00)\n\
         2015 Apr |0.00\n\
         \x20        |------- (20.00)\n\
         2015 May |++++++++++++++ 40.00\n\
         \x20        |------- (20.00)\n",
    );
}

#[test]
fn limitprinter_render() {
    let print = |year: u16, kind: Limitkind, limits: Limits, rl: Recordlist| -> String {
        let config = limitprinter::Config { charset: Charset::ascii(), year, kind, limits, rl };
        config.to_limitprinter().render()
    };
    assert_eq!(
        print(2015, Limitkind::Rrsp, Limits::new(), Recordlist::new()),
        "Total ------ 0.00\nRemaining -- 0.00\n",
    );
    assert_eq!(
        print(
            2015,
            Limitkind::Rrsp,
            Limits::new(),
            Recordlist::from_records(vec![rec(d(2015, 3, 30), "aaa", 100000)]),
        ),
        "Total ----------- 0.00\nRemaining -- (1,000.00)\n",
    );
    assert_eq!(
        print(
            2015,
            Limitkind::Tfsa,
            Limits::new(),
            Recordlist::from_records(vec![rec(d(2014, 3, 30), "aaa", -100000)]),
        ),
        "Total ---------- 0.00\nRemaining -- 1,000.00\n",
    );
    let mut limits = Limits::new();
    limits.set(40, Cents(100000));
    limits.set(2013, Cents(200000));
    limits.set(2014, Cents(50000000));
    assert_eq!(
        print(
            2015,
            Limitkind::Rrsp,
            limits,
            Recordlist::from_records(vec![rec(d(35, 3, 30), "aaa", 50300500)]),
        ),
        "0040 ----- 1,000.00\n\
         2013 ----- 2,000.00\n\
         2014 --- 500,000.00\n\
         ===================\n\
         Total -- 503,000.00\n\
         Remaining --- (5.00)\n",
    );
}

#[test]
fn output_empty_sentinels() {
    // empty view and chart inputs render the sentinel, not an error
    let view = Output::TreeForView(forview::Config {
        charset: Charset::ascii(),
        first_iid: 0,
        rl: Recordlist::new(),
        marker: None,
    });
    assert_eq!(view.render(), "No transactions.\n");
    let chart = Output::Barchart(barchart::Config {
        charset: Charset::ascii(),
        bounds: Interval::max_interval(),
        unit: Datepart::Year,
        term_width: 80,
        rl: Recordlist::new(),
    });
    assert_eq!(chart.render(), "No transactions.\n");
}

#[test]
fn output_render() {
    assert_eq!(Output::Str(String::from("asdf")).render(), "asdf\n");
    assert_eq!(Output::Str(String::from("asdf\n")).render(), "asdf\n");
    let view = Output::TreeForView(forview::Config {
        charset: Charset::ascii(),
        first_iid: 0,
        rl: Recordlist::from_records(vec![rec_note(d(0, 1, 1), "abc", 111, "note")]),
        marker: None,
    });
    let want = "0000\n\
                `-- Jan\n\
                \x20   `-- 1st\n\
                \x20       `-- 0 -- 1.11  abc: note\n";
    assert_eq!(view.render(), want);
    let chart = Output::Barchart(barchart::Config {
        charset: Charset::ascii(),
        bounds: Interval::max_interval(),
        unit: Datepart::Year,
        term_width: 80,
        rl: Recordlist::from_records(vec![rec_note(d(0, 1, 1), "abc", 111, "note")]),
    });
    assert_eq!(
        chart.render(),
        "0000 |+++++++++++++++++++++++++++++++++++++++++++++++++++++++++++++++++++ 1.11\n",
    );
}

#[test]
fn filter_and_preprocess() {
    let rl = Recordlist::from_records(vec![
        rec(d(2015, 3, 1), "aaa", 10000),
        rec(d(2015, 3, 30), "aaa", 10000),
        rec(d(2015, 3, 31), "bbb", 5000),
        rec(d(2015, 4, 15), "ccc", -2000),
        rec(d(2015, 4, 29), "aaa", -2000),
        rec(d(2015, 5, 2), "bbb", -2000),
        rec(d(2015, 5, 5), "ccc", 2000),
        rec(d(2015, 5, 20), "aaa", 2000),
    ]);
    let today = d(2015, 3, 30);
    let incl = cmdutil::preprocess_categories(
        &vec![String::from("*b*"), String::from("c*")],
        true,
    );
    let excl = cmdutil::preprocess_categories(&vec![String::from("*a")], true);
    let got = cmdutil::filter_rl(
        &rl,
        Interval::parse("2015-03-30:2015-05-10", today).unwrap(),
        &incl,
        &excl,
    );
    let cats: Vec<(&str, i64)> = got.iter().iter().map(|r| (r.category.0.as_str(), r.amount.0))
        .collect();
    assert_eq!(cats, vec![("bbb", 5000), ("ccc", -2000), ("bbb", -2000), ("ccc", 2000)]);

    // a pattern that fails wildcard matching keeps nothing: the matcher is
    // really consulted
    let none = cmdutil::filter_rl(
        &rl,
        Interval::max_interval(),
        &vec![String::from("zzz*")],
        &vec![],
    );
    assert!(none.is_empty());

    let widened = cmdutil::preprocess_categories(
        &vec![String::from("1"), String::from(""), String::from("2*"), String::from("**3*3")],
        false,
    );
    let got: Vec<&str> = widened.iter().map(|s| s.as_str()).collect();
    assert_eq!(got, vec!["*1*", "", "*2*", "**3*3*"]);
}

#[test]
fn wildcard_semantics() {
    // one record per candidate text; the filter keeps it exactly when the
    // pattern covers the whole text
    let matches = |pattern: &str, text: &str| -> bool {
        let rl = Recordlist::from_records(vec![rec(d(2015, 1, 1), text, 1)]);
        let kept = cmdutil::filter_rl(
            &rl,
            Interval::max_interval(),
            &vec![String::from(pattern)],
            &vec![],
        );
        !kept.is_empty()
    };
    assert!(matches("cat", "cat"));
    assert!(matches("*cat*", "dog_cat_dog"));
    assert!(matches("c?t", "cat"));
    assert!(matches("c?t", "cot"));
    assert!(!matches("dog", "cat"));
    assert!(!matches("*d", "cat"));
    assert!(!matches("????", "cat"));
    assert!(!matches("?", "cat"));
    assert!(matches("*", "anything"));
    assert!(!matches("?", "xy"));
    assert!(matches("??", "xy"));
    // backtracking over repeated runs
    assert!(matches("*aab", "aaab"));
    assert!(matches("a*b*c", "aXbYbZc"));
    assert!(!matches("a*b*c", "aXbYbZ"));
    assert!(matches("*a*b", "aXbYb"));
    assert!(matches("x**yz", "xAAyz"));
    assert!(!matches("", "x"));
}

#[test]
fn cats_command() {
    let rl = Recordlist::from_records(vec![
        rec(d(2014, 1, 1), "ccc", 100),
        rec(d(2015, 1, 1), "bbb", 100),
        rec(d(2016, 1, 1), "aaa", 100),
    ]);
    let cmd = cmds::Cats { fullmatch: false, category: vec![String::from("*")] };
    match cmd.run(rl) {
        Output::Str(s) => assert_eq!(s, "aaa\nbbb\nccc"),
        _ => panic!("wrong output kind"),
    }
    let cmd = cmds::Cats { fullmatch: false, category: vec![String::from("ddd")] };
    match cmd.run(Recordlist::new()) {
        Output::Str(s) => assert_eq!(s, "No categories."),
        _ => panic!("wrong output kind"),
    }
}

#[test]
fn rm_command_marks_and_removes() {
    let rl = Recordlist::from_records(vec![
        rec_note(d(0, 1, 1), "abc", 111, ""),
        rec_note(d(0, 1, 1), "def", 111, "note"),
    ]);
    let config = Config::initial();
    // first_index_in_date is 1 in the initial configuration
    let cmd = cmds::Rm { date: d(0, 1, 1), index: 2, confirm: true };
    let eff = cmd.run(rl, &config).unwrap();
    let written = eff.write_rl.unwrap();
    assert_eq!(written.len(), 1);
    assert_eq!(written.iter()[0].category.0, "abc");
    let text = eff.output.render();
    assert!(text.contains("def: note <- [REMOVED]"), "{}", text);

    let rl2 = Recordlist::from_records(vec![rec(d(0, 1, 1), "abc", 111)]);
    let cmd = cmds::Rm { date: d(0, 1, 1), index: 5, confirm: true };
    match cmd.run(rl2, &config) {
        Err(e) => assert_eq!(e, cmds::Error::NonexistentTransaction),
        Ok(_) => panic!("expected a lookup error"),
    }
}

#[test]
fn update_limits_messages() {
    let limits = Limits::new();
    let (limits, out, changed) = cmds::update_limits(limits, 2016, Cents(-123));
    assert!(changed);
    match out {
        Output::Str(s) => assert_eq!(s, "2016 limit set to (1.23)"),
        _ => panic!("wrong output kind"),
    }
    let (limits, out, changed) = cmds::update_limits(limits, 2016, Cents(0));
    assert!(changed);
    match out {
        Output::Str(s) => assert_eq!(s, "2016 limit removed."),
        _ => panic!("wrong output kind"),
    }
    let (_, out, changed) = cmds::update_limits(limits, 2015, Cents(0));
    assert!(!changed);
    match out {
        Output::Str(s) => assert_eq!(s, "2015 has no limit."),
        _ => panic!("wrong output kind"),
    }
}

#[test]
fn root_requires_repository() {
    let data = cmds::RepoData {
        is_repo: false,
        config: Config::initial(),
        rl: Recordlist::new(),
        limits: Limits::new(),
        today: d(2015, 3, 30),
        term_width: 80,
        dir_text: String::from("/tmp/ledger"),
    };
    let root = cmds::Root {
        command: cmds::Command::Cats(cmds::Cats { fullmatch: false, category: vec![] }),
    };
    match root.run(data) {
        Err(e) => assert_eq!(e, cmds::Error::NotARepository),
        Ok(_) => panic!("expected a repository error"),
    }
}

#[test]
fn command_error_variants() {
    let config = Config::initial();
    // logging into an unknown category without --create
    let log = cmds::Log {
        category: Category::parse("nope").unwrap(),
        amount: cmds::CentsArg::parse("1.23").unwrap(),
        date: d(2015, 3, 30),
        note: String::new(),
        create: false,
    };
    match log.run(Recordlist::new(), &config) {
        Err(e) => assert_eq!(e, cmds::Error::NonexistentCategory),
        Ok(_) => panic!("expected a category error"),
    }
    // an unknown template
    let logt = cmds::Logt { template: Some(String::from("bad-template")), date: d(2015, 3, 30) };
    match logt.run(Recordlist::new(), &config) {
        Err(e) => assert_eq!(e, cmds::Error::UnknownTemplate),
        Ok(_) => panic!("expected a template error"),
    }
    // no account type named anywhere
    let lim = cmds::Lim { year: 2015, set: None, view: None };
    match lim.run(Recordlist::new(), &config, Limits::new()) {
        Err(e) => assert_eq!(e, cmds::Error::NoDefaultAccountType),
        Ok(_) => panic!("expected an account type error"),
    }
    assert_eq!(cmds::Error::NotARepository.message(), "not a repository");
    assert_eq!(
        cmds::Error::NoDefaultAccountType.message(),
        "no default account type configured",
    );
}

#[test]
fn logt_lists_and_inserts() {
    let mut config = Config::initial();
    config.templates = vec![(
        String::from("some_template"),
        vec![
            TemplateEntry { category: Category::parse("gift").unwrap(), amount: Cents(5000) },
            TemplateEntry {
                category: Category::parse("groceries").unwrap(),
                amount: Cents(-6000),
            },
        ],
    )];
    let logt = cmds::Logt {
        template: Some(String::from("some_template")),
        date: d(2015, 3, 30),
    };
    let eff = logt.run(Recordlist::new(), &config).unwrap();
    let written = eff.write_rl.unwrap();
    assert_eq!(written.len(), 2);
    let cats: Vec<&str> = written.iter().iter().map(|r| r.category.0.as_str()).collect();
    assert_eq!(cats, vec!["gift", "groceries"]);

    let listing = cmds::Logt { template: None, date: d(2015, 3, 30) };
    let eff = listing.run(Recordlist::new(), &config).unwrap();
    assert!(eff.write_rl.is_none());
    let text = eff.output.render();
    assert!(text.contains("some_template"), "{}", text);
    assert!(text.contains("gift"), "{}", text);
    assert!(text.contains("50.00"), "{}", text);
    assert!(text.contains("(60.00)"), "{}", text);
}

#[test]
fn init_messages() {
    let init = cmds::Init { reset_config: false };
    let eff = init.run(false, None, "/tmp/book");
    match eff.output {
        Output::Str(s) => assert_eq!(s, "Repository initialized in '/tmp/book'"),
        _ => panic!("wrong output kind"),
    }
    let written = eff.write_config.unwrap();
    assert_eq!(written.first_index_in_date, 1);
    assert!(written.use_colored_output && written.use_unicode_symbols);

    let init = cmds::Init { reset_config: true };
    let eff = init.run(true, Some(Config::initial()), "/tmp/book");
    match eff.output {
        Output::Str(s) => assert_eq!(s, "Repository configuration reset to defaults."),
        _ => panic!("wrong output kind"),
    }
}

#[test]
fn representability_checkers() {
    // ordinary ledgers pass
    let rl = Recordlist::from_records(vec![
        rec(d(2015, 1, 1), "a", 100),
        rec(d(2015, 1, 2), "b", -200),
    ]);
    assert!(forsum::totals_representable(&rl));
    assert!(forsum::categories_representable(&rl));

    // two near-maximal contributions push the positive total out of range
    let big = Recordlist::from_records(vec![
        rec(d(2015, 1, 1), "a", i64::MAX - 1),
        rec(d(2015, 1, 2), "b", i64::MAX - 1),
    ]);
    assert!(!forsum::totals_representable(&big));
    let deep = Recordlist::from_records(vec![
        rec(d(2015, 1, 1), "a", i64::MIN + 1),
        rec(d(2015, 1, 2), "b", i64::MIN + 1),
    ]);
    assert!(!forsum::totals_representable(&deep));

    // the limits checker accepts ordinary books and rejects overflowing ones
    let mut limits = Limits::new();
    limits.set(2015, Cents(5000));
    let view = cmds::Lim { year: 2015, set: None, view: Some(Limitkind::Tfsa) };
    assert!(view.inputs_ok(&rl, &Config::initial(), &limits));
    let mut top = Limits::new();
    top.set(2014, Cents(i64::MAX - 1));
    top.set(2015, Cents(i64::MAX - 1));
    assert!(!view.inputs_ok(&rl, &Config::initial(), &top));
    // a set never needs the sums
    let set = cmds::Lim { year: 2015, set: Some(Cents(100)), view: None };
    assert!(set.inputs_ok(&rl, &Config::initial(), &top));
}

#[test]
fn year_tokens() {
    let t = d(2015, 3, 30);
    assert_eq!(cmds::parse_year("0", t), Some(0));
    assert_eq!(cmds::parse_year("123", t), Some(123));
    assert_eq!(cmds::parse_year("9999", t), Some(9999));
    assert_eq!(cmds::parse_year("y", t), Some(2015));
    assert_eq!(cmds::parse_year("Y1", t), Some(2016));
    assert_eq!(cmds::parse_year("y+10", t), Some(2025));
    assert_eq!(cmds::parse_year("Y-10", t), Some(2005));
    for bad in ["-1", "10000", "y-9999", "Y+9999", "yy", "a", ""] {
        assert_eq!(cmds::parse_year(bad, t), None, "{}", bad);
    }
}
