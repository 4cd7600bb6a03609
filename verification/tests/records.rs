use ledger::aggregate::Aggregate;
use ledger::category::Category;
use ledger::cents::Cents;
use ledger::date::Date;
use ledger::interval::Interval;
use ledger::limitkind::Limitkind;
use ledger::limits::Limits;
use ledger::record::Record;
use ledger::recordlist::Recordlist;

fn d(y: u16, m: u16, day: u16) -> Date {
    Date::from_ymd(y, m, day).unwrap()
}

fn rec(date: Date, cat: &str, amount: i64) -> Record {
    Record::new(date, Category::parse(cat).unwrap(), Cents(amount), String::new())
}

#[test]
fn test_aggregate() {
    let mut agg = Aggregate::<String>::new();
    assert!(agg.is_empty());
    assert_eq!(agg.sum(), Cents(0));

    agg.add(String::from("a"), Cents(10));
    agg.add(String::from("b"), Cents(-100));
    assert!(!agg.is_empty());
    assert_eq!(agg.get(&String::from("a")).unwrap(), Cents(10));
    assert_eq!(agg.get(&String::from("b")).unwrap(), Cents(-100));
    assert!(agg.get(&String::from("c")).is_none());
    assert_eq!(agg.sum(), Cents(-90));

    agg.add(String::from("a"), Cents(-3));
    agg.add(String::from("c"), Cents(0));
    assert_eq!(agg.get(&String::from("a")).unwrap(), Cents(7));
    assert_eq!(agg.get(&String::from("b")).unwrap(), Cents(-100));
    assert_eq!(agg.get(&String::from("c")).unwrap(), Cents(0));
    assert_eq!(agg.sum(), Cents(-93));

    let mut vec: Vec<(String, Cents)> = agg.iter();
    vec.sort();
    assert_eq!(
        vec,
        vec![
            (String::from("a"), Cents(7)),
            (String::from("b"), Cents(-100)),
            (String::from("c"), Cents(0)),
        ],
    );

    let mut agg2 = Aggregate::<String>::new();
    for (k, v) in vec {
        agg2.add(k, v);
    }
    assert!(agg.same_entries(&agg2));
}

#[test]
fn limits_test_crud() {
    let mut limits = Limits::new();
    limits.set(2015, Cents(1000));
    limits.set(2016, Cents(0));
    assert_eq!(limits.iter(), vec![(2015, Cents(1000)), (2016, Cents(0))]);
    assert_eq!(limits.inception_to_year(2014), Cents(0));
    assert_eq!(limits.inception_to_year(2015), Cents(1000));
    assert_eq!(limits.inception_to_year(2016), Cents(1000));

    limits.set(2016, Cents(2000));
    limits.set(2014, Cents(3000));
    assert_eq!(
        limits.iter(),
        vec![(2014, Cents(3000)), (2015, Cents(1000)), (2016, Cents(2000))],
    );
    assert_eq!(limits.inception_to_year(2013), Cents(0));
    assert_eq!(limits.inception_to_year(2014), Cents(3000));
    assert_eq!(limits.inception_to_year(2015), Cents(4000));
    assert_eq!(limits.inception_to_year(2016), Cents(6000));
    assert_eq!(limits.inception_to_year(2017), Cents(6000));

    limits.remove(2015);
    assert_eq!(limits.iter(), vec![(2014, Cents(3000)), (2016, Cents(2000))]);
    assert_eq!(limits.inception_to_year(2013), Cents(0));
    assert_eq!(limits.inception_to_year(2014), Cents(3000));
    assert_eq!(limits.inception_to_year(2015), Cents(3000));
    assert_eq!(limits.inception_to_year(2016), Cents(5000));
    assert_eq!(limits.inception_to_year(2017), Cents(5000));
}

#[test]
fn test_sort_on_construction() {
    let rl = Recordlist::from_records(vec![
        rec(d(2015, 3, 30), "aaa", 999),
        rec(d(2014, 3, 30), "bbb", 888),
        rec(d(2016, 3, 30), "ccc", 777),
        rec(d(2013, 3, 30), "ddd", 666),
    ]);
    let want = vec![
        rec(d(2013, 3, 30), "ddd", 666),
        rec(d(2014, 3, 30), "bbb", 888),
        rec(d(2015, 3, 30), "aaa", 999),
        rec(d(2016, 3, 30), "ccc", 777),
    ];
    assert_eq!(rl.0, want);
}

#[test]
fn recordlist_insert_keeps_same_date_order() {
    // a new record of an existing date lands after that date's records
    let mut rl = Recordlist::from_records(vec![
        rec(d(2015, 3, 30), "first", 111),
        rec(d(2015, 3, 30), "second", 111),
        rec(d(2015, 4, 1), "later", 111),
    ]);
    rl.insert(rec(d(2015, 3, 30), "third", 111));
    let cats: Vec<&str> = rl.iter().iter().map(|r| r.category.0.as_str()).collect();
    assert_eq!(cats, vec!["first", "second", "third", "later"]);
}

#[test]
fn recordlist_slice_spanning_interval() {
    let rl = Recordlist::from_records(vec![
        rec(d(0, 1, 31), "aaa", 0),
        rec(d(2015, 3, 30), "b", 1),
        rec(d(2015, 3, 30), "bb", 1),
        rec(d(2015, 3, 31), "ccc", 123456),
        rec(d(2016, 4, 1), "ddd", 123456),
        rec(d(2017, 4, 2), "ddd", 123456),
    ]);
    assert!(rl.slice_spanning_interval(Interval::empty()).is_empty());
    assert_eq!(rl.slice_spanning_interval(Interval::max_interval()).len(), 6);
    let got = rl.slice_spanning_interval(Interval { start: d(2014, 1, 1), end: d(2017, 1, 1) });
    let cats: Vec<&str> = got.iter().map(|r| r.category.0.as_str()).collect();
    assert_eq!(cats, vec!["b", "bb", "ccc", "ddd"]);
}

#[test]
fn recordlist_iter_with_iid() {
    // the ordinal restarts at 0 on every date change
    let rl = Recordlist::from_records(vec![
        rec(d(2015, 3, 1), "abc", 111),
        rec(d(2015, 3, 30), "category", 111),
        rec(d(2015, 3, 30), "category", 111),
        rec(d(2015, 3, 30), "category", 111),
        rec(d(2015, 4, 1), "category", 111),
    ]);
    let iids: Vec<usize> = rl.iter_with_iid().into_iter().map(|(i, _)| i).collect();
    assert_eq!(iids, vec![0, 0, 1, 2, 0]);
}

#[test]
fn recordlist_remove_then_requery() {
    // removing at (date, iid) shifts the next record into that slot
    let mut rl = Recordlist::from_records(vec![
        rec(d(2015, 3, 30), "abc", 111),
        rec(d(2015, 3, 30), "def", 111),
        rec(d(2015, 4, 1), "other", 111),
    ]);
    let removed = rl.remove(d(2015, 3, 30), 0).unwrap();
    assert_eq!(removed.category.0, "abc");
    let shifted = rl.get(d(2015, 3, 30), 0).unwrap();
    assert_eq!(shifted.category.0, "def");
    let removed = rl.remove(d(2015, 3, 30), 0).unwrap();
    assert_eq!(removed.category.0, "def");
    assert!(rl.get(d(2015, 3, 30), 0).is_none());
    assert!(rl.remove(d(2015, 3, 30), 0).is_none());
    assert_eq!(rl.len(), 1);
}

#[test]
fn recordlist_spanned_interval() {
    let empty = Recordlist::new();
    assert!(empty.spanned_interval().is_empty());
    let rl = Recordlist::from_records(vec![
        rec(d(2014, 1, 1), "a", 1),
        rec(d(2016, 2, 2), "b", 2),
    ]);
    let span = rl.spanned_interval();
    assert_eq!((span.start, span.end), (d(2014, 1, 1), d(2016, 2, 2)));
}

#[test]
fn limitkind_remaining() {
    let mut limits = Limits::new();
    for y in [2015u16, 2016, 2017] {
        limits.set(y, Cents(5000));
    }
    let rl = Recordlist::from_records(vec![
        rec(d(2014, 1, 1), "aaa", 1000),
        rec(d(2014, 1, 1), "aaa", 500),
        rec(d(2015, 1, 1), "aaa", 2000),
        rec(d(2015, 1, 1), "aaa", -10000),
        rec(d(2016, 1, 1), "aaa", 3000),
        rec(d(2017, 1, 1), "aaa", 10000),
        rec(d(2018, 1, 1), "aaa", 4000),
    ]);
    assert_eq!(Limitkind::Rrsp.remaining(&limits, &rl, 2015), Cents(5000 - 1000 - 500 - 2000));
    assert_eq!(Limitkind::Tfsa.remaining(&limits, &rl, 2015), Cents(5000 - 1000 - 500 - 2000));
    assert_eq!(
        Limitkind::Rrsp.remaining(&limits, &rl, 2016),
        Cents(5000 + 5000 - 1000 - 500 - 2000 - 3000),
    );
    assert_eq!(
        Limitkind::Tfsa.remaining(&limits, &rl, 2016),
        Cents(5000 + 5000 - 1000 - 500 - 2000 + 10000 - 3000),
    );
}

#[test]
fn tfsa_restores_prior_year_withdrawals() {
    // with a 2000 contribution and a 1000 withdrawal in 2015, the Tfsa room
    // for 2016 exceeds the Rrsp room by exactly the withdrawn 1000
    let mut limits = Limits::new();
    limits.set(2015, Cents(5000));
    limits.set(2016, Cents(5000));
    let rl = Recordlist::from_records(vec![
        rec(d(2015, 2, 1), "aaa", 2000),
        rec(d(2015, 6, 1), "aaa", -1000),
    ]);
    let rrsp = Limitkind::Rrsp.remaining(&limits, &rl, 2016);
    let tfsa = Limitkind::Tfsa.remaining(&limits, &rl, 2016);
    assert_eq!(tfsa.0 - rrsp.0, 1000);
    assert_eq!(rrsp, Cents(8000));
    assert_eq!(tfsa, Cents(9000));
}

#[test]
fn limitkind_names() {
    assert_eq!(Limitkind::parse("rrsp"), Some(Limitkind::Rrsp));
    assert_eq!(Limitkind::parse("TFSA"), Some(Limitkind::Tfsa));
    assert_eq!(Limitkind::parse("TfSa"), Some(Limitkind::Tfsa));
    assert_eq!(Limitkind::parse("tfsa "), None);
    assert_eq!(Limitkind::parse(""), None);
    assert_eq!(Limitkind::Rrsp.render(), "rrsp");
    assert_eq!(Limitkind::Tfsa.render(), "tfsa");
}
