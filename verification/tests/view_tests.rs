use architect::model::{AllResultStat, Author, LanguageStatSnapshot, MainStat, ResultStat, TopMonthContributer};
use architect::view::{
    chart_category_list, chart_data, chart_languages, chart_property_list, chart_rows, find_total, format_month,
    lookup_count, month_str, order_by_commits,
};
use lazysort::SortedBy;

fn m(inserts: u32, dels: u32, commits: u32) -> MainStat {
    MainStat { inserts: inserts, dels: dels, commits: commits }
}

fn result(name: &str, commits: u32) -> ResultStat {
    let mut r = ResultStat::new(name.to_string(), name.to_string());
    r.stat = m(0, 0, commits);
    r
}

fn total() -> ResultStat {
    let mut r = ResultStat::new("TOTAL".to_string(), "TOTAL".to_string());
    r.stat = m(16, 8, 3);
    r.days[0] = m(11, 3, 2);
    r.days[1] = m(5, 5, 1);
    r.daytimes[0] = m(10, 2, 1);
    r.daytimes[3] = m(1, 1, 1);
    r
}

fn snapshot(year: i32, month: u32, entries: &[(&str, u32)]) -> LanguageStatSnapshot {
    LanguageStatSnapshot(year, month, entries.iter().map(|(k, v)| (k.to_string(), *v)).collect())
}

#[test]
fn month_names_keep_their_spelling() {
    let names: Vec<&str> = (0..12).map(|i| month_str(i)).collect();
    assert_eq!(
        names,
        vec![
            "January", "February", "March", "April", "May", "June", "Jule", "August", "September", "October",
            "November", "December"
        ]
    );
    assert_eq!(format_month(2016, 0), "2016, January");
    assert_eq!(format_month(2016, 6), "2016, Jule");
    assert_eq!(format_month(-5, 11), "-5, December");
}

#[test]
fn chart_properties_of_the_totals() {
    let p = chart_property_list(&total());
    assert_eq!(p.len(), 25);
    let get = |name: &str| p.iter().find(|e| e.0 == name).map(|e| e.1.clone());
    assert_eq!(p[0], ("c1".to_string(), "2".to_string()));
    assert_eq!(p[1], ("a1".to_string(), "11".to_string()));
    assert_eq!(p[2], ("d1".to_string(), "3".to_string()));
    assert_eq!(get("c2"), Some("1".to_string()));
    assert_eq!(get("d7"), Some("0".to_string()));
    assert_eq!(p[21], ("cdt1".to_string(), "1".to_string()));
    assert_eq!(p[24], ("cdt4".to_string(), "1".to_string()));
    assert_eq!(get("cdt3"), Some("0".to_string()));
}

#[test]
fn chart_rows_of_top_contributors() {
    let top = vec![
        TopMonthContributer::new(2016, 3, Author("Alice".to_string(), "a@x".to_string()), m(11, 2, 2)),
        TopMonthContributer::new(2015, 11, Author("Bob".to_string(), "b@y".to_string()), m(u32::MAX, 0, 1)),
    ];
    let rows = chart_rows(&top);
    assert_eq!(rows.len(), 2);
    assert_eq!(rows[0].date, "2016, April");
    assert_eq!(rows[0].user, "Alice");
    assert_eq!((rows[0].commits, rows[0].adds, rows[0].dels), (2, 11, 2));
    assert_eq!(rows[1].date, "2015, December");
    assert_eq!(rows[1].adds, -1);
}

#[test]
fn languages_in_order_of_first_occurrence() {
    let snaps = [
        snapshot(2016, 0, &[("rs", 1), ("toml", 1)]),
        snapshot(2016, 1, &[("toml", 1), ("md", 2)]),
        snapshot(2016, 2, &[]),
        snapshot(2016, 3, &[("rs", 3), ("py", 1)]),
        snapshot(2016, 4, &[("md", 1)]),
    ];
    assert_eq!(chart_languages(&snaps), vec!["rs", "toml", "md", "py"]);
}

#[test]
fn repeated_months_are_numbered() {
    let snaps = [
        snapshot(2016, 4, &[]),
        snapshot(2016, 4, &[]),
        snapshot(2016, 4, &[]),
        snapshot(2017, 0, &[]),
        snapshot(2016, 4, &[]),
    ];
    assert_eq!(
        chart_category_list(&snaps),
        vec!["2016, May", "2016, May (1)", "2016, May (2)", "2017, January", "2016, May (3)"]
    );
    let distinct = [
        snapshot(2015, 0, &[]),
        snapshot(2015, 5, &[]),
        snapshot(2016, 0, &[]),
        snapshot(2016, 5, &[]),
        snapshot(2017, 0, &[]),
    ];
    assert_eq!(
        chart_category_list(&distinct),
        vec!["2015, January", "2015, June", "2016, January", "2016, June", "2017, January"]
    );
}

#[test]
fn finding_the_totals() {
    let t = vec![("a@x".to_string(), result("a", 1)), ("TOTAL".to_string(), total())];
    assert_eq!(find_total(&t), Some(1));
    assert_eq!(find_total(&vec![("a@x".to_string(), result("a", 1))]), None);
    assert_eq!(find_total(&vec![]), None);
}

#[test]
fn counts_of_the_first_entry() {
    let e = vec![("rs".to_string(), 3), ("md".to_string(), 1), ("rs".to_string(), 9)];
    assert_eq!(lookup_count(&e, &"rs".to_string()), 3);
    assert_eq!(lookup_count(&e, &"md".to_string()), 1);
    assert_eq!(lookup_count(&e, &"py".to_string()), 0);
}

#[test]
fn chart_data_of_everything() {
    let all = AllResultStat {
        top_monthly: vec![TopMonthContributer::new(
            2016,
            3,
            Author("Alice".to_string(), "a@x".to_string()),
            m(11, 2, 2),
        )],
        common_stats: vec![("TOTAL".to_string(), total()), ("a@x".to_string(), result("Alice", 2))],
        lang_stats: [
            snapshot(2016, 1, &[("rs", 1)]),
            snapshot(2016, 3, &[("rs", 2)]),
            snapshot(2016, 3, &[("rs", 2), ("md", 1)]),
            snapshot(2016, 3, &[("rs", 4)]),
            snapshot(2016, 3, &[("rs", 4), ("md", 2)]),
        ],
    };
    let d = chart_data(&all);
    assert_eq!(d.properties.len(), 25);
    assert_eq!(d.properties[0], ("c1".to_string(), "2".to_string()));
    assert_eq!(d.rows.len(), 1);
    assert_eq!(d.rows[0].date, "2016, April");
    assert_eq!(
        d.categories,
        vec!["2016, February", "2016, April", "2016, April (1)", "2016, April (2)", "2016, April (3)"]
    );
    assert_eq!(d.bars.len(), 2);
    assert_eq!(d.bars[0], ("rs".to_string(), vec![1, 2, 2, 4, 4]));
    assert_eq!(d.bars[1], ("md".to_string(), vec![0, 0, 1, 0, 2]));
}

#[test]
fn listing_order_is_by_decreasing_commits() {
    let t = vec![
        ("TOTAL".to_string(), result("TOTAL", 20)),
        ("a@x".to_string(), result("a", 5)),
        ("b@x".to_string(), result("b", 9)),
        ("c@x".to_string(), result("c", 5)),
        ("d@x".to_string(), result("d", 1)),
    ];
    let order = order_by_commits(&t);
    assert_eq!(order.len(), 5);
    assert_eq!(order[0], 0);
    assert_eq!(order[1], 2);
    assert_eq!(order[4], 4);
    let mut middle = vec![order[2], order[3]];
    middle.sort();
    assert_eq!(middle, vec![1, 3]);
    let expected: Vec<usize> = (0..t.len())
        .sorted_by(|b, a| t[*a].1.stat.commits.cmp(&t[*b].1.stat.commits))
        .collect();
    assert_eq!(order, expected);
    assert!(order_by_commits(&vec![]).is_empty());
}
