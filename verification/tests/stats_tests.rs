use architect::model::{Author, CalendarTime, GitTime, LanguageStatSnapshot, MainStat, ResultStat, Stat};
use architect::stats::{
    author_stats_at, calculate_top_contributers_per_month, cmp_dates, five_points, get_authors_stats,
    get_more_author_stats, lang_snapshot_points, month_key, process, top_author, top_contributers_at,
};
use architect::tally::sums_fit;
use chrono::Datelike;
use std::cmp::Ordering;

/// 2016-04-15 12:00:00 UTC: the same month in every time zone.
const MID_APRIL_2016: i64 = 1_460_721_600;
/// 2016-02-15 12:00:00 UTC.
const MID_FEB_2016: i64 = 1_455_537_600;

fn stat(author: &str, email: &str, inserts: u32, dels: u32, seconds: i64) -> Stat {
    Stat {
        id: [0u8; 20],
        author: author.to_string(),
        email: email.to_string(),
        inserts: inserts,
        dels: dels,
        time: GitTime { seconds: seconds, offset_minutes: 0 },
        message: None,
    }
}

fn cal(year: i32, month0: u32, weekday: u32, hour: u32) -> CalendarTime {
    CalendarTime { year: year, month0: month0, day: 15, weekday: weekday, hour: hour }
}

fn on_day(c: CalendarTime, day: u32) -> CalendarTime {
    CalendarTime { day: day, ..c }
}

fn counts(m: &MainStat) -> (u32, u32, u32) {
    (m.inserts, m.dels, m.commits)
}

fn sample() -> (Vec<Stat>, Vec<CalendarTime>) {
    let stats = vec![
        stat("Alice", "a@x", 10, 2, MID_APRIL_2016),
        stat("Bob", "b@y", 5, 5, MID_APRIL_2016 + 3600),
        stat("Alice B.", "a@x", 1, 1, MID_FEB_2016),
    ];
    let cals = vec![cal(2016, 3, 0, 3), cal(2016, 3, 1, 13), cal(2016, 1, 0, 20)];
    (stats, cals)
}

#[test]
fn author_table_counts_per_address() {
    let (stats, cals) = sample();
    let t = author_stats_at(&stats, &cals);
    let keys: Vec<&str> = t.iter().map(|e| e.0.as_str()).collect();
    assert_eq!(keys, vec!["TOTAL", "a@x", "b@y"]);

    let total = &t[0].1;
    assert_eq!(total.sign.0, "TOTAL");
    assert_eq!(total.sign.1, "TOTAL");
    assert_eq!(counts(&total.stat), (16, 8, 3));
    assert_eq!(counts(&total.days[0]), (11, 3, 2));
    assert_eq!(counts(&total.days[1]), (5, 5, 1));
    for d in 2..7 {
        assert_eq!(counts(&total.days[d]), (0, 0, 0));
    }
    assert_eq!(counts(&total.daytimes[0]), (10, 2, 1));
    assert_eq!(counts(&total.daytimes[1]), (0, 0, 0));
    assert_eq!(counts(&total.daytimes[2]), (5, 5, 1));
    assert_eq!(counts(&total.daytimes[3]), (1, 1, 1));

    let alice = &t[1].1;
    assert_eq!(alice.sign.0, "Alice");
    assert_eq!(alice.sign.1, "a@x");
    assert_eq!(counts(&alice.stat), (11, 3, 2));
    assert_eq!(counts(&alice.days[0]), (11, 3, 2));
    assert_eq!(counts(&alice.daytimes[0]), (10, 2, 1));
    assert_eq!(counts(&alice.daytimes[3]), (1, 1, 1));

    let bob = &t[2].1;
    assert_eq!(bob.sign.0, "Bob");
    assert_eq!(counts(&bob.stat), (5, 5, 1));
    assert_eq!(counts(&bob.days[1]), (5, 5, 1));
    assert_eq!(counts(&bob.daytimes[2]), (5, 5, 1));
}

#[test]
fn author_table_of_no_commits_has_only_total() {
    let t = author_stats_at(&[], &[]);
    assert_eq!(t.len(), 1);
    assert_eq!(t[0].0, "TOTAL");
    assert_eq!(counts(&t[0].1.stat), (0, 0, 0));
}

#[test]
fn address_total_is_overwritten_by_the_totals() {
    let stats = vec![stat("T", "TOTAL", 4, 0, MID_APRIL_2016), stat("B", "b@y", 1, 0, MID_APRIL_2016)];
    let cals = vec![cal(2016, 3, 0, 3), cal(2016, 3, 0, 3)];
    let t = author_stats_at(&stats, &cals);
    let keys: Vec<&str> = t.iter().map(|e| e.0.as_str()).collect();
    assert_eq!(keys, vec!["TOTAL", "b@y"]);
    assert_eq!(t[0].1.sign.0, "TOTAL");
    assert_eq!(counts(&t[0].1.stat), (5, 0, 2));
}

#[test]
fn more_author_stats_totals_do_not_depend_on_the_zone() {
    let (stats, _) = sample();
    let t = get_more_author_stats(&stats);
    let keys: Vec<&str> = t.iter().map(|e| e.0.as_str()).collect();
    assert_eq!(keys, vec!["TOTAL", "a@x", "b@y"]);
    assert_eq!(counts(&t[0].1.stat), (16, 8, 3));
    assert_eq!(counts(&t[1].1.stat), (11, 3, 2));
    assert_eq!(counts(&t[2].1.stat), (5, 5, 1));
    for e in t.iter() {
        let days = e.1.days.iter().fold(0, |a, m| a + m.commits);
        let quarters = e.1.daytimes.iter().fold(0, |a, m| a + m.commits);
        assert_eq!(days, e.1.stat.commits);
        assert_eq!(quarters, e.1.stat.commits);
    }
}

#[test]
fn authors_of_a_month() {
    let (stats, cals) = sample();
    let t = get_authors_stats(&stats, &cals, (2016, 3));
    assert_eq!(t.len(), 2);
    let a = t.iter().find(|e| e.0 .1 == "a@x").unwrap();
    assert_eq!(a.0 .0, "Alice");
    assert_eq!(counts(&a.1), (10, 2, 1));
    let b = t.iter().find(|e| e.0 .1 == "b@y").unwrap();
    assert_eq!(counts(&b.1), (5, 5, 1));
    assert!(get_authors_stats(&stats, &cals, (2015, 3)).is_empty());
}

#[test]
fn same_address_with_another_name_is_another_author_of_the_month() {
    let stats = vec![stat("Alice", "a@x", 1, 0, 0), stat("A.", "a@x", 2, 0, 0), stat("Alice", "a@x", 3, 0, 0)];
    let cals = vec![cal(2016, 3, 0, 0); 3];
    let t = get_authors_stats(&stats, &cals, (2016, 3));
    assert_eq!(t.len(), 2);
    let a = t.iter().find(|e| e.0 .0 == "Alice").unwrap();
    assert_eq!(counts(&a.1), (4, 0, 2));
    let b = t.iter().find(|e| e.0 .0 == "A.").unwrap();
    assert_eq!(counts(&b.1), (2, 0, 1));
}

#[test]
fn top_author_takes_the_last_of_the_most_commits() {
    let entry = |name: &str, commits: u32| {
        (Author(name.to_string(), format!("{}@x", name)), MainStat { inserts: 0, dels: 0, commits: commits })
    };
    assert_eq!(top_author(&vec![]), None);
    assert_eq!(top_author(&vec![entry("a", 3), entry("b", 5), entry("c", 5), entry("d", 1)]), Some(2));
    assert_eq!(top_author(&vec![entry("a", 7), entry("b", 5)]), Some(0));
}

#[test]
fn month_keys_and_their_order() {
    assert_eq!(month_key(2016, 5), 2016 * 12 + 5);
    assert_eq!(cmp_dates(2016, 3, 2016, 4), Ordering::Less);
    assert_eq!(cmp_dates(2017, 0, 2016, 11), Ordering::Greater);
    assert_eq!(cmp_dates(2016, 11, 2016, 11), Ordering::Equal);
}

#[test]
fn top_contributers_latest_month_first() {
    let stats = vec![
        stat("Alice", "a@x", 10, 2, MID_APRIL_2016),
        stat("Bob", "b@y", 5, 5, MID_APRIL_2016),
        stat("Alice", "a@x", 1, 0, MID_APRIL_2016),
        stat("Alice B.", "a@x", 1, 1, MID_FEB_2016),
    ];
    let cals = vec![cal(2016, 3, 0, 3), cal(2016, 3, 1, 13), cal(2016, 3, 2, 1), cal(2016, 1, 0, 20)];
    let r = top_contributers_at(&stats, &cals, cal(2016, 5, 2, 10)).unwrap();
    assert_eq!(r.len(), 2);
    assert_eq!((r[0].year, r[0].month), (2016, 3));
    assert_eq!(r[0].sign.0, "Alice");
    assert_eq!(r[0].sign.1, "a@x");
    assert_eq!(counts(&r[0].stat), (11, 2, 2));
    assert_eq!((r[1].year, r[1].month), (2016, 1));
    assert_eq!(r[1].sign.0, "Alice B.");
    assert_eq!(counts(&r[1].stat), (1, 1, 1));
}

#[test]
fn top_contributers_pick_the_most_commits() {
    let stats = vec![
        stat("A", "a@x", 1, 0, 0),
        stat("B", "b@x", 1, 0, 0),
        stat("B", "b@x", 1, 0, 0),
        stat("A", "a@x", 1, 0, 0),
        stat("B", "b@x", 7, 0, 0),
    ];
    let cals = vec![cal(2015, 11, 0, 0); 5];
    let r = top_contributers_at(&stats, &cals, cal(2016, 0, 0, 0)).unwrap();
    assert_eq!(r.len(), 1);
    assert_eq!((r[0].year, r[0].month), (2015, 11));
    assert_eq!(r[0].sign.0, "B");
    assert_eq!(counts(&r[0].stat), (9, 0, 3));
}

#[test]
fn top_contributers_refuse_commits_after_now() {
    let (stats, cals) = sample();
    assert!(top_contributers_at(&stats, &cals, cal(2016, 2, 0, 0)).is_none());
    let empty = top_contributers_at(&[], &[], cal(2016, 2, 0, 0)).unwrap();
    assert!(empty.is_empty());
}

#[test]
fn top_contributers_fail_where_the_walk_meets_a_short_month() {
    let stats = vec![stat("A", "a@x", 1, 0, 0)];
    let january = vec![cal(2016, 0, 0, 0)];
    // From March 30th, 2016 the walk moves to February 30th, which does not exist.
    assert!(top_contributers_at(&stats, &january, on_day(cal(2016, 2, 0, 0), 30)).is_none());
    // February 29th exists in 2016; the walk then reaches January and December.
    assert!(top_contributers_at(&stats, &january, on_day(cal(2016, 2, 0, 0), 29)).is_some());
    // From March 29th, 2015 it does not.
    let january_2015 = vec![cal(2015, 0, 0, 0)];
    assert!(top_contributers_at(&stats, &january_2015, on_day(cal(2015, 2, 0, 0), 29)).is_none());
    // The walk steps once more after the earliest month: from May 31st with
    // commits in May only, it moves to April 31st.
    let may = vec![cal(2016, 4, 0, 0)];
    assert!(top_contributers_at(&stats, &may, on_day(cal(2016, 4, 0, 0), 31)).is_none());
    // With no commits there is no walk.
    assert!(top_contributers_at(&[], &[], on_day(cal(2016, 4, 0, 0), 31)).unwrap().is_empty());
}

#[test]
fn top_contributers_per_month_of_past_commits() {
    let (stats, _) = sample();
    let r = match calculate_top_contributers_per_month(&stats) {
        Some(r) => r,
        None => {
            // The walk back from today through February fails after the 28th.
            assert!(chrono::Local::now().day() > 28);
            return;
        }
    };
    assert_eq!(r.len(), 2);
    assert_eq!((r[0].year, r[0].month), (2016, 3));
    assert_eq!((r[1].year, r[1].month), (2016, 1));
    assert_eq!(r[1].sign.1, "a@x");
}

#[test]
fn five_points_walk_the_quarters() {
    assert_eq!(five_points(&[0, 3, 7, 12, 40]), [0, 3, 4, 4, 4]);
    assert_eq!(five_points(&[0, 10, 20, 30, 40]), [0, 4, 4, 4, 4]);
    assert_eq!(five_points(&[5]), [0, 0, 0, 0, 0]);
    assert_eq!(five_points(&[0, 1]), [0, 1, 1, 1, 1]);
    assert_eq!(five_points(&[0, 9, 11, 19, 21, 29, 31, 40]), [0, 2, 4, 6, 7]);
    assert_eq!(five_points(&[7, 7, 7]), [0, 2, 2, 2, 2]);
}

#[test]
fn snapshot_points_are_taken_in_time_order() {
    let stats = vec![
        stat("a", "a", 0, 0, 40),
        stat("a", "a", 0, 0, 0),
        stat("a", "a", 0, 0, 12),
        stat("a", "a", 0, 0, 3),
        stat("a", "a", 0, 0, 7),
    ];
    assert_eq!(lang_snapshot_points(&stats), [1, 2, 0, 0, 0]);
}

fn snapshot(year: i32, month: u32, entries: &[(&str, u32)]) -> LanguageStatSnapshot {
    LanguageStatSnapshot(year, month, entries.iter().map(|(k, v)| (k.to_string(), *v)).collect())
}

#[test]
fn process_gathers_everything() {
    let (stats, _) = sample();
    let langs = [
        snapshot(2016, 1, &[("rs", 1)]),
        snapshot(2016, 3, &[("rs", 2)]),
        snapshot(2016, 3, &[("rs", 2)]),
        snapshot(2016, 3, &[("rs", 2)]),
        snapshot(2016, 3, &[("rs", 2), ("md", 1)]),
    ];
    let all = match process(&stats, langs) {
        Some(all) => all,
        None => {
            assert!(chrono::Local::now().day() > 28);
            return;
        }
    };
    assert_eq!(all.top_monthly.len(), 2);
    let keys: Vec<&str> = all.common_stats.iter().map(|e| e.0.as_str()).collect();
    assert_eq!(keys, vec!["TOTAL", "a@x", "b@y"]);
    assert_eq!(counts(&all.common_stats[0].1.stat), (16, 8, 3));
    assert_eq!(all.lang_stats[4].2.len(), 2);
    assert_eq!(all.lang_stats[0].0, 2016);
}

#[test]
fn sums_fit_detects_overflow() {
    let (stats, _) = sample();
    assert!(sums_fit(&stats));
    assert!(sums_fit(&[]));
    let big = vec![stat("a", "a", u32::MAX, 0, 0), stat("a", "a", 1, 0, 0)];
    assert!(!sums_fit(&big));
    let exact = vec![stat("a", "a", u32::MAX - 1, 0, 0), stat("a", "a", 1, 0, 0)];
    assert!(sums_fit(&exact));
    let _ = ResultStat::new(String::new(), String::new());
}
