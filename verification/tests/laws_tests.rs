use architect::model::{CalendarTime, GitTime, LanguageStatSnapshot, MainStat, Stat};
use architect::stats::{author_stats_at, five_points};
use architect::languages::count_extensions;
use architect::view::chart_category_list;

fn stat(email: &str, inserts: u32, dels: u32) -> Stat {
    Stat {
        id: [0u8; 20],
        author: email.to_uppercase(),
        email: email.to_string(),
        inserts: inserts,
        dels: dels,
        time: GitTime { seconds: 0, offset_minutes: 0 },
        message: None,
    }
}

fn sum(ms: &[MainStat]) -> (u32, u32, u32) {
    ms.iter().fold((0, 0, 0), |a, m| (a.0 + m.inserts, a.1 + m.dels, a.2 + m.commits))
}

fn table() -> Vec<(String, architect::model::ResultStat)> {
    let stats = vec![stat("c@z", 1, 2), stat("a@x", 3, 4), stat("c@z", 5, 6), stat("b@y", 7, 8), stat("a@x", 9, 0)];
    let cals: Vec<CalendarTime> = (0..5u32)
        .map(|i| CalendarTime { year: 2016, month0: i, day: 1, weekday: (i * 3) % 7, hour: (i * 7) % 24 })
        .collect();
    author_stats_at(&stats, &cals)
}

#[test]
fn days_and_quarters_add_up_to_the_total() {
    for (_, r) in table().iter() {
        let s = (r.stat.inserts, r.stat.dels, r.stat.commits);
        assert_eq!(sum(&r.days), s);
        assert_eq!(sum(&r.daytimes), s);
    }
}

#[test]
fn total_is_the_sum_of_the_authors() {
    let t = table();
    let authors: Vec<MainStat> = t.iter().filter(|e| e.0 != "TOTAL").map(|e| e.1.stat).collect();
    let total = t.iter().find(|e| e.0 == "TOTAL").unwrap();
    assert_eq!(sum(&authors), (25, 20, 5));
    assert_eq!((total.1.stat.inserts, total.1.stat.dels, total.1.stat.commits), (25, 20, 5));
}

#[test]
fn extension_counts_add_up_to_the_files() {
    let names: Vec<String> = ["a.rs", "b", "c.rs", "d.c", "e.f.c", ".x"].iter().map(|s| s.to_string()).collect();
    let t = count_extensions(&names);
    assert_eq!(t.iter().map(|e| e.1).sum::<u32>() as usize, names.len());
}

#[test]
fn five_points_span_first_to_last() {
    let cases: Vec<Vec<i64>> = vec![
        vec![0],
        vec![0, 1],
        vec![0, 3, 7, 12, 40],
        vec![-100, -99, 0, 1, 2, 3, 50, 99, 100],
        vec![5, 5, 5, 5],
    ];
    for t in cases.iter() {
        let p = five_points(t);
        assert_eq!(p[0], 0);
        assert_eq!(p[4], t.len() - 1);
        for k in 1..5 {
            assert!(p[k - 1] <= p[k]);
        }
    }
}

#[test]
fn category_labels_are_distinct() {
    let snaps = [
        LanguageStatSnapshot(2016, 4, vec![]),
        LanguageStatSnapshot(2016, 4, vec![]),
        LanguageStatSnapshot(2016, 3, vec![]),
        LanguageStatSnapshot(2016, 4, vec![]),
        LanguageStatSnapshot(2016, 3, vec![]),
    ];
    let c = chart_category_list(&snaps);
    for a in 0..5 {
        for b in (a + 1)..5 {
            assert_ne!(c[a], c[b]);
        }
    }
}

fn entry_view(e: &(String, architect::model::ResultStat)) -> (String, String, String, Vec<(u32, u32, u32)>) {
    let r = &e.1;
    let mut counts = vec![(r.stat.inserts, r.stat.dels, r.stat.commits)];
    for m in r.days.iter().chain(r.daytimes.iter()) {
        counts.push((m.inserts, m.dels, m.commits));
    }
    (e.0.clone(), r.sign.0.clone(), r.sign.1.clone(), counts)
}

#[test]
fn table_ignores_the_order_of_commits() {
    let stats = vec![stat("c@z", 1, 2), stat("a@x", 3, 4), stat("c@z", 5, 6), stat("b@y", 7, 8), stat("a@x", 9, 0)];
    let cals: Vec<CalendarTime> = (0..5u32)
        .map(|i| CalendarTime { year: 2016, month0: i, day: 1, weekday: (i * 3) % 7, hour: (i * 7) % 24 })
        .collect();
    let order = [3usize, 0, 4, 1, 2];
    let stats2: Vec<Stat> = order.iter().map(|&i| stats[i].clone()).collect();
    let cals2: Vec<CalendarTime> = order.iter().map(|&i| cals[i]).collect();
    let t = author_stats_at(&stats, &cals);
    let t2 = author_stats_at(&stats2, &cals2);
    let v: Vec<_> = t.iter().map(entry_view).collect();
    let v2: Vec<_> = t2.iter().map(entry_view).collect();
    assert_eq!(v, v2);
}

#[test]
fn total_counts_every_commit() {
    let t = table();
    let total = t.iter().find(|e| e.0 == "TOTAL").unwrap();
    assert_eq!(total.1.stat.commits, 5);
}
