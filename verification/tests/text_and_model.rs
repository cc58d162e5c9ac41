use architect::model::{month_length, Author, GitTime, MainStat, ResultStat, TopMonthContributer};
use architect::text::{decimal_i64, decimal_u64, string_less};

#[test]
fn decimal_u64_renders_like_to_string() {
    assert_eq!(decimal_u64(0), "0");
    assert_eq!(decimal_u64(7), "7");
    assert_eq!(decimal_u64(10), "10");
    assert_eq!(decimal_u64(1234567890), "1234567890");
    assert_eq!(decimal_u64(u64::MAX), u64::MAX.to_string());
}

#[test]
fn decimal_i64_renders_sign() {
    assert_eq!(decimal_i64(-42), "-42");
    assert_eq!(decimal_i64(0), "0");
    assert_eq!(decimal_i64(2016), "2016");
    assert_eq!(decimal_i64(i64::MIN), "-9223372036854775808");
    assert_eq!(decimal_i64(i64::MAX), "9223372036854775807");
}

#[test]
fn string_less_is_the_order_of_strings() {
    let cases = [
        ("apple", "banana"),
        ("b", "a"),
        ("ab", "abc"),
        ("abc", "ab"),
        ("x", "x"),
        ("", "a"),
        ("a", ""),
        ("", ""),
        ("Z", "a"),
        ("TOTAL", "a@x"),
        ("é", "z"),
    ];
    for (a, b) in cases.iter() {
        assert_eq!(string_less(a, b), a < b, "{} < {}", a, b);
    }
}

#[test]
fn new_result_stat_is_empty() {
    let r = ResultStat::new("Alice".to_string(), "a@x".to_string());
    assert_eq!(r.sign.0, "Alice");
    assert_eq!(r.sign.1, "a@x");
    assert_eq!((r.stat.inserts, r.stat.dels, r.stat.commits), (0, 0, 0));
    for d in r.days.iter().chain(r.daytimes.iter()) {
        assert_eq!((d.inserts, d.dels, d.commits), (0, 0, 0));
    }
}

#[test]
fn main_stat_default_is_zero() {
    let m = MainStat::default();
    assert_eq!((m.inserts, m.dels, m.commits), (0, 0, 0));
}

#[test]
fn authors_compare_by_name_and_address() {
    let a = Author("Alice".to_string(), "a@x".to_string());
    let b = a.duplicate();
    assert!(a.same(&b));
    assert_eq!(b.0, "Alice");
    assert_eq!(b.1, "a@x");
    assert!(!a.same(&Author("Alice".to_string(), "b@x".to_string())));
    assert!(!a.same(&Author("Bob".to_string(), "a@x".to_string())));
}

#[test]
fn top_month_contributer_new_keeps_fields() {
    let stat = MainStat { inserts: 3, dels: 4, commits: 5 };
    let t = TopMonthContributer::new(2016, 4, Author("A".to_string(), "a@x".to_string()), stat);
    assert_eq!(t.year, 2016);
    assert_eq!(t.month, 4);
    assert_eq!(t.sign.0, "A");
    assert_eq!((t.stat.inserts, t.stat.dels, t.stat.commits), (3, 4, 5));
}

#[test]
fn git_time_validity() {
    assert!(GitTime { seconds: 1_460_721_600, offset_minutes: 120 }.is_valid());
    assert!(GitTime { seconds: -1_000, offset_minutes: -1439 }.is_valid());
    assert!(!GitTime { seconds: 0, offset_minutes: 1440 }.is_valid());
    assert!(!GitTime { seconds: 0, offset_minutes: -1440 }.is_valid());
    assert!(!GitTime { seconds: i64::MAX, offset_minutes: 0 }.is_valid());
    assert!(GitTime { seconds: 8_210_266_790_400, offset_minutes: 0 }.is_valid());
    assert!(!GitTime { seconds: 8_210_266_790_401, offset_minutes: 0 }.is_valid());
    assert!(GitTime { seconds: -8_334_601_228_801, offset_minutes: 0 }.is_valid());
    assert!(!GitTime { seconds: -8_334_601_228_802, offset_minutes: 0 }.is_valid());
}

#[test]
fn month_lengths_of_the_gregorian_calendar() {
    assert_eq!(month_length(2016, 1), 29);
    assert_eq!(month_length(2015, 1), 28);
    assert_eq!(month_length(1900, 1), 28);
    assert_eq!(month_length(2000, 1), 29);
    assert_eq!(month_length(-4, 1), 29);
    assert_eq!(month_length(-1, 1), 28);
    assert_eq!(month_length(2016, 0), 31);
    assert_eq!(month_length(2016, 3), 30);
    assert_eq!(month_length(2016, 11), 31);
    assert_eq!(month_length(2016, 10), 30);
}
