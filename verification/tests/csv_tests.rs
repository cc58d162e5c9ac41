use architect::csv_output::{local_from_stat, records_from_stats, stat_from_local, stats_from_records, LocalStat};
use architect::model::{GitTime, Stat};
use architect::oid::is_oid_hex;

fn sample_stat(message: Option<&str>) -> Stat {
    let mut id = [0u8; 20];
    id[0] = 0x01;
    id[1] = 0xab;
    id[19] = 0xf0;
    Stat {
        id: id,
        author: "Ann".to_string(),
        email: "ann@x".to_string(),
        inserts: 3,
        dels: 4,
        time: GitTime { seconds: 1_460_721_600, offset_minutes: -300 },
        message: message.map(|m| m.to_string()),
    }
}

#[test]
fn record_of_a_commit() {
    let ls = local_from_stat(&sample_stat(Some("msg")));
    assert_eq!(ls.id, "01ab0000000000000000000000000000000000f0");
    assert_eq!(ls.author, "Ann");
    assert_eq!(ls.email, "ann@x");
    assert_eq!((ls.inserts, ls.dels), (3, 4));
    assert_eq!((ls.time, ls.offset_minutes), (1_460_721_600, -300));
    assert_eq!(ls.message, "msg");
    assert_eq!(local_from_stat(&sample_stat(None)).message, "");
}

#[test]
fn commit_of_a_record() {
    let ls = LocalStat {
        id: "ABCDEF".to_string(),
        author: "B".to_string(),
        email: "b@y".to_string(),
        inserts: 1,
        dels: 2,
        time: -5,
        offset_minutes: 60,
        message: String::new(),
    };
    let s = stat_from_local(&ls);
    let mut id = [0u8; 20];
    id[0] = 0xab;
    id[1] = 0xcd;
    id[2] = 0xef;
    assert_eq!(s.id, id);
    assert!(s.message.is_none());
    assert_eq!((s.time.seconds, s.time.offset_minutes), (-5, 60));
    let odd = LocalStat { id: "abc".to_string(), message: "m".to_string(), ..ls };
    let s = stat_from_local(&odd);
    assert_eq!(&s.id[..3], &[0xab, 0xc0, 0x00]);
    assert_eq!(s.message, Some("m".to_string()));
}

#[test]
fn cache_round_trip() {
    let stats = vec![sample_stat(Some("first")), sample_stat(None)];
    let records = records_from_stats(&stats);
    assert_eq!(records.len(), 2);
    for r in records.iter() {
        assert!(is_oid_hex(&r.id));
    }
    let back = stats_from_records(&records);
    assert_eq!(back.len(), 2);
    for (a, b) in stats.iter().zip(back.iter()) {
        assert_eq!(a.id, b.id);
        assert_eq!(a.author, b.author);
        assert_eq!(a.email, b.email);
        assert_eq!((a.inserts, a.dels), (b.inserts, b.dels));
        assert_eq!((a.time.seconds, a.time.offset_minutes), (b.time.seconds, b.time.offset_minutes));
        assert_eq!(a.message, b.message);
    }
}

#[test]
fn empty_message_comes_back_as_none() {
    let s = sample_stat(Some(""));
    let back = stat_from_local(&local_from_stat(&s));
    assert!(back.message.is_none());
}

#[test]
fn hexadecimal_ids() {
    assert!(is_oid_hex("0"));
    assert!(is_oid_hex("deadBEEF"));
    assert!(is_oid_hex(&"f".repeat(40)));
    assert!(!is_oid_hex(""));
    assert!(!is_oid_hex(&"f".repeat(41)));
    assert!(!is_oid_hex("xyz"));
    assert!(!is_oid_hex("12 4"));
}
