use architect::diff::{commit_stat, is_counted, progress_step};
use architect::model::GitTime;

#[test]
fn commit_stat_defaults_unknown_author() {
    let time = GitTime { seconds: 100, offset_minutes: 60 };
    let s = commit_stat([7u8; 20], None, None, 3, 4, time, None);
    assert_eq!(s.author, "Unknown");
    assert_eq!(s.email, "unknown@user.com");
    assert_eq!((s.inserts, s.dels), (3, 4));
    assert_eq!(s.id, [7u8; 20]);
    assert_eq!((s.time.seconds, s.time.offset_minutes), (100, 60));
    assert!(s.message.is_none());

    let s = commit_stat([0u8; 20], Some("Ann".to_string()), Some("ann@x".to_string()), 0, 0, time, Some("fix".to_string()));
    assert_eq!(s.author, "Ann");
    assert_eq!(s.email, "ann@x");
    assert_eq!(s.message, Some("fix".to_string()));
}

#[test]
fn commit_stat_truncates_line_counts() {
    let time = GitTime { seconds: 0, offset_minutes: 0 };
    let big: usize = (u32::MAX as usize).wrapping_add(6);
    let s = commit_stat([0u8; 20], None, None, big, 1, time, None);
    assert_eq!(s.inserts, big as u32);
}

#[test]
fn only_single_parent_commits_count() {
    assert!(!is_counted(0));
    assert!(is_counted(1));
    assert!(!is_counted(2));
}

#[test]
fn progress_lines() {
    let half = format!("\r[{}{}] 1/2", "\u{25A0}".repeat(25), " ".repeat(25));
    assert_eq!(progress_step(0, 1, 2), (100, Some(half), false));
    assert_eq!(progress_step(100, 1, 2), (100, None, false));
    let full = format!("\r[{}] 2/2", "\u{25A0}".repeat(50));
    assert_eq!(progress_step(100, 2, 2), (200, Some(full), true));
    assert_eq!(progress_step(0, 0, 3), (0, None, false));
    let third = format!("\r[{}{}] 1/3", "\u{25A0}".repeat(16), " ".repeat(34));
    assert_eq!(progress_step(0, 1, 3), (66, Some(third), false));
    assert_eq!(progress_step(200, 2, 2), (200, None, true));
}
