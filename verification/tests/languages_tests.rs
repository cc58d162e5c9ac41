use architect::languages::{count_extensions, file_extension, lang_snapshot};
use architect::model::GitTime;

#[test]
fn extensions_follow_the_last_dot() {
    assert_eq!(file_extension("main.rs"), "rs");
    assert_eq!(file_extension("Makefile"), "Makefile");
    assert_eq!(file_extension("a.tar.gz"), "gz");
    assert_eq!(file_extension(".gitignore"), "gitignore");
    assert_eq!(file_extension("dir."), "");
    assert_eq!(file_extension(""), "");
}

#[test]
fn extension_counts() {
    let names: Vec<String> = ["a.rs", "b.rs", "c.py", "Makefile", "d.rs"].iter().map(|s| s.to_string()).collect();
    let t = count_extensions(&names);
    assert_eq!(
        t,
        vec![("rs".to_string(), 3), ("py".to_string(), 1), ("Makefile".to_string(), 1)]
    );
    assert_eq!(t.iter().map(|e| e.1).sum::<u32>(), 5);
    assert!(count_extensions(&[]).is_empty());
}

#[test]
fn snapshot_of_a_tree() {
    let names: Vec<String> = ["x.md", "y.md"].iter().map(|s| s.to_string()).collect();
    let s = lang_snapshot(&GitTime { seconds: 1_460_721_600, offset_minutes: 0 }, &names);
    assert_eq!((s.0, s.1), (2016, 3));
    assert_eq!(s.2, vec![("md".to_string(), 2)]);
}
