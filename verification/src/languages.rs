//! Counting the files of a tree by file extension.
use vstd::prelude::*;
use crate::clock::dt_from_gittime;
use crate::model::{local_calendar_of, valid_calendar, valid_git_time, CalendarTime, GitTime, LanguageStatSnapshot};
use crate::text::first_occurrences;

verus! {

/// The position of the last `.` in `s`, or -1 when there is none.
#[verifier::opaque]
pub open spec fn last_dot(s: Seq<char>) -> int
    decreases s.len(),
{
    if s.len() == 0 {
        -1
    } else if s.last() == '.' {
        s.len() - 1
    } else {
        last_dot(s.drop_last())
    }
}

/// The extension of a file name: what follows its last `.`, or the whole
/// name when it has none, as `rsplit('.').next()` gives it.
pub open spec fn extension(s: Seq<char>) -> Seq<char> {
    s.subrange(last_dot(s) + 1, s.len() as int)
}

proof fn lemma_last_dot(s: Seq<char>)
    ensures
        -1 <= last_dot(s) < s.len(),
        last_dot(s) >= 0 ==> s[last_dot(s)] == '.',
        forall|k: int| last_dot(s) < k < s.len() ==> s[k] != '.',
    decreases s.len(),
{
    reveal(last_dot);
    if s.len() > 0 && s.last() != '.' {
        lemma_last_dot(s.drop_last());
        assert forall|k: int| last_dot(s) < k < s.len() implies s[k] != '.' by {
            if k < s.len() - 1 {
                assert(s[k] == s.drop_last()[k]);
            }
        }
    }
}

proof fn lemma_last_dot_at(s: Seq<char>, i: int)
    requires
        -1 <= i < s.len(),
        i >= 0 ==> s[i] == '.',
        forall|k: int| i < k < s.len() ==> s[k] != '.',
    ensures
        last_dot(s) == i,
    decreases s.len(),
{
    reveal(last_dot);
    if s.len() > 0 && i < s.len() - 1 {
        lemma_last_dot_at(s.drop_last(), i);
    }
}

/// The extension of a file name.
pub fn file_extension(name: &str) -> (e: String)
    ensures
        e@ == extension(name@),
{
    let len = name.unicode_len();
    let mut i: usize = len;
    while i > 0 && name.get_char(i - 1) != '.'
        invariant
            len == name@.len(),
            i <= len,
            forall|k: int| i <= k < len ==> name@[k] != '.',
        decreases i,
    {
        i = i - 1;
    }
    proof {
        lemma_last_dot_at(name@, i - 1);
    }
    String::from_str(name.substring_char(i, len))
}

/// The number of the first `n` names with extension `e`.
pub open spec fn count_ext(names: Seq<String>, n: int, e: Seq<char>) -> int
    decreases n,
{
    if n <= 0 {
        0
    } else {
        count_ext(names, n - 1, e) + if extension(names[n - 1]@) == e { 1int } else { 0int }
    }
}

/// The extensions of the names, in their order.
pub open spec fn extensions_of(names: Seq<String>) -> Seq<Seq<char>> {
    Seq::new(names.len(), |x: int| extension(names[x]@))
}

/// The extensions of the entries of a table, in its order.
pub open spec fn entry_keys(t: Seq<(String, u32)>) -> Seq<Seq<char>> {
    Seq::new(t.len(), |j: int| t[j].0@)
}

/// The table counts the extensions of the first `i` names, in the order of
/// their first appearance.
pub open spec fn extension_counts_upto(names: Seq<String>, i: int, t: Seq<(String, u32)>) -> bool {
    &&& entry_keys(t) == first_occurrences(extensions_of(names).take(i))
    &&& forall|j: int, k: int| 0 <= j < k < t.len() ==> (#[trigger] t[j]).0@ != (#[trigger] t[k]).0@
    &&& forall|j: int| 0 <= j < t.len() ==> (#[trigger] t[j]).1 == count_ext(names, i, t[j].0@)
    &&& forall|j: int| 0 <= j < t.len() ==> exists|x: int| 0 <= x < i && extension(names[x]@) == (#[trigger] t[j]).0@
    &&& forall|x: int| 0 <= x < i ==> #[trigger] ext_listed(t, extension(names[x]@))
}

/// Some entry of `t` has the extension `e`.
pub open spec fn ext_listed(t: Seq<(String, u32)>, e: Seq<char>) -> bool {
    exists|j: int| 0 <= j < t.len() && (#[trigger] t[j]).0@ == e
}

/// `t` holds each extension of the names once, in the order of first
/// appearance, with the number of names that have it.
pub open spec fn extension_counts(names: Seq<String>, t: Seq<(String, u32)>) -> bool {
    extension_counts_upto(names, names.len() as int, t)
}

/// No extension is had by more names than a `u32` counts.
pub open spec fn extensions_fit_u32(names: Seq<String>) -> bool {
    forall|e: Seq<char>| #[trigger] count_ext(names, names.len() as int, e) <= u32::MAX
}

proof fn lemma_count_ext_grow(names: Seq<String>, n: int, m: int, e: Seq<char>)
    requires
        0 <= n <= m,
    ensures
        count_ext(names, n, e) <= count_ext(names, m, e),
    decreases m,
{
    if m > n {
        lemma_count_ext_grow(names, n, m - 1, e);
    }
}

proof fn lemma_count_ext_bounds(names: Seq<String>, n: int, e: Seq<char>)
    requires
        0 <= n,
    ensures
        0 <= count_ext(names, n, e) <= n,
    decreases n,
{
    if n > 0 {
        lemma_count_ext_bounds(names, n - 1, e);
    }
}

/// Counts the extension of name `i`.
#[verifier::spinoff_prover]
fn add_name(t: &mut Vec<(String, u32)>, names: &[String], i: usize)
    requires
        i < names@.len(),
        extensions_fit_u32(names@),
        extension_counts_upto(names@, i as int, old(t)@),
    ensures
        extension_counts_upto(names@, i + 1, final(t)@),
{
        let ext = file_extension(names[i].as_str());
        let ghost e = ext@;
        let ghost old_t = t@;
        let mut j: usize = 0;
        while j < t.len() && !(t[j].0 == ext)
            invariant
                j <= t@.len(),
                forall|k: int| 0 <= k < j ==> (#[trigger] t@[k]).0@ != e,
                ext@ == e,
            decreases t@.len() - j,
        {
            j = j + 1;
        }
        proof {
            lemma_count_ext_bounds(names@, i + 1, e);
            lemma_count_ext_grow(names@, i + 1, names@.len() as int, e);
            assert(count_ext(names@, names@.len() as int, e) <= u32::MAX);
        }
        proof {
            let exts = extensions_of(names@);
            assert(exts.take(i + 1).drop_last() =~= exts.take(i as int));
            assert(exts.take(i + 1).last() == e);
            if j < t@.len() {
                assert(entry_keys(old_t)[j as int] == e);
            } else {
                assert forall|k: int| 0 <= k < entry_keys(old_t).len() implies entry_keys(old_t)[k] != e by {}
            }
        }
        if j < t.len() {
            let (k, c) = t.remove(j);
            t.insert(j, (k, c + 1));
            proof {
                assert(t@ =~= old_t.update(j as int, (k, (c + 1) as u32)));
                assert(entry_keys(t@) =~= entry_keys(old_t));
                assert forall|a: int, b: int| 0 <= a < b < t@.len() implies (#[trigger] t@[a]).0@ != (#[trigger] t@[b]).0@ by {
                    assert(t@[a].0@ == old_t[a].0@);
                    assert(t@[b].0@ == old_t[b].0@);
                }
                assert forall|jj: int| 0 <= jj < t@.len() implies exists|x: int|
                    0 <= x < i + 1 && extension(names@[x]@) == (#[trigger] t@[jj]).0@ by {
                    let x = choose|x: int| 0 <= x < i && extension(names@[x]@) == (#[trigger] old_t[jj]).0@;
                    assert(t@[jj].0@ == old_t[jj].0@);
                }
                assert forall|x: int| 0 <= x < i + 1 implies #[trigger] ext_listed(t@, extension(names@[x]@)) by {
                    if x < i {
                        assert(ext_listed(old_t, extension(names@[x]@)));
                        let jj = choose|jj: int| 0 <= jj < old_t.len() && (#[trigger] old_t[jj]).0@ == extension(names@[x]@);
                        assert(t@[jj].0@ == old_t[jj].0@);
                    } else {
                        assert(t@[j as int].0@ == e);
                    }
                }
            }
        } else {
            proof {
                assert(count_ext(names@, i as int, e) == 0) by {
                    assert forall|x: int| 0 <= x < i implies extension(names@[x]@) != e by {
                        if extension(names@[x]@) == e {
                            assert(ext_listed(old_t, extension(names@[x]@)));
                            let jj = choose|jj: int| 0 <= jj < old_t.len() && (#[trigger] old_t[jj]).0@ == extension(names@[x]@);
                        }
                    }
                    lemma_count_ext_zero(names@, i as int, e);
                }
            }
            t.push((ext, 1));
            proof {
                assert(entry_keys(t@) =~= entry_keys(old_t).push(e));
                assert forall|a: int, b: int| 0 <= a < b < t@.len() implies (#[trigger] t@[a]).0@ != (#[trigger] t@[b]).0@ by {
                    assert(t@[a] == old_t[a]);
                    if b < old_t.len() {
                        assert(t@[b] == old_t[b]);
                    }
                }
                assert forall|jj: int| 0 <= jj < t@.len() implies (#[trigger] t@[jj]).1 == count_ext(names@, i + 1, t@[jj].0@) by {
                    if jj < old_t.len() {
                        assert(t@[jj] == old_t[jj]);
                    }
                }
                assert forall|jj: int| 0 <= jj < t@.len() implies exists|x: int|
                    0 <= x < i + 1 && extension(names@[x]@) == (#[trigger] t@[jj]).0@ by {
                    if jj < old_t.len() {
                        assert(t@[jj] == old_t[jj]);
                        let x = choose|x: int| 0 <= x < i && extension(names@[x]@) == (#[trigger] old_t[jj]).0@;
                    } else {
                        assert(extension(names@[i as int]@) == t@[jj].0@);
                    }
                }
                assert forall|x: int| 0 <= x < i + 1 implies #[trigger] ext_listed(t@, extension(names@[x]@)) by {
                    if x < i {
                        assert(ext_listed(old_t, extension(names@[x]@)));
                        let jj = choose|jj: int| 0 <= jj < old_t.len() && (#[trigger] old_t[jj]).0@ == extension(names@[x]@);
                        assert(t@[jj] == old_t[jj]);
                    } else {
                        assert(t@[old_t.len() as int].0@ == e);
                    }
                }
            }
        }
}

/// The number of files per extension among the given file names, each
/// extension once, in the order of first appearance.
pub fn count_extensions(names: &[String]) -> (t: Vec<(String, u32)>)
    requires
        extensions_fit_u32(names@),
    ensures
        extension_counts(names@, t@),
{
    let n = names.len();
    let mut t: Vec<(String, u32)> = Vec::new();
    let mut i: usize = 0;
    assert(extensions_of(names@).take(0) =~= Seq::<Seq<char>>::empty());
    assert(entry_keys(t@) =~= Seq::<Seq<char>>::empty());
    while i < n
        invariant
            n == names@.len(),
            extensions_fit_u32(names@),
            i <= n,
            extension_counts_upto(names@, i as int, t@),
        decreases n - i,
    {
        add_name(&mut t, names, i);
        i = i + 1;
    }
    t
}

proof fn lemma_count_ext_zero(names: Seq<String>, n: int, e: Seq<char>)
    requires
        forall|x: int| 0 <= x < n ==> extension(names[x]@) != e,
    ensures
        count_ext(names, n, e) == 0,
    decreases n,
{
    if n > 0 {
        lemma_count_ext_zero(names, n - 1, e);
    }
}

/// The language snapshot of a commit whose tree holds files with the given
/// names: the local year and month of the commit, and the number of files
/// per extension. No extension may be had by more files than a `u32`
/// counts: the count would overflow.
pub fn lang_snapshot(time: &GitTime, names: &[String]) -> (s: LanguageStatSnapshot)
    requires
        valid_git_time(*time),
        extensions_fit_u32(names@),
    ensures
        exists|c: CalendarTime|
            valid_calendar(c) && local_calendar_of(time.seconds as int, c) && s.0 == c.year && s.1 == c.month0,
        extension_counts(names@, s.2@),
{
    let dt = dt_from_gittime(time);
    LanguageStatSnapshot(dt.year, dt.month0, count_extensions(names))
}

} // verus!
