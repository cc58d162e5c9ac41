//! The statistics: per author, per month and per language.
use vstd::prelude::*;
use crate::clock::{dt_from_gittime, local_now};
use crate::sorting::{sort_by_key, key_le, lazysorted, sorted_by_key};
use crate::model::{
    local_calendar_of, days_in_month, month_length, all_zero, valid_calendar, valid_git_time, AllResultStat, Author, CalendarTime, LanguageStatSnapshot,
    MainStat, ResultStat, Stat, TopMonthContributer,
};
use crate::tally::{
    by_author_month, by_email, by_month, everything, le3, lemma_tally_bounds, lemma_tally_none,
    lemma_tally_same, lemma_tally_split, lemma_tally_sub, lemma_tally_everything, sums_fit_u32, month_of, selects, tally, totals_fit_u32, Selector, Slot,
};
use crate::text::{
    lemma_seq_lt_asymmetric, lemma_seq_lt_irreflexive, lemma_seq_lt_total, lemma_seq_lt_transitive,
    seq_lt, string_less,
};

verus! {

/// The key under which the statistics of all commits are stored.
pub open spec fn total_key() -> Seq<char> {
    seq!['T', 'O', 'T', 'A', 'L']
}

/// `t` increased by one commit `s`.
pub open spec fn add_commit(t: (int, int, int), s: Stat) -> (int, int, int) {
    (t.0 + s.inserts, t.1 + s.dels, t.2 + 1)
}

/// Every counter of `rs` equals the count of the commits among the first
/// `n` with the given e-mail address (or of all of them), in its slot.
#[verifier::opaque]
pub open spec fn counters_match(
    stats: Seq<Stat>,
    cals: Seq<CalendarTime>,
    n: int,
    rs: ResultStat,
    email: Option<Seq<char>>,
) -> bool {
    &&& rs.stat@ == tally(stats, cals, n, by_email(email, Slot::All))
    &&& forall|d: int|
        0 <= d < 7 ==> (#[trigger] rs.days@[d])@ == tally(stats, cals, n, by_email(email, Slot::Day(d)))
    &&& forall|q: int|
        0 <= q < 4 ==> (#[trigger] rs.daytimes@[q])@ == tally(
            stats,
            cals,
            n,
            by_email(email, Slot::Daytime(q)),
        )
}

/// `name` is the author name of the first of the first `n` commits with
/// the e-mail address `email`.
#[verifier::opaque]
pub open spec fn first_name_of(stats: Seq<Stat>, n: int, email: Seq<char>, name: Seq<char>) -> bool {
    exists|i: int|
        0 <= i < n && #[trigger] stats[i].email@ == email && stats[i].author@ == name && forall|k: int|
            0 <= k < i ==> stats[k].email@ != email
}

/// The entry of an author in the statistics of the first `n` commits.
pub open spec fn author_entry(
    stats: Seq<Stat>,
    cals: Seq<CalendarTime>,
    n: int,
    key: Seq<char>,
    rs: ResultStat,
) -> bool {
    &&& rs.sign.1@ == key
    &&& first_name_of(stats, n, key, rs.sign.0@)
    &&& counters_match(stats, cals, n, rs, Some(key))
}

/// The entry for all of the first `n` commits.
pub open spec fn total_entry(stats: Seq<Stat>, cals: Seq<CalendarTime>, n: int, rs: ResultStat) -> bool {
    &&& rs.sign.0@ == total_key()
    &&& rs.sign.1@ == total_key()
    &&& counters_match(stats, cals, n, rs, None)
}

/// The keys of a table are in strictly increasing order.
pub open spec fn keys_sorted(t: Seq<(String, ResultStat)>) -> bool {
    forall|i: int, j: int| 0 <= i < j < t.len() ==> seq_lt(#[trigger] t[i].0@, #[trigger] t[j].0@)
}

/// The table of the statistics of each author by e-mail address, with the
/// entry `TOTAL` for all commits: what the statistics per author are.
pub open spec fn author_table(stats: Seq<Stat>, cals: Seq<CalendarTime>, t: Seq<(String, ResultStat)>) -> bool {
    let n = stats.len() as int;
    &&& keys_sorted(t)
    &&& exists|j: int| 0 <= j < t.len() && #[trigger] t[j].0@ == total_key()
    &&& forall|i: int| 0 <= i < n ==> exists|j: int| 0 <= j < t.len() && #[trigger] t[j].0@ == (
    #[trigger] stats[i].email@)
    &&& forall|j: int|
        0 <= j < t.len() ==> if (#[trigger] t[j].0@) == total_key() {
            total_entry(stats, cals, n, t[j].1)
        } else {
            author_entry(stats, cals, n, t[j].0@, t[j].1)
        }
}

/// Adds one commit, made at calendar time `c`, to the counters of `rs`.
fn record(rs: &mut ResultStat, s: &Stat, c: &CalendarTime)
    requires
        valid_calendar(*c),
        add_commit(old(rs).stat@, *s).0 <= u32::MAX,
        add_commit(old(rs).stat@, *s).1 <= u32::MAX,
        add_commit(old(rs).stat@, *s).2 <= u32::MAX,
        le3(old(rs).days@[c.weekday as int]@, old(rs).stat@),
        le3(old(rs).daytimes@[c.hour as int / 6]@, old(rs).stat@),
    ensures
        final(rs).sign == old(rs).sign,
        final(rs).stat@ == add_commit(old(rs).stat@, *s),
        forall|d: int|
            0 <= d < 7 ==> (#[trigger] final(rs).days@[d])@ == if d == c.weekday {
                add_commit(old(rs).days@[d]@, *s)
            } else {
                old(rs).days@[d]@
            },
        forall|q: int|
            0 <= q < 4 ==> (#[trigger] final(rs).daytimes@[q])@ == if q == c.hour / 6 {
                add_commit(old(rs).daytimes@[q]@, *s)
            } else {
                old(rs).daytimes@[q]@
            },
{
    rs.stat = MainStat {
        inserts: rs.stat.inserts + s.inserts,
        dels: rs.stat.dels + s.dels,
        commits: rs.stat.commits + 1,
    };
    let w = c.weekday as usize;
    let d = rs.days[w];
    rs.days[w] = MainStat { inserts: d.inserts + s.inserts, dels: d.dels + s.dels, commits: d.commits + 1 };
    let q = (c.hour / 6) as usize;
    let t = rs.daytimes[q];
    rs.daytimes[q] = MainStat { inserts: t.inserts + s.inserts, dels: t.dels + s.dels, commits: t.commits + 1 };
}


/// The position of `key` in a table with sorted keys, or the position where
/// it would have to be inserted.
fn find_key(table: &Vec<(String, ResultStat)>, key: &String) -> (r: (usize, bool))
    requires
        keys_sorted(table@),
    ensures
        r.0 <= table@.len(),
        r.1 ==> r.0 < table@.len() && table@[r.0 as int].0@ == key@,
        !r.1 ==> forall|k: int| 0 <= k < table@.len() ==> (#[trigger] table@[k].0@) != key@,
        !r.1 ==> forall|k: int| 0 <= k < r.0 ==> seq_lt(#[trigger] table@[k].0@, key@),
        !r.1 ==> forall|k: int| r.0 <= k < table@.len() ==> seq_lt(key@, #[trigger] table@[k].0@),
{
    let mut j: usize = 0;
    while j < table.len() && string_less(table[j].0.as_str(), key.as_str())
        invariant
            j <= table@.len(),
            keys_sorted(table@),
            forall|k: int| 0 <= k < j ==> seq_lt(#[trigger] table@[k].0@, key@),
        decreases table@.len() - j,
    {
        j = j + 1;
    }
    if j < table.len() && table[j].0 == *key {
        return (j, true);
    }
    proof {
        assert forall|k: int| 0 <= k < table@.len() implies (#[trigger] table@[k].0@) != key@ by {
            if k < j {
                lemma_seq_lt_irreflexive(key@);
            }
        }
        assert forall|k: int| j <= k < table@.len() implies seq_lt(key@, #[trigger] table@[k].0@) by {
            lemma_seq_lt_total(key@, table@[j as int].0@);
            if k > j {
                lemma_seq_lt_transitive(key@, table@[j as int].0@, table@[k].0@);
            }
        }
    }
    (j, false)
}


/// `new` is `old` with one commit `s`, made at calendar time `c`, added.
pub open spec fn recorded(old: ResultStat, new: ResultStat, s: Stat, c: CalendarTime) -> bool {
    &&& new.sign == old.sign
    &&& new.stat@ == add_commit(old.stat@, s)
    &&& forall|d: int|
        0 <= d < 7 ==> (#[trigger] new.days@[d])@ == if d == c.weekday {
            add_commit(old.days@[d]@, s)
        } else {
            old.days@[d]@
        }
    &&& forall|q: int|
        0 <= q < 4 ==> (#[trigger] new.daytimes@[q])@ == if q == c.hour / 6 {
            add_commit(old.daytimes@[q]@, s)
        } else {
            old.daytimes@[q]@
        }
}

/// The first commit of an address stays the first one.
proof fn lemma_first_name_extend(stats: Seq<Stat>, i: int, email: Seq<char>, name: Seq<char>)
    requires
        first_name_of(stats, i, email, name),
    ensures
        first_name_of(stats, i + 1, email, name),
{
    reveal(first_name_of);
    let w = choose|w: int|
        0 <= w < i && #[trigger] stats[w].email@ == email && stats[w].author@ == name && forall|k: int|
            0 <= k < w ==> stats[k].email@ != email;
    assert(0 <= w < i + 1 && stats[w].email@ == email);
}

/// Commit `i` is the first of its address when no earlier commit has it.
proof fn lemma_first_name_new(stats: Seq<Stat>, i: int, email: Seq<char>, name: Seq<char>)
    requires
        0 <= i < stats.len(),
        stats[i].email@ == email,
        stats[i].author@ == name,
        forall|k: int| 0 <= k < i ==> stats[k].email@ != email,
    ensures
        first_name_of(stats, i + 1, email, name),
{
    reveal(first_name_of);
    assert(stats[i].email@ == email);
}

/// Counting one more commit that the counters cover.
proof fn lemma_counters_step_self(
    stats: Seq<Stat>,
    cals: Seq<CalendarTime>,
    i: int,
    old: ResultStat,
    new: ResultStat,
    email: Option<Seq<char>>,
)
    requires
        0 <= i < stats.len(),
        i < cals.len(),
        valid_calendar(cals[i]),
        counters_match(stats, cals, i, old, email),
        recorded(old, new, stats[i], cals[i]),
        email matches Some(e) ==> stats[i].email@ == e,
    ensures
        counters_match(stats, cals, i + 1, new, email),
{
    reveal(counters_match);
    assert forall|d: int| 0 <= d < 7 implies (#[trigger] new.days@[d])@ == tally(
        stats,
        cals,
        i + 1,
        by_email(email, Slot::Day(d)),
    ) by {
        assert(old.days@[d]@ == tally(stats, cals, i, by_email(email, Slot::Day(d))));
    }
    assert forall|q: int| 0 <= q < 4 implies (#[trigger] new.daytimes@[q])@ == tally(
        stats,
        cals,
        i + 1,
        by_email(email, Slot::Daytime(q)),
    ) by {
        assert(old.daytimes@[q]@ == tally(stats, cals, i, by_email(email, Slot::Daytime(q))));
    }
}

/// Counters of another e-mail address do not change with a commit.
proof fn lemma_counters_step_other(
    stats: Seq<Stat>,
    cals: Seq<CalendarTime>,
    i: int,
    rs: ResultStat,
    email: Seq<char>,
)
    requires
        0 <= i < stats.len(),
        counters_match(stats, cals, i, rs, Some(email)),
        stats[i].email@ != email,
    ensures
        counters_match(stats, cals, i + 1, rs, Some(email)),
{
    reveal(counters_match);
    assert forall|d: int| 0 <= d < 7 implies (#[trigger] rs.days@[d])@ == tally(
        stats,
        cals,
        i + 1,
        by_email(Some(email), Slot::Day(d)),
    ) by {
        assert(rs.days@[d]@ == tally(stats, cals, i, by_email(Some(email), Slot::Day(d))));
    }
    assert forall|q: int| 0 <= q < 4 implies (#[trigger] rs.daytimes@[q])@ == tally(
        stats,
        cals,
        i + 1,
        by_email(Some(email), Slot::Daytime(q)),
    ) by {
        assert(rs.daytimes@[q]@ == tally(stats, cals, i, by_email(Some(email), Slot::Daytime(q))));
    }
}

/// Fresh counters of an address that no earlier commit has match.
proof fn lemma_counters_fresh(
    stats: Seq<Stat>,
    cals: Seq<CalendarTime>,
    i: int,
    rs: ResultStat,
    email: Option<Seq<char>>,
)
    requires
        0 <= i <= stats.len(),
        all_zero(rs),
        email is None ==> i == 0,
        forall|k: int| 0 <= k < i ==> (email matches Some(e) ==> (#[trigger] stats[k]).email@ != e),
    ensures
        counters_match(stats, cals, i, rs, email),
{
    reveal(counters_match);
    assert forall|d: int| 0 <= d < 7 implies (#[trigger] rs.days@[d])@ == tally(
        stats,
        cals,
        i,
        by_email(email, Slot::Day(d)),
    ) by {
        lemma_tally_none(stats, cals, i, by_email(email, Slot::Day(d)));
    }
    assert forall|q: int| 0 <= q < 4 implies (#[trigger] rs.daytimes@[q])@ == tally(
        stats,
        cals,
        i,
        by_email(email, Slot::Daytime(q)),
    ) by {
        lemma_tally_none(stats, cals, i, by_email(email, Slot::Daytime(q)));
    }
    lemma_tally_none(stats, cals, i, by_email(email, Slot::All));
}

/// The counters of the first `i` commits stay within the `u32` range after
/// one more commit is added.
proof fn lemma_counters_room(
    stats: Seq<Stat>,
    cals: Seq<CalendarTime>,
    i: int,
    rs: ResultStat,
    email: Option<Seq<char>>,
)
    requires
        0 <= i < stats.len(),
        cals.len() == stats.len(),
        valid_calendar(cals[i]),
        totals_fit_u32(stats, cals),
        counters_match(stats, cals, i, rs, email),
        email matches Some(e) ==> stats[i].email@ == e,
    ensures
        add_commit(rs.stat@, stats[i]).0 <= u32::MAX,
        add_commit(rs.stat@, stats[i]).1 <= u32::MAX,
        add_commit(rs.stat@, stats[i]).2 <= u32::MAX,
        le3(rs.days@[cals[i].weekday as int]@, rs.stat@),
        le3(rs.daytimes@[cals[i].hour as int / 6]@, rs.stat@),
{
    reveal(counters_match);
    let n = stats.len() as int;
    lemma_tally_bounds(stats, cals, i + 1, n, by_email(email, Slot::All));
    let w = cals[i].weekday as int;
    let q = cals[i].hour as int / 6;
    assert(rs.days@[w]@ == tally(stats, cals, i, by_email(email, Slot::Day(w))));
    assert(rs.daytimes@[q]@ == tally(stats, cals, i, by_email(email, Slot::Daytime(q))));
    lemma_tally_sub(stats, cals, i, by_email(email, Slot::Day(w)), by_email(email, Slot::All));
    lemma_tally_sub(stats, cals, i, by_email(email, Slot::Daytime(q)), by_email(email, Slot::All));
}


/// Inserting a key between the keys before and after it keeps them sorted.
proof fn lemma_insert_sorted(t: Seq<(String, ResultStat)>, j: int, e: (String, ResultStat))
    requires
        0 <= j <= t.len(),
        keys_sorted(t),
        forall|k: int| 0 <= k < j ==> seq_lt(#[trigger] t[k].0@, e.0@),
        forall|k: int| j <= k < t.len() ==> seq_lt(e.0@, #[trigger] t[k].0@),
    ensures
        keys_sorted(t.insert(j, e)),
{
    let u = t.insert(j, e);
    assert forall|a: int, b: int| 0 <= a < b < u.len() implies seq_lt(#[trigger] u[a].0@, #[trigger] u[b].0@) by {
        if a < j && b == j {
            assert(u[a] == t[a]);
            assert(u[b] == e);
        } else if a < j && b > j {
            assert(u[a] == t[a]);
            assert(u[b] == t[b - 1]);
            assert(seq_lt(t[a].0@, t[b - 1].0@));
        } else if a == j {
            assert(u[a] == e);
            assert(u[b] == t[b - 1]);
        } else if b < j {
            assert(u[a] == t[a]);
            assert(u[b] == t[b]);
        } else {
            assert(u[a] == t[a - 1]);
            assert(u[b] == t[b - 1]);
            assert(seq_lt(t[a - 1].0@, t[b - 1].0@));
        }
    }
}

/// The table holds the correct entry of each address among the first `i`
/// commits, in increasing order of address.
pub open spec fn table_of_prefix(
    stats: Seq<Stat>,
    cals: Seq<CalendarTime>,
    i: int,
    t: Seq<(String, ResultStat)>,
) -> bool {
    &&& keys_sorted(t)
    &&& forall|j: int| 0 <= j < t.len() ==> author_entry(stats, cals, i, #[trigger] t[j].0@, t[j].1)
    &&& forall|k: int|
        0 <= k < i ==> exists|j: int| 0 <= j < t.len() && #[trigger] t[j].0@ == (#[trigger] stats[k].email@)
}

/// Adds commit `i` to the entry of its address, creating the entry if
/// needed.
#[verifier::spinoff_prover]
fn add_to_table(table: &mut Vec<(String, ResultStat)>, stats: &[Stat], cals: &[CalendarTime], i: usize)
    requires
        i < stats@.len(),
        cals@.len() == stats@.len(),
        valid_calendar(cals@[i as int]),
        totals_fit_u32(stats@, cals@),
        table_of_prefix(stats@, cals@, i as int, old(table)@),
    ensures
        table_of_prefix(stats@, cals@, i + 1, final(table)@),
{
    let s = &stats[i];
    let c = &cals[i];
    let ghost old_table = table@;
    let ghost ii = i as int;
    let (j, found) = find_key(table, &s.email);
    if found {
        let mut entry = table.remove(j);
        let ghost old_rs = entry.1;
        proof {
            lemma_counters_room(stats@, cals@, ii, entry.1, Some(s.email@));
        }
        record(&mut entry.1, s, c);
        proof {
            lemma_counters_step_self(stats@, cals@, ii, old_rs, entry.1, Some(s.email@));
            lemma_first_name_extend(stats@, ii, s.email@, entry.1.sign.0@);
        }
        table.insert(j, entry);
        proof {
            assert(table@ =~= old_table.update(j as int, entry));
            assert forall|jj: int| 0 <= jj < table@.len() implies author_entry(
                stats@,
                cals@,
                ii + 1,
                #[trigger] table@[jj].0@,
                table@[jj].1,
            ) by {
                if jj != j {
                    assert(table@[jj] == old_table[jj]);
                    assert(author_entry(stats@, cals@, ii, old_table[jj].0@, old_table[jj].1));
                    if old_table[jj].0@ == s.email@ {
                        assert(seq_lt(old_table[jj].0@, old_table[j as int].0@) || seq_lt(
                            old_table[j as int].0@,
                            old_table[jj].0@,
                        ));
                        lemma_seq_lt_irreflexive(s.email@);
                    }
                    lemma_counters_step_other(stats@, cals@, ii, table@[jj].1, table@[jj].0@);
                    lemma_first_name_extend(stats@, ii, table@[jj].0@, table@[jj].1.sign.0@);
                }
            }
            assert forall|k: int| 0 <= k < ii + 1 implies exists|jj: int|
                0 <= jj < table@.len() && #[trigger] table@[jj].0@ == (#[trigger] stats@[k].email@) by {
                if k < ii {
                    let jj = choose|jj: int|
                        0 <= jj < old_table.len() && #[trigger] old_table[jj].0@ == stats@[k].email@;
                    assert(table@[jj].0@ == old_table[jj].0@);
                } else {
                    assert(table@[j as int].0@ == stats@[k].email@);
                }
            }
        }
    } else {
        let mut rs = ResultStat::new(s.author.clone(), s.email.clone());
        let ghost old_rs = rs;
        proof {
            assert forall|k: int| 0 <= k < ii implies stats@[k].email@ != s.email@ by {
                if stats@[k].email@ == s.email@ {
                    let jj = choose|jj: int|
                        0 <= jj < old_table.len() && #[trigger] old_table[jj].0@ == stats@[k].email@;
                }
            }
            lemma_counters_fresh(stats@, cals@, ii, rs, Some(s.email@));
            lemma_counters_room(stats@, cals@, ii, rs, Some(s.email@));
        }
        record(&mut rs, s, c);
        proof {
            lemma_counters_step_self(stats@, cals@, ii, old_rs, rs, Some(s.email@));
            lemma_first_name_new(stats@, ii, s.email@, rs.sign.0@);
        }
        let entry = (s.email.clone(), rs);
        proof {
            lemma_insert_sorted(old_table, j as int, entry);
        }
        table.insert(j, entry);
        proof {
            assert forall|jj: int| 0 <= jj < table@.len() implies author_entry(
                stats@,
                cals@,
                ii + 1,
                #[trigger] table@[jj].0@,
                table@[jj].1,
            ) by {
                if jj != j {
                    let oj = if jj < j { jj } else { jj - 1 };
                    assert(table@[jj] == old_table[oj]);
                    assert(author_entry(stats@, cals@, ii, old_table[oj].0@, old_table[oj].1));
                    lemma_counters_step_other(stats@, cals@, ii, table@[jj].1, table@[jj].0@);
                    lemma_first_name_extend(stats@, ii, table@[jj].0@, table@[jj].1.sign.0@);
                }
            }
            assert forall|k: int| 0 <= k < ii + 1 implies exists|jj: int|
                0 <= jj < table@.len() && #[trigger] table@[jj].0@ == (#[trigger] stats@[k].email@) by {
                if k < ii {
                    let oj = choose|oj: int|
                        0 <= oj < old_table.len() && #[trigger] old_table[oj].0@ == stats@[k].email@;
                    let jj = if oj < j { oj } else { oj + 1 };
                    assert(table@[jj] == old_table[oj]);
                } else {
                    assert(table@[j as int].0@ == stats@[k].email@);
                }
            }
        }
    }
}

/// Stores the entry for all commits under the key `TOTAL`, replacing an
/// entry of an author with that address.
fn put_total(table: &mut Vec<(String, ResultStat)>, total: ResultStat, stats: &[Stat], cals: &[CalendarTime])
    requires
        table_of_prefix(stats@, cals@, stats@.len() as int, old(table)@),
        total_entry(stats@, cals@, stats@.len() as int, total),
    ensures
        author_table(stats@, cals@, final(table)@),
{
    let ghost n = stats@.len() as int;
    proof {
        reveal_strlit("TOTAL");
    }
    let key = String::from_str("TOTAL");
    assert(key@ == total_key());
    let ghost old_table = table@;
    let (j, found) = find_key(table, &key);
    let entry = (key, total);
    if found {
        table.set(j, entry);
        proof {
            assert(table@ =~= old_table.update(j as int, entry));
            assert forall|jj: int| 0 <= jj < table@.len() implies if (#[trigger] table@[jj].0@) == total_key() {
                total_entry(stats@, cals@, n, table@[jj].1)
            } else {
                author_entry(stats@, cals@, n, table@[jj].0@, table@[jj].1)
            } by {
                if jj != j {
                    assert(table@[jj] == old_table[jj]);
                    if old_table[jj].0@ == total_key() {
                        lemma_seq_lt_irreflexive(total_key());
                        assert(seq_lt(old_table[jj].0@, old_table[j as int].0@) || seq_lt(
                            old_table[j as int].0@,
                            old_table[jj].0@,
                        ));
                    }
                }
            }
            assert forall|a: int, b: int| 0 <= a < b < table@.len() implies seq_lt(
                #[trigger] table@[a].0@,
                #[trigger] table@[b].0@,
            ) by {
                assert(table@[a].0@ == old_table[a].0@);
                assert(table@[b].0@ == old_table[b].0@);
            }
            assert forall|k: int| 0 <= k < n implies exists|jj: int|
                0 <= jj < table@.len() && #[trigger] table@[jj].0@ == (#[trigger] stats@[k].email@) by {
                let jj = choose|jj: int|
                    0 <= jj < old_table.len() && #[trigger] old_table[jj].0@ == stats@[k].email@;
                assert(table@[jj].0@ == old_table[jj].0@);
            }
            assert(table@[j as int].0@ == total_key());
        }
    } else {
        proof {
            lemma_insert_sorted(old_table, j as int, entry);
        }
        table.insert(j, entry);
        proof {
            assert forall|jj: int| 0 <= jj < table@.len() implies if (#[trigger] table@[jj].0@) == total_key() {
                total_entry(stats@, cals@, n, table@[jj].1)
            } else {
                author_entry(stats@, cals@, n, table@[jj].0@, table@[jj].1)
            } by {
                if jj != j {
                    let oj = if jj < j { jj } else { jj - 1 };
                    assert(table@[jj] == old_table[oj]);
                    assert(old_table[oj].0@ != total_key());
                    assert(author_entry(stats@, cals@, n, old_table[oj].0@, old_table[oj].1));
                }
            }
            assert forall|k: int| 0 <= k < n implies exists|jj: int|
                0 <= jj < table@.len() && #[trigger] table@[jj].0@ == (#[trigger] stats@[k].email@) by {
                let oj = choose|oj: int|
                    0 <= oj < old_table.len() && #[trigger] old_table[oj].0@ == stats@[k].email@;
                let jj = if oj < j { oj } else { oj + 1 };
                assert(table@[jj] == old_table[oj]);
            }
            assert(table@[j as int].0@ == total_key());
        }
    }
}

/// The statistics of each author by e-mail address, and of all commits
/// under the key `TOTAL`, where `cals[i]` is the local calendar time of
/// `stats[i]`: the number of commits and lines, in total, per day of the
/// week and per quarter of the day, with the name of each address's first
/// commit. An address `TOTAL` is overwritten by the entry for all commits.
pub fn author_stats_at(stats: &[Stat], cals: &[CalendarTime]) -> (table: Vec<(String, ResultStat)>)
    requires
        cals@.len() == stats@.len(),
        forall|i: int| 0 <= i < cals@.len() ==> valid_calendar(#[trigger] cals@[i]),
        totals_fit_u32(stats@, cals@),
    ensures
        author_table(stats@, cals@, table@),
{
    let mut table: Vec<(String, ResultStat)> = Vec::new();
    proof {
        reveal_strlit("TOTAL");
    }
    let mut total = ResultStat::new(String::from_str("TOTAL"), String::from_str("TOTAL"));
    proof {
        lemma_counters_fresh(stats@, cals@, 0, total, None);
    }
    let n = stats.len();
    let mut i: usize = 0;
    while i < n
        invariant
            n == stats@.len(),
            cals@.len() == n,
            forall|k: int| 0 <= k < cals@.len() ==> valid_calendar(#[trigger] cals@[k]),
            totals_fit_u32(stats@, cals@),
            0 <= i <= n,
            table_of_prefix(stats@, cals@, i as int, table@),
            total.sign.0@ == total_key(),
            total.sign.1@ == total_key(),
            counters_match(stats@, cals@, i as int, total, None),
        decreases n - i,
    {
        add_to_table(&mut table, stats, cals, i);
        let ghost old_total = total;
        proof {
            lemma_counters_room(stats@, cals@, i as int, total, None);
        }
        record(&mut total, &stats[i], &cals[i]);
        proof {
            lemma_counters_step_self(stats@, cals@, i as int, old_total, total, None);
        }
        i = i + 1;
    }
    put_total(&mut table, total, stats, cals);
    table
}


/// The statistics of each author by e-mail address, and of all commits
/// under the key `TOTAL` (see `author_stats_at`), with the days of the week
/// and the hours taken in the machine's local time zone.
pub fn get_more_author_stats(stats: &[Stat]) -> (table: Vec<(String, ResultStat)>)
    requires
        forall|i: int| 0 <= i < stats@.len() ==> valid_git_time(#[trigger] stats@[i].time),
        sums_fit_u32(stats@),
    ensures
        exists|cals: Seq<CalendarTime>| local_calendars(stats@, cals) && author_table(stats@, cals, table@),
{
    let cals = local_times(stats);
    proof {
        lemma_tally_everything(stats@, cals@, stats@.len() as int);
    }
    let table = author_stats_at(stats, cals.as_slice());
    assert(local_calendars(stats@, cals@) && author_table(stats@, cals@, table@));
    table
}

/// `cals[i]` is a calendar time of commit `i` in a local time zone: the
/// calendar of its instant moved by an offset under a day.
pub open spec fn local_calendars(stats: Seq<Stat>, cals: Seq<CalendarTime>) -> bool {
    &&& cals.len() == stats.len()
    &&& forall|i: int|
        0 <= i < cals.len() ==> valid_calendar(#[trigger] cals[i]) && local_calendar_of(
            stats[i].time.seconds as int,
            cals[i],
        )
}

/// The local calendar time of each commit.
pub fn local_times(stats: &[Stat]) -> (cals: Vec<CalendarTime>)
    requires
        forall|i: int| 0 <= i < stats@.len() ==> valid_git_time(#[trigger] stats@[i].time),
    ensures
        local_calendars(stats@, cals@),
{
    let mut cals: Vec<CalendarTime> = Vec::new();
    let mut i: usize = 0;
    while i < stats.len()
        invariant
            i <= stats@.len(),
            cals@.len() == i,
            forall|k: int| 0 <= k < stats@.len() ==> valid_git_time(#[trigger] stats@[k].time),
            forall|k: int|
                0 <= k < cals@.len() ==> valid_calendar(#[trigger] cals@[k]) && local_calendar_of(
                    stats@[k].time.seconds as int,
                    cals@[k],
                ),
        decreases stats@.len() - i,
    {
        cals.push(dt_from_gittime(&stats[i].time));
        i = i + 1;
    }
    cals
}


/// The commits of each author in one month among the first `n` commits:
/// `t` holds each author with such a commit once, with the count of that
/// author's commits in the month.
pub open spec fn month_authors_upto(
    stats: Seq<Stat>,
    cals: Seq<CalendarTime>,
    n: int,
    month: (int, int),
    t: Seq<(Author, MainStat)>,
) -> bool {
    &&& forall|j: int, k: int| 0 <= j < k < t.len() ==> (#[trigger] t[j]).0.key() != (#[trigger] t[k]).0.key()
    &&& forall|j: int|
        0 <= j < t.len() ==> (#[trigger] t[j]).1@ == tally(stats, cals, n, by_author_month(t[j].0.key(), month))
    &&& forall|j: int|
        0 <= j < t.len() ==> exists|i: int|
            0 <= i < n && #[trigger] selects(stats[i], cals[i], by_author_month((#[trigger] t[j]).0.key(), month))
    &&& forall|i: int|
        0 <= i < n && month_of(cals[i]) == month ==> #[trigger] listed(t, (stats[i].author@, stats[i].email@))
}

/// Some entry of `t` belongs to the author `key`.
pub open spec fn listed(t: Seq<(Author, MainStat)>, key: (Seq<char>, Seq<char>)) -> bool {
    exists|j: int| 0 <= j < t.len() && (#[trigger] t[j]).0.key() == key
}

/// Changing counts keeps the authors listed; appending lists one more.
proof fn lemma_listed_keep(a: Seq<(Author, MainStat)>, b: Seq<(Author, MainStat)>, key: (Seq<char>, Seq<char>))
    requires
        listed(a, key),
        a.len() <= b.len(),
        forall|j: int| 0 <= j < a.len() ==> (#[trigger] b[j]).0.key() == a[j].0.key(),
    ensures
        listed(b, key),
{
    let j = choose|j: int| 0 <= j < a.len() && (#[trigger] a[j]).0.key() == key;
    assert(b[j].0.key() == key);
}

/// The commits of each author in one month.
pub open spec fn month_authors(
    stats: Seq<Stat>,
    cals: Seq<CalendarTime>,
    month: (int, int),
    t: Seq<(Author, MainStat)>,
) -> bool {
    month_authors_upto(stats, cals, stats.len() as int, month, t)
}

/// Counts commit `i` for its author when it was made in `month`.
#[verifier::spinoff_prover]
fn add_to_month(t: &mut Vec<(Author, MainStat)>, stats: &[Stat], cals: &[CalendarTime], i: usize, month: (i32, u32))
    requires
        i < stats@.len(),
        cals@.len() == stats@.len(),
        sums_fit_u32(stats@),
        month_authors_upto(stats@, cals@, i as int, (month.0 as int, month.1 as int), old(t)@),
    ensures
        month_authors_upto(stats@, cals@, i + 1, (month.0 as int, month.1 as int), final(t)@),
{
    let ghost m = (month.0 as int, month.1 as int);
    let ghost n = stats@.len() as int;
    let s = &stats[i];
    let c = &cals[i];
    let ghost ii = i as int;
    let ghost old_t = t@;
    let ghost key = (s.author@, s.email@);
    assert(s == stats@[ii]);
    assert(c == cals@[ii]);
    if c.year == month.0 && c.month0 == month.1 {
        assert(month_of(cals@[ii]) == m);
        assert(selects(stats@[ii], cals@[ii], by_author_month(key, m)));
        let a = Author(s.author.clone(), s.email.clone());
        let mut j: usize = 0;
        while j < t.len() && !t[j].0.same(&a)
            invariant
                j <= t@.len(),
                a.key() == key,
                forall|k: int| 0 <= k < j ==> (#[trigger] t@[k]).0.key() != key,
            decreases t@.len() - j,
        {
            j = j + 1;
        }
        proof {
            lemma_tally_bounds(stats@, cals@, ii + 1, n, by_author_month(key, m));
            lemma_tally_everything(stats@, cals@, n);
        }
        if j < t.len() {
            proof {
                assert(old_t[j as int].0.key() == key);
                assert(old_t[j as int].1@ == tally(stats@, cals@, ii, by_author_month(key, m)));
            }
            let (who, ms) = t.remove(j);
            let ms2 = MainStat { inserts: ms.inserts + s.inserts, dels: ms.dels + s.dels, commits: ms.commits + 1 };
            t.insert(j, (who, ms2));
            proof {
                assert(t@ =~= old_t.update(j as int, (who, ms2)));
                assert forall|x: int, y: int| 0 <= x < y < t@.len() implies (#[trigger] t@[x]).0.key() != (#[trigger] t@[y]).0.key() by {
                    assert(t@[x].0.key() == old_t[x].0.key());
                    assert(t@[y].0.key() == old_t[y].0.key());
                }
                assert forall|jj: int| 0 <= jj < t@.len() implies (#[trigger] t@[jj]).1@ == tally(
                    stats@,
                    cals@,
                    ii + 1,
                    by_author_month(t@[jj].0.key(), m),
                ) by {
                    assert(old_t[jj].1@ == tally(stats@, cals@, ii, by_author_month(old_t[jj].0.key(), m)));
                }
                assert forall|jj: int| 0 <= jj < t@.len() implies exists|k: int|
                    0 <= k < ii + 1 && #[trigger] selects(stats@[k], cals@[k], by_author_month((#[trigger] t@[jj]).0.key(), m)) by {
                    let k = choose|k: int|
                        0 <= k < ii && #[trigger] selects(stats@[k], cals@[k], by_author_month(old_t[jj].0.key(), m));
                    assert(t@[jj].0.key() == old_t[jj].0.key());
                }
                assert forall|k: int| 0 <= k < ii + 1 && month_of(cals@[k]) == m implies #[trigger] listed(
                    t@,
                    (stats@[k].author@, stats@[k].email@),
                ) by {
                    if k < ii {
                        lemma_listed_keep(old_t, t@, (stats@[k].author@, stats@[k].email@));
                    } else {
                        assert(t@[j as int].0.key() == key);
                    }
                }
            }
        } else {
            let ms = MainStat { inserts: s.inserts, dels: s.dels, commits: 1 };
            proof {
                assert forall|k: int| 0 <= k < ii implies !selects(stats@[k], cals@[k], by_author_month(key, m)) by {
                    if selects(stats@[k], cals@[k], by_author_month(key, m)) {
                        assert(listed(old_t, (stats@[k].author@, stats@[k].email@)));
                        let jj = choose|jj: int| 0 <= jj < old_t.len() && (#[trigger] old_t[jj]).0.key() == key;
                    }
                }
                lemma_tally_none(stats@, cals@, ii, by_author_month(key, m));
            }
            t.push((a, ms));
            proof {
                assert forall|x: int, y: int| 0 <= x < y < t@.len() implies (#[trigger] t@[x]).0.key() != (#[trigger] t@[y]).0.key() by {
                    if y == old_t.len() {
                        assert(t@[x] == old_t[x]);
                    } else {
                        assert(t@[x] == old_t[x]);
                        assert(t@[y] == old_t[y]);
                    }
                }
                assert forall|jj: int| 0 <= jj < t@.len() implies (#[trigger] t@[jj]).1@ == tally(
                    stats@,
                    cals@,
                    ii + 1,
                    by_author_month(t@[jj].0.key(), m),
                ) by {
                    if jj < old_t.len() {
                        assert(t@[jj] == old_t[jj]);
                    }
                }
                assert forall|jj: int| 0 <= jj < t@.len() implies exists|k: int|
                    0 <= k < ii + 1 && #[trigger] selects(stats@[k], cals@[k], by_author_month((#[trigger] t@[jj]).0.key(), m)) by {
                    if jj < old_t.len() {
                        assert(t@[jj] == old_t[jj]);
                        let k = choose|k: int|
                            0 <= k < ii && #[trigger] selects(stats@[k], cals@[k], by_author_month(old_t[jj].0.key(), m));
                    } else {
                        assert(selects(stats@[ii], cals@[ii], by_author_month(t@[jj].0.key(), m)));
                    }
                }
                assert forall|k: int| 0 <= k < ii + 1 && month_of(cals@[k]) == m implies #[trigger] listed(
                    t@,
                    (stats@[k].author@, stats@[k].email@),
                ) by {
                    if k < ii {
                        lemma_listed_keep(old_t, t@, (stats@[k].author@, stats@[k].email@));
                    } else {
                        assert(t@[old_t.len() as int].0.key() == key);
                    }
                }
            }
        }
    } else {
        proof {
            assert(month_of(cals@[ii]) != m);
            assert forall|jj: int| 0 <= jj < t@.len() implies (#[trigger] t@[jj]).1@ == tally(
                stats@,
                cals@,
                ii + 1,
                by_author_month(t@[jj].0.key(), m),
            ) by {
                assert(!selects(stats@[ii], cals@[ii], by_author_month(t@[jj].0.key(), m)));
            }
            assert forall|k: int| 0 <= k < ii + 1 && month_of(cals@[k]) == m implies #[trigger] listed(
                t@,
                (stats@[k].author@, stats@[k].email@),
            ) by {
                assert(k < ii);
            }
            assert forall|jj: int| 0 <= jj < t@.len() implies exists|k: int|
                0 <= k < ii + 1 && #[trigger] selects(stats@[k], cals@[k], by_author_month((#[trigger] t@[jj]).0.key(), m)) by {
                let k = choose|k: int|
                    0 <= k < ii && #[trigger] selects(stats@[k], cals@[k], by_author_month(t@[jj].0.key(), m));
            }
        }
    }
}

/// The commits of each author (name and address) in the given month, where
/// `cals[i]` is the local calendar time of `stats[i]`.
pub fn get_authors_stats(stats: &[Stat], cals: &[CalendarTime], month: (i32, u32)) -> (t: Vec<(Author, MainStat)>)
    requires
        cals@.len() == stats@.len(),
        sums_fit_u32(stats@),
    ensures
        month_authors(stats@, cals@, (month.0 as int, month.1 as int), t@),
{
    let mut t: Vec<(Author, MainStat)> = Vec::new();
    let n = stats.len();
    let mut i: usize = 0;
    while i < n
        invariant
            n == stats@.len(),
            cals@.len() == n,
            sums_fit_u32(stats@),
            i <= n,
            month_authors_upto(stats@, cals@, i as int, (month.0 as int, month.1 as int), t@),
        decreases n - i,
    {
        add_to_month(&mut t, stats, cals, i, month);
        i = i + 1;
    }
    t
}


/// The position of the author with the most commits, the last one among
/// several with the most, as `Iterator::max_by_key` picks it; `None` for an
/// empty table.
pub fn top_author(t: &Vec<(Author, MainStat)>) -> (r: Option<usize>)
    ensures
        r is None <==> t@.len() == 0,
        r matches Some(j) ==> {
            &&& j < t@.len()
            &&& forall|k: int| 0 <= k < t@.len() ==> (#[trigger] t@[k]).1.commits <= t@[j as int].1.commits
            &&& forall|k: int| j < k < t@.len() ==> (#[trigger] t@[k]).1.commits < t@[j as int].1.commits
        },
{
    if t.len() == 0 {
        return None;
    }
    let mut best: usize = 0;
    let mut k: usize = 1;
    while k < t.len()
        invariant
            1 <= k <= t@.len(),
            best < k,
            forall|x: int| 0 <= x < k ==> (#[trigger] t@[x]).1.commits <= t@[best as int].1.commits,
            forall|x: int| best < x < k ==> (#[trigger] t@[x]).1.commits < t@[best as int].1.commits,
        decreases t@.len() - k,
    {
        if t[k].1.commits >= t[best].1.commits {
            best = k;
        }
        k = k + 1;
    }
    Some(best)
}

/// The index of a month, counted from the month 0 of year 0.
pub open spec fn month_index(m: (int, int)) -> int {
    m.0 * 12 + m.1
}

/// The number of the first `n` commits made after the month of index `c`.
pub open spec fn count_after(cals: Seq<CalendarTime>, n: int, c: int) -> int
    decreases n,
{
    if n <= 0 {
        0
    } else {
        count_after(cals, n - 1, c) + if month_index(month_of(cals[n - 1])) > c { 1int } else { 0int }
    }
}

/// The number of the first `n` commits made in month `m`.
pub open spec fn count_month(cals: Seq<CalendarTime>, n: int, m: (int, int)) -> int
    decreases n,
{
    if n <= 0 {
        0
    } else {
        count_month(cals, n - 1, m) + if month_of(cals[n - 1]) == m { 1int } else { 0int }
    }
}

proof fn lemma_count_after_step(cals: Seq<CalendarTime>, n: int, m: (int, int))
    requires
        0 <= n <= cals.len(),
        0 <= m.1 < 12,
        forall|i: int| 0 <= i < cals.len() ==> valid_calendar(#[trigger] cals[i]),
    ensures
        count_after(cals, n, month_index(m) - 1) == count_after(cals, n, month_index(m)) + count_month(cals, n, m),
    decreases n,
{
    if n > 0 {
        lemma_count_after_step(cals, n - 1, m);
        assert(valid_calendar(cals[n - 1]));
    }
}

proof fn lemma_count_after_bounds(cals: Seq<CalendarTime>, n: int, c: int)
    requires
        0 <= n <= cals.len(),
    ensures
        0 <= count_after(cals, n, c) <= n,
        count_after(cals, n, c) == n ==> forall|i: int| 0 <= i < n ==> month_index(month_of(#[trigger] cals[i])) > c,
        (forall|i: int| 0 <= i < n ==> month_index(month_of(#[trigger] cals[i])) <= c) ==> count_after(cals, n, c) == 0,
        (forall|i: int| 0 <= i < n ==> month_index(month_of(#[trigger] cals[i])) > c) ==> count_after(cals, n, c) == n,
    decreases n,
{
    if n > 0 {
        lemma_count_after_bounds(cals, n - 1, c);
    }
}

proof fn lemma_count_month_positive(cals: Seq<CalendarTime>, n: int, m: (int, int))
    requires
        0 <= n <= cals.len(),
        count_month(cals, n, m) > 0,
    ensures
        exists|i: int| 0 <= i < n && month_of(#[trigger] cals[i]) == m,
    decreases n,
{
    if month_of(cals[n - 1]) != m {
        lemma_count_month_positive(cals, n - 1, m);
        let i = choose|i: int| 0 <= i < n - 1 && month_of(#[trigger] cals[i]) == m;
        assert(month_of(cals[i]) == m);
    } else {
        assert(month_of(cals[n - 1]) == m);
    }
}

/// The number of commits made in the given month.
fn count_in_month(cals: &[CalendarTime], month: (i32, u32)) -> (r: usize)
    ensures
        r == count_month(cals@, cals@.len() as int, (month.0 as int, month.1 as int)),
{
    let mut r: usize = 0;
    let mut i: usize = 0;
    while i < cals.len()
        invariant
            i <= cals@.len(),
            r == count_month(cals@, i as int, (month.0 as int, month.1 as int)),
            r <= i,
        decreases cals@.len() - i,
    {
        if cals[i].year == month.0 && cals[i].month0 == month.1 {
            r = r + 1;
        }
        i = i + 1;
    }
    r
}

/// `e` names the author with the most commits in month `m`, with that
/// author's commits in the month.
pub open spec fn top_entry(stats: Seq<Stat>, cals: Seq<CalendarTime>, m: (int, int), e: TopMonthContributer) -> bool {
    let n = stats.len() as int;
    &&& e.year == m.0 as u16
    &&& e.month == m.1 as u8
    &&& e.stat@ == tally(stats, cals, n, by_author_month(e.sign.key(), m))
    &&& exists|i: int| 0 <= i < n && #[trigger] selects(stats[i], cals[i], by_author_month(e.sign.key(), m))
    &&& forall|i: int|
        0 <= i < n && month_of(cals[i]) == m ==> #[trigger] tally(
            stats,
            cals,
            n,
            by_author_month((stats[i].author@, stats[i].email@), m),
        ).2 <= e.stat.commits
}

/// Some month of `ms` is `m`.
pub open spec fn has_month(ms: Seq<(int, int)>, m: (int, int)) -> bool {
    exists|a: int| 0 <= a < ms.len() && ms[a] == m
}

/// The months of `ms` are months with commits, each of them with its entry
/// in `v` at the same position.
pub open spec fn entries_of_months(
    stats: Seq<Stat>,
    cals: Seq<CalendarTime>,
    ms: Seq<(int, int)>,
    v: Seq<TopMonthContributer>,
) -> bool {
    &&& ms.len() == v.len()
    &&& forall|a: int| 0 <= a < ms.len() ==> exists|i: int| 0 <= i < stats.len() && month_of(cals[i]) == #[trigger] ms[a]
    &&& forall|a: int| 0 <= a < ms.len() ==> top_entry(stats, cals, ms[a], #[trigger] v[a])
}

/// The entry of a month with commits.
fn month_entry(stats: &[Stat], cals: &[CalendarTime], month: (i32, u32)) -> (e: TopMonthContributer)
    requires
        cals@.len() == stats@.len(),
        sums_fit_u32(stats@),
        month.1 < 12,
        exists|i: int| 0 <= i < stats@.len() && month_of(#[trigger] cals@[i]) == (month.0 as int, month.1 as int),
    ensures
        top_entry(stats@, cals@, (month.0 as int, month.1 as int), e),
{
    let ghost m = (month.0 as int, month.1 as int);
    let t = get_authors_stats(stats, cals, month);
    proof {
        let i = choose|i: int| 0 <= i < stats@.len() && month_of(#[trigger] cals@[i]) == m;
        assert(listed(t@, (stats@[i].author@, stats@[i].email@)));
    }
    let j = top_author(&t).unwrap();
    let e = TopMonthContributer::new(month.0 as u16, month.1 as u8, t[j].0.duplicate(), t[j].1);
    proof {
        assert(e.sign.key() == t@[j as int].0.key());
        assert forall|i: int| 0 <= i < stats@.len() && month_of(cals@[i]) == m implies #[trigger] tally(
            stats@,
            cals@,
            stats@.len() as int,
            by_author_month((stats@[i].author@, stats@[i].email@), m),
        ).2 <= e.stat.commits by {
            assert(listed(t@, (stats@[i].author@, stats@[i].email@)));
            let jj = choose|jj: int| 0 <= jj < t@.len() && (#[trigger] t@[jj]).0.key() == (stats@[i].author@, stats@[i].email@);
            assert(t@[jj].1.commits <= t@[j as int].1.commits);
        }
        let w = choose|w: int|
            0 <= w < stats@.len() && #[trigger] selects(stats@[w], cals@[w], by_author_month(t@[j as int].0.key(), m));
        assert(selects(stats@[w], cals@[w], by_author_month(e.sign.key(), m)));
    }
    e
}


/// Walks back month by month from `now` until every commit is counted, and
/// records the top contributor of each month with commits, latest first;
/// fails where the walk meets a month without the present day.
fn monthly_entries(stats: &[Stat], cals: &[CalendarTime], now: CalendarTime) -> (r: (
    Vec<TopMonthContributer>,
    Ghost<Seq<(int, int)>>,
    bool,
))
    requires
        cals@.len() == stats@.len(),
        forall|i: int| 0 <= i < cals@.len() ==> valid_calendar(#[trigger] cals@[i]),
        valid_calendar(now),
        sums_fit_u32(stats@),
        forall|i: int|
            0 <= i < cals@.len() ==> month_index(month_of(#[trigger] cals@[i])) <= month_index(month_of(now)),
    ensures
        r.2 <==> !walk_hits_short_month(cals@, now),
        r.2 ==> entries_of_months(stats@, cals@, r.1@, r.0@),
        r.2 ==> forall|a: int, b: int| 0 <= a < b < r.1@.len() ==> month_index(#[trigger] r.1@[b]) < month_index(#[trigger] r.1@[a]),
        r.2 ==> forall|i: int| 0 <= i < stats@.len() ==> #[trigger] has_month(r.1@, month_of(cals@[i])),
{
    let n = stats.len();
    let mut year: i32 = now.year;
    let mut month: u32 = now.month0;
    let mut covered: usize = 0;
    let mut entries: Vec<TopMonthContributer> = Vec::new();
    let ghost mut ms: Seq<(int, int)> = Seq::empty();
    proof {
        lemma_count_after_bounds(cals@, n as int, month_index(month_of(now)));
    }
    while covered < n
        invariant
            n == stats@.len(),
            cals@.len() == n,
            forall|i: int| 0 <= i < cals@.len() ==> valid_calendar(#[trigger] cals@[i]),
            sums_fit_u32(stats@),
            month < 12,
            -262145 <= year <= 262143,
            covered == count_after(cals@, n as int, month_index((year as int, month as int))),
            entries_of_months(stats@, cals@, ms, entries@),
            forall|a: int, b: int| 0 <= a < b < ms.len() ==> month_index(#[trigger] ms[b]) < month_index(#[trigger] ms[a]),
            forall|a: int| 0 <= a < ms.len() ==> month_index((year as int, month as int)) < month_index(#[trigger] ms[a]),
            forall|i: int|
                0 <= i < n && month_index(month_of(cals@[i])) > month_index((year as int, month as int))
                    ==> #[trigger] has_month(ms, month_of(cals@[i])),
            valid_calendar(now),
            month_index((year as int, month as int)) <= month_index(month_of(now)),
            forall|k: int|
                month_index((year as int, month as int)) <= k < month_index(month_of(now)) ==> #[trigger] days_of_month_index(k)
                    >= now.day,
        decreases month_index((year as int, month as int)) + 262144 * 12 + 12,
    {
        let ghost cur = (year as int, month as int);
        proof {
            lemma_count_after_bounds(cals@, n as int, month_index(cur));
            if month_index(cur) < -262144 * 12 {
                assert forall|i: int| 0 <= i < n implies month_index(month_of(#[trigger] cals@[i])) > month_index(cur) by {
                    assert(valid_calendar(cals@[i]));
                }
                lemma_count_after_bounds(cals@, n as int, month_index(cur));
                assert(false);
            }
            lemma_count_after_step(cals@, n as int, cur);
            lemma_count_after_bounds(cals@, n as int, month_index(cur) - 1);
        }
        let count = count_in_month(cals, (year, month));
        if count > 0 {
            proof {
                lemma_count_month_positive(cals@, n as int, cur);
            }
            let e = month_entry(stats, cals, (year, month));
            let ghost old_ms = ms;
            let ghost old_entries = entries@;
            entries.push(e);
            proof {
                ms = ms.push(cur);
                assert forall|a: int| 0 <= a < ms.len() implies exists|i: int|
                    0 <= i < stats@.len() && month_of(cals@[i]) == #[trigger] ms[a] by {
                    if a < old_ms.len() {
                        assert(ms[a] == old_ms[a]);
                    } else {
                        let i = choose|i: int| 0 <= i < stats@.len() && month_of(#[trigger] cals@[i]) == cur;
                        assert(month_of(cals@[i]) == ms[a]);
                    }
                }
                assert forall|a: int| 0 <= a < ms.len() implies top_entry(stats@, cals@, ms[a], #[trigger] entries@[a]) by {
                    if a < old_ms.len() {
                        assert(ms[a] == old_ms[a]);
                        assert(entries@[a] == old_entries[a]);
                    }
                }
                assert forall|i: int|
                    0 <= i < n && month_index(month_of(cals@[i])) > month_index(cur) - 1 implies #[trigger] has_month(
                    ms,
                    month_of(cals@[i]),
                ) by {
                    assert(valid_calendar(cals@[i]));
                    if month_index(month_of(cals@[i])) > month_index(cur) {
                        assert(has_month(old_ms, month_of(cals@[i])));
                        let a = choose|a: int| 0 <= a < old_ms.len() && old_ms[a] == month_of(cals@[i]);
                        assert(ms[a] == old_ms[a]);
                    } else {
                        assert(month_of(cals@[i]) == cur);
                        assert(ms[old_ms.len() as int] == cur);
                    }
                }
            }
        } else {
            proof {
                assert forall|i: int|
                    0 <= i < n && month_index(month_of(cals@[i])) > month_index(cur) - 1 implies #[trigger] has_month(
                    ms,
                    month_of(cals@[i]),
                ) by {
                    assert(valid_calendar(cals@[i]));
                    if month_index(month_of(cals@[i])) == month_index(cur) {
                        assert(month_of(cals@[i]) == cur);
                        assert(count_month(cals@, n as int, cur) > 0) by {
                            lemma_count_month_of(cals@, n as int, cur, i);
                        }
                    }
                }
            }
        }
        covered = covered + count;
        if month == 0 {
            year = year - 1;
            month = 11;
        } else {
            month = month - 1;
        }
        assert(month_index((year as int, month as int)) == month_index(cur) - 1);
        proof {
            lemma_days_of_month_index(year as int, month as int);
        }
        if now.day > month_length(year, month) {
            proof {
                lemma_count_after_bounds(cals@, n as int, month_index(cur));
                let w = choose|w: int| 0 <= w < n && month_index(month_of(#[trigger] cals@[w])) <= month_index(cur);
                assert(reached(cals@, month_index(cur)));
                assert(days_of_month_index(month_index(cur) - 1) < now.day);
            }
            return (entries, Ghost(ms), false);
        }
    }
    proof {
        lemma_count_after_bounds(cals@, n as int, month_index((year as int, month as int)));
        let c = month_index((year as int, month as int));
        assert forall|k: int|
            k < month_index(month_of(now)) && #[trigger] days_of_month_index(k) < now.day implies !reached(cals@, k + 1) by {
            if reached(cals@, k + 1) {
                let w = choose|w: int| 0 <= w < cals@.len() && month_index(month_of(#[trigger] cals@[w])) <= k + 1;
                assert(month_index(month_of(cals@[w])) > c);
            }
        }
    }
    (entries, Ghost(ms), true)
}

/// The year and month of index `year * 12 + month`.
proof fn lemma_days_of_month_index(year: int, month: int)
    requires
        0 <= month < 12,
    ensures
        days_of_month_index(year * 12 + month) == days_in_month(year, month),
{
    vstd::arithmetic::div_mod::lemma_fundamental_div_mod_converse(year * 12 + month, 12, year, month);
}

proof fn lemma_count_month_of(cals: Seq<CalendarTime>, n: int, m: (int, int), i: int)
    requires
        0 <= i < n <= cals.len(),
        month_of(cals[i]) == m,
    ensures
        count_month(cals, n, m) > 0,
    decreases n,
{
    if i < n - 1 {
        lemma_count_month_of(cals, n - 1, m, i);
        lemma_count_month_nonneg(cals, n - 1, m);
    } else {
        lemma_count_month_nonneg(cals, n - 1, m);
    }
}

proof fn lemma_count_month_nonneg(cals: Seq<CalendarTime>, n: int, m: (int, int))
    ensures
        count_month(cals, n, m) >= 0,
    decreases n,
{
    if n > 0 {
        lemma_count_month_nonneg(cals, n - 1, m);
    }
}


/// The key by which the top contributors are ordered: `year * 12 + month`,
/// as `cmp_dates` computes it.
pub open spec fn date_key(e: TopMonthContributer) -> int {
    e.year as int * 12 + e.month as int
}

/// `v` holds the top contributor of each month with commits, once each,
/// in decreasing order of `date_key`.
pub open spec fn top_monthly(stats: Seq<Stat>, cals: Seq<CalendarTime>, v: Seq<TopMonthContributer>) -> bool {
    exists|ms: Seq<(int, int)>|
        {
            &&& entries_of_months(stats, cals, ms, v)
            &&& forall|a: int, b: int| 0 <= a < ms.len() && 0 <= b < ms.len() && a != b ==> ms[a] != ms[b]
            &&& forall|i: int| 0 <= i < stats.len() ==> #[trigger] has_month(ms, month_of(cals[i]))
            &&& forall|a: int, b: int| 0 <= a < b < v.len() ==> date_key(#[trigger] v[b]) <= date_key(#[trigger] v[a])
        }
}

/// The number of days of the month of index `k`.
pub open spec fn days_of_month_index(k: int) -> int {
    days_in_month(k / 12, k % 12)
}

/// Some commit lies in the month of index `k` or earlier.
pub open spec fn reached(cals: Seq<CalendarTime>, k: int) -> bool {
    exists|i: int| 0 <= i < cals.len() && month_index(month_of(#[trigger] cals[i])) <= k
}

/// The walk back from the present month, which after each month with
/// commits still to count moves the present date to the same day of the
/// previous month, meets a month that does not have that day.
pub open spec fn walk_hits_short_month(cals: Seq<CalendarTime>, now: CalendarTime) -> bool {
    exists|k: int|
        k < month_index(month_of(now)) && #[trigger] days_of_month_index(k) < now.day && reached(cals, k + 1)
}

/// Some commit lies in a later month than `now`.
pub open spec fn commit_after(cals: Seq<CalendarTime>, now: CalendarTime) -> bool {
    exists|i: int| 0 <= i < cals.len() && month_index(month_of(#[trigger] cals[i])) > month_index(month_of(now))
}

/// The commits lie in at least two months and one of them has a year that,
/// cut to a `u16`, makes `year * 12 + month` overflow a `u16`, as the
/// comparison of the months in `cmp_dates` does.
pub open spec fn date_key_overflow(cals: Seq<CalendarTime>) -> bool {
    &&& exists|i: int, k: int| 0 <= i < cals.len() && 0 <= k < cals.len() && month_of(#[trigger] cals[i]) != month_of(#[trigger] cals[k])
    &&& exists|i: int| 0 <= i < cals.len() && (#[trigger] cals[i].year as u16) as int * 12 + cals[i].month0 > 65535
}

/// `year * 12 + month` in a `u16`.
pub fn month_key(year: u16, month: u8) -> (k: u16)
    requires
        year * 12 + month <= u16::MAX,
    ensures
        k == year * 12 + month,
{
    year * 12 + (month as u16)
}

/// Compares two months as the order of the top contributors does: by
/// `year * 12 + month`.
pub fn cmp_dates(ayear: u16, amonth: u8, byear: u16, bmonth: u8) -> (o: core::cmp::Ordering)
    requires
        ayear * 12 + amonth <= u16::MAX,
        byear * 12 + bmonth <= u16::MAX,
    ensures
        (o == core::cmp::Ordering::Less) <==> ayear * 12 + amonth < byear * 12 + bmonth,
        (o == core::cmp::Ordering::Equal) <==> ayear * 12 + amonth == byear * 12 + bmonth,
        (o == core::cmp::Ordering::Greater) <==> ayear * 12 + amonth > byear * 12 + bmonth,
{
    let a = month_key(ayear, amonth);
    let b = month_key(byear, bmonth);
    if a < b {
        core::cmp::Ordering::Less
    } else if a == b {
        core::cmp::Ordering::Equal
    } else {
        core::cmp::Ordering::Greater
    }
}

/// The top contributor of each month with commits, latest first, where
/// `cals[i]` is the local calendar time of `stats[i]` and `now` that of the
/// present; `None` where some commit lies after the present month (the walk
/// back from the present month never ends there), where the walk meets a
/// month without the present day of the month (moving the date there
/// fails), or where ordering the months by `cmp_dates` overflows.
pub fn top_contributers_at(stats: &[Stat], cals: &[CalendarTime], now: CalendarTime) -> (r: Option<
    Vec<TopMonthContributer>,
>)
    requires
        cals@.len() == stats@.len(),
        forall|i: int| 0 <= i < cals@.len() ==> valid_calendar(#[trigger] cals@[i]),
        valid_calendar(now),
        sums_fit_u32(stats@),
    ensures
        r is None <==> commit_after(cals@, now) || date_key_overflow(cals@) || walk_hits_short_month(cals@, now),
        r matches Some(v) ==> top_monthly(stats@, cals@, v@),
{
    let n = stats.len();
    let now_index: i64 = (now.year as i64) * 12 + (now.month0 as i64);
    let mut i: usize = 0;
    while i < n
        invariant
            n == cals@.len(),
            forall|k: int| 0 <= k < cals@.len() ==> valid_calendar(#[trigger] cals@[k]),
            now_index == month_index(month_of(now)),
            i <= n,
            forall|k: int| 0 <= k < i ==> month_index(month_of(#[trigger] cals@[k])) <= month_index(month_of(now)),
        decreases n - i,
    {
        if (cals[i].year as i64) * 12 + (cals[i].month0 as i64) > now_index {
            assert(month_index(month_of(cals@[i as int])) > month_index(month_of(now)));
            return None;
        }
        i = i + 1;
    }
    let mut several = false;
    let mut big = false;
    let mut k: usize = 0;
    while k < n
        invariant
            n == cals@.len(),
            k <= n,
            several == exists|x: int| 0 <= x < k && month_of(#[trigger] cals@[x]) != month_of(cals@[0]),
            big == exists|x: int| 0 <= x < k && (#[trigger] cals@[x].year as u16) as int * 12 + cals@[x].month0 > 65535,
        decreases n - k,
    {
        if cals[k].year != cals[0].year || cals[k].month0 != cals[0].month0 {
            several = true;
        }
        if (cals[k].year as u16) as u64 * 12 + (cals[k].month0 as u64) > 65535 {
            big = true;
        }
        k = k + 1;
    }
    proof {
        if date_key_overflow(cals@) {
            let (x, y) = choose|x: int, y: int|
                0 <= x < cals@.len() && 0 <= y < cals@.len() && month_of(#[trigger] cals@[x]) != month_of(#[trigger] cals@[y]);
            if month_of(cals@[x]) == month_of(cals@[0]) {
                assert(month_of(cals@[y]) != month_of(cals@[0]));
            }
        }
    }
    if several && big {
        return None;
    }
    let (entries, Ghost(ms), walked) = monthly_entries(stats, cals, now);
    if !walked {
        return None;
    }
    let len = entries.len();
    let mut items: Vec<(i64, i64, usize)> = Vec::new();
    let mut k: usize = 0;
    while k < len
        invariant
            len == entries@.len(),
            k <= len,
            items@.len() == k,
            forall|x: int| 0 <= x < k ==> (#[trigger] items@[x]).0 == -date_key(entries@[x]) && items@[x].1 == 0 && items@[x].2 == x,
        decreases len - k,
    {
        let e = &entries[k];
        let key: i64 = (e.year as i64) * 12 + (e.month as i64);
        items.push((-key, 0, k));
        k = k + 1;
    }
    let ghost items_seq = items@;
    proof {
        assert(items_seq.no_duplicates()) by {
            assert forall|x: int, y: int| 0 <= x < items_seq.len() && 0 <= y < items_seq.len() && x != y implies items_seq[x] != items_seq[y] by {
                assert(items_seq[x].2 == x);
                assert(items_seq[y].2 == y);
            }
        }
        items_seq.lemma_multiset_has_no_duplicates();
    }
    let sorted = sort_by_key(items);
    proof {
        broadcast use vstd::seq_lib::group_to_multiset_ensures;
        assert(items_seq.len() == len);
        vstd::seq_lib::to_multiset_len(sorted@);
        vstd::seq_lib::to_multiset_len(items_seq);
        assert(sorted@.len() == len);
        sorted@.lemma_multiset_has_no_duplicates_conv();
    }
    let mut out: Vec<TopMonthContributer> = Vec::new();
    let ghost mut out_ms: Seq<(int, int)> = Seq::empty();
    let mut p: usize = 0;
    while p < len
        invariant
            len == entries@.len(),
            len == ms.len(),
            sorted@.len() == len,
            p <= len,
            out@.len() == p,
            out_ms.len() == p,
            entries_of_months(stats@, cals@, ms, entries@),
            forall|x: int| 0 <= x < len ==> (#[trigger] items_seq[x]).0 == -date_key(entries@[x]) && items_seq[x].1 == 0 && items_seq[x].2 == x,
            sorted@.to_multiset() == items_seq.to_multiset(),
            items_seq.len() == len,
            forall|x: int| 0 <= x < p ==> (#[trigger] sorted@[x]).2 < len && out_ms[x] == ms[sorted@[x].2 as int]
                && top_entry(stats@, cals@, out_ms[x], out@[x]) && date_key(out@[x]) == date_key(entries@[sorted@[x].2 as int]),
        decreases len - p,
    {
        proof {
            broadcast use vstd::seq_lib::group_to_multiset_ensures;
            assert(sorted@.to_multiset().count(sorted@[p as int]) > 0);
            assert(items_seq.contains(sorted@[p as int]));
        }
        let k = sorted[p].2;
        proof {
            let q = choose|q: int| 0 <= q < items_seq.len() && items_seq[q] == sorted@[p as int];
            assert(items_seq[q].2 == q);
        }
        let e = &entries[k];
        let copy = TopMonthContributer::new(e.year, e.month, e.sign.duplicate(), e.stat);
        proof {
            assert(top_entry(stats@, cals@, ms[k as int], entries@[k as int]));
            out_ms = out_ms.push(ms[k as int]);
        }
        out.push(copy);
        p = p + 1;
    }
    proof {
        broadcast use vstd::seq_lib::group_to_multiset_ensures;
        assert(entries_of_months(stats@, cals@, out_ms, out@)) by {
            assert forall|a: int| 0 <= a < out_ms.len() implies exists|i: int|
                0 <= i < stats@.len() && month_of(cals@[i]) == #[trigger] out_ms[a] by {
                assert(sorted@[a].2 < len);
                assert(out_ms[a] == ms[sorted@[a].2 as int]);
            }
            assert forall|a: int| 0 <= a < out_ms.len() implies top_entry(stats@, cals@, out_ms[a], #[trigger] out@[a]) by {
                assert(sorted@[a].2 < len);
            }
        }
        assert forall|a: int, b: int| 0 <= a < out_ms.len() && 0 <= b < out_ms.len() && a != b implies out_ms[a] != out_ms[b] by {
            assert(sorted@[a] != sorted@[b]);
            assert(sorted@.to_multiset().count(sorted@[a]) > 0);
            assert(sorted@.to_multiset().count(sorted@[b]) > 0);
            let qa = sorted@[a].2 as int;
            let qb = sorted@[b].2 as int;
            assert(items_seq.contains(sorted@[a]));
            assert(items_seq.contains(sorted@[b]));
            let xa = choose|xa: int| 0 <= xa < items_seq.len() && items_seq[xa] == sorted@[a];
            let xb = choose|xb: int| 0 <= xb < items_seq.len() && items_seq[xb] == sorted@[b];
            assert(items_seq[xa].2 == xa);
            assert(items_seq[xb].2 == xb);
            if qa < qb {
                assert(month_index(ms[qb]) < month_index(ms[qa]));
            } else {
                assert(month_index(ms[qa]) < month_index(ms[qb]));
            }
        }
        assert forall|i: int| 0 <= i < stats@.len() implies #[trigger] has_month(out_ms, month_of(cals@[i])) by {
            assert(has_month(ms, month_of(cals@[i])));
            let q = choose|q: int| 0 <= q < ms.len() && ms[q] == month_of(cals@[i]);
            assert(sorted@.to_multiset().count(items_seq[q]) > 0);
            assert(sorted@.contains(items_seq[q]));
            let a = choose|a: int| 0 <= a < sorted@.len() && sorted@[a] == items_seq[q];
            assert(out_ms[a] == ms[q]);
        }
        assert forall|a: int, b: int| 0 <= a < b < out@.len() implies date_key(#[trigger] out@[b]) <= date_key(#[trigger] out@[a]) by {
            assert(key_le(sorted@[a], sorted@[b]));
            assert(sorted@.to_multiset().count(sorted@[a]) > 0);
            assert(sorted@.to_multiset().count(sorted@[b]) > 0);
            assert(items_seq.contains(sorted@[a]));
            assert(items_seq.contains(sorted@[b]));
            let xa = choose|xa: int| 0 <= xa < items_seq.len() && items_seq[xa] == sorted@[a];
            let xb = choose|xb: int| 0 <= xb < items_seq.len() && items_seq[xb] == sorted@[b];
        }
    }
    Some(out)
}


/// The top contributor of each month with commits, latest first (see
/// `top_contributers_at`), with the months taken in the machine's local
/// time zone and the present month read from the clock.
pub fn calculate_top_contributers_per_month(stats: &[Stat]) -> (r: Option<Vec<TopMonthContributer>>)
    requires
        forall|i: int| 0 <= i < stats@.len() ==> valid_git_time(#[trigger] stats@[i].time),
        sums_fit_u32(stats@),
    ensures
        exists|cals: Seq<CalendarTime>, now: CalendarTime|
            {
                &&& local_calendars(stats@, cals)
                &&& valid_calendar(now)
                &&& (r is None <==> commit_after(cals, now) || date_key_overflow(cals) || walk_hits_short_month(
                    cals,
                    now,
                ))
                &&& (r matches Some(v) ==> top_monthly(stats@, cals, v@))
            },
{
    let cals = local_times(stats);
    let now = local_now();
    let r = top_contributers_at(stats, cals.as_slice(), now);
    assert({
        &&& local_calendars(stats@, cals@)
        &&& valid_calendar(now)
        &&& (r is None <==> commit_after(cals@, now) || date_key_overflow(cals@) || walk_hits_short_month(
            cals@,
            now,
        ))
        &&& (r matches Some(v) ==> top_monthly(stats@, cals@, v@))
    });
    r
}

/// Four times the instant of the `c`-th of the five points that split the
/// span from the first to the last of the sorted times `t` into quarters.
pub open spec fn quarter_point(t: Seq<i64>, c: int) -> int {
    4 * t[0] + c * (t.last() - t[0])
}

/// The positions chosen for the points from `c` on, walking the sorted
/// times from position `pos`: when point `c` falls strictly between the
/// time at `pos` and the next one, the next one is chosen for it and the
/// walk goes on with the following point; at the last time, the points
/// still open all get the last position.
pub open spec fn picks_from(t: Seq<i64>, pos: int, c: int) -> Seq<int>
    decreases t.len() - pos,
{
    if pos + 1 >= t.len() || pos < 0 {
        Seq::new((5 - c) as nat, |k: int| pos)
    } else if 4 * t[pos] < quarter_point(t, c) && quarter_point(t, c) < 4 * t[pos + 1] {
        seq![pos + 1] + picks_from(t, pos + 1, c + 1)
    } else {
        picks_from(t, pos + 1, c)
    }
}

/// The positions, in the sorted times `t`, of the five commits whose trees
/// the language snapshots are taken from.
pub open spec fn five_point_picks(t: Seq<i64>) -> Seq<int> {
    seq![0int] + picks_from(t, 0, 1)
}

/// The times are in increasing order.
pub open spec fn sorted_times(t: Seq<i64>) -> bool {
    forall|i: int, j: int| 0 <= i <= j < t.len() ==> t[i] <= t[j]
}

proof fn lemma_picks_len(t: Seq<i64>, pos: int, c: int)
    requires
        0 <= pos < t.len(),
        1 <= c <= 4,
        sorted_times(t),
    ensures
        picks_from(t, pos, c).len() == 5 - c,
    decreases t.len() - pos,
{
    if pos + 1 < t.len() {
        if 4 * t[pos] < quarter_point(t, c) && quarter_point(t, c) < 4 * t[pos + 1] {
            if c == 4 {
                assert(t[pos + 1] <= t[t.len() - 1]);
                assert(quarter_point(t, c) == 4 * t[t.len() - 1]) by (nonlinear_arith)
                    requires
                        c == 4,
                        quarter_point(t, c) == 4 * t[0] + c * (t[t.len() - 1] - t[0]),
                ;
                assert(false);
            }
            lemma_picks_len(t, pos + 1, c + 1);
        } else {
            lemma_picks_len(t, pos + 1, c);
        }
    }
}

proof fn lemma_picks_range(t: Seq<i64>, pos: int, c: int)
    requires
        0 <= pos < t.len(),
    ensures
        forall|k: int| 0 <= k < picks_from(t, pos, c).len() ==> pos <= #[trigger] picks_from(t, pos, c)[k] < t.len(),
    decreases t.len() - pos,
{
    let here = picks_from(t, pos, c);
    if pos + 1 < t.len() {
        if 4 * t[pos] < quarter_point(t, c) && quarter_point(t, c) < 4 * t[pos + 1] {
            lemma_picks_range(t, pos + 1, c + 1);
            let rest = picks_from(t, pos + 1, c + 1);
            assert(here == seq![pos + 1] + rest);
            assert forall|k: int| 0 <= k < here.len() implies pos <= #[trigger] here[k] < t.len() by {
                if k > 0 {
                    assert(here[k] == rest[k - 1]);
                }
            }
        } else {
            lemma_picks_range(t, pos + 1, c);
            assert(here == picks_from(t, pos + 1, c));
        }
    } else {
        assert(here == Seq::new((5 - c) as nat, |k: int| pos));
        assert forall|k: int| 0 <= k < here.len() implies pos <= #[trigger] here[k] < t.len() by {
            assert(here[k] == pos);
        }
    }
}

/// The positions of the five snapshot commits in sorted times: the first
/// one, then for each of the points at a quarter, half and three quarters
/// of the span and at its end, the commit after the gap the point falls in
/// (`five_point_picks`).
pub fn five_points(t: &[i64]) -> (r: [usize; 5])
    requires
        t@.len() >= 1,
        sorted_times(t@),
        forall|i: int| 0 <= i < t@.len() ==> crate::model::MIN_SECONDS <= #[trigger] t@[i] <= crate::model::MAX_SECONDS,
    ensures
        forall|k: int| 0 <= k < 5 ==> r@[k] == five_point_picks(t@)[k],
        forall|k: int| 0 <= k < 5 ==> (#[trigger] r@[k]) < t@.len(),
{
    proof {
        lemma_picks_range(t@, 0, 1);
        lemma_picks_len(t@, 0, 1);
        assert forall|k: int| 0 <= k < 5 implies five_point_picks(t@)[k] < t@.len() by {
            if k > 0 {
                assert(five_point_picks(t@)[k] == picks_from(t@, 0, 1)[k - 1]);
            }
        }
    }
    let n = t.len();
    let first = t[0];
    let last = t[n - 1];
    let mut got: [usize; 5] = [0usize; 5];
    let mut counter: usize = 1;
    let mut pos: usize = 0;
    proof {
        lemma_picks_len(t@, 0, 1);
    }
    loop
        invariant
            n == t@.len(),
            n >= 1,
            first == t@[0],
            last == t@.last(),
            sorted_times(t@),
            forall|i: int| 0 <= i < t@.len() ==> crate::model::MIN_SECONDS <= #[trigger] t@[i] <= crate::model::MAX_SECONDS,
            1 <= counter <= 4,
            pos < n,
            got@[0] == 0,
            picks_from(t@, pos as int, counter as int).len() == 5 - counter,
            forall|k: int| 0 <= k < 5 ==> five_point_picks(t@)[k] < n,
            forall|k: int| 1 <= k < counter ==> got@[k] == five_point_picks(t@)[k],
            forall|k: int|
                0 <= k < 5 - counter ==> picks_from(t@, pos as int, counter as int)[k] == five_point_picks(t@)[counter + k],
        decreases n - pos,
    {
        if pos + 1 < n {
            proof {
                assert(t@[0] <= t@[n - 1]);
                let d = last - first;
                let c = counter as int;
                assert(0 <= c * d <= 4 * 17_000_000_000_000) by (nonlinear_arith)
                    requires
                        0 <= d <= 17_000_000_000_000,
                        1 <= c <= 4,
                ;
            }
            let point: i64 = 4 * first + (counter as i64) * (last - first);
            assert(point == quarter_point(t@, counter as int));
            let ghost old_rest = picks_from(t@, pos as int, counter as int);
            if 4 * t[pos] < point && point < 4 * t[pos + 1] {
                proof {
                    if counter == 4 {
                        assert(t@[pos as int + 1] <= t@[n as int - 1]);
                        assert(point == 4 * last) by (nonlinear_arith)
                            requires
                                counter == 4,
                                point == 4 * first + (counter as int) * (last - first),
                        ;
                        assert(false);
                    }
                    assert(old_rest == seq![pos + 1] + picks_from(t@, pos + 1, counter + 1));
                    assert(old_rest[0] == pos + 1);
                    lemma_picks_len(t@, pos + 1, counter + 1);
                }
                got[counter] = pos + 1;
                counter = counter + 1;
                proof {
                    assert forall|k: int| 0 <= k < 5 - counter implies #[trigger] picks_from(t@, pos + 1, counter as int)[k]
                        == five_point_picks(t@)[counter + k] by {
                        assert(old_rest[k + 1] == picks_from(t@, pos + 1, counter as int)[k]);
                    }
                }
            } else {
                proof {
                    lemma_picks_len(t@, pos + 1, counter as int);
                }
            }
            pos = pos + 1;
        } else {
            let ghost rest = picks_from(t@, pos as int, counter as int);
            let ghost c0 = counter as int;
            while counter < 5
                invariant
                    c0 <= counter <= 5,
                    1 <= c0 <= 4,
                    got@[0] == 0,
                    rest == Seq::new((5 - c0) as nat, |k: int| pos as int),
                    forall|k: int| 0 <= k < 5 ==> five_point_picks(t@)[k] < n,
                    n == t@.len(),
                    forall|k: int| 0 <= k < 5 - c0 ==> rest[k] == five_point_picks(t@)[c0 + k],
                    forall|k: int| 1 <= k < counter ==> got@[k] == five_point_picks(t@)[k],
                decreases 5 - counter,
            {
                proof {
                    assert(rest[counter - c0] == pos as int);
                }
                got[counter] = pos;
                counter = counter + 1;
            }
            return got;
        }
    }
}


/// The commits keyed by their time as git orders it (seconds, then offset),
/// with their positions.
pub open spec fn time_keys(stats: Seq<Stat>) -> Seq<(i64, i64, usize)> {
    Seq::new(stats.len(), |i: int| (stats[i].time.seconds, stats[i].time.offset_minutes as i64, i as usize))
}

/// The first components of the items.
pub open spec fn seconds_of(s: Seq<(i64, i64, usize)>) -> Seq<i64> {
    Seq::new(s.len(), |i: int| s[i].0)
}

/// The commits whose trees the five language snapshots are taken from:
/// after sorting the commits by time, the first one and, for each of the
/// points at a quarter, half, three quarters and the end of the span of
/// time, the commit chosen by `five_points`.
pub fn lang_snapshot_points(stats: &[Stat]) -> (r: [usize; 5])
    requires
        stats@.len() >= 1,
        forall|i: int| 0 <= i < stats@.len() ==> valid_git_time(#[trigger] stats@[i].time),
    ensures
        sorted_by_key(lazysorted(time_keys(stats@))),
        lazysorted(time_keys(stats@)).to_multiset() == time_keys(stats@).to_multiset(),
        forall|k: int| 0 <= k < 5 ==> {
            let order = lazysorted(time_keys(stats@));
            &&& (#[trigger] r@[k]) < stats@.len()
            &&& r@[k] == order[five_point_picks(seconds_of(order))[k]].2
        },
{
    broadcast use vstd::seq_lib::group_to_multiset_ensures;
    let n = stats.len();
    let mut items: Vec<(i64, i64, usize)> = Vec::new();
    let mut i: usize = 0;
    while i < n
        invariant
            n == stats@.len(),
            i <= n,
            items@ == time_keys(stats@).take(i as int),
        decreases n - i,
    {
        items.push((stats[i].time.seconds, stats[i].time.offset_minutes as i64, i));
        proof {
            assert(items@ =~= time_keys(stats@).take(i + 1));
        }
        i = i + 1;
    }
    assert(items@ =~= time_keys(stats@));
    let ghost keys = items@;
    let sorted = sort_by_key(items);
    proof {
        vstd::seq_lib::to_multiset_len(sorted@);
        vstd::seq_lib::to_multiset_len(keys);
    }
    let mut times: Vec<i64> = Vec::new();
    let mut j: usize = 0;
    while j < n
        invariant
            n == stats@.len(),
            sorted@.len() == n,
            keys == time_keys(stats@),
            sorted@.to_multiset() == keys.to_multiset(),
            j <= n,
            times@ == seconds_of(sorted@).take(j as int),
        decreases n - j,
    {
        times.push(sorted[j].0);
        proof {
            assert(times@ =~= seconds_of(sorted@).take(j + 1));
        }
        j = j + 1;
    }
    proof {
        assert(times@ =~= seconds_of(sorted@));
        assert forall|a: int, b: int| 0 <= a <= b < times@.len() implies times@[a] <= times@[b] by {
            if a < b {
                assert(key_le(sorted@[a], sorted@[b]));
            }
        }
        assert forall|a: int| 0 <= a < times@.len() implies crate::model::MIN_SECONDS <= #[trigger] times@[a]
            <= crate::model::MAX_SECONDS by {
            assert(sorted@.to_multiset().count(sorted@[a]) > 0);
            assert(keys.contains(sorted@[a]));
            let q = choose|q: int| 0 <= q < keys.len() && keys[q] == sorted@[a];
            assert(valid_git_time(stats@[q].time));
        }
    }
    let picks = five_points(times.as_slice());
    let mut r: [usize; 5] = [0usize; 5];
    let mut k: usize = 0;
    while k < 5
        invariant
            n == stats@.len(),
            sorted@.len() == n,
            keys == time_keys(stats@),
            sorted@.to_multiset() == keys.to_multiset(),
            sorted@ == lazysorted(keys),
            sorted_by_key(sorted@),
            times@ == seconds_of(sorted@),
            forall|x: int| 0 <= x < 5 ==> picks@[x] == five_point_picks(times@)[x],
            forall|x: int| 0 <= x < 5 ==> (#[trigger] picks@[x]) < n,
            k <= 5,
            forall|x: int| 0 <= x < k ==> (#[trigger] r@[x]) < n && r@[x] == sorted@[picks@[x] as int].2,
        decreases 5 - k,
    {
        let p = picks[k];
        proof {
            assert(picks@[k as int] < n);
            assert(0 <= p < sorted@.len());
            assert(sorted@.contains(sorted@[p as int]));
            vstd::seq_lib::to_multiset_contains(sorted@, sorted@[p as int]);
            vstd::seq_lib::to_multiset_contains(keys, sorted@[p as int]);
            assert(sorted@.to_multiset().count(sorted@[p as int]) > 0);
            assert(keys.contains(sorted@[p as int]));
            let q = choose|q: int| 0 <= q < keys.len() && keys[q] == sorted@[p as int];
            assert(keys[q].2 == q);
        }
        r[k] = sorted[p].2;
        k = k + 1;
    }
    r
}


/// All statistics of the commits: the top contributor of each month, the
/// statistics of each author and of all commits, both with the local
/// calendar times of one reading of the clock and the zone, and the given
/// language snapshots (taken from the commits that `lang_snapshot_points`
/// picks, which needs a commit). `None` exactly where the top contributors
/// cannot be computed (see `top_contributers_at`); otherwise the entry
/// `TOTAL` holds the lines and the number of all commits.
pub fn process(stats: &[Stat], lang_stats: [LanguageStatSnapshot; 5]) -> (r: Option<AllResultStat>)
    requires
        stats@.len() >= 1,
        forall|i: int| 0 <= i < stats@.len() ==> valid_git_time(#[trigger] stats@[i].time),
        sums_fit_u32(stats@),
    ensures
        exists|cals: Seq<CalendarTime>, now: CalendarTime|
            {
                &&& local_calendars(stats@, cals)
                &&& valid_calendar(now)
                &&& (r is None <==> commit_after(cals, now) || date_key_overflow(cals) || walk_hits_short_month(
                    cals,
                    now,
                ))
                &&& (r matches Some(a) ==> top_monthly(stats@, cals, a.top_monthly@))
                &&& (r matches Some(a) ==> author_table(stats@, cals, a.common_stats@))
            },
        r matches Some(a) ==> a.lang_stats == lang_stats,
        r matches Some(a) ==> exists|j: int|
            0 <= j < a.common_stats@.len() && #[trigger] a.common_stats@[j].0@ == total_key()
                && a.common_stats@[j].1.stat@ == crate::tally::commit_totals(stats@, stats@.len() as int)
                && a.common_stats@[j].1.stat.commits == stats@.len(),
{
    let cals = local_times(stats);
    let now = local_now();
    let top = top_contributers_at(stats, cals.as_slice(), now);
    let r = match top {
        None => None,
        Some(months) => {
            proof {
                lemma_tally_everything(stats@, cals@, stats@.len() as int);
            }
            let common_stats = author_stats_at(stats, cals.as_slice());
            proof {
                let j = choose|j: int| 0 <= j < common_stats@.len() && #[trigger] common_stats@[j].0@ == total_key();
                crate::laws::law_total_counts_every_commit(stats@, cals@, common_stats@, j);
            }
            Some(AllResultStat { top_monthly: months, common_stats: common_stats, lang_stats: lang_stats })
        },
    };
    assert({
        &&& local_calendars(stats@, cals@)
        &&& valid_calendar(now)
        &&& (r is None <==> commit_after(cals@, now) || date_key_overflow(cals@) || walk_hits_short_month(
            cals@,
            now,
        ))
        &&& (r matches Some(a) ==> top_monthly(stats@, cals@, a.top_monthly@))
        &&& (r matches Some(a) ==> author_table(stats@, cals@, a.common_stats@))
    });
    r
}

} // verus!
