//! What holds of the statistics as a whole.
use vstd::prelude::*;
use crate::model::{valid_calendar, CalendarTime, MainStat, ResultStat, Stat};
use crate::stats::{first_name_of, five_point_picks, picks_from, quarter_point, sorted_times, author_table, counters_match, keys_sorted, total_key};
use crate::text::{lemma_seq_lt_asymmetric, lemma_seq_lt_irreflexive, seq_lt};
use crate::languages::{count_ext, ext_listed, extension, extension_counts};
use crate::tally::{everything, lemma_tally_everything, commit_totals};
use crate::tally::{by_email, selects, tally, Selector, Slot};

verus! {

/// The sum of two triples of counts.
pub open spec fn add3(a: (int, int, int), b: (int, int, int)) -> (int, int, int) {
    (a.0 + b.0, a.1 + b.1, a.2 + b.2)
}

/// The sum of the counts of a sequence of statistics.
pub open spec fn sum_stats(ms: Seq<MainStat>) -> (int, int, int)
    decreases ms.len(),
{
    if ms.len() == 0 {
        (0, 0, 0)
    } else {
        add3(sum_stats(ms.drop_last()), ms.last()@)
    }
}

/// The slot of day `d` of the week, or of quarter `d` of the day.
pub open spec fn part(by_day: bool, d: int) -> Slot {
    if by_day {
        Slot::Day(d)
    } else {
        Slot::Daytime(d)
    }
}

/// The day of the week, or the quarter of the day, of a calendar time.
pub open spec fn part_of(c: CalendarTime, by_day: bool) -> int {
    if by_day {
        c.weekday as int
    } else {
        c.hour as int / 6
    }
}

/// The counts of the first `k` days of the week (or quarters of the day).
pub open spec fn parts_sum(
    stats: Seq<Stat>,
    cals: Seq<CalendarTime>,
    n: int,
    e: Option<Seq<char>>,
    by_day: bool,
    k: int,
) -> (int, int, int)
    decreases k,
{
    if k <= 0 {
        (0, 0, 0)
    } else {
        add3(parts_sum(stats, cals, n, e, by_day, k - 1), tally(stats, cals, n, by_email(e, part(by_day, k - 1))))
    }
}

/// The counts of one commit.
pub open spec fn amount(s: Stat) -> (int, int, int) {
    (s.inserts as int, s.dels as int, 1)
}

proof fn lemma_parts_sum_step(
    stats: Seq<Stat>,
    cals: Seq<CalendarTime>,
    n: int,
    e: Option<Seq<char>>,
    by_day: bool,
    k: int,
)
    requires
        n >= 1,
        k >= 0,
    ensures
        parts_sum(stats, cals, n, e, by_day, k) == if selects(stats[n - 1], cals[n - 1], by_email(e, Slot::All))
            && 0 <= part_of(cals[n - 1], by_day) < k {
            add3(parts_sum(stats, cals, n - 1, e, by_day, k), amount(stats[n - 1]))
        } else {
            parts_sum(stats, cals, n - 1, e, by_day, k)
        },
    decreases k,
{
    if k > 0 {
        lemma_parts_sum_step(stats, cals, n, e, by_day, k - 1);
    }
}

proof fn lemma_parts_sum_zero(stats: Seq<Stat>, cals: Seq<CalendarTime>, e: Option<Seq<char>>, by_day: bool, k: int)
    ensures
        parts_sum(stats, cals, 0, e, by_day, k) == (0int, 0int, 0int),
    decreases k,
{
    if k > 0 {
        lemma_parts_sum_zero(stats, cals, e, by_day, k - 1);
    }
}

/// The counts of all days (or quarters) are the counts of every commit.
proof fn lemma_parts_sum_all(
    stats: Seq<Stat>,
    cals: Seq<CalendarTime>,
    n: int,
    e: Option<Seq<char>>,
    by_day: bool,
)
    requires
        0 <= n <= cals.len(),
        n <= stats.len(),
        forall|i: int| 0 <= i < cals.len() ==> valid_calendar(#[trigger] cals[i]),
    ensures
        parts_sum(stats, cals, n, e, by_day, if by_day { 7int } else { 4int }) == tally(
            stats,
            cals,
            n,
            by_email(e, Slot::All),
        ),
    decreases n,
{
    let k: int = if by_day { 7 } else { 4 };
    if n == 0 {
        lemma_parts_sum_zero(stats, cals, e, by_day, k);
    } else {
        lemma_parts_sum_all(stats, cals, n - 1, e, by_day);
        lemma_parts_sum_step(stats, cals, n, e, by_day, k);
        assert(valid_calendar(cals[n - 1]));
    }
}

proof fn lemma_sum_parts(rs_parts: Seq<MainStat>, stats: Seq<Stat>, cals: Seq<CalendarTime>, n: int, e: Option<Seq<char>>, by_day: bool, k: int)
    requires
        0 <= k <= rs_parts.len(),
        forall|d: int| 0 <= d < rs_parts.len() ==> (#[trigger] rs_parts[d])@ == tally(stats, cals, n, by_email(e, part(by_day, d))),
    ensures
        sum_stats(rs_parts.take(k)) == parts_sum(stats, cals, n, e, by_day, k),
    decreases k,
{
    if k > 0 {
        lemma_sum_parts(rs_parts, stats, cals, n, e, by_day, k - 1);
        assert(rs_parts.take(k).drop_last() =~= rs_parts.take(k - 1));
        assert(rs_parts.take(k).last() == rs_parts[k - 1]);
    }
}

/// In the statistics per author, the counts of the days of the week of an
/// entry add up to its total counts, and so do the counts of the quarters
/// of the day: every commit falls on exactly one day and in exactly one
/// quarter.
pub proof fn law_parts_sum_to_total(stats: Seq<Stat>, cals: Seq<CalendarTime>, t: Seq<(String, crate::model::ResultStat)>, j: int)
    requires
        cals.len() == stats.len(),
        forall|i: int| 0 <= i < cals.len() ==> valid_calendar(#[trigger] cals[i]),
        author_table(stats, cals, t),
        0 <= j < t.len(),
    ensures
        sum_stats(t[j].1.days@) == t[j].1.stat@,
        sum_stats(t[j].1.daytimes@) == t[j].1.stat@,
{
    let n = stats.len() as int;
    let rs = t[j].1;
    let e: Option<Seq<char>> = if t[j].0@ == total_key() { None } else { Some(t[j].0@) };
    assert(counters_match(stats, cals, n, rs, e));
    reveal(counters_match);
    assert forall|d: int| 0 <= d < rs.days@.len() implies (#[trigger] rs.days@[d])@ == tally(stats, cals, n, by_email(e, part(true, d))) by {}
    assert forall|d: int| 0 <= d < rs.daytimes@.len() implies (#[trigger] rs.daytimes@[d])@ == tally(stats, cals, n, by_email(e, part(false, d))) by {}
    lemma_sum_parts(rs.days@, stats, cals, n, e, true, 7);
    lemma_sum_parts(rs.daytimes@, stats, cals, n, e, false, 4);
    lemma_parts_sum_all(stats, cals, n, e, true);
    lemma_parts_sum_all(stats, cals, n, e, false);
    assert(rs.days@.take(7) =~= rs.days@);
    assert(rs.daytimes@.take(4) =~= rs.daytimes@);
}

/// The sum of the total counts of the entries of the authors, leaving out
/// the entry `TOTAL`.
pub open spec fn authors_sum(t: Seq<(String, crate::model::ResultStat)>) -> (int, int, int)
    decreases t.len(),
{
    if t.len() == 0 {
        (0, 0, 0)
    } else if t.last().0@ == total_key() {
        authors_sum(t.drop_last())
    } else {
        add3(authors_sum(t.drop_last()), t.last().1.stat@)
    }
}

/// The counts of the first `n` commits with the e-mail address of each of
/// the first `k` entries other than `TOTAL`.
pub open spec fn keys_tally(
    stats: Seq<Stat>,
    cals: Seq<CalendarTime>,
    n: int,
    t: Seq<(String, crate::model::ResultStat)>,
    k: int,
) -> (int, int, int)
    decreases k,
{
    if k <= 0 {
        (0, 0, 0)
    } else if t[k - 1].0@ == total_key() {
        keys_tally(stats, cals, n, t, k - 1)
    } else {
        add3(keys_tally(stats, cals, n, t, k - 1), tally(stats, cals, n, by_email(Some(t[k - 1].0@), Slot::All)))
    }
}

/// Some entry among the first `k`, other than `TOTAL`, has the key `e`.
pub open spec fn key_among(t: Seq<(String, crate::model::ResultStat)>, k: int, e: Seq<char>) -> bool {
    exists|j: int| 0 <= j < k && (#[trigger] t[j]).0@ == e && e != total_key()
}

proof fn lemma_keys_tally_step(
    stats: Seq<Stat>,
    cals: Seq<CalendarTime>,
    n: int,
    t: Seq<(String, crate::model::ResultStat)>,
    k: int,
)
    requires
        n >= 1,
        0 <= k <= t.len(),
        forall|a: int, b: int| 0 <= a < b < t.len() ==> (#[trigger] t[a]).0@ != (#[trigger] t[b]).0@,
    ensures
        keys_tally(stats, cals, n, t, k) == if key_among(t, k, stats[n - 1].email@) {
            add3(keys_tally(stats, cals, n - 1, t, k), amount(stats[n - 1]))
        } else {
            keys_tally(stats, cals, n - 1, t, k)
        },
    decreases k,
{
    if k > 0 {
        lemma_keys_tally_step(stats, cals, n, t, k - 1);
        let e = stats[n - 1].email@;
        if key_among(t, k, e) && !key_among(t, k - 1, e) {
            assert(t[k - 1].0@ == e);
        }
        if key_among(t, k - 1, e) {
            let w = choose|w: int| 0 <= w < k - 1 && (#[trigger] t[w]).0@ == e && e != total_key();
            assert(t[w].0@ != t[k - 1].0@);
            assert(key_among(t, k, e));
        }
    }
}

proof fn lemma_keys_tally_zero(stats: Seq<Stat>, cals: Seq<CalendarTime>, t: Seq<(String, crate::model::ResultStat)>, k: int)
    ensures
        keys_tally(stats, cals, 0, t, k) == (0int, 0int, 0int),
    decreases k,
{
    if k > 0 {
        lemma_keys_tally_zero(stats, cals, t, k - 1);
    }
}

/// When every commit's address is the key of an entry other than `TOTAL`,
/// the counts per entry add up to the counts of all commits.
proof fn lemma_keys_tally_all(
    stats: Seq<Stat>,
    cals: Seq<CalendarTime>,
    n: int,
    t: Seq<(String, crate::model::ResultStat)>,
)
    requires
        0 <= n <= stats.len(),
        forall|a: int, b: int| 0 <= a < b < t.len() ==> (#[trigger] t[a]).0@ != (#[trigger] t[b]).0@,
        forall|i: int| 0 <= i < stats.len() ==> key_among(t, t.len() as int, (#[trigger] stats[i]).email@),
    ensures
        keys_tally(stats, cals, n, t, t.len() as int) == commit_totals(stats, n),
    decreases n,
{
    if n == 0 {
        lemma_keys_tally_zero(stats, cals, t, t.len() as int);
    } else {
        lemma_keys_tally_all(stats, cals, n - 1, t);
        lemma_keys_tally_step(stats, cals, n, t, t.len() as int);
        assert(key_among(t, t.len() as int, stats[n - 1].email@));
    }
}

proof fn lemma_authors_sum(
    stats: Seq<Stat>,
    cals: Seq<CalendarTime>,
    t: Seq<(String, crate::model::ResultStat)>,
    k: int,
)
    requires
        0 <= k <= t.len(),
        forall|j: int| 0 <= j < t.len() && (#[trigger] t[j]).0@ != total_key() ==> t[j].1.stat@ == tally(
            stats,
            cals,
            stats.len() as int,
            by_email(Some(t[j].0@), Slot::All),
        ),
    ensures
        authors_sum(t.take(k)) == keys_tally(stats, cals, stats.len() as int, t, k),
    decreases k,
{
    if k > 0 {
        lemma_authors_sum(stats, cals, t, k - 1);
        assert(t.take(k).drop_last() =~= t.take(k - 1));
        assert(t.take(k).last() == t[k - 1]);
    }
}

/// The entry `TOTAL` of the statistics per author holds the sum of the
/// entries of all authors, when no commit has the address `TOTAL` (whose
/// entry the totals would replace).
pub proof fn law_total_is_sum_of_authors(
    stats: Seq<Stat>,
    cals: Seq<CalendarTime>,
    t: Seq<(String, crate::model::ResultStat)>,
    j: int,
)
    requires
        cals.len() == stats.len(),
        author_table(stats, cals, t),
        forall|i: int| 0 <= i < stats.len() ==> (#[trigger] stats[i]).email@ != total_key(),
        0 <= j < t.len(),
        t[j].0@ == total_key(),
    ensures
        t[j].1.stat@ == authors_sum(t),
{
    let n = stats.len() as int;
    reveal(counters_match);
    assert(keys_sorted(t));
    assert forall|a: int, b: int| 0 <= a < b < t.len() implies (#[trigger] t[a]).0@ != (#[trigger] t[b]).0@ by {
        if t[a].0@ == t[b].0@ {
            lemma_seq_lt_irreflexive(t[a].0@);
        }
    }
    assert forall|i: int| 0 <= i < stats.len() implies key_among(t, t.len() as int, (#[trigger] stats[i]).email@) by {
        let w = choose|w: int| 0 <= w < t.len() && #[trigger] t[w].0@ == stats[i].email@;
        assert(t[w].0@ == stats[i].email@);
    }
    assert forall|k: int| 0 <= k < t.len() && (#[trigger] t[k]).0@ != total_key() implies t[k].1.stat@ == tally(
        stats,
        cals,
        n,
        by_email(Some(t[k].0@), Slot::All),
    ) by {
        assert(counters_match(stats, cals, n, t[k].1, Some(t[k].0@)));
    }
    lemma_authors_sum(stats, cals, t, t.len() as int);
    assert(t.take(t.len() as int) =~= t);
    lemma_keys_tally_all(stats, cals, n, t);
    assert(counters_match(stats, cals, n, t[j].1, None));
    assert(by_email(None, Slot::All) == everything());
    lemma_tally_everything(stats, cals, n);
}

/// The sum of the counts of a table of extensions.
pub open spec fn count_sum(t: Seq<(String, u32)>) -> int
    decreases t.len(),
{
    if t.len() == 0 {
        0
    } else {
        count_sum(t.drop_last()) + t.last().1
    }
}

/// The numbers of the first `n` names with the extension of each of the
/// first `k` entries.
pub open spec fn ext_sum(names: Seq<String>, n: int, t: Seq<(String, u32)>, k: int) -> int
    decreases k,
{
    if k <= 0 {
        0
    } else {
        ext_sum(names, n, t, k - 1) + count_ext(names, n, t[k - 1].0@)
    }
}

proof fn lemma_ext_sum_step(names: Seq<String>, n: int, t: Seq<(String, u32)>, k: int)
    requires
        n >= 1,
        0 <= k <= t.len(),
        forall|a: int, b: int| 0 <= a < b < t.len() ==> (#[trigger] t[a]).0@ != (#[trigger] t[b]).0@,
    ensures
        ext_sum(names, n, t, k) == ext_sum(names, n - 1, t, k) + if ext_listed(t.take(k), extension(names[n - 1]@)) {
            1int
        } else {
            0int
        },
    decreases k,
{
    if k > 0 {
        lemma_ext_sum_step(names, n, t, k - 1);
        let e = extension(names[n - 1]@);
        if ext_listed(t.take(k), e) && !ext_listed(t.take(k - 1), e) {
            let w = choose|w: int| 0 <= w < k && (#[trigger] t.take(k)[w]).0@ == e;
            if w < k - 1 {
                assert(t.take(k - 1)[w] == t.take(k)[w]);
            }
        }
        if ext_listed(t.take(k - 1), e) {
            let w = choose|w: int| 0 <= w < k - 1 && (#[trigger] t.take(k - 1)[w]).0@ == e;
            assert(t[w].0@ != t[k - 1].0@);
            assert(t.take(k)[w] == t[w]);
        }
        if !ext_listed(t.take(k), e) {
            assert(t.take(k)[k - 1] == t[k - 1]);
        }
    }
}

proof fn lemma_ext_sum_zero(names: Seq<String>, t: Seq<(String, u32)>, k: int)
    ensures
        ext_sum(names, 0, t, k) == 0,
    decreases k,
{
    if k > 0 {
        lemma_ext_sum_zero(names, t, k - 1);
    }
}

proof fn lemma_ext_sum_all(names: Seq<String>, n: int, t: Seq<(String, u32)>)
    requires
        0 <= n <= names.len(),
        forall|a: int, b: int| 0 <= a < b < t.len() ==> (#[trigger] t[a]).0@ != (#[trigger] t[b]).0@,
        forall|x: int| 0 <= x < names.len() ==> #[trigger] ext_listed(t, extension(names[x]@)),
    ensures
        ext_sum(names, n, t, t.len() as int) == n,
    decreases n,
{
    if n == 0 {
        lemma_ext_sum_zero(names, t, t.len() as int);
    } else {
        lemma_ext_sum_all(names, n - 1, t);
        lemma_ext_sum_step(names, n, t, t.len() as int);
        assert(t.take(t.len() as int) =~= t);
        assert(ext_listed(t, extension(names[n - 1]@)));
    }
}

proof fn lemma_count_sum(names: Seq<String>, t: Seq<(String, u32)>, k: int)
    requires
        0 <= k <= t.len(),
        forall|j: int| 0 <= j < t.len() ==> (#[trigger] t[j]).1 == count_ext(names, names.len() as int, t[j].0@),
    ensures
        count_sum(t.take(k)) == ext_sum(names, names.len() as int, t, k),
    decreases k,
{
    if k > 0 {
        lemma_count_sum(names, t, k - 1);
        assert(t.take(k).drop_last() =~= t.take(k - 1));
        assert(t.take(k).last() == t[k - 1]);
    }
}

/// The counts of the extensions in a tree add up to the number of files:
/// every file has exactly one extension, listed once.
pub proof fn law_extension_counts_sum(names: Seq<String>, t: Seq<(String, u32)>)
    requires
        extension_counts(names, t),
    ensures
        count_sum(t) == names.len(),
{
    lemma_count_sum(names, t, t.len() as int);
    assert(t.take(t.len() as int) =~= t);
    lemma_ext_sum_all(names, names.len() as int, t);
}

proof fn lemma_picks_shape(t: Seq<i64>, pos: int, c: int)
    requires
        0 <= pos < t.len(),
        1 <= c <= 4,
        sorted_times(t),
    ensures
        picks_from(t, pos, c).len() == 5 - c,
        forall|a: int| 0 <= a < 5 - c ==> pos <= #[trigger] picks_from(t, pos, c)[a] < t.len(),
        forall|a: int, b: int| 0 <= a <= b < 5 - c ==> #[trigger] picks_from(t, pos, c)[a] <= #[trigger] picks_from(t, pos, c)[b],
        picks_from(t, pos, c)[4 - c] == t.len() - 1,
    decreases t.len() - pos,
{
    let here = picks_from(t, pos, c);
    if pos + 1 >= t.len() {
        assert(here == Seq::new((5 - c) as nat, |k: int| pos));
    } else if 4 * t[pos] < quarter_point(t, c) && quarter_point(t, c) < 4 * t[pos + 1] {
        if c == 4 {
            assert(t[pos + 1] <= t[t.len() - 1]);
            assert(quarter_point(t, c) == 4 * t[t.len() - 1]) by (nonlinear_arith)
                requires
                    c == 4,
                    quarter_point(t, c) == 4 * t[0] + c * (t[t.len() - 1] - t[0]),
            ;
        }
        lemma_picks_shape(t, pos + 1, c + 1);
        let rest = picks_from(t, pos + 1, c + 1);
        assert(here == seq![pos + 1] + rest);
        assert forall|a: int| 0 <= a < 5 - c implies pos <= #[trigger] here[a] < t.len() by {
            if a > 0 {
                assert(here[a] == rest[a - 1]);
            }
        }
        assert forall|a: int, b: int| 0 <= a <= b < 5 - c implies #[trigger] here[a] <= #[trigger] here[b] by {
            if a > 0 {
                assert(here[a] == rest[a - 1]);
            }
            if b > 0 {
                assert(here[b] == rest[b - 1]);
            }
        }
        assert(here[4 - c] == rest[3 - c]);
    } else {
        lemma_picks_shape(t, pos + 1, c);
    }
}

/// Of the five commits the language snapshots are taken from, the first
/// is the earliest commit, the last is the latest, and they come in order
/// of time.
pub proof fn law_five_points_span(t: Seq<i64>)
    requires
        t.len() >= 1,
        sorted_times(t),
    ensures
        five_point_picks(t).len() == 5,
        five_point_picks(t)[0] == 0,
        five_point_picks(t)[4] == t.len() - 1,
        forall|a: int, b: int| 0 <= a <= b < 5 ==> #[trigger] five_point_picks(t)[a] <= #[trigger] five_point_picks(t)[b],
{
    lemma_picks_shape(t, 0, 1);
    let rest = picks_from(t, 0, 1);
    let p = five_point_picks(t);
    assert(p == seq![0int] + rest);
    assert forall|a: int, b: int| 0 <= a <= b < 5 implies #[trigger] p[a] <= #[trigger] p[b] by {
        if a > 0 {
            assert(p[a] == rest[a - 1]);
        }
        if b > 0 {
            assert(p[b] == rest[b - 1]);
        }
    }
    assert(p[4] == rest[3]);
}

/// The entry `TOTAL` of the statistics per author counts every commit
/// once: its lines are the lines of all commits and its number of commits
/// is the number of commits.
pub proof fn law_total_counts_every_commit(
    stats: Seq<Stat>,
    cals: Seq<CalendarTime>,
    t: Seq<(String, crate::model::ResultStat)>,
    j: int,
)
    requires
        cals.len() == stats.len(),
        author_table(stats, cals, t),
        0 <= j < t.len(),
        t[j].0@ == total_key(),
    ensures
        t[j].1.stat@ == commit_totals(stats, stats.len() as int),
        t[j].1.stat.commits == stats.len(),
{
    let n = stats.len() as int;
    reveal(counters_match);
    assert(counters_match(stats, cals, n, t[j].1, None));
    assert(by_email(None, Slot::All) == everything());
    lemma_tally_everything(stats, cals, n);
    lemma_commit_totals_count(stats, n);
}

proof fn lemma_commit_totals_count(stats: Seq<Stat>, n: int)
    requires
        n >= 0,
    ensures
        commit_totals(stats, n).2 == n,
    decreases n,
{
    if n > 0 {
        lemma_commit_totals_count(stats, n - 1);
    }
}

/// The commits paired with their calendar times.
pub open spec fn commit_pairs(stats: Seq<Stat>, cals: Seq<CalendarTime>) -> Seq<(Stat, CalendarTime)> {
    Seq::new(stats.len(), |i: int| (stats[i], cals[i]))
}

/// What a commit, at its calendar time, adds to the counts of a selector.
pub open spec fn contribution(p: (Stat, CalendarTime), sel: Selector) -> (int, int, int) {
    if selects(p.0, p.1, sel) {
        amount(p.0)
    } else {
        (0, 0, 0)
    }
}

/// The counts of the covered commits among the pairs.
pub open spec fn pair_tally(ps: Seq<(Stat, CalendarTime)>, sel: Selector) -> (int, int, int)
    decreases ps.len(),
{
    if ps.len() == 0 {
        (0, 0, 0)
    } else {
        add3(pair_tally(ps.drop_last(), sel), contribution(ps.last(), sel))
    }
}

proof fn lemma_tally_pairs(stats: Seq<Stat>, cals: Seq<CalendarTime>, n: int, sel: Selector)
    requires
        0 <= n <= stats.len(),
        cals.len() == stats.len(),
    ensures
        tally(stats, cals, n, sel) == pair_tally(commit_pairs(stats, cals).take(n), sel),
    decreases n,
{
    if n > 0 {
        lemma_tally_pairs(stats, cals, n - 1, sel);
        let ps = commit_pairs(stats, cals);
        assert(ps.take(n).drop_last() =~= ps.take(n - 1));
        assert(ps.take(n).last() == (stats[n - 1], cals[n - 1]));
    }
}

proof fn lemma_pair_tally_remove(ps: Seq<(Stat, CalendarTime)>, k: int, sel: Selector)
    requires
        0 <= k < ps.len(),
    ensures
        pair_tally(ps, sel) == add3(pair_tally(ps.remove(k), sel), contribution(ps[k], sel)),
    decreases ps.len(),
{
    if k == ps.len() - 1 {
        assert(ps.remove(k) =~= ps.drop_last());
    } else {
        lemma_pair_tally_remove(ps.drop_last(), k, sel);
        assert(ps.remove(k).drop_last() =~= ps.drop_last().remove(k));
        assert(ps.remove(k).last() == ps.last());
    }
}

proof fn lemma_pair_tally_permutation(a: Seq<(Stat, CalendarTime)>, b: Seq<(Stat, CalendarTime)>, sel: Selector)
    requires
        a.to_multiset() == b.to_multiset(),
    ensures
        pair_tally(a, sel) == pair_tally(b, sel),
    decreases a.len(),
{
    broadcast use vstd::seq_lib::group_to_multiset_ensures;

    vstd::seq_lib::to_multiset_len(a);
    vstd::seq_lib::to_multiset_len(b);
    if a.len() == 0 {
        assert(b.len() == 0);
    } else {
        let x = a.last();
        assert(a.to_multiset().count(x) > 0);
        assert(b.contains(x));
        let k = choose|k: int| 0 <= k < b.len() && b[k] == x;
        assert(a.remove(a.len() - 1) =~= a.drop_last());
        assert(a.remove(a.len() - 1).to_multiset() == a.to_multiset().remove(x));
        assert(b.remove(k).to_multiset() == b.to_multiset().remove(x));
        lemma_pair_tally_permutation(a.drop_last(), b.remove(k), sel);
        lemma_pair_tally_remove(b, k, sel);
    }
}

/// Two strictly sorted sequences with the same elements are equal.
proof fn lemma_sorted_unique(a: Seq<Seq<char>>, b: Seq<Seq<char>>)
    requires
        forall|i: int, j: int| 0 <= i < j < a.len() ==> seq_lt(#[trigger] a[i], #[trigger] a[j]),
        forall|i: int, j: int| 0 <= i < j < b.len() ==> seq_lt(#[trigger] b[i], #[trigger] b[j]),
        forall|x: Seq<char>| a.contains(x) <==> b.contains(x),
    ensures
        a == b,
    decreases a.len(),
{
    if a.len() == 0 {
        if b.len() > 0 {
            assert(b.contains(b[0]));
        }
        assert(b =~= a);
    } else if b.len() == 0 {
        assert(a.contains(a[0]));
    } else {
        assert(a.contains(a[0]));
        let k = choose|k: int| 0 <= k < b.len() && b[k] == a[0];
        assert(b.contains(b[0]));
        let m = choose|m: int| 0 <= m < a.len() && a[m] == b[0];
        if k > 0 {
            assert(seq_lt(b[0], b[k]));
            if m > 0 {
                assert(seq_lt(a[0], a[m]));
                lemma_seq_lt_asymmetric(a[0], b[0]);
            } else {
                lemma_seq_lt_irreflexive(b[0]);
            }
        }
        let a1 = a.drop_first();
        let b1 = b.drop_first();
        assert forall|x: Seq<char>| a1.contains(x) <==> b1.contains(x) by {
            if a1.contains(x) {
                let i = choose|i: int| 0 <= i < a1.len() && a1[i] == x;
                assert(a[i + 1] == x);
                assert(seq_lt(a[0], a[i + 1]));
                lemma_seq_lt_irreflexive(a[0]);
                assert(a.contains(x));
                let j = choose|j: int| 0 <= j < b.len() && b[j] == x;
                assert(j != 0);
                assert(b1[j - 1] == x);
            }
            if b1.contains(x) {
                let i = choose|i: int| 0 <= i < b1.len() && b1[i] == x;
                assert(b[i + 1] == x);
                assert(seq_lt(b[0], b[i + 1]));
                lemma_seq_lt_irreflexive(b[0]);
                assert(b.contains(x));
                let j = choose|j: int| 0 <= j < a.len() && a[j] == x;
                assert(j != 0);
                assert(a1[j - 1] == x);
            }
        }
        assert forall|i: int, j: int| 0 <= i < j < a1.len() implies seq_lt(#[trigger] a1[i], #[trigger] a1[j]) by {
            assert(a1[i] == a[i + 1]);
            assert(a1[j] == a[j + 1]);
        }
        assert forall|i: int, j: int| 0 <= i < j < b1.len() implies seq_lt(#[trigger] b1[i], #[trigger] b1[j]) by {
            assert(b1[i] == b[i + 1]);
            assert(b1[j] == b[j + 1]);
        }
        lemma_sorted_unique(a1, b1);
        assert(a =~= b) by {
            assert forall|i: int| 0 <= i < a.len() implies a[i] == b[i] by {
                if i > 0 {
                    assert(a[i] == a1[i - 1]);
                    assert(b[i] == b1[i - 1]);
                }
            }
        }
    }
}

/// Counting the commits covered by a selector gives the same counts for
/// the same commits, with the same calendar times, in any order.
proof fn lemma_tally_permutation(
    stats: Seq<Stat>,
    cals: Seq<CalendarTime>,
    stats2: Seq<Stat>,
    cals2: Seq<CalendarTime>,
    sel: Selector,
)
    requires
        cals.len() == stats.len(),
        cals2.len() == stats2.len(),
        commit_pairs(stats2, cals2).to_multiset() == commit_pairs(stats, cals).to_multiset(),
    ensures
        tally(stats, cals, stats.len() as int, sel) == tally(stats2, cals2, stats2.len() as int, sel),
{
    lemma_tally_pairs(stats, cals, stats.len() as int, sel);
    lemma_tally_pairs(stats2, cals2, stats2.len() as int, sel);
    assert(commit_pairs(stats, cals).take(stats.len() as int) =~= commit_pairs(stats, cals));
    assert(commit_pairs(stats2, cals2).take(stats2.len() as int) =~= commit_pairs(stats2, cals2));
    lemma_pair_tally_permutation(commit_pairs(stats, cals), commit_pairs(stats2, cals2), sel);
}

proof fn lemma_first_name_unique(stats: Seq<Stat>, n: int, e: Seq<char>, a: Seq<char>, b: Seq<char>)
    requires
        first_name_of(stats, n, e, a),
        first_name_of(stats, n, e, b),
    ensures
        a == b,
{
    reveal(first_name_of);
    let wa = choose|w: int|
        0 <= w < n && #[trigger] stats[w].email@ == e && stats[w].author@ == a && forall|k: int|
            0 <= k < w ==> stats[k].email@ != e;
    let wb = choose|w: int|
        0 <= w < n && #[trigger] stats[w].email@ == e && stats[w].author@ == b && forall|k: int|
            0 <= k < w ==> stats[k].email@ != e;
    if wa < wb {
        assert(stats[wa].email@ != e);
    } else if wb < wa {
        assert(stats[wb].email@ != e);
    }
}

/// Some commit has the e-mail address `x`.
pub open spec fn has_email(stats: Seq<Stat>, x: Seq<char>) -> bool {
    exists|i: int| 0 <= i < stats.len() && (#[trigger] stats[i]).email@ == x
}

/// The keys of a table, in its order.
pub open spec fn table_keys(t: Seq<(String, ResultStat)>) -> Seq<Seq<char>> {
    Seq::new(t.len(), |j: int| t[j].0@)
}

proof fn lemma_table_keys(stats: Seq<Stat>, cals: Seq<CalendarTime>, t: Seq<(String, ResultStat)>)
    requires
        author_table(stats, cals, t),
    ensures
        forall|x: Seq<char>| #[trigger] table_keys(t).contains(x) <==> (x == total_key() || has_email(stats, x)),
        forall|i: int, j: int| 0 <= i < j < table_keys(t).len() ==> seq_lt(#[trigger] table_keys(t)[i], #[trigger] table_keys(t)[j]),
{
    let n = stats.len() as int;
    let keys = table_keys(t);
    assert forall|x: Seq<char>| #[trigger] keys.contains(x) <==> (x == total_key() || has_email(stats, x)) by {
        if keys.contains(x) {
            let j = choose|j: int| 0 <= j < keys.len() && keys[j] == x;
            assert(t[j].0@ == x);
            if x != total_key() {
                assert(author_entry_of(stats, cals, n, t[j]));
                reveal(first_name_of);
                let w = choose|w: int|
                    0 <= w < n && #[trigger] stats[w].email@ == x && stats[w].author@ == t[j].1.sign.0@ && forall|k: int|
                        0 <= k < w ==> stats[k].email@ != x;
                assert(stats[w].email@ == x);
            }
        }
        if x == total_key() {
            let j = choose|j: int| 0 <= j < t.len() && #[trigger] t[j].0@ == total_key();
            assert(keys[j] == x);
        } else if has_email(stats, x) {
            let i = choose|i: int| 0 <= i < stats.len() && (#[trigger] stats[i]).email@ == x;
            let j = choose|j: int| 0 <= j < t.len() && #[trigger] t[j].0@ == stats[i].email@;
            assert(keys[j] == x);
        }
    }
}

/// The entry at `j` is that of an author other than `TOTAL`.
spec fn author_entry_of(
    stats: Seq<Stat>,
    cals: Seq<CalendarTime>,
    n: int,
    e: (String, ResultStat),
) -> bool {
    crate::stats::author_entry(stats, cals, n, e.0@, e.1)
}

/// Two entries with the same key, author and counts.
pub open spec fn same_entry(a: (String, ResultStat), b: (String, ResultStat)) -> bool {
    &&& a.0@ == b.0@
    &&& a.1.sign.key() == b.1.sign.key()
    &&& a.1.stat@ == b.1.stat@
    &&& forall|d: int| 0 <= d < 7 ==> (#[trigger] a.1.days@[d])@ == b.1.days@[d]@
    &&& forall|q: int| 0 <= q < 4 ==> (#[trigger] a.1.daytimes@[q])@ == b.1.daytimes@[q]@
}

/// The statistics per author do not depend on the order of the commits:
/// the same commits, each with its calendar time, in another order in
/// which every address keeps the author name of its first commit, give the
/// same table.
pub proof fn law_author_table_ignores_order(
    stats: Seq<Stat>,
    cals: Seq<CalendarTime>,
    stats2: Seq<Stat>,
    cals2: Seq<CalendarTime>,
    t: Seq<(String, ResultStat)>,
    t2: Seq<(String, ResultStat)>,
)
    requires
        cals.len() == stats.len(),
        cals2.len() == stats2.len(),
        commit_pairs(stats2, cals2).to_multiset() == commit_pairs(stats, cals).to_multiset(),
        forall|e: Seq<char>, name: Seq<char>|
            #[trigger] first_name_of(stats, stats.len() as int, e, name) <==> #[trigger] first_name_of(
                stats2,
                stats2.len() as int,
                e,
                name,
            ),
        author_table(stats, cals, t),
        author_table(stats2, cals2, t2),
    ensures
        t.len() == t2.len(),
        forall|j: int| 0 <= j < t.len() ==> same_entry(#[trigger] t[j], t2[j]),
{
    broadcast use vstd::seq_lib::group_to_multiset_ensures;

    let n = stats.len() as int;
    let n2 = stats2.len() as int;
    let ps = commit_pairs(stats, cals);
    let ps2 = commit_pairs(stats2, cals2);
    lemma_table_keys(stats, cals, t);
    lemma_table_keys(stats2, cals2, t2);
    assert forall|x: Seq<char>| has_email(stats, x) <==> has_email(stats2, x) by {
        if has_email(stats, x) {
            let i = choose|i: int| 0 <= i < stats.len() && (#[trigger] stats[i]).email@ == x;
            assert(ps[i] == (stats[i], cals[i]));
            assert(ps.to_multiset().count(ps[i]) > 0);
            assert(ps2.contains(ps[i]));
            let i2 = choose|i2: int| 0 <= i2 < ps2.len() && ps2[i2] == ps[i];
            assert(stats2[i2].email@ == x);
        }
        if has_email(stats2, x) {
            let i = choose|i: int| 0 <= i < stats2.len() && (#[trigger] stats2[i]).email@ == x;
            assert(ps2[i] == (stats2[i], cals2[i]));
            assert(ps2.to_multiset().count(ps2[i]) > 0);
            assert(ps.contains(ps2[i]));
            let i1 = choose|i1: int| 0 <= i1 < ps.len() && ps[i1] == ps2[i];
            assert(stats[i1].email@ == x);
        }
    }
    assert forall|x: Seq<char>| table_keys(t).contains(x) <==> table_keys(t2).contains(x) by {
        assert(table_keys(t).contains(x) <==> (x == total_key() || has_email(stats, x)));
        assert(table_keys(t2).contains(x) <==> (x == total_key() || has_email(stats2, x)));
    }
    lemma_sorted_unique(table_keys(t), table_keys(t2));
    assert(t.len() == table_keys(t).len());
    assert(t2.len() == table_keys(t2).len());
    assert forall|j: int| 0 <= j < t.len() implies same_entry(#[trigger] t[j], t2[j]) by {
        assert(table_keys(t)[j] == table_keys(t2)[j]);
        let key = t[j].0@;
        assert(t2[j].0@ == key);
        let e: Option<Seq<char>> = if key == total_key() { None } else { Some(key) };
        assert(counters_match(stats, cals, n, t[j].1, e));
        assert(counters_match(stats2, cals2, n2, t2[j].1, e));
        if key != total_key() {
            assert(first_name_of(stats, n, key, t[j].1.sign.0@));
            assert(first_name_of(stats2, n2, key, t2[j].1.sign.0@));
            assert(first_name_of(stats, n, key, t2[j].1.sign.0@));
            lemma_first_name_unique(stats, n, key, t[j].1.sign.0@, t2[j].1.sign.0@);
        }
        reveal(counters_match);
        lemma_tally_permutation(stats, cals, stats2, cals2, by_email(e, Slot::All));
        assert forall|d: int| 0 <= d < 7 implies (#[trigger] t[j].1.days@[d])@ == t2[j].1.days@[d]@ by {
            lemma_tally_permutation(stats, cals, stats2, cals2, by_email(e, Slot::Day(d)));
        }
        assert forall|q: int| 0 <= q < 4 implies (#[trigger] t[j].1.daytimes@[q])@ == t2[j].1.daytimes@[q]@ by {
            lemma_tally_permutation(stats, cals, stats2, cals2, by_email(e, Slot::Daytime(q)));
        }
    }
}

/// The walk from position `pos` with point `c` on, where each point `c'`
/// from `c` to 3 lies strictly inside the gap after position `g[c' - 1]`,
/// the gaps increasing and not before `pos`, picks the position after each
/// gap.
proof fn lemma_walk_takes_each_gap(t: Seq<i64>, pos: int, c: int, g: Seq<int>)
    requires
        sorted_times(t),
        g.len() == 3,
        1 <= c <= 3,
        0 <= pos <= g[c - 1],
        g[0] < g[1] < g[2],
        g[2] + 1 < t.len(),
        forall|m: int|
            c <= m <= 3 ==> 4 * t[g[m - 1]] < #[trigger] quarter_point(t, m) && quarter_point(t, m) < 4 * t[g[m - 1] + 1],
    ensures
        forall|m: int| c <= m <= 3 ==> #[trigger] picks_from(t, pos, c)[m - c] == g[m - 1] + 1,
    decreases t.len() - pos,
{
    lemma_picks_shape(t, pos, c);
    assert(4 * t[g[c - 1]] < quarter_point(t, c) && quarter_point(t, c) < 4 * t[g[c - 1] + 1]);
    if pos < g[c - 1] {
        assert(t[pos + 1] <= t[g[c - 1]]);
        assert(picks_from(t, pos, c) == picks_from(t, pos + 1, c));
        lemma_walk_takes_each_gap(t, pos + 1, c, g);
    } else {
        let rest = picks_from(t, pos + 1, c + 1);
        lemma_picks_shape(t, pos + 1, c + 1);
        assert(picks_from(t, pos, c) == seq![pos + 1] + rest);
        if c < 3 {
            lemma_walk_takes_each_gap(t, pos + 1, c + 1, g);
            assert forall|m: int| c <= m <= 3 implies #[trigger] picks_from(t, pos, c)[m - c] == g[m - 1] + 1 by {
                if m > c {
                    assert(picks_from(t, pos, c)[m - c] == rest[m - (c + 1)]);
                }
            }
        }
    }
}

/// Where the quarter, half and three-quarter points of the span of the
/// sorted times each lie strictly inside a gap between two consecutive
/// times, three different gaps, the snapshot for each point is taken from
/// the commit right after its gap: the walk over the commits passes over
/// no gap.
pub proof fn law_five_points_gaps(t: Seq<i64>, g1: int, g2: int, g3: int)
    requires
        sorted_times(t),
        0 <= g1 < g2 < g3,
        g3 + 1 < t.len(),
        4 * t[g1] < 4 * t[0] + (t[t.len() - 1] - t[0]) < 4 * t[g1 + 1],
        4 * t[g2] < 4 * t[0] + 2 * (t[t.len() - 1] - t[0]) < 4 * t[g2 + 1],
        4 * t[g3] < 4 * t[0] + 3 * (t[t.len() - 1] - t[0]) < 4 * t[g3 + 1],
    ensures
        five_point_picks(t)[1] == g1 + 1,
        five_point_picks(t)[2] == g2 + 1,
        five_point_picks(t)[3] == g3 + 1,
{
    let g = seq![g1, g2, g3];
    assert(quarter_point(t, 1) == 4 * t[0] + (t[t.len() - 1] - t[0]));
    assert(quarter_point(t, 2) == 4 * t[0] + 2 * (t[t.len() - 1] - t[0]));
    assert(quarter_point(t, 3) == 4 * t[0] + 3 * (t[t.len() - 1] - t[0]));
    assert forall|m: int|
        1 <= m <= 3 implies 4 * t[g[m - 1]] < #[trigger] quarter_point(t, m) && quarter_point(t, m) < 4 * t[g[m - 1] + 1] by {
        if m == 1 {
        } else if m == 2 {
        } else {
        }
    }
    lemma_walk_takes_each_gap(t, 0, 1, g);
    lemma_picks_shape(t, 0, 1);
    let rest = picks_from(t, 0, 1);
    assert(five_point_picks(t) == seq![0int] + rest);
    assert(rest[0] == g[0] + 1);
    assert(rest[1] == g[1] + 1);
    assert(rest[2] == g[2] + 1);
}

} // verus!
