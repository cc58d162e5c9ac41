//! Counting commits: which commits a statistic covers, and what it sums to.
use vstd::prelude::*;
use crate::model::{CalendarTime, Stat};

verus! {

/// The part of the week or of the day that a counter covers.
pub enum Slot {
    /// Every commit.
    All,
    /// Commits made on the given day of the week (0 = Monday).
    Day(int),
    /// Commits made in the given quarter of the day (hour / 6).
    Daytime(int),
}

/// Which commits a counter covers.
pub struct Selector {
    /// Only commits with this e-mail address, if given.
    pub email: Option<Seq<char>>,
    /// Only commits of this (name, e-mail address), if given.
    pub author: Option<(Seq<char>, Seq<char>)>,
    /// Only commits made in this (year, month of the year), if given.
    pub month: Option<(int, int)>,
    pub slot: Slot,
}

/// The selector of the commits with the given e-mail address (or of all
/// commits) in the given slot.
pub open spec fn by_email(email: Option<Seq<char>>, slot: Slot) -> Selector {
    Selector { email: email, author: None, month: None, slot: slot }
}

/// The selector of the commits of an author in a month.
pub open spec fn by_author_month(author: (Seq<char>, Seq<char>), month: (int, int)) -> Selector {
    Selector { email: None, author: Some(author), month: Some(month), slot: Slot::All }
}

/// The selector of the commits made in a month.
pub open spec fn by_month(month: (int, int)) -> Selector {
    Selector { email: None, author: None, month: Some(month), slot: Slot::All }
}

/// The selector of every commit.
pub open spec fn everything() -> Selector {
    Selector { email: None, author: None, month: None, slot: Slot::All }
}

/// The (year, month of the year) of a calendar time.
pub open spec fn month_of(c: CalendarTime) -> (int, int) {
    (c.year as int, c.month0 as int)
}

/// Whether a commit, made at the given calendar time, is covered.
pub open spec fn selects(s: Stat, c: CalendarTime, sel: Selector) -> bool {
    &&& (sel.email matches Some(e) ==> s.email@ == e)
    &&& (sel.author matches Some(a) ==> (s.author@, s.email@) == a)
    &&& (sel.month matches Some(m) ==> month_of(c) == m)
    &&& match sel.slot {
        Slot::All => true,
        Slot::Day(d) => c.weekday == d,
        Slot::Daytime(q) => c.hour / 6 == q,
    }
}

/// Inserted lines, deleted lines and number of the covered commits among
/// the first `n`; `cals[i]` is the calendar time of `stats[i]`.
pub open spec fn tally(stats: Seq<Stat>, cals: Seq<CalendarTime>, n: int, sel: Selector) -> (int, int, int)
    decreases n,
{
    if n <= 0 {
        (0, 0, 0)
    } else {
        let t = tally(stats, cals, n - 1, sel);
        if selects(stats[n - 1], cals[n - 1], sel) {
            (t.0 + stats[n - 1].inserts, t.1 + stats[n - 1].dels, t.2 + 1)
        } else {
            t
        }
    }
}

/// `a` is at most `b` in each of the three counts.
pub open spec fn le3(a: (int, int, int), b: (int, int, int)) -> bool {
    a.0 <= b.0 && a.1 <= b.1 && a.2 <= b.2
}

/// The three counts of all commits fit in a `u32`.
pub open spec fn totals_fit_u32(stats: Seq<Stat>, cals: Seq<CalendarTime>) -> bool {
    let t = tally(stats, cals, stats.len() as int, everything());
    t.0 <= u32::MAX && t.1 <= u32::MAX && t.2 <= u32::MAX
}

/// Counts are non-negative, grow with `n`, and no selector counts more than
/// all commits.
pub proof fn lemma_tally_bounds(stats: Seq<Stat>, cals: Seq<CalendarTime>, n: int, m: int, sel: Selector)
    requires
        0 <= n <= m,
    ensures
        le3((0, 0, 0), tally(stats, cals, n, sel)),
        le3(tally(stats, cals, n, sel), tally(stats, cals, m, everything())),
        tally(stats, cals, n, sel).2 <= n,
    decreases m - n, n,
{
    if m > n {
        lemma_tally_bounds(stats, cals, n, m - 1, sel);
    } else if n > 0 {
        lemma_tally_bounds(stats, cals, n - 1, m - 1, sel);
    }
}

/// Counting the commits covered by `a` and those covered by `b`, when no
/// commit is covered by both and those covered by `u` are exactly those
/// covered by one of them, gives the count of `u`.
pub proof fn lemma_tally_split(
    stats: Seq<Stat>,
    cals: Seq<CalendarTime>,
    n: int,
    u: Selector,
    a: Selector,
    b: Selector,
)
    requires
        forall|i: int|
            0 <= i < n ==> (selects(stats[i], cals[i], u) <==> (selects(stats[i], cals[i], a)
                || selects(stats[i], cals[i], b))),
        forall|i: int|
            0 <= i < n ==> !(selects(stats[i], cals[i], a) && selects(stats[i], cals[i], b)),
    ensures
        tally(stats, cals, n, u) == ({
            let ta = tally(stats, cals, n, a);
            let tb = tally(stats, cals, n, b);
            (ta.0 + tb.0, ta.1 + tb.1, ta.2 + tb.2)
        }),
    decreases n,
{
    if n > 0 {
        lemma_tally_split(stats, cals, n - 1, u, a, b);
    }
}

/// Two selectors that cover the same commits count the same.
pub proof fn lemma_tally_same(stats: Seq<Stat>, cals: Seq<CalendarTime>, n: int, a: Selector, b: Selector)
    requires
        forall|i: int|
            0 <= i < n ==> (selects(stats[i], cals[i], a) <==> selects(stats[i], cals[i], b)),
    ensures
        tally(stats, cals, n, a) == tally(stats, cals, n, b),
    decreases n,
{
    if n > 0 {
        lemma_tally_same(stats, cals, n - 1, a, b);
    }
}

/// A selector that covers no commit counts zero.
pub proof fn lemma_tally_none(stats: Seq<Stat>, cals: Seq<CalendarTime>, n: int, a: Selector)
    requires
        forall|i: int| 0 <= i < n ==> !selects(stats[i], cals[i], a),
    ensures
        tally(stats, cals, n, a) == (0int, 0int, 0int),
    decreases n,
{
    if n > 0 {
        lemma_tally_none(stats, cals, n - 1, a);
    }
}

/// A selector that covers at most the commits of another counts at most
/// as much.
pub proof fn lemma_tally_sub(stats: Seq<Stat>, cals: Seq<CalendarTime>, n: int, a: Selector, b: Selector)
    requires
        forall|i: int|
            0 <= i < n ==> (selects(stats[i], cals[i], a) ==> selects(stats[i], cals[i], b)),
    ensures
        le3(tally(stats, cals, n, a), tally(stats, cals, n, b)),
    decreases n,
{
    if n > 0 {
        lemma_tally_sub(stats, cals, n - 1, a, b);
    }
}

/// Inserted lines, deleted lines and number of the first `n` commits.
pub open spec fn commit_totals(stats: Seq<Stat>, n: int) -> (int, int, int)
    decreases n,
{
    if n <= 0 {
        (0, 0, 0)
    } else {
        let t = commit_totals(stats, n - 1);
        (t.0 + stats[n - 1].inserts, t.1 + stats[n - 1].dels, t.2 + 1)
    }
}

/// The lines and the number of all commits fit in a `u32`, so that no
/// counter overflows.
pub open spec fn sums_fit_u32(stats: Seq<Stat>) -> bool {
    let t = commit_totals(stats, stats.len() as int);
    t.0 <= u32::MAX && t.1 <= u32::MAX && t.2 <= u32::MAX
}

/// Counting every commit does not depend on the calendar times.
pub proof fn lemma_tally_everything(stats: Seq<Stat>, cals: Seq<CalendarTime>, n: int)
    ensures
        tally(stats, cals, n, everything()) == commit_totals(stats, n),
    decreases n,
{
    if n > 0 {
        lemma_tally_everything(stats, cals, n - 1);
    }
}

/// The totals grow with the number of commits.
proof fn lemma_commit_totals_grow(stats: Seq<Stat>, n: int, m: int)
    requires
        0 <= n <= m,
    ensures
        le3(commit_totals(stats, n), commit_totals(stats, m)),
    decreases m,
{
    if m > n {
        lemma_commit_totals_grow(stats, n, m - 1);
    }
}

/// Whether the lines and the number of all commits fit in a `u32`.
pub fn sums_fit(stats: &[Stat]) -> (r: bool)
    ensures
        r == sums_fit_u32(stats@),
{
    let mut inserts: u64 = 0;
    let mut dels: u64 = 0;
    let mut count: u64 = 0;
    let mut i: usize = 0;
    while i < stats.len()
        invariant
            i <= stats@.len(),
            (inserts as int, dels as int, count as int) == commit_totals(stats@, i as int),
            inserts <= u32::MAX,
            dels <= u32::MAX,
            count <= u32::MAX,
        decreases stats@.len() - i,
    {
        inserts = inserts + stats[i].inserts as u64;
        dels = dels + stats[i].dels as u64;
        count = count + 1;
        if inserts > 0xffff_ffff || dels > 0xffff_ffff || count > 0xffff_ffff {
            proof {
                lemma_commit_totals_grow(stats@, i + 1, stats@.len() as int);
            }
            return false;
        }
        i = i + 1;
    }
    true
}

} // verus!
