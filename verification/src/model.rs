//! The data the statistics are computed from and the results they produce.
use vstd::prelude::*;

verus! {

/// A commit time as git records it: seconds since the Unix epoch and the
/// committer's offset from UTC in minutes.
#[derive(Clone, Copy, Debug)]
pub struct GitTime {
    pub seconds: i64,
    pub offset_minutes: i32,
}

/// The earliest commit time, in seconds since the epoch, that the calendar
/// computations accept: the start of year -262143, the first year of the
/// calendar, plus a day less a second, so that the local date, less than a
/// day away, still lies in the calendar.
pub const MIN_SECONDS: i64 = -8_334_601_228_801i64;

/// The latest commit time, in seconds since the epoch, that the calendar
/// computations accept: the end of year 262142, the last year of the
/// calendar, less a day less a second.
pub const MAX_SECONDS: i64 = 8_210_266_790_400i64;

/// A commit time that can be placed on the calendar: the offset is less
/// than a day and the instant, moved by less than a day either way, lies
/// within the calendar's range.
pub open spec fn valid_git_time(t: GitTime) -> bool {
    &&& -1440 < t.offset_minutes < 1440
    &&& MIN_SECONDS <= t.seconds <= MAX_SECONDS
}

impl GitTime {
    /// Whether the time can be placed on the calendar.
    pub fn is_valid(&self) -> (r: bool)
        ensures
            r == valid_git_time(*self),
    {
        -1440 < self.offset_minutes && self.offset_minutes < 1440 && MIN_SECONDS <= self.seconds
            && self.seconds <= MAX_SECONDS
    }
}

/// The calendar fields of an instant in the machine's local time zone.
#[derive(Clone, Copy, Debug)]
pub struct CalendarTime {
    pub year: i32,
    /// Month of the year, from 0 (January) to 11 (December).
    pub month0: u32,
    /// Day of the month, from 1.
    pub day: u32,
    /// Day of the week, from 0 (Monday) to 6 (Sunday).
    pub weekday: u32,
    /// Hour of the day, from 0 to 23.
    pub hour: u32,
}

/// Whether a year of the (proleptic) Gregorian calendar is a leap year.
pub open spec fn is_leap_year(y: int) -> bool {
    (y % 4 == 0 && y % 100 != 0) || y % 400 == 0
}

/// The number of days of month `m` (0 = January) of year `y`.
pub open spec fn days_in_month(y: int, m: int) -> int {
    if m == 1 {
        if is_leap_year(y) {
            29
        } else {
            28
        }
    } else if m == 3 || m == 5 || m == 8 || m == 10 {
        30
    } else {
        31
    }
}

/// The number of days of a month (0 = January) of a year.
pub fn month_length(year: i32, month0: u32) -> (d: u32)
    requires
        -400_000 <= year,
        month0 < 12,
    ensures
        d == days_in_month(year as int, month0 as int),
{
    let p: u64 = (year as i64 + 400_000) as u64;
    proof {
        let y = year as int;
        assert(p as int == y + 400 * 1000);
        assert((y + 4 * 100_000) % 4 == y % 4) by {
            vstd::arithmetic::div_mod::lemma_mod_multiples_vanish(100_000, y, 4);
        }
        assert((y + 100 * 4_000) % 100 == y % 100) by {
            vstd::arithmetic::div_mod::lemma_mod_multiples_vanish(4_000, y, 100);
        }
        assert((y + 400 * 1_000) % 400 == y % 400) by {
            vstd::arithmetic::div_mod::lemma_mod_multiples_vanish(1_000, y, 400);
        }
    }
    if month0 == 1 {
        if (p % 4 == 0 && p % 100 != 0) || p % 400 == 0 {
            29
        } else {
            28
        }
    } else if month0 == 3 || month0 == 5 || month0 == 8 || month0 == 10 {
        30
    } else {
        31
    }
}

/// The ranges that the calendar fields always lie in.
pub open spec fn valid_calendar(c: CalendarTime) -> bool {
    &&& -262143 <= c.year <= 262142
    &&& c.month0 < 12
    &&& 1 <= c.day <= days_in_month(c.year as int, c.month0 as int)
    &&& c.weekday < 7
    &&& c.hour < 24
}

/// The calendar fields of the instant `s` seconds after the epoch on a
/// clock that shows UTC: the (proleptic) Gregorian date of day `s / 86400`
/// counted from 1970-01-01, a Thursday, and the hour of the day.
pub open spec fn civil_calendar(s: int) -> CalendarTime {
    let days = s / 86400;
    let z = days + 719468;
    let era = z / 146097;
    let doe = z - era * 146097;
    let yoe = (doe - doe / 1460 + doe / 36524 - doe / 146096) / 365;
    let doy = doe - (365 * yoe + yoe / 4 - yoe / 100);
    let mp = (5 * doy + 2) / 153;
    let month = if mp < 10 { mp + 3 } else { mp - 9 };
    CalendarTime {
        year: (yoe + era * 400 + if month <= 2 { 1int } else { 0int }) as i32,
        month0: (month - 1) as u32,
        day: (doy - (153 * mp + 2) / 5 + 1) as u32,
        weekday: ((days + 3) % 7) as u32,
        hour: ((s % 86400) / 3600) as u32,
    }
}

/// `c` is the calendar of the instant `s` seconds after the epoch in a
/// time zone whose offset from UTC is less than a day.
pub open spec fn local_calendar_of(s: int, c: CalendarTime) -> bool {
    exists|off: int| -86400 < off < 86400 && c == #[trigger] civil_calendar(s + off)
}

/// The statistics of one non-merge commit.
#[derive(Clone, Debug)]
pub struct Stat {
    /// The raw 20-byte object id of the commit.
    pub id: [u8; 20],
    pub author: String,
    pub email: String,
    pub inserts: u32,
    pub dels: u32,
    pub time: GitTime,
    pub message: Option<String>,
}

/// Inserted lines, deleted lines and commits of a group of commits.
#[derive(Clone, Copy, Debug)]
pub struct MainStat {
    pub inserts: u32,
    pub dels: u32,
    pub commits: u32,
}

impl View for MainStat {
    type V = (int, int, int);

    open spec fn view(&self) -> (int, int, int) {
        (self.inserts as int, self.dels as int, self.commits as int)
    }
}

impl Default for MainStat {
    fn default() -> (s: MainStat)
        ensures
            s@ == (0int, 0int, 0int),
    {
        MainStat { inserts: 0, dels: 0, commits: 0 }
    }
}

/// A commit author: a name and an e-mail address.
#[derive(Clone, Debug)]
pub struct Author(pub String, pub String);

impl Author {
    /// The author as a pair of character sequences.
    pub open spec fn key(&self) -> (Seq<char>, Seq<char>) {
        (self.0@, self.1@)
    }

    /// A copy of this author.
    pub fn duplicate(&self) -> (a: Author)
        ensures
            a.key() == self.key(),
    {
        Author(self.0.clone(), self.1.clone())
    }

    /// Whether both authors have the same name and e-mail address.
    pub fn same(&self, other: &Author) -> (r: bool)
        ensures
            r == (self.key() == other.key()),
    {
        self.0 == other.0 && self.1 == other.1
    }
}

/// The statistics of one author: in total, per day of the week (Monday
/// first) and per quarter of the day (night, morning, day, evening).
#[derive(Clone, Debug)]
pub struct ResultStat {
    pub sign: Author,
    pub stat: MainStat,
    pub days: [MainStat; 7],
    pub daytimes: [MainStat; 4],
}

/// Whether every counter of a `ResultStat` is zero.
pub open spec fn all_zero(r: ResultStat) -> bool {
    &&& r.stat@ == (0int, 0int, 0int)
    &&& forall|d: int| 0 <= d < 7 ==> (#[trigger] r.days@[d])@ == (0int, 0int, 0int)
    &&& forall|q: int| 0 <= q < 4 ==> (#[trigger] r.daytimes@[q])@ == (0int, 0int, 0int)
}

impl ResultStat {
    /// Empty statistics of the given author.
    pub fn new(author: String, email: String) -> (r: ResultStat)
        ensures
            r.sign.0@ == author@,
            r.sign.1@ == email@,
            all_zero(r),
    {
        let z = MainStat { inserts: 0, dels: 0, commits: 0 };
        ResultStat { sign: Author(author, email), stat: z, days: [z; 7], daytimes: [z; 4] }
    }
}

/// The author with the most commits in one month.
#[derive(Clone, Debug)]
pub struct TopMonthContributer {
    pub year: u16,
    /// Month of the year, from 0 (January) to 11 (December).
    pub month: u8,
    pub sign: Author,
    pub stat: MainStat,
}

impl TopMonthContributer {
    /// Builds the record from its parts.
    pub fn new(year: u16, month: u8, author: Author, stat: MainStat) -> (t: TopMonthContributer)
        ensures
            t.year == year,
            t.month == month,
            t.sign == author,
            t.stat == stat,
    {
        TopMonthContributer { year: year, month: month, sign: author, stat: stat }
    }
}

/// The number of files per file extension in the tree of one commit,
/// with the (local) year and month (0 = January) of that commit.
#[derive(Clone, Debug)]
pub struct LanguageStatSnapshot(pub i32, pub u32, pub Vec<(String, u32)>);

/// Everything the statistics produce: the top contributor of each month
/// (latest month first), the statistics of each author by e-mail address
/// in increasing order of address, with the entry `TOTAL` for all commits,
/// and five snapshots of the languages over the history.
#[derive(Clone, Debug)]
pub struct AllResultStat {
    pub top_monthly: Vec<TopMonthContributer>,
    pub common_stats: Vec<(String, ResultStat)>,
    pub lang_stats: [LanguageStatSnapshot; 5],
}

} // verus!
